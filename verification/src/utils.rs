//! Byte-size parsing: `"2MB"` -> `2 * 1024 * 1024`.
use vstd::prelude::*;

verus! {

/// True for the ASCII decimal digits.
pub open spec fn is_digit_char(c: char) -> bool {
    '0' <= c && c <= '9'
}

/// Characters treated as surrounding whitespace when the unit is trimmed.
pub open spec fn is_space_char(c: char) -> bool {
    c == ' ' || c == '\t' || c == '\n' || c == '\r' || c == '\u{b}' || c == '\u{c}'
}

/// The digit characters of `s`, in order.
pub open spec fn digit_chars(s: Seq<char>) -> Seq<char>
    decreases s.len(),
{
    if s.len() == 0 {
        Seq::empty()
    } else if is_digit_char(s.last()) {
        digit_chars(s.drop_last()).push(s.last())
    } else {
        digit_chars(s.drop_last())
    }
}

/// The non-digit characters of `s`, in order.
pub open spec fn unit_chars(s: Seq<char>) -> Seq<char>
    decreases s.len(),
{
    if s.len() == 0 {
        Seq::empty()
    } else if !is_digit_char(s.last()) {
        unit_chars(s.drop_last()).push(s.last())
    } else {
        unit_chars(s.drop_last())
    }
}

/// The value of a sequence of decimal digits, most significant first.
/// A character outside `0..9` contributes nothing.
pub open spec fn dec_val(ds: Seq<char>) -> nat
    decreases ds.len(),
{
    if ds.len() == 0 {
        0
    } else if is_digit_char(ds.last()) {
        dec_val(ds.drop_last()) * 10 + ((ds.last() as int - '0' as int) as nat)
    } else {
        dec_val(ds.drop_last())
    }
}

/// ASCII lowercase letters mapped to uppercase; everything else unchanged.
pub open spec fn upper_char(c: char) -> char {
    if 'a' <= c && c <= 'z' {
        (((c as u32) as u8) - 0x20) as char
    } else {
        c
    }
}

pub open spec fn trim_trailing(s: Seq<char>) -> Seq<char>
    decreases s.len(),
{
    if s.len() == 0 {
        Seq::empty()
    } else if is_space_char(s.last()) {
        trim_trailing(s.drop_last())
    } else {
        s
    }
}

pub open spec fn trim_leading(s: Seq<char>) -> Seq<char>
    decreases s.len(),
{
    if s.len() == 0 {
        Seq::empty()
    } else if is_space_char(s.first()) {
        trim_leading(s.drop_first())
    } else {
        s
    }
}

/// `s` with surrounding whitespace removed and ASCII letters uppercased.
pub open spec fn normalized_unit(s: Seq<char>) -> Seq<char> {
    trim_leading(trim_trailing(s)).map_values(|c: char| upper_char(c))
}

/// Index of the unit in `B, KB, MB, GB, TB`; the size is the number times
/// `1024^index`.
pub open spec fn unit_index(u: Seq<char>) -> Option<nat> {
    if u =~= seq!['B'] {
        Some(0nat)
    } else if u =~= seq!['K', 'B'] {
        Some(1nat)
    } else if u =~= seq!['M', 'B'] {
        Some(2nat)
    } else if u =~= seq!['G', 'B'] {
        Some(3nat)
    } else if u =~= seq!['T', 'B'] {
        Some(4nat)
    } else {
        None
    }
}

pub open spec fn pow1024(i: nat) -> nat
    decreases i,
{
    if i == 0 {
        1
    } else {
        1024 * pow1024((i - 1) as nat)
    }
}

/// What `convert_to_bytes` returns: the digit characters of the input form
/// the number, the remaining characters (trimmed, uppercased) must name a
/// unit, and the result is the number scaled by the unit, provided
/// everything fits in `usize`.
pub open spec fn spec_convert_to_bytes(s: Seq<char>) -> Option<usize> {
    let ds = digit_chars(s);
    let u = normalized_unit(unit_chars(s));
    if ds.len() == 0 || dec_val(ds) > usize::MAX {
        None
    } else {
        match unit_index(u) {
            None => None,
            Some(i) => if dec_val(ds) * pow1024(i) > usize::MAX {
                None
            } else {
                Some((dec_val(ds) * pow1024(i)) as usize)
            },
        }
    }
}

/// Executable counterpart of `is_space_char`.
fn is_space(c: char) -> (r: bool)
    ensures
        r == is_space_char(c),
{
    c == ' ' || c == '\t' || c == '\n' || c == '\r' || c == '\u{b}' || c == '\u{c}'
}

/// Parses a byte-size string such as `"2MB"`: a decimal number (its digit
/// characters, wherever they stand) scaled by a unit in `{B, KB, MB, GB, TB}`
/// (case-insensitive, surrounding whitespace ignored). Returns `None` on
/// malformed input or when the size does not fit in `usize`.
pub fn convert_to_bytes(input: &str) -> (r: Option<usize>)
    ensures
        r == spec_convert_to_bytes(input@),
{
    let n = input.unicode_len();
    let mut num: u128 = 0;
    let mut num_overflow = false;
    let mut num_len: usize = 0;
    let mut unit: Vec<char> = Vec::new();
    let mut i: usize = 0;
    while i < n
        invariant
            n == input@.len(),
            0 <= i <= n,
            num_len <= i,
            num_len == digit_chars(input@.take(i as int)).len(),
            !num_overflow ==> num == dec_val(input@.take(i as int)) <= usize::MAX,
            num_overflow ==> dec_val(input@.take(i as int)) > usize::MAX,
            unit@ =~= unit_chars(input@.take(i as int)),
        decreases n - i,
    {
        let c = input.get_char(i);
        proof {
            assert(input@.take(i + 1).drop_last() =~= input@.take(i as int));
            assert(input@.take(i + 1).last() == c);
        }
        if '0' <= c && c <= '9' {
            let d = (c as u32) - ('0' as u32);
            if !num_overflow {
                let next: u128 = num * 10 + (d as u128);
                if next > (usize::MAX as u128) {
                    num_overflow = true;
                } else {
                    num = next;
                }
            }
            num_len = num_len + 1;
            proof {
                assert(digit_chars(input@.take(i + 1)) =~= digit_chars(
                    input@.take(i as int),
                ).push(c));
            }
        } else {
            unit.push(c);
        }
        i = i + 1;
    }
    proof {
        assert(input@.take(n as int) =~= input@);
    }
    if num_len == 0 {
        proof {
            lemma_digit_count(input@);
        }
        return None;
    }
    if num_overflow {
        proof {
            lemma_dec_val_digits(input@);
        }
        return None;
    }
    proof {
        lemma_dec_val_digits(input@);
    }
    // normalize the unit characters: trim surrounding whitespace, uppercase
    let mut hi: usize = unit.len();
    proof {
        assert(unit@.take(unit@.len() as int) =~= unit@);
    }
    while hi > 0 && is_space(unit[hi - 1])
        invariant
            hi <= unit@.len(),
            unit@ == unit_chars(input@),
            trim_trailing(unit@) == trim_trailing(unit@.take(hi as int)),
        decreases hi,
    {
        proof {
            assert(unit@.take(hi as int).drop_last() =~= unit@.take(hi - 1));
        }
        hi = hi - 1;
    }
    proof {
        assert(trim_trailing(unit@.take(hi as int)) =~= unit@.take(hi as int));
        assert(unit@.take(hi as int).skip(0) =~= unit@.take(hi as int));
    }
    let mut lo: usize = 0;
    while lo < hi && is_space(unit[lo])
        invariant
            0 <= lo <= hi <= unit@.len(),
            unit@ == unit_chars(input@),
            trim_trailing(unit@) == unit@.take(hi as int),
            trim_leading(trim_trailing(unit@)) == trim_leading(
                unit@.take(hi as int).skip(lo as int),
            ),
        decreases hi - lo,
    {
        proof {
            assert(unit@.take(hi as int).skip(lo as int).drop_first() =~= unit@.take(
                hi as int,
            ).skip(lo + 1));
        }
        lo = lo + 1;
    }
    proof {
        let rem = unit@.take(hi as int).skip(lo as int);
        assert(trim_leading(rem) =~= rem);
    }
    let mut norm: Vec<char> = Vec::new();
    let mut j: usize = lo;
    while j < hi
        invariant
            0 <= lo <= j <= hi <= unit@.len(),
            unit@ == unit_chars(input@),
            norm@ =~= unit@.take(hi as int).skip(lo as int).take(j - lo).map_values(
                |c: char| upper_char(c),
            ),
        decreases hi - j,
    {
        let c = unit[j];
        let up = if 'a' <= c && c <= 'z' {
            (((c as u32) as u8) - 0x20) as char
        } else {
            c
        };
        proof {
            let pre = unit@.take(hi as int).skip(lo as int);
            assert(pre.take(j - lo + 1) =~= pre.take(j - lo).push(unit@[j as int]));
            assert(pre.take(j - lo + 1).map_values(|c: char| upper_char(c)) =~= pre.take(
                j - lo,
            ).map_values(|c: char| upper_char(c)).push(upper_char(unit@[j as int])));
        }
        norm.push(up);
        j = j + 1;
    }
    proof {
        let pre = unit@.take(hi as int).skip(lo as int);
        assert(pre.take(pre.len() as int) =~= pre);
        assert(norm@ =~= normalized_unit(unit_chars(input@)));
    }
    // match the normalized unit against the table
    let idx: usize = if norm.len() == 1 && norm[0] == 'B' {
        0
    } else if norm.len() == 2 && norm[0] == 'K' && norm[1] == 'B' {
        1
    } else if norm.len() == 2 && norm[0] == 'M' && norm[1] == 'B' {
        2
    } else if norm.len() == 2 && norm[0] == 'G' && norm[1] == 'B' {
        3
    } else if norm.len() == 2 && norm[0] == 'T' && norm[1] == 'B' {
        4
    } else {
        proof {
            assert(unit_index(norm@) is None);
        }
        return None;
    };
    proof {
        assert(unit_index(norm@) == Some(idx as nat));
    }
    let scale: u128 = if idx == 0 {
        1
    } else if idx == 1 {
        1024
    } else if idx == 2 {
        0x100000
    } else if idx == 3 {
        0x40000000
    } else {
        0x10000000000
    };
    proof {
        assert(pow1024(0) == 1);
        assert(pow1024(1) == 1024);
        assert(pow1024(2) == 0x100000);
        assert(pow1024(3) == 0x40000000);
        assert(pow1024(4) == 0x10000000000);
        assert(scale == pow1024(idx as nat));
        assert(num * scale <= 0xffffffffffffffff * 0x10000000000) by (nonlinear_arith)
            requires
                num <= 0xffffffffffffffff,
                scale <= 0x10000000000,
        ;
    }
    let total: u128 = num * scale;
    if total > (usize::MAX as u128) {
        None
    } else {
        Some(total as usize)
    }
}

/// The digit count of `s` is the length of its digit subsequence.
proof fn lemma_digit_count(s: Seq<char>)
    ensures
        digit_chars(s).len() == 0 ==> dec_val(s) == dec_val(Seq::<char>::empty()),
    decreases s.len(),
{
    if s.len() > 0 {
        lemma_digit_count(s.drop_last());
    }
}

/// `dec_val` of a string equals `dec_val` of just its digit characters.
proof fn lemma_dec_val_digits(s: Seq<char>)
    ensures
        dec_val(s) == dec_val(digit_chars(s)),
    decreases s.len(),
{
    if s.len() > 0 {
        lemma_dec_val_digits(s.drop_last());
        if is_digit_char(s.last()) {
            assert(digit_chars(s.drop_last()).push(s.last()).drop_last() =~= digit_chars(
                s.drop_last(),
            ));
        }
    }
}

} // verus!
