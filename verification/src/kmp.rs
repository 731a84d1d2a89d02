//! Linear-time byte-substring search (Knuth-Morris-Pratt), used for the
//! TLS host patterns where a quadratic scan would be unacceptable.
use vstd::prelude::*;

verus! {

/// The pattern occurs in `text` starting at index `s`.
pub open spec fn occurs_at(text: Seq<u8>, pat: Seq<u8>, s: int) -> bool {
    &&& 0 <= s
    &&& s + pat.len() <= text.len()
    &&& forall|x: int| 0 <= x < pat.len() ==> text[s + x] == pat[x]
}

/// The pattern occurs somewhere in `text`.
pub open spec fn contains_bytes(text: Seq<u8>, pat: Seq<u8>) -> bool {
    exists|s: int| occurs_at(text, pat, s)
}

/// `k` is the length of a proper border of `s`: a prefix of length `k` that
/// is also a suffix, with `k < s.len()`.
pub open spec fn is_border(s: Seq<u8>, k: int) -> bool {
    &&& 0 <= k < s.len()
    &&& forall|x: int| 0 <= x < k ==> #[trigger] s[x] == s[s.len() - k + x]
}

/// Every entry `t[i]` is the length of the longest proper border of
/// `p.take(i + 1)`.
pub open spec fn table_ok(p: Seq<u8>, t: Seq<usize>) -> bool {
    &&& t.len() == p.len()
    &&& forall|i: int|
        0 <= i < p.len() ==> is_border(#[trigger] p.take(i + 1), t[i] as int)
    &&& forall|i: int, b: int|
        0 <= i < p.len() && #[trigger] is_border(p.take(i + 1), b) ==> b <= t[i] as int
}

/// A shorter border is a border of a longer border.
proof fn lemma_border_of_border(s: Seq<u8>, b1: int, b2: int)
    requires
        is_border(s, b1),
        is_border(s, b2),
        b1 < b2,
    ensures
        is_border(s.take(b2), b1),
{
    let n = s.len() as int;
    assert forall|x: int| 0 <= x < b1 implies #[trigger] s.take(b2)[x] == s.take(b2)[b2 - b1
        + x] by {
        assert(s[b2 - b1 + x] == s[n - b2 + b2 - b1 + x]);
        assert(s[x] == s[n - b1 + x]);
    }
}

/// A border of a border of `s` is itself a border of `s`.
proof fn lemma_border_trans(s: Seq<u8>, k: int, m: int)
    requires
        is_border(s, k),
        is_border(s.take(k), m),
    ensures
        is_border(s, m),
{
    let n = s.len() as int;
    assert forall|x: int| 0 <= x < m implies #[trigger] s[x] == s[n - m + x] by {
        assert(s.take(k)[x] == s.take(k)[k - m + x]);
        assert(s[k - m + x] == s[n - k + (k - m + x)]);
    }
}

/// Builds the KMP failure table: `r[i]` is the length of the longest proper
/// border of `pattern[..i + 1]`.
#[verifier::rlimit(60)]
pub fn build_kmp_table(pattern: &[u8]) -> (r: Vec<usize>)
    ensures
        table_ok(pattern@, r@),
{
    let p_len = pattern.len();
    let mut table: Vec<usize> = Vec::new();
    if p_len == 0 {
        return table;
    }
    table.push(0);
    proof {
        assert(pattern@.take(1).len() == 1);
        assert forall|b: int| is_border(pattern@.take(1), b) implies b <= 0 by {}
    }
    let mut i: usize = 1;
    let mut j: usize = 0;
    while i < p_len
        invariant
            p_len == pattern@.len(),
            1 <= i <= p_len,
            0 <= j < i,
            table@.len() == i,
            table_ok(pattern@.take(i as int), table@),
            is_border_or_zero(pattern@.take(i as int), j as int),
            i < p_len ==> forall|b: int|
                j < b < i ==> !(is_border(#[trigger] pattern@.take(i as int), b)
                    && pattern@[b] == pattern@[i as int]),
        decreases p_len - i, j,
    {
        let ghost p = pattern@;
        let ghost pi = p.take(i as int);
        let ghost pi1 = p.take(i + 1);
        proof {
            assert forall|x: int| 0 <= x < i implies #[trigger] pi1[x] == pi[x] by {}
        }
        if pattern[i] == pattern[j] {
            let nj = j + 1;
            proof {
                // nj is a border of p.take(i + 1)
                assert(is_border(pi1, nj as int)) by {
                    assert forall|x: int| 0 <= x < nj implies #[trigger] pi1[x] == pi1[i + 1 - nj + x] by {
                        if x < j {
                            assert(pi[x] == pi[i - j + x]);
                        } else {
                            assert(pi1[x] == p[j as int]);
                            assert(pi1[i + 1 - nj + x] == p[i as int]);
                        }
                    }
                }
                // and it is the longest one
                assert forall|b: int| is_border(pi1, b) implies b <= nj as int by {
                    if b > nj {
                        // then b - 1 would be a border of p.take(i) matching p[i]
                        assert(is_border(pi, b - 1)) by {
                            assert forall|x: int| 0 <= x < b - 1 implies #[trigger] pi[x] == pi[i - (b - 1)
                                + x] by {
                                assert(pi1[x] == pi1[i + 1 - b + x]);
                            }
                        }
                        assert(pi[b - 1] == pi1[b - 1]);
                        assert(pi1[b - 1] == pi1[i + 1 - b + (b - 1)]);
                        assert(p[b - 1] == p[i as int]);
                        assert(false);
                    }
                }
            }
            table.push(nj);
            proof {
                assert(table_ok(p.take(i + 1), table@)) by {
                    assert forall|k: int| 0 <= k < i + 1 implies is_border(
                        #[trigger] p.take(i + 1).take(k + 1),
                        table@[k] as int,
                    ) by {
                        assert(p.take(i + 1).take(k + 1) =~= p.take(k + 1));
                        if k < i {
                            assert(pi.take(k + 1) =~= p.take(k + 1));
                        } else {
                            assert(p.take(k + 1) =~= pi1);
                        }
                    }
                    assert forall|k: int, b: int|
                        0 <= k < i + 1 && #[trigger] is_border(p.take(i + 1).take(k + 1), b)
                        implies b <= table@[k] as int by {
                        assert(p.take(i + 1).take(k + 1) =~= p.take(k + 1));
                        if k < i {
                            assert(pi.take(k + 1) =~= p.take(k + 1));
                        } else {
                            assert(p.take(k + 1) =~= pi1);
                        }
                    }
                }
                // set up the next iteration's invariants
                if i + 1 < p_len {
                    assert forall|b: int|
                        nj < b < i + 1 && #[trigger] is_border(p.take(i + 1), b) implies false by {
                        assert(b <= nj);
                    }
                }
                assert(is_border_or_zero(p.take(i + 1), nj as int));
            }
            i = i + 1;
            j = nj;
        } else {
            if j != 0 {
                let nj = table[j - 1];
                proof {
                    let pj = p.take(j as int);
                    assert(pi.take(j as int) =~= pj);
                    assert(p.take((j - 1) + 1) =~= pj);
                    assert(is_border(pj, nj as int));
                    assert(nj < j);
                    // nj is still a border of p.take(i)
                    assert(is_border(pi, j as int));
                    if nj > 0 {
                        lemma_border_trans(pi, j as int, nj as int);
                    }
                    // no border between nj and j can match p[i]
                    assert forall|b: int|
                        nj < b < i && #[trigger] is_border(pi, b) && p[b] == p[i as int]
                        implies false by {
                        if b > j {
                            assert(!(is_border(pi, b) && p[b] == p[i as int]));
                        } else if b == j {
                            assert(p[j as int] != p[i as int]);
                        } else {
                            // b < j: b is a border of p.take(j), longer than nj
                            lemma_border_of_border(pi, b, j as int);
                            assert(pi.take(j as int) =~= pj);
                            assert(b <= nj);
                        }
                    }
                }
                j = nj;
            } else {
                table.push(0);
                proof {
                    assert(table_ok(p.take(i + 1), table@)) by {
                        assert forall|k: int| 0 <= k < i + 1 implies is_border(
                            #[trigger] p.take(i + 1).take(k + 1),
                            table@[k] as int,
                        ) by {
                            assert(p.take(i + 1).take(k + 1) =~= p.take(k + 1));
                            if k < i {
                                assert(pi.take(k + 1) =~= p.take(k + 1));
                            } else {
                                assert(p.take(k + 1) =~= pi1);
                                assert(pi1.len() == i + 1);
                            }
                        }
                        assert forall|k: int, b: int|
                            0 <= k < i + 1 && #[trigger] is_border(p.take(i + 1).take(k + 1), b)
                            implies b <= table@[k] as int by {
                            assert(p.take(i + 1).take(k + 1) =~= p.take(k + 1));
                            if k < i {
                                assert(pi.take(k + 1) =~= p.take(k + 1));
                            } else {
                                assert(p.take(k + 1) =~= pi1);
                                if b > 0 {
                                    // a positive border of p.take(i + 1) would make
                                    // p[b - 1] match the mismatching p[i]
                                    assert(pi1[b - 1] == pi1[i + 1 - b + (b - 1)]);
                                    if b - 1 == 0 {
                                        assert(p[0] != p[i as int]);
                                    } else {
                                        assert(is_border(pi, b - 1)) by {
                                            assert forall|x: int| 0 <= x < b - 1 implies #[trigger] pi[x]
                                                == pi[i - (b - 1) + x] by {
                                                assert(pi1[x] == pi1[i + 1 - b + x]);
                                            }
                                        }
                                        assert(!(is_border(pi, b - 1) && p[b - 1]
                                            == p[i as int]));
                                    }
                                    assert(false);
                                }
                            }
                        }
                    }
                    if i + 1 < p_len {
                        assert forall|b: int|
                            0 < b < i + 1 && #[trigger] is_border(p.take(i + 1), b)
                            implies false by {
                            assert(p.take(i + 1).take(i + 1) =~= p.take(i + 1));
                            assert(is_border(p.take(i + 1).take(i + 1), b));
                            assert(b <= table@[i as int] as int);
                        }
                    }
                }
                i = i + 1;
            }
        }
    }
    proof {
        assert(pattern@.take(p_len as int) =~= pattern@);
    }
    table
}

/// A helper: `k` is a border of `s` or is zero (the empty border).
pub open spec fn is_border_or_zero(s: Seq<u8>, k: int) -> bool {
    k == 0 || is_border(s, k)
}

/// Searches `text` for `pattern` in `O(text.len() + pattern.len())` time.
/// Returns the index of the first occurrence, or `None` when the pattern
/// does not occur. The empty pattern occurs at index 0.
pub fn kmp_search(text: &[u8], pattern: &[u8]) -> (r: Option<usize>)
    ensures
        match r {
            Some(s) => occurs_at(text@, pattern@, s as int) && forall|s2: int|
                0 <= s2 < s ==> !occurs_at(text@, pattern@, s2),
            None => !contains_bytes(text@, pattern@),
        },
{
    if pattern.len() == 0 {
        proof {
            assert(occurs_at(text@, pattern@, 0));
        }
        return Some(0);
    }
    let table = build_kmp_table(pattern);
    let t_len = text.len();
    let p_len = pattern.len();
    let mut i: usize = 0;
    let mut j: usize = 0;
    while i < t_len
        invariant
            t_len == text@.len(),
            p_len == pattern@.len(),
            0 < p_len,
            table_ok(pattern@, table@),
            0 <= j < p_len,
            j <= i <= t_len,
            forall|x: int| 0 <= x < j ==> text@[i - j + x] == pattern@[x],
            forall|s: int| 0 <= s < i - j ==> !occurs_at(text@, pattern@, s),
        decreases t_len - i, j,
    {
        let ghost p = pattern@;
        let ghost t = text@;
        if text[i] == pattern[j] {
            i = i + 1;
            j = j + 1;
            if j == p_len {
                proof {
                    assert(occurs_at(t, p, i - j)) by {
                        assert forall|x: int| 0 <= x < p.len() implies t[i - j + x] == #[trigger] p[x] by {}
                    }
                }
                return Some(i - j);
            }
        } else {
            if j != 0 {
                let nj = table[j - 1];
                proof {
                    let pj = p.take(j as int);
                    assert(p.take((j - 1) + 1) =~= pj);
                    assert(is_border(pj, nj as int));
                    assert(nj < j);
                    // the matched suffix shrinks to the border
                    assert forall|x: int| 0 <= x < nj implies t[i - nj + x] == #[trigger] p[x] by {
                        assert(pj[x] == pj[j - nj + x]);
                        assert(t[i - j + (j - nj + x)] == p[j - nj + x]);
                    }
                    // no occurrence can start in the skipped range
                    assert forall|s: int| 0 <= s < i - nj implies !occurs_at(t, p, s) by {
                        if i - j <= s && occurs_at(t, p, s) {
                            if s == i - j {
                                assert(t[s + j] == p[j as int]);
                                assert(false);
                            } else {
                                // i - s would be a border of p.take(j) longer than nj
                                let b = i - s;
                                assert(is_border(pj, b)) by {
                                    assert forall|x: int| 0 <= x < b implies #[trigger] pj[x] == pj[j - b
                                        + x] by {
                                        assert(t[s + x] == p[x]);
                                        assert(t[i - j + (j - b + x)] == p[j - b + x]);
                                    }
                                }
                                assert(b <= nj);
                                assert(false);
                            }
                        }
                    }
                }
                j = nj;
            } else {
                proof {
                    assert forall|s: int| 0 <= s < i + 1 implies !occurs_at(t, p, s) by {
                        if s == i && occurs_at(t, p, s) {
                            assert(t[s + 0] == p[0]);
                        }
                    }
                }
                i = i + 1;
            }
        }
    }
    proof {
        assert forall|s: int| 0 <= s implies !occurs_at(text@, pattern@, s) by {
            if occurs_at(text@, pattern@, s) {
                assert(s + p_len <= t_len);
                assert(s < i - j);
            }
        }
    }
    None
}

} // verus!
