//! Content-aware target selection: an ordered list of `(pattern, remote)`
//! rules; the first pattern that matches a flow's first payload decides the
//! upstream. Patterns are protocol tags (`[ssh]`, `[http]`, `[http:<host>]`,
//! `[https:<host>]`, `[socks5]`, `[rdp]`) or arbitrary regular expressions
//! matched against both the payload's lowercase hex encoding and its lossy
//! UTF-8 decoding.
use vstd::prelude::*;
use vstd::utf8::encode_utf8;
use crate::addr::{IpRepr, NetAddr};
use crate::address_matcher::{allows, nets_of, IpAddrMatcher, IpNetRepr};
use crate::kmp::{contains_bytes, kmp_search};

verus! {

#[verifier::external_type_specification]
#[verifier::external_body]
pub struct ExRegex(regex::Regex);

/// Whether `regex::Regex::new` accepts this pattern text (given as UTF-8
/// bytes; bytes that are not valid UTF-8 are never accepted).
pub uninterp spec fn regex_ok(pat: Seq<u8>) -> bool;

/// The pattern text a compiled `regex::Regex` holds: the text it was
/// compiled from (`Regex::as_str` returns it), as UTF-8 bytes.
pub uninterp spec fn regex_src(re: regex::Regex) -> Seq<u8>;

/// Whether the regular expression given by `pat` matches the haystack
/// `text` (both as UTF-8 bytes): what `regex::Regex::is_match` returns,
/// a function of the two texts alone.
pub uninterp spec fn regex_matches(pat: Seq<u8>, text: Seq<u8>) -> bool;

/// What `String::from_utf8_lossy` yields on a byte sequence: a function of
/// the bytes alone.
pub uninterp spec fn lossy_of(bytes: Seq<u8>) -> Seq<char>;

/// Relies on `regex::Regex::new` (reached through `str::from_utf8`):
/// whether a pattern compiles is a function of its text alone, and the
/// compiled value keeps that text.
#[verifier::external_body]
fn regex_new(pat: &[u8]) -> (r: Option<regex::Regex>)
    ensures
        r is Some <==> regex_ok(pat@),
        r matches Some(re) ==> regex_src(re) == pat@,
{
    match core::str::from_utf8(pat) {
        Ok(s) => regex::Regex::new(s).ok(),
        Err(_) => None,
    }
}

/// Relies on `regex::Regex::is_match`: the answer is a function of the
/// compiled pattern's text and the haystack.
#[verifier::external_body]
fn regex_is_match(re: &regex::Regex, text: &str) -> (r: bool)
    ensures
        r == regex_matches(regex_src(*re), encode_utf8(text@)),
{
    re.is_match(text)
}

/// The lowercase hex digit for a value below 16.
pub open spec fn hex_digit(n: u8) -> u8 {
    if n < 10 {
        (n + 0x30) as u8
    } else {
        (n + 0x57) as u8
    }
}

/// The lowercase hex encoding of a byte sequence: two digits per byte.
pub open spec fn hex_bytes(s: Seq<u8>) -> Seq<u8>
    decreases s.len(),
{
    if s.len() == 0 {
        Seq::empty()
    } else {
        hex_bytes(s.drop_last()) + seq![
            hex_digit(s.last() / 16),
            hex_digit(s.last() % 16),
        ]
    }
}

/// Relies on `hex::encode`: each byte becomes two lowercase hex digits,
/// in order.
#[verifier::external_body]
fn hex_encode(buf: &[u8]) -> (r: String)
    ensures
        encode_utf8(r@) == hex_bytes(buf@),
{
    hex::encode(buf)
}

/// Relies on `String::from_utf8_lossy`: invalid UTF-8 is replaced, valid
/// UTF-8 is kept, as a function of the bytes alone.
#[verifier::external_body]
fn utf8_lossy(buf: &[u8]) -> (r: String)
    ensures
        r@ == lossy_of(buf@),
{
    String::from_utf8_lossy(buf).into_owned()
}

// ---------------------------------------------------------------------
// The pattern grammar.
// ---------------------------------------------------------------------

pub open spec fn ssh_tag() -> Seq<u8> {
    encode_utf8("[ssh]"@)
}

pub open spec fn http_tag() -> Seq<u8> {
    encode_utf8("[http]"@)
}

pub open spec fn socks5_tag() -> Seq<u8> {
    encode_utf8("[socks5]"@)
}

pub open spec fn rdp_tag() -> Seq<u8> {
    encode_utf8("[rdp]"@)
}

pub open spec fn https_prefix() -> Seq<u8> {
    encode_utf8("[https:"@)
}

pub open spec fn http_prefix() -> Seq<u8> {
    encode_utf8("[http:"@)
}

pub open spec fn close_bracket() -> Seq<u8> {
    encode_utf8("]"@)
}

pub open spec fn any_tag() -> Seq<u8> {
    encode_utf8(".*"@)
}

pub open spec fn ssh_regex() -> Seq<u8> {
    encode_utf8("^SSH-2\\.0-.+"@)
}

pub open spec fn http_regex() -> Seq<u8> {
    encode_utf8("^(GET|POST|PUT|DELETE|OPTIONS|HEAD|CONNECT|TRACE).*HTTP.*"@)
}

pub open spec fn http_host_regex_prefix() -> Seq<u8> {
    encode_utf8("^(GET|POST|PUT|DELETE|OPTIONS|HEAD|CONNECT|TRACE).*HTTP.*(.\r\n.*)*"@)
}

pub open spec fn has_prefix(s: Seq<u8>, p: Seq<u8>) -> bool {
    s.len() >= p.len() && s.take(p.len() as int) == p
}

pub open spec fn has_suffix(s: Seq<u8>, p: Seq<u8>) -> bool {
    s.len() >= p.len() && s.skip(s.len() - p.len()) == p
}

/// `s` consists of the prefix `pre`, some middle, and the suffix `suf`.
pub open spec fn wrapped_by(s: Seq<u8>, pre: Seq<u8>, suf: Seq<u8>) -> bool {
    has_prefix(s, pre) && has_suffix(s, suf) && pre.len() + suf.len() <= s.len()
}

/// The middle part between the prefix and the suffix.
pub open spec fn wrapped_middle(s: Seq<u8>, pre: Seq<u8>, suf: Seq<u8>) -> Seq<u8> {
    s.subrange(pre.len() as int, s.len() - suf.len())
}

/// A rule's matching behaviour, as plain values: either one of the
/// hand-written protocol predicates, or a regular expression.
pub enum SpecRuleKind {
    Socks5,
    Rdp,
    HttpsHost(Seq<u8>),
    Re(Seq<u8>),
}

/// How a pattern string (as UTF-8 bytes) is classified. `[ssh]` and
/// `[http]` first expand to their regular expressions; `[socks5]`, `[rdp]`
/// and `[https:<host>]` select hand-written predicates; `[http:<host>]`
/// expands to a host-constrained HTTP regex; anything else is a regex.
pub open spec fn spec_kind_of(pb: Seq<u8>) -> SpecRuleKind {
    let g = if pb == ssh_tag() {
        ssh_regex()
    } else if pb == http_tag() {
        http_regex()
    } else {
        pb
    };
    if g == socks5_tag() {
        SpecRuleKind::Socks5
    } else if g == rdp_tag() {
        SpecRuleKind::Rdp
    } else if wrapped_by(g, https_prefix(), close_bracket()) {
        SpecRuleKind::HttpsHost(wrapped_middle(g, https_prefix(), close_bracket()))
    } else if wrapped_by(g, http_prefix(), close_bracket()) {
        SpecRuleKind::Re(http_host_regex_prefix() + wrapped_middle(g, http_prefix(), close_bracket()))
    } else {
        SpecRuleKind::Re(g)
    }
}

/// SOCKS5 greeting: version 5, a method count that fills the payload, and
/// every advertised method among the known ones.
pub open spec fn spec_socks5(buf: Seq<u8>) -> bool {
    &&& buf.len() >= 3
    &&& buf[0] == 0x05
    &&& buf.len() == buf[1] + 2
    &&& forall|i: int| 2 <= i < buf.len() ==> socks5_method_ok(#[trigger] buf[i])
}

pub open spec fn socks5_method_ok(b: u8) -> bool {
    b == 0x00 || b == 0x01 || b == 0x02 || b == 0x03 || b == 0x80 || b == 0xff
}

/// TPKT + COTP connection request: version 3, the big-endian length at
/// bytes 2..4 equal to the payload length, the COTP header filling the
/// rest, a connection-request code, and a zero DST-REF.
pub open spec fn spec_rdp(buf: Seq<u8>) -> bool {
    &&& buf.len() >= 11
    &&& buf[0] == 0x03
    &&& buf[2] * 256 + buf[3] == buf.len()
    &&& buf[4] + 5 == buf.len()
    &&& buf[5] & 0xe0 == 0xe0
    &&& buf[6] == 0x00
    &&& buf[7] == 0x00
}

/// TLS ClientHello prefix `16 03 01` and the host name somewhere in the
/// payload.
pub open spec fn spec_https_host(host: Seq<u8>, buf: Seq<u8>) -> bool {
    &&& buf.len() >= 3
    &&& buf[0] == 0x16
    &&& buf[1] == 0x03
    &&& buf[2] == 0x01
    &&& contains_bytes(buf, host)
}

/// Whether one rule matches a payload. A regex rule matches when the
/// expression matches the payload's lowercase hex encoding or its lossy
/// UTF-8 decoding.
pub open spec fn spec_rule_matches(kind: SpecRuleKind, buf: Seq<u8>) -> bool {
    match kind {
        SpecRuleKind::Socks5 => spec_socks5(buf),
        SpecRuleKind::Rdp => spec_rdp(buf),
        SpecRuleKind::HttpsHost(h) => spec_https_host(h, buf),
        SpecRuleKind::Re(e) => regex_matches(e, hex_bytes(buf)) || regex_matches(
            e,
            encode_utf8(lossy_of(buf)),
        ),
    }
}

/// The first rule that matches decides the target.
pub open spec fn spec_decide(rules: Seq<(SpecRuleKind, NetAddr)>, buf: Seq<u8>) -> Option<NetAddr>
    decreases rules.len(),
{
    if rules.len() == 0 {
        None
    } else if spec_rule_matches(rules.first().0, buf) {
        Some(rules.first().1)
    } else {
        spec_decide(rules.drop_first(), buf)
    }
}

/// Every pattern that classifies as a regex must compile.
pub open spec fn spec_patterns_ok(pats: Seq<Seq<u8>>) -> bool {
    forall|k: int| 0 <= k < pats.len() ==> (#[trigger] spec_kind_of(pats[k]) matches
        SpecRuleKind::Re(e) ==> regex_ok(e))
}

// ---------------------------------------------------------------------
// The plugin.
// ---------------------------------------------------------------------

/// The capability a forwarding engine needs from a connection plugin:
/// access control, an optional fast-path single target, target selection
/// from the first payload, and an (unused) payload transform hook.
pub trait ConnectionPlugin {
    spec fn spec_only_single_target(&self) -> Option<NetAddr>;

    spec fn spec_decide_target(&self, buf: Seq<u8>) -> Option<NetAddr>;

    spec fn spec_ip_allowed(&self, ip: IpRepr) -> bool;

    /// The fast-path target, when a single catch-all rule makes the first
    /// payload irrelevant.
    fn onlySingleTarget(&self) -> (r: Option<NetAddr>)
        ensures
            r == self.spec_only_single_target(),
    ;

    /// The upstream for a flow whose first payload is `buf`, arriving from
    /// `addr`.
    fn decideTarget(&self, buf: &[u8], addr: NetAddr) -> (r: Option<NetAddr>)
        ensures
            r == self.spec_decide_target(buf@),
    ;

    /// Whether a peer with this address may connect.
    fn testipaddr(&self, addr: &NetAddr) -> (r: bool)
        ensures
            r == self.spec_ip_allowed(addr.ip),
    ;

    /// An optional payload rewrite; `None` forwards the payload unchanged.
    fn transform(&mut self, buf: &[u8]) -> Option<Vec<u8>>;
}

/// One compiled rule.
struct Rule {
    kind: RuleKind,
    target: NetAddr,
}

enum RuleKind {
    Socks5,
    Rdp,
    HttpsHost(Vec<u8>),
    Re(regex::Regex),
}

impl RuleKind {
    spec fn view(&self) -> SpecRuleKind {
        match self {
            RuleKind::Socks5 => SpecRuleKind::Socks5,
            RuleKind::Rdp => SpecRuleKind::Rdp,
            RuleKind::HttpsHost(h) => SpecRuleKind::HttpsHost(h@),
            RuleKind::Re(re) => SpecRuleKind::Re(regex_src(*re)),
        }
    }
}

/// The shipped plugin: ordered regex/tag rules plus a CIDR allow list.
pub struct RegexMultiplexer {
    utarget: Option<NetAddr>,
    rules: Vec<Rule>,
    ip_matcher: IpAddrMatcher,
}

impl RegexMultiplexer {
    /// The rules, as their matching behaviour and target.
    pub closed spec fn spec_rules(&self) -> Seq<(SpecRuleKind, NetAddr)> {
        self.rules@.map_values(|r: Rule| (r.kind.view(), r.target))
    }

    /// The allow list's parsed networks.
    pub closed spec fn spec_nets(&self) -> Seq<IpNetRepr> {
        self.ip_matcher@
    }

    pub closed spec fn spec_utarget(&self) -> Option<NetAddr> {
        self.utarget
    }

    /// Builds the multiplexer: classifies each pattern, compiles the regex
    /// ones, and parses the allow list. Fails exactly when some pattern
    /// classifies as a regular expression that does not compile.
    pub fn from(remote_map: &Vec<(String, NetAddr)>, allow_nets: &Vec<String>) -> (r: Result<
        RegexMultiplexer,
        PluginError,
    >)
        ensures
            r is Ok <==> spec_patterns_ok(
                remote_map@.map_values(|p: (String, NetAddr)| encode_utf8(p.0@)),
            ),
            r matches Ok(m) ==> {
                &&& m.spec_rules() == remote_map@.map_values(
                    |p: (String, NetAddr)| (spec_kind_of(encode_utf8(p.0@)), p.1),
                )
                &&& m.spec_nets() == nets_of(allow_nets@.map_values(|s: String| s@))
                &&& m.spec_utarget() == spec_single_of(remote_map@.map_values(
                    |p: (String, NetAddr)| (encode_utf8(p.0@), p.1),
                ))
            },
    {
        let ghost pats = remote_map@.map_values(|p: (String, NetAddr)| encode_utf8(p.0@));
        let mut rules: Vec<Rule> = Vec::new();
        let mut i: usize = 0;
        while i < remote_map.len()
            invariant
                0 <= i <= remote_map@.len(),
                pats == remote_map@.map_values(|p: (String, NetAddr)| encode_utf8(p.0@)),
                rules@.len() == i,
                forall|k: int| 0 <= k < i ==> (#[trigger] rules@[k]).kind.view() == spec_kind_of(
                    encode_utf8(remote_map@[k].0@),
                ) && rules@[k].target == remote_map@[k].1,
                forall|k: int| 0 <= k < i ==> (#[trigger] spec_kind_of(pats[k]) matches
                    SpecRuleKind::Re(e) ==> regex_ok(e)),
            decreases remote_map@.len() - i,
        {
            let pair = &remote_map[i];
            let pb: &[u8] = pair.0.as_str().as_bytes();
            proof {
                assert(pats[i as int] == pb@);
            }
            let kind = match classify(pb) {
                Some(k) => k,
                None => {
                    proof {
                        assert(spec_kind_of(pats[i as int]) matches SpecRuleKind::Re(e)
                            && !regex_ok(e));
                    }
                    return Err(PluginError::InvalidPattern);
                },
            };
            rules.push(Rule { kind, target: pair.1 });
            i = i + 1;
        }
        proof {
            assert(rules@.map_values(|r: Rule| (r.kind.view(), r.target)) =~= remote_map@
                .map_values(|p: (String, NetAddr)| (spec_kind_of(encode_utf8(p.0@)), p.1)));
            assert(spec_patterns_ok(pats));
        }
        let utarget: Option<NetAddr> = if remote_map.len() == 1 && bytes_eq(
            remote_map[0].0.as_str().as_bytes(),
            (".*").as_bytes(),
        ) {
            Some(remote_map[0].1)
        } else {
            None
        };
        proof {
            let spairs = remote_map@.map_values(|p: (String, NetAddr)| (encode_utf8(p.0@), p.1));
            assert(utarget == spec_single_of(spairs));
        }
        let ip_matcher = IpAddrMatcher::from(allow_nets);
        Ok(RegexMultiplexer { utarget, rules, ip_matcher })
    }
}

/// The fast-path target: present exactly when there is a single rule and
/// its pattern is the catch-all `.*`.
pub open spec fn spec_single_of(pairs: Seq<(Seq<u8>, NetAddr)>) -> Option<NetAddr> {
    if pairs.len() == 1 && pairs[0].0 == any_tag() {
        Some(pairs[0].1)
    } else {
        None
    }
}

/// Construction errors: a pattern classified as a regular expression did
/// not compile.
#[derive(Clone, Copy, PartialEq, Eq, Structural, Debug)]
pub enum PluginError {
    InvalidPattern,
}

/// Classifies one pattern and compiles it if it is a regex; `None` when
/// the regex does not compile.
fn classify(pb: &[u8]) -> (r: Option<RuleKind>)
    ensures
        match r {
            Some(k) => k.view() == spec_kind_of(pb@) && (k.view() matches SpecRuleKind::Re(e)
                ==> regex_ok(e)),
            None => spec_kind_of(pb@) matches SpecRuleKind::Re(e) && !regex_ok(e),
        },
{
    let g: &[u8] = if bytes_eq(pb, ("[ssh]").as_bytes()) {
        ("^SSH-2\\.0-.+").as_bytes()
    } else if bytes_eq(pb, ("[http]").as_bytes()) {
        ("^(GET|POST|PUT|DELETE|OPTIONS|HEAD|CONNECT|TRACE).*HTTP.*").as_bytes()
    } else {
        pb
    };
    if bytes_eq(g, ("[socks5]").as_bytes()) {
        Some(RuleKind::Socks5)
    } else if bytes_eq(g, ("[rdp]").as_bytes()) {
        Some(RuleKind::Rdp)
    } else if bytes_wrapped_by(g, ("[https:").as_bytes(), ("]").as_bytes()) {
        let pre_len = ("[https:").as_bytes().len();
        let suf_len = ("]").as_bytes().len();
        let host = bytes_range(g, pre_len, g.len() - suf_len);
        Some(RuleKind::HttpsHost(host))
    } else if bytes_wrapped_by(g, ("[http:").as_bytes(), ("]").as_bytes()) {
        let pre_len = ("[http:").as_bytes().len();
        let suf_len = ("]").as_bytes().len();
        let host = bytes_range(g, pre_len, g.len() - suf_len);
        let exp = bytes_concat(
            ("^(GET|POST|PUT|DELETE|OPTIONS|HEAD|CONNECT|TRACE).*HTTP.*(.\r\n.*)*").as_bytes(),
            host.as_slice(),
        );
        match regex_new(exp.as_slice()) {
            Some(re) => Some(RuleKind::Re(re)),
            None => None,
        }
    } else {
        match regex_new(g) {
            Some(re) => Some(RuleKind::Re(re)),
            None => None,
        }
    }
}

impl ConnectionPlugin for RegexMultiplexer {
    open spec fn spec_only_single_target(&self) -> Option<NetAddr> {
        self.spec_utarget()
    }

    open spec fn spec_decide_target(&self, buf: Seq<u8>) -> Option<NetAddr> {
        spec_decide(self.spec_rules(), buf)
    }

    open spec fn spec_ip_allowed(&self, ip: IpRepr) -> bool {
        allows(self.spec_nets(), ip)
    }

    fn onlySingleTarget(&self) -> (r: Option<NetAddr>) {
        self.utarget
    }

    fn decideTarget(&self, buf: &[u8], addr: NetAddr) -> (r: Option<NetAddr>) {
        let ghost rules = self.spec_rules();
        proof {
            assert(rules.skip(0) =~= rules);
        }
        let mut i: usize = 0;
        while i < self.rules.len()
            invariant
                0 <= i <= self.rules@.len(),
                rules == self.spec_rules(),
                rules.len() == self.rules@.len(),
                spec_decide(rules, buf@) == spec_decide(rules.skip(i as int), buf@),
            decreases self.rules@.len() - i,
        {
            proof {
                assert(rules.skip(i as int).first() == rules[i as int]);
                assert(rules.skip(i as int).drop_first() =~= rules.skip(i + 1));
            }
            if rule_matches(&self.rules[i].kind, buf) {
                return Some(self.rules[i].target);
            }
            i = i + 1;
        }
        proof {
            assert(rules.skip(rules.len() as int).len() == 0);
        }
        None
    }

    fn testipaddr(&self, addr: &NetAddr) -> (r: bool) {
        self.ip_matcher.testipaddr(&addr.ip)
    }

    fn transform(&mut self, buf: &[u8]) -> Option<Vec<u8>> {
        None
    }
}

/// Whether one compiled rule matches a payload.
fn rule_matches(kind: &RuleKind, buf: &[u8]) -> (r: bool)
    ensures
        r == spec_rule_matches(kind.view(), buf@),
{
    match kind {
        RuleKind::Socks5 => socks5_matches(buf),
        RuleKind::Rdp => rdp_matches(buf),
        RuleKind::HttpsHost(host) => https_host_matches(host.as_slice(), buf),
        RuleKind::Re(re) => {
            let h = hex_encode(buf);
            if regex_is_match(re, h.as_str()) {
                return true;
            }
            let l = utf8_lossy(buf);
            regex_is_match(re, l.as_str())
        },
    }
}

/// The SOCKS5 greeting predicate.
fn socks5_matches(buf: &[u8]) -> (r: bool)
    ensures
        r == spec_socks5(buf@),
{
    if buf.len() < 3 || buf[0] != 0x05 {
        return false;
    }
    let n = buf[1] as usize;
    if buf.len() != n + 2 {
        return false;
    }
    let mut i: usize = 2;
    while i < buf.len()
        invariant
            2 <= i <= buf@.len(),
            forall|k: int| 2 <= k < i ==> socks5_method_ok(#[trigger] buf@[k]),
        decreases buf@.len() - i,
    {
        let b = buf[i];
        if b != 0x00 && b != 0x01 && b != 0x02 && b != 0x03 && b != 0x80 && b != 0xff {
            return false;
        }
        i = i + 1;
    }
    true
}

/// The RDP (TPKT + COTP connection request) predicate.
fn rdp_matches(buf: &[u8]) -> (r: bool)
    ensures
        r == spec_rdp(buf@),
{
    if buf.len() < 11 || buf[0] != 0x03 {
        return false;
    }
    let length = (buf[2] as usize) * 256 + (buf[3] as usize);
    if length != buf.len() {
        return false;
    }
    if (buf[4] as usize) + 5 != buf.len() {
        return false;
    }
    if buf[5] & 0xe0 != 0xe0 {
        return false;
    }
    if buf[6] != 0x00 || buf[7] != 0x00 {
        return false;
    }
    true
}

/// The TLS-ClientHello-with-host predicate; the substring search is the
/// linear-time `kmp_search`.
fn https_host_matches(host: &[u8], buf: &[u8]) -> (r: bool)
    ensures
        r == spec_https_host(host@, buf@),
{
    if buf.len() < 3 {
        return false;
    }
    if buf[0] != 0x16 || buf[1] != 0x03 || buf[2] != 0x01 {
        return false;
    }
    match kmp_search(buf, host) {
        Some(_) => true,
        None => false,
    }
}

// ---------------------------------------------------------------------
// Small byte-sequence helpers.
// ---------------------------------------------------------------------

fn bytes_eq(a: &[u8], b: &[u8]) -> (r: bool)
    ensures
        r == (a@ == b@),
{
    if a.len() != b.len() {
        proof {
            assert(a@ != b@) by {
                assert(a@.len() != b@.len());
            }
        }
        return false;
    }
    let mut i: usize = 0;
    while i < a.len()
        invariant
            0 <= i <= a@.len(),
            a@.len() == b@.len(),
            forall|k: int| 0 <= k < i ==> a@[k] == b@[k],
        decreases a@.len() - i,
    {
        if a[i] != b[i] {
            return false;
        }
        i = i + 1;
    }
    proof {
        assert(a@ =~= b@);
    }
    true
}

fn bytes_has_prefix(a: &[u8], p: &[u8]) -> (r: bool)
    ensures
        r == has_prefix(a@, p@),
{
    if a.len() < p.len() {
        return false;
    }
    let mut i: usize = 0;
    while i < p.len()
        invariant
            0 <= i <= p@.len() <= a@.len(),
            forall|k: int| 0 <= k < i ==> a@[k] == p@[k],
        decreases p@.len() - i,
    {
        if a[i] != p[i] {
            proof {
                assert(a@.take(p@.len() as int)[i as int] != p@[i as int]);
            }
            return false;
        }
        i = i + 1;
    }
    proof {
        assert(a@.take(p@.len() as int) =~= p@);
    }
    true
}

/// Whether `a` carries prefix `pre` and suffix `suf` without overlap.
fn bytes_wrapped_by(a: &[u8], pre: &[u8], suf: &[u8]) -> (r: bool)
    ensures
        r == wrapped_by(a@, pre@, suf@),
{
    if a.len() < pre.len() || a.len() - pre.len() < suf.len() {
        return false;
    }
    bytes_has_prefix(a, pre) && bytes_has_suffix(a, suf)
}

fn bytes_has_suffix(a: &[u8], p: &[u8]) -> (r: bool)
    ensures
        r == has_suffix(a@, p@),
{
    if a.len() < p.len() {
        return false;
    }
    let off = a.len() - p.len();
    let mut i: usize = 0;
    while i < p.len()
        invariant
            0 <= i <= p@.len() <= a@.len() <= usize::MAX,
            off == a@.len() - p@.len(),
            forall|k: int| 0 <= k < i ==> a@[off + k] == p@[k],
        decreases p@.len() - i,
    {
        proof {
            assert(off + i < a@.len());
        }
        if a[off + i] != p[i] {
            proof {
                assert(a@.skip(off as int)[i as int] != p@[i as int]);
            }
            return false;
        }
        i = i + 1;
    }
    proof {
        assert(a@.skip(off as int) =~= p@);
    }
    true
}

/// Copies `a[from..to]` out as a vector.
fn bytes_range(a: &[u8], from: usize, to: usize) -> (r: Vec<u8>)
    requires
        0 <= from <= to <= a@.len(),
    ensures
        r@ == a@.subrange(from as int, to as int),
{
    let mut r: Vec<u8> = Vec::new();
    let mut i: usize = from;
    while i < to
        invariant
            from <= i <= to <= a@.len(),
            r@ =~= a@.subrange(from as int, i as int),
        decreases to - i,
    {
        r.push(a[i]);
        proof {
            assert(a@.subrange(from as int, i + 1) =~= a@.subrange(from as int, i as int).push(
                a@[i as int],
            ));
        }
        i = i + 1;
    }
    r
}

/// Concatenates two byte strings.
fn bytes_concat(a: &[u8], b: &[u8]) -> (r: Vec<u8>)
    ensures
        r@ == a@ + b@,
{
    let mut r: Vec<u8> = Vec::new();
    let mut i: usize = 0;
    while i < a.len()
        invariant
            0 <= i <= a@.len(),
            r@ =~= a@.take(i as int),
        decreases a@.len() - i,
    {
        r.push(a[i]);
        i = i + 1;
    }
    let mut j: usize = 0;
    while j < b.len()
        invariant
            0 <= j <= b@.len(),
            r@ =~= a@ + b@.take(j as int),
        decreases b@.len() - j,
    {
        r.push(b[j]);
        j = j + 1;
    }
    proof {
        assert(a@ + b@.take(b@.len() as int) =~= a@ + b@);
    }
    r
}

} // verus!
