//! Leaf value validation.
//!
//! [`check`] evaluates a decoded leaf value (its canonical text form)
//! against the resolved scalar type of the leaf. It does not depend on the
//! document format: the XML and JSON mappers decode a leaf value into its
//! canonical text first and share this one validator.
//!
//! Only reducible scalars are checked: `string` (`length`, `pattern`),
//! integers (`range`, bit width), `decimal64` (lexical form, `range`),
//! `boolean`, `empty`, `binary` (base64), `enumeration` and `bits`. Unions,
//! references and unresolved types are never checked by [`check`];
//! [`check_ref`] covers `identityref` and `instance-identifier`.

use vstd::prelude::*;
use vstd::arithmetic::power2::pow2;
use crate::num::{all_digits, int_literal, int_text, parse_i128, pow2_i128, push_int};
use crate::text::{
    chars_eq, char_views, chars_of, find_char, has_char, is_alpha, is_digit, opt_view, push_all,
    push_str, split_at_char, split_at_range, split_chars, split_range, string_of, trim, trimmed,
    views, words, split_words,
};
use crate::decimal::{
    dec_intervals, dec_literal, dec_ranges, dec_ranges_defined, dec_ranges_ok, decimal_runs_fit,
    decimal_runs_ok, dv_has, is_decimal, parse_dec, parse_dec_defined, parse_dec_ok, valid_decimal,
    Dec, Dv,
};

verus! {

broadcast use vstd::slice::group_slice_axioms;

/// The resolved type of a leaf, as far as value checking reads it.
pub enum ValueType {
    /// `string`; every `length` and `pattern` along the typedef chain applies.
    String { lengths: Vec<String>, patterns: Vec<String> },
    /// `int8` ... `int64`, `uint8` ... `uint64`; every `range` applies.
    Integer { signed: bool, bits: u8, ranges: Vec<String> },
    /// `decimal64`; every `range` applies.
    Decimal64 { ranges: Vec<String> },
    Boolean,
    Empty,
    Binary,
    /// `enumeration`: the value is one of `members`.
    Enumeration { members: Vec<String> },
    /// `bits`: the value is a whitespace-separated subset of `members`.
    Bits { members: Vec<String> },
    Leafref { path: Option<String>, require_instance: bool },
    /// `identityref`: the value names `base` or an identity derived from it.
    Identityref { base: Option<String> },
    InstanceIdentifier,
    /// `union`: not checked (the first matching member is ambiguous).
    Union,
    /// A type that is not classified, or a typedef chain that did not resolve.
    Unknown,
}

/// A type whose values the value check reads: the scalar built-ins, enumerations
/// and bits.
pub open spec fn checked_type(t: ValueType) -> bool {
    match t {
        ValueType::String { .. } | ValueType::Integer { .. } | ValueType::Decimal64 { .. } | ValueType::Boolean
        | ValueType::Empty | ValueType::Binary | ValueType::Enumeration { .. } | ValueType::Bits { .. } => true,
        _ => false,
    }
}

impl ValueType {
    /// Whether the value check reads values of this type ([`checked_type`]).
    pub fn is_checked(&self) -> (r: bool)
        ensures
            r == checked_type(*self),
    {
        match self {
            ValueType::String { .. } | ValueType::Integer { .. } | ValueType::Decimal64 { .. } | ValueType::Boolean
            | ValueType::Empty | ValueType::Binary | ValueType::Enumeration { .. } | ValueType::Bits { .. } => true,
            _ => false,
        }
    }
}

/// One inclusive interval of an integer `length` or `range` argument; an
/// absent side is unbounded.
#[derive(Debug, Clone, Copy)]
pub struct Iv {
    pub lo: Option<i128>,
    pub hi: Option<i128>,
}

/// Whether `iv` contains `v`.
pub open spec fn iv_has(iv: Iv, v: int) -> bool {
    &&& (iv.lo matches Some(lo) ==> v >= lo)
    &&& (iv.hi matches Some(hi) ==> v <= hi)
}

impl Iv {
    /// Whether the interval contains `v`.
    pub fn contains(&self, v: i128) -> (r: bool)
        ensures
            r == iv_has(*self, v as int),
    {
        let ge = match self.lo {
            Some(lo) => v >= lo,
            None => true,
        };
        let le = match self.hi {
            Some(hi) => v <= hi,
            None => true,
        };
        ge && le
    }
}

/// A bound of an integer interval: `word` (`min` or `max`) for an
/// unbounded side, else an integer literal; `None` when malformed.
pub open spec fn int_bound(b: Seq<char>, word: Seq<char>) -> Option<Option<i128>> {
    if b == word {
        Some(None)
    } else {
        match int_literal(b) {
            Some(v) => Some(Some(v as i128)),
            None => None,
        }
    }
}

/// The interval that one `|`-separated part of a `length` or `range`
/// argument denotes: `a..b` or a single value.
pub open spec fn int_part(p: Seq<char>) -> Option<Iv> {
    let p = trim(p);
    match split_range(p) {
        Some((a, b)) => match (int_bound(trim(a), seq!['m', 'i', 'n']), int_bound(trim(b), seq!['m', 'a', 'x'])) {
            (Some(lo), Some(hi)) => Some(Iv { lo, hi }),
            _ => None,
        },
        None => match int_literal(p) {
            Some(v) => Some(Iv { lo: Some(v as i128), hi: Some(v as i128) }),
            None => None,
        },
    }
}

/// The intervals of the parts `ps`; `None` when one is malformed.
pub open spec fn int_parts(ps: Seq<Seq<char>>) -> Option<Seq<Iv>>
    decreases ps.len(),
{
    if ps.len() == 0 {
        Some(Seq::empty())
    } else {
        match (int_part(ps[0]), int_parts(ps.drop_first())) {
            (Some(iv), Some(rest)) => Some(seq![iv] + rest),
            _ => None,
        }
    }
}

/// The intervals of a `length` or `range` argument; `None` when malformed.
pub open spec fn int_ranges(spec: Seq<char>) -> Option<Seq<Iv>> {
    int_parts(split_at_char(spec, '|'))
}

/// Some interval of `ivs` contains `v`.
pub open spec fn any_iv_has(ivs: Seq<Iv>, v: int) -> bool {
    exists|k: int| 0 <= k < ivs.len() && iv_has(#[trigger] ivs[k], v)
}

/// `spec` is well formed and none of its intervals contains `v`.
pub open spec fn range_misses(spec: Seq<char>, v: int) -> bool {
    int_ranges(spec) matches Some(ivs) && !any_iv_has(ivs, v)
}

/// The first of `specs` that [`range_misses`] `v`.
pub open spec fn first_miss(specs: Seq<Seq<char>>, v: int) -> Option<Seq<char>>
    decreases specs.len(),
{
    if specs.len() == 0 {
        None
    } else if range_misses(specs[0], v) {
        Some(specs[0])
    } else {
        first_miss(specs.drop_first(), v)
    }
}

/// The bound of one side ([`int_bound`]).
fn parse_bound(b: &[char], word: &[char]) -> (r: Option<Option<i128>>)
    ensures
        r == int_bound(b@, word@),
{
    if chars_eq(b, word) {
        Some(None)
    } else {
        match parse_i128(b) {
            Some(v) => Some(Some(v)),
            None => None,
        }
    }
}

/// The interval of one part ([`int_part`]).
fn int_interval(part: &[char]) -> (r: Option<Iv>)
    ensures
        r == int_part(part@),
{
    let p = trimmed(part);
    let min: Vec<char> = vec!['m', 'i', 'n'];
    let max: Vec<char> = vec!['m', 'a', 'x'];
    proof {
        assert(min@ =~= seq!['m', 'i', 'n']);
        assert(max@ =~= seq!['m', 'a', 'x']);
    }
    match split_at_range(p.as_slice()) {
        Some((a, b)) => {
            let a = trimmed(a.as_slice());
            let b = trimmed(b.as_slice());
            let lo = match parse_bound(a.as_slice(), min.as_slice()) {
                Some(lo) => lo,
                None => {
                    return None;
                },
            };
            let hi = match parse_bound(b.as_slice(), max.as_slice()) {
                Some(hi) => hi,
                None => {
                    return None;
                },
            };
            Some(Iv { lo, hi })
        },
        None => match parse_i128(p.as_slice()) {
            Some(v) => Some(Iv { lo: Some(v), hi: Some(v) }),
            None => None,
        },
    }
}

/// Parse a YANG `length` or `range` argument: `"1..10"`, `"5"`,
/// `"1..10 | 20..30"`, with `min`/`max` for the unbounded sides. `None`
/// when malformed.
pub fn intervals(spec: &[char]) -> (r: Option<Vec<Iv>>)
    ensures
        match r {
            Some(v) => int_ranges(spec@) == Some(v@),
            None => int_ranges(spec@) is None,
        },
{
    let parts = split_chars(spec, '|');
    let ghost ps = char_views(parts@);
    let mut out: Vec<Iv> = Vec::new();
    let mut k: usize = 0;
    proof {
        assert(ps.skip(0) =~= ps);
        match int_parts(ps) {
            Some(all) => {
                assert(out@ + all =~= all);
            },
            None => {},
        }
    }
    while k < parts.len()
        invariant
            ps == char_views(parts@),
            ps == split_at_char(spec@, '|'),
            k <= ps.len(),
            int_parts(ps) == match int_parts(ps.skip(k as int)) {
                Some(rest) => Some(out@ + rest),
                None => None::<Seq<Iv>>,
            },
        decreases ps.len() - k,
    {
        let ghost rest = ps.skip(k as int);
        proof {
            assert(rest[0] == parts@[k as int]@);
            assert(rest.drop_first() =~= ps.skip(k + 1));
        }
        match int_interval(parts[k].as_slice()) {
            Some(iv) => {
                proof {
                    match int_parts(ps.skip(k + 1)) {
                        Some(tail) => {
                            assert(out@.push(iv) + tail =~= out@ + (seq![iv] + tail));
                        },
                        None => {},
                    }
                }
                out.push(iv);
            },
            None => {
                return None;
            },
        }
        k = k + 1;
    }
    proof {
        assert(ps.skip(k as int) =~= Seq::<Seq<char>>::empty());
        assert(out@ + Seq::<Iv>::empty() =~= out@);
    }
    Some(out)
}

/// Whether some interval of `ivs` contains `v`.
fn any_contains(ivs: &Vec<Iv>, v: i128) -> (r: bool)
    ensures
        r == any_iv_has(ivs@, v as int),
{
    let mut k: usize = 0;
    while k < ivs.len()
        invariant
            k <= ivs@.len(),
            forall|j: int| 0 <= j < k ==> !iv_has(#[trigger] ivs@[j], v as int),
        decreases ivs@.len() - k,
    {
        if ivs[k].contains(v) {
            return true;
        }
        k = k + 1;
    }
    false
}

/// The first of `specs` whose intervals are well formed and miss `v`
/// ([`first_miss`]), as an index.
fn find_miss(specs: &Vec<String>, v: i128) -> (r: Option<usize>)
    ensures
        match r {
            Some(k) => k < specs@.len() && first_miss(views(specs@), v as int) == Some(specs@[k as int]@),
            None => first_miss(views(specs@), v as int) is None,
        },
{
    let ghost all = views(specs@);
    let mut k: usize = 0;
    proof {
        assert(all.skip(0) =~= all);
    }
    while k < specs.len()
        invariant
            all == views(specs@),
            k <= specs@.len(),
            first_miss(all, v as int) == first_miss(all.skip(k as int), v as int),
        decreases specs@.len() - k,
    {
        proof {
            assert(all.skip(k as int)[0] == specs@[k as int]@);
            assert(all.skip(k as int).drop_first() =~= all.skip(k + 1));
        }
        let cs = chars_of(specs[k].as_str());
        match intervals(cs.as_slice()) {
            Some(ivs) => {
                if !any_contains(&ivs, v) {
                    return Some(k);
                }
            },
            None => {},
        }
        k = k + 1;
    }
    None
}

/// The name of an integer type: `int8`, `uint16`, ...
pub open spec fn int_type_name(signed: bool, bits: u8) -> Seq<char> {
    (if signed {
        "int"@
    } else {
        "uint"@
    }) + int_text(bits as int)
}

/// The name of an integer type ([`int_type_name`]).
pub fn int_name(signed: bool, bits: u8) -> (r: String)
    ensures
        r@ == int_type_name(signed, bits),
{
    let mut out: Vec<char> = Vec::new();
    if signed {
        push_str(&mut out, "int");
    } else {
        push_str(&mut out, "uint");
    }
    push_int(&mut out, bits as i128);
    proof {
        assert(out@ =~= int_type_name(signed, bits));
    }
    string_of(out.as_slice())
}

/// The bit widths for which [`bounds`] is defined (the shifts stay within
/// `i128`).
pub open spec fn bits_fit(signed: bool, bits: u8) -> bool {
    if signed {
        1 <= bits <= 127
    } else {
        bits <= 126
    }
}

/// The least and greatest value of an integer type of the given signedness
/// and width.
pub open spec fn int_bounds(signed: bool, bits: u8) -> (int, int) {
    if signed {
        (-pow2((bits - 1) as nat), pow2((bits - 1) as nat) - 1)
    } else {
        (0, pow2(bits as nat) - 1)
    }
}

/// The least and greatest value of an integer type ([`int_bounds`]).
pub fn bounds(signed: bool, bits: u8) -> (r: (i128, i128))
    requires
        bits_fit(signed, bits),
    ensures
        r.0 == int_bounds(signed, bits).0,
        r.1 == int_bounds(signed, bits).1,
{
    if signed {
        let m = pow2_i128(bits - 1);
        (-m, m - 1)
    } else {
        let m = pow2_i128(bits);
        (0, m - 1)
    }
}

/// The integer an integer leaf's trimmed text `s` denotes: a `-` followed
/// by an integer literal, or digits only.
pub open spec fn int_value(s: Seq<char>) -> Option<int> {
    if s.len() > 0 && s[0] == '-' {
        int_literal(s)
    } else if all_digits(s) {
        int_literal(s)
    } else {
        None
    }
}

/// What [`check_integer`] reports for `value`.
pub open spec fn integer_result(signed: bool, bits: u8, ranges: Seq<Seq<char>>, value: Seq<char>) -> Option<Seq<char>> {
    let s = trim(value);
    let name = int_type_name(signed, bits);
    match int_value(s) {
        None => Some("`"@ + s + "` is not a valid "@ + name),
        Some(v) => {
            let (lo, hi) = int_bounds(signed, bits);
            if v < lo || v > hi {
                Some("`"@ + s + "` is out of range for "@ + name + " ("@ + int_text(lo) + ".."@ + int_text(hi) + ")"@)
            } else {
                match first_miss(ranges, v) {
                    Some(spec) => Some("`"@ + s + "` is not in range "@ + spec + " for "@ + name),
                    None => None,
                }
            }
        },
    }
}

/// [`check_integer`] stays within its arithmetic on `value`.
pub open spec fn integer_defined(signed: bool, bits: u8, value: Seq<char>) -> bool {
    int_value(trim(value)) is Some ==> bits_fit(signed, bits)
}

/// Check an integer leaf value: its lexical form, the type's bounds, then
/// every `range`.
pub fn check_integer(signed: bool, bits: u8, ranges: &Vec<String>, value: &str) -> (r: Option<String>)
    requires
        integer_defined(signed, bits, value@),
    ensures
        match r {
            Some(m) => integer_result(signed, bits, views(ranges@), value@) == Some(m@),
            None => integer_result(signed, bits, views(ranges@), value@) is None,
        },
{
    let vc = chars_of(value);
    let s = trimmed(vc.as_slice());
    let name = int_name(signed, bits);
    let parsed = if s.len() > 0 && s[0] == '-' {
        parse_i128(s.as_slice())
    } else if digits_only(s.as_slice()) {
        parse_i128(s.as_slice())
    } else {
        None
    };
    let v = match parsed {
        Some(v) => v,
        None => {
            let mut out: Vec<char> = Vec::new();
            push_str(&mut out, "`");
            push_all(&mut out, s.as_slice());
            push_str(&mut out, "` is not a valid ");
            push_str(&mut out, name.as_str());
            proof {
                assert(out@ =~= "`"@ + s@ + "` is not a valid "@ + name@);
            }
            return Some(string_of(out.as_slice()));
        },
    };
    let (lo, hi) = bounds(signed, bits);
    if v < lo || v > hi {
        let mut out: Vec<char> = Vec::new();
        push_str(&mut out, "`");
        push_all(&mut out, s.as_slice());
        push_str(&mut out, "` is out of range for ");
        push_str(&mut out, name.as_str());
        push_str(&mut out, " (");
        push_int(&mut out, lo);
        push_str(&mut out, "..");
        push_int(&mut out, hi);
        push_str(&mut out, ")");
        proof {
            assert(out@ =~= "`"@ + s@ + "` is out of range for "@ + name@ + " ("@ + int_text(lo as int)
                + ".."@ + int_text(hi as int) + ")"@);
        }
        return Some(string_of(out.as_slice()));
    }
    match find_miss(ranges, v) {
        Some(k) => {
            let mut out: Vec<char> = Vec::new();
            push_str(&mut out, "`");
            push_all(&mut out, s.as_slice());
            push_str(&mut out, "` is not in range ");
            push_str(&mut out, ranges[k].as_str());
            push_str(&mut out, " for ");
            push_str(&mut out, name.as_str());
            proof {
                assert(out@ =~= "`"@ + s@ + "` is not in range "@ + ranges@[k as int]@ + " for "@ + name@);
            }
            Some(string_of(out.as_slice()))
        },
        None => None,
    }
}

/// Whether every character of `cs` is an ASCII digit.
fn digits_only(cs: &[char]) -> (r: bool)
    ensures
        r == all_digits(cs@),
{
    let mut k: usize = 0;
    while k < cs.len()
        invariant
            k <= cs@.len(),
            forall|j: int| 0 <= j < k ==> is_digit(#[trigger] cs@[j]),
        decreases cs@.len() - k,
    {
        if !('0' <= cs[k] && cs[k] <= '9') {
            proof {
                assert(!is_digit(cs@[k as int]));
            }
            return false;
        }
        k = k + 1;
    }
    true
}

/// The name for what the regex crate answers for regex text `re` and
/// `value`: `None` when `re` does not compile as a regex, else whether
/// `value` has a match of it.
pub uninterp spec fn regex_is_match(re: Seq<char>, value: Seq<char>) -> Option<bool>;

/// A YANG `pattern` wrapped in a group between `^` and `$`, so that a
/// well-formed pattern must match the whole value (a pattern with an
/// unbalanced `)` can close the group early and escape the anchors).
pub open spec fn anchored(pattern: Seq<char>) -> Seq<char> {
    "^(?:"@ + pattern + ")$"@
}

/// The regex for a YANG `pattern` ([`anchored`]).
pub fn anchored_pattern(pattern: &str) -> (r: String)
    ensures
        r@ == anchored(pattern@),
{
    let mut out: Vec<char> = Vec::new();
    push_str(&mut out, "^(?:");
    push_str(&mut out, pattern);
    push_str(&mut out, ")$");
    proof {
        assert(out@ =~= anchored(pattern@));
    }
    string_of(out.as_slice())
}

/// What the regex crate answers for `value` and the YANG `pattern` wrapped
/// by [`anchored`].
pub open spec fn regex_full_match(pattern: Seq<char>, value: Seq<char>) -> Option<bool> {
    regex_is_match(anchored(pattern), value)
}

/// `regex::Regex::new` on `re`, then `Regex::is_match` on `value`: the
/// result is named [`regex_is_match`] of the two texts (`None` when the
/// regex does not compile). Nothing more is claimed of it.
#[verifier::external_body]
fn regex_matches(re: &str, value: &str) -> (r: Option<bool>)
    ensures
        r == regex_is_match(re@, value@),
{
    match regex::Regex::new(re) {
        Ok(compiled) => Some(compiled.is_match(value)),
        Err(_) => None,
    }
}

/// Whether `value` matches the YANG `pattern` between anchors
/// ([`regex_full_match`]); `None` when the pattern is no regex.
fn pattern_matches(pattern: &str, value: &str) -> (r: Option<bool>)
    ensures
        r == regex_full_match(pattern@, value@),
{
    let re = anchored_pattern(pattern);
    regex_matches(re.as_str(), value)
}

/// The message for a value that a `pattern` rejects, given the outcome of
/// the anchored match: only a compiled regex that does not match rejects.
pub open spec fn pattern_message(pattern: Seq<char>, outcome: Option<bool>) -> Option<Seq<char>> {
    if outcome == Some(false) {
        Some("value does not match pattern `"@ + pattern + "`"@)
    } else {
        None
    }
}

/// [`pattern_message`] computed.
pub fn pattern_verdict(pattern: &str, outcome: Option<bool>) -> (r: Option<String>)
    ensures
        opt_view(r) == pattern_message(pattern@, outcome),
{
    match outcome {
        Some(false) => {
            let mut out: Vec<char> = Vec::new();
            push_str(&mut out, "value does not match pattern `");
            push_str(&mut out, pattern);
            push_str(&mut out, "`");
            proof {
                assert(out@ =~= "value does not match pattern `"@ + pattern@ + "`"@);
            }
            Some(string_of(out.as_slice()))
        },
        _ => None,
    }
}

/// The message of the first of `ps` that rejects `value`.
pub open spec fn first_pattern_miss(ps: Seq<Seq<char>>, value: Seq<char>) -> Option<Seq<char>>
    decreases ps.len(),
{
    if ps.len() == 0 {
        None
    } else if pattern_message(ps[0], regex_full_match(ps[0], value)) is Some {
        pattern_message(ps[0], regex_full_match(ps[0], value))
    } else {
        first_pattern_miss(ps.drop_first(), value)
    }
}

/// What [`check_string`] reports for `value`: the first `length` that the
/// number of characters misses, else the first `pattern` that rejects it.
pub open spec fn string_result(lengths: Seq<Seq<char>>, patterns: Seq<Seq<char>>, value: Seq<char>) -> Option<Seq<char>> {
    let n = value.len() as int;
    match first_miss(lengths, n) {
        Some(spec) => Some(
            "string length must be "@ + spec + " (value length "@ + int_text(n) + ")"@,
        ),
        None => first_pattern_miss(patterns, value),
    }
}

/// Check a string leaf value against every `length` and `pattern`.
pub fn check_string(lengths: &Vec<String>, patterns: &Vec<String>, value: &str) -> (r: Option<String>)
    ensures
        opt_view(r) == string_result(views(lengths@), views(patterns@), value@),
{
    let vc = chars_of(value);
    let n = vc.len();
    let ni = n as i128;
    match find_miss(lengths, ni) {
        Some(k) => {
            let mut out: Vec<char> = Vec::new();
            push_str(&mut out, "string length must be ");
            push_str(&mut out, lengths[k].as_str());
            push_str(&mut out, " (value length ");
            push_int(&mut out, ni);
            push_str(&mut out, ")");
            proof {
                assert(out@ =~= "string length must be "@ + lengths@[k as int]@ + " (value length "@
                    + int_text(n as int) + ")"@);
            }
            return Some(string_of(out.as_slice()));
        },
        None => {},
    }
    let ghost ps = views(patterns@);
    let mut k: usize = 0;
    proof {
        assert(ps.skip(0) =~= ps);
    }
    while k < patterns.len()
        invariant
            ps == views(patterns@),
            k <= ps.len(),
            string_result(views(lengths@), ps, value@) == first_pattern_miss(ps, value@),
            first_pattern_miss(ps, value@) == first_pattern_miss(ps.skip(k as int), value@),
        decreases ps.len() - k,
    {
        proof {
            assert(ps.skip(k as int)[0] == patterns@[k as int]@);
            assert(ps.skip(k as int).drop_first() =~= ps.skip(k + 1));
        }
        let outcome = pattern_matches(patterns[k].as_str(), value);
        match pattern_verdict(patterns[k].as_str(), outcome) {
            Some(m) => {
                return Some(m);
            },
            None => {},
        }
        k = k + 1;
    }
    None
}

/// A character of the base64 alphabet (`=` padding aside).
pub open spec fn is_b64_char(c: char) -> bool {
    is_alpha(c) || is_digit(c) || c == '+' || c == '/'
}

/// The number of `=` pads that end `s`.
pub open spec fn trailing_pads(s: Seq<char>) -> int
    decreases s.len(),
{
    if s.len() > 0 && s.last() == '=' {
        1 + trailing_pads(s.drop_last())
    } else {
        0
    }
}

/// `s` is a plausible base64 text: empty, or a multiple of four characters
/// of the standard alphabet followed by at most two trailing `=` pads.
pub open spec fn is_base64(s: Seq<char>) -> bool {
    s.len() == 0 || {
        &&& s.len() % 4 == 0
        &&& trailing_pads(s) <= 2
        &&& forall|i: int| 0 <= i < s.len() - trailing_pads(s) ==> is_b64_char(#[trigger] s[i])
    }
}

/// Whether `cs` is a plausible base64 text ([`is_base64`]).
pub fn valid_base64(cs: &[char]) -> (r: bool)
    ensures
        r == is_base64(cs@),
{
    let n = cs.len();
    if n == 0 {
        return true;
    }
    if n % 4 != 0 {
        return false;
    }
    let mut k: usize = n;
    proof {
        assert(cs@.take(n as int) =~= cs@);
    }
    while k > 0 && cs[k - 1] == '='
        invariant
            n == cs@.len(),
            k <= n,
            trailing_pads(cs@) == (n - k) + trailing_pads(cs@.take(k as int)),
        decreases k,
    {
        proof {
            assert(cs@.take(k as int).drop_last() =~= cs@.take(k - 1));
        }
        k = k - 1;
    }
    proof {
        if k > 0 {
            assert(cs@.take(k as int).last() == cs@[k - 1]);
        }
        assert(trailing_pads(cs@.take(k as int)) == 0);
    }
    if n - k > 2 {
        return false;
    }
    let mut i: usize = 0;
    while i < k
        invariant
            n == cs@.len(),
            k <= n,
            i <= k,
            trailing_pads(cs@) == n - k,
            forall|j: int| 0 <= j < i ==> is_b64_char(#[trigger] cs@[j]),
        decreases k - i,
    {
        let c = cs[i];
        if !(('a' <= c && c <= 'z') || ('A' <= c && c <= 'Z') || ('0' <= c && c <= '9') || c == '+' || c == '/') {
            proof {
                assert(!is_b64_char(cs@[i as int]));
                assert(!(is_b64_char(cs@[i as int])) && 0 <= i < cs@.len() - trailing_pads(cs@));
            }
            return false;
        }
        i = i + 1;
    }
    true
}

/// `ms` joined with `sep` between neighbours.
pub open spec fn join(ms: Seq<Seq<char>>, sep: Seq<char>) -> Seq<char>
    decreases ms.len(),
{
    if ms.len() == 0 {
        Seq::empty()
    } else if ms.len() == 1 {
        ms[0]
    } else {
        join(ms.drop_last(), sep) + sep + ms.last()
    }
}

/// Append `ms` joined with `, ` to `out`.
pub fn push_joined(out: &mut Vec<char>, ms: &Vec<String>)
    ensures
        final(out)@ == old(out)@ + join(views(ms@), ", "@),
{
    let ghost base = out@;
    let ghost all = views(ms@);
    let mut k: usize = 0;
    proof {
        assert(all.take(0) =~= Seq::<Seq<char>>::empty());
        assert(out@ =~= base + join(all.take(0), ", "@));
    }
    while k < ms.len()
        invariant
            all == views(ms@),
            k <= ms@.len(),
            out@ == base + join(all.take(k as int), ", "@),
        decreases ms@.len() - k,
    {
        let ghost before = out@;
        if k > 0 {
            push_str(out, ", ");
        }
        push_str(out, ms[k].as_str());
        proof {
            let t = all.take(k + 1);
            assert(t.drop_last() =~= all.take(k as int));
            assert(t.last() == ms@[k as int]@);
            if k == 0 {
                assert(t.len() == 1);
                assert(out@ =~= base + join(t, ", "@));
            } else {
                assert(out@ =~= base + join(t, ", "@));
            }
        }
        k = k + 1;
    }
    proof {
        assert(all.take(ms@.len() as int) =~= all);
    }
}

/// Whether `v` is one of `ms`, as an index.
fn find_member(ms: &Vec<String>, v: &[char]) -> (r: Option<usize>)
    ensures
        match r {
            Some(k) => k < ms@.len() && ms@[k as int]@ == v@,
            None => !views(ms@).contains(v@),
        },
{
    let mut k: usize = 0;
    while k < ms.len()
        invariant
            k <= ms@.len(),
            forall|j: int| 0 <= j < k ==> ms@[j]@ != v@,
        decreases ms@.len() - k,
    {
        let m = chars_of(ms[k].as_str());
        if chars_eq(m.as_slice(), v) {
            return Some(k);
        }
        k = k + 1;
    }
    proof {
        if views(ms@).contains(v@) {
            let j = choose|j: int| 0 <= j < views(ms@).len() && views(ms@)[j] == v@;
            assert(ms@[j]@ == v@);
        }
    }
    None
}

/// The first of the words `ws` that is not one of `ms`.
pub open spec fn first_unknown(ws: Seq<Seq<char>>, ms: Seq<Seq<char>>) -> Option<Seq<char>>
    decreases ws.len(),
{
    if ws.len() == 0 {
        None
    } else if !ms.contains(ws[0]) {
        Some(ws[0])
    } else {
        first_unknown(ws.drop_first(), ms)
    }
}

/// The first `range` of `specs` that is well formed and none of whose
/// intervals contains `v`.
pub open spec fn first_dec_miss(specs: Seq<Seq<char>>, v: Dec) -> Option<Seq<char>>
    decreases specs.len(),
{
    if specs.len() == 0 {
        None
    } else if dec_range_misses(specs[0], v) {
        Some(specs[0])
    } else {
        first_dec_miss(specs.drop_first(), v)
    }
}

/// `spec` is well formed and none of its intervals contains `v`.
pub open spec fn dec_range_misses(spec: Seq<char>, v: Dec) -> bool {
    dec_ranges(spec) matches Some(ivs) && !exists|k: int| 0 <= k < ivs.len() && dv_has(#[trigger] ivs[k], v)
}

/// The `range` arguments read up to the first that `v` misses are read
/// without overflow.
pub open spec fn dec_specs_defined(specs: Seq<Seq<char>>, v: Dec) -> bool
    decreases specs.len(),
{
    specs.len() == 0 || (dec_ranges_defined(specs[0]) && (!dec_range_misses(specs[0], v)
        ==> dec_specs_defined(specs.drop_first(), v)))
}

/// What the `decimal64` check reports for `value`.
pub open spec fn decimal_result(ranges: Seq<Seq<char>>, value: Seq<char>) -> Option<Seq<char>> {
    let s = trim(value);
    let bad = "`"@ + value + "` is not a valid decimal64 value"@;
    if !is_decimal(s) {
        Some(bad)
    } else if has_char(s, 'e') || has_char(s, 'E') {
        None
    } else {
        match dec_literal(s) {
            None => Some(bad),
            Some(v) => match first_dec_miss(ranges, v) {
                Some(spec) => Some("`"@ + value + "` is not in range "@ + spec),
                None => None,
            },
        }
    }
}

/// The `decimal64` check stays within its counters and arithmetic on
/// `value`.
pub open spec fn decimal_defined(ranges: Seq<Seq<char>>, value: Seq<char>) -> bool {
    let s = trim(value);
    &&& decimal_runs_fit(s)
    &&& (is_decimal(s) && !has_char(s, 'e') && !has_char(s, 'E')) ==> {
        &&& parse_dec_defined(s)
        &&& (dec_literal(s) matches Some(v) ==> dec_specs_defined(ranges, v))
    }
}

/// What [`check`] reports for `value` of type `t`: `None` when the value is
/// valid or `t` is not a checked scalar, else the message.
pub open spec fn check_result(t: ValueType, value: Seq<char>) -> Option<Seq<char>> {
    match t {
        ValueType::String { lengths, patterns } => string_result(views(lengths@), views(patterns@), value),
        ValueType::Integer { signed, bits, ranges } => integer_result(signed, bits, views(ranges@), value),
        ValueType::Decimal64 { ranges } => decimal_result(views(ranges@), value),
        ValueType::Boolean => {
            let v = trim(value);
            if v == "true"@ || v == "false"@ {
                None
            } else {
                Some("expected `true` or `false`, got `"@ + v + "`"@)
            }
        },
        ValueType::Empty => if trim(value).len() == 0 {
            None
        } else {
            Some("an `empty` leaf carries no value"@)
        },
        ValueType::Binary => if is_base64(trim(value)) {
            None
        } else {
            Some("`binary` value must be valid base64"@)
        },
        ValueType::Enumeration { members } => if views(members@).contains(trim(value)) {
            None
        } else {
            Some("must be one of: "@ + join(views(members@), ", "@))
        },
        ValueType::Bits { members } => match first_unknown(words(value), views(members@)) {
            Some(tok) => Some(
                "unknown bit `"@ + tok + "` (expected one of: "@ + join(views(members@), ", "@) + ")"@,
            ),
            None => None,
        },
        _ => None,
    }
}

/// [`check`] stays within its counters and arithmetic on `value` of type
/// `t`.
pub open spec fn check_defined(t: ValueType, value: Seq<char>) -> bool {
    match t {
        ValueType::Integer { signed, bits, .. } => integer_defined(signed, bits, value),
        ValueType::Decimal64 { ranges } => decimal_defined(views(ranges@), value),
        _ => true,
    }
}

/// Whether some interval of `ivs` contains `v`.
fn any_dec_contains(ivs: &Vec<Dv>, v: &Dec) -> (r: bool)
    ensures
        r == exists|k: int| 0 <= k < ivs@.len() && dv_has(#[trigger] ivs@[k], *v),
{
    let mut k: usize = 0;
    while k < ivs.len()
        invariant
            k <= ivs@.len(),
            forall|j: int| 0 <= j < k ==> !dv_has(#[trigger] ivs@[j], *v),
        decreases ivs@.len() - k,
    {
        if ivs[k].contains(v) {
            return true;
        }
        k = k + 1;
    }
    false
}

/// Check a `decimal64` leaf value: its lexical form, then (without an
/// exponent) every `range`.
pub fn check_decimal(ranges: &Vec<String>, value: &str) -> (r: Option<String>)
    requires
        decimal_defined(views(ranges@), value@),
    ensures
        opt_view(r) == decimal_result(views(ranges@), value@),
{
    let vc = chars_of(value);
    let s = trimmed(vc.as_slice());
    if !valid_decimal(s.as_slice()) || (find_char(s.as_slice(), 'e').is_none() && find_char(s.as_slice(), 'E').is_none()
        && parse_dec(s.as_slice()).is_none()) {
        let mut out: Vec<char> = Vec::new();
        push_str(&mut out, "`");
        push_str(&mut out, value);
        push_str(&mut out, "` is not a valid decimal64 value");
        proof {
            assert(out@ =~= "`"@ + value@ + "` is not a valid decimal64 value"@);
        }
        return Some(string_of(out.as_slice()));
    }
    if find_char(s.as_slice(), 'e').is_some() || find_char(s.as_slice(), 'E').is_some() {
        return None;
    }
    let v = match parse_dec(s.as_slice()) {
        Some(v) => v,
        None => {
            return None;
        },
    };
    let ghost all = views(ranges@);
    let mut k: usize = 0;
    proof {
        assert(all.skip(0) =~= all);
    }
    while k < ranges.len()
        invariant
            all == views(ranges@),
            k <= all.len(),
            dec_specs_defined(all.skip(k as int), v),
            first_dec_miss(all, v) == first_dec_miss(all.skip(k as int), v),
            decimal_result(all, value@) == match first_dec_miss(all, v) {
                Some(spec) => Some("`"@ + value@ + "` is not in range "@ + spec),
                None => None::<Seq<char>>,
            },
        decreases all.len() - k,
    {
        proof {
            assert(all.skip(k as int)[0] == ranges@[k as int]@);
            assert(all.skip(k as int).drop_first() =~= all.skip(k + 1));
        }
        let cs = chars_of(ranges[k].as_str());
        match dec_intervals(cs.as_slice()) {
            Some(ivs) => {
                if any_dec_contains(&ivs, &v) {
                    proof {
                        let j = choose|j: int| 0 <= j < ivs@.len() && dv_has(#[trigger] ivs@[j], v);
                        assert(cs@ == all.skip(k as int)[0]);
                        assert(dec_ranges(cs@) == Some(ivs@));
                        assert(dv_has(ivs@[j], v));
                        assert(!dec_range_misses(all.skip(k as int)[0], v));
                    }
                } else {
                    let mut out: Vec<char> = Vec::new();
                    push_str(&mut out, "`");
                    push_str(&mut out, value);
                    push_str(&mut out, "` is not in range ");
                    push_str(&mut out, ranges[k].as_str());
                    proof {
                        assert(out@ =~= "`"@ + value@ + "` is not in range "@ + ranges@[k as int]@);
                    }
                    return Some(string_of(out.as_slice()));
                }
            },
            None => {
                proof {
                    assert(!dec_range_misses(all.skip(k as int)[0], v));
                }
            },
        }
        k = k + 1;
    }
    None
}

/// Check `value` against the resolved scalar type `t` ([`check_result`]):
/// the message when invalid, `None` when valid or when `t` is not a checked
/// scalar.
pub fn check(t: &ValueType, value: &str) -> (r: Option<String>)
    requires
        check_defined(*t, value@),
    ensures
        opt_view(r) == check_result(*t, value@),
{
    match t {
        ValueType::String { lengths, patterns } => check_string(lengths, patterns, value),
        ValueType::Integer { signed, bits, ranges } => {
            match check_integer(*signed, *bits, ranges, value) {
                Some(m) => Some(m),
                None => None,
            }
        },
        ValueType::Decimal64 { ranges } => check_decimal(ranges, value),
        ValueType::Boolean => {
            let vc = chars_of(value);
            let v = trimmed(vc.as_slice());
            let t = chars_of("true");
            let f = chars_of("false");
            if chars_eq(v.as_slice(), t.as_slice()) || chars_eq(v.as_slice(), f.as_slice()) {
                None
            } else {
                let mut out: Vec<char> = Vec::new();
                push_str(&mut out, "expected `true` or `false`, got `");
                push_all(&mut out, v.as_slice());
                push_str(&mut out, "`");
                proof {
                    assert(out@ =~= "expected `true` or `false`, got `"@ + v@ + "`"@);
                }
                Some(string_of(out.as_slice()))
            }
        },
        ValueType::Empty => {
            let vc = chars_of(value);
            let v = trimmed(vc.as_slice());
            if v.len() == 0 {
                None
            } else {
                Some(string_of(chars_of("an `empty` leaf carries no value").as_slice()))
            }
        },
        ValueType::Binary => {
            let vc = chars_of(value);
            let v = trimmed(vc.as_slice());
            if valid_base64(v.as_slice()) {
                None
            } else {
                Some(string_of(chars_of("`binary` value must be valid base64").as_slice()))
            }
        },
        ValueType::Enumeration { members } => {
            let vc = chars_of(value);
            let v = trimmed(vc.as_slice());
            match find_member(members, v.as_slice()) {
                Some(k) => {
                    proof {
                        assert(views(members@)[k as int] == v@);
                    }
                    None
                },
                None => {
                    let mut out: Vec<char> = Vec::new();
                    push_str(&mut out, "must be one of: ");
                    push_joined(&mut out, members);
                    proof {
                        assert(out@ =~= "must be one of: "@ + join(views(members@), ", "@));
                    }
                    Some(string_of(out.as_slice()))
                },
            }
        },
        ValueType::Bits { members } => {
            let vc = chars_of(value);
            let toks = split_words(vc.as_slice());
            let ghost ws = char_views(toks@);
            let ghost ms = views(members@);
            let mut k: usize = 0;
            proof {
                assert(ws.skip(0) =~= ws);
            }
            while k < toks.len()
                invariant
                    ws == char_views(toks@),
                    ws == words(value@),
                    ms == views(members@),
                    k <= ws.len(),
                    check_result(*t, value@) == match first_unknown(ws, ms) {
                        Some(tok) => Some(
                            "unknown bit `"@ + tok + "` (expected one of: "@ + join(ms, ", "@) + ")"@,
                        ),
                        None => None::<Seq<char>>,
                    },
                    first_unknown(ws, ms) == first_unknown(ws.skip(k as int), ms),
                decreases ws.len() - k,
            {
                proof {
                    assert(ws.skip(k as int)[0] == toks@[k as int]@);
                    assert(ws.skip(k as int).drop_first() =~= ws.skip(k + 1));
                }
                match find_member(members, toks[k].as_slice()) {
                    Some(j) => {
                        proof {
                            assert(ms[j as int] == toks@[k as int]@);
                        }
                    },
                    None => {
                        let mut out: Vec<char> = Vec::new();
                        push_str(&mut out, "unknown bit `");
                        push_all(&mut out, toks[k].as_slice());
                        push_str(&mut out, "` (expected one of: ");
                        push_joined(&mut out, members);
                        push_str(&mut out, ")");
                        proof {
                            assert(out@ =~= "unknown bit `"@ + toks@[k as int]@ + "` (expected one of: "@ + join(ms, ", "@)
                                + ")"@);
                        }
                        return Some(string_of(out.as_slice()));
                    },
                }
                k = k + 1;
            }
            None
        },
        _ => None,
    }
}

#[verifier::external_type_specification]
#[verifier::external_body]
pub struct ExLibrary(yrepo::Library);

/// The outcome of the semantic check of an `identityref` value.
#[derive(Debug, Clone, Copy, PartialEq, Eq)]
pub enum IdentityOutcome {
    /// The value names an existing identity that is the `base` or derived
    /// from it.
    Valid,
    /// The value's module qualifier or the identity could not be resolved.
    UnknownIdentity,
    /// The identity exists but is neither the `base` nor derived from it.
    NotDerived,
}

/// The name for what yrepo's `Library::check_identityref` answers, given
/// the library, the leaf's module, the identityref's `base` and the value.
pub uninterp spec fn library_identity_status(lib: yrepo::Library, module: Seq<char>, base: Option<Seq<char>>, value: Seq<char>) -> IdentityOutcome;

/// yrepo's `Library::check_identityref`, its three outcomes mapped one to
/// one: the answer is named [`library_identity_status`] of the library and
/// the three texts. Nothing more is claimed of it.
#[verifier::external_body]
fn identityref_status(lib: &yrepo::Library, module: &str, base: Option<&str>, value: &str) -> (r: IdentityOutcome)
    ensures
        r == library_identity_status(*lib, module@, match base {
            Some(b) => Some(b@),
            None => None,
        }, value@),
{
    match lib.check_identityref(module, base, value) {
        yrepo::IdentityStatus::Ok => IdentityOutcome::Valid,
        yrepo::IdentityStatus::UnknownIdentity => IdentityOutcome::UnknownIdentity,
        yrepo::IdentityStatus::NotDerived => IdentityOutcome::NotDerived,
    }
}

/// The message for an `identityref` value `v` (trimmed) with the given
/// outcome of the semantic check.
pub open spec fn identity_message(st: IdentityOutcome, v: Seq<char>, base: Option<Seq<char>>) -> Option<Seq<char>> {
    match st {
        IdentityOutcome::Valid => None,
        IdentityOutcome::UnknownIdentity => Some("unknown identity `"@ + v + "`"@),
        IdentityOutcome::NotDerived => match base {
            Some(b) => Some("identity `"@ + v + "` is not `"@ + b + "` or derived from it"@),
            None => None,
        },
    }
}

/// [`identity_message`] computed.
pub fn identity_verdict(st: IdentityOutcome, v: &[char], base: &Option<String>) -> (r: Option<String>)
    ensures
        opt_view(r) == identity_message(st, v@, opt_view(*base)),
{
    match st {
        IdentityOutcome::Valid => None,
        IdentityOutcome::UnknownIdentity => {
            let mut out: Vec<char> = Vec::new();
            push_str(&mut out, "unknown identity `");
            push_all(&mut out, v);
            push_str(&mut out, "`");
            proof {
                assert(out@ =~= "unknown identity `"@ + v@ + "`"@);
            }
            Some(string_of(out.as_slice()))
        },
        IdentityOutcome::NotDerived => match base {
            Some(b) => {
                let mut out: Vec<char> = Vec::new();
                push_str(&mut out, "identity `");
                push_all(&mut out, v);
                push_str(&mut out, "` is not `");
                push_str(&mut out, b.as_str());
                push_str(&mut out, "` or derived from it");
                proof {
                    assert(out@ =~= "identity `"@ + v@ + "` is not `"@ + b@ + "` or derived from it"@);
                }
                Some(string_of(out.as_slice()))
            },
            None => None,
        },
    }
}

/// An `identityref` value `v` (trimmed) that is not one `module:name`
/// token: empty, several words, or more than one `:`.
pub open spec fn identityref_malformed(v: Seq<char>) -> bool {
    v.len() == 0 || words(v).len() > 1 || split_at_char(v, ':').len() > 2
}

/// What [`check_ref`] reports for `value` of type `t`, for a leaf of
/// `module`: the shape checks, and for a well-formed `identityref` the
/// message for the library's answer ([`library_identity_status`]).
pub open spec fn ref_result(lib: yrepo::Library, module: Seq<char>, t: ValueType, value: Seq<char>) -> Option<Seq<char>> {
    match t {
        ValueType::Identityref { base } => {
            let v = trim(value);
            if identityref_malformed(v) {
                Some("expected an identity reference (module:name)"@)
            } else {
                identity_message(library_identity_status(lib, module, opt_view(base), v), v, opt_view(base))
            }
        },
        ValueType::InstanceIdentifier => {
            let v = trim(value);
            if v.len() == 0 {
                Some("expected an instance-identifier"@)
            } else if words(v).len() > 1 {
                Some("instance-identifier must not contain whitespace"@)
            } else {
                None
            }
        },
        _ => None,
    }
}

/// What [`check_value`] reports: the scalar check's message, else the
/// reference check's ([`ref_result`]).
pub open spec fn value_result(lib: yrepo::Library, module: Seq<char>, t: ValueType, value: Seq<char>) -> Option<Seq<char>> {
    if check_result(t, value) is Some {
        check_result(t, value)
    } else {
        ref_result(lib, module, t, value)
    }
}

/// Checks for the reference kinds that need the library: the semantic
/// `identityref` check and a coarse `instance-identifier` shape check.
/// `None` for other kinds and for valid values.
pub fn check_ref(lib: &yrepo::Library, module: &str, t: &ValueType, value: &str) -> (r: Option<String>)
    ensures
        opt_view(r) == ref_result(*lib, module@, *t, value@),
{
    match t {
        ValueType::Identityref { base } => {
            let vc = chars_of(value);
            let v = trimmed(vc.as_slice());
            let ws = split_words(v.as_slice());
            let colons = split_chars(v.as_slice(), ':');
            proof {
                assert(char_views(ws@).len() == ws@.len());
                assert(char_views(colons@).len() == colons@.len());
            }
            if v.len() == 0 || ws.len() > 1 || colons.len() > 2 {
                return Some(string_of(chars_of("expected an identity reference (module:name)").as_slice()));
            }
            let vs = string_of(v.as_slice());
            let b = match base {
                Some(b) => Some(b.as_str()),
                None => None,
            };
            let st = identityref_status(lib, module, b, vs.as_str());
            let r = identity_verdict(st, v.as_slice(), base);
            proof {
                assert(vs@ == trim(value@));
                assert(match b {
                    Some(x) => Some(x@),
                    None => None,
                } == opt_view(*base));
                assert(opt_view(r) == identity_message(st, trim(value@), opt_view(*base)));
            }
            r
        },
        ValueType::InstanceIdentifier => {
            let vc = chars_of(value);
            let v = trimmed(vc.as_slice());
            if v.len() == 0 {
                return Some(string_of(chars_of("expected an instance-identifier").as_slice()));
            }
            let ws = split_words(v.as_slice());
            proof {
                assert(char_views(ws@).len() == ws@.len());
            }
            if ws.len() > 1 {
                Some(string_of(chars_of("instance-identifier must not contain whitespace").as_slice()))
            } else {
                None
            }
        },
        _ => None,
    }
}

/// Scalar and reference check together: [`check`], and when it finds
/// nothing, [`check_ref`].
pub fn check_value(lib: &yrepo::Library, module: &str, t: &ValueType, value: &str) -> (r: Option<String>)
    requires
        check_defined(*t, value@),
    ensures
        opt_view(r) == value_result(*lib, module@, *t, value@),
{
    match check(t, value) {
        Some(m) => Some(m),
        None => check_ref(lib, module, t, value),
    }
}

/// A scalar completion default, per format-agnostic shape (the completion
/// modules format it: JSON quotes strings and writes `[null]`, XML writes
/// text).
#[derive(Debug, Clone, PartialEq, Eq)]
pub enum DefaultValue {
    /// A bare literal (booleans, numbers).
    Bare(&'static str),
    /// A string value (an enumeration member).
    Quoted(String),
    /// `empty`: an empty XML element, JSON `[null]`.
    Empty,
}

/// The mathematical form of a [`DefaultValue`].
pub enum DefaultView {
    Bare(Seq<char>),
    Quoted(Seq<char>),
    Empty,
}

/// The view of an optional default.
pub open spec fn default_view(d: Option<DefaultValue>) -> Option<DefaultView> {
    match d {
        Some(DefaultValue::Bare(b)) => Some(DefaultView::Bare(b@)),
        Some(DefaultValue::Quoted(q)) => Some(DefaultView::Quoted(q@)),
        Some(DefaultValue::Empty) => Some(DefaultView::Empty),
        None => None,
    }
}

/// The natural completion default of a value type.
pub open spec fn default_of(t: ValueType) -> Option<DefaultView> {
    match t {
        ValueType::Boolean => Some(DefaultView::Bare("true"@)),
        ValueType::Integer { .. } | ValueType::Decimal64 { .. } => Some(DefaultView::Bare("0"@)),
        ValueType::Enumeration { members } => if members@.len() > 0 {
            Some(DefaultView::Quoted(members@[0]@))
        } else {
            None
        },
        ValueType::Empty => Some(DefaultView::Empty),
        _ => None,
    }
}

/// The natural completion default for a checked scalar, or `None` when the
/// leaf has no obvious default (`string`, `binary`, `bits`, unions,
/// references): [`default_of`].
pub fn default_value(t: &ValueType) -> (r: Option<DefaultValue>)
    ensures
        default_view(r) == default_of(*t),
{
    match t {
        ValueType::Boolean => Some(DefaultValue::Bare("true")),
        ValueType::Integer { .. } => Some(DefaultValue::Bare("0")),
        ValueType::Decimal64 { .. } => Some(DefaultValue::Bare("0")),
        ValueType::Enumeration { members } => {
            if members.len() > 0 {
                Some(DefaultValue::Quoted(members[0].clone()))
            } else {
                None
            }
        },
        ValueType::Empty => Some(DefaultValue::Empty),
        _ => None,
    }
}

/// Whether the `range` arguments read by the `decimal64` check of `v` are
/// read without overflow ([`dec_specs_defined`]).
fn dec_specs_ok(ranges: &Vec<String>, v: &Dec) -> (r: bool)
    ensures
        r == dec_specs_defined(views(ranges@), *v),
{
    let ghost all = views(ranges@);
    let mut k: usize = 0;
    proof {
        assert(all.skip(0) =~= all);
    }
    while k < ranges.len()
        invariant
            all == views(ranges@),
            k <= all.len(),
            dec_specs_defined(all, *v) == dec_specs_defined(all.skip(k as int), *v),
        decreases all.len() - k,
    {
        proof {
            assert(all.skip(k as int)[0] == ranges@[k as int]@);
            assert(all.skip(k as int).drop_first() =~= all.skip(k + 1));
        }
        let cs = chars_of(ranges[k].as_str());
        if !dec_ranges_ok(cs.as_slice()) {
            return false;
        }
        match dec_intervals(cs.as_slice()) {
            Some(ivs) => {
                if !any_dec_contains(&ivs, v) {
                    return true;
                }
                proof {
                    let j = choose|j: int| 0 <= j < ivs@.len() && dv_has(#[trigger] ivs@[j], *v);
                    assert(dv_has(ivs@[j], *v));
                }
            },
            None => {},
        }
        k = k + 1;
    }
    true
}

/// Whether [`check`] stays within its counters and arithmetic on `value`
/// of type `t` ([`check_defined`]). Where this is false, the checks written
/// with fixed-width counters and accumulators have no defined result.
pub fn check_defined_for(t: &ValueType, value: &str) -> (r: bool)
    ensures
        r == check_defined(*t, value@),
{
    match t {
        ValueType::Integer { signed, bits, .. } => {
            let vc = chars_of(value);
            let s = trimmed(vc.as_slice());
            let parsed = if s.len() > 0 && s[0] == '-' {
                parse_i128(s.as_slice())
            } else if digits_only(s.as_slice()) {
                parse_i128(s.as_slice())
            } else {
                None
            };
            if parsed.is_some() {
                if *signed {
                    1 <= *bits && *bits <= 127
                } else {
                    *bits <= 126
                }
            } else {
                true
            }
        },
        ValueType::Decimal64 { ranges } => {
            let vc = chars_of(value);
            let s = trimmed(vc.as_slice());
            if !decimal_runs_ok(s.as_slice()) {
                return false;
            }
            if !valid_decimal(s.as_slice()) || find_char(s.as_slice(), 'e').is_some() || find_char(
                s.as_slice(),
                'E',
            ).is_some() {
                return true;
            }
            if !parse_dec_ok(s.as_slice()) {
                return false;
            }
            match parse_dec(s.as_slice()) {
                Some(v) => dec_specs_ok(ranges, &v),
                None => true,
            }
        },
        _ => true,
    }
}


/// Values of a type the value check does not read (unions, references,
/// unclassified types) are never reported by the type check.
pub proof fn law_unchecked_types_pass(t: ValueType, value: Seq<char>)
    requires
        !checked_type(t),
    ensures
        check_result(t, value) is None,
{
}


/// `t2` is `t1` with more restrictions: the same integer type with more
/// `range`s, `decimal64` with more `range`s, or `string` with more `length`s
/// and `pattern`s, each list of `t1` leading the list of `t2`.
pub open spec fn restricts_further(t1: ValueType, t2: ValueType) -> bool {
    match (t1, t2) {
        (ValueType::Integer { signed: s1, bits: b1, ranges: r1 }, ValueType::Integer { signed: s2, bits: b2, ranges: r2 }) =>
            s1 == s2 && b1 == b2 && views(r1@).is_prefix_of(views(r2@)),
        (ValueType::Decimal64 { ranges: r1 }, ValueType::Decimal64 { ranges: r2 }) =>
            views(r1@).is_prefix_of(views(r2@)),
        (ValueType::String { lengths: l1, patterns: p1 }, ValueType::String { lengths: l2, patterns: p2 }) =>
            views(l1@).is_prefix_of(views(l2@)) && views(p1@).is_prefix_of(views(p2@)),
        _ => false,
    }
}

proof fn lemma_first_miss_prefix(a: Seq<Seq<char>>, b: Seq<Seq<char>>, v: int)
    requires
        a.is_prefix_of(b),
        first_miss(b, v) is None,
    ensures
        first_miss(a, v) is None,
    decreases a.len(),
{
    if a.len() > 0 {
        assert(a[0] == b[0]);
        assert(a.drop_first().is_prefix_of(b.drop_first())) by {
            assert(a.drop_first() =~= b.drop_first().subrange(0, a.len() - 1));
        }
        lemma_first_miss_prefix(a.drop_first(), b.drop_first(), v);
    }
}

proof fn lemma_first_dec_miss_prefix(a: Seq<Seq<char>>, b: Seq<Seq<char>>, v: Dec)
    requires
        a.is_prefix_of(b),
        first_dec_miss(b, v) is None,
    ensures
        first_dec_miss(a, v) is None,
    decreases a.len(),
{
    if a.len() > 0 {
        assert(a[0] == b[0]);
        assert(a.drop_first().is_prefix_of(b.drop_first())) by {
            assert(a.drop_first() =~= b.drop_first().subrange(0, a.len() - 1));
        }
        lemma_first_dec_miss_prefix(a.drop_first(), b.drop_first(), v);
    }
}

proof fn lemma_first_pattern_miss_prefix(a: Seq<Seq<char>>, b: Seq<Seq<char>>, value: Seq<char>)
    requires
        a.is_prefix_of(b),
        first_pattern_miss(b, value) is None,
    ensures
        first_pattern_miss(a, value) is None,
    decreases a.len(),
{
    if a.len() > 0 {
        assert(a[0] == b[0]);
        assert(a.drop_first().is_prefix_of(b.drop_first())) by {
            assert(a.drop_first() =~= b.drop_first().subrange(0, a.len() - 1));
        }
        lemma_first_pattern_miss_prefix(a.drop_first(), b.drop_first(), value);
    }
}

/// Adding restrictions never makes an invalid value valid: a value that the
/// more restricted type accepts, the less restricted one accepts too.
pub proof fn law_more_restrictions_accept_less(t1: ValueType, t2: ValueType, value: Seq<char>)
    requires
        restricts_further(t1, t2),
    ensures
        check_result(t2, value) is None ==> check_result(t1, value) is None,
{
    if check_result(t2, value) is None {
        match (t1, t2) {
            (ValueType::Integer { ranges: r1, .. }, ValueType::Integer { ranges: r2, .. }) => {
                if let Some(v) = int_value(trim(value)) {
                    lemma_first_miss_prefix(views(r1@), views(r2@), v);
                }
            },
            (ValueType::Decimal64 { ranges: r1 }, ValueType::Decimal64 { ranges: r2 }) => {
                let s = trim(value);
                if is_decimal(s) && !has_char(s, 'e') && !has_char(s, 'E') && dec_literal(s) is Some {
                    let v = dec_literal(s).unwrap();
                    lemma_first_dec_miss_prefix(views(r1@), views(r2@), v);
                }
            },
            (ValueType::String { lengths: l1, patterns: p1 }, ValueType::String { lengths: l2, patterns: p2 }) => {
                lemma_first_miss_prefix(views(l1@), views(l2@), value.len() as int);
                lemma_first_pattern_miss_prefix(views(p1@), views(p2@), value);
            },
            _ => {},
        }
    }
}

} // verus!
