//! `decimal64` values: the lexical check, exact fixed-scale parsing and
//! comparison, and `range` arguments.

use std::cmp::Ordering;
use vstd::prelude::*;
use crate::num::{digit_val, all_digits};
use crate::text::{
    chars_eq, char_views, is_digit, split_at_char, split_at_range, split_chars, split_range,
    trim, trimmed,
};

verus! {

broadcast use vstd::slice::group_slice_axioms;

/// `x` clamped to the `i128` range.
pub open spec fn clamp128(x: int) -> int {
    if x > i128::MAX {
        i128::MAX as int
    } else if x < i128::MIN {
        i128::MIN as int
    } else {
        x
    }
}

/// `10` to the power `n`.
pub open spec fn p10(n: nat) -> int
    decreases n,
{
    if n == 0 {
        1
    } else {
        10 * p10((n - 1) as nat)
    }
}

/// `i128::saturating_mul`.
pub fn sat_mul(a: i128, b: i128) -> (r: i128)
    ensures
        r == clamp128(a * b),
{
    match a.checked_mul(b) {
        Some(p) => p,
        None => {
            if (a < 0) == (b < 0) {
                proof {
                    assert(a * b >= 0) by (nonlinear_arith)
                        requires
                            (a < 0) == (b < 0),
                    ;
                }
                i128::MAX
            } else {
                proof {
                    assert(a * b <= 0) by (nonlinear_arith)
                        requires
                            (a < 0) != (b < 0),
                    ;
                }
                i128::MIN
            }
        },
    }
}

proof fn lemma_p10_pos(n: nat)
    ensures
        p10(n) >= 1,
    decreases n,
{
    if n > 0 {
        lemma_p10_pos((n - 1) as nat);
    }
}

/// `10^n`, saturated at `i128::MAX`.
pub fn pow10(n: u32) -> (r: i128)
    ensures
        r == clamp128(p10(n as nat)),
        r >= 1,
{
    let mut r: i128 = 1;
    let mut k: u32 = 0;
    while k < n
        invariant
            k <= n,
            r == clamp128(p10(k as nat)),
        decreases n - k,
    {
        proof {
            lemma_p10_pos(k as nat);
        }
        r = sat_mul(r, 10);
        k = k + 1;
    }
    proof {
        lemma_p10_pos(n as nat);
    }
    r
}

/// A fixed-scale decimal `m / 10^s`.
#[derive(Debug, Clone, Copy)]
pub struct Dec {
    pub m: i128,
    pub s: u32,
}

/// `d`'s mantissa brought to scale `scale` (saturated).
pub open spec fn dec_scaled(d: Dec, scale: u32) -> int {
    clamp128(d.m * clamp128(p10((scale - d.s) as nat)))
}

/// How `a` compares with `b`: both brought to the larger of their scales.
pub open spec fn dec_order(a: Dec, b: Dec) -> Ordering {
    let sc = if a.s >= b.s {
        a.s
    } else {
        b.s
    };
    let x = dec_scaled(a, sc);
    let y = dec_scaled(b, sc);
    if x < y {
        Ordering::Less
    } else if x == y {
        Ordering::Equal
    } else {
        Ordering::Greater
    }
}

impl Dec {
    /// Compare two decimals exactly (as long as neither saturates).
    pub fn cmp(&self, other: &Dec) -> (r: Ordering)
        ensures
            r == dec_order(*self, *other),
    {
        let scale = if self.s >= other.s {
            self.s
        } else {
            other.s
        };
        let a = sat_mul(self.m, pow10(scale - self.s));
        let b = sat_mul(other.m, pow10(scale - other.s));
        if a < b {
            Ordering::Less
        } else if a == b {
            Ordering::Equal
        } else {
            Ordering::Greater
        }
    }
}

/// The number of consecutive ASCII digits of `s` from position `i`.
pub open spec fn digit_run(s: Seq<char>, i: int) -> int
    decreases s.len() - i,
{
    if 0 <= i < s.len() && is_digit(s[i]) {
        1 + digit_run(s, i + 1)
    } else {
        0
    }
}

/// The length of an optional leading `+` or `-`.
pub open spec fn sign_len(s: Seq<char>) -> int {
    if s.len() > 0 && (s[0] == '+' || s[0] == '-') {
        1
    } else {
        0
    }
}

/// The number of integer-part digits.
pub open spec fn int_len(s: Seq<char>) -> int {
    digit_run(s, sign_len(s))
}

/// Where the integer part ends.
pub open spec fn int_end(s: Seq<char>) -> int {
    sign_len(s) + int_len(s)
}

/// A `.` follows the integer part.
pub open spec fn has_point(s: Seq<char>) -> bool {
    int_end(s) < s.len() && s[int_end(s)] == '.'
}

/// The number of fraction digits.
pub open spec fn frac_len(s: Seq<char>) -> int {
    if has_point(s) {
        digit_run(s, int_end(s) + 1)
    } else {
        0
    }
}

/// Where the mantissa (sign, integer part and fraction) ends.
pub open spec fn mant_end(s: Seq<char>) -> int {
    if has_point(s) {
        int_end(s) + 1 + frac_len(s)
    } else {
        int_end(s)
    }
}

/// An exponent marker `e` or `E` follows the mantissa.
pub open spec fn has_exp(s: Seq<char>) -> bool {
    mant_end(s) < s.len() && (s[mant_end(s)] == 'e' || s[mant_end(s)] == 'E')
}

/// Where the exponent digits start.
pub open spec fn exp_start(s: Seq<char>) -> int {
    let e1 = mant_end(s) + 1;
    if e1 < s.len() && (s[e1] == '+' || s[e1] == '-') {
        e1 + 1
    } else {
        e1
    }
}

/// `s` is a decimal literal: an optional sign, digits with an optional
/// fraction (at least one digit in all), and an optional exponent with at
/// least one digit.
pub open spec fn is_decimal(s: Seq<char>) -> bool {
    if int_len(s) == 0 && frac_len(s) == 0 {
        false
    } else if has_exp(s) {
        digit_run(s, exp_start(s)) > 0 && exp_start(s) + digit_run(s, exp_start(s)) == s.len()
    } else {
        mant_end(s) == s.len()
    }
}

/// The digit runs that [`valid_decimal`] counts fit its counters.
pub open spec fn decimal_runs_fit(s: Seq<char>) -> bool {
    &&& int_len(s) <= i32::MAX
    &&& frac_len(s) <= i32::MAX
    &&& ((int_len(s) > 0 || frac_len(s) > 0) && has_exp(s) ==> digit_run(s, exp_start(s)) <= i32::MAX)
}

proof fn lemma_digit_run_bounds(s: Seq<char>, i: int)
    requires
        0 <= i <= s.len(),
    ensures
        0 <= digit_run(s, i) <= s.len() - i,
        forall|j: int| i <= j < i + digit_run(s, i) ==> is_digit(#[trigger] s[j]),
        i + digit_run(s, i) < s.len() ==> !is_digit(s[i + digit_run(s, i)]),
    decreases s.len() - i,
{
    if i < s.len() && is_digit(s[i]) {
        lemma_digit_run_bounds(s, i + 1);
    }
}

/// Count the digits of `cs` from `i`.
fn count_digits(cs: &[char], i: usize) -> (r: usize)
    requires
        i <= cs@.len(),
    ensures
        r == digit_run(cs@, i as int),
        i + r <= cs@.len(),
{
    let n = cs.len();
    let mut j = i;
    while j < n && '0' <= cs[j] && cs[j] <= '9'
        invariant
            n == cs@.len(),
            i <= j <= n,
            digit_run(cs@, i as int) == (j - i) + digit_run(cs@, j as int),
        decreases n - j,
    {
        j = j + 1;
    }
    proof {
        lemma_digit_run_bounds(cs@, j as int);
    }
    j - i
}

/// Whether `cs` is a decimal literal ([`is_decimal`]), as the XML and
/// JSON encodings of a `decimal64` value write it.
pub fn valid_decimal(cs: &[char]) -> (r: bool)
    requires
        decimal_runs_fit(cs@),
    ensures
        r == is_decimal(cs@),
{
    let n = cs.len();
    let mut i: usize = 0;
    if i < n && (cs[i] == '+' || cs[i] == '-') {
        i = i + 1;
    }
    let int_n = count_digits(cs, i);
    i = i + int_n;
    let mut frac: usize = 0;
    if i < n && cs[i] == '.' {
        i = i + 1;
        frac = count_digits(cs, i);
        i = i + frac;
    }
    if int_n == 0 && frac == 0 {
        return false;
    }
    if i < n && (cs[i] == 'e' || cs[i] == 'E') {
        i = i + 1;
        if i < n && (cs[i] == '+' || cs[i] == '-') {
            i = i + 1;
        }
        let exp = count_digits(cs, i);
        i = i + exp;
        if exp == 0 {
            return false;
        }
    }
    i == n
}

/// Saturating accumulation of the digits `ds`: `m = sat(m * 10) + d`.
pub open spec fn sat_acc(ds: Seq<char>) -> int
    decreases ds.len(),
{
    if ds.len() == 0 {
        0
    } else {
        clamp128(sat_acc(ds.drop_last()) * 10) + digit_val(ds.last())
    }
}

/// Every step of [`sat_acc`] stays within `i128` (the addition after the
/// saturating multiplication does not overflow).
pub open spec fn acc_fits(ds: Seq<char>) -> bool
    decreases ds.len(),
{
    ds.len() == 0 || (acc_fits(ds.drop_last()) && clamp128(sat_acc(ds.drop_last()) * 10)
        + digit_val(ds.last()) <= i128::MAX)
}

/// The mantissa digits of `s`: integer part then fraction.
pub open spec fn mant_digits(s: Seq<char>) -> Seq<char> {
    s.subrange(sign_len(s), int_end(s)) + if has_point(s) {
        s.subrange(int_end(s) + 1, mant_end(s))
    } else {
        Seq::empty()
    }
}

/// [`parse_dec`] reads `s` within its counters and without overflow.
pub open spec fn parse_dec_defined(s: Seq<char>) -> bool {
    &&& int_len(s) <= i32::MAX
    &&& frac_len(s) <= u32::MAX
    &&& acc_fits(mant_digits(s))
}

/// The decimal that the literal `s` (no exponent) denotes: `None` unless
/// `s` is an optional sign, digits and an optional `.` with digits, with
/// at least one digit in all.
pub open spec fn dec_literal(s: Seq<char>) -> Option<Dec> {
    if mant_end(s) != s.len() || (int_len(s) == 0 && frac_len(s) == 0) {
        None
    } else {
        let m = sat_acc(mant_digits(s));
        Some(
            Dec {
                m: (if s.len() > 0 && s[0] == '-' {
                    -m
                } else {
                    m
                }) as i128,
                s: frac_len(s) as u32,
            },
        )
    }
}

proof fn lemma_sat_acc_range(ds: Seq<char>)
    requires
        all_digits(ds),
        acc_fits(ds),
    ensures
        0 <= sat_acc(ds) <= i128::MAX,
    decreases ds.len(),
{
    if ds.len() > 0 {
        assert(all_digits(ds.drop_last())) by {
            assert forall|j: int| 0 <= j < ds.len() - 1 implies is_digit(#[trigger] ds.drop_last()[j]) by {
                assert(ds.drop_last()[j] == ds[j]);
            }
        }
        assert(is_digit(ds[ds.len() - 1]));
        lemma_sat_acc_range(ds.drop_last());
    }
}

/// Accumulate the digits `cs[from..to]` onto `m`.
fn accumulate(cs: &[char], from: usize, to: usize, m: i128, Ghost(pre): Ghost<Seq<char>>) -> (r: i128)
    requires
        from <= to <= cs@.len(),
        forall|j: int| from <= j < to ==> is_digit(#[trigger] cs@[j]),
        all_digits(pre),
        m == sat_acc(pre),
        acc_fits(pre + cs@.subrange(from as int, to as int)),
    ensures
        r == sat_acc(pre + cs@.subrange(from as int, to as int)),
{
    let mut m = m;
    let mut i = from;
    proof {
        assert(pre + cs@.subrange(from as int, from as int) =~= pre);
    }
    while i < to
        invariant
            from <= i <= to <= cs@.len(),
            forall|j: int| from <= j < to ==> is_digit(#[trigger] cs@[j]),
            all_digits(pre),
            acc_fits(pre + cs@.subrange(from as int, to as int)),
            m == sat_acc(pre + cs@.subrange(from as int, i as int)),
        decreases to - i,
    {
        let ghost done = pre + cs@.subrange(from as int, i as int);
        let ghost next = pre + cs@.subrange(from as int, i + 1);
        let ghost all = pre + cs@.subrange(from as int, to as int);
        proof {
            assert(next.drop_last() =~= done);
            assert(next.last() == cs@[i as int]);
            assert(next =~= all.take(next.len() as int));
            lemma_acc_fits_prefix(all, next.len() as int);
            assert(all_digits(done)) by {
                assert forall|j: int| 0 <= j < done.len() implies is_digit(#[trigger] done[j]) by {
                    if j >= pre.len() {
                        assert(done[j] == cs@[from + j - pre.len()]);
                    }
                }
            }
            lemma_sat_acc_range(done);
            assert(is_digit(cs@[i as int]));
        }
        let d: i128 = (cs[i] as u32 - '0' as u32) as i128;
        m = sat_mul(m, 10) + d;
        i = i + 1;
    }
    m
}

proof fn lemma_acc_fits_prefix(ds: Seq<char>, k: int)
    requires
        acc_fits(ds),
        0 <= k <= ds.len(),
    ensures
        acc_fits(ds.take(k)),
    decreases ds.len(),
{
    if k < ds.len() {
        assert(ds.drop_last().take(k) =~= ds.take(k));
        lemma_acc_fits_prefix(ds.drop_last(), k);
    } else {
        assert(ds.take(k) =~= ds);
    }
}

/// Parse a decimal literal without exponent into a [`Dec`]
/// ([`dec_literal`]).
pub fn parse_dec(cs: &[char]) -> (r: Option<Dec>)
    requires
        parse_dec_defined(cs@),
    ensures
        r == dec_literal(cs@),
{
    let n = cs.len();
    let ghost s = cs@;
    let mut i: usize = 0;
    let mut neg = false;
    if i < n && (cs[i] == '-' || cs[i] == '+') {
        if cs[i] == '-' {
            neg = true;
        }
        i = i + 1;
    }
    let int_digits = count_digits(cs, i);
    proof {
        lemma_digit_run_bounds(s, i as int);
        lemma_sat_acc_range(Seq::empty());
        assert(Seq::<char>::empty() + s.subrange(i as int, i + int_digits) =~= s.subrange(sign_len(s), int_end(s)));
        assert(all_digits(Seq::<char>::empty()));
        let md = mant_digits(s);
        assert(md.take(int_digits as int) =~= s.subrange(sign_len(s), int_end(s)));
        lemma_acc_fits_prefix(md, int_digits as int);
    }
    let mut m = accumulate(cs, i, i + int_digits, 0, Ghost(Seq::empty()));
    i = i + int_digits;
    let mut scale: u32 = 0;
    if i < n && cs[i] == '.' {
        i = i + 1;
        let frac = count_digits(cs, i);
        proof {
            lemma_digit_run_bounds(s, i as int);
            let ip = s.subrange(sign_len(s), int_end(s));
            assert(Seq::<char>::empty() + ip =~= ip);
            assert(all_digits(ip)) by {
                assert forall|j: int| 0 <= j < ip.len() implies is_digit(#[trigger] ip[j]) by {
                    assert(ip[j] == s[sign_len(s) + j]);
                }
            }
            assert(ip + s.subrange(i as int, i + frac) =~= mant_digits(s));
        }
        m = accumulate(cs, i, i + frac, m, Ghost(s.subrange(sign_len(s), int_end(s))));
        scale = frac as u32;
        i = i + frac;
    } else {
        proof {
            assert(Seq::<char>::empty() + s.subrange(sign_len(s), int_end(s)) =~= mant_digits(s));
        }
    }
    if i != n || (int_digits == 0 && scale == 0) {
        return None;
    }
    proof {
        lemma_digit_run_bounds(s, sign_len(s));
        let md = mant_digits(s);
        assert(all_digits(md)) by {
            assert forall|j: int| 0 <= j < md.len() implies is_digit(#[trigger] md[j]) by {
                if j < int_len(s) {
                    assert(md[j] == s[sign_len(s) + j]);
                } else {
                    lemma_digit_run_bounds(s, int_end(s) + 1);
                    assert(md[j] == s[int_end(s) + 1 + (j - int_len(s))]);
                }
            }
        }
        lemma_sat_acc_range(md);
    }
    let v = if neg {
        -m
    } else {
        m
    };
    Some(Dec { m: v, s: scale })
}

/// One inclusive interval of a `decimal64` `range` argument; an absent
/// side is unbounded.
#[derive(Debug, Clone, Copy)]
pub struct Dv {
    pub lo: Option<Dec>,
    pub hi: Option<Dec>,
}

/// Whether `iv` contains `v`.
pub open spec fn dv_has(iv: Dv, v: Dec) -> bool {
    &&& (iv.lo matches Some(lo) ==> dec_order(lo, v) != Ordering::Greater)
    &&& (iv.hi matches Some(hi) ==> dec_order(hi, v) != Ordering::Less)
}

impl Dv {
    /// Whether the interval contains `v`.
    pub fn contains(&self, v: &Dec) -> (r: bool)
        ensures
            r == dv_has(*self, *v),
    {
        let ge = match &self.lo {
            Some(lo) => match lo.cmp(v) {
                Ordering::Greater => false,
                _ => true,
            },
            None => true,
        };
        let le = match &self.hi {
            Some(hi) => match hi.cmp(v) {
                Ordering::Less => false,
                _ => true,
            },
            None => true,
        };
        ge && le
    }
}

/// The interval that one `|`-separated part of a `decimal64` `range`
/// argument denotes: `a..b` (`min`/`max` for an unbounded side) or a single
/// value.
pub open spec fn dec_part(p: Seq<char>) -> Option<Dv> {
    let p = trim(p);
    match split_range(p) {
        Some((a, b)) => {
            let a = trim(a);
            let b = trim(b);
            let lo = if a == seq!['m', 'i', 'n'] {
                Some(None)
            } else {
                match dec_literal(a) {
                    Some(d) => Some(Some(d)),
                    None => None,
                }
            };
            let hi = if b == seq!['m', 'a', 'x'] {
                Some(None)
            } else {
                match dec_literal(b) {
                    Some(d) => Some(Some(d)),
                    None => None,
                }
            };
            match (lo, hi) {
                (Some(l), Some(h)) => Some(Dv { lo: l, hi: h }),
                _ => None,
            }
        },
        None => match dec_literal(p) {
            Some(v) => Some(Dv { lo: Some(v), hi: Some(v) }),
            None => None,
        },
    }
}

/// The parts of [`dec_part`] are read without overflow, up to the first
/// that fails.
pub open spec fn dec_part_defined(p: Seq<char>) -> bool {
    let p = trim(p);
    match split_range(p) {
        Some((a, b)) => {
            let a = trim(a);
            let b = trim(b);
            &&& (a != seq!['m', 'i', 'n'] ==> parse_dec_defined(a))
            &&& (a == seq!['m', 'i', 'n'] || dec_literal(a) is Some) ==> (b != seq!['m', 'a', 'x']
                ==> parse_dec_defined(b))
        },
        None => parse_dec_defined(p),
    }
}

/// The intervals of the parts `ps`; `None` when one is malformed.
pub open spec fn dec_parts(ps: Seq<Seq<char>>) -> Option<Seq<Dv>>
    decreases ps.len(),
{
    if ps.len() == 0 {
        Some(Seq::empty())
    } else {
        match (dec_part(ps[0]), dec_parts(ps.drop_first())) {
            (Some(iv), Some(rest)) => Some(seq![iv] + rest),
            _ => None,
        }
    }
}

/// The parts `ps` are read without overflow, up to the first that fails.
pub open spec fn dec_parts_defined(ps: Seq<Seq<char>>) -> bool
    decreases ps.len(),
{
    ps.len() == 0 || (dec_part_defined(ps[0]) && (dec_part(ps[0]) is Some ==> dec_parts_defined(
        ps.drop_first(),
    )))
}

/// The intervals of a `decimal64` `range` argument; `None` when malformed.
pub open spec fn dec_ranges(spec: Seq<char>) -> Option<Seq<Dv>> {
    dec_parts(split_at_char(spec, '|'))
}

/// [`dec_intervals`] reads `spec` without overflow.
pub open spec fn dec_ranges_defined(spec: Seq<char>) -> bool {
    dec_parts_defined(split_at_char(spec, '|'))
}

/// The interval of one part ([`dec_part`]).
fn dec_interval(part: &[char]) -> (r: Option<Dv>)
    requires
        dec_part_defined(part@),
    ensures
        r == dec_part(part@),
{
    let p = trimmed(part);
    let min: Vec<char> = vec!['m', 'i', 'n'];
    let max: Vec<char> = vec!['m', 'a', 'x'];
    proof {
        assert(min@ =~= seq!['m', 'i', 'n']);
        assert(max@ =~= seq!['m', 'a', 'x']);
    }
    match split_at_range(p.as_slice()) {
        Some((a, b)) => {
            let a = trimmed(a.as_slice());
            let b = trimmed(b.as_slice());
            let lo = if chars_eq(a.as_slice(), min.as_slice()) {
                None
            } else {
                match parse_dec(a.as_slice()) {
                    Some(d) => Some(d),
                    None => {
                        return None;
                    },
                }
            };
            let hi = if chars_eq(b.as_slice(), max.as_slice()) {
                None
            } else {
                match parse_dec(b.as_slice()) {
                    Some(d) => Some(d),
                    None => {
                        return None;
                    },
                }
            };
            Some(Dv { lo, hi })
        },
        None => match parse_dec(p.as_slice()) {
            Some(v) => Some(Dv { lo: Some(v), hi: Some(v) }),
            None => None,
        },
    }
}

/// Parse a `decimal64` `range` argument into intervals (`|` separates
/// intervals; bounds may be `min`/`max`). `None` when malformed.
pub fn dec_intervals(spec: &[char]) -> (r: Option<Vec<Dv>>)
    requires
        dec_ranges_defined(spec@),
    ensures
        match r {
            Some(v) => dec_ranges(spec@) == Some(v@),
            None => dec_ranges(spec@) is None,
        },
{
    let parts = split_chars(spec, '|');
    let ghost ps = char_views(parts@);
    let mut out: Vec<Dv> = Vec::new();
    let mut k: usize = 0;
    proof {
        assert(ps.skip(0) =~= ps);
        match dec_parts(ps) {
            Some(all) => {
                assert(out@ + all =~= all);
            },
            None => {},
        }
    }
    while k < parts.len()
        invariant
            ps == char_views(parts@),
            ps == split_at_char(spec@, '|'),
            k <= ps.len(),
            dec_parts_defined(ps.skip(k as int)),
            dec_parts(ps) == match dec_parts(ps.skip(k as int)) {
                Some(rest) => Some(out@ + rest),
                None => None::<Seq<Dv>>,
            },
        decreases ps.len() - k,
    {
        let ghost rest = ps.skip(k as int);
        proof {
            assert(rest[0] == parts@[k as int]@);
            assert(rest.drop_first() =~= ps.skip(k + 1));
        }
        match dec_interval(parts[k].as_slice()) {
            Some(iv) => {
                proof {
                    match dec_parts(ps.skip(k + 1)) {
                        Some(tail) => {
                            assert(out@.push(iv) + tail =~= out@ + (seq![iv] + tail));
                        },
                        None => {},
                    }
                }
                out.push(iv);
            },
            None => {
                return None;
            },
        }
        k = k + 1;
    }
    proof {
        assert(ps.skip(k as int) =~= Seq::<Seq<char>>::empty());
        assert(out@ + Seq::<Dv>::empty() =~= out@);
    }
    Some(out)
}

/// Whether the digits `ds` accumulate without overflow ([`acc_fits`]).
fn digits_fit(ds: &[char]) -> (r: bool)
    requires
        all_digits(ds@),
    ensures
        r == acc_fits(ds@),
{
    let n = ds.len();
    let mut m: i128 = 0;
    let mut k: usize = 0;
    proof {
        assert(ds@.take(0) =~= Seq::<char>::empty());
    }
    while k < n
        invariant
            n == ds@.len(),
            k <= n,
            all_digits(ds@),
            acc_fits(ds@.take(k as int)),
            m == sat_acc(ds@.take(k as int)),
        decreases n - k,
    {
        let ghost cur = ds@.take(k + 1);
        proof {
            assert(cur.drop_last() =~= ds@.take(k as int));
            assert(cur.last() == ds@[k as int]);
            assert(is_digit(ds@[k as int]));
            assert(all_digits(ds@.take(k as int))) by {
                assert forall|j: int| 0 <= j < k implies is_digit(#[trigger] ds@.take(k as int)[j]) by {
                    assert(ds@.take(k as int)[j] == ds@[j]);
                }
            }
            lemma_sat_acc_range(ds@.take(k as int));
        }
        let d: i128 = (ds[k] as u32 - '0' as u32) as i128;
        let x = sat_mul(m, 10);
        if x > i128::MAX - d {
            proof {
                if acc_fits(ds@) {
                    lemma_acc_fits_prefix(ds@, k + 1);
                }
            }
            return false;
        }
        m = x + d;
        k = k + 1;
    }
    proof {
        assert(ds@.take(n as int) =~= ds@);
    }
    true
}

/// Whether [`parse_dec`] reads `cs` within its counters and without
/// overflow ([`parse_dec_defined`]).
pub fn parse_dec_ok(cs: &[char]) -> (r: bool)
    ensures
        r == parse_dec_defined(cs@),
{
    let n = cs.len();
    let ghost s = cs@;
    let mut i: usize = 0;
    if i < n && (cs[i] == '-' || cs[i] == '+') {
        i = i + 1;
    }
    let sl = i;
    let int_n = count_digits(cs, i);
    proof {
        lemma_digit_run_bounds(s, i as int);
    }
    if int_n > 2147483647 {
        return false;
    }
    let ie = i + int_n;
    let mut ds = crate::text::sub_chars(cs, sl, ie);
    if ie < n && cs[ie] == '.' {
        let frac = count_digits(cs, ie + 1);
        proof {
            lemma_digit_run_bounds(s, ie + 1);
        }
        if frac > 4294967295 {
            return false;
        }
        let fd = crate::text::sub_chars(cs, ie + 1, ie + 1 + frac);
        crate::text::push_all(&mut ds, fd.as_slice());
    }
    proof {
        assert(ds@ =~= mant_digits(s));
        let md = mant_digits(s);
        assert(all_digits(md)) by {
            assert forall|j: int| 0 <= j < md.len() implies is_digit(#[trigger] md[j]) by {
                if j < int_len(s) {
                    assert(md[j] == s[sign_len(s) + j]);
                } else {
                    lemma_digit_run_bounds(s, int_end(s) + 1);
                    assert(md[j] == s[int_end(s) + 1 + (j - int_len(s))]);
                }
            }
        }
    }
    digits_fit(ds.as_slice())
}

/// Whether the digit runs of `cs` fit the counters of [`valid_decimal`]
/// ([`decimal_runs_fit`]).
pub fn decimal_runs_ok(cs: &[char]) -> (r: bool)
    ensures
        r == decimal_runs_fit(cs@),
{
    let n = cs.len();
    let ghost s = cs@;
    let mut i: usize = 0;
    if i < n && (cs[i] == '+' || cs[i] == '-') {
        i = i + 1;
    }
    let int_n = count_digits(cs, i);
    i = i + int_n;
    let mut frac: usize = 0;
    if i < n && cs[i] == '.' {
        i = i + 1;
        frac = count_digits(cs, i);
        i = i + frac;
    }
    if int_n > 2147483647 || frac > 2147483647 {
        return false;
    }
    if (int_n > 0 || frac > 0) && i < n && (cs[i] == 'e' || cs[i] == 'E') {
        i = i + 1;
        if i < n && (cs[i] == '+' || cs[i] == '-') {
            i = i + 1;
        }
        let exp = count_digits(cs, i);
        return exp <= 2147483647;
    }
    true
}

/// Whether one part of a `range` argument is read without overflow
/// ([`dec_part_defined`]).
fn dec_part_ok(part: &[char]) -> (r: bool)
    ensures
        r == dec_part_defined(part@),
{
    let p = trimmed(part);
    let min: Vec<char> = vec!['m', 'i', 'n'];
    let max: Vec<char> = vec!['m', 'a', 'x'];
    proof {
        assert(min@ =~= seq!['m', 'i', 'n']);
        assert(max@ =~= seq!['m', 'a', 'x']);
    }
    match split_at_range(p.as_slice()) {
        Some((a, b)) => {
            let a = trimmed(a.as_slice());
            let b = trimmed(b.as_slice());
            let a_min = chars_eq(a.as_slice(), min.as_slice());
            if !a_min && !parse_dec_ok(a.as_slice()) {
                return false;
            }
            if !a_min && parse_dec(a.as_slice()).is_none() {
                return true;
            }
            chars_eq(b.as_slice(), max.as_slice()) || parse_dec_ok(b.as_slice())
        },
        None => parse_dec_ok(p.as_slice()),
    }
}

/// Whether [`dec_intervals`] reads `spec` without overflow
/// ([`dec_ranges_defined`]).
pub fn dec_ranges_ok(spec: &[char]) -> (r: bool)
    ensures
        r == dec_ranges_defined(spec@),
{
    let parts = split_chars(spec, '|');
    let ghost ps = char_views(parts@);
    let mut k: usize = 0;
    proof {
        assert(ps.skip(0) =~= ps);
    }
    while k < parts.len()
        invariant
            ps == char_views(parts@),
            ps == split_at_char(spec@, '|'),
            k <= ps.len(),
            dec_parts_defined(ps) == dec_parts_defined(ps.skip(k as int)),
        decreases ps.len() - k,
    {
        proof {
            assert(ps.skip(k as int)[0] == parts@[k as int]@);
            assert(ps.skip(k as int).drop_first() =~= ps.skip(k + 1));
        }
        if !dec_part_ok(parts[k].as_slice()) {
            return false;
        }
        if dec_interval(parts[k].as_slice()).is_none() {
            return true;
        }
        k = k + 1;
    }
    true
}

} // verus!
