//! Decimal integer literals: reading them (`str::parse::<i128>`) and writing
//! them (`{}` formatting), over characters.

use vstd::prelude::*;
use vstd::arithmetic::power2::{pow2, lemma2_to64, lemma_pow2_adds, lemma_pow2_unfold, lemma_pow2_strictly_increases};
use crate::text::{is_digit, push_all, string_of};

verus! {

broadcast use vstd::slice::group_slice_axioms;

/// Every character of `s` is an ASCII digit.
pub open spec fn all_digits(s: Seq<char>) -> bool {
    forall|i: int| 0 <= i < s.len() ==> is_digit(#[trigger] s[i])
}

/// The value of the ASCII digit `c`.
pub open spec fn digit_val(c: char) -> int {
    c as int - '0' as int
}

/// The value of the decimal digits `s` (most significant first).
pub open spec fn digits_value(s: Seq<char>) -> int
    decreases s.len(),
{
    if s.len() == 0 {
        0
    } else {
        digits_value(s.drop_last()) * 10 + digit_val(s.last())
    }
}

/// `str::parse::<i128>`: an optional `+` or `-` followed by one or more
/// ASCII digits, whose value fits in `i128`.
pub open spec fn int_literal(s: Seq<char>) -> Option<int> {
    let neg = s.len() > 0 && s[0] == '-';
    let d = if s.len() > 0 && (s[0] == '-' || s[0] == '+') {
        s.skip(1)
    } else {
        s
    };
    let v = if neg {
        -digits_value(d)
    } else {
        digits_value(d)
    };
    if d.len() > 0 && all_digits(d) && i128::MIN <= v <= i128::MAX {
        Some(v)
    } else {
        None
    }
}

/// The decimal digits of `n` (no sign, no leading zeros; `0` for zero).
pub open spec fn digits_text(n: nat) -> Seq<char>
    decreases n,
{
    if n < 10 {
        seq![(n + '0' as nat) as char]
    } else {
        digits_text(n / 10).push(((n % 10) + '0' as nat) as char)
    }
}

/// The `{}` formatting of the integer `v`.
pub open spec fn int_text(v: int) -> Seq<char> {
    if v < 0 {
        seq!['-'] + digits_text((-v) as nat)
    } else {
        digits_text(v as nat)
    }
}

pub proof fn lemma_digits_value_nonneg(s: Seq<char>)
    requires
        all_digits(s),
    ensures
        digits_value(s) >= 0,
    decreases s.len(),
{
    if s.len() > 0 {
        assert(is_digit(s[s.len() - 1]));
        lemma_digits_value_nonneg(s.drop_last());
    }
}

/// A prefix of a digit string never has a larger value.
pub proof fn lemma_digits_value_prefix(s: Seq<char>, k: int)
    requires
        all_digits(s),
        0 <= k <= s.len(),
    ensures
        digits_value(s.take(k)) <= digits_value(s),
    decreases s.len(),
{
    if k < s.len() {
        assert(s.drop_last().take(k) =~= s.take(k));
        lemma_digits_value_prefix(s.drop_last(), k);
        lemma_digits_value_nonneg(s.drop_last());
        assert(is_digit(s[s.len() - 1]));
    } else {
        assert(s.take(k) =~= s);
    }
}

/// The largest magnitude of an `i128`, that of `i128::MIN`.
pub open spec fn max_magnitude() -> int {
    i128::MAX + 1
}

/// `str::parse::<i128>`.
pub fn parse_i128(cs: &[char]) -> (r: Option<i128>)
    ensures
        match r {
            Some(v) => int_literal(cs@) == Some(v as int),
            None => int_literal(cs@) is None,
        },
{
    let n = cs.len();
    let mut start: usize = 0;
    let neg = n > 0 && cs[0] == '-';
    if n > 0 && (cs[0] == '-' || cs[0] == '+') {
        start = 1;
    }
    let ghost d = cs@.skip(start as int);
    if start == n {
        return None;
    }
    let limit: u128 = 170141183460469231731687303715884105728;
    let mut m: u128 = 0;
    let mut i = start;
    while i < n
        invariant
            n == cs@.len(),
            start <= i <= n,
            start < n,
            d == cs@.skip(start as int),
            d == (if cs@.len() > 0 && (cs@[0] == '-' || cs@[0] == '+') {
                cs@.skip(1)
            } else {
                cs@
            }),
            neg == (cs@.len() > 0 && cs@[0] == '-'),
            limit == max_magnitude(),
            all_digits(d.take(i - start)),
            m == digits_value(d.take(i - start)),
            m <= limit,
        decreases n - i,
    {
        let c = cs[i];
        if !('0' <= c && c <= '9') {
            proof {
                assert(d[i - start] == c);
                assert(!is_digit(d[i - start]));
            }
            return None;
        }
        let ghost pre = d.take(i - start);
        let ghost cur = d.take(i - start + 1);
        proof {
            assert(cur.drop_last() =~= pre);
            assert(cur.last() == c);
            assert(all_digits(cur)) by {
                assert forall|j: int| 0 <= j < cur.len() implies is_digit(#[trigger] cur[j]) by {
                    if j < pre.len() {
                        assert(cur[j] == pre[j]);
                    }
                }
            }
        }
        let dv: u128 = (c as u32 - '0' as u32) as u128;
        if m > limit / 10 {
            proof {
                assert(digits_value(cur) > limit) by (nonlinear_arith)
                    requires
                        digits_value(cur) == m * 10 + digit_val(c),
                        m > limit / 10,
                        limit == 170141183460469231731687303715884105728int,
                        digit_val(c) >= 0,
                ;
                if all_digits(d) {
                    lemma_digits_value_prefix(d, i - start + 1);
                }
            }
            return None;
        }
        m = m * 10 + dv;
        i = i + 1;
        if m > limit {
            proof {
                assert(d.take(i - start) =~= cur);
                if all_digits(d) {
                    lemma_digits_value_prefix(d, i - start);
                }
            }
            return None;
        }
        proof {
            assert(d.take(i - start) =~= cur);
        }
    }
    proof {
        assert(d.take(n - start) =~= d);
    }
    if neg {
        if m == limit {
            Some(-170141183460469231731687303715884105727i128 - 1)
        } else {
            let v = m as i128;
            Some(-v)
        }
    } else {
        if m == limit {
            None
        } else {
            Some(m as i128)
        }
    }
}

proof fn lemma_digits_text_len(n: nat)
    ensures
        digits_text(n).len() >= 1,
    decreases n,
{
    if n >= 10 {
        lemma_digits_text_len(n / 10);
    }
}

/// The decimal digits of `n`.
pub fn digits_string(n: u128) -> (r: Vec<char>)
    ensures
        r@ == digits_text(n as nat),
    decreases n,
{
    if n < 10 {
        let c = char_of_digit(n);
        let mut v: Vec<char> = Vec::new();
        v.push(c);
        proof {
            assert(v@ =~= seq![(n + '0' as nat) as char]);
        }
        v
    } else {
        let mut v = digits_string(n / 10);
        let c = char_of_digit(n % 10);
        v.push(c);
        v
    }
}

/// The ASCII digit for `d`.
fn char_of_digit(d: u128) -> (r: char)
    requires
        d < 10,
    ensures
        r == (d + '0' as nat) as char,
{
    if d == 0 {
        '0'
    } else if d == 1 {
        '1'
    } else if d == 2 {
        '2'
    } else if d == 3 {
        '3'
    } else if d == 4 {
        '4'
    } else if d == 5 {
        '5'
    } else if d == 6 {
        '6'
    } else if d == 7 {
        '7'
    } else if d == 8 {
        '8'
    } else {
        '9'
    }
}

/// Append the `{}` formatting of `v` to `out`.
pub fn push_int(out: &mut Vec<char>, v: i128)
    ensures
        final(out)@ == old(out)@ + int_text(v as int),
{
    if v < 0 {
        out.push('-');
        let mag: u128 = if v == i128::MIN {
            170141183460469231731687303715884105728
        } else {
            (-v) as u128
        };
        let ds = digits_string(mag);
        push_all(out, ds.as_slice());
        proof {
            assert(mag as nat == (-v) as nat);
        }
    } else {
        let ds = digits_string(v as u128);
        push_all(out, ds.as_slice());
    }
}

/// The `{}` formatting of `v`.
pub fn int_string(v: i128) -> (r: String)
    ensures
        r@ == int_text(v as int),
{
    let mut out: Vec<char> = Vec::new();
    push_int(&mut out, v);
    proof {
        assert(out@ =~= int_text(v as int));
    }
    string_of(out.as_slice())
}

/// The value of `2^127`, one past `i128::MAX`.
proof fn lemma_pow2_127()
    ensures
        pow2(127) == 170141183460469231731687303715884105728int,
{
    lemma2_to64();
    lemma_pow2_adds(64, 32);
    lemma_pow2_adds(96, 31);
}

/// `2^n` for `n <= 126`.
pub fn pow2_i128(n: u8) -> (r: i128)
    requires
        n <= 126,
    ensures
        r == pow2(n as nat),
{
    let mut r: i128 = 1;
    let mut k: u8 = 0;
    proof {
        lemma2_to64();
    }
    while k < n
        invariant
            k <= n <= 126,
            r == pow2(k as nat),
        decreases n - k,
    {
        proof {
            lemma_pow2_unfold((k + 1) as nat);
            lemma_pow2_strictly_increases((k + 1) as nat, 127);
            lemma_pow2_127();
        }
        r = r * 2;
        k = k + 1;
    }
    r
}

} // verus!
