//! Character-level string helpers shared by the parsers and validators.
//!
//! Strings are handled as sequences of `char`s: every public function of the
//! crate takes `&str`, turns it into its characters once, and states its
//! contract over the characters (`s@`).

use vstd::prelude::*;
use vstd::string::StringSliceAdditionalSpecFns;
use vstd::std_specs::iter::IteratorSpec;
use vstd::utf8::{decode_utf8, is_char_boundary};

verus! {

broadcast use vstd::slice::group_slice_axioms;

/// Rust's `char::is_whitespace` (the Unicode `White_Space` property).
pub open spec fn is_ws(c: char) -> bool {
    ||| c == ' ' || c == '\t' || c == '\n' || c == '\r'
    ||| c == '\u{0B}' || c == '\u{0C}' || c == '\u{85}' || c == '\u{A0}'
    ||| c == '\u{1680}' || ('\u{2000}' <= c && c <= '\u{200A}')
    ||| c == '\u{2028}' || c == '\u{2029}' || c == '\u{202F}' || c == '\u{205F}'
    ||| c == '\u{3000}'
}

/// Executable [`is_ws`].
pub fn char_is_ws(c: char) -> (r: bool)
    ensures
        r == is_ws(c),
{
    c == ' ' || c == '\t' || c == '\n' || c == '\r' || c == '\u{0B}' || c == '\u{0C}'
        || c == '\u{85}' || c == '\u{A0}' || c == '\u{1680}' || ('\u{2000}' <= c && c
        <= '\u{200A}') || c == '\u{2028}' || c == '\u{2029}' || c == '\u{202F}' || c
        == '\u{205F}' || c == '\u{3000}'
}

/// ASCII decimal digit.
pub open spec fn is_digit(c: char) -> bool {
    '0' <= c && c <= '9'
}

/// ASCII letter.
pub open spec fn is_alpha(c: char) -> bool {
    ('a' <= c && c <= 'z') || ('A' <= c && c <= 'Z')
}

/// `i` is the first position of `c` in `s`.
pub open spec fn is_first(s: Seq<char>, c: char, i: int) -> bool {
    &&& 0 <= i < s.len()
    &&& s[i] == c
    &&& forall|j: int| 0 <= j < i ==> s[j] != c
}

/// `i` is the last position of `c` in `s`.
pub open spec fn is_last(s: Seq<char>, c: char, i: int) -> bool {
    &&& 0 <= i < s.len()
    &&& s[i] == c
    &&& forall|j: int| i < j < s.len() ==> s[j] != c
}

/// The first position of `c` in `s`, if `c` occurs.
pub open spec fn first_of(s: Seq<char>, c: char) -> Option<int> {
    if exists|i: int| is_first(s, c, i) {
        Some(choose|i: int| is_first(s, c, i))
    } else {
        None
    }
}

/// The last position of `c` in `s`, if `c` occurs.
pub open spec fn last_of(s: Seq<char>, c: char) -> Option<int> {
    if exists|i: int| is_last(s, c, i) {
        Some(choose|i: int| is_last(s, c, i))
    } else {
        None
    }
}

pub proof fn lemma_first_of(s: Seq<char>, c: char, i: int)
    requires
        is_first(s, c, i),
    ensures
        first_of(s, c) == Some(i),
{
    let k = choose|k: int| is_first(s, c, k);
    assert(is_first(s, c, k));
    if k < i {
        assert(s[k] != c);
    }
    if i < k {
        assert(s[i] != c);
    }
}

pub proof fn lemma_first_of_none(s: Seq<char>, c: char)
    requires
        forall|j: int| 0 <= j < s.len() ==> s[j] != c,
    ensures
        first_of(s, c) is None,
{
}

pub proof fn lemma_last_of(s: Seq<char>, c: char, i: int)
    requires
        is_last(s, c, i),
    ensures
        last_of(s, c) == Some(i),
{
    let k = choose|k: int| is_last(s, c, k);
    assert(is_last(s, c, k));
    if k < i {
        assert(s[i] != c);
    }
    if i < k {
        assert(s[k] != c);
    }
}

/// The part of `s` before the first `c` and the part after it, when `c`
/// occurs (`str::split_once`).
pub open spec fn split_once(s: Seq<char>, c: char) -> Option<(Seq<char>, Seq<char>)> {
    match first_of(s, c) {
        Some(i) => Some((s.subrange(0, i), s.subrange(i + 1, s.len() as int))),
        None => None,
    }
}

/// The part of `s` after its last `c`, or all of `s` when there is none
/// (`str::rsplit(c).next()`).
pub open spec fn after_last(s: Seq<char>, c: char) -> Seq<char> {
    match last_of(s, c) {
        Some(i) => s.subrange(i + 1, s.len() as int),
        None => s,
    }
}

/// Whether `c` occurs in `s`.
pub open spec fn has_char(s: Seq<char>, c: char) -> bool {
    exists|i: int| 0 <= i < s.len() && s[i] == c
}

/// The number of leading whitespace characters of `s`.
pub open spec fn lead_ws(s: Seq<char>) -> int
    decreases s.len(),
{
    if s.len() == 0 {
        0
    } else if is_ws(s[0]) {
        1 + lead_ws(s.drop_first())
    } else {
        0
    }
}

/// The number of trailing whitespace characters of `s`.
pub open spec fn trail_ws(s: Seq<char>) -> int
    decreases s.len(),
{
    if s.len() == 0 {
        0
    } else if is_ws(s.last()) {
        1 + trail_ws(s.drop_last())
    } else {
        0
    }
}

/// `s` without trailing whitespace (`str::trim_end`).
pub open spec fn trim_end(s: Seq<char>) -> Seq<char> {
    s.subrange(0, s.len() - trail_ws(s))
}

/// `s` without leading whitespace (`str::trim_start`).
pub open spec fn trim_start(s: Seq<char>) -> Seq<char> {
    s.subrange(lead_ws(s), s.len() as int)
}

/// `s` without leading and trailing whitespace (`str::trim`).
pub open spec fn trim(s: Seq<char>) -> Seq<char> {
    trim_end(trim_start(s))
}

pub proof fn lemma_lead_ws_bounds(s: Seq<char>)
    ensures
        0 <= lead_ws(s) <= s.len(),
        forall|j: int| 0 <= j < lead_ws(s) ==> is_ws(s[j]),
        lead_ws(s) < s.len() ==> !is_ws(s[lead_ws(s)]),
    decreases s.len(),
{
    if s.len() > 0 && is_ws(s[0]) {
        lemma_lead_ws_bounds(s.drop_first());
        assert forall|j: int| 0 <= j < lead_ws(s) implies is_ws(s[j]) by {
            if j > 0 {
                assert(s[j] == s.drop_first()[j - 1]);
            }
        }
    }
}

pub proof fn lemma_trail_ws_bounds(s: Seq<char>)
    ensures
        0 <= trail_ws(s) <= s.len(),
        forall|j: int| s.len() - trail_ws(s) <= j < s.len() ==> is_ws(s[j]),
        trail_ws(s) < s.len() ==> !is_ws(s[s.len() - trail_ws(s) - 1]),
    decreases s.len(),
{
    if s.len() > 0 && is_ws(s.last()) {
        lemma_trail_ws_bounds(s.drop_last());
        assert forall|j: int| s.len() - trail_ws(s) <= j < s.len() implies is_ws(s[j]) by {
            if j < s.len() - 1 {
                assert(s[j] == s.drop_last()[j]);
            }
        }
    }
}

/// Characterizes `lead_ws` by the position where the whitespace ends.
pub proof fn lemma_lead_ws_is(s: Seq<char>, k: int)
    requires
        0 <= k <= s.len(),
        forall|j: int| 0 <= j < k ==> is_ws(s[j]),
        k < s.len() ==> !is_ws(s[k]),
    ensures
        lead_ws(s) == k,
    decreases s.len(),
{
    if k > 0 {
        assert(is_ws(s[0]));
        assert forall|j: int| 0 <= j < k - 1 implies is_ws(s.drop_first()[j]) by {
            assert(s.drop_first()[j] == s[j + 1]);
        }
        if k - 1 < s.len() - 1 {
            assert(s.drop_first()[k - 1] == s[k]);
        }
        lemma_lead_ws_is(s.drop_first(), k - 1);
    }
}

/// Characterizes `trail_ws` by the position where the trailing whitespace starts.
pub proof fn lemma_trail_ws_is(s: Seq<char>, k: int)
    requires
        0 <= k <= s.len(),
        forall|j: int| k <= j < s.len() ==> is_ws(s[j]),
        k > 0 ==> !is_ws(s[k - 1]),
    ensures
        trail_ws(s) == s.len() - k,
    decreases s.len(),
{
    if k < s.len() {
        assert(is_ws(s.last()));
        assert forall|j: int| k <= j < s.len() - 1 implies is_ws(s.drop_last()[j]) by {
            assert(s.drop_last()[j] == s[j]);
        }
        if k > 0 {
            assert(s.drop_last()[k - 1] == s[k - 1]);
        }
        lemma_trail_ws_is(s.drop_last(), k);
    }
}

/// The characters of `s`, in order.
pub fn chars_of(s: &str) -> (r: Vec<char>)
    ensures
        r@ == s@,
{
    broadcast use vstd::string::axiom_spec_iter, vstd::string::next_postcondition;
    let mut it = s.chars();
    let mut out: Vec<char> = Vec::new();
    loop
        invariant
            out@ + it.remaining() == s@,
            it.decrease() is Some,
        decreases it.decrease()->0,
    {
        let ghost before = it;
        match it.next() {
            Some(c) => {
                proof {
                    assert(before.remaining().len() > 0);
                    assert(before.remaining() == seq![c] + it.remaining());
                }
                out.push(c);
                proof {
                    assert(out@ + it.remaining() =~= s@);
                }
            },
            None => {
                proof {
                    assert(it.remaining().len() == 0);
                    assert(out@ =~= s@);
                }
                return out;
            },
        }
    }
}

/// The string made of the characters `cs`.
#[verifier::external_body]
pub fn string_of(cs: &[char]) -> (r: String)
    ensures
        r@ == cs@,
{
    cs.iter().collect()
}

/// Equality of two string slices, character by character.
pub fn str_eq(a: &str, b: &str) -> (r: bool)
    ensures
        r == (a@ == b@),
{
    let ac = chars_of(a);
    let bc = chars_of(b);
    chars_eq(ac.as_slice(), bc.as_slice())
}

/// The first position of `c` in `cs[from..]`.
pub fn find_char_from(cs: &[char], c: char, from: usize) -> (r: Option<usize>)
    requires
        from <= cs@.len(),
    ensures
        match r {
            Some(i) => from <= i < cs@.len() && cs@[i as int] == c && forall|j: int|
                from <= j < i ==> cs@[j] != c,
            None => forall|j: int| from <= j < cs@.len() ==> cs@[j] != c,
        },
{
    let mut i = from;
    while i < cs.len()
        invariant
            from <= i <= cs@.len(),
            forall|j: int| from <= j < i ==> cs@[j] != c,
        decreases cs@.len() - i,
    {
        if cs[i] == c {
            return Some(i);
        }
        i = i + 1;
    }
    None
}

/// The first position of `c` in `cs`.
pub fn find_char(cs: &[char], c: char) -> (r: Option<usize>)
    ensures
        r matches Some(i) ==> first_of(cs@, c) == Some(i as int) && is_first(cs@, c, i as int),
        r is None ==> first_of(cs@, c) is None,
        r is Some <==> has_char(cs@, c),
{
    let r = find_char_from(cs, c, 0);
    proof {
        if let Some(i) = r {
            lemma_first_of(cs@, c, i as int);
        }
    }
    r
}

/// The last position of `c` in `cs`.
pub fn rfind_char(cs: &[char], c: char) -> (r: Option<usize>)
    ensures
        r matches Some(i) ==> last_of(cs@, c) == Some(i as int) && is_last(cs@, c, i as int),
        r is None ==> last_of(cs@, c) is None,
        r is Some <==> has_char(cs@, c),
{
    let mut i = cs.len();
    while i > 0
        invariant
            i <= cs@.len(),
            forall|j: int| i <= j < cs@.len() ==> cs@[j] != c,
        decreases i,
    {
        if cs[i - 1] == c {
            proof {
                lemma_last_of(cs@, c, i - 1);
            }
            return Some(i - 1);
        }
        i = i - 1;
    }
    None
}

/// The characters `cs[lo..hi]` as a new vector.
pub fn sub_chars(cs: &[char], lo: usize, hi: usize) -> (r: Vec<char>)
    requires
        lo <= hi <= cs@.len(),
    ensures
        r@ == cs@.subrange(lo as int, hi as int),
{
    let mut out: Vec<char> = Vec::new();
    let mut i = lo;
    while i < hi
        invariant
            lo <= i <= hi <= cs@.len(),
            out@ == cs@.subrange(lo as int, i as int),
        decreases hi - i,
    {
        out.push(cs[i]);
        i = i + 1;
    }
    out
}

/// The string `cs[lo..hi]`.
pub fn sub_string(cs: &[char], lo: usize, hi: usize) -> (r: String)
    requires
        lo <= hi <= cs@.len(),
    ensures
        r@ == cs@.subrange(lo as int, hi as int),
{
    let v = sub_chars(cs, lo, hi);
    string_of(v.as_slice())
}

/// Bounds `(start, end)` of `trim(cs[lo..hi])` inside `cs`.
pub fn trim_bounds(cs: &[char], lo: usize, hi: usize) -> (r: (usize, usize))
    requires
        lo <= hi <= cs@.len(),
    ensures
        lo <= r.0 <= r.1 <= hi,
        cs@.subrange(r.0 as int, r.1 as int) == trim(cs@.subrange(lo as int, hi as int)),
        r.0 == lo + lead_ws(cs@.subrange(lo as int, hi as int)),
{
    let ghost s = cs@.subrange(lo as int, hi as int);
    let mut a = lo;
    while a < hi && char_is_ws(cs[a])
        invariant
            lo <= a <= hi <= cs@.len(),
            forall|j: int| lo <= j < a ==> is_ws(cs@[j]),
        decreases hi - a,
    {
        a = a + 1;
    }
    proof {
        lemma_lead_ws_is(s, a - lo);
    }
    let mut b = hi;
    while b > a && char_is_ws(cs[b - 1])
        invariant
            lo <= a <= b <= hi <= cs@.len(),
            forall|j: int| b <= j < hi ==> is_ws(cs@[j]),
        decreases b - a,
    {
        b = b - 1;
    }
    proof {
        let t = trim_start(s);
        assert(t =~= cs@.subrange(a as int, hi as int));
        lemma_trail_ws_is(t, b - a);
        assert(trim_end(t) =~= cs@.subrange(a as int, b as int));
    }
    (a, b)
}

/// Whether `cs[at..]` starts with `pat`.
pub fn starts_with_at(cs: &[char], at: usize, pat: &[char]) -> (r: bool)
    requires
        at <= cs@.len(),
    ensures
        r == (pat@.len() <= cs@.len() - at && cs@.subrange(at as int, at + pat@.len())
            == pat@),
{
    let n = pat.len();
    let m = cs.len();
    if n > m - at {
        return false;
    }
    let mut k: usize = 0;
    while k < n
        invariant
            n == pat@.len(),
            m == cs@.len(),
            k <= n,
            at + n <= m,
            forall|j: int| 0 <= j < k ==> cs@[at + j] == pat@[j],
        decreases n - k,
    {
        if cs[at + k] != pat[k] {
            proof {
                assert(cs@.subrange(at as int, at + pat@.len())[k as int] != pat@[k as int]);
            }
            return false;
        }
        k = k + 1;
    }
    proof {
        assert(cs@.subrange(at as int, at + pat@.len()) =~= pat@);
    }
    true
}

/// Whether `pat` occurs in `s` at position `i`.
pub open spec fn occurs_at(s: Seq<char>, pat: Seq<char>, i: int) -> bool {
    0 <= i && i + pat.len() <= s.len() && s.subrange(i, i + pat.len()) == pat
}

/// The first occurrence of `pat` in `cs[from..]` (`str::find`).
pub fn find_seq_from(cs: &[char], pat: &[char], from: usize) -> (r: Option<usize>)
    requires
        from <= cs@.len(),
    ensures
        match r {
            Some(i) => from <= i && occurs_at(cs@, pat@, i as int) && forall|j: int|
                from <= j < i ==> !occurs_at(cs@, pat@, j),
            None => forall|j: int| from <= j ==> !occurs_at(cs@, pat@, j),
        },
{
    let mut i = from;
    while i < cs.len()
        invariant
            from <= i <= cs@.len(),
            forall|j: int| from <= j < i ==> !occurs_at(cs@, pat@, j),
        decreases cs@.len() - i,
    {
        if starts_with_at(cs, i, pat) {
            return Some(i);
        }
        i = i + 1;
    }
    if pat.len() == 0 {
        proof {
            assert(cs@.subrange(i as int, i as int) =~= pat@);
        }
        return Some(i);
    }
    None
}

/// `i` is the first position at or after `from` where `pat` occurs in `s`.
pub open spec fn is_first_occ(s: Seq<char>, pat: Seq<char>, from: int, i: int) -> bool {
    &&& from <= i
    &&& occurs_at(s, pat, i)
    &&& forall|j: int| from <= j < i ==> !occurs_at(s, pat, j)
}

/// The first position at or after `from` where `pat` occurs in `s`.
pub open spec fn first_occ(s: Seq<char>, pat: Seq<char>, from: int) -> Option<int> {
    if exists|i: int| is_first_occ(s, pat, from, i) {
        Some(choose|i: int| is_first_occ(s, pat, from, i))
    } else {
        None
    }
}

pub proof fn lemma_first_occ(s: Seq<char>, pat: Seq<char>, from: int, i: int)
    requires
        is_first_occ(s, pat, from, i),
    ensures
        first_occ(s, pat, from) == Some(i),
{
    let k = choose|k: int| is_first_occ(s, pat, from, k);
    assert(is_first_occ(s, pat, from, k));
    if k < i {
        assert(!occurs_at(s, pat, k));
    }
    if i < k {
        assert(!occurs_at(s, pat, i));
    }
}

/// What [`first_occ`] finds is a first occurrence.
pub proof fn lemma_first_occ_some(s: Seq<char>, pat: Seq<char>, from: int)
    requires
        first_occ(s, pat, from) is Some,
    ensures
        is_first_occ(s, pat, from, first_occ(s, pat, from).unwrap()),
{
}

/// [`first_occ`] computed.
pub fn find_first(cs: &[char], pat: &[char], from: usize) -> (r: Option<usize>)
    requires
        from <= cs@.len(),
    ensures
        r matches Some(i) ==> first_occ(cs@, pat@, from as int) == Some(i as int),
        r is None ==> first_occ(cs@, pat@, from as int) is None,
{
    let r = find_seq_from(cs, pat, from);
    proof {
        if let Some(i) = r {
            lemma_first_occ(cs@, pat@, from as int, i as int);
        } else {
            assert(!exists|i: int| is_first_occ(cs@, pat@, from as int, i));
        }
    }
    r
}

/// Append the characters `s` to `out`.
pub fn push_all(out: &mut Vec<char>, s: &[char])
    ensures
        final(out)@ == old(out)@ + s@,
{
    let mut k: usize = 0;
    while k < s.len()
        invariant
            k <= s@.len(),
            out@ == old(out)@ + s@.take(k as int),
        decreases s@.len() - k,
    {
        out.push(s[k]);
        k = k + 1;
        proof {
            assert(s@.take(k as int) =~= s@.take(k - 1).push(s@[k - 1]));
        }
    }
    proof {
        assert(s@.take(s@.len() as int) =~= s@);
    }
}

/// Append the characters of `s` to `out`.
pub fn push_str(out: &mut Vec<char>, s: &str)
    ensures
        final(out)@ == old(out)@ + s@,
{
    let cs = chars_of(s);
    push_all(out, cs.as_slice());
}

/// The length of `trim_end(cs[..n])`.
pub fn trim_end_len(cs: &[char], n: usize) -> (r: usize)
    requires
        n <= cs@.len(),
    ensures
        r <= n,
        cs@.take(r as int) == trim_end(cs@.take(n as int)),
{
    let mut b = n;
    while b > 0 && char_is_ws(cs[b - 1])
        invariant
            b <= n <= cs@.len(),
            forall|j: int| b <= j < n ==> is_ws(cs@[j]),
        decreases b,
    {
        b = b - 1;
    }
    proof {
        let s = cs@.take(n as int);
        lemma_trail_ws_is(s, b as int);
        assert(trim_end(s) =~= cs@.take(b as int));
    }
    b
}

/// `s` split at every `c` (`str::split(c)`): the pieces between the
/// separators, in order, always at least one.
pub open spec fn split_at_char(s: Seq<char>, c: char) -> Seq<Seq<char>>
    decreases s.len(),
{
    match first_of(s, c) {
        Some(i) => {
            proof {
                lemma_first_of_some(s, c);
            }
            seq![s.take(i)] + split_at_char(s.skip(i + 1), c)
        },
        None => seq![s],
    }
}

/// What [`first_of`] finds is a first position.
pub proof fn lemma_first_of_some(s: Seq<char>, c: char)
    requires
        first_of(s, c) is Some,
    ensures
        is_first(s, c, first_of(s, c).unwrap()),
{
}

/// The halves of `s` around its first `..` (`str::split_once("..")`).
pub open spec fn split_range(s: Seq<char>) -> Option<(Seq<char>, Seq<char>)> {
    match first_occ(s, seq!['.', '.'], 0) {
        Some(i) => Some((s.take(i), s.skip(i + 2))),
        None => None,
    }
}

/// The view of an optional string.
pub open spec fn opt_view(o: Option<String>) -> Option<Seq<char>> {
    match o {
        Some(s) => Some(s@),
        None => None,
    }
}

/// The views of a sequence of strings.
pub open spec fn views(v: Seq<String>) -> Seq<Seq<char>> {
    v.map_values(|c: String| c@)
}

/// The views of a sequence of character vectors.
pub open spec fn char_views(v: Seq<Vec<char>>) -> Seq<Seq<char>> {
    v.map_values(|c: Vec<char>| c@)
}

/// [`split_at_char`] computed.
pub fn split_chars(cs: &[char], c: char) -> (r: Vec<Vec<char>>)
    ensures
        char_views(r@) == split_at_char(cs@, c),
{
    let n = cs.len();
    let mut out: Vec<Vec<char>> = Vec::new();
    let mut start: usize = 0;
    proof {
        assert(cs@.skip(0) =~= cs@);
        assert(char_views(out@) =~= Seq::<Seq<char>>::empty());
    }
    loop
        invariant
            n == cs@.len(),
            start <= n,
            char_views(out@) + split_at_char(cs@.skip(start as int), c) == split_at_char(cs@, c),
        decreases n - start,
    {
        let ghost rest = cs@.skip(start as int);
        match find_char_from(cs, c, start) {
            Some(i) => {
                let piece = sub_chars(cs, start, i);
                proof {
                    lemma_first_of(rest, c, i - start);
                    assert(rest.take(i - start) =~= piece@);
                    assert(rest.skip(i - start + 1) =~= cs@.skip(i + 1));
                    assert(char_views(out@.push(piece)) =~= char_views(out@).push(piece@));
                    assert(split_at_char(rest, c) == seq![piece@] + split_at_char(cs@.skip(i + 1), c));
                    assert(char_views(out@).push(piece@) + split_at_char(cs@.skip(i + 1), c)
                        =~= char_views(out@) + (seq![piece@] + split_at_char(cs@.skip(i + 1), c)));
                }
                out.push(piece);
                start = i + 1;
            },
            None => {
                let piece = sub_chars(cs, start, n);
                proof {
                    assert forall|j: int| 0 <= j < rest.len() implies rest[j] != c by {
                        assert(rest[j] == cs@[start + j]);
                    }
                    lemma_first_of_none(rest, c);
                    assert(rest =~= piece@);
                    assert(char_views(out@.push(piece)) =~= char_views(out@).push(piece@));
                    assert(char_views(out@).push(piece@) =~= char_views(out@) + seq![piece@]);
                }
                out.push(piece);
                return out;
            },
        }
    }
}

/// [`split_range`] computed.
pub fn split_at_range(cs: &[char]) -> (r: Option<(Vec<char>, Vec<char>)>)
    ensures
        match r {
            Some((a, b)) => split_range(cs@) == Some((a@, b@)),
            None => split_range(cs@) is None,
        },
{
    let n = cs.len();
    let dots: Vec<char> = vec!['.', '.'];
    proof {
        assert(dots@ =~= seq!['.', '.']);
    }
    match find_first(cs, dots.as_slice(), 0) {
        Some(i) => {
            proof {
                lemma_first_occ_some(cs@, seq!['.', '.'], 0);
            }
            let a = sub_chars(cs, 0, i);
            let b = sub_chars(cs, i + 2, n);
            proof {
                assert(a@ =~= cs@.take(i as int));
                assert(b@ =~= cs@.skip(i + 2));
            }
            Some((a, b))
        },
        None => None,
    }
}

/// Equality of two character sequences.
pub fn chars_eq(a: &[char], b: &[char]) -> (r: bool)
    ensures
        r == (a@ == b@),
{
    if a.len() != b.len() {
        return false;
    }
    let mut k: usize = 0;
    while k < a.len()
        invariant
            a@.len() == b@.len(),
            k <= a@.len(),
            forall|j: int| 0 <= j < k ==> a@[j] == b@[j],
        decreases a@.len() - k,
    {
        if a[k] != b[k] {
            return false;
        }
        k = k + 1;
    }
    proof {
        assert(a@ =~= b@);
    }
    true
}

/// `trim(cs)` as a new vector.
pub fn trimmed(cs: &[char]) -> (r: Vec<char>)
    ensures
        r@ == trim(cs@),
{
    let (a, b) = trim_bounds(cs, 0, cs.len());
    proof {
        assert(cs@.subrange(0, cs@.len() as int) =~= cs@);
    }
    sub_chars(cs, a, b)
}

/// The number of leading non-whitespace characters of `s`.
pub open spec fn word_len(s: Seq<char>) -> int
    decreases s.len(),
{
    if s.len() == 0 || is_ws(s[0]) {
        0
    } else {
        1 + word_len(s.drop_first())
    }
}

/// The first whitespace-separated word of `s`, or empty
/// (`str::split_whitespace().next().unwrap_or("")`).
pub open spec fn first_word(s: Seq<char>) -> Seq<char> {
    let u = trim_start(s);
    u.take(word_len(u))
}

pub proof fn lemma_word_len_is(s: Seq<char>, k: int)
    requires
        0 <= k <= s.len(),
        forall|j: int| 0 <= j < k ==> !is_ws(s[j]),
        k < s.len() ==> is_ws(s[k]),
    ensures
        word_len(s) == k,
    decreases s.len(),
{
    if k > 0 {
        assert forall|j: int| 0 <= j < k - 1 implies !is_ws(s.drop_first()[j]) by {
            assert(s.drop_first()[j] == s[j + 1]);
        }
        if k - 1 < s.len() - 1 {
            assert(s.drop_first()[k - 1] == s[k]);
        }
        lemma_word_len_is(s.drop_first(), k - 1);
    }
}

/// The first word of `cs[lo..hi]` ([`first_word`]), as bounds in `cs`.
pub fn word_bounds(cs: &[char], lo: usize, hi: usize) -> (r: (usize, usize))
    requires
        lo <= hi <= cs@.len(),
    ensures
        lo <= r.0 <= r.1 <= hi,
        cs@.subrange(r.0 as int, r.1 as int) == first_word(cs@.subrange(lo as int, hi as int)),
        r.0 == lo + lead_ws(cs@.subrange(lo as int, hi as int)),
        r.1 == r.0 + word_len(trim_start(cs@.subrange(lo as int, hi as int))),
{
    let ghost s = cs@.subrange(lo as int, hi as int);
    let mut a = lo;
    while a < hi && char_is_ws(cs[a])
        invariant
            lo <= a <= hi <= cs@.len(),
            forall|j: int| lo <= j < a ==> is_ws(cs@[j]),
        decreases hi - a,
    {
        a = a + 1;
    }
    proof {
        lemma_lead_ws_is(s, a - lo);
    }
    let mut b = a;
    while b < hi && !char_is_ws(cs[b])
        invariant
            lo <= a <= b <= hi <= cs@.len(),
            forall|j: int| a <= j < b ==> !is_ws(cs@[j]),
        decreases hi - b,
    {
        b = b + 1;
    }
    proof {
        let u = trim_start(s);
        assert(u =~= cs@.subrange(a as int, hi as int));
        lemma_word_len_is(u, b - a);
        assert(u.take(b - a) =~= cs@.subrange(a as int, b as int));
    }
    (a, b)
}

/// The whitespace-separated words of `s` (`str::split_whitespace`).
pub open spec fn words(s: Seq<char>) -> Seq<Seq<char>>
    decreases s.len(),
{
    let t = trim_start(s);
    if t.len() == 0 {
        Seq::empty()
    } else {
        proof {
            lemma_lead_ws_bounds(s);
            lemma_word_len_pos(t);
        }
        seq![t.take(word_len(t))] + words(t.skip(word_len(t)))
    }
}

pub proof fn lemma_word_len_bounds(s: Seq<char>)
    ensures
        0 <= word_len(s) <= s.len(),
        forall|j: int| 0 <= j < word_len(s) ==> !is_ws(#[trigger] s[j]),
        word_len(s) < s.len() ==> is_ws(s[word_len(s)]),
    decreases s.len(),
{
    if s.len() > 0 && !is_ws(s[0]) {
        lemma_word_len_bounds(s.drop_first());
        assert forall|j: int| 0 <= j < word_len(s) implies !is_ws(#[trigger] s[j]) by {
            if j > 0 {
                assert(s[j] == s.drop_first()[j - 1]);
            }
        }
    }
}

pub proof fn lemma_word_len_pos(t: Seq<char>)
    requires
        t.len() > 0,
        !is_ws(t[0]),
    ensures
        1 <= word_len(t) <= t.len(),
{
    lemma_word_len_bounds(t);
}

/// [`words`] computed.
pub fn split_words(cs: &[char]) -> (r: Vec<Vec<char>>)
    ensures
        char_views(r@) == words(cs@),
{
    let n = cs.len();
    let mut out: Vec<Vec<char>> = Vec::new();
    let mut i: usize = 0;
    proof {
        assert(cs@.skip(0) =~= cs@);
        assert(char_views(out@) =~= Seq::<Seq<char>>::empty());
    }
    while i < n
        invariant
            n == cs@.len(),
            i <= n,
            char_views(out@) + words(cs@.skip(i as int)) == words(cs@),
        decreases n - i,
    {
        let (a, b) = word_bounds(cs, i, n);
        let ghost rest = cs@.skip(i as int);
        proof {
            assert(cs@.subrange(i as int, n as int) =~= rest);
            lemma_lead_ws_bounds(rest);
            let t = trim_start(rest);
            assert(t =~= cs@.subrange(a as int, n as int));
            lemma_word_len_bounds(t);
        }
        if a == n {
            proof {
                assert(trim_start(rest).len() == 0);
                assert(words(rest) =~= Seq::<Seq<char>>::empty());
                assert(char_views(out@) + words(rest) =~= char_views(out@));
                assert(cs@.skip(n as int) =~= Seq::<char>::empty());
                assert(words(cs@.skip(n as int)) =~= Seq::<Seq<char>>::empty());
                assert(char_views(out@) + words(cs@.skip(n as int)) =~= char_views(out@));
            }
            i = n;
        } else {
            let w = sub_chars(cs, a, b);
            proof {
                let t = trim_start(rest);
                assert(!is_ws(t[0]));
                assert(t.take(word_len(t)) =~= w@);
                assert(t.skip(word_len(t)) =~= cs@.skip(b as int));
                assert(words(rest) == seq![w@] + words(cs@.skip(b as int)));
                assert(char_views(out@.push(w)) =~= char_views(out@).push(w@));
                assert(char_views(out@).push(w@) + words(cs@.skip(b as int))
                    =~= char_views(out@) + (seq![w@] + words(cs@.skip(b as int))));
            }
            out.push(w);
            i = b;
        }
    }
    proof {
        assert(cs@.skip(n as int) =~= Seq::<char>::empty());
        assert(char_views(out@) + words(cs@.skip(n as int)) =~= char_views(out@));
    }
    out
}

/// In a sequence without duplicates, `index_of` finds the one position.
pub proof fn lemma_index_of_unique<A>(s: Seq<A>, i: int)
    requires
        s.no_duplicates(),
        0 <= i < s.len(),
    ensures
        s.contains(s[i]),
        s.index_of(s[i]) == i,
{
    assert(s.contains(s[i]));
    let u = s.index_of(s[i]);
    assert(s[u] == s[i]);
}

/// A string-to-string map with unique keys, kept as an insertion-ordered
/// vector of entries.
pub struct StrMap {
    entries: Vec<(String, String)>,
}

impl StrMap {
    /// The keys of the entries, in order.
    pub closed spec fn keys(&self) -> Seq<Seq<char>> {
        self.entries@.map_values(|e: (String, String)| e.0@)
    }

    #[verifier::type_invariant]
    closed spec fn unique_keys(&self) -> bool {
        self.keys().no_duplicates()
    }

    /// The number of entries.
    pub closed spec fn size(&self) -> nat {
        self.entries@.len()
    }

    /// An empty map.
    pub fn new() -> (r: Self)
        ensures
            r@ == Map::<Seq<char>, Seq<char>>::empty(),
            r.size() == 0,
    {
        let r = StrMap { entries: Vec::new() };
        proof {
            assert(r@ =~= Map::<Seq<char>, Seq<char>>::empty());
        }
        r
    }

    /// A copy of the map.
    pub fn duplicate(&self) -> (r: Self)
        ensures
            r@ == self@,
            r.size() == self.size(),
    {
        proof {
            use_type_invariant(self);
        }
        let mut entries: Vec<(String, String)> = Vec::new();
        let mut i: usize = 0;
        while i < self.entries.len()
            invariant
                i <= self.entries@.len(),
                entries@.len() == i,
                forall|j: int| 0 <= j < i ==> #[trigger] entries@[j].0@ == self.entries@[j].0@
                    && entries@[j].1@ == self.entries@[j].1@,
                self.keys().no_duplicates(),
            decreases self.entries@.len() - i,
        {
            entries.push((self.entries[i].0.clone(), self.entries[i].1.clone()));
            i = i + 1;
        }
        proof {
            assert(entries@.map_values(|e: (String, String)| e.0@) =~= self.keys());
        }
        let r = StrMap { entries };
        proof {
            assert(r.keys() =~= self.keys());
            assert forall|k: Seq<char>| r.keys().contains(k) implies r@[k] == self@[k] by {
                let t = r.keys().index_of(k);
                assert(r.keys()[t] == k);
            }
            assert(r@ =~= self@);
        }
        r
    }

    /// The number of keys.
    pub fn len(&self) -> (r: usize)
        ensures
            r == self.size(),
            r == self@.dom().len(),
    {
        proof {
            use_type_invariant(self);
            self.keys().unique_seq_to_set();
            assert(self@.dom() =~= self.keys().to_set());
        }
        self.entries.len()
    }

    /// The value bound to `key`.
    pub fn get(&self, key: &str) -> (r: Option<&String>)
        ensures
            r is Some <==> self@.contains_key(key@),
            r matches Some(v) ==> v@ == self@[key@],
    {
        proof {
            use_type_invariant(self);
        }
        let mut i: usize = 0;
        while i < self.entries.len()
            invariant
                i <= self.entries@.len(),
                self.keys().no_duplicates(),
                forall|j: int| 0 <= j < i ==> self.keys()[j] != key@,
            decreases self.entries@.len() - i,
        {
            if str_eq(self.entries[i].0.as_str(), key) {
                proof {
                    assert(self.keys()[i as int] == key@);
                    assert(self.keys().contains(key@));
                    let k = self.keys().index_of(key@);
                    assert(self.keys()[k] == key@);
                    assert(k == i);
                }
                return Some(&self.entries[i].1);
            }
            i = i + 1;
        }
        proof {
            assert(!self.keys().contains(key@));
        }
        None
    }

    /// Binds `key` to `value`, replacing an earlier binding of `key`.
    pub fn insert(&mut self, key: String, value: String)
        ensures
            final(self)@ == old(self)@.insert(key@, value@),
    {
        proof {
            use_type_invariant(&*self);
        }
        let ghost old_keys = self.keys();
        let ghost start_entries = self.entries@;
        let mut i: usize = 0;
        while i < self.entries.len()
            invariant
                i <= self.entries@.len(),
                self.entries@ == start_entries,
                start_entries == old(self).entries@,
                self.keys() == old_keys,
                old_keys.no_duplicates(),
                forall|j: int| 0 <= j < i ==> old_keys[j] != key@,
            decreases self.entries@.len() - i,
        {
            if str_eq(self.entries[i].0.as_str(), key.as_str()) {
                let ghost old_entries = self.entries@;
                let mut entries: Vec<(String, String)> = Vec::new();
                std::mem::swap(&mut entries, &mut self.entries);
                entries.set(i, (key, value));
                proof {
                    let nk = entries@.map_values(|e: (String, String)| e.0@);
                    assert(nk =~= old_keys);
                    let m_new = Map::new(|k: Seq<char>| nk.contains(k), |k: Seq<char>| entries@[nk.index_of(k)].1@);
                    let m_old = Map::new(|k: Seq<char>| old_keys.contains(k), |k: Seq<char>| old_entries[old_keys.index_of(k)].1@);
                    lemma_index_of_unique(nk, i as int);
                    assert(nk[i as int] == key@);
                    assert forall|k: Seq<char>| #[trigger] m_new.contains_key(k) implies m_new[k] == m_old.insert(key@, value@)[k] by {
                        let t = nk.index_of(k);
                        assert(nk[t] == k);
                        lemma_index_of_unique(nk, t);
                        if k != key@ {
                            assert(t != i as int);
                            assert(entries@[t] == old_entries[t]);
                        }
                    }
                    assert forall|k: Seq<char>| m_old.insert(key@, value@).contains_key(k) implies #[trigger] m_new.contains_key(k) by {
                        if k == key@ {
                            assert(nk.contains(k));
                        }
                    }
                    assert(m_new =~= m_old.insert(key@, value@));
                }
                self.entries = entries;
                proof {
                    assert(self.keys() =~= old_keys);
                    assert(old(self)@ =~= Map::new(|k: Seq<char>| old_keys.contains(k), |k: Seq<char>| old_entries[old_keys.index_of(k)].1@));
                }
                return;
            }
            i = i + 1;
        }
        let ghost old_entries = self.entries@;
        let mut entries: Vec<(String, String)> = Vec::new();
        std::mem::swap(&mut entries, &mut self.entries);
        entries.push((key, value));
        proof {
            let nk = entries@.map_values(|e: (String, String)| e.0@);
            assert(nk =~= old_keys.push(key@));
            assert(!old_keys.contains(key@));
            assert forall|a: int, b: int| 0 <= a < b < nk.len() implies nk[a] != nk[b] by {
                if b == nk.len() - 1 {
                    assert(old_keys[a] != key@);
                }
            }
            assert forall|k: Seq<char>| old_keys.contains(k) implies nk.index_of(k)
                == old_keys.index_of(k) by {
                let t = old_keys.index_of(k);
                lemma_index_of_unique(old_keys, t);
                assert(nk[t] == k);
                lemma_index_of_unique(nk, t);
            }
            assert(nk.index_of(key@) == old_keys.len()) by {
                lemma_index_of_unique(nk, old_keys.len() as int);
            }
            let m_new0 = Map::new(|k: Seq<char>| nk.contains(k), |k: Seq<char>| entries@[nk.index_of(k)].1@);
            let m_old0 = Map::new(|k: Seq<char>| old_keys.contains(k), |k: Seq<char>| old_entries[old_keys.index_of(k)].1@);
            assert forall|k: Seq<char>| #[trigger] m_new0.contains_key(k) implies m_new0[k] == m_old0.insert(key@, value@)[k] by {
                if k != key@ {
                    let u = nk.index_of(k);
                    assert(nk[u] == k);
                    assert(u < old_keys.len());
                    assert(old_keys[u] == k);
                    assert(old_keys.contains(k));
                }
            }
            assert forall|k: Seq<char>| m_old0.insert(key@, value@).contains_key(k) implies #[trigger] m_new0.contains_key(k) by {
                if k == key@ {
                    assert(nk[old_keys.len() as int] == k);
                } else {
                    let t = old_keys.index_of(k);
                    assert(nk[t] == k);
                }
            }
            assert forall|k: Seq<char>| #[trigger] m_new0.contains_key(k) implies m_old0.insert(key@, value@).contains_key(k) by {
                if k != key@ {
                    let u = nk.index_of(k);
                    assert(nk[u] == k);
                    assert(old_keys[u] == k);
                }
            }
            let m_new = Map::new(|k: Seq<char>| nk.contains(k), |k: Seq<char>| entries@[nk.index_of(k)].1@);
            let m_old = Map::new(|k: Seq<char>| old_keys.contains(k), |k: Seq<char>| old_entries[old_keys.index_of(k)].1@);
            assert(m_new =~= m_old.insert(key@, value@));
        }
        self.entries = entries;
        proof {
            assert(old(self)@ =~= Map::new(|k: Seq<char>| old_keys.contains(k), |k: Seq<char>| old_entries[old_keys.index_of(k)].1@));
        }
    }
}

impl View for StrMap {
    type V = Map<Seq<char>, Seq<char>>;

    closed spec fn view(&self) -> Map<Seq<char>, Seq<char>> {
        Map::new(
            |k: Seq<char>| self.keys().contains(k),
            |k: Seq<char>| self.entries@[self.keys().index_of(k)].1@,
        )
    }
}

/// The characters of the byte range `s..e` of `b`, when it is one
/// (`str::get`).
pub open spec fn slice_chars(b: Seq<u8>, s: int, e: int) -> Option<Seq<char>> {
    if 0 <= s <= e <= b.len() && is_char_boundary(b, s) && is_char_boundary(b, e) {
        Some(decode_utf8(b.subrange(s, e)))
    } else {
        None
    }
}

/// `str::get(start..end)`: the subslice when the range lies within `text`
/// on character boundaries, else `None` (as the documentation says:
/// `None` exactly where indexing would panic).
#[verifier::external_body]
pub fn str_get(text: &str, start: usize, end: usize) -> (r: Option<&str>)
    ensures
        r is Some <==> (start <= end <= text.spec_bytes().len() && is_char_boundary(text.spec_bytes(), start as int)
            && is_char_boundary(text.spec_bytes(), end as int)),
        r matches Some(sub) ==> sub.spec_bytes() == text.spec_bytes().subrange(start as int, end as int),
{
    text.get(start..end)
}

} // verus!
