//! Request-level decisions of the language server that do not depend on
//! the editor protocol: symbol-name validation, the word under the caret,
//! and merging reference sites from several sources.

use std::ops::Range;
use vstd::prelude::*;
use crate::text::{chars_eq, chars_of, is_alpha, is_digit};
use vstd::string::StringSliceAdditionalSpecFns;

verus! {

broadcast use vstd::slice::group_slice_axioms;

/// `name` is a YANG identifier: an ASCII letter or `_`, then ASCII letters,
/// digits, `_`, `-` and `.`.
pub open spec fn valid_identifier(name: Seq<char>) -> bool {
    &&& name.len() > 0
    &&& (is_alpha(name[0]) || name[0] == '_')
    &&& forall|i: int| 1 <= i < name.len() ==> (is_alpha(#[trigger] name[i]) || is_digit(name[i]) || name[i] == '_'
        || name[i] == '-' || name[i] == '.')
}

/// Whether `name` is a YANG identifier ([`valid_identifier`]).
pub fn is_valid_identifier(name: &str) -> (r: bool)
    ensures
        r == valid_identifier(name@),
{
    let cs = chars_of(name);
    if cs.len() == 0 {
        return false;
    }
    let c0 = cs[0];
    if !(('a' <= c0 && c0 <= 'z') || ('A' <= c0 && c0 <= 'Z') || c0 == '_') {
        return false;
    }
    let mut k: usize = 1;
    while k < cs.len()
        invariant
            1 <= k <= cs@.len(),
            cs@ == name@,
            forall|i: int| 1 <= i < k ==> (is_alpha(#[trigger] cs@[i]) || is_digit(cs@[i]) || cs@[i] == '_' || cs@[i] == '-'
                || cs@[i] == '.'),
        decreases cs@.len() - k,
    {
        let c = cs[k];
        if !(('a' <= c && c <= 'z') || ('A' <= c && c <= 'Z') || ('0' <= c && c <= '9') || c == '_' || c == '-' || c
            == '.') {
            proof {
                assert(!(is_alpha(cs@[k as int]) || is_digit(cs@[k as int]) || cs@[k as int] == '_' || cs@[k as int] == '-'
                    || cs@[k as int] == '.'));
            }
            return false;
        }
        k = k + 1;
    }
    true
}

/// A byte of an identifier token (ASCII letters and digits, `_`, `-`, `.`).
pub open spec fn word_byte(b: u8) -> bool {
    (48 <= b <= 57) || (65 <= b <= 90) || (97 <= b <= 122) || b == 95 || b == 45 || b == 46
}

/// Whether `b` is a byte of an identifier token ([`word_byte`]).
fn is_word_byte(b: u8) -> (r: bool)
    ensures
        r == word_byte(b),
{
    (48 <= b && b <= 57) || (65 <= b && b <= 90) || (97 <= b && b <= 122) || b == 95 || b == 45 || b == 46
}

/// The byte range of the identifier token containing `byte` in `text`:
/// the maximal run of token bytes around it (empty at or past the end).
pub fn range_for_word(text: &str, byte: usize) -> (r: Range<usize>)
    ensures
        byte >= text.spec_bytes().len() ==> r.start == byte && r.end == byte,
        byte < text.spec_bytes().len() ==> {
            let b = text.spec_bytes();
            &&& r.start <= byte <= r.end <= b.len()
            &&& forall|i: int| r.start <= i < byte ==> word_byte(#[trigger] b[i])
            &&& forall|i: int| byte <= i < r.end ==> word_byte(#[trigger] b[i])
            &&& (r.start > 0 ==> !word_byte(b[r.start - 1]))
            &&& (r.end < b.len() ==> !word_byte(b[r.end as int]))
        },
{
    let bs = text.as_bytes();
    let len = bs.len();
    if byte >= len {
        return Range { start: byte, end: byte };
    }
    let mut start = byte;
    let mut end = byte;
    while start > 0 && is_word_byte(bs[start - 1])
        invariant
            start <= byte < len,
            len == bs@.len(),
            forall|i: int| start <= i < byte ==> word_byte(#[trigger] bs@[i]),
        decreases start,
    {
        start = start - 1;
    }
    while end < len && is_word_byte(bs[end])
        invariant
            byte <= end <= len,
            len == bs@.len(),
            forall|i: int| byte <= i < end ==> word_byte(#[trigger] bs@[i]),
        decreases len - end,
    {
        end = end + 1;
    }
    Range { start, end }
}

/// The view of reference sites.
pub open spec fn site_views(hs: Seq<(String, Range<usize>)>) -> Seq<(Seq<char>, int, int)> {
    hs.map_values(|h: (String, Range<usize>)| (h.0@, h.1.start as int, h.1.end as int))
}

/// The sites after adding `extra[..k]` to `hs`: a site is skipped when its
/// document is open (its live text is searched separately) or it is
/// already listed.
pub open spec fn merged(hs: Seq<(Seq<char>, int, int)>, extra: Seq<(Seq<char>, int, int)>, open: Seq<Seq<char>>, k: nat) -> Seq<(Seq<char>, int, int)>
    decreases k,
{
    if k == 0 || k > extra.len() {
        hs
    } else {
        let prev = merged(hs, extra, open, (k - 1) as nat);
        let h = extra[k - 1];
        if open.contains(h.0) || prev.contains(h) {
            prev
        } else {
            prev.push(h)
        }
    }
}

/// Whether `v` holds the text `s`.
fn holds_text(v: &Vec<String>, s: &String) -> (r: bool)
    ensures
        r == crate::text::views(v@).contains(s@),
{
    let sc = chars_of(s.as_str());
    let mut k: usize = 0;
    while k < v.len()
        invariant
            k <= v@.len(),
            sc@ == s@,
            forall|j: int| 0 <= j < k ==> v@[j]@ != s@,
        decreases v@.len() - k,
    {
        if chars_eq(chars_of(v[k].as_str()).as_slice(), sc.as_slice()) {
            proof {
                assert(crate::text::views(v@)[k as int] == s@);
            }
            return true;
        }
        k = k + 1;
    }
    proof {
        if crate::text::views(v@).contains(s@) {
            let j = choose|j: int| 0 <= j < crate::text::views(v@).len() && crate::text::views(v@)[j] == s@;
            assert(v@[j]@ == s@);
        }
    }
    false
}

/// Whether `hs` lists the site `(u, range)`.
fn holds_site(hs: &Vec<(String, Range<usize>)>, u: &String, range: &Range<usize>) -> (r: bool)
    ensures
        r == site_views(hs@).contains((u@, range.start as int, range.end as int)),
{
    let uc = chars_of(u.as_str());
    let mut k: usize = 0;
    while k < hs.len()
        invariant
            k <= hs@.len(),
            uc@ == u@,
            forall|j: int| 0 <= j < k ==> site_views(hs@)[j] != (u@, range.start as int, range.end as int),
        decreases hs@.len() - k,
    {
        if hs[k].1.start == range.start && hs[k].1.end == range.end && chars_eq(chars_of(hs[k].0.as_str()).as_slice(), uc.as_slice()) {
            proof {
                assert(site_views(hs@)[k as int] == (u@, range.start as int, range.end as int));
            }
            return true;
        }
        k = k + 1;
    }
    false
}

/// Add the sites `extra` to `hits` ([`merged`]); returns how many were
/// added.
pub fn merge_hits(hits: &mut Vec<(String, Range<usize>)>, extra: &Vec<(String, Range<usize>)>, open: &Vec<String>) -> (added: usize)
    ensures
        site_views(final(hits)@) == merged(site_views(old(hits)@), site_views(extra@), crate::text::views(open@), extra@.len()),
        final(hits)@.len() == old(hits)@.len() + added,
{
    let ghost h0 = site_views(hits@);
    let ghost ex = site_views(extra@);
    let ghost op = crate::text::views(open@);
    let mut added: usize = 0;
    let mut k: usize = 0;
    while k < extra.len()
        invariant
            k <= extra@.len(),
            ex == site_views(extra@),
            op == crate::text::views(open@),
            site_views(hits@) == merged(h0, ex, op, k as nat),
            hits@.len() == old(hits)@.len() + added,
            added <= k,
        decreases extra@.len() - k,
    {
        let (u, range) = (&extra[k].0, &extra[k].1);
        proof {
            assert(ex[k as int] == (u@, range.start as int, range.end as int));
        }
        if !holds_text(open, u) && !holds_site(hits, u, range) {
            let h = (u.clone(), Range { start: range.start, end: range.end });
            proof {
                assert(site_views(hits@.push(h)) =~= site_views(hits@).push((u@, range.start as int, range.end as int)));
            }
            hits.push(h);
            added = added + 1;
        }
        k = k + 1;
    }
    added
}

/// The texts of `lists`, in order, each once.
pub open spec fn unique_in_order(lists: Seq<Seq<char>>, k: nat) -> Seq<Seq<char>>
    decreases k,
{
    if k == 0 || k > lists.len() {
        Seq::empty()
    } else {
        let prev = unique_in_order(lists, (k - 1) as nat);
        if prev.contains(lists[k - 1]) {
            prev
        } else {
            prev.push(lists[k - 1])
        }
    }
}

/// The given document URLs, in order, each once.
pub fn unique_urls(urls: &Vec<String>) -> (r: Vec<String>)
    ensures
        crate::text::views(r@) == unique_in_order(crate::text::views(urls@), urls@.len()),
{
    let mut out: Vec<String> = Vec::new();
    let mut k: usize = 0;
    proof {
        assert(crate::text::views(out@) =~= Seq::<Seq<char>>::empty());
    }
    while k < urls.len()
        invariant
            k <= urls@.len(),
            crate::text::views(out@) == unique_in_order(crate::text::views(urls@), k as nat),
        decreases urls@.len() - k,
    {
        proof {
            assert(crate::text::views(urls@)[k as int] == urls@[k as int]@);
        }
        if !holds_text(&out, &urls[k]) {
            let u = urls[k].clone();
            proof {
                assert(crate::text::views(out@.push(u)) =~= crate::text::views(out@).push(u@));
            }
            out.push(u);
        }
        k = k + 1;
    }
    out
}

} // verus!
