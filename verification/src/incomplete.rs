//! Tolerant parsing of in-progress instance documents.
//!
//! Completion is asked for while the user types, when the document is not
//! yet well formed: an XML document that ends in a lone `<` or leaves
//! elements open, a JSON document that ends in a lone `"` in a fresh member
//! slot or leaves containers open. The strict parser is tried first, then a
//! short, fixed list of repaired texts, in order.

use vstd::prelude::*;
use vstd::utf8::encode_utf8;
use crate::text::{
    char_is_ws, chars_of, find_char_from, find_first, first_occ, lemma_first_occ, lemma_first_occ_some, lemma_lead_ws_bounds, lemma_word_len_bounds, has_char, is_ws, last_of,
    lead_ws, lemma_lead_ws_is, first_word, word_bounds, occurs_at, push_all, rfind_char, str_eq, string_of, sub_chars,
    sub_string, views, char_views, trim_end, trim_end_len, trim_start,
};
use crate::json::{json_parses, json_root_obj, json_tree_of, law_member_tree_is_determined, obj_ok, same_member_tree, JsonDoc};
use crate::syntax::json_syntax;
use crate::xml::{elem_ok, law_element_tree_is_determined, same_tree, xml_parses, xml_root_elem, xml_tree_of, XmlDoc};
use vstd::string::StringSliceAdditionalSpecFns;
use crate::syntax::xml_syntax;

verus! {

broadcast use vstd::slice::group_slice_axioms;

/// `s` parses as an XML document with a readable root element.
pub open spec fn xml_ok(s: Seq<char>) -> bool {
    &&& xml_syntax(s) matches Some(t)
    &&& xml_root_elem(t) matches Some(e)
    &&& elem_ok(t, encode_utf8(s), e)
}

/// `doc` is the element tree that `s` parses to.
pub open spec fn xml_doc_of(s: Seq<char>, doc: XmlDoc) -> bool {
    let t = xml_syntax(s).unwrap();
    xml_tree_of(t, encode_utf8(s), xml_root_elem(t).unwrap(), doc.nodes@)
}

/// The position just after the first `close` at or after `from`.
pub open spec fn after_occ(s: Seq<char>, close: Seq<char>, from: int) -> Option<int> {
    match first_occ(s, close, from) {
        Some(p) => Some(p + close.len()),
        None => None,
    }
}

/// A construct opening with `open` at `i` and ending with the first
/// `close` after it: `Some(Some(end))` with the position after it,
/// `Some(None)` when it is not terminated, `None` when `open` is not at `i`.
pub open spec fn construct_end(s: Seq<char>, i: int, open: Seq<char>, close: Seq<char>) -> Option<Option<int>> {
    if occurs_at(s, open, i) {
        Some(after_occ(s, close, i + open.len()))
    } else {
        None
    }
}

/// A comment, CDATA section, processing instruction or declaration that
/// opens at `i`: where it ends, as in [`construct_end`].
pub open spec fn special_end(s: Seq<char>, i: int) -> Option<Option<int>> {
    if occurs_at(s, seq!['<', '!', '-', '-'], i) {
        after_occ_opt(s, seq!['-', '-', '>'], i + 4)
    } else if occurs_at(s, seq!['<', '!', '[', 'C', 'D', 'A', 'T', 'A', '['], i) {
        after_occ_opt(s, seq![']', ']', '>'], i + 9)
    } else if occurs_at(s, seq!['<', '?'], i) {
        after_occ_opt(s, seq!['?', '>'], i + 2)
    } else if occurs_at(s, seq!['<', '!'], i) {
        after_occ_opt(s, seq!['>'], i + 2)
    } else {
        None
    }
}

/// [`after_occ`], wrapped for [`special_end`].
pub open spec fn after_occ_opt(s: Seq<char>, close: Seq<char>, from: int) -> Option<Option<int>> {
    Some(after_occ(s, close, from))
}

/// The open element names after a tag whose text between `<` and `>` is
/// `inner`: an end tag closes the innermost element, a self-closing tag
/// changes nothing, a start tag opens its name.
pub open spec fn tag_effect(st: Seq<Seq<char>>, inner: Seq<char>) -> Seq<Seq<char>> {
    if inner.len() > 0 && inner[0] == '/' {
        if st.len() > 0 {
            st.drop_last()
        } else {
            st
        }
    } else if inner.len() > 0 && inner.last() == '/' {
        st
    } else if first_word(inner).len() > 0 {
        st.push(first_word(inner))
    } else {
        st
    }
}

/// The names of the elements left open when the tags of `s` are read from
/// position `i` with `st` open; `None` when a comment, CDATA section,
/// declaration or tag is not terminated.
pub open spec fn open_names(s: Seq<char>, i: int, st: Seq<Seq<char>>) -> Option<Seq<Seq<char>>>
    decreases s.len() - i,
{
    if i < 0 || i >= s.len() {
        Some(st)
    } else if s[i] != '<' {
        open_names(s, i + 1, st)
    } else {
        match special_end(s, i) {
            Some(Some(n)) => {
                proof {
                    lemma_special_end_advances(s, i);
                }
                open_names(s, n, st)
            },
            Some(None) => None,
            None => match first_occ(s, seq!['>'], i) {
                Some(e) => {
                    proof {
                        lemma_first_occ_some(s, seq!['>'], i);
                    }
                    open_names(s, e + 1, tag_effect(st, s.subrange(i + 1, e)))
                },
                None => None,
            },
        }
    }
}

/// A construct that [`special_end`] finds ends after it starts.
pub proof fn lemma_special_end_advances(s: Seq<char>, i: int)
    requires
        special_end(s, i) matches Some(Some(n)),
    ensures
        special_end(s, i) matches Some(Some(n)) && n > i,
{
    if occurs_at(s, seq!['<', '!', '-', '-'], i) {
        lemma_first_occ_some(s, seq!['-', '-', '>'], i + 4);
    } else if occurs_at(s, seq!['<', '!', '[', 'C', 'D', 'A', 'T', 'A', '['], i) {
        lemma_first_occ_some(s, seq![']', ']', '>'], i + 9);
    } else if occurs_at(s, seq!['<', '?'], i) {
        lemma_first_occ_some(s, seq!['?', '>'], i + 2);
    } else {
        lemma_first_occ_some(s, seq!['>'], i + 2);
    }
}

/// The end tags that close the elements `st`, innermost first.
pub open spec fn closing_tags(st: Seq<Seq<char>>) -> Seq<char>
    decreases st.len(),
{
    if st.len() == 0 {
        Seq::empty()
    } else {
        seq!['<', '/'] + st.last() + seq!['>'] + closing_tags(st.drop_last())
    }
}

/// `s` with the end tags of every element it leaves open appended; `None`
/// when a comment, CDATA section, declaration or tag is not terminated.
pub open spec fn balanced_xml(s: Seq<char>) -> Option<Seq<char>> {
    match open_names(s, 0, Seq::empty()) {
        Some(st) => Some(s + closing_tags(st)),
        None => None,
    }
}

/// No open name holds a `>`.
pub open spec fn names_without_gt(st: Seq<Seq<char>>) -> bool {
    forall|k: int, j: int| 0 <= k < st.len() && 0 <= j < st[k].len() ==> #[trigger] st[k][j] != '>'
}

proof fn lemma_occurs_append(s: Seq<char>, t: Seq<char>, pat: Seq<char>, i: int)
    requires
        0 <= i,
    ensures
        occurs_at(s, pat, i) ==> occurs_at(s + t, pat, i),
        i + pat.len() <= s.len() ==> occurs_at(s + t, pat, i) == occurs_at(s, pat, i),
        occurs_at(s + t, pat, i) && !occurs_at(s, pat, i) ==> i + pat.len() > s.len()
            && forall|k: int| i <= k < s.len() ==> s[k] == #[trigger] pat[k - i],
{
    if i + pat.len() <= s.len() {
        assert((s + t).subrange(i, i + pat.len()) =~= s.subrange(i, i + pat.len()));
    } else if occurs_at(s + t, pat, i) {
        assert forall|k: int| i <= k < s.len() implies s[k] == #[trigger] pat[k - i] by {
            assert((s + t).subrange(i, i + pat.len())[k - i] == (s + t)[k]);
        }
    }
}

proof fn lemma_first_occ_append(s: Seq<char>, t: Seq<char>, pat: Seq<char>, from: int)
    requires
        first_occ(s, pat, from) is Some,
        0 <= from,
    ensures
        first_occ(s + t, pat, from) == first_occ(s, pat, from),
        first_occ(s, pat, from).unwrap() + pat.len() <= s.len(),
{
    lemma_first_occ_some(s, pat, from);
    let p = first_occ(s, pat, from).unwrap();
    lemma_occurs_append(s, t, pat, p);
    assert forall|j: int| from <= j < p implies !occurs_at(s + t, pat, j) by {
        lemma_occurs_append(s, t, pat, j);
    }
    lemma_first_occ(s + t, pat, from, p);
}

/// A construct or tag that is terminated within `s` reads the same in
/// `s + t`.
proof fn lemma_special_end_append(s: Seq<char>, t: Seq<char>, i: int)
    requires
        0 <= i < s.len(),
        s[i] == '<',
        special_end(s, i) is Some ==> special_end(s, i) matches Some(Some(n)),
        special_end(s, i) is None ==> first_occ(s, seq!['>'], i) is Some,
    ensures
        special_end(s + t, i) == special_end(s, i),
        special_end(s, i) matches Some(Some(n)) ==> n <= s.len(),
{
    let u = s + t;
    let p1 = seq!['<', '!', '-', '-'];
    let p2 = seq!['<', '!', '[', 'C', 'D', 'A', 'T', 'A', '['];
    let p3 = seq!['<', '?'];
    let p4 = seq!['<', '!'];
    lemma_occurs_append(s, t, p1, i);
    lemma_occurs_append(s, t, p2, i);
    lemma_occurs_append(s, t, p3, i);
    lemma_occurs_append(s, t, p4, i);
    if i + 1 < s.len() {
        assert(u[i + 1] == s[i + 1]);
    }
    if occurs_at(s, p1, i) {
        lemma_first_occ_append(s, t, seq!['-', '-', '>'], i + 4);
    } else if occurs_at(s, p2, i) {
        assert(!occurs_at(u, p1, i)) by {
            if occurs_at(u, p1, i) {
                assert(s[i + 2] == p1[2]);
                assert(s.subrange(i, i + 9)[2] == p2[2]);
            }
        }
        lemma_first_occ_append(s, t, seq![']', ']', '>'], i + 9);
    } else if occurs_at(s, p3, i) {
        assert(s.subrange(i, i + 2)[1] == '?');
        assert(!occurs_at(u, p1, i)) by {
            if occurs_at(u, p1, i) {
                assert(u.subrange(i, i + 4)[1] == '!');
            }
        }
        assert(!occurs_at(u, p2, i)) by {
            if occurs_at(u, p2, i) {
                assert(u.subrange(i, i + 9)[1] == '!');
            }
        }
        lemma_first_occ_append(s, t, seq!['?', '>'], i + 2);
    } else if occurs_at(s, p4, i) {
        lemma_first_occ_some(s, seq!['>'], i + 2);
        let e = first_occ(s, seq!['>'], i + 2).unwrap();
        assert(s.subrange(e, e + 1)[0] == '>');
        assert(!occurs_at(u, p1, i)) by {
            if occurs_at(u, p1, i) {
                assert(s[e] == p1[e - i]);
            }
        }
        assert(!occurs_at(u, p2, i)) by {
            if occurs_at(u, p2, i) {
                assert(s[e] == p2[e - i]);
            }
        }
        assert(!occurs_at(u, p3, i)) by {
            assert(s.subrange(i, i + 2)[1] == '!');
            if occurs_at(u, p3, i) {
                assert(u.subrange(i, i + 2)[1] == '?');
            }
        }
        lemma_first_occ_append(s, t, seq!['>'], i + 2);
    } else {
        lemma_first_occ_some(s, seq!['>'], i);
        let e = first_occ(s, seq!['>'], i).unwrap();
        assert(s.subrange(e, e + 1)[0] == '>');
        assert(e != i);
        assert(i + 1 < s.len());
        assert(!occurs_at(u, p1, i)) by {
            if occurs_at(u, p1, i) {
                assert(u.subrange(i, i + 4)[1] == '!');
                assert(s.subrange(i, i + 2) =~= p4);
            }
        }
        assert(!occurs_at(u, p2, i)) by {
            if occurs_at(u, p2, i) {
                assert(u.subrange(i, i + 9)[1] == '!');
                assert(s.subrange(i, i + 2) =~= p4);
            }
        }
        assert(!occurs_at(u, p3, i)) by {
            if occurs_at(u, p3, i) {
                assert(u.subrange(i, i + 2)[1] == '?');
                assert(s.subrange(i, i + 2) =~= p3);
            }
        }
        assert(!occurs_at(u, p4, i)) by {
            if occurs_at(u, p4, i) {
                assert(u.subrange(i, i + 2)[1] == '!');
                assert(s.subrange(i, i + 2) =~= p4);
            }
        }
    }
}

/// Reading `s + t` goes through `s` as reading `s` alone does, when `s`
/// leaves nothing unterminated.
proof fn lemma_open_names_append(s: Seq<char>, t: Seq<char>, i: int, st: Seq<Seq<char>>)
    requires
        0 <= i <= s.len(),
        open_names(s, i, st) is Some,
    ensures
        open_names(s + t, i, st) == open_names(s + t, s.len() as int, open_names(s, i, st).unwrap()),
    decreases s.len() - i,
{
    let u = s + t;
    if i < s.len() {
        assert(u[i] == s[i]);
        if s[i] != '<' {
            lemma_open_names_append(s, t, i + 1, st);
        } else {
            match special_end(s, i) {
                Some(Some(n)) => {
                    lemma_special_end_append(s, t, i);
                    lemma_special_end_advances(s, i);
                    lemma_open_names_append(s, t, n, st);
                },
                Some(None) => {},
                None => {
                    lemma_special_end_append(s, t, i);
                    lemma_first_occ_append(s, t, seq!['>'], i);
                    let e = first_occ(s, seq!['>'], i).unwrap();
                    lemma_first_occ_some(s, seq!['>'], i);
                    assert(s.subrange(e, e + 1)[0] == '>');
                    assert(u.subrange(i + 1, e) =~= s.subrange(i + 1, e));
                    lemma_open_names_append(s, t, e + 1, tag_effect(st, s.subrange(i + 1, e)));
                },
            }
        }
    }
}

/// The names `s` leaves open hold no `>`: each is read from inside a tag.
proof fn lemma_open_names_no_gt(s: Seq<char>, i: int, st: Seq<Seq<char>>)
    requires
        names_without_gt(st),
        open_names(s, i, st) is Some,
    ensures
        names_without_gt(open_names(s, i, st).unwrap()),
    decreases s.len() - i,
{
    if 0 <= i < s.len() {
        if s[i] != '<' {
            lemma_open_names_no_gt(s, i + 1, st);
        } else {
            match special_end(s, i) {
                Some(Some(n)) => {
                    lemma_special_end_advances(s, i);
                    lemma_open_names_no_gt(s, n, st);
                },
                Some(None) => {},
                None => {
                    lemma_first_occ_some(s, seq!['>'], i);
                    let e = first_occ(s, seq!['>'], i).unwrap();
                    assert(s.subrange(e, e + 1)[0] == '>');
                    let inner = s.subrange(i + 1, e);
                    let nst = tag_effect(st, inner);
                    assert forall|j: int| 0 <= j < inner.len() implies #[trigger] inner[j] != '>' by {
                        assert(!occurs_at(s, seq!['>'], i + 1 + j));
                        if inner[j] == '>' {
                            assert(s.subrange(i + 1 + j, i + 2 + j) =~= seq!['>']);
                        }
                    }
                    assert(names_without_gt(nst)) by {
                        let w = first_word(inner);
                        let u = trim_start(inner);
                        lemma_lead_ws_bounds(inner);
                        lemma_word_len_bounds(u);
                        assert forall|j: int| 0 <= j < w.len() implies #[trigger] w[j] != '>' by {
                            assert(w[j] == u[j]);
                            assert(u[j] == inner[lead_ws(inner) + j]);
                        }
                        assert forall|k: int, j: int| 0 <= k < nst.len() && 0 <= j < nst[k].len()
                            implies #[trigger] nst[k][j] != '>' by {
                            if k < st.len() && nst[k] == st[k] {
                            } else {
                                assert(nst[k] == w);
                            }
                        }
                    }
                    lemma_open_names_no_gt(s, e + 1, nst);
                },
            }
        }
    }
}

/// Reading the end tags of `st`, innermost first, with `st` open closes
/// every element.
proof fn lemma_closing_tags_close(w: Seq<char>, p: int, st: Seq<Seq<char>>)
    requires
        0 <= p <= w.len(),
        w.subrange(p, w.len() as int) == closing_tags(st),
        names_without_gt(st),
    ensures
        open_names(w, p, st) == Some(Seq::<Seq<char>>::empty()),
    decreases st.len(),
{
    if st.len() == 0 {
        assert(w.subrange(p, w.len() as int).len() == 0);
        assert(st =~= Seq::<Seq<char>>::empty());
    } else {
        let name = st.last();
        let rest = closing_tags(st.drop_last());
        let ct = closing_tags(st);
        assert(ct == seq!['<', '/'] + name + seq!['>'] + rest);
        let e = p + 2 + name.len();
        assert forall|k: int| 0 <= k < ct.len() implies w[p + k] == #[trigger] ct[k] by {
            assert(w.subrange(p, w.len() as int)[k] == w[p + k]);
        }
        assert(w[p] == ct[0]);
        assert(w[p + 1] == ct[1]);
        assert(w[p] == '<');
        assert(w[p + 1] == '/');
        assert(special_end(w, p) is None) by {
            if occurs_at(w, seq!['<', '!', '-', '-'], p) {
                assert(w.subrange(p, p + 4)[1] == '!');
            }
            if occurs_at(w, seq!['<', '!', '[', 'C', 'D', 'A', 'T', 'A', '['], p) {
                assert(w.subrange(p, p + 9)[1] == '!');
            }
            if occurs_at(w, seq!['<', '?'], p) {
                assert(w.subrange(p, p + 2)[1] == '?');
            }
            if occurs_at(w, seq!['<', '!'], p) {
                assert(w.subrange(p, p + 2)[1] == '!');
            }
        }
        assert(w[e] == ct[2 + name.len() as int]);
        assert(occurs_at(w, seq!['>'], e)) by {
            assert(w.subrange(e, e + 1) =~= seq!['>']);
        }
        assert forall|j: int| p <= j < e implies !occurs_at(w, seq!['>'], j) by {
            if occurs_at(w, seq!['>'], j) {
                assert(w.subrange(j, j + 1)[0] == '>');
                assert(w[j] == ct[j - p]);
                if j >= p + 2 {
                    assert(ct[j - p] == name[j - p - 2]);
                    assert(st[st.len() - 1][j - p - 2] != '>');
                }
            }
        }
        lemma_first_occ(w, seq!['>'], p, e);
        let inner = w.subrange(p + 1, e);
        assert(inner[0] == '/');
        assert(tag_effect(st, inner) == st.drop_last());
        assert(w.subrange(e + 1, w.len() as int) =~= rest) by {
            assert forall|k: int| 0 <= k < rest.len() implies w[e + 1 + k] == #[trigger] rest[k] by {
                assert(ct[3 + name.len() as int + k] == rest[k]);
            }
        }
        assert(names_without_gt(st.drop_last())) by {
            assert forall|k: int, j: int| 0 <= k < st.drop_last().len() && 0 <= j < st.drop_last()[k].len()
                implies #[trigger] st.drop_last()[k][j] != '>' by {
                assert(st.drop_last()[k] == st[k]);
            }
        }
        lemma_closing_tags_close(w, e + 1, st.drop_last());
    }
}

/// Balancing an XML text appends only the end tags of the elements it
/// leaves open, innermost first, and a balanced text is its own balancing:
/// a second pass changes nothing.
pub proof fn law_balance_xml_appends_end_tags_and_is_idempotent(s: Seq<char>)
    ensures
        balanced_xml(s) matches Some(out) ==> {
            &&& out == s + closing_tags(open_names(s, 0, Seq::empty()).unwrap())
            &&& balanced_xml(out) == Some(out)
        },
{
    if let Some(st) = open_names(s, 0, Seq::empty()) {
        let out = s + closing_tags(st);
        lemma_open_names_no_gt(s, 0, Seq::empty());
        lemma_open_names_append(s, closing_tags(st), 0, Seq::empty());
        assert(out.subrange(s.len() as int, out.len() as int) =~= closing_tags(st));
        lemma_closing_tags_close(out, s.len() as int, st);
        assert(closing_tags(Seq::<Seq<char>>::empty()) =~= Seq::<char>::empty());
        assert(out + Seq::<char>::empty() =~= out);
    }
}

/// `s` without a trailing `<...` that has no `>` after it.
pub open spec fn xml_stripped(s: Seq<char>) -> Seq<char> {
    match last_of(s, '<') {
        Some(i) => if !has_char(s.subrange(i, s.len() as int), '>') {
            s.take(i)
        } else {
            s
        },
        None => s,
    }
}

/// The repaired texts tried for `s`, in order: the stripped text with its
/// open elements closed (when that changes it), then the stripped text
/// itself (when stripping changed `s`).
pub open spec fn xml_cands(s: Seq<char>) -> Seq<Seq<char>> {
    let st = xml_stripped(s);
    let a = if balanced_xml(st) is Some && balanced_xml(st).unwrap() != st {
        seq![balanced_xml(st).unwrap()]
    } else {
        Seq::empty()
    };
    if st != s {
        a.push(st)
    } else {
        a
    }
}

/// The first of `cs` that parses as XML.
pub open spec fn first_xml_ok(cs: Seq<Seq<char>>) -> Option<Seq<char>>
    decreases cs.len(),
{
    if cs.len() == 0 {
        None
    } else if xml_ok(cs[0]) {
        Some(cs[0])
    } else {
        first_xml_ok(cs.drop_first())
    }
}

/// The text whose parse [`tolerant_xml`] returns: `s` itself when it
/// parses, else the first repaired text that does.
pub open spec fn xml_repair(s: Seq<char>) -> Option<Seq<char>> {
    first_xml_ok(seq![s] + xml_cands(s))
}


/// Where the construct opening with `open` at `i` ends ([`construct_end`]).
fn skip_construct(cs: &[char], i: usize, open: &[char], close: &[char]) -> (r: Option<Option<usize>>)
    requires
        i <= cs@.len(),
    ensures
        match r {
            Some(Some(n)) => construct_end(cs@, i as int, open@, close@) == Some(Some(n as int)),
            Some(None) => construct_end(cs@, i as int, open@, close@) == Some(None::<int>),
            None => construct_end(cs@, i as int, open@, close@) is None,
        },
{
    let _n = cs.len();
    if !crate::text::starts_with_at(cs, i, open) {
        return None;
    }
    let from = i + open.len();
    match find_first(cs, close, from) {
        Some(p) => {
            proof {
                lemma_first_occ_some(cs@, close@, from as int);
            }
            Some(Some(p + close.len()))
        },
        None => Some(None),
    }
}

/// [`special_end`] computed.
fn special_at(cs: &[char], i: usize) -> (r: Option<Option<usize>>)
    requires
        i <= cs@.len(),
    ensures
        match r {
            Some(Some(n)) => special_end(cs@, i as int) == Some(Some(n as int)),
            Some(None) => special_end(cs@, i as int) == Some(None::<int>),
            None => special_end(cs@, i as int) is None,
        },
{
    let comment: Vec<char> = vec!['<', '!', '-', '-'];
    let comment_end: Vec<char> = vec!['-', '-', '>'];
    let cdata: Vec<char> = vec!['<', '!', '[', 'C', 'D', 'A', 'T', 'A', '['];
    let cdata_end: Vec<char> = vec![']', ']', '>'];
    let pi: Vec<char> = vec!['<', '?'];
    let pi_end: Vec<char> = vec!['?', '>'];
    let decl: Vec<char> = vec!['<', '!'];
    let decl_end: Vec<char> = vec!['>'];
    proof {
        assert(comment@ =~= seq!['<', '!', '-', '-']);
        assert(comment_end@ =~= seq!['-', '-', '>']);
        assert(cdata@ =~= seq!['<', '!', '[', 'C', 'D', 'A', 'T', 'A', '[']);
        assert(cdata_end@ =~= seq![']', ']', '>']);
        assert(pi@ =~= seq!['<', '?']);
        assert(pi_end@ =~= seq!['?', '>']);
        assert(decl@ =~= seq!['<', '!']);
        assert(decl_end@ =~= seq!['>']);
    }
    let r = skip_construct(cs, i, comment.as_slice(), comment_end.as_slice());
    if r.is_some() {
        return r;
    }
    let r = skip_construct(cs, i, cdata.as_slice(), cdata_end.as_slice());
    if r.is_some() {
        return r;
    }
    let r = skip_construct(cs, i, pi.as_slice(), pi_end.as_slice());
    if r.is_some() {
        return r;
    }
    skip_construct(cs, i, decl.as_slice(), decl_end.as_slice())
}

/// Append the end tags of every element left open in `text`, innermost
/// first (comments, CDATA sections, processing instructions, declarations
/// and self-closing tags open nothing). `None` when a comment, CDATA
/// section, declaration or tag is not terminated.
pub fn balance_xml(text: &str) -> (r: Option<String>)
    ensures
        match r {
            Some(s) => balanced_xml(text@) == Some(s@),
            None => balanced_xml(text@) is None,
        },
{
    let cs = chars_of(text);
    let ghost s = cs@;
    let mut stack: Vec<Vec<char>> = Vec::new();
    let mut i: usize = 0;
    proof {
        assert(char_views(stack@) =~= Seq::<Seq<char>>::empty());
    }
    while i < cs.len()
        invariant
            s == cs@,
            s == text@,
            i <= cs@.len(),
            open_names(s, i as int, char_views(stack@)) == open_names(s, 0, Seq::empty()),
        decreases cs@.len() - i,
    {
        if cs[i] != '<' {
            i = i + 1;
        } else {
            match special_at(cs.as_slice(), i) {
                Some(Some(n)) => {
                    proof {
                        lemma_special_end_advances(s, i as int);
                    }
                    i = n;
                },
                Some(None) => {
                    proof {
                        assert(special_end(s, i as int) == Some(None::<int>));
                        assert(open_names(s, i as int, char_views(stack@)) is None);
                    }
                    return None;
                },
                None => {
                    let gt: Vec<char> = vec!['>'];
                    proof {
                        assert(gt@ =~= seq!['>']);
                    }
                    match find_first(cs.as_slice(), gt.as_slice(), i) {
                        None => {
                            proof {
                                assert(special_end(s, i as int) is None);
                                assert(open_names(s, i as int, char_views(stack@)) is None);
                            }
                            return None;
                        },
                        Some(e) => {
                            proof {
                                lemma_first_occ_some(s, seq!['>'], i as int);
                            }
                            let ghost st0 = char_views(stack@);
                            let ghost inner = s.subrange(i + 1, e as int);
                            if e > i + 1 && cs[i + 1] == '/' {
                                if stack.len() > 0 {
                                    let _ = stack.pop();
                                    proof {
                                        assert(char_views(stack@) =~= st0.drop_last());
                                    }
                                }
                            } else if e > i + 1 && cs[e - 1] == '/' {
                            } else {
                                let (a, b) = word_bounds(cs.as_slice(), i + 1, e);
                                if b > a {
                                    let w = sub_chars(cs.as_slice(), a, b);
                                    stack.push(w);
                                    proof {
                                        assert(char_views(stack@) =~= st0.push(first_word(inner)));
                                    }
                                }
                            }
                            proof {
                                assert(char_views(stack@) == tag_effect(st0, inner));
                            }
                            i = e + 1;
                        },
                    }
                },
            }
        }
    }
    let ghost st = char_views(stack@);
    assert(open_names(s, 0, Seq::empty()) == Some(st));
    let mut out: Vec<char> = Vec::new();
    push_all(&mut out, cs.as_slice());
    let mut k = stack.len();
    proof {
        assert(out@ =~= s);
        assert(st.take(k as int) =~= st);
    }
    while k > 0
        invariant
            k <= stack@.len(),
            st == char_views(stack@),
            out@ + closing_tags(st.take(k as int)) == s + closing_tags(st),
        decreases k,
    {
        let ghost before = out@;
        out.push('<');
        out.push('/');
        push_all(&mut out, stack[k - 1].as_slice());
        out.push('>');
        proof {
            let t = st.take(k as int);
            assert(t.last() == stack@[k - 1]@);
            assert(t.drop_last() =~= st.take(k - 1));
            assert(closing_tags(t) == seq!['<', '/'] + t.last() + seq!['>'] + closing_tags(st.take(k - 1)));
            assert(out@ =~= before + (seq!['<', '/'] + t.last() + seq!['>']));
            assert(out@ + closing_tags(st.take(k - 1)) =~= before + closing_tags(t));
        }
        k = k - 1;
    }
    proof {
        assert(st.take(0) =~= Seq::<Seq<char>>::empty());
        assert(out@ + closing_tags(st.take(0)) =~= out@);
    }
    Some(string_of(out.as_slice()))
}

/// The repaired texts tried for an in-progress XML document, in order
/// ([`xml_cands`]): a trailing `<...` with no `>` after it is dropped, then
/// the elements left open are closed.
pub fn xml_candidates(text: &str) -> (r: Vec<String>)
    ensures
        views(r@) == xml_cands(text@),
{
    let cs = chars_of(text);
    let n = cs.len();
    let cut = match rfind_char(cs.as_slice(), '<') {
        Some(i) => {
            if find_char_from(cs.as_slice(), '>', i).is_none() {
                proof {
                    let t = cs@.subrange(i as int, cs@.len() as int);
                    assert forall|j: int| 0 <= j < t.len() implies t[j] != '>' by {
                        assert(t[j] == cs@[i + j]);
                    }
                }
                i
            } else {
                proof {
                    let t = cs@.subrange(i as int, cs@.len() as int);
                    let j = choose|j: int| i <= j < cs@.len() && cs@[j] == '>';
                    assert(t[j - i] == '>');
                }
                n
            }
        },
        None => n,
    };
    let stripped = sub_string(cs.as_slice(), 0, cut);
    proof {
        assert(cs@.subrange(0, n as int) =~= cs@);
        assert(stripped@ == xml_stripped(text@));
    }
    let mut out: Vec<String> = Vec::new();
    match balance_xml(stripped.as_str()) {
        Some(balanced) => {
            if !str_eq(balanced.as_str(), stripped.as_str()) {
                out.push(balanced);
            }
        },
        None => {},
    }
    if cut < n {
        proof {
            assert(stripped@.len() < text@.len());
        }
        let copy = sub_string(cs.as_slice(), 0, cut);
        out.push(copy);
    }
    proof {
        assert(views(out@) =~= xml_cands(text@));
    }
    out
}

proof fn lemma_first_xml_ok_step(cs: Seq<Seq<char>>, k: int)
    requires
        0 <= k < cs.len(),
    ensures
        first_xml_ok(cs.skip(k)) == if xml_ok(cs[k]) {
            Some(cs[k])
        } else {
            first_xml_ok(cs.skip(k + 1))
        },
{
    assert(cs.skip(k)[0] == cs[k]);
    assert(cs.skip(k).drop_first() =~= cs.skip(k + 1));
}

/// Parse `text` as XML, tolerating a trailing lone `<` (or `<name` with no
/// `>`) and elements left open: `text` itself when it parses, else the
/// first repaired text ([`xml_candidates`]) that does.
pub fn tolerant_xml(text: &str) -> (r: Option<XmlDoc>)
    ensures
        r is Some <==> xml_repair(text@) is Some,
        r matches Some(doc) ==> xml_doc_of(xml_repair(text@).unwrap(), doc),
        xml_parses(text) ==> (r matches Some(doc) && xml_tree_of(
            xml_syntax(text@).unwrap(),
            text.spec_bytes(),
            xml_root_elem(xml_syntax(text@).unwrap()).unwrap(),
            doc.nodes@,
        )),
{
    let ghost all = seq![text@] + xml_cands(text@);
    proof {
        lemma_first_xml_ok_step(all, 0);
        assert(all.skip(0) =~= all);
        assert(all[0] == text@);
    }
    match crate::xml::parse(text) {
        Some(doc) => {
            return Some(doc);
        },
        None => {},
    }
    let cands = xml_candidates(text);
    let mut k: usize = 0;
    proof {
        assert(all.skip(1) =~= views(cands@));
        assert(views(cands@).skip(0) =~= views(cands@));
    }
    while k < cands.len()
        invariant
            k <= cands@.len(),
            views(cands@) == xml_cands(text@),
            all == seq![text@] + views(cands@),
            first_xml_ok(all) == first_xml_ok(views(cands@).skip(k as int)),
        decreases cands@.len() - k,
    {
        let ghost vs = views(cands@);
        proof {
            lemma_first_xml_ok_step(vs, k as int);
            assert(vs[k as int] == cands@[k as int]@);
        }
        match crate::xml::parse(cands[k].as_str()) {
            Some(doc) => {
                return Some(doc);
            },
            None => {},
        }
        k = k + 1;
    }
    proof {
        assert(views(cands@).skip(k as int).len() == 0);
    }
    None
}

/// `s` parses as a JSON document whose root object can be read.
pub open spec fn json_ok(s: Seq<char>) -> bool {
    &&& json_syntax(s) matches Some(t)
    &&& json_root_obj(t) matches Some(o)
    &&& obj_ok(t, encode_utf8(s), o)
}

/// `doc` is the member tree that `s` parses to.
pub open spec fn json_doc_of(s: Seq<char>, doc: JsonDoc) -> bool {
    let t = json_syntax(s).unwrap();
    json_tree_of(t, encode_utf8(s), json_root_obj(t).unwrap(), doc)
}

/// The closers of the containers left open and whether a string is left
/// open, when `s` is read from `i` with closers `st` pending, inside a
/// string when `in_str`, just after a backslash in it when `esc`.
pub open spec fn json_scan(s: Seq<char>, i: int, st: Seq<char>, in_str: bool, esc: bool) -> (Seq<char>, bool)
    decreases s.len() - i,
{
    if i < 0 || i >= s.len() {
        (st, in_str)
    } else if in_str {
        if esc {
            json_scan(s, i + 1, st, true, false)
        } else if s[i] == '\\' {
            json_scan(s, i + 1, st, true, true)
        } else if s[i] == '"' {
            json_scan(s, i + 1, st, false, false)
        } else {
            json_scan(s, i + 1, st, true, false)
        }
    } else if s[i] == '"' {
        json_scan(s, i + 1, st, true, false)
    } else if s[i] == '{' {
        json_scan(s, i + 1, st.push('}'), false, false)
    } else if s[i] == '[' {
        json_scan(s, i + 1, st.push(']'), false, false)
    } else if s[i] == '}' || s[i] == ']' {
        json_scan(s, i + 1, if st.len() > 0 { st.drop_last() } else { st }, false, false)
    } else {
        json_scan(s, i + 1, st, false, false)
    }
}

/// `s` with the closers of its open containers appended, innermost first;
/// `None` when a string is left open.
pub open spec fn balanced_json(s: Seq<char>) -> Option<Seq<char>> {
    let (st, in_str) = json_scan(s, 0, Seq::empty(), false, false);
    if in_str {
        None
    } else {
        Some(s + st.reverse())
    }
}

/// Every pending closer is a `}` or a `]`.
pub open spec fn all_closers(st: Seq<char>) -> bool {
    forall|k: int| 0 <= k < st.len() ==> st[k] == '}' || st[k] == ']'
}

proof fn lemma_scan_closers(s: Seq<char>, i: int, st: Seq<char>, in_str: bool, esc: bool)
    requires
        all_closers(st),
    ensures
        all_closers(json_scan(s, i, st, in_str, esc).0),
    decreases s.len() - i,
{
    if 0 <= i < s.len() {
        if in_str {
            if esc {
                lemma_scan_closers(s, i + 1, st, true, false);
            } else if s[i] == '\\' {
                lemma_scan_closers(s, i + 1, st, true, true);
            } else if s[i] == '"' {
                lemma_scan_closers(s, i + 1, st, false, false);
            } else {
                lemma_scan_closers(s, i + 1, st, true, false);
            }
        } else if s[i] == '"' {
            lemma_scan_closers(s, i + 1, st, true, false);
        } else if s[i] == '{' {
            assert(all_closers(st.push('}')));
            lemma_scan_closers(s, i + 1, st.push('}'), false, false);
        } else if s[i] == '[' {
            assert(all_closers(st.push(']')));
            lemma_scan_closers(s, i + 1, st.push(']'), false, false);
        } else if s[i] == '}' || s[i] == ']' {
            let nst = if st.len() > 0 { st.drop_last() } else { st };
            assert(all_closers(nst));
            lemma_scan_closers(s, i + 1, nst, false, false);
        } else {
            lemma_scan_closers(s, i + 1, st, false, false);
        }
    }
}

/// Reading `s + t` goes through `s` as reading `s` alone does, and, where
/// `s` leaves no string open, goes on into `t` from where `s` left off.
proof fn lemma_scan_append(s: Seq<char>, t: Seq<char>, i: int, st: Seq<char>, in_str: bool, esc: bool)
    requires
        0 <= i <= s.len(),
        !in_str ==> !esc,
        !json_scan(s, i, st, in_str, esc).1,
    ensures
        json_scan(s + t, i, st, in_str, esc) == json_scan(s + t, s.len() as int, json_scan(s, i, st, in_str, esc).0, false, false),
    decreases s.len() - i,
{
    let u = s + t;
    if i < s.len() {
        assert(u[i] == s[i]);
        if in_str {
            if esc {
                lemma_scan_append(s, t, i + 1, st, true, false);
            } else if s[i] == '\\' {
                lemma_scan_append(s, t, i + 1, st, true, true);
            } else if s[i] == '"' {
                lemma_scan_append(s, t, i + 1, st, false, false);
            } else {
                lemma_scan_append(s, t, i + 1, st, true, false);
            }
        } else if s[i] == '"' {
            lemma_scan_append(s, t, i + 1, st, true, false);
        } else if s[i] == '{' {
            lemma_scan_append(s, t, i + 1, st.push('}'), false, false);
        } else if s[i] == '[' {
            lemma_scan_append(s, t, i + 1, st.push(']'), false, false);
        } else if s[i] == '}' || s[i] == ']' {
            let nst = if st.len() > 0 { st.drop_last() } else { st };
            lemma_scan_append(s, t, i + 1, nst, false, false);
        } else {
            lemma_scan_append(s, t, i + 1, st, false, false);
        }
    }
}

/// Reading the closers of `st`, innermost first, with `st` pending closes
/// every container and opens no string.
proof fn lemma_scan_closes(s: Seq<char>, st: Seq<char>, j: int)
    requires
        all_closers(st),
        0 <= j <= st.len(),
    ensures
        json_scan(s + st.reverse(), s.len() + j, st.take(st.len() - j), false, false) == (Seq::<char>::empty(), false),
    decreases st.len() - j,
{
    let u = s + st.reverse();
    let p = st.take(st.len() - j);
    if j == st.len() {
        assert(p =~= Seq::<char>::empty());
    } else {
        assert(u[s.len() + j] == st[st.len() - 1 - j]);
        assert(p.drop_last() =~= st.take(st.len() - (j + 1)));
        lemma_scan_closes(s, st, j + 1);
    }
}

/// Balancing a JSON text fails exactly when reading it left to right (a
/// backslash escaping the next character inside a string) ends inside a
/// string; otherwise it appends only the `}` and `]` that close the
/// containers left open, innermost first, and a balanced text is its own
/// balancing: a second pass changes nothing.
pub proof fn law_balance_json_appends_closers_and_is_idempotent(s: Seq<char>)
    ensures
        balanced_json(s) is None <==> json_scan(s, 0, Seq::empty(), false, false).1,
        balanced_json(s) matches Some(out) ==> out == s + json_scan(s, 0, Seq::empty(), false, false).0.reverse(),
        balanced_json(s) matches Some(out) ==> {
            &&& out.len() >= s.len()
            &&& out.take(s.len() as int) == s
            &&& all_closers(out.skip(s.len() as int))
            &&& balanced_json(out) == Some(out)
        },
{
    let (st, in_str) = json_scan(s, 0, Seq::empty(), false, false);
    if !in_str {
        let out = s + st.reverse();
        lemma_scan_closers(s, 0, Seq::empty(), false, false);
        assert(out.take(s.len() as int) =~= s);
        assert(out.skip(s.len() as int) =~= st.reverse());
        lemma_scan_append(s, st.reverse(), 0, Seq::empty(), false, false);
        lemma_scan_closes(s, st, 0);
        assert(st.take(st.len() as int) =~= st);
        assert(Seq::<char>::empty().reverse() =~= Seq::<char>::empty());
        assert(out + Seq::<char>::empty() =~= out);
    }
}

/// `s` without a lone `"` that follows a `{` or `,` (whitespace between
/// them dropped too).
pub open spec fn lone_quote_dropped(s: Seq<char>) -> Seq<char> {
    if s.len() > 0 && s.last() == '"' {
        let w = trim_end(s.drop_last());
        if w.len() > 0 && (w.last() == '{' || w.last() == ',') {
            w
        } else {
            s
        }
    } else {
        s
    }
}

/// The number of trailing `,` of `s`.
pub open spec fn trail_commas(s: Seq<char>) -> int
    decreases s.len(),
{
    if s.len() > 0 && s.last() == ',' {
        1 + trail_commas(s.drop_last())
    } else {
        0
    }
}

/// `s` trimmed at the end, without a lone `"` in a fresh member slot and
/// without trailing commas.
pub open spec fn json_stripped(s: Seq<char>) -> Seq<char> {
    let s1 = lone_quote_dropped(trim_end(s));
    if s1.len() > 0 && s1.last() == ',' {
        trim_end(s1.take(s1.len() - trail_commas(s1)))
    } else {
        s1
    }
}

/// The repaired texts tried for `s`, in order: the stripped text with its
/// open containers closed (when that changes it), then the stripped text.
pub open spec fn json_cands(s: Seq<char>) -> Seq<Seq<char>> {
    let st = json_stripped(s);
    if balanced_json(st) is Some && balanced_json(st).unwrap() != st {
        seq![balanced_json(st).unwrap(), st]
    } else {
        seq![st]
    }
}

/// The first of `cs` that parses as JSON.
pub open spec fn first_json_ok(cs: Seq<Seq<char>>) -> Option<Seq<char>>
    decreases cs.len(),
{
    if cs.len() == 0 {
        None
    } else if json_ok(cs[0]) {
        Some(cs[0])
    } else {
        first_json_ok(cs.drop_first())
    }
}

/// The text whose parse [`tolerant_json`] returns: `s` itself when it
/// parses, else the first repaired text that does.
pub open spec fn json_repair(s: Seq<char>) -> Option<Seq<char>> {
    first_json_ok(seq![s] + json_cands(s))
}

/// Append the missing `}` and `]` for the containers left open in `text`,
/// innermost first. `None` when a string is left unterminated.
pub fn balance_json(text: &str) -> (r: Option<String>)
    ensures
        match r {
            Some(s) => balanced_json(text@) == Some(s@),
            None => balanced_json(text@) is None,
        },
{
    let cs = chars_of(text);
    let mut stack: Vec<char> = Vec::new();
    let mut in_string = false;
    let mut escaped = false;
    let mut i: usize = 0;
    while i < cs.len()
        invariant
            cs@ == text@,
            i <= cs@.len(),
            !in_string ==> !escaped,
            json_scan(cs@, i as int, stack@, in_string, escaped) == json_scan(cs@, 0, Seq::empty(), false, false),
        decreases cs@.len() - i,
    {
        let ch = cs[i];
        if in_string {
            if escaped {
                escaped = false;
            } else if ch == '\\' {
                escaped = true;
            } else if ch == '"' {
                in_string = false;
            }
        } else if ch == '"' {
            in_string = true;
        } else if ch == '{' {
            stack.push('}');
        } else if ch == '[' {
            stack.push(']');
        } else if ch == '}' || ch == ']' {
            if stack.len() > 0 {
                let _ = stack.pop();
            }
        }
        i = i + 1;
    }
    if in_string {
        return None;
    }
    let mut out: Vec<char> = Vec::new();
    push_all(&mut out, cs.as_slice());
    let ghost st = stack@;
    let mut k = stack.len();
    while k > 0
        invariant
            k <= st.len(),
            stack@ == st,
            out@ == cs@ + st.reverse().take(st.len() - k),
        decreases k,
    {
        out.push(stack[k - 1]);
        proof {
            assert(st.reverse().take(st.len() - (k - 1)) =~= st.reverse().take(st.len() - k).push(st[k - 1]));
        }
        k = k - 1;
    }
    proof {
        assert(st.reverse().take(st.len() as int) =~= st.reverse());
    }
    Some(string_of(out.as_slice()))
}

proof fn lemma_trail_commas_is(s: Seq<char>, k: int)
    requires
        0 <= k <= s.len(),
        forall|j: int| k <= j < s.len() ==> s[j] == ',',
        k > 0 ==> s[k - 1] != ',',
    ensures
        trail_commas(s) == s.len() - k,
    decreases s.len(),
{
    if k < s.len() {
        assert forall|j: int| k <= j < s.len() - 1 implies s.drop_last()[j] == ',' by {
            assert(s.drop_last()[j] == s[j]);
        }
        if k > 0 {
            assert(s.drop_last()[k - 1] == s[k - 1]);
        }
        lemma_trail_commas_is(s.drop_last(), k);
    }
}

/// The repaired texts tried for an in-progress JSON document, in order
/// ([`json_cands`]).
pub fn json_candidates(text: &str) -> (r: Vec<String>)
    ensures
        views(r@) == json_cands(text@),
{
    let cs = chars_of(text);
    let n = cs.len();
    let n0 = trim_end_len(cs.as_slice(), n);
    proof {
        assert(cs@.take(n as int) =~= cs@);
    }
    let mut n1 = n0;
    if n0 > 0 && cs[n0 - 1] == '"' {
        let w = trim_end_len(cs.as_slice(), n0 - 1);
        proof {
            assert(cs@.take(n0 as int).drop_last() =~= cs@.take(n0 - 1));
        }
        if w > 0 && (cs[w - 1] == '{' || cs[w - 1] == ',') {
            n1 = w;
        }
    }
    proof {
        assert(cs@.take(n1 as int) == lone_quote_dropped(trim_end(text@)));
    }
    let mut n2 = n1;
    if n1 > 0 && cs[n1 - 1] == ',' {
        let mut k = n1;
        while k > 0 && cs[k - 1] == ','
            invariant
                k <= n1 <= cs@.len(),
                forall|j: int| k <= j < n1 ==> cs@[j] == ',',
            decreases k,
        {
            k = k - 1;
        }
        proof {
            let s1 = cs@.take(n1 as int);
            lemma_trail_commas_is(s1, k as int);
            assert(s1.take(s1.len() - trail_commas(s1)) =~= cs@.take(k as int));
        }
        n2 = trim_end_len(cs.as_slice(), k);
    }
    let stripped = sub_string(cs.as_slice(), 0, n2);
    proof {
        assert(cs@.subrange(0, n2 as int) =~= cs@.take(n2 as int));
        assert(stripped@ == json_stripped(text@));
    }
    let mut out: Vec<String> = Vec::new();
    match balance_json(stripped.as_str()) {
        Some(balanced) => {
            if !str_eq(balanced.as_str(), stripped.as_str()) {
                out.push(balanced);
            }
        },
        None => {},
    }
    out.push(stripped);
    proof {
        assert(views(out@) =~= json_cands(text@));
    }
    out
}

proof fn lemma_first_json_ok_step(cs: Seq<Seq<char>>, k: int)
    requires
        0 <= k < cs.len(),
    ensures
        first_json_ok(cs.skip(k)) == if json_ok(cs[k]) {
            Some(cs[k])
        } else {
            first_json_ok(cs.skip(k + 1))
        },
{
    assert(cs.skip(k)[0] == cs[k]);
    assert(cs.skip(k).drop_first() =~= cs.skip(k + 1));
}

/// Parse `text` as JSON, tolerating a lone trailing `"` in a fresh member
/// slot, trailing commas and unbalanced braces and brackets: `text` itself
/// when it parses, else the first repaired text ([`json_candidates`]) that
/// does.
pub fn tolerant_json(text: &str) -> (r: Option<JsonDoc>)
    ensures
        r is Some <==> json_repair(text@) is Some,
        r matches Some(doc) ==> json_doc_of(json_repair(text@).unwrap(), doc),
        json_parses(text) ==> (r matches Some(doc) && json_tree_of(
            json_syntax(text@).unwrap(),
            text.spec_bytes(),
            json_root_obj(json_syntax(text@).unwrap()).unwrap(),
            doc,
        )),
{
    let ghost all = seq![text@] + json_cands(text@);
    proof {
        lemma_first_json_ok_step(all, 0);
        assert(all.skip(0) =~= all);
        assert(all[0] == text@);
    }
    match crate::json::parse(text) {
        Some(doc) => {
            return Some(doc);
        },
        None => {},
    }
    let cands = json_candidates(text);
    let mut k: usize = 0;
    proof {
        assert(all.skip(1) =~= views(cands@));
        assert(views(cands@).skip(0) =~= views(cands@));
    }
    while k < cands.len()
        invariant
            k <= cands@.len(),
            views(cands@) == json_cands(text@),
            all == seq![text@] + views(cands@),
            first_json_ok(all) == first_json_ok(views(cands@).skip(k as int)),
        decreases cands@.len() - k,
    {
        let ghost vs = views(cands@);
        proof {
            lemma_first_json_ok_step(vs, k as int);
            assert(vs[k as int] == cands@[k as int]@);
        }
        match crate::json::parse(cands[k].as_str()) {
            Some(doc) => {
                return Some(doc);
            },
            None => {},
        }
        k = k + 1;
    }
    proof {
        assert(views(cands@).skip(k as int).len() == 0);
    }
    None
}


proof fn lemma_first_xml_ok_is_ok(cs: Seq<Seq<char>>)
    ensures
        first_xml_ok(cs) matches Some(r) ==> xml_ok(r),
    decreases cs.len(),
{
    if cs.len() > 0 && !xml_ok(cs[0]) {
        lemma_first_xml_ok_is_ok(cs.drop_first());
    }
}

proof fn lemma_first_json_ok_is_ok(cs: Seq<Seq<char>>)
    ensures
        first_json_ok(cs) matches Some(r) ==> json_ok(r),
    decreases cs.len(),
{
    if cs.len() > 0 && !json_ok(cs[0]) {
        lemma_first_json_ok_is_ok(cs.drop_first());
    }
}

/// A complete XML document is read as written; any other is read as the
/// first repaired text that parses; and whatever the tolerant reader reads is
/// a document that parses.
pub proof fn law_tolerant_xml_keeps_complete_documents(s: Seq<char>)
    ensures
        xml_ok(s) ==> xml_repair(s) == Some(s),
        !xml_ok(s) ==> xml_repair(s) == first_xml_ok(xml_cands(s)),
        xml_repair(s) matches Some(r) ==> xml_ok(r),
{
    assert((seq![s] + xml_cands(s))[0] == s);
    assert((seq![s] + xml_cands(s)).drop_first() =~= xml_cands(s));
    lemma_first_xml_ok_is_ok(seq![s] + xml_cands(s));
}

/// A complete JSON document is read as written; any other is read as the
/// first repaired text that parses; and whatever the tolerant reader reads is
/// a document that parses.
pub proof fn law_tolerant_json_keeps_complete_documents(s: Seq<char>)
    ensures
        json_ok(s) ==> json_repair(s) == Some(s),
        !json_ok(s) ==> json_repair(s) == first_json_ok(json_cands(s)),
        json_repair(s) matches Some(r) ==> json_ok(r),
{
    assert((seq![s] + json_cands(s))[0] == s);
    assert((seq![s] + json_cands(s)).drop_first() =~= json_cands(s));
    lemma_first_json_ok_is_ok(seq![s] + json_cands(s));
}


/// Where the strict parser reads a text, the tolerant reader gives the same
/// element tree: a tree the text parses to, and a tree the tolerant reader
/// reads from it, are the same tree node for node.
pub proof fn law_tolerant_xml_gives_the_strict_tree(text: &str, strict: XmlDoc, tolerant: XmlDoc)
    requires
        xml_parses(text),
        xml_tree_of(
            xml_syntax(text@).unwrap(),
            text.spec_bytes(),
            xml_root_elem(xml_syntax(text@).unwrap()).unwrap(),
            strict.nodes@,
        ),
        xml_doc_of(xml_repair(text@).unwrap(), tolerant),
    ensures
        same_tree(strict.nodes@, 0, tolerant.nodes@, 0),
{
    law_tolerant_xml_keeps_complete_documents(text@);
    let t = xml_syntax(text@).unwrap();
    law_element_tree_is_determined(t, text.spec_bytes(), xml_root_elem(t).unwrap(), strict.nodes@, tolerant.nodes@);
}

/// Where the strict parser reads a text, the tolerant reader gives the same
/// member tree: a tree the text parses to, and a tree the tolerant reader
/// reads from it, are the same tree.
pub proof fn law_tolerant_json_gives_the_strict_tree(text: &str, strict: JsonDoc, tolerant: JsonDoc)
    requires
        json_parses(text),
        json_tree_of(
            json_syntax(text@).unwrap(),
            text.spec_bytes(),
            json_root_obj(json_syntax(text@).unwrap()).unwrap(),
            strict,
        ),
        json_doc_of(json_repair(text@).unwrap(), tolerant),
    ensures
        same_member_tree(strict, tolerant),
{
    law_tolerant_json_keeps_complete_documents(text@);
    let t = json_syntax(text@).unwrap();
    law_member_tree_is_determined(t, text.spec_bytes(), json_root_obj(t).unwrap(), strict, tolerant);
}
} // verus!
