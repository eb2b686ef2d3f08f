//! Shared pieces of the instance-document completions: the entries offered,
//! how schema node kinds are named, and the stable ordering by name.

use vstd::prelude::*;
use crate::schema::NodeKind;
use crate::text::{chars_of, views};

verus! {

broadcast use vstd::slice::group_slice_axioms;

/// One completion offered at the caret.
pub struct CompletionEntry {
    /// What is shown and sorted by.
    pub label: String,
    /// A leaf or leaf-list (a field), else a structure.
    pub field: bool,
    /// The kind, `leaf (mandatory)` for a mandatory leaf.
    pub detail: String,
    /// The snippet inserted.
    pub insert_text: String,
}

/// The view of a completion entry.
pub open spec fn entry_view(e: CompletionEntry) -> (Seq<char>, bool, Seq<char>, Seq<char>) {
    (e.label@, e.field, e.detail@, e.insert_text@)
}

/// The views of a sequence of completion entries.
pub open spec fn entry_views(es: Seq<CompletionEntry>) -> Seq<(Seq<char>, bool, Seq<char>, Seq<char>)> {
    es.map_values(|e: CompletionEntry| entry_view(e))
}

/// The YANG keyword of a node kind.
pub open spec fn kind_name(k: NodeKind) -> Seq<char> {
    match k {
        NodeKind::Container => "container"@,
        NodeKind::Leaf => "leaf"@,
        NodeKind::LeafList => "leaf-list"@,
        NodeKind::List => "list"@,
        NodeKind::Choice => "choice"@,
        NodeKind::Case => "case"@,
        NodeKind::Anyxml => "anyxml"@,
        NodeKind::Anydata => "anydata"@,
        NodeKind::Rpc => "rpc"@,
        NodeKind::Action => "action"@,
        NodeKind::Notification => "notification"@,
        NodeKind::Input => "input"@,
        NodeKind::Output => "output"@,
    }
}

/// The YANG keyword of a node kind ([`kind_name`]).
pub fn kind_str(k: NodeKind) -> (r: &'static str)
    ensures
        r@ == kind_name(k),
{
    match k {
        NodeKind::Container => "container",
        NodeKind::Leaf => "leaf",
        NodeKind::LeafList => "leaf-list",
        NodeKind::List => "list",
        NodeKind::Choice => "choice",
        NodeKind::Case => "case",
        NodeKind::Anyxml => "anyxml",
        NodeKind::Anydata => "anydata",
        NodeKind::Rpc => "rpc",
        NodeKind::Action => "action",
        NodeKind::Notification => "notification",
        NodeKind::Input => "input",
        NodeKind::Output => "output",
    }
}

/// A `leaf` or `leaf-list`.
pub open spec fn leafy(k: NodeKind) -> bool {
    k == NodeKind::Leaf || k == NodeKind::LeafList
}

/// The detail shown for a node of kind `k`.
pub open spec fn detail_text(k: NodeKind, mandatory: bool) -> Seq<char> {
    if leafy(k) {
        if mandatory {
            "leaf (mandatory)"@
        } else {
            "leaf"@
        }
    } else {
        kind_name(k)
    }
}

/// The detail shown for a node ([`detail_text`]).
pub fn detail_for(k: NodeKind, mandatory: bool) -> (r: String)
    ensures
        r@ == detail_text(k, mandatory),
{
    let leaf = match k {
        NodeKind::Leaf | NodeKind::LeafList => true,
        _ => false,
    };
    if leaf {
        if mandatory {
            crate::text::string_of(chars_of("leaf (mandatory)").as_slice())
        } else {
            crate::text::string_of(chars_of("leaf").as_slice())
        }
    } else {
        crate::text::string_of(chars_of(kind_str(k)).as_slice())
    }
}

/// `a` sorts before `b`: lexicographic by character (the order of `String`).
pub open spec fn lex_lt(a: Seq<char>, b: Seq<char>) -> bool
    decreases a.len(),
{
    if a.len() == 0 {
        b.len() > 0
    } else if b.len() == 0 {
        false
    } else if a[0] < b[0] {
        true
    } else if a[0] > b[0] {
        false
    } else {
        lex_lt(a.drop_first(), b.drop_first())
    }
}

/// Whether `a` sorts before `b` ([`lex_lt`]).
pub fn lex_less(a: &str, b: &str) -> (r: bool)
    ensures
        r == lex_lt(a@, b@),
{
    let ac = chars_of(a);
    let bc = chars_of(b);
    let mut k: usize = 0;
    proof {
        assert(ac@.skip(0) =~= ac@);
        assert(bc@.skip(0) =~= bc@);
    }
    while k < ac.len() && k < bc.len() && ac[k] == bc[k]
        invariant
            k <= ac@.len(),
            k <= bc@.len(),
            lex_lt(ac@, bc@) == lex_lt(ac@.skip(k as int), bc@.skip(k as int)),
        decreases ac@.len() - k,
    {
        proof {
            assert(ac@.skip(k as int).drop_first() =~= ac@.skip(k + 1));
            assert(bc@.skip(k as int).drop_first() =~= bc@.skip(k + 1));
        }
        k = k + 1;
    }
    proof {
        assert(ac@ == a@);
        assert(bc@ == b@);
    }
    if k == ac.len() {
        proof {
            assert(ac@.skip(k as int).len() == 0);
        }
        k < bc.len()
    } else if k == bc.len() {
        proof {
            assert(bc@.skip(k as int).len() == 0);
        }
        false
    } else {
        proof {
            assert(ac@.skip(k as int)[0] == ac@[k as int]);
            assert(bc@.skip(k as int)[0] == bc@[k as int]);
        }
        ac[k] < bc[k]
    }
}

/// `x` inserted into `s` after every element whose key does not sort
/// after `x`'s.
pub open spec fn ins_by<A>(s: Seq<A>, x: A, key: spec_fn(A) -> Seq<char>) -> Seq<A>
    decreases s.len(),
{
    if s.len() == 0 {
        seq![x]
    } else if lex_lt(key(x), key(s.last())) {
        ins_by(s.drop_last(), x, key).push(s.last())
    } else {
        s.push(x)
    }
}

/// `s` sorted by key, stably (equal keys keep their order).
pub open spec fn sorted_by<A>(s: Seq<A>, key: spec_fn(A) -> Seq<char>) -> Seq<A>
    decreases s.len(),
{
    if s.len() == 0 {
        s
    } else {
        ins_by(sorted_by(s.drop_last(), key), s.last(), key)
    }
}

/// The name of a named pair.
pub open spec fn pair_name<T>(p: (String, T)) -> Seq<char> {
    p.0@
}

proof fn lemma_ins_at<T>(s: Seq<(String, T)>, x: (String, T), q: int)
    requires
        0 <= q <= s.len(),
        forall|i: int| q <= i < s.len() ==> lex_lt(x.0@, #[trigger] s[i].0@),
        q > 0 ==> !lex_lt(x.0@, s[q - 1].0@),
    ensures
        ins_by(s, x, |p: (String, T)| pair_name(p)) == s.take(q).push(x) + s.skip(q),
    decreases s.len(),
{
    let key = |p: (String, T)| pair_name(p);
    if s.len() == 0 {
        assert(s.take(q).push(x) + s.skip(q) =~= seq![x]);
    } else if q == s.len() {
        assert(s.take(q).push(x) + s.skip(q) =~= s.push(x));
    } else {
        assert(lex_lt(x.0@, s[s.len() - 1].0@));
        let d = s.drop_last();
        assert forall|i: int| q <= i < d.len() implies lex_lt(x.0@, #[trigger] d[i].0@) by {
            assert(d[i] == s[i]);
        }
        if q > 0 {
            assert(d[q - 1] == s[q - 1]);
        }
        lemma_ins_at(d, x, q);
        assert(d.take(q).push(x) + d.skip(q) + seq![s.last()] =~= s.take(q).push(x) + s.skip(q));
        assert(ins_by(d, x, key).push(s.last()) =~= d.take(q).push(x) + d.skip(q) + seq![s.last()]);
    }
}

/// What an insertion holds was inserted or was there before.
proof fn lemma_ins_contains<A>(s: Seq<A>, x: A, key: spec_fn(A) -> Seq<char>, y: A)
    requires
        ins_by(s, x, key).contains(y),
    ensures
        y == x || s.contains(y),
    decreases s.len(),
{
    if s.len() > 0 {
        if lex_lt(key(x), key(s.last())) {
            let t = ins_by(s.drop_last(), x, key);
            let i = choose|i: int| 0 <= i < t.push(s.last()).len() && t.push(s.last())[i] == y;
            if i < t.len() {
                assert(t[i] == y);
                assert(t.contains(y));
                lemma_ins_contains(s.drop_last(), x, key, y);
                if y != x {
                    let j = choose|j: int| 0 <= j < s.drop_last().len() && s.drop_last()[j] == y;
                    assert(s[j] == y);
                }
            } else {
                assert(s[s.len() - 1] == y);
            }
        } else {
            let i = choose|i: int| 0 <= i < s.push(x).len() && s.push(x)[i] == y;
            if i < s.len() {
                assert(s[i] == y);
            }
        }
    }
}

/// What a sort holds was in the sequence sorted.
pub proof fn lemma_sorted_contains<A>(s: Seq<A>, key: spec_fn(A) -> Seq<char>, y: A)
    requires
        sorted_by(s, key).contains(y),
    ensures
        s.contains(y),
    decreases s.len(),
{
    if s.len() > 0 {
        lemma_ins_contains(sorted_by(s.drop_last(), key), s.last(), key, y);
        if y != s.last() {
            lemma_sorted_contains(s.drop_last(), key, y);
            let j = choose|j: int| 0 <= j < s.drop_last().len() && s.drop_last()[j] == y;
            assert(s[j] == y);
        } else {
            assert(s[s.len() - 1] == y);
        }
    }
}

/// Sorting commutes with a map that keeps the keys of the items sorted.
pub proof fn lemma_sorted_map<A, B>(s: Seq<A>, f: spec_fn(A) -> B, ka: spec_fn(A) -> Seq<char>, kb: spec_fn(B) -> Seq<char>)
    requires
        forall|a: A| s.contains(a) ==> #[trigger] kb(f(a)) == ka(a),
    ensures
        sorted_by(s, ka).map_values(f) == sorted_by(s.map_values(f), kb),
    decreases s.len(),
{
    if s.len() > 0 {
        let d = s.drop_last();
        assert forall|a: A| d.contains(a) implies #[trigger] kb(f(a)) == ka(a) by {
            let j = choose|j: int| 0 <= j < d.len() && d[j] == a;
            assert(s[j] == a);
        }
        lemma_sorted_map(d, f, ka, kb);
        assert(s.map_values(f).drop_last() =~= d.map_values(f));
        let t = sorted_by(d, ka);
        assert forall|a: A| (t.contains(a) || a == s.last()) implies #[trigger] kb(f(a)) == ka(a) by {
            if a == s.last() {
                assert(s[s.len() - 1] == a);
            } else {
                lemma_sorted_contains(d, ka, a);
                let j = choose|j: int| 0 <= j < d.len() && d[j] == a;
                assert(s[j] == a);
            }
        }
        lemma_ins_map(t, s.last(), f, ka, kb);
    }
}

proof fn lemma_ins_map<A, B>(s: Seq<A>, x: A, f: spec_fn(A) -> B, ka: spec_fn(A) -> Seq<char>, kb: spec_fn(B) -> Seq<char>)
    requires
        forall|a: A| (s.contains(a) || a == x) ==> #[trigger] kb(f(a)) == ka(a),
    ensures
        ins_by(s, x, ka).map_values(f) == ins_by(s.map_values(f), f(x), kb),
    decreases s.len(),
{
    if s.len() == 0 {
        assert(seq![x].map_values(f) =~= seq![f(x)]);
    } else {
        assert(s.map_values(f).last() == f(s.last()));
        assert(s.map_values(f).drop_last() =~= s.drop_last().map_values(f));
        assert(s[s.len() - 1] == s.last());
        assert(kb(f(s.last())) == ka(s.last()));
        assert(kb(f(x)) == ka(x));
        if lex_lt(ka(x), ka(s.last())) {
            let d = s.drop_last();
            assert forall|a: A| (d.contains(a) || a == x) implies #[trigger] kb(f(a)) == ka(a) by {
                if a != x {
                    let j = choose|j: int| 0 <= j < d.len() && d[j] == a;
                    assert(s[j] == a);
                }
            }
            lemma_ins_map(d, x, f, ka, kb);
            assert(ins_by(d, x, ka).push(s.last()).map_values(f) =~= ins_by(d, x, ka).map_values(f).push(f(s.last())));
        } else {
            assert(s.push(x).map_values(f) =~= s.map_values(f).push(f(x)));
        }
    }
}

/// Sort `v` by name, stably ([`sorted_by`] the name).
pub fn sort_named<T>(v: Vec<(String, T)>) -> (r: Vec<(String, T)>)
    ensures
        r@ == sorted_by(v@, |p: (String, T)| pair_name(p)),
{
    let ghost orig = v@;
    let _n = v.len();
    let mut src = v;
    let mut out: Vec<(String, T)> = Vec::new();
    let mut i: usize = 0;
    proof {
        assert(orig.take(0) =~= Seq::<(String, T)>::empty());
        assert(src@ =~= orig.skip(0));
    }
    while src.len() > 0
        invariant
            i + src@.len() == orig.len(),
            orig.len() <= usize::MAX,
            src@ == orig.skip(i as int),
            out@ == sorted_by(orig.take(i as int), |p: (String, T)| pair_name(p)),
        decreases src@.len(),
    {
        let x = src.remove(0);
        let ghost xg = x;
        proof {
            assert(xg == orig[i as int]);
        }
        let mut q = out.len();
        while q > 0 && lex_less(x.0.as_str(), out[q - 1].0.as_str())
            invariant
                q <= out@.len(),
                forall|j: int| q <= j < out@.len() ==> lex_lt(x.0@, #[trigger] out@[j].0@),
            decreases q,
        {
            q = q - 1;
        }
        proof {
            lemma_ins_at(out@, xg, q as int);
            assert(orig.take(i + 1).drop_last() =~= orig.take(i as int));
            assert(orig.take(i + 1).last() == xg);
        }
        let ghost pre = out@;
        out.insert(q, x);
        proof {
            assert(out@ =~= pre.take(q as int).push(xg) + pre.skip(q as int));
            assert(orig.skip(i as int).drop_first() =~= orig.skip(i + 1));
        }
        i = i + 1;
    }
    proof {
        assert(orig.take(i as int) =~= orig);
    }
    out
}

/// [`lex_lt`] is irreflexive and asymmetric, and any two different
/// strings are ordered one way.
pub proof fn lemma_lex_total(a: Seq<char>, b: Seq<char>)
    ensures
        !(lex_lt(a, b) && lex_lt(b, a)),
        a != b ==> lex_lt(a, b) || lex_lt(b, a),
        !lex_lt(a, a),
    decreases a.len(),
{
    if a.len() > 0 {
        lemma_lex_total(a.drop_first(), a.drop_first());
    }
    if a.len() == 0 && b.len() == 0 {
        assert(a =~= b);
    }
    if a.len() > 0 && b.len() > 0 && a[0] == b[0] {
        lemma_lex_total(a.drop_first(), b.drop_first());
        if a != b && a.drop_first() == b.drop_first() {
            assert(a =~= b) by {
                assert forall|i: int| 0 <= i < a.len() implies a[i] == b[i] by {
                    if i > 0 {
                        assert(a[i] == a.drop_first()[i - 1]);
                        assert(b[i] == b.drop_first()[i - 1]);
                    }
                }
            }
        }
    }
}

/// [`lex_lt`] is transitive.
pub proof fn lemma_lex_trans(a: Seq<char>, b: Seq<char>, c: Seq<char>)
    requires
        lex_lt(a, b),
        lex_lt(b, c),
    ensures
        lex_lt(a, c),
    decreases a.len(),
{
    if a.len() > 0 && b.len() > 0 && c.len() > 0 && a[0] == b[0] && b[0] == c[0] {
        lemma_lex_trans(a.drop_first(), b.drop_first(), c.drop_first());
    }
}

/// `s` is in order by `key`: no element's key sorts before an earlier one's.
pub open spec fn in_order<A>(s: Seq<A>, key: spec_fn(A) -> Seq<char>) -> bool {
    forall|i: int, j: int| 0 <= i < j < s.len() ==> !lex_lt(key(#[trigger] s[j]), key(#[trigger] s[i]))
}

proof fn lemma_ins_in_order<A>(s: Seq<A>, x: A, key: spec_fn(A) -> Seq<char>)
    requires
        in_order(s, key),
    ensures
        in_order(ins_by(s, x, key), key),
        ins_by(s, x, key).to_multiset() == s.to_multiset().insert(x),
        ins_by(s, x, key).len() == s.len() + 1,
    decreases s.len(),
{
    broadcast use vstd::seq_lib::group_to_multiset_ensures, vstd::multiset::group_multiset_axioms;

    let r = ins_by(s, x, key);
    if s.len() == 0 {
        assert(seq![x] =~= Seq::<A>::empty().push(x));
        assert(seq![x].to_multiset() =~= Seq::<A>::empty().to_multiset().insert(x));
    } else if lex_lt(key(x), key(s.last())) {
        let d = s.drop_last();
        assert(in_order(d, key)) by {
            assert forall|i: int, j: int| 0 <= i < j < d.len() implies !lex_lt(key(#[trigger] d[j]), key(#[trigger] d[i])) by {
                assert(d[i] == s[i] && d[j] == s[j]);
            }
        }
        lemma_ins_in_order(d, x, key);
        let t = ins_by(d, x, key);
        assert(r == t.push(s.last()));
        assert forall|i: int, j: int| 0 <= i < j < r.len() implies !lex_lt(key(#[trigger] r[j]), key(#[trigger] r[i])) by {
            if j == r.len() - 1 {
                assert(r[j] == s.last());
                assert(r[i] == t[i]);
                assert(t.contains(t[i]));
                assert(t.to_multiset().count(t[i]) > 0);
                assert(d.to_multiset().insert(x).count(t[i]) > 0);
                if t[i] == x {
                    lemma_lex_total(key(x), key(s.last()));
                } else {
                    assert(d.to_multiset().count(t[i]) > 0);
                    assert(d.contains(t[i]));
                    let k = choose|k: int| 0 <= k < d.len() && d[k] == t[i];
                    assert(s[k] == d[k]);
                    assert(!lex_lt(key(s[s.len() - 1]), key(s[k])));
                }
            } else {
                assert(r[i] == t[i] && r[j] == t[j]);
            }
        }
        assert(d.push(s.last()) =~= s);
        assert(r.to_multiset() =~= s.to_multiset().insert(x));
    } else {
        assert(r == s.push(x));
        assert forall|i: int, j: int| 0 <= i < j < r.len() implies !lex_lt(key(#[trigger] r[j]), key(#[trigger] r[i])) by {
            if j == r.len() - 1 {
                assert(r[j] == x);
                assert(r[i] == s[i]);
                if i < s.len() - 1 {
                    assert(!lex_lt(key(s[s.len() - 1]), key(s[i])));
                    if lex_lt(key(x), key(s[i])) {
                        lemma_lex_total(key(s[s.len() - 1]), key(s[i]));
                        if key(s[s.len() - 1]) == key(s[i]) {
                        } else {
                            lemma_lex_trans(key(x), key(s[i]), key(s[s.len() - 1]));
                        }
                    }
                }
            } else {
                assert(r[i] == s[i] && r[j] == s[j]);
            }
        }
        assert(r.to_multiset() =~= s.to_multiset().insert(x));
    }
}

/// Sorting by name puts the items in order of their names and keeps every
/// item, each as often as it occurs.
pub proof fn law_sorted_by_orders_and_keeps<A>(s: Seq<A>, key: spec_fn(A) -> Seq<char>)
    ensures
        in_order(sorted_by(s, key), key),
        sorted_by(s, key).to_multiset() == s.to_multiset(),
    decreases s.len(),
{
    broadcast use vstd::seq_lib::group_to_multiset_ensures, vstd::multiset::group_multiset_axioms;

    if s.len() == 0 {
        assert(sorted_by(s, key).to_multiset() =~= s.to_multiset());
    } else {
        law_sorted_by_orders_and_keeps(s.drop_last(), key);
        lemma_ins_in_order(sorted_by(s.drop_last(), key), s.last(), key);
        assert(s.drop_last().push(s.last()) =~= s);
        assert(s.to_multiset() =~= s.drop_last().to_multiset().insert(s.last()));
    }
}


/// The kind shown for a YANG completion item.
#[derive(Debug, Clone, Copy, PartialEq, Eq, Structural)]
pub enum ItemKind {
    /// A built-in type.
    TypeParameter,
    /// A typedef or a grouping.
    Struct,
    /// An identity.
    Enum,
}

/// One completion offered in a YANG module.
pub struct YangItem {
    pub label: String,
    pub kind: ItemKind,
    pub detail: String,
}

/// The view of a YANG completion item.
pub open spec fn yang_item_view(i: YangItem) -> (Seq<char>, ItemKind, Seq<char>) {
    (i.label@, i.kind, i.detail@)
}

/// The views of YANG completion items.
pub open spec fn yang_item_views(is: Seq<YangItem>) -> Seq<(Seq<char>, ItemKind, Seq<char>)> {
    is.map_values(|i: YangItem| yang_item_view(i))
}

/// What the caret's argument completes.
pub enum YangQuery {
    /// Nothing: not in the argument of a `type`, `base` or `uses`.
    Nothing,
    /// Type names (`type`).
    Types,
    /// Identity names (`base`).
    Identities,
    /// Grouping names (`uses`).
    Groupings,
}

/// What completion at `byte` of a file with statements `nodes` offers.
pub open spec fn yang_query(nodes: Seq<crate::stmt::Stmt>, byte: int) -> YangQuery {
    match crate::stmt::narrowest(nodes, byte) {
        None => YangQuery::Nothing,
        Some(i) => match nodes[i].arg {
            None => YangQuery::Nothing,
            Some(a) => if !crate::stmt::holds(a.range, byte) {
                YangQuery::Nothing
            } else {
                match nodes[i].kind {
                    crate::stmt::StmtKind::Type => YangQuery::Types,
                    crate::stmt::StmtKind::Base => YangQuery::Identities,
                    crate::stmt::StmtKind::Uses => YangQuery::Groupings,
                    _ => YangQuery::Nothing,
                }
            },
        },
    }
}

/// A type candidate: its name, whether it is built in, and the module of
/// a typedef.
pub type TypeCand = (String, bool, Option<String>);

/// The item for a type candidate: a built-in's detail is `built-in`, a
/// typedef's its module.
pub open spec fn type_item(c: (Seq<char>, bool, Option<Seq<char>>)) -> (Seq<char>, ItemKind, Seq<char>) {
    (
        c.0,
        if c.1 {
            ItemKind::TypeParameter
        } else {
            ItemKind::Struct
        },
        match c.2 {
            Some(m) => m + " (typedef)"@,
            None => "built-in"@,
        },
    )
}

/// The view of a type candidate.
pub open spec fn type_cand_view(c: TypeCand) -> (Seq<char>, bool, Option<Seq<char>>) {
    (
        c.0@,
        c.1,
        match c.2 {
            Some(m) => Some(m@),
            None => None,
        },
    )
}

/// The items for type candidates.
pub open spec fn type_items_of(cs: Seq<TypeCand>) -> Seq<(Seq<char>, ItemKind, Seq<char>)> {
    cs.map_values(|c: TypeCand| type_item(type_cand_view(c)))
}

/// The items for names of one kind with one detail.
pub open spec fn name_items_of(ns: Seq<String>, kind: ItemKind, detail: Seq<char>) -> Seq<(Seq<char>, ItemKind, Seq<char>)> {
    ns.map_values(|n: String| (n@, kind, detail))
}

/// The items for type candidates ([`type_item`]).
#[verifier::loop_isolation(false)]
pub fn type_items(cands: &Vec<TypeCand>) -> (r: Vec<YangItem>)
    ensures
        yang_item_views(r@) == type_items_of(cands@),
{
    let ghost want = type_items_of(cands@);
    let mut out: Vec<YangItem> = Vec::new();
    let mut k: usize = 0;
    proof {
        assert(yang_item_views(out@) =~= want.take(0));
    }
    while k < cands.len()
        invariant
            k <= cands@.len(),
            yang_item_views(out@) == want.take(k as int),
        decreases cands@.len() - k,
    {
        let c = &cands[k];
        let detail = match &c.2 {
            Some(m) => {
                let mut v: Vec<char> = Vec::new();
                crate::text::push_str(&mut v, m.as_str());
                crate::text::push_str(&mut v, " (typedef)");
                crate::text::string_of(v.as_slice())
            },
            None => crate::text::string_of(chars_of("built-in").as_slice()),
        };
        let it = YangItem {
            label: c.0.clone(),
            kind: if c.1 {
                ItemKind::TypeParameter
            } else {
                ItemKind::Struct
            },
            detail,
        };
        proof {
            assert(want[k as int] == type_item(type_cand_view(cands@[k as int])));
            assert(yang_item_view(it) == want[k as int]);
            assert(want.take(k + 1) =~= want.take(k as int).push(yang_item_view(it)));
            assert(yang_item_views(out@.push(it)) =~= yang_item_views(out@).push(yang_item_view(it)));
        }
        out.push(it);
        k = k + 1;
    }
    proof {
        assert(want.take(k as int) =~= want);
    }
    out
}

/// The items for names of one kind, each with the same detail.
#[verifier::loop_isolation(false)]
pub fn name_items(names: &Vec<String>, kind: ItemKind, detail: &str) -> (r: Vec<YangItem>)
    ensures
        yang_item_views(r@) == name_items_of(names@, kind, detail@),
{
    let ghost want = name_items_of(names@, kind, detail@);
    let mut out: Vec<YangItem> = Vec::new();
    let mut k: usize = 0;
    proof {
        assert(yang_item_views(out@) =~= want.take(0));
    }
    while k < names.len()
        invariant
            k <= names@.len(),
            yang_item_views(out@) == want.take(k as int),
        decreases names@.len() - k,
    {
        let it = YangItem {
            label: names[k].clone(),
            kind,
            detail: crate::text::string_of(chars_of(detail).as_slice()),
        };
        proof {
            assert(want.take(k + 1) =~= want.take(k as int).push(yang_item_view(it)));
            assert(yang_item_views(out@.push(it)) =~= yang_item_views(out@).push(yang_item_view(it)));
        }
        out.push(it);
        k = k + 1;
    }
    proof {
        assert(want.take(k as int) =~= want);
    }
    out
}

/// The name for the `type` candidates a compiled library offers in each
/// module: each as its name, whether it is built in, and its module.
pub uninterp spec fn library_type_candidates(lib: yrepo::Library) -> Map<Seq<char>, Seq<(Seq<char>, bool, Option<Seq<char>>)>>;

/// The name for the identity names a compiled library offers for a `base`
/// in each module.
pub uninterp spec fn library_identity_candidates(lib: yrepo::Library) -> Map<Seq<char>, Seq<Seq<char>>>;

/// The name for the grouping names a compiled library offers for a `uses`
/// in each module.
pub uninterp spec fn library_grouping_candidates(lib: yrepo::Library) -> Map<Seq<char>, Seq<Seq<char>>>;

/// yrepo's `Library::type_candidates` for module `scope`, each as its
/// name, whether it is built in, and its module
/// ([`library_type_candidates`]).
#[verifier::external_body]
fn type_candidates(lib: &yrepo::Library, scope: &str) -> (r: Vec<TypeCand>)
    ensures
        r@.map_values(|c: TypeCand| type_cand_view(c)) == library_type_candidates(*lib)[scope@],
{
    lib.type_candidates(scope)
        .into_iter()
        .map(|c| (c.name, matches!(c.kind, yrepo::TypeCandidateKind::Builtin), c.module))
        .collect()
}

/// yrepo's `Library::identity_candidates` for module `scope`
/// ([`library_identity_candidates`]).
#[verifier::external_body]
fn identity_candidates(lib: &yrepo::Library, scope: &str) -> (r: Vec<String>)
    ensures
        views(r@) == library_identity_candidates(*lib)[scope@],
{
    lib.identity_candidates(scope)
}

/// yrepo's `Library::grouping_candidates` for module `scope`
/// ([`library_grouping_candidates`]).
#[verifier::external_body]
fn grouping_candidates(lib: &yrepo::Library, scope: &str) -> (r: Vec<String>)
    ensures
        views(r@) == library_grouping_candidates(*lib)[scope@],
{
    lib.grouping_candidates(scope)
}

/// Completion in a YANG module at `byte` (module `scope`): in the argument
/// of a `type`, the type names; of a `base`, the identities; of a `uses`,
/// the groupings; `None` elsewhere ([`yang_query`]).
///
/// The items are the names the library offers in `scope`, in its order,
/// shown as [`type_item`] says for types, as `identity` and `grouping` for
/// the others.
pub fn handle(tree: &crate::stmt::StmtTree, byte: usize, scope: &str, lib: &yrepo::Library) -> (r: Option<Vec<YangItem>>)
    ensures
        (yang_query(tree.nodes@, byte as int) is Nothing) <==> r is None,
        yang_query(tree.nodes@, byte as int) is Types ==> (r matches Some(v) && yang_item_views(v@)
            == library_type_candidates(*lib)[scope@].map_values(|c: (Seq<char>, bool, Option<Seq<char>>)| type_item(c))),
        yang_query(tree.nodes@, byte as int) is Identities ==> (r matches Some(v) && yang_item_views(v@)
            == library_identity_candidates(*lib)[scope@].map_values(|n: Seq<char>| (n, ItemKind::Enum, "identity"@))),
        yang_query(tree.nodes@, byte as int) is Groupings ==> (r matches Some(v) && yang_item_views(v@)
            == library_grouping_candidates(*lib)[scope@].map_values(|n: Seq<char>| (n, ItemKind::Struct, "grouping"@))),
{
    let i = match tree.narrowest_at(byte) {
        Some(i) => i,
        None => {
            return None;
        },
    };
    proof {
        crate::stmt::lemma_narrowest_range(tree.nodes@, byte as int);
    }
    let s = &tree.nodes[i];
    let a = match &s.arg {
        Some(a) => a,
        None => {
            return None;
        },
    };
    if !crate::stmt::holds_byte(&a.range, byte) {
        return None;
    }
    match s.kind {
        crate::stmt::StmtKind::Type => {
            let cs = type_candidates(lib, scope);
            let items = type_items(&cs);
            proof {
                assert(type_items_of(cs@) =~= library_type_candidates(*lib)[scope@].map_values(
                    |c: (Seq<char>, bool, Option<Seq<char>>)| type_item(c),
                ));
            }
            Some(items)
        },
        crate::stmt::StmtKind::Base => {
            let ns = identity_candidates(lib, scope);
            let items = name_items(&ns, ItemKind::Enum, "identity");
            proof {
                assert(name_items_of(ns@, ItemKind::Enum, "identity"@) =~= library_identity_candidates(*lib)[scope@].map_values(
                    |n: Seq<char>| (n, ItemKind::Enum, "identity"@),
                ));
            }
            Some(items)
        },
        crate::stmt::StmtKind::Uses => {
            let ns = grouping_candidates(lib, scope);
            let items = name_items(&ns, ItemKind::Struct, "grouping");
            proof {
                assert(name_items_of(ns@, ItemKind::Struct, "grouping"@) =~= library_grouping_candidates(*lib)[scope@].map_values(
                    |n: Seq<char>| (n, ItemKind::Struct, "grouping"@),
                ));
            }
            Some(items)
        },
        _ => None,
    }
}

} // verus!
