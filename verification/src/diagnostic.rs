//! Checks the server makes on a YANG module itself: two `import`s, or an
//! `import` and the module's own `prefix`, that declare the same prefix.

use std::ops::Range;
use vstd::prelude::*;
use crate::hover::{first_kind_kid, prefix_kid};
use crate::stmt::{Stmt, StmtKind, StmtTree};
use crate::text::str_eq;

verus! {

/// A prefix declaration: the prefix and the byte span of its argument.
pub type PrefixDecl = (Seq<char>, Range<usize>);

/// The declaration of prefix statement `p`, when it has an argument.
pub open spec fn decl_of(nodes: Seq<Stmt>, p: Option<int>) -> Option<PrefixDecl> {
    match p {
        Some(i) => match nodes[i].arg {
            Some(a) => Some((a.name@, a.range)),
            None => None,
        },
        None => None,
    }
}

/// The module's own prefix declaration: its first `prefix` child, when that
/// has an argument.
pub open spec fn own_decl(nodes: Seq<Stmt>) -> Seq<PrefixDecl> {
    match decl_of(nodes, first_kind_kid(nodes, nodes[0].children@)) {
        Some(d) => seq![d],
        None => Seq::empty(),
    }
}

/// The prefix declarations of the imports among `kids`, in order: each
/// import's first `prefix` child, when that has an argument.
pub open spec fn import_decls(nodes: Seq<Stmt>, kids: Seq<usize>) -> Seq<PrefixDecl>
    decreases kids.len(),
{
    if kids.len() == 0 {
        Seq::empty()
    } else {
        let rest = import_decls(nodes, kids.drop_last());
        let c = kids.last();
        if c < nodes.len() && nodes[c as int].kind is Import {
            match decl_of(nodes, first_kind_kid(nodes, nodes[c as int].children@)) {
                Some(d) => rest.push(d),
                None => rest,
            }
        } else {
            rest
        }
    }
}

/// Every prefix declaration of the module: its own first, then its
/// imports'.
pub open spec fn prefix_decls(nodes: Seq<Stmt>) -> Seq<PrefixDecl> {
    own_decl(nodes) + import_decls(nodes, nodes[0].children@)
}

/// The first of the declarations before `upto` that declares `name`.
pub open spec fn first_with(d: Seq<PrefixDecl>, name: Seq<char>, upto: int) -> Option<int>
    decreases upto,
{
    if upto <= 0 {
        None
    } else {
        match first_with(d, name, upto - 1) {
            Some(i) => Some(i),
            None => if d[upto - 1].0 == name {
                Some(upto - 1)
            } else {
                None
            },
        }
    }
}

/// The conflicts among declarations `from..upto`: each that repeats an
/// earlier prefix, with the span of the first declaration of it.
pub open spec fn conflicts_in(d: Seq<PrefixDecl>, from: int, upto: int) -> Seq<(Seq<char>, Range<usize>, Range<usize>)>
    decreases upto - from,
{
    if upto <= from {
        Seq::empty()
    } else {
        conflicts_in(d, from, upto - 1) + match first_with(d, d[upto - 1].0, upto - 1) {
            Some(i) => seq![(d[upto - 1].0, d[upto - 1].1, d[i].1)],
            None => Seq::empty(),
        }
    }
}

/// The prefix conflicts of a module with statements `nodes`: every
/// import whose prefix was declared before (by the module itself or an
/// earlier import), in order.
pub open spec fn prefix_conflicts(nodes: Seq<Stmt>) -> Seq<(Seq<char>, Range<usize>, Range<usize>)> {
    if nodes.len() == 0 {
        Seq::empty()
    } else {
        let d = prefix_decls(nodes);
        conflicts_in(d, own_decl(nodes).len() as int, d.len() as int)
    }
}

/// An import that declares a prefix already declared.
pub struct PrefixConflict {
    /// The prefix.
    pub name: String,
    /// The span of this import's prefix argument.
    pub range: Range<usize>,
    /// The span of the first declaration of the prefix.
    pub first: Range<usize>,
}

/// The view of a conflict.
pub open spec fn conflict_view(c: PrefixConflict) -> (Seq<char>, Range<usize>, Range<usize>) {
    (c.name@, c.range, c.first)
}

/// The declaration of the prefix statement `p` of `tree`.
fn decl_at(tree: &StmtTree, p: Option<usize>) -> (r: Option<(String, Range<usize>)>)
    requires
        p matches Some(i) ==> i < tree.nodes@.len(),
    ensures
        match r {
            Some((n, rg)) => decl_of(tree.nodes@, match p {
                Some(i) => Some(i as int),
                None => None,
            }) == Some((n@, rg)),
            None => decl_of(tree.nodes@, match p {
                Some(i) => Some(i as int),
                None => None,
            }) is None,
        },
{
    match p {
        Some(i) => match &tree.nodes[i].arg {
            Some(a) => Some((a.name.clone(), Range { start: a.range.start, end: a.range.end })),
            None => None,
        },
        None => None,
    }
}

/// The prefix declarations of the module ([`prefix_decls`]), and how many
/// of them are its own.
fn decls_of(tree: &StmtTree) -> (r: (Vec<(String, Range<usize>)>, usize))
    requires
        tree.nodes@.len() > 0,
    ensures
        r.0@.map_values(|d: (String, Range<usize>)| (d.0@, d.1)) == prefix_decls(tree.nodes@),
        r.1 == own_decl(tree.nodes@).len(),
        r.1 <= r.0@.len(),
{
    let ghost nodes = tree.nodes@;
    let kids = &tree.nodes[0].children;
    let mut out: Vec<(String, Range<usize>)> = Vec::new();
    let p = prefix_kid(tree, kids);
    match decl_at(tree, p) {
        Some(d) => out.push(d),
        None => {},
    }
    let own = out.len();
    proof {
        assert(out@.map_values(|d: (String, Range<usize>)| (d.0@, d.1)) =~= own_decl(nodes));
        assert(kids@.take(0) =~= Seq::<usize>::empty());
    }
    let mut k: usize = 0;
    while k < kids.len()
        invariant
            nodes == tree.nodes@,
            nodes.len() > 0,
            kids@ == nodes[0].children@,
            k <= kids@.len(),
            own == own_decl(nodes).len(),
            out@.map_values(|d: (String, Range<usize>)| (d.0@, d.1)) == own_decl(nodes) + import_decls(nodes, kids@.take(k as int)),
        decreases kids@.len() - k,
    {
        let c = kids[k];
        proof {
            assert(kids@.take(k + 1).drop_last() =~= kids@.take(k as int));
            assert(kids@.take(k + 1).last() == c);
        }
        let ghost before = out@;
        if c < tree.nodes.len() {
            if let StmtKind::Import = tree.nodes[c].kind {
                let pk = prefix_kid(tree, &tree.nodes[c].children);
                match decl_at(tree, pk) {
                    Some(d) => {
                        out.push(d);
                        proof {
                            assert(out@.map_values(|d: (String, Range<usize>)| (d.0@, d.1)) =~= before.map_values(
                                |d: (String, Range<usize>)| (d.0@, d.1),
                            ).push((out@.last().0@, out@.last().1)));
                        }
                    },
                    None => {},
                }
            }
        }
        k = k + 1;
    }
    proof {
        assert(kids@.take(k as int) =~= kids@);
    }
    (out, own)
}

/// The prefix conflicts of the module whose statements are `tree`
/// ([`prefix_conflicts`]).
pub fn conflict_prefix(tree: &StmtTree) -> (r: Vec<PrefixConflict>)
    ensures
        r@.map_values(|c: PrefixConflict| conflict_view(c)) == prefix_conflicts(tree.nodes@),
{
    let mut out: Vec<PrefixConflict> = Vec::new();
    if tree.nodes.len() == 0 {
        proof {
            assert(out@.map_values(|c: PrefixConflict| conflict_view(c)) =~= Seq::empty());
        }
        return out;
    }
    let ghost nodes = tree.nodes@;
    let (decls, own) = decls_of(tree);
    let ghost d = prefix_decls(nodes);
    let mut j: usize = own;
    proof {
        assert(out@.map_values(|c: PrefixConflict| conflict_view(c)) =~= conflicts_in(d, own as int, own as int));
    }
    while j < decls.len()
        invariant
            own <= j <= decls@.len(),
            decls@.map_values(|x: (String, Range<usize>)| (x.0@, x.1)) == d,
            out@.map_values(|c: PrefixConflict| conflict_view(c)) == conflicts_in(d, own as int, j as int),
        decreases decls@.len() - j,
    {
        let name = decls[j].0.as_str();
        let mut i: usize = 0;
        let mut hit: Option<usize> = None;
        while i < j && hit.is_none()
            invariant
                i <= j < decls@.len(),
                decls@.map_values(|x: (String, Range<usize>)| (x.0@, x.1)) == d,
                name@ == d[j as int].0,
                match hit {
                    Some(h) => first_with(d, name@, i as int) == Some(h as int) && h < j,
                    None => first_with(d, name@, i as int) is None,
                },
            decreases j - i + (if hit is None { 1int } else { 0int }),
        {
            proof {
                assert(d[i as int].0 == decls@[i as int].0@);
            }
            if str_eq(decls[i].0.as_str(), name) {
                hit = Some(i);
            }
            i = i + 1;
        }
        let ghost before = out@;
        match hit {
            Some(h) => {
                proof {
                    lemma_first_with_stable(d, name@, i as int, j as int);
                    assert(d[h as int].1 == decls@[h as int].1);
                    assert(d[j as int].1 == decls@[j as int].1);
                }
                out.push(PrefixConflict {
                    name: decls[j].0.clone(),
                    range: Range { start: decls[j].1.start, end: decls[j].1.end },
                    first: Range { start: decls[h].1.start, end: decls[h].1.end },
                });
                proof {
                    assert(out@.map_values(|c: PrefixConflict| conflict_view(c)) =~= before.map_values(
                        |c: PrefixConflict| conflict_view(c),
                    ) + seq![(d[j as int].0, d[j as int].1, d[h as int].1)]);
                }
            },
            None => {
                proof {
                    assert(i == j);
                    assert(out@.map_values(|c: PrefixConflict| conflict_view(c)) =~= before.map_values(
                        |c: PrefixConflict| conflict_view(c),
                    ) + Seq::empty());
                }
            },
        }
        j = j + 1;
    }
    out
}

/// Once found, the first declaration of a name stays the first.
proof fn lemma_first_with_stable(d: Seq<PrefixDecl>, name: Seq<char>, i: int, j: int)
    requires
        0 <= i <= j,
        first_with(d, name, i) is Some,
    ensures
        first_with(d, name, j) == first_with(d, name, i),
    decreases j - i,
{
    if j > i {
        lemma_first_with_stable(d, name, i, j - 1);
    }
}

} // verus!
