//! Folding ranges: every block statement whose braces stand on different
//! lines folds from the line of its `{` to the line of its `}`.

use vstd::prelude::*;
use crate::semantic::{line_at, line_of, Lines};
use crate::stmt::{Stmt, StmtEnd, StmtTree};

verus! {

/// The braces of every block statement lie within the text.
pub open spec fn braces_within(nodes: Seq<Stmt>, len: int) -> bool {
    forall|i: int|
        0 <= i < nodes.len() ==> match #[trigger] nodes[i].end {
            Some(StmtEnd::Braces { open, close }) => open.start <= len && close.start <= len,
            _ => true,
        }
}

/// The folds of the first `n` statements, in order: for each block, the
/// line of its `{` and the line of its `}`, when the second is later.
pub open spec fn folds(nodes: Seq<Stmt>, starts: Seq<usize>, n: int) -> Seq<(u32, u32)>
    decreases n,
{
    if n <= 0 {
        Seq::empty()
    } else {
        let prev = folds(nodes, starts, n - 1);
        match nodes[n - 1].end {
            Some(StmtEnd::Braces { open, close }) => {
                let a = line_of(starts, open.start as int, starts.len() as int);
                let z = line_of(starts, close.start as int, starts.len() as int);
                if z > a {
                    prev.push((a as u32, z as u32))
                } else {
                    prev
                }
            },
            _ => prev,
        }
    }
}

/// The folding ranges of a YANG module with statements `tree` over a text
/// with lines `lines` ([`folds`]); none without a module.
pub fn handle(tree: Option<&StmtTree>, lines: &Lines) -> (r: Vec<(u32, u32)>)
    requires
        lines.wf(),
        tree matches Some(t) ==> braces_within(t.nodes@, lines.len as int),
    ensures
        tree is None ==> r@.len() == 0,
        tree matches Some(t) ==> r@ == folds(t.nodes@, lines.starts@, t.nodes@.len() as int),
{
    let mut out: Vec<(u32, u32)> = Vec::new();
    let tree = match tree {
        Some(t) => t,
        None => {
            return out;
        },
    };
    let mut i: usize = 0;
    while i < tree.nodes.len()
        invariant
            lines.wf(),
            i <= tree.nodes@.len(),
            out@ == folds(tree.nodes@, lines.starts@, i as int),
        decreases tree.nodes@.len() - i,
    {
        match &tree.nodes[i].end {
            Some(StmtEnd::Braces { open, close }) => {
                let a = line_at(lines, open.start);
                let z = line_at(lines, close.start);
                if z > a {
                    out.push((a as u32, z as u32));
                }
            },
            _ => {},
        }
        i = i + 1;
    }
    out
}

} // verus!
