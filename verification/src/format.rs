//! Document formatting: a YANG module regenerated from its statement tree,
//! one statement per line at a fixed indentation, with its comments put
//! back where they stood. Keywords and arguments are copied from the
//! source as written, so quoting, concatenation and multi-line strings
//! stay as they were.

use std::ops::Range;
use vstd::prelude::*;
use vstd::string::StringSliceAdditionalSpecFns;
use crate::semantic::raw_text;
use crate::stmt::{body_of, holds, holds_byte, Stmt, StmtEnd, StmtTree};
use crate::text::{
    char_views, chars_of, first_of, lemma_first_of_some, push_all, push_str, split_at_char, split_chars, str_get,
    string_of, trim, trimmed,
};

verus! {

/// The indentation for nesting depth `depth` at `width` spaces per level.
pub open spec fn indent_text(depth: nat, width: nat) -> Seq<char> {
    Seq::new(depth * width, |i: int| ' ')
}

/// The indentation for nesting depth `depth` ([`indent_text`]).
pub fn indent_of(depth: usize, width: u32) -> (r: String)
    requires
        depth * width <= usize::MAX,
    ensures
        r@ == indent_text(depth as nat, width as nat),
{
    if width == 0 {
        proof {
            assert(depth * width == 0) by (nonlinear_arith)
                requires
                    width == 0,
            ;
        }
        let e: Vec<char> = Vec::new();
        proof {
            assert(e@ =~= indent_text(depth as nat, width as nat));
        }
        return string_of(e.as_slice());
    }
    let n: usize = depth * (width as usize);
    let mut out: Vec<char> = Vec::new();
    let mut k: usize = 0;
    while k < n
        invariant
            k <= n,
            n == depth * width,
            out@ == Seq::new(k as nat, |i: int| ' '),
        decreases n - k,
    {
        out.push(' ');
        k = k + 1;
        proof {
            assert(out@ =~= Seq::new(k as nat, |i: int| ' '));
        }
    }
    proof {
        assert(out@ =~= indent_text(depth as nat, width as nat));
    }
    string_of(out.as_slice())
}


/// A comment of a YANG file: its byte span and its text, markers
/// included.
pub struct Comment {
    pub range: Range<usize>,
    pub text: String,
}

/// The lines of a comment at indentation `indent`: its first line
/// indented, the others as they are.
pub open spec fn comment_lines(text: Seq<char>, indent: Seq<char>) -> Seq<Seq<char>> {
    let parts = split_at_char(text, '\n');
    parts.update(0, indent + parts[0])
}

/// Byte `x` lies in the span of one of the statements `kids`.
pub open spec fn in_child(nodes: Seq<Stmt>, kids: Seq<usize>, x: int) -> bool {
    exists|k: int| 0 <= k < kids.len() && kids[k] < nodes.len() && holds(nodes[kids[k] as int].span, x)
}

/// Comment `c` belongs to statement `i` directly: it starts inside the
/// statement's block body and inside none of its children.
pub open spec fn is_direct(nodes: Seq<Stmt>, i: int, c: Comment) -> bool {
    match body_of(nodes[i]) {
        Some((s, e)) => s <= c.range.start < e && !in_child(nodes, nodes[i].children@, c.range.start as int),
        None => false,
    }
}

/// The positions, among the first `n` comments, of those that belong to
/// statement `i` directly, in order.
pub open spec fn direct_of(nodes: Seq<Stmt>, cs: Seq<Comment>, i: int, n: int) -> Seq<int>
    decreases n,
{
    if n <= 0 {
        Seq::empty()
    } else if is_direct(nodes, i, cs[n - 1]) {
        direct_of(nodes, cs, i, n - 1).push(n - 1)
    } else {
        direct_of(nodes, cs, i, n - 1)
    }
}

/// The comments that belong to statement `i` directly.
pub open spec fn direct_comments(nodes: Seq<Stmt>, cs: Seq<Comment>, i: int) -> Seq<int> {
    direct_of(nodes, cs, i, cs.len() as int)
}

/// The first line of a statement: indentation, keyword and argument as
/// the source writes them.
pub open spec fn head_text(b: Seq<u8>, s: Stmt, indent: Seq<char>) -> Seq<char> {
    let kw = match s.keyword {
        Some(r) => raw_text(b, r),
        None => Seq::empty(),
    };
    let arg = match s.arg {
        Some(a) => if raw_text(b, a.range).len() == 0 {
            Seq::empty()
        } else {
            " "@ + raw_text(b, a.range)
        },
        None => Seq::empty(),
    };
    indent + kw + arg
}

/// Where child `c` starts (0 for an index past the tree).
pub open spec fn child_start(nodes: Seq<Stmt>, c: usize) -> int {
    if c < nodes.len() {
        nodes[c as int].span.start as int
    } else {
        0
    }
}

/// The lines of statement `i` at nesting depth `depth`: a leaf as
/// `head;`, an empty block as `head { }`, else `head {`, its children and
/// direct comments in source order one level deeper, and `}`.
pub open spec fn stmt_lines(nodes: Seq<Stmt>, b: Seq<u8>, cs: Seq<Comment>, i: int, depth: nat, width: nat) -> Seq<Seq<char>>
    decreases nodes.len() - i, 1int, 0int,
{
    if !(0 <= i < nodes.len()) {
        Seq::empty()
    } else {
        let s = nodes[i];
        let ind = indent_text(depth, width);
        let h = head_text(b, s, ind);
        match body_of(s) {
            None => seq![h + ";"@],
            Some(_) => if s.children@.len() == 0 && direct_comments(nodes, cs, i).len() == 0 {
                seq![h + " { }"@]
            } else {
                seq![h + " {"@] + body_lines(nodes, b, cs, i, depth, width, 0, 0) + seq![ind + "}"@]
            },
        }
    }
}

/// The body lines of statement `i` from its `ci`-th direct comment and
/// `ki`-th child on: a comment that starts before the next child first,
/// else the child.
pub open spec fn body_lines(
    nodes: Seq<Stmt>,
    b: Seq<u8>,
    cs: Seq<Comment>,
    i: int,
    depth: nat,
    width: nat,
    ci: int,
    ki: int,
) -> Seq<Seq<char>>
    decreases nodes.len() - i, 0int, (direct_comments(nodes, cs, i).len() - ci) + (nodes[i].children@.len() - ki),
{
    let d = direct_comments(nodes, cs, i);
    if !(0 <= i < nodes.len()) || ci < 0 || ki < 0 || ci > d.len() || ki > nodes[i].children@.len() {
        Seq::empty()
    } else {
        let kids = nodes[i].children@;
        let inner = indent_text(depth + 1, width);
        if ci < d.len() && ki < kids.len() && cs[d[ci]].range.start < child_start(nodes, kids[ki]) {
            comment_lines(cs[d[ci]].text@, inner) + body_lines(nodes, b, cs, i, depth, width, ci + 1, ki)
        } else if ki < kids.len() {
            let c = kids[ki] as int;
            (if i < c < nodes.len() {
                stmt_lines(nodes, b, cs, c, depth + 1, width)
            } else {
                Seq::empty()
            }) + body_lines(nodes, b, cs, i, depth, width, ci, ki + 1)
        } else if ci < d.len() {
            comment_lines(cs[d[ci]].text@, inner) + body_lines(nodes, b, cs, i, depth, width, ci + 1, ki)
        } else {
            Seq::empty()
        }
    }
}

/// The lines of the first `n` comments that end at or before `limit`,
/// unindented.
pub open spec fn lines_before(cs: Seq<Comment>, limit: int, n: int) -> Seq<Seq<char>>
    decreases n,
{
    if n <= 0 {
        Seq::empty()
    } else if cs[n - 1].range.end <= limit {
        lines_before(cs, limit, n - 1) + comment_lines(cs[n - 1].text@, Seq::empty())
    } else {
        lines_before(cs, limit, n - 1)
    }
}

/// The lines of the first `n` comments that start at or after `limit`,
/// unindented.
pub open spec fn lines_after(cs: Seq<Comment>, limit: int, n: int) -> Seq<Seq<char>>
    decreases n,
{
    if n <= 0 {
        Seq::empty()
    } else if cs[n - 1].range.start >= limit {
        lines_after(cs, limit, n - 1) + comment_lines(cs[n - 1].text@, Seq::empty())
    } else {
        lines_after(cs, limit, n - 1)
    }
}

/// `ls` without its trailing blank lines.
pub open spec fn drop_blank_tail(ls: Seq<Seq<char>>) -> Seq<Seq<char>>
    decreases ls.len(),
{
    if ls.len() > 0 && trim(ls.last()).len() == 0 {
        drop_blank_tail(ls.drop_last())
    } else {
        ls
    }
}

/// `ls` joined by line breaks.
pub open spec fn join_lines(ls: Seq<Seq<char>>) -> Seq<char>
    decreases ls.len(),
{
    if ls.len() == 0 {
        Seq::empty()
    } else if ls.len() == 1 {
        ls[0]
    } else {
        join_lines(ls.drop_last()) + "\n"@ + ls.last()
    }
}

/// A module regenerated from its statements (root at node 0) with its
/// comments put back: those before the module, the module itself, those
/// after it; trailing blank lines dropped, each line ended by a line break.
pub open spec fn formatted(nodes: Seq<Stmt>, b: Seq<u8>, cs: Seq<Comment>, width: nat) -> Seq<char> {
    let all = lines_before(cs, nodes[0].span.start as int, cs.len() as int) + stmt_lines(nodes, b, cs, 0, 0, width)
        + lines_after(cs, nodes[0].span.end as int, cs.len() as int);
    let kept = drop_blank_tail(all);
    if kept.len() == 0 {
        Seq::empty()
    } else {
        join_lines(kept) + "\n"@
    }
}

/// The views of lines.
pub open spec fn line_views(ls: Seq<Vec<char>>) -> Seq<Seq<char>> {
    ls.map_values(|l: Vec<char>| l@)
}

/// Append the lines of a comment at indentation `indent`
/// ([`comment_lines`]).
fn emit_comment(out: &mut Vec<Vec<char>>, text: &str, indent: &[char])
    ensures
        line_views(final(out)@) == line_views(old(out)@) + comment_lines(text@, indent@),
{
    let tc = chars_of(text);
    let parts = split_chars(tc.as_slice(), '\n');
    let ghost ps = split_at_char(text@, '\n');
    proof {
        lemma_split_nonempty(text@, '\n');
    }
    let mut k: usize = 0;
    let ghost start = line_views(out@);
    while k < parts.len()
        invariant
            k <= parts@.len(),
            char_views(parts@) == ps,
            ps == split_at_char(text@, '\n'),
            ps.len() >= 1,
            line_views(out@) == start + comment_lines(text@, indent@).take(k as int),
        decreases parts@.len() - k,
    {
        let mut line: Vec<char> = Vec::new();
        if k == 0 {
            push_all(&mut line, indent);
        }
        push_all(&mut line, parts[k].as_slice());
        proof {
            assert(parts@[k as int]@ == ps[k as int]);
            assert(comment_lines(text@, indent@) == ps.update(0, indent@ + ps[0]));
            assert(comment_lines(text@, indent@).len() == ps.len());
            if k == 0 {
                assert(line@ =~= indent@ + ps[0]);
            } else {
                assert(line@ =~= ps[k as int]);
            }
            assert(line@ == comment_lines(text@, indent@)[k as int]);
        }
        let ghost prev = out@;
        out.push(line);
        proof {
            assert(line_views(out@) =~= line_views(prev).push(out@.last()@));
            assert(comment_lines(text@, indent@).take(k + 1) =~= comment_lines(text@, indent@).take(k as int).push(
                comment_lines(text@, indent@)[k as int],
            ));
            assert(line_views(out@) =~= start + comment_lines(text@, indent@).take(k + 1));
        }
        k = k + 1;
    }
    proof {
        assert(comment_lines(text@, indent@) == ps.update(0, indent@ + ps[0]));
        assert(comment_lines(text@, indent@).len() == ps.len());
        assert(comment_lines(text@, indent@).take(k as int) =~= comment_lines(text@, indent@));
    }
}

/// Splitting gives at least one piece.
proof fn lemma_split_nonempty(s: Seq<char>, c: char)
    ensures
        split_at_char(s, c).len() >= 1,
    decreases s.len(),
{
    match first_of(s, c) {
        Some(i) => {
            lemma_first_of_some(s, c);
        },
        None => {},
    }
}

/// Whether byte `x` lies in the span of one of statements `kids`
/// ([`in_child`]).
fn in_any_child(tree: &StmtTree, kids: &Vec<usize>, x: usize) -> (r: bool)
    ensures
        r == in_child(tree.nodes@, kids@, x as int),
{
    let mut k: usize = 0;
    while k < kids.len()
        invariant
            k <= kids@.len(),
            forall|j: int| 0 <= j < k ==> !(kids@[j] < tree.nodes@.len() && holds(tree.nodes@[kids@[j] as int].span, x as int)),
        decreases kids@.len() - k,
    {
        let c = kids[k];
        if c < tree.nodes.len() && holds_byte(&tree.nodes[c].span, x) {
            return true;
        }
        k = k + 1;
    }
    false
}

/// The positions of the comments that belong to statement `i` directly
/// ([`direct_comments`]).
fn direct_indices(tree: &StmtTree, comments: &[Comment], i: usize) -> (r: Vec<usize>)
    requires
        i < tree.nodes@.len(),
    ensures
        r@.map_values(|x: usize| x as int) == direct_comments(tree.nodes@, comments@, i as int),
        forall|k: int| 0 <= k < r@.len() ==> r@[k] < comments@.len(),
{
    let mut out: Vec<usize> = Vec::new();
    let s = &tree.nodes[i];
    let mut n: usize = 0;
    while n < comments.len()
        invariant
            n <= comments@.len(),
            i < tree.nodes@.len(),
            *s == tree.nodes@[i as int],
            out@.map_values(|x: usize| x as int) == direct_of(tree.nodes@, comments@, i as int, n as int),
            forall|k: int| 0 <= k < out@.len() ==> out@[k] < n,
        decreases comments@.len() - n,
    {
        let c = &comments[n];
        let direct = match &s.end {
            Some(StmtEnd::Braces { open, close }) => open.end <= c.range.start && c.range.start < close.start
                && !in_any_child(tree, &s.children, c.range.start),
            _ => false,
        };
        proof {
            assert(direct == is_direct(tree.nodes@, i as int, comments@[n as int]));
        }
        if direct {
            out.push(n);
            proof {
                assert(out@.map_values(|x: usize| x as int) =~= direct_of(tree.nodes@, comments@, i as int, n as int).push(
                    n as int,
                ));
            }
        }
        n = n + 1;
    }
    out
}

/// The text of span `r` of `text`, or nothing ([`raw_text`]).
fn raw_of(text: &str, r: &Range<usize>) -> (t: Vec<char>)
    ensures
        t@ == raw_text(text.spec_bytes(), *r),
{
    match str_get(text, r.start, r.end) {
        Some(t) => {
            proof {
                vstd::utf8::encode_utf8_decode_utf8(t@);
            }
            chars_of(t)
        },
        None => Vec::new(),
    }
}

/// The first line of a statement ([`head_text`]).
fn head_of(text: &str, s: &Stmt, indent: &[char]) -> (h: Vec<char>)
    ensures
        h@ == head_text(text.spec_bytes(), *s, indent@),
{
    let mut h: Vec<char> = Vec::new();
    push_all(&mut h, indent);
    match &s.keyword {
        Some(r) => {
            let kw = raw_of(text, r);
            push_all(&mut h, kw.as_slice());
        },
        None => {},
    }
    match &s.arg {
        Some(a) => {
            let raw = raw_of(text, &a.range);
            if raw.len() > 0 {
                h.push(' ');
                push_all(&mut h, raw.as_slice());
            }
        },
        None => {},
    }
    proof {
        reveal_strlit(" ");
        let b = text.spec_bytes();
        let kw = match &s.keyword {
            Some(r) => raw_text(b, *r),
            None => Seq::<char>::empty(),
        };
        let arg = match &s.arg {
            Some(a) => if raw_text(b, a.range).len() == 0 {
                Seq::<char>::empty()
            } else {
                " "@ + raw_text(b, a.range)
            },
            None => Seq::<char>::empty(),
        };
        assert(h@ =~= indent@ + kw + arg);
    }
    h
}

/// `a` followed by the characters of `b`.
fn line_with(a: &Vec<char>, b: &str) -> (r: Vec<char>)
    ensures
        r@ == a@ + b@,
{
    let mut r: Vec<char> = Vec::new();
    push_all(&mut r, a.as_slice());
    push_str(&mut r, b);
    r
}

/// Where child `c` starts ([`child_start`]).
fn start_of_child(tree: &StmtTree, c: usize) -> (r: usize)
    ensures
        r as int == child_start(tree.nodes@, c),
{
    if c < tree.nodes.len() {
        tree.nodes[c].span.start
    } else {
        0
    }
}

/// Append the lines of statement `i` at depth `depth` ([`stmt_lines`]).
fn gen_stmt(out: &mut Vec<Vec<char>>, tree: &StmtTree, text: &str, comments: &[Comment], i: usize, depth: usize, width: u32)
    requires
        i < tree.nodes@.len(),
        depth <= i,
        tree.nodes@.len() * width <= usize::MAX,
    ensures
        line_views(final(out)@) == line_views(old(out)@) + stmt_lines(
            tree.nodes@,
            text.spec_bytes(),
            comments@,
            i as int,
            depth as nat,
            width as nat,
        ),
    decreases tree.nodes@.len() - i,
{
    let ghost nodes = tree.nodes@;
    let ghost b = text.spec_bytes();
    let ghost cs = comments@;
    proof {
        assert(depth * width <= nodes.len() * width) by (nonlinear_arith)
            requires
                depth <= nodes.len(),
        ;
        assert((depth + 1) * width <= nodes.len() * width) by (nonlinear_arith)
            requires
                depth + 1 <= nodes.len(),
        ;
    }
    let n = tree.nodes.len();
    assert(depth < n);
    let s = &tree.nodes[i];
    let ind = chars_of(indent_of(depth, width).as_str());
    let h = head_of(text, s, ind.as_slice());
    let is_block = match &s.end {
        Some(StmtEnd::Braces { .. }) => true,
        _ => false,
    };
    if !is_block {
        out.push(line_with(&h, ";"));
        proof {
            assert(line_views(out@) =~= line_views(old(out)@) + stmt_lines(nodes, b, cs, i as int, depth as nat, width as nat));
        }
        return;
    }
    let direct = direct_indices(tree, comments, i);
    let ghost d = direct_comments(nodes, cs, i as int);
    let kids = &s.children;
    if kids.len() == 0 && direct.len() == 0 {
        out.push(line_with(&h, " { }"));
        proof {
            assert(line_views(out@) =~= line_views(old(out)@) + stmt_lines(nodes, b, cs, i as int, depth as nat, width as nat));
        }
        return;
    }
    out.push(line_with(&h, " {"));
    proof {
        assert(line_views(out@) =~= line_views(old(out)@) + seq![h@ + " {"@]);
    }
    let inner = chars_of(indent_of(depth + 1, width).as_str());
    let ghost first = line_views(out@);
    let mut ci: usize = 0;
    let mut ki: usize = 0;
    while ci < direct.len() || ki < kids.len()
        invariant
            nodes == tree.nodes@,
            b == text.spec_bytes(),
            cs == comments@,
            i < nodes.len(),
            depth <= i,
            nodes.len() * width <= usize::MAX,
            kids@ == nodes[i as int].children@,
            direct@.map_values(|x: usize| x as int) == d,
            d == direct_comments(nodes, cs, i as int),
            forall|k: int| 0 <= k < direct@.len() ==> direct@[k] < cs.len(),
            inner@ == indent_text((depth + 1) as nat, width as nat),
            ci <= direct@.len(),
            ki <= kids@.len(),
            line_views(out@) + body_lines(nodes, b, cs, i as int, depth as nat, width as nat, ci as int, ki as int)
                == first + body_lines(nodes, b, cs, i as int, depth as nat, width as nat, 0, 0),
        decreases direct@.len() - ci + kids@.len() - ki,
    {
        let ghost before = line_views(out@);
        let ghost rest = body_lines(nodes, b, cs, i as int, depth as nat, width as nat, ci as int, ki as int);
        let comment_first = ci < direct.len() && ki < kids.len() && comments[direct[ci]].range.start < start_of_child(
            tree,
            kids[ki],
        );
        proof {
            if ci < direct@.len() {
                assert(d[ci as int] == direct@[ci as int] as int);
            }
        }
        if comment_first {
            emit_comment(out, comments[direct[ci]].text.as_str(), inner.as_slice());
            ci = ci + 1;
        } else if ki < kids.len() {
            let c = kids[ki];
            if i < c && c < tree.nodes.len() {
                gen_stmt(out, tree, text, comments, c, depth + 1, width);
            }
            ki = ki + 1;
        } else {
            emit_comment(out, comments[direct[ci]].text.as_str(), inner.as_slice());
            ci = ci + 1;
        }
        proof {
            assert(line_views(out@) + body_lines(nodes, b, cs, i as int, depth as nat, width as nat, ci as int, ki as int)
                =~= before + rest);
        }
    }
    let ind2 = chars_of(indent_of(depth, width).as_str());
    out.push(line_with(&ind2, "}"));
    proof {
        assert(ci == direct@.len() && ki == kids@.len());
        assert(body_lines(nodes, b, cs, i as int, depth as nat, width as nat, ci as int, ki as int) =~= Seq::<Seq<char>>::empty());
        assert(line_views(out@) =~= first + body_lines(nodes, b, cs, i as int, depth as nat, width as nat, 0, 0) + seq![ind2@ + "}"@]);
        assert(ind2@ == indent_text(depth as nat, width as nat));
        assert(line_views(out@) =~= line_views(old(out)@) + stmt_lines(nodes, b, cs, i as int, depth as nat, width as nat));
    }
}

/// The formatted text of a YANG module: its statements `tree` regenerated
/// at `width` spaces per level from the source `text`, its comments put
/// back ([`formatted`]); nothing when there is no module.
pub fn handle(tree: Option<&StmtTree>, text: &str, comments: &[Comment], width: u32) -> (r: Option<String>)
    requires
        tree matches Some(t) ==> t.nodes@.len() * width <= usize::MAX,
    ensures
        r is None <==> (tree is None || tree.unwrap().nodes@.len() == 0),
        r matches Some(s) ==> s@ == formatted(tree.unwrap().nodes@, text.spec_bytes(), comments@, width as nat),
{
    let tree = match tree {
        Some(t) => t,
        None => {
            return None;
        },
    };
    if tree.nodes.len() == 0 {
        return None;
    }
    let ghost nodes = tree.nodes@;
    let ghost b = text.spec_bytes();
    let ghost cs = comments@;
    let root_start = tree.nodes[0].span.start;
    let root_end = tree.nodes[0].span.end;
    let mut out: Vec<Vec<char>> = Vec::new();
    let empty: Vec<char> = Vec::new();
    let mut n: usize = 0;
    proof {
        assert(line_views(out@) =~= Seq::<Seq<char>>::empty());
    }
    while n < comments.len()
        invariant
            n <= cs.len(),
            cs == comments@,
            empty@ == Seq::<char>::empty(),
            line_views(out@) == lines_before(cs, root_start as int, n as int),
        decreases cs.len() - n,
    {
        if comments[n].range.end <= root_start {
            emit_comment(&mut out, comments[n].text.as_str(), empty.as_slice());
        }
        n = n + 1;
    }
    gen_stmt(&mut out, tree, text, comments, 0, 0, width);
    let ghost mid = line_views(out@);
    let mut n: usize = 0;
    proof {
        assert(line_views(out@) =~= mid + lines_after(cs, root_end as int, 0));
    }
    while n < comments.len()
        invariant
            n <= cs.len(),
            cs == comments@,
            empty@ == Seq::<char>::empty(),
            line_views(out@) == mid + lines_after(cs, root_end as int, n as int),
        decreases cs.len() - n,
    {
        let ghost before = line_views(out@);
        if comments[n].range.start >= root_end {
            emit_comment(&mut out, comments[n].text.as_str(), empty.as_slice());
            proof {
                assert(line_views(out@) =~= mid + lines_after(cs, root_end as int, n + 1));
            }
        }
        n = n + 1;
    }
    let ghost all = line_views(out@);
    proof {
        assert(all == lines_before(cs, nodes[0].span.start as int, cs.len() as int) + stmt_lines(nodes, b, cs, 0, 0, width as nat)
            + lines_after(cs, nodes[0].span.end as int, cs.len() as int));
    }
    let mut m = out.len();
    proof {
        assert(all.take(m as int) =~= all);
    }
    while m > 0 && trimmed(out[m - 1].as_slice()).len() == 0
        invariant
            m <= out@.len(),
            all == line_views(out@),
            drop_blank_tail(all) == drop_blank_tail(all.take(m as int)),
        decreases m,
    {
        proof {
            assert(all.take(m as int).drop_last() =~= all.take(m - 1));
            assert(all.take(m as int).last() == out@[m - 1]@);
        }
        m = m - 1;
    }
    proof {
        if m > 0 {
            assert(all.take(m as int).last() == out@[m - 1]@);
        }
        assert(drop_blank_tail(all.take(m as int)) == all.take(m as int));
    }
    let mut res: Vec<char> = Vec::new();
    let mut k: usize = 0;
    proof {
        reveal_strlit("\n");
    }
    while k < m
        invariant
            k <= m <= out@.len(),
            all == line_views(out@),
            k > 0 ==> res@ == join_lines(all.take(k as int)),
            k == 0 ==> res@ == Seq::<char>::empty(),
        decreases m - k,
    {
        let ghost prev = res@;
        if k > 0 {
            res.push('\n');
        }
        push_all(&mut res, out[k].as_slice());
        proof {
            reveal_strlit("\n");
            assert(all.take(k + 1).drop_last() =~= all.take(k as int));
            assert(all.take(k + 1).last() == out@[k as int]@);
            if k == 0 {
                assert(res@ =~= join_lines(all.take(1)));
            } else {
                assert(res@ =~= join_lines(all.take(k + 1)));
            }
        }
        k = k + 1;
    }
    if m > 0 {
        res.push('\n');
    }
    proof {
        reveal_strlit("\n");
        if m > 0 {
            assert(res@ =~= join_lines(all.take(m as int)) + "\n"@);
        }
        assert(res@ =~= formatted(nodes, b, cs, width as nat));
    }
    Some(string_of(res.as_slice()))
}


/// The lines of one item of statement `i`'s body: its direct comment number
/// `p` (when `it.0`), or its child number `p`, one level deeper than `i`.
pub open spec fn body_item_lines(
    nodes: Seq<Stmt>,
    b: Seq<u8>,
    cs: Seq<Comment>,
    i: int,
    depth: nat,
    width: nat,
    it: (bool, int),
) -> Seq<Seq<char>> {
    let d = direct_comments(nodes, cs, i);
    let kids = nodes[i].children@;
    if it.0 {
        comment_lines(cs[d[it.1]].text@, indent_text(depth + 1, width))
    } else {
        let c = kids[it.1] as int;
        if i < c < nodes.len() {
            stmt_lines(nodes, b, cs, c, depth + 1, width)
        } else {
            Seq::empty()
        }
    }
}

/// The lines of the body items `order`, one after another.
pub open spec fn body_items_lines(
    nodes: Seq<Stmt>,
    b: Seq<u8>,
    cs: Seq<Comment>,
    i: int,
    depth: nat,
    width: nat,
    order: Seq<(bool, int)>,
) -> Seq<Seq<char>>
    decreases order.len(),
{
    if order.len() == 0 {
        Seq::empty()
    } else {
        body_item_lines(nodes, b, cs, i, depth, width, order[0]) + body_items_lines(
            nodes,
            b,
            cs,
            i,
            depth,
            width,
            order.drop_first(),
        )
    }
}

/// `order` lists the comments `ci..nc` and the children `ki..nk` of a body,
/// each once, the comments in their order and the children in theirs.
pub open spec fn interleaves(order: Seq<(bool, int)>, ci: int, ki: int, nc: int, nk: int) -> bool
    decreases order.len(),
{
    if order.len() == 0 {
        ci == nc && ki == nk
    } else if order[0].0 {
        order[0].1 == ci && ci < nc && interleaves(order.drop_first(), ci + 1, ki, nc, nk)
    } else {
        order[0].1 == ki && ki < nk && interleaves(order.drop_first(), ci, ki + 1, nc, nk)
    }
}

/// In `order`, a direct comment of statement `i` comes before a child
/// exactly when it starts before the child does in the source.
pub open spec fn in_source_order(nodes: Seq<Stmt>, cs: Seq<Comment>, i: int, order: Seq<(bool, int)>) -> bool {
    let d = direct_comments(nodes, cs, i);
    let kids = nodes[i].children@;
    forall|x: int, y: int|
        0 <= x < order.len() && 0 <= y < order.len() && #[trigger] order[x].0 && !#[trigger] order[y].0 ==> (x < y
            <==> cs[d[order[x].1]].range.start < child_start(nodes, kids[order[y].1]))
}

proof fn lemma_interleaves_has(order: Seq<(bool, int)>, ci: int, ki: int, nc: int, nk: int, comment: bool)
    requires
        interleaves(order, ci, ki, nc, nk),
    ensures
        ci <= nc && ki <= nk,
        comment && ci < nc ==> exists|x: int| 0 <= x < order.len() && order[x] == (true, ci),
        !comment && ki < nk ==> exists|x: int| 0 <= x < order.len() && order[x] == (false, ki),
    decreases order.len(),
{
    if order.len() > 0 {
        let rest = order.drop_first();
        if order[0].0 {
            lemma_interleaves_has(rest, ci + 1, ki, nc, nk, comment);
            if !comment && ki < nk {
                let x = choose|x: int| 0 <= x < rest.len() && rest[x] == (false, ki);
                assert(order[x + 1] == rest[x]);
            }
        } else {
            lemma_interleaves_has(rest, ci, ki + 1, nc, nk, comment);
            if comment && ci < nc {
                let x = choose|x: int| 0 <= x < rest.len() && rest[x] == (true, ci);
                assert(order[x + 1] == rest[x]);
            }
        }
    }
}

proof fn lemma_body_follows_order(
    nodes: Seq<Stmt>,
    b: Seq<u8>,
    cs: Seq<Comment>,
    i: int,
    depth: nat,
    width: nat,
    order: Seq<(bool, int)>,
    ci: int,
    ki: int,
)
    requires
        0 <= i < nodes.len(),
        0 <= ci,
        0 <= ki,
        interleaves(order, ci, ki, direct_comments(nodes, cs, i).len() as int, nodes[i].children@.len() as int),
        in_source_order(nodes, cs, i, order),
    ensures
        body_lines(nodes, b, cs, i, depth, width, ci, ki) == body_items_lines(nodes, b, cs, i, depth, width, order),
    decreases order.len(),
{
    let d = direct_comments(nodes, cs, i);
    let kids = nodes[i].children@;
    let nc = d.len() as int;
    let nk = kids.len() as int;
    lemma_interleaves_has(order, ci, ki, nc, nk, true);
    if order.len() > 0 {
        let rest = order.drop_first();
        assert(in_source_order(nodes, cs, i, rest)) by {
            assert forall|x: int, y: int|
                0 <= x < rest.len() && 0 <= y < rest.len() && #[trigger] rest[x].0 && !#[trigger] rest[y].0 implies (x < y
                    <==> cs[d[rest[x].1]].range.start < child_start(nodes, kids[rest[y].1])) by {
                assert(rest[x] == order[x + 1]);
                assert(rest[y] == order[y + 1]);
                assert(order[x + 1].0 && !order[y + 1].0);
            }
        }
        if order[0].0 {
            if ki < nk {
                lemma_interleaves_has(order, ci, ki, nc, nk, false);
                let y = choose|y: int| 0 <= y < order.len() && order[y] == (false, ki);
                assert(order[0].0 && !order[y].0);
                assert(cs[d[ci]].range.start < child_start(nodes, kids[ki]));
            }
            lemma_body_follows_order(nodes, b, cs, i, depth, width, rest, ci + 1, ki);
            assert(body_items_lines(nodes, b, cs, i, depth, width, order) == body_item_lines(nodes, b, cs, i, depth, width, order[0])
                + body_items_lines(nodes, b, cs, i, depth, width, rest));
        } else {
            if ci < nc {
                lemma_interleaves_has(order, ci, ki, nc, nk, true);
                let x = choose|x: int| 0 <= x < order.len() && order[x] == (true, ci);
                assert(order[x].0 && !order[0].0);
                assert(!(cs[d[ci]].range.start < child_start(nodes, kids[ki])));
            }
            lemma_body_follows_order(nodes, b, cs, i, depth, width, rest, ci, ki + 1);
            assert(body_items_lines(nodes, b, cs, i, depth, width, order) == body_item_lines(nodes, b, cs, i, depth, width, order[0])
                + body_items_lines(nodes, b, cs, i, depth, width, rest));
        }
    }
}

/// A block's body keeps the source order of its direct comments and its
/// children: whenever the comments and children can be listed so that a
/// comment comes before a child exactly when it starts before it in the
/// source, the body is their lines in that order (a comment that starts
/// after a child is printed after it).
pub proof fn law_body_keeps_source_order(
    nodes: Seq<Stmt>,
    b: Seq<u8>,
    cs: Seq<Comment>,
    i: int,
    depth: nat,
    width: nat,
    order: Seq<(bool, int)>,
)
    requires
        0 <= i < nodes.len(),
        interleaves(order, 0, 0, direct_comments(nodes, cs, i).len() as int, nodes[i].children@.len() as int),
        in_source_order(nodes, cs, i, order),
    ensures
        body_lines(nodes, b, cs, i, depth, width, 0, 0) == body_items_lines(nodes, b, cs, i, depth, width, order),
{
    lemma_body_follows_order(nodes, b, cs, i, depth, width, order, 0, 0);
}

} // verus!
