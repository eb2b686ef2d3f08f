//! The YANG statement tree the editor features read.
//!
//! A parsed module is an arena of statements in preorder: node 0 is the
//! module (or submodule) statement, and every statement lists the indices
//! of its children in source order. Each statement carries its kind, its
//! byte span, the span of its keyword and its argument: the argument's
//! span, its text as a bare identifier (trimmed, unquoted) and its text as
//! a path (whitespace and quotes removed).

use std::ops::Range;
use vstd::prelude::*;
use crate::json::{name_parts, split_name};
use crate::text::{chars_of, char_views, split_at_char, split_chars, str_eq};

verus! {

broadcast use vstd::slice::group_slice_axioms;

/// The kind of a YANG statement.
#[derive(Debug)]
pub enum StmtKind {
    Module,
    Submodule,
    Namespace,
    Prefix,
    YangVersion,
    Import,
    Include,
    BelongsTo,
    Revision,
    RevisionDate,
    Organization,
    Contact,
    Description,
    Reference,
    Container,
    Leaf,
    LeafList,
    List,
    Choice,
    Case,
    Anyxml,
    Anydata,
    Uses,
    Grouping,
    Typedef,
    Type,
    Identity,
    Base,
    Augment,
    UsesAugment,
    Refine,
    Deviation,
    DeviateAdd,
    DeviateDelete,
    DeviateReplace,
    DeviateNotSupported,
    Rpc,
    Action,
    Notification,
    Input,
    Output,
    Config,
    Mandatory,
    Presence,
    Default,
    MinElements,
    MaxElements,
    OrderedBy,
    Status,
    When,
    IfFeature,
    Must,
    Units,
    FractionDigits,
    Range,
    Length,
    Pattern,
    Enum,
    Bit,
    Path,
    RequireInstance,
    Value,
    Position,
    Unique,
    Key,
    Feature,
    Extension,
    Argument,
    YinElement,
    ErrorMessage,
    ErrorAppTag,
    Modifier,
    /// An extension statement (its raw head as written).
    Unknown(String),
}

/// The argument of a statement.
pub struct StmtArg {
    /// Byte span of the argument.
    pub range: Range<usize>,
    /// The argument as a bare identifier (dequoted and trimmed).
    pub name: String,
    /// The argument as a path: whitespace and quotes removed.
    pub path: String,
}

/// One statement of the tree.
pub struct Stmt {
    pub kind: StmtKind,
    /// Byte span of the whole statement (through trailing whitespace).
    pub range: Range<usize>,
    /// Byte span the statement occupies: keyword through its `;` or `}`.
    pub span: Range<usize>,
    /// Byte span of the keyword.
    pub keyword: Option<Range<usize>>,
    pub arg: Option<StmtArg>,
    /// How the statement ends: its `;`, or the braces of its block.
    pub end: Option<StmtEnd>,
    /// Indices of the child statements, in source order.
    pub children: Vec<usize>,
}

/// How a statement ends.
pub enum StmtEnd {
    /// A `;`, with its byte span.
    Semicolon(Range<usize>),
    /// A `{ … }` block, with the byte spans of its two braces.
    Braces { open: Range<usize>, close: Range<usize> },
}

/// The body of a block statement, braces excluded: from the end of `{`
/// to the start of `}`.
pub open spec fn body_of(s: Stmt) -> Option<(int, int)> {
    match s.end {
        Some(StmtEnd::Braces { open, close }) => Some((open.end as int, close.start as int)),
        _ => None,
    }
}

/// A statement tree: an arena in preorder, the root at index 0.
pub struct StmtTree {
    pub nodes: Vec<Stmt>,
}

/// Span `r` holds byte `b` (end excluded).
pub open spec fn holds(r: Range<usize>, b: int) -> bool {
    r.start <= b < r.end
}

/// Whether `r` holds `b` ([`holds`]).
pub fn holds_byte(r: &Range<usize>, b: usize) -> (res: bool)
    ensures
        res == holds(*r, b as int),
{
    r.start <= b && b < r.end
}

/// The first of the children `kids` (in range) whose span holds `b`.
pub open spec fn first_kid_at(nodes: Seq<Stmt>, kids: Seq<usize>, b: int) -> Option<int>
    decreases kids.len(),
{
    if kids.len() == 0 {
        None
    } else if kids[0] < nodes.len() && holds(nodes[kids[0] as int].range, b) {
        Some(kids[0] as int)
    } else {
        first_kid_at(nodes, kids.drop_first(), b)
    }
}

/// From statement `i`, step into the first child holding `b` while there
/// is one (children lie after their parent in the arena).
pub open spec fn descend(nodes: Seq<Stmt>, i: int, b: int) -> int
    decreases nodes.len() - i,
{
    if 0 <= i < nodes.len() {
        match first_kid_at(nodes, nodes[i].children@, b) {
            Some(c) => if i < c < nodes.len() {
                descend(nodes, c, b)
            } else {
                i
            },
            None => i,
        }
    } else {
        i
    }
}

/// The narrowest statement holding byte `b`: none when the root does not
/// hold it.
pub open spec fn narrowest(nodes: Seq<Stmt>, b: int) -> Option<int> {
    if nodes.len() > 0 && holds(nodes[0].range, b) {
        Some(descend(nodes, 0, b))
    } else {
        None
    }
}

/// A statement kind that defines a data node.
pub open spec fn is_data_kind(k: StmtKind) -> bool {
    match k {
        StmtKind::Container | StmtKind::Leaf | StmtKind::LeafList | StmtKind::List | StmtKind::Choice
        | StmtKind::Case | StmtKind::Anydata | StmtKind::Anyxml | StmtKind::Notification | StmtKind::Rpc
        | StmtKind::Action => true,
        _ => false,
    }
}

/// Whether a statement kind defines a data node ([`is_data_kind`]).
pub fn is_data_stmt(k: &StmtKind) -> (r: bool)
    ensures
        r == is_data_kind(*k),
{
    match k {
        StmtKind::Container | StmtKind::Leaf | StmtKind::LeafList | StmtKind::List | StmtKind::Choice
        | StmtKind::Case | StmtKind::Anydata | StmtKind::Anyxml | StmtKind::Notification | StmtKind::Rpc
        | StmtKind::Action => true,
        _ => false,
    }
}

/// Statement `s` has an argument named `name`.
pub open spec fn arg_named(s: Stmt, name: Seq<char>) -> bool {
    s.arg matches Some(a) && a.name@ == name
}

/// Which children a lookup by name selects.
#[derive(Clone, Copy)]
pub enum KidSel {
    /// `type` statements.
    TypeStmt,
    /// `enum` statements.
    EnumStmt,
    /// Data node statements.
    Data,
}

/// Kind `k` is one that `sel` selects.
pub open spec fn selects(sel: KidSel, k: StmtKind) -> bool {
    match sel {
        KidSel::TypeStmt => k is Type,
        KidSel::EnumStmt => k is Enum,
        KidSel::Data => is_data_kind(k),
    }
}

/// The first of the children `kids` (in range) that `sel` selects and that
/// is named `name`.
pub open spec fn first_named_kid(nodes: Seq<Stmt>, kids: Seq<usize>, sel: KidSel, name: Seq<char>) -> Option<int>
    decreases kids.len(),
{
    if kids.len() == 0 {
        None
    } else if kids[0] < nodes.len() && selects(sel, nodes[kids[0] as int].kind) && arg_named(
        nodes[kids[0] as int],
        name,
    ) {
        Some(kids[0] as int)
    } else {
        first_named_kid(nodes, kids.drop_first(), sel, name)
    }
}

/// A kind that owns an enumeration a `default` may name: `leaf`,
/// `leaf-list`, `typedef`.
pub open spec fn is_owner_kind(k: StmtKind) -> bool {
    k is Leaf || k is LeafList || k is Typedef
}

/// The last statement before index `k` that is a `leaf`, `leaf-list` or
/// `typedef` holding byte `b`.
pub open spec fn last_owner(nodes: Seq<Stmt>, b: int, k: int) -> Option<int>
    decreases k,
{
    if k <= 0 || k > nodes.len() {
        None
    } else if is_owner_kind(nodes[k - 1].kind) && holds(nodes[k - 1].range, b) {
        Some(k - 1)
    } else {
        last_owner(nodes, b, k - 1)
    }
}

/// The span of the `enum` named `name` in the `type enumeration` of
/// statement `owner`.
pub open spec fn enum_member(nodes: Seq<Stmt>, owner: int, name: Seq<char>) -> Option<Range<usize>> {
    match first_named_kid(nodes, nodes[owner].children@, KidSel::TypeStmt, "enumeration"@) {
        Some(t) => match first_named_kid(nodes, nodes[t].children@, KidSel::EnumStmt, name) {
            Some(e) => match nodes[e].arg {
                Some(a) => Some(a.range),
                None => None,
            },
            None => None,
        },
        None => None,
    }
}

/// The last statement before index `k`, other than `refine`, that is a
/// `uses` holding byte `b`.
pub open spec fn last_uses(nodes: Seq<Stmt>, refine: int, b: int, k: int) -> Option<int>
    decreases k,
{
    if k <= 0 || k > nodes.len() {
        None
    } else if nodes[k - 1].kind is Uses && k - 1 != refine && holds(nodes[k - 1].range, b) {
        Some(k - 1)
    } else {
        last_uses(nodes, refine, b, k - 1)
    }
}

/// The first statement from index `k` on that is a `grouping` named
/// `name`.
pub open spec fn first_grouping(nodes: Seq<Stmt>, name: Seq<char>, k: int) -> Option<int>
    decreases nodes.len() - k,
{
    if k < 0 || k >= nodes.len() {
        None
    } else if nodes[k].kind is Grouping && arg_named(nodes[k], name) {
        Some(k)
    } else {
        first_grouping(nodes, name, k + 1)
    }
}

/// The non-empty pieces of a sequence of strings.
pub open spec fn nonempty(ss: Seq<Seq<char>>) -> Seq<Seq<char>>
    decreases ss.len(),
{
    if ss.len() == 0 {
        Seq::empty()
    } else if ss[0].len() > 0 {
        seq![ss[0]] + nonempty(ss.drop_first())
    } else {
        nonempty(ss.drop_first())
    }
}

/// From statement `cur`, follow the data children named by `segs`.
pub open spec fn walk(nodes: Seq<Stmt>, cur: int, segs: Seq<Seq<char>>) -> Option<int>
    decreases segs.len(),
{
    if segs.len() == 0 {
        Some(cur)
    } else {
        match first_named_kid(nodes, nodes[cur].children@, KidSel::Data, segs[0]) {
            Some(n) => walk(nodes, n, segs.drop_first()),
            None => None,
        }
    }
}

/// The byte a `refine` looks up its `uses` at: the last byte of its
/// argument (its first when empty).
pub open spec fn refine_probe(a: StmtArg) -> int {
    let last = if a.range.end >= 1 {
        a.range.end - 1
    } else {
        0
    };
    if a.range.start >= last {
        a.range.start as int
    } else {
        last as int
    }
}

/// What a `refine` (or `uses`-`augment`) statement `r` points into: the
/// module prefix of its `uses`'s grouping, and the span of the node its
/// path names in that grouping when it is defined in this tree (the node's
/// argument, else the whole node). `None` when no `uses` with an argument
/// encloses it.
pub open spec fn refine_target(nodes: Seq<Stmt>, r: int) -> Option<(Option<Seq<char>>, Option<Range<usize>>)> {
    match nodes[r].arg {
        None => None,
        Some(a) => match last_uses(nodes, r, refine_probe(a), nodes.len() as int) {
            None => None,
            Some(u) => match nodes[u].arg {
                None => None,
                Some(ua) => {
                    let (prefix, gname) = name_parts(ua.name@);
                    let target = match first_grouping(nodes, gname, 0) {
                        None => None,
                        Some(g) => match walk(nodes, g, nonempty(split_at_char(a.name@, '/'))) {
                            None => None,
                            Some(t) => Some(
                                match nodes[t].arg {
                                    Some(ta) => ta.range,
                                    None => nodes[t].range,
                                },
                            ),
                        },
                    };
                    Some((prefix, target))
                },
            },
        },
    }
}

impl StmtTree {
    /// The first child among `kids` whose span holds `b` ([`first_kid_at`]).
    fn kid_at(&self, kids: &Vec<usize>, b: usize) -> (r: Option<usize>)
        ensures
            match r {
                Some(c) => first_kid_at(self.nodes@, kids@, b as int) == Some(c as int),
                None => first_kid_at(self.nodes@, kids@, b as int) is None,
            },
    {
        let mut k: usize = 0;
        proof {
            assert(kids@.skip(0) =~= kids@);
        }
        while k < kids.len()
            invariant
                k <= kids@.len(),
                first_kid_at(self.nodes@, kids@, b as int) == first_kid_at(self.nodes@, kids@.skip(k as int), b as int),
            decreases kids@.len() - k,
        {
            let c = kids[k];
            proof {
                assert(kids@.skip(k as int)[0] == c);
                assert(kids@.skip(k as int).drop_first() =~= kids@.skip(k + 1));
            }
            if c < self.nodes.len() && holds_byte(&self.nodes[c].range, b) {
                return Some(c);
            }
            k = k + 1;
        }
        None
    }

    /// The narrowest statement holding byte `b` ([`narrowest`]).
    pub fn narrowest_at(&self, b: usize) -> (r: Option<usize>)
        ensures
            match r {
                Some(i) => narrowest(self.nodes@, b as int) == Some(i as int),
                None => narrowest(self.nodes@, b as int) is None,
            },
    {
        let n = self.nodes.len();
        if n == 0 || !holds_byte(&self.nodes[0].range, b) {
            return None;
        }
        let mut best: usize = 0;
        loop
            invariant
                n == self.nodes@.len(),
                best < n,
                descend(self.nodes@, best as int, b as int) == descend(self.nodes@, 0, b as int),
            ensures
                best < n,
                descend(self.nodes@, 0, b as int) == best as int,
            decreases n - best,
        {
            match self.kid_at(&self.nodes[best].children, b) {
                Some(c) => {
                    if best < c && c < n {
                        best = c;
                    } else {
                        break;
                    }
                },
                None => {
                    break;
                },
            }
        }
        Some(best)
    }

    /// The first child among `kids` that `sel` selects and that is named
    /// `name` ([`first_named_kid`]).
    fn named_kid(&self, kids: &Vec<usize>, sel: KidSel, name: &str) -> (r: Option<usize>)
        ensures
            match r {
                Some(c) => first_named_kid(self.nodes@, kids@, sel, name@) == Some(c as int),
                None => first_named_kid(self.nodes@, kids@, sel, name@) is None,
            },
    {
        let mut k: usize = 0;
        proof {
            assert(kids@.skip(0) =~= kids@);
        }
        while k < kids.len()
            invariant
                k <= kids@.len(),
                first_named_kid(self.nodes@, kids@, sel, name@) == first_named_kid(
                    self.nodes@,
                    kids@.skip(k as int),
                    sel,
                    name@,
                ),
            decreases kids@.len() - k,
        {
            let c = kids[k];
            proof {
                assert(kids@.skip(k as int)[0] == c);
                assert(kids@.skip(k as int).drop_first() =~= kids@.skip(k + 1));
            }
            if c < self.nodes.len() {
                let s = &self.nodes[c];
                let sel_ok = match sel {
                    KidSel::TypeStmt => match s.kind {
                        StmtKind::Type => true,
                        _ => false,
                    },
                    KidSel::EnumStmt => match s.kind {
                        StmtKind::Enum => true,
                        _ => false,
                    },
                    KidSel::Data => is_data_stmt(&s.kind),
                };
                let named = match &s.arg {
                    Some(a) => str_eq(a.name.as_str(), name),
                    None => false,
                };
                if sel_ok && named {
                    return Some(c);
                }
            }
            k = k + 1;
        }
        None
    }

    /// The last `leaf`, `leaf-list` or `typedef` holding byte `b`
    /// ([`last_owner`]).
    pub fn owner_data_node(&self, b: usize) -> (r: Option<usize>)
        ensures
            match r {
                Some(i) => last_owner(self.nodes@, b as int, self.nodes@.len() as int) == Some(i as int),
                None => last_owner(self.nodes@, b as int, self.nodes@.len() as int) is None,
            },
    {
        let mut k: usize = self.nodes.len();
        while k > 0
            invariant
                k <= self.nodes@.len(),
                last_owner(self.nodes@, b as int, self.nodes@.len() as int) == last_owner(self.nodes@, b as int, k as int),
            decreases k,
        {
            let s = &self.nodes[k - 1];
            let owner = match s.kind {
                StmtKind::Leaf | StmtKind::LeafList | StmtKind::Typedef => true,
                _ => false,
            };
            if owner && holds_byte(&s.range, b) {
                return Some(k - 1);
            }
            k = k - 1;
        }
        None
    }

    /// The span of the `enum` named `name` in the `type enumeration` of
    /// statement `owner` ([`enum_member`]).
    pub fn enum_member_arg(&self, owner: usize, name: &str) -> (r: Option<Range<usize>>)
        requires
            owner < self.nodes@.len(),
        ensures
            r == enum_member(self.nodes@, owner as int, name@),
    {
        let t = match self.named_kid(&self.nodes[owner].children, KidSel::TypeStmt, "enumeration") {
            Some(t) => t,
            None => {
                return None;
            },
        };
        proof {
            lemma_named_kid_range(self.nodes@, self.nodes@[owner as int].children@, KidSel::TypeStmt, "enumeration"@);
        }
        let e = match self.named_kid(&self.nodes[t].children, KidSel::EnumStmt, name) {
            Some(e) => e,
            None => {
                return None;
            },
        };
        proof {
            lemma_named_kid_range(self.nodes@, self.nodes@[t as int].children@, KidSel::EnumStmt, name@);
        }
        match &self.nodes[e].arg {
            Some(a) => Some(Range { start: a.range.start, end: a.range.end }),
            None => None,
        }
    }

    /// The last `uses` other than statement `refine` holding byte `b`
    /// ([`last_uses`]).
    fn uses_at(&self, refine: usize, b: usize) -> (r: Option<usize>)
        ensures
            match r {
                Some(i) => last_uses(self.nodes@, refine as int, b as int, self.nodes@.len() as int) == Some(i as int),
                None => last_uses(self.nodes@, refine as int, b as int, self.nodes@.len() as int) is None,
            },
    {
        let mut k: usize = self.nodes.len();
        while k > 0
            invariant
                k <= self.nodes@.len(),
                last_uses(self.nodes@, refine as int, b as int, self.nodes@.len() as int) == last_uses(
                    self.nodes@,
                    refine as int,
                    b as int,
                    k as int,
                ),
            decreases k,
        {
            let s = &self.nodes[k - 1];
            let is_uses = match s.kind {
                StmtKind::Uses => true,
                _ => false,
            };
            if is_uses && k - 1 != refine && holds_byte(&s.range, b) {
                return Some(k - 1);
            }
            k = k - 1;
        }
        None
    }

    /// The first `grouping` named `name` ([`first_grouping`]).
    fn grouping_named(&self, name: &str) -> (r: Option<usize>)
        ensures
            match r {
                Some(i) => first_grouping(self.nodes@, name@, 0) == Some(i as int),
                None => first_grouping(self.nodes@, name@, 0) is None,
            },
    {
        let mut k: usize = 0;
        while k < self.nodes.len()
            invariant
                k <= self.nodes@.len(),
                first_grouping(self.nodes@, name@, 0) == first_grouping(self.nodes@, name@, k as int),
            decreases self.nodes@.len() - k,
        {
            let s = &self.nodes[k];
            let is_grouping = match s.kind {
                StmtKind::Grouping => true,
                _ => false,
            };
            let named = match &s.arg {
                Some(a) => str_eq(a.name.as_str(), name),
                None => false,
            };
            if is_grouping && named {
                return Some(k);
            }
            k = k + 1;
        }
        None
    }

    /// What a `refine` (or `uses`-`augment`) statement points into
    /// ([`refine_target`]).
    pub fn refine_target_in_file(&self, r: usize) -> (res: Option<(Option<String>, Option<Range<usize>>)>)
        requires
            r < self.nodes@.len(),
        ensures
            match res {
                Some((p, t)) => refine_target(self.nodes@, r as int) == Some(
                    (
                        match p {
                            Some(s) => Some(s@),
                            None => None,
                        },
                        t,
                    ),
                ),
                None => refine_target(self.nodes@, r as int) is None,
            },
    {
        let a = match &self.nodes[r].arg {
            Some(a) => a,
            None => {
                return None;
            },
        };
        let last = if a.range.end >= 1 {
            a.range.end - 1
        } else {
            0
        };
        let probe = if a.range.start >= last {
            a.range.start
        } else {
            last
        };
        let u = match self.uses_at(r, probe) {
            Some(u) => u,
            None => {
                return None;
            },
        };
        proof {
            lemma_last_uses_range(self.nodes@, r as int, probe as int, self.nodes@.len() as int);
        }
        let ua = match &self.nodes[u].arg {
            Some(ua) => ua,
            None => {
                return None;
            },
        };
        let (prefix, gname) = split_name(ua.name.as_str());
        let target = match self.grouping_named(gname.as_str()) {
            None => None,
            Some(g) => {
                proof {
                    lemma_first_grouping_range(self.nodes@, gname@, 0);
                }
                let cs = chars_of(a.name.as_str());
                let parts = split_chars(cs.as_slice(), '/');
                let mut cur = g;
                let mut k: usize = 0;
                let ghost all = nonempty(split_at_char(a.name@, '/'));
                let ghost pv = char_views(parts@);
                let mut ok = true;
                proof {
                    assert(pv == split_at_char(a.name@, '/'));
                    assert(pv.skip(0) =~= pv);
                }
                while k < parts.len()
                    invariant
                        k <= parts@.len(),
                        pv == char_views(parts@),
                        cur < self.nodes@.len(),
                        ok ==> walk(self.nodes@, g as int, all) == walk(self.nodes@, cur as int, nonempty(pv.skip(k as int))),
                        !ok ==> walk(self.nodes@, g as int, all) is None,
                        all == nonempty(pv),
                    decreases parts@.len() - k,
                {
                    if ok {
                        let seg = &parts[k];
                        proof {
                            assert(pv.skip(k as int)[0] == seg@);
                            assert(pv.skip(k as int).drop_first() =~= pv.skip(k + 1));
                        }
                        if seg.len() > 0 {
                            let sv = crate::text::string_of(seg.as_slice());
                            match self.named_kid(&self.nodes[cur].children, KidSel::Data, sv.as_str()) {
                                Some(nx) => {
                                    proof {
                                        lemma_named_kid_range(self.nodes@, self.nodes@[cur as int].children@, KidSel::Data, seg@);
                                        assert(nonempty(pv.skip(k as int)) == seq![seg@] + nonempty(pv.skip(k + 1)));
                                        assert((seq![seg@] + nonempty(pv.skip(k + 1))).drop_first() =~= nonempty(pv.skip(k + 1)));
                                    }
                                    cur = nx;
                                },
                                None => {
                                    proof {
                                        assert(nonempty(pv.skip(k as int)) == seq![seg@] + nonempty(pv.skip(k + 1)));
                                    }
                                    ok = false;
                                },
                            }
                        }
                    }
                    k = k + 1;
                }
                proof {
                    assert(pv.skip(k as int) =~= Seq::<Seq<char>>::empty());
                }
                if ok {
                    match &self.nodes[cur].arg {
                        Some(ta) => Some(Range { start: ta.range.start, end: ta.range.end }),
                        None => Some(Range { start: self.nodes[cur].range.start, end: self.nodes[cur].range.end }),
                    }
                } else {
                    None
                }
            },
        };
        Some((prefix, target))
    }
}

/// A child found by name lies in the arena.
pub proof fn lemma_named_kid_range(nodes: Seq<Stmt>, kids: Seq<usize>, sel: KidSel, name: Seq<char>)
    ensures
        first_named_kid(nodes, kids, sel, name) matches Some(c) ==> 0 <= c < nodes.len(),
    decreases kids.len(),
{
    if kids.len() > 0 {
        lemma_named_kid_range(nodes, kids.drop_first(), sel, name);
    }
}

/// A `uses` found lies in the arena.
pub proof fn lemma_last_uses_range(nodes: Seq<Stmt>, r: int, b: int, k: int)
    ensures
        last_uses(nodes, r, b, k) matches Some(u) ==> 0 <= u < nodes.len(),
    decreases k,
{
    if 0 < k <= nodes.len() {
        lemma_last_uses_range(nodes, r, b, k - 1);
    }
}

/// A `grouping` found lies in the arena.
pub proof fn lemma_first_grouping_range(nodes: Seq<Stmt>, name: Seq<char>, k: int)
    ensures
        first_grouping(nodes, name, k) matches Some(g) ==> 0 <= g < nodes.len(),
    decreases nodes.len() - k,
{
    if 0 <= k < nodes.len() {
        lemma_first_grouping_range(nodes, name, k + 1);
    }
}

/// An owner found lies in the arena.
pub proof fn lemma_last_owner_range(nodes: Seq<Stmt>, b: int, k: int)
    ensures
        last_owner(nodes, b, k) matches Some(o) ==> 0 <= o < nodes.len(),
    decreases k,
{
    if 0 < k <= nodes.len() {
        lemma_last_owner_range(nodes, b, k - 1);
    }
}

/// The narrowest statement lies in the arena.
pub proof fn lemma_narrowest_range(nodes: Seq<Stmt>, b: int)
    ensures
        narrowest(nodes, b) matches Some(i) ==> 0 <= i < nodes.len(),
{
    if nodes.len() > 0 {
        lemma_descend_range(nodes, 0, b);
    }
}

proof fn lemma_descend_range(nodes: Seq<Stmt>, i: int, b: int)
    requires
        0 <= i < nodes.len(),
    ensures
        0 <= descend(nodes, i, b) < nodes.len(),
    decreases nodes.len() - i,
{
    match first_kid_at(nodes, nodes[i].children@, b) {
        Some(c) => if i < c < nodes.len() {
            lemma_descend_range(nodes, c, b);
        },
        None => {},
    }
}

/// The first child among `kids` (in range) that is a `revision-date`.
pub open spec fn first_revision_date(nodes: Seq<Stmt>, kids: Seq<usize>) -> Option<int>
    decreases kids.len(),
{
    if kids.len() == 0 {
        None
    } else if kids[0] < nodes.len() && nodes[kids[0] as int].kind is RevisionDate {
        Some(kids[0] as int)
    } else {
        first_revision_date(nodes, kids.drop_first())
    }
}

/// A header statement that names another file's module: `import`,
/// `include`, `belongs-to`.
pub open spec fn is_header_kind(k: StmtKind) -> bool {
    k is Import || k is Include || k is BelongsTo
}

/// The dependency a header statement `c` declares: the module it names,
/// and the revision its `revision-date` pins.
pub open spec fn seed_of(nodes: Seq<Stmt>, c: int) -> Option<(Seq<char>, Option<Seq<char>>)> {
    if is_header_kind(nodes[c].kind) {
        match nodes[c].arg {
            Some(a) => Some(
                (
                    a.name@,
                    match first_revision_date(nodes, nodes[c].children@) {
                        Some(r) => match nodes[r].arg {
                            Some(ra) => Some(ra.name@),
                            None => None,
                        },
                        None => None,
                    },
                ),
            ),
            None => None,
        }
    } else {
        None
    }
}

/// The dependencies the header statements among `kids` declare, in order.
pub open spec fn seeds_of(nodes: Seq<Stmt>, kids: Seq<usize>) -> Seq<(Seq<char>, Option<Seq<char>>)>
    decreases kids.len(),
{
    if kids.len() == 0 {
        Seq::empty()
    } else {
        let rest = seeds_of(nodes, kids.drop_last());
        if kids.last() < nodes.len() {
            match seed_of(nodes, kids.last() as int) {
                Some(sd) => rest.push(sd),
                None => rest,
            }
        } else {
            rest
        }
    }
}

/// The module a file's statements belong to: a submodule's `belongs-to`
/// module, else the module's own name.
pub open spec fn scope_of(nodes: Seq<Stmt>) -> Option<Seq<char>> {
    if nodes.len() == 0 {
        None
    } else if nodes[0].kind is Submodule {
        match first_belongs_to(nodes, nodes[0].children@) {
            Some(b) => match nodes[b].arg {
                Some(a) => Some(a.name@),
                None => None,
            },
            None => None,
        }
    } else {
        match nodes[0].arg {
            Some(a) => Some(a.name@),
            None => None,
        }
    }
}

/// The first child among `kids` (in range) that is a `belongs-to`.
pub open spec fn first_belongs_to(nodes: Seq<Stmt>, kids: Seq<usize>) -> Option<int>
    decreases kids.len(),
{
    if kids.len() == 0 {
        None
    } else if kids[0] < nodes.len() && nodes[kids[0] as int].kind is BelongsTo {
        Some(kids[0] as int)
    } else {
        first_belongs_to(nodes, kids.drop_first())
    }
}

/// The view of a dependency seed.
pub open spec fn seed_view(s: (String, Option<String>)) -> (Seq<char>, Option<Seq<char>>) {
    (
        s.0@,
        match s.1 {
            Some(p) => Some(p@),
            None => None,
        },
    )
}

impl StmtTree {
    /// The first child among `kids` of the given header-related kind.
    pub(crate) fn first_kid_of(&self, kids: &Vec<usize>, belongs: bool) -> (r: Option<usize>)
        ensures
            match r {
                Some(c) => (if belongs {
                    first_belongs_to(self.nodes@, kids@)
                } else {
                    first_revision_date(self.nodes@, kids@)
                }) == Some(c as int) && c < self.nodes@.len(),
                None => (if belongs {
                    first_belongs_to(self.nodes@, kids@)
                } else {
                    first_revision_date(self.nodes@, kids@)
                }) is None,
            },
    {
        let mut k: usize = 0;
        proof {
            assert(kids@.skip(0) =~= kids@);
        }
        while k < kids.len()
            invariant
                k <= kids@.len(),
                belongs ==> first_belongs_to(self.nodes@, kids@) == first_belongs_to(self.nodes@, kids@.skip(k as int)),
                !belongs ==> first_revision_date(self.nodes@, kids@) == first_revision_date(self.nodes@, kids@.skip(k as int)),
            decreases kids@.len() - k,
        {
            let c = kids[k];
            proof {
                assert(kids@.skip(k as int)[0] == c);
                assert(kids@.skip(k as int).drop_first() =~= kids@.skip(k + 1));
            }
            if c < self.nodes.len() {
                let hit = match self.nodes[c].kind {
                    StmtKind::BelongsTo => belongs,
                    StmtKind::RevisionDate => !belongs,
                    _ => false,
                };
                if hit {
                    return Some(c);
                }
            }
            k = k + 1;
        }
        None
    }

    /// The module this file belongs to ([`scope_of`]).
    pub fn module_scope(&self) -> (r: Option<String>)
        ensures
            match r {
                Some(s) => scope_of(self.nodes@) == Some(s@),
                None => scope_of(self.nodes@) is None,
            },
    {
        if self.nodes.len() == 0 {
            return None;
        }
        let root = &self.nodes[0];
        match root.kind {
            StmtKind::Submodule => match self.first_kid_of(&root.children, true) {
                Some(b) => match &self.nodes[b].arg {
                    Some(a) => Some(a.name.clone()),
                    None => None,
                },
                None => None,
            },
            _ => match &root.arg {
                Some(a) => Some(a.name.clone()),
                None => None,
            },
        }
    }

}


/// The cross-file dependencies the root's header declares: each
/// `import`, `include` and `belongs-to` with its name and its
/// `revision-date` pin ([`seeds_of`]).
#[verifier::loop_isolation(false)]
pub fn header_seeds(root: &StmtTree) -> (r: Vec<(String, Option<String>)>)
    ensures
        root.nodes@.len() == 0 ==> r@.len() == 0,
        root.nodes@.len() > 0 ==> r@.map_values(|s: (String, Option<String>)| seed_view(s)) == seeds_of(
            root.nodes@,
            root.nodes@[0].children@,
        ),
{
    let mut out: Vec<(String, Option<String>)> = Vec::new();
    if root.nodes.len() == 0 {
        return out;
    }
    let kids = &root.nodes[0].children;
    let ghost f = |s: (String, Option<String>)| seed_view(s);
    let mut k: usize = 0;
    proof {
        assert(kids@.take(0) =~= Seq::<usize>::empty());
        assert(out@.map_values(f) =~= Seq::<(Seq<char>, Option<Seq<char>>)>::empty());
    }
    while k < kids.len()
        invariant
            k <= kids@.len(),
            kids@ == root.nodes@[0].children@,
            out@.map_values(f) == seeds_of(root.nodes@, kids@.take(k as int)),
        decreases kids@.len() - k,
    {
        let c = kids[k];
        proof {
            assert(kids@.take(k + 1).drop_last() =~= kids@.take(k as int));
            assert(kids@.take(k + 1).last() == c);
        }
        if c < root.nodes.len() {
            let st = &root.nodes[c];
            let header = match st.kind {
                StmtKind::Import | StmtKind::Include | StmtKind::BelongsTo => true,
                _ => false,
            };
            if header {
                match &st.arg {
                    Some(a) => {
                        let pin = match root.first_kid_of(&st.children, false) {
                            Some(r) => match &root.nodes[r].arg {
                                Some(ra) => Some(ra.name.clone()),
                                None => None,
                            },
                            None => None,
                        };
                        let ghost pre = out@;
                        out.push((a.name.clone(), pin));
                        proof {
                            assert(out@.map_values(f) =~= pre.map_values(f).push(f(out@.last())));
                        }
                    },
                    None => {},
                }
            }
        }
        k = k + 1;
    }
    proof {
        assert(kids@.take(k as int) =~= kids@);
    }
    out
}

} // verus!
