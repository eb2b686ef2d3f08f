//! Semantic tokens of a YANG module.
//!
//! Two passes give the classified spans: a structural one over the
//! statements (each keyword, and each argument that is one name, reference
//! or literal as a whole) and a lexical one over the grammar's tokens
//! (comments and booleans anywhere, other literals only inside the
//! arguments the first pass left open). The spans are sorted by position,
//! overlaps dropped, and each is cut at line ends and delta-encoded as LSP
//! expects.

use std::ops::Range;
use vstd::prelude::*;
use crate::text::{chars_of, find_char, is_digit, is_ws, split_once, trim, trimmed};
use crate::num::all_digits;
use crate::stmt::{Stmt, StmtKind, StmtTree};
use vstd::string::StringSliceAdditionalSpecFns;
use crate::text::{slice_chars, str_get};

verus! {

broadcast use vstd::slice::group_slice_axioms;

/// Some region of `regions` contains `range`.
pub open spec fn inside_any(range: (int, int), regions: Seq<(int, int)>) -> bool {
    exists|k: int| 0 <= k < regions.len() && range.0 >= (#[trigger] regions[k]).0 && range.1 <= regions[k].1
}

/// The view of a sequence of ranges.
pub open spec fn spans(rs: Seq<Range<usize>>) -> Seq<(int, int)> {
    rs.map_values(|r: Range<usize>| (r.start as int, r.end as int))
}

/// Whether some region contains `range` ([`inside_any`]).
pub fn inside(range: &Range<usize>, regions: &[Range<usize>]) -> (r: bool)
    ensures
        r == inside_any((range.start as int, range.end as int), spans(regions@)),
{
    let mut k: usize = 0;
    while k < regions.len()
        invariant
            k <= regions@.len(),
            forall|j: int| 0 <= j < k ==> !(range.start >= (#[trigger] regions@[j]).start && range.end <= regions@[j].end),
        decreases regions@.len() - k,
    {
        if range.start >= regions[k].start && range.end <= regions[k].end {
            proof {
                assert(spans(regions@)[k as int] == (regions@[k as int].start as int, regions@[k as int].end as int));
            }
            return true;
        }
        k = k + 1;
    }
    proof {
        assert forall|j: int| 0 <= j < spans(regions@).len() implies !((range.start as int) >= (#[trigger] spans(regions@)[j]).0
            && (range.end as int) <= spans(regions@)[j].1) by {
            assert(spans(regions@)[j] == (regions@[j].start as int, regions@[j].end as int));
        }
    }
    false
}

/// A non-empty run of ASCII digits.
pub open spec fn digit_word(x: Seq<char>) -> bool {
    x.len() > 0 && all_digits(x)
}

/// `raw` (the source text of a statement argument) is one unquoted signed
/// number literal: an optional sign, digits, and an optional `.` with
/// digits.
pub open spec fn bare_number(raw: Seq<char>) -> bool {
    let t = trim(raw);
    if t.len() == 0 || t[0] == '"' || t[0] == '\'' {
        false
    } else {
        let u = if t[0] == '+' || t[0] == '-' {
            t.skip(1)
        } else {
            t
        };
        match split_once(u, '.') {
            Some((a, b)) => digit_word(a) && digit_word(b),
            None => digit_word(u),
        }
    }
}

/// Whether `cs` is a non-empty run of ASCII digits ([`digit_word`]).
fn is_digit_word(cs: &[char]) -> (r: bool)
    ensures
        r == digit_word(cs@),
{
    if cs.len() == 0 {
        return false;
    }
    let mut k: usize = 0;
    while k < cs.len()
        invariant
            k <= cs@.len(),
            forall|j: int| 0 <= j < k ==> is_digit(#[trigger] cs@[j]),
        decreases cs@.len() - k,
    {
        if !('0' <= cs[k] && cs[k] <= '9') {
            proof {
                assert(!is_digit(cs@[k as int]));
            }
            return false;
        }
        k = k + 1;
    }
    true
}

/// Whether `raw` is one bare number literal ([`bare_number`]).
pub fn is_bare_number(raw: &str) -> (r: bool)
    ensures
        r == bare_number(raw@),
{
    let rc = chars_of(raw);
    let t = trimmed(rc.as_slice());
    if t.len() == 0 || t[0] == '"' || t[0] == '\'' {
        return false;
    }
    let start: usize = if t[0] == '+' || t[0] == '-' {
        1
    } else {
        0
    };
    let u = crate::text::sub_chars(t.as_slice(), start, t.len());
    proof {
        assert(u@ =~= (if t@[0] == '+' || t@[0] == '-' {
            t@.skip(1)
        } else {
            t@
        }));
    }
    match find_char(u.as_slice(), '.') {
        Some(i) => {
            let a = crate::text::sub_chars(u.as_slice(), 0, i);
            let b = crate::text::sub_chars(u.as_slice(), i + 1, u.len());
            is_digit_word(a.as_slice()) && is_digit_word(b.as_slice())
        },
        None => is_digit_word(u.as_slice()),
    }
}

/// `raw` is a single unquoted word: not empty, no quotes, no inner
/// whitespace.
pub open spec fn unquoted_word(raw: Seq<char>) -> bool {
    let t = trim(raw);
    &&& t.len() > 0
    &&& t[0] != '"' && t[0] != '\''
    &&& forall|i: int| 0 <= i < t.len() ==> !is_ws(#[trigger] t[i])
}

/// Whether `raw` is a single unquoted word ([`unquoted_word`]).
#[verifier::loop_isolation(false)]
pub fn is_unquoted_word(raw: &str) -> (r: bool)
    ensures
        r == unquoted_word(raw@),
{
    let rc = chars_of(raw);
    let t = trimmed(rc.as_slice());
    if t.len() == 0 || t[0] == '"' || t[0] == '\'' {
        return false;
    }
    let mut k: usize = 0;
    while k < t.len()
        invariant
            k <= t@.len(),
            forall|j: int| 0 <= j < k ==> !is_ws(#[trigger] t@[j]),
        decreases t@.len() - k,
    {
        if crate::text::char_is_ws(t[k]) {
            proof {
                assert(is_ws(t@[k as int]));
            }
            return false;
        }
        k = k + 1;
    }
    true
}

/// The token classes, in the order of the legend the server announces.
#[derive(Clone, Copy, Debug, PartialEq, Eq, Structural)]
pub enum Class {
    Keyword,
    Namespace,
    Type,
    Variable,
    String,
    Number,
    Comment,
    Operator,
}

/// A class's index in the legend.
pub open spec fn class_index(c: Class) -> u32 {
    match c {
        Class::Keyword => 0,
        Class::Namespace => 1,
        Class::Type => 2,
        Class::Variable => 3,
        Class::String => 4,
        Class::Number => 5,
        Class::Comment => 6,
        Class::Operator => 7,
    }
}

impl Class {
    /// The class's index in the legend ([`class_index`]).
    pub fn index(&self) -> (r: u32)
        ensures
            r == class_index(*self),
    {
        match self {
            Class::Keyword => 0,
            Class::Namespace => 1,
            Class::Type => 2,
            Class::Variable => 3,
            Class::String => 4,
            Class::Number => 5,
            Class::Comment => 6,
            Class::Operator => 7,
        }
    }
}

/// The modifier bit of a constant value (the legend's `readonly`).
pub const MOD_CONST: u32 = 1;

/// How a statement's argument is colored.
#[derive(Clone, Copy, Debug, PartialEq, Eq, Structural)]
pub enum ArgSemantics {
    /// One token over the whole argument.
    Atomic(Class),
    /// The literals inside the argument get tokens of their own.
    Composite,
}

/// How the argument of a statement of kind `k` is colored: module and
/// prefix names as namespaces; type, grouping and identity references as
/// types; `deviate` verbs as keywords; dates, ranges, lengths, keys,
/// uniques and augment targets as strings; the names of data nodes and
/// definitions as variables; anything else by its literals.
pub open spec fn arg_class(k: StmtKind) -> ArgSemantics {
    match k {
        StmtKind::Module | StmtKind::Submodule | StmtKind::Import | StmtKind::Include | StmtKind::BelongsTo
        | StmtKind::Prefix => ArgSemantics::Atomic(Class::Namespace),
        StmtKind::Type | StmtKind::Uses | StmtKind::Base | StmtKind::Refine => ArgSemantics::Atomic(Class::Type),
        StmtKind::DeviateAdd | StmtKind::DeviateDelete | StmtKind::DeviateReplace
        | StmtKind::DeviateNotSupported => ArgSemantics::Atomic(Class::Keyword),
        StmtKind::Revision | StmtKind::RevisionDate | StmtKind::Range | StmtKind::Length | StmtKind::Key
        | StmtKind::Unique | StmtKind::Augment => ArgSemantics::Atomic(Class::String),
        StmtKind::Container | StmtKind::Leaf | StmtKind::LeafList | StmtKind::List | StmtKind::Choice
        | StmtKind::Case | StmtKind::Anyxml | StmtKind::Anydata | StmtKind::Rpc | StmtKind::Action
        | StmtKind::Notification | StmtKind::Grouping | StmtKind::Typedef | StmtKind::Identity
        | StmtKind::Feature | StmtKind::Extension | StmtKind::Bit | StmtKind::Enum => ArgSemantics::Atomic(
            Class::Variable,
        ),
        _ => ArgSemantics::Composite,
    }
}

/// How the argument of a statement of kind `kind` is colored
/// ([`arg_class`]).
pub fn arg_semantics(kind: &StmtKind) -> (r: ArgSemantics)
    ensures
        r == arg_class(*kind),
{
    match kind {
        StmtKind::Module | StmtKind::Submodule | StmtKind::Import | StmtKind::Include | StmtKind::BelongsTo
        | StmtKind::Prefix => ArgSemantics::Atomic(Class::Namespace),
        StmtKind::Type | StmtKind::Uses | StmtKind::Base | StmtKind::Refine => ArgSemantics::Atomic(Class::Type),
        StmtKind::DeviateAdd | StmtKind::DeviateDelete | StmtKind::DeviateReplace
        | StmtKind::DeviateNotSupported => ArgSemantics::Atomic(Class::Keyword),
        StmtKind::Revision | StmtKind::RevisionDate | StmtKind::Range | StmtKind::Length | StmtKind::Key
        | StmtKind::Unique | StmtKind::Augment => ArgSemantics::Atomic(Class::String),
        StmtKind::Container | StmtKind::Leaf | StmtKind::LeafList | StmtKind::List | StmtKind::Choice
        | StmtKind::Case | StmtKind::Anyxml | StmtKind::Anydata | StmtKind::Rpc | StmtKind::Action
        | StmtKind::Notification | StmtKind::Grouping | StmtKind::Typedef | StmtKind::Identity
        | StmtKind::Feature | StmtKind::Extension | StmtKind::Bit | StmtKind::Enum => ArgSemantics::Atomic(
            Class::Variable,
        ),
        _ => ArgSemantics::Composite,
    }
}

/// How a composite argument whose source text is `raw` is colored as a
/// whole, when it is: a bare number as a number; one unquoted word under
/// an extension, `if-feature`, `default`, `argument` or `namespace` as a
/// variable, under `units` as a constant variable; otherwise by its
/// literals (`None`).
pub open spec fn whole_arg_class(k: StmtKind, raw: Seq<char>) -> Option<(Class, u32)> {
    if bare_number(raw) {
        Some((Class::Number, 0))
    } else if !unquoted_word(raw) {
        None
    } else {
        match k {
            StmtKind::Unknown(_) | StmtKind::IfFeature | StmtKind::Default | StmtKind::Argument
            | StmtKind::Namespace => Some((Class::Variable, 0)),
            StmtKind::Units => Some((Class::Variable, MOD_CONST)),
            _ => None,
        }
    }
}

/// How a composite argument is colored as a whole ([`whole_arg_class`]).
pub fn whole_arg(kind: &StmtKind, raw: &str) -> (r: Option<(Class, u32)>)
    ensures
        r == whole_arg_class(*kind, raw@),
{
    if is_bare_number(raw) {
        return Some((Class::Number, 0));
    }
    if !is_unquoted_word(raw) {
        return None;
    }
    match kind {
        StmtKind::Unknown(_) | StmtKind::IfFeature | StmtKind::Default | StmtKind::Argument
        | StmtKind::Namespace => Some((Class::Variable, 0)),
        StmtKind::Units => Some((Class::Variable, MOD_CONST)),
        _ => None,
    }
}

/// The lines of a text, as its editor buffer counts them: the byte offset
/// where each line starts (the first at 0), and the text's length in
/// bytes. A line runs from its start to the next line's start, its line
/// break included; the last runs to the end of the text.
pub struct Lines {
    pub starts: Vec<usize>,
    pub len: usize,
}

impl Lines {
    /// At least one line, the first at 0, the starts increasing and within
    /// the text, and few enough lines that an index fits in a `u32`.
    pub open spec fn wf(&self) -> bool {
        &&& self.starts@.len() >= 1
        &&& self.starts@.len() <= u32::MAX
        &&& self.starts@[0] == 0
        &&& forall|i: int, j: int| 0 <= i < j < self.starts@.len() ==> self.starts@[i] < self.starts@[j]
        &&& forall|i: int| 0 <= i < self.starts@.len() ==> self.starts@[i] <= self.len
    }
}

/// The length of the line break that starts at byte `i` of `b`, 0 where
/// none does: `\r\n` counts as one break; `\n`, vertical tab, form feed,
/// `\r`, next line (U+0085), line separator (U+2028) and paragraph
/// separator (U+2029) are breaks too.
pub open spec fn break_len(b: Seq<u8>, i: int) -> int {
    if i + 1 < b.len() && b[i] == 0x0Du8 && b[i + 1] == 0x0Au8 {
        2
    } else if b[i] == 0x0Au8 || b[i] == 0x0Bu8 || b[i] == 0x0Cu8 || b[i] == 0x0Du8 {
        1
    } else if i + 1 < b.len() && b[i] == 0xC2u8 && b[i + 1] == 0x85u8 {
        2
    } else if i + 2 < b.len() && b[i] == 0xE2u8 && b[i + 1] == 0x80u8 && (b[i + 2] == 0xA8u8 || b[i + 2] == 0xA9u8) {
        3
    } else {
        0
    }
}

/// The starts of the lines after the line breaks found reading `b` from
/// byte `i` on: the position just after each break.
pub open spec fn starts_after(b: Seq<u8>, i: int) -> Seq<int>
    decreases b.len() - i,
{
    if i < 0 || i >= b.len() {
        Seq::empty()
    } else if break_len(b, i) > 0 {
        seq![i + break_len(b, i)] + starts_after(b, i + break_len(b, i))
    } else {
        starts_after(b, i + 1)
    }
}

/// Where the lines of the text with bytes `b` start: at 0, and just after
/// each line break.
pub open spec fn line_starts(b: Seq<u8>) -> Seq<int> {
    seq![0int] + starts_after(b, 0)
}

impl Lines {
    /// The lines of `text` ([`line_starts`]); `None` when there are more
    /// of them than a `u32` line index can count.
    pub fn of_text(text: &str) -> (r: Option<Lines>)
        ensures
            match r {
                Some(l) => l.wf() && l.len == text.spec_bytes().len()
                    && l.starts@.map_values(|x: usize| x as int) == line_starts(text.spec_bytes()),
                None => line_starts(text.spec_bytes()).len() > u32::MAX,
            },
    {
        let b = text.as_bytes();
        let ghost bs = b@;
        let n = b.len();
        let mut starts: Vec<usize> = Vec::new();
        starts.push(0);
        let mut i: usize = 0;
        proof {
            assert(starts@.map_values(|x: usize| x as int) + starts_after(bs, 0) =~= line_starts(bs));
        }
        while i < n
            invariant
                bs == b@,
                bs == text.spec_bytes(),
                n == bs.len(),
                i <= n,
                1 <= starts@.len() <= u32::MAX,
                starts@[0] == 0,
                forall|a: int, c: int| 0 <= a < c < starts@.len() ==> starts@[a] < starts@[c],
                forall|a: int| 0 <= a < starts@.len() ==> starts@[a] <= i,
                starts@.map_values(|x: usize| x as int) + starts_after(bs, i as int) == line_starts(bs),
            decreases n - i,
        {
            let k: usize = if i + 1 < n && b[i] == 0x0D && b[i + 1] == 0x0A {
                2
            } else if b[i] == 0x0A || b[i] == 0x0B || b[i] == 0x0C || b[i] == 0x0D {
                1
            } else if i + 1 < n && b[i] == 0xC2 && b[i + 1] == 0x85 {
                2
            } else if n - i > 2 && b[i] == 0xE2 && b[i + 1] == 0x80 && (b[i + 2] == 0xA8 || b[i + 2] == 0xA9) {
                3
            } else {
                0
            };
            assert(k == break_len(bs, i as int));
            if k > 0 {
                if starts.len() >= 0xFFFF_FFFFusize {
                    proof {
                        assert(line_starts(bs).len() == starts@.len() + starts_after(bs, i as int).len());
                    }
                    return None;
                }
                let ghost before = starts@;
                i = i + k;
                starts.push(i);
                proof {
                    assert(starts@.map_values(|x: usize| x as int) =~= before.map_values(|x: usize| x as int).push(i as int));
                    assert(starts@.map_values(|x: usize| x as int) + starts_after(bs, i as int)
                        =~= before.map_values(|x: usize| x as int) + starts_after(bs, i - k));
                }
            } else {
                i = i + 1;
            }
        }
        proof {
            assert(starts_after(bs, i as int) =~= Seq::<int>::empty());
            assert(starts@.map_values(|x: usize| x as int) =~= line_starts(bs));
        }
        Some(Lines { starts, len: n })
    }
}

/// Where line `i` ends: the next line's start, or the end of the text.
pub open spec fn line_end(starts: Seq<usize>, len: int, i: int) -> int {
    if i + 1 < starts.len() {
        starts[i + 1] as int
    } else {
        len
    }
}

/// Where the text of a line from `ls` to `le` ends, its line break left
/// out: `\r\n`, a `\n`, vertical tab, form feed or `\r`, a next-line
/// (U+0085), or a line or paragraph separator (U+2028, U+2029).
pub open spec fn content_end(b: Seq<u8>, ls: int, le: int) -> int {
    if !(0 <= ls <= le <= b.len()) {
        le
    } else if le - ls >= 2 && b[le - 2] == 0x0Du8 && b[le - 1] == 0x0Au8 {
        le - 2
    } else if le - ls >= 1 && (b[le - 1] == 0x0Au8 || b[le - 1] == 0x0Bu8 || b[le - 1] == 0x0Cu8 || b[le - 1]
        == 0x0Du8) {
        le - 1
    } else if le - ls >= 2 && b[le - 2] == 0xC2u8 && b[le - 1] == 0x85u8 {
        le - 2
    } else if le - ls >= 3 && b[le - 3] == 0xE2u8 && b[le - 2] == 0x80u8 && (b[le - 1] == 0xA8u8 || b[le - 1]
        == 0xA9u8) {
        le - 3
    } else {
        le
    }
}

/// Where the text of a line from `ls` to `le` ends ([`content_end`]).
pub fn content_end_of(text: &str, ls: usize, le: usize) -> (r: usize)
    ensures
        r as int == content_end(text.spec_bytes(), ls as int, le as int),
{
    let b = text.as_bytes();
    if !(ls <= le && le <= b.len()) {
        return le;
    }
    if le - ls >= 2 && b[le - 2] == 0x0D && b[le - 1] == 0x0A {
        le - 2
    } else if le - ls >= 1 && (b[le - 1] == 0x0A || b[le - 1] == 0x0B || b[le - 1] == 0x0C || b[le - 1] == 0x0D) {
        le - 1
    } else if le - ls >= 2 && b[le - 2] == 0xC2 && b[le - 1] == 0x85 {
        le - 2
    } else if le - ls >= 3 && b[le - 3] == 0xE2 && b[le - 2] == 0x80 && (b[le - 1] == 0xA8 || b[le - 1] == 0xA9) {
        le - 3
    } else {
        le
    }
}

/// The line that holds byte `b`: the last of the first `n` lines that
/// starts at or before it (the first line when none does).
pub open spec fn line_of(starts: Seq<usize>, b: int, n: int) -> int
    decreases n,
{
    if n <= 1 {
        0
    } else if starts[n - 1] <= b {
        n - 1
    } else {
        line_of(starts, b, n - 1)
    }
}

/// The UTF-16 code units of a character.
pub open spec fn utf16_width(c: char) -> nat {
    if (c as u32) >= 0x10000 {
        2
    } else {
        1
    }
}

/// The UTF-16 code units of a text.
pub open spec fn utf16_count(cs: Seq<char>) -> nat
    decreases cs.len(),
{
    if cs.len() == 0 {
        0
    } else {
        utf16_count(cs.drop_last()) + utf16_width(cs.last())
    }
}

/// The UTF-16 length of bytes `s..e` of `b` (modulo 2^32), or 0 when they
/// are no text of their own.
pub open spec fn utf16_span(b: Seq<u8>, s: int, e: int) -> u32 {
    match slice_chars(b, s, e) {
        Some(cs) => (utf16_count(cs) % 0x1_0000_0000) as u32,
        None => 0,
    }
}

/// An absolute token: line, UTF-16 column, UTF-16 length, class index and
/// modifier bits.
pub type AbsToken = (u32, u32, u32, u32, u32);

/// The tokens of bytes `start..end` from line `line` on: one per line the
/// span touches, each cut to its line's text (its line break left out).
pub open spec fn span_tokens(
    starts: Seq<usize>,
    len: int,
    b: Seq<u8>,
    start: int,
    end: int,
    line: int,
    ty: u32,
    mods: u32,
) -> Seq<AbsToken>
    decreases starts.len() - line,
{
    if line < 0 || line >= starts.len() {
        Seq::empty()
    } else {
        let ls = starts[line] as int;
        let ce = content_end(b, ls, line_end(starts, len, line));
        let ss = if start > ls {
            start
        } else {
            ls
        };
        let se = if end < ce {
            end
        } else {
            ce
        };
        let here = if se > ss {
            seq![(line as u32, utf16_span(b, ls, ss), utf16_span(b, ss, se), ty, mods)]
        } else {
            Seq::empty()
        };
        if end <= ce || line >= starts.len() - 1 {
            here
        } else {
            here + span_tokens(starts, len, b, starts[line + 1] as int, end, line + 1, ty, mods)
        }
    }
}

/// A classified span: class, modifier bits and byte span.
pub type Item = (Class, u32, Range<usize>);

/// The tokens of one classified span, clipped to the text; none when the
/// clipped span is empty.
pub open spec fn item_tokens(starts: Seq<usize>, len: int, b: Seq<u8>, it: Item) -> Seq<AbsToken> {
    let end = if (it.2.end as int) < len {
        it.2.end as int
    } else {
        len
    };
    let start = if (it.2.start as int) < len {
        it.2.start as int
    } else {
        len
    };
    if end <= start {
        Seq::empty()
    } else {
        let l = line_of(starts, start, starts.len() as int);
        let first = if l < starts.len() - 1 {
            l
        } else {
            starts.len() - 1
        };
        span_tokens(starts, len, b, start, end, first, class_index(it.0), it.1)
    }
}

/// The tokens of classified spans, in order.
pub open spec fn items_tokens(starts: Seq<usize>, len: int, b: Seq<u8>, items: Seq<Item>) -> Seq<AbsToken>
    decreases items.len(),
{
    if items.len() == 0 {
        Seq::empty()
    } else {
        items_tokens(starts, len, b, items.drop_last()) + item_tokens(starts, len, b, items.last())
    }
}

/// `x - y`, or 0 when `y` is larger.
pub open spec fn sat_sub(x: u32, y: u32) -> u32 {
    if x >= y {
        (x - y) as u32
    } else {
        0
    }
}

/// A token encoded relative to the one before it (line `pl`, column `pc`):
/// the lines moved and, on the same line, the columns moved, else the
/// column; then length, class index and modifiers.
pub open spec fn delta_of(pl: u32, pc: u32, t: AbsToken) -> AbsToken {
    let dl = sat_sub(t.0, pl);
    (dl, if dl > 0 {
        t.1
    } else {
        sat_sub(t.1, pc)
    }, t.2, t.3, t.4)
}

/// Absolute tokens delta-encoded, each relative to the one before it (the
/// first to line 0, column 0).
pub open spec fn delta_encode(abs: Seq<AbsToken>) -> Seq<AbsToken> {
    Seq::new(
        abs.len(),
        |i: int|
            if i == 0 {
                delta_of(0, 0, abs[0])
            } else {
                delta_of(abs[i - 1].0, abs[i - 1].1, abs[i])
            },
    )
}

/// The line of byte `b` ([`line_of`]).
pub fn line_at(lines: &Lines, b: usize) -> (r: usize)
    requires
        lines.wf(),
    ensures
        r as int == line_of(lines.starts@, b as int, lines.starts@.len() as int),
        r < lines.starts@.len(),
{
    let mut n = lines.starts.len();
    while n > 1 && lines.starts[n - 1] > b
        invariant
            1 <= n <= lines.starts@.len(),
            line_of(lines.starts@, b as int, lines.starts@.len() as int) == line_of(lines.starts@, b as int, n as int),
        decreases n,
    {
        n = n - 1;
    }
    if n <= 1 {
        0
    } else {
        n - 1
    }
}

/// The UTF-16 length of bytes `s..e` of `text` ([`utf16_span`]).
pub fn utf16_len(text: &str, s: usize, e: usize) -> (r: u32)
    ensures
        r == utf16_span(text.spec_bytes(), s as int, e as int),
{
    match str_get(text, s, e) {
        None => 0,
        Some(t) => {
            proof {
                vstd::utf8::encode_utf8_decode_utf8(t@);
                assert(slice_chars(text.spec_bytes(), s as int, e as int) == Some(t@));
            }
            let cs = crate::text::chars_of(t);
            let mut acc: u32 = 0;
            let mut k: usize = 0;
            while k < cs.len()
                invariant
                    k <= cs@.len(),
                    acc as int == utf16_count(cs@.take(k as int)) % 0x1_0000_0000,
                decreases cs@.len() - k,
            {
                let w: u32 = if (cs[k] as u32) >= 0x10000 {
                    2
                } else {
                    1
                };
                proof {
                    assert(cs@.take(k + 1).drop_last() =~= cs@.take(k as int));
                    assert(cs@.take(k + 1).last() == cs@[k as int]);
                    vstd::arithmetic::div_mod::lemma_add_mod_noop(
                        utf16_count(cs@.take(k as int)) as int,
                        w as int,
                        0x1_0000_0000,
                    );
                    vstd::arithmetic::div_mod::lemma_small_mod(w as nat, 0x1_0000_0000);
                }
                if (acc as u64) + (w as u64) >= 0x1_0000_0000 {
                    acc = ((acc as u64) + (w as u64) - 0x1_0000_0000) as u32;
                } else {
                    acc = acc + w;
                }
                proof {
                    vstd::arithmetic::div_mod::lemma_small_mod((acc as int) as nat, 0x1_0000_0000);
                }
                k = k + 1;
            }
            proof {
                assert(cs@.take(k as int) =~= cs@);
            }
            acc
        },
    }
}

/// The tokens of one classified span ([`item_tokens`]).
fn span_of_item(text: &str, lines: &Lines, class: Class, mods: u32, range: &Range<usize>) -> (r: Vec<AbsToken>)
    requires
        lines.wf(),
    ensures
        r@ == item_tokens(lines.starts@, lines.len as int, text.spec_bytes(), (class, mods, *range)),
{
    let ghost starts = lines.starts@;
    let ghost b = text.spec_bytes();
    let len = lines.len;
    let end = if range.end < len {
        range.end
    } else {
        len
    };
    let mut start = if range.start < len {
        range.start
    } else {
        len
    };
    let mut out: Vec<AbsToken> = Vec::new();
    if end <= start {
        return out;
    }
    let n = lines.starts.len();
    let l = line_at(lines, start);
    let mut line = if l < n - 1 {
        l
    } else {
        n - 1
    };
    let ty = class.index();
    let ghost target = item_tokens(starts, len as int, b, (class, mods, *range));
    proof {
        assert(out@ + span_tokens(starts, len as int, b, start as int, end as int, line as int, ty, mods) =~= target);
    }
    let mut done = false;
    while !done
        invariant
            lines.wf(),
            starts == lines.starts@,
            b == text.spec_bytes(),
            n == starts.len(),
            len == lines.len,
            line < n,
            ty == class_index(class),
            done ==> out@ == target,
            !done ==> out@ + span_tokens(starts, len as int, b, start as int, end as int, line as int, ty, mods) == target,
        decreases n - line + (if done {
            0int
        } else {
            1int
        }),
    {
        let ls = lines.starts[line];
        let le = if line + 1 < n {
            lines.starts[line + 1]
        } else {
            len
        };
        let ce = content_end_of(text, ls, le);
        let ss = if start > ls {
            start
        } else {
            ls
        };
        let se = if end < ce {
            end
        } else {
            ce
        };
        let ghost before = out@;
        let ghost rest = span_tokens(starts, len as int, b, start as int, end as int, line as int, ty, mods);
        if se > ss {
            let col = utf16_len(text, ls, ss);
            let length = utf16_len(text, ss, se);
            out.push((line as u32, col, length, ty, mods));
        }
        if end <= ce || line >= n - 1 {
            proof {
                assert(out@ =~= before + rest);
            }
            done = true;
        } else {
            proof {
                let here = if se > ss {
                    seq![(line as u32, utf16_span(b, ls as int, ss as int), utf16_span(b, ss as int, se as int), ty, mods)]
                } else {
                    Seq::empty()
                };
                assert(out@ =~= before + here);
                assert(rest == here + span_tokens(starts, len as int, b, starts[line + 1] as int, end as int, line + 1, ty, mods));
                assert(before + rest =~= out@ + span_tokens(starts, len as int, b, starts[line + 1] as int, end as int, line + 1, ty, mods));
            }
            line = line + 1;
            start = lines.starts[line];
        }
    }
    out
}

/// Delta-encode the tokens of classified spans over `text`, whose lines are
/// `lines`: each span cut at line ends, then every token relative to the
/// one before it ([`delta_encode`] of [`items_tokens`]).
pub fn encode(text: &str, lines: &Lines, items: &[Item]) -> (r: Vec<AbsToken>)
    requires
        lines.wf(),
    ensures
        r@ == delta_encode(items_tokens(lines.starts@, lines.len as int, text.spec_bytes(), items@)),
{
    let ghost starts = lines.starts@;
    let ghost b = text.spec_bytes();
    let ghost len = lines.len as int;
    let mut out: Vec<AbsToken> = Vec::new();
    let mut pl: u32 = 0;
    let mut pc: u32 = 0;
    let mut k: usize = 0;
    proof {
        assert(items@.take(0) =~= Seq::<Item>::empty());
        assert(delta_encode(Seq::<AbsToken>::empty()) =~= Seq::<AbsToken>::empty());
    }
    while k < items.len()
        invariant
            lines.wf(),
            starts == lines.starts@,
            b == text.spec_bytes(),
            len == lines.len,
            k <= items@.len(),
            out@ == delta_encode(items_tokens(starts, len, b, items@.take(k as int))),
            items_tokens(starts, len, b, items@.take(k as int)).len() == 0 ==> pl == 0 && pc == 0,
            items_tokens(starts, len, b, items@.take(k as int)).len() > 0 ==> pl == items_tokens(starts, len, b, items@.take(k as int)).last().0
                && pc == items_tokens(starts, len, b, items@.take(k as int)).last().1,
        decreases items@.len() - k,
    {
        let ghost done = items_tokens(starts, len, b, items@.take(k as int));
        let it = &items[k];
        let toks = span_of_item(text, lines, it.0, it.1, &it.2);
        proof {
            assert(items@.take(k + 1).drop_last() =~= items@.take(k as int));
            assert(items@.take(k + 1).last() == items@[k as int]);
            assert(items_tokens(starts, len, b, items@.take(k + 1)) == done + toks@);
            assert(done + toks@.take(0) =~= done);
        }
        let mut j: usize = 0;
        while j < toks.len()
            invariant
                j <= toks@.len(),
                out@ == delta_encode(done + toks@.take(j as int)),
                (done + toks@.take(j as int)).len() == 0 ==> pl == 0 && pc == 0,
                (done + toks@.take(j as int)).len() > 0 ==> pl == (done + toks@.take(j as int)).last().0
                    && pc == (done + toks@.take(j as int)).last().1,
            decreases toks@.len() - j,
        {
            let t = toks[j];
            let dl = if t.0 >= pl {
                t.0 - pl
            } else {
                0
            };
            let ds = if dl > 0 {
                t.1
            } else if t.1 >= pc {
                t.1 - pc
            } else {
                0
            };
            let ghost prev = done + toks@.take(j as int);
            out.push((dl, ds, t.2, t.3, t.4));
            proof {
                assert(done + toks@.take(j + 1) =~= prev.push(t));
                assert(out@ =~= delta_encode(prev.push(t)));
            }
            pl = t.0;
            pc = t.1;
            j = j + 1;
        }
        proof {
            assert(toks@.take(j as int) =~= toks@);
        }
        k = k + 1;
    }
    proof {
        assert(items@.take(k as int) =~= items@);
    }
    out
}

/// What the grammar made of a lexical token.
#[derive(Clone, Copy, Debug, PartialEq, Eq, Structural)]
pub enum LexKind {
    Comment,
    Keyword,
    Identifier,
    String,
    Number,
    Boolean,
    Operator,
    Other,
}

/// A lexical token of a YANG file: what it is and its byte span.
pub struct Lexeme {
    pub kind: LexKind,
    pub range: Range<usize>,
}

/// The class of a lexical token, when the lexical pass colors it:
/// comments, strings, numbers and operators as such, booleans and value
/// keywords as keywords.
pub open spec fn lex_class(k: LexKind) -> Option<Class> {
    match k {
        LexKind::Comment => Some(Class::Comment),
        LexKind::String => Some(Class::String),
        LexKind::Number => Some(Class::Number),
        LexKind::Boolean => Some(Class::Keyword),
        LexKind::Operator => Some(Class::Operator),
        LexKind::Keyword => Some(Class::Keyword),
        _ => None,
    }
}

/// The source text of a span, or nothing when it is no text of its own.
pub open spec fn raw_text(b: Seq<u8>, r: Range<usize>) -> Seq<char> {
    match slice_chars(b, r.start as int, r.end as int) {
        Some(t) => t,
        None => Seq::empty(),
    }
}

/// What the structural pass makes of statement `s`: its keyword, and its
/// argument as one token when it is colored whole, else the argument's span
/// left to the lexical pass.
pub open spec fn stmt_items(s: Stmt, b: Seq<u8>) -> (Seq<Item>, Seq<Range<usize>>) {
    let kw = match s.keyword {
        Some(k) => seq![(Class::Keyword, 0u32, k)],
        None => Seq::empty(),
    };
    match s.arg {
        None => (kw, Seq::empty()),
        Some(a) => match arg_class(s.kind) {
            ArgSemantics::Atomic(c) => (kw.push((c, 0u32, a.range)), Seq::empty()),
            ArgSemantics::Composite => match whole_arg_class(s.kind, raw_text(b, a.range)) {
                Some((c, m)) => (kw.push((c, m, a.range)), Seq::empty()),
                None => (kw, seq![a.range]),
            },
        },
    }
}

/// The structural pass over the first `n` statements, in order: the
/// tokens, and the composite argument spans.
pub open spec fn structural(nodes: Seq<Stmt>, b: Seq<u8>, n: int) -> (Seq<Item>, Seq<Range<usize>>)
    decreases n,
{
    if n <= 0 {
        (Seq::empty(), Seq::empty())
    } else {
        let prev = structural(nodes, b, n - 1);
        let here = stmt_items(nodes[n - 1], b);
        (prev.0 + here.0, prev.1 + here.1)
    }
}

/// The lexical pass over tokens `lex`: comments and booleans anywhere,
/// the other colored tokens only inside a composite argument span.
pub open spec fn lexical(lex: Seq<Lexeme>, composite: Seq<Range<usize>>) -> Seq<Item>
    decreases lex.len(),
{
    if lex.len() == 0 {
        Seq::empty()
    } else {
        let prev = lexical(lex.drop_last(), composite);
        let t = lex.last();
        match lex_class(t.kind) {
            Some(c) => if t.kind == LexKind::Comment || t.kind == LexKind::Boolean || inside_any(
                (t.range.start as int, t.range.end as int),
                spans(composite),
            ) {
                prev.push((c, 0u32, t.range))
            } else {
                prev
            },
            None => prev,
        }
    }
}

/// Span `a` sorts no later than span `b`: by start, then by end.
pub open spec fn item_le(a: Item, b: Item) -> bool {
    a.2.start < b.2.start || (a.2.start == b.2.start && a.2.end <= b.2.end)
}

/// `x` inserted into sorted `s` after every item that sorts no later.
pub open spec fn insert_item(s: Seq<Item>, x: Item) -> Seq<Item>
    decreases s.len(),
{
    if s.len() == 0 || item_le(s.last(), x) {
        s.push(x)
    } else {
        insert_item(s.drop_last(), x).push(s.last())
    }
}

/// `s` sorted by span, items with equal spans keeping their order.
pub open spec fn sort_items(s: Seq<Item>) -> Seq<Item>
    decreases s.len(),
{
    if s.len() == 0 {
        s
    } else {
        insert_item(sort_items(s.drop_last()), s.last())
    }
}

/// The items of sorted `s` that start at or after the end of the last one
/// kept (the first kept when it starts at or after `end`).
pub open spec fn keep_disjoint(s: Seq<Item>, end: int) -> Seq<Item>
    decreases s.len(),
{
    if s.len() == 0 {
        s
    } else if s[0].2.start >= end {
        seq![s[0]] + keep_disjoint(s.skip(1), s[0].2.end as int)
    } else {
        keep_disjoint(s.skip(1), end)
    }
}

/// The classified spans of a YANG file with statements `nodes`, bytes `b`
/// and lexical tokens `lex`: both passes, sorted by span, overlaps dropped.
pub open spec fn semantic_items(nodes: Seq<Stmt>, b: Seq<u8>, lex: Seq<Lexeme>) -> Seq<Item> {
    let st = structural(nodes, b, nodes.len() as int);
    keep_disjoint(sort_items(st.0 + lexical(lex, st.1)), 0)
}

/// A copy of a span.
fn copy_range(r: &Range<usize>) -> (c: Range<usize>)
    ensures
        c == *r,
{
    Range { start: r.start, end: r.end }
}

/// The structural pass ([`structural`]).
fn structural_pass(tree: &StmtTree, text: &str) -> (r: (Vec<Item>, Vec<Range<usize>>))
    ensures
        (r.0@, r.1@) == structural(tree.nodes@, text.spec_bytes(), tree.nodes@.len() as int),
{
    let ghost nodes = tree.nodes@;
    let ghost b = text.spec_bytes();
    let mut items: Vec<Item> = Vec::new();
    let mut composite: Vec<Range<usize>> = Vec::new();
    let mut i: usize = 0;
    while i < tree.nodes.len()
        invariant
            nodes == tree.nodes@,
            b == text.spec_bytes(),
            i <= nodes.len(),
            (items@, composite@) == structural(nodes, b, i as int),
        decreases nodes.len() - i,
    {
        let s = &tree.nodes[i];
        let ghost here = stmt_items(*s, b);
        let ghost i0 = items@;
        let ghost c0 = composite@;
        match &s.keyword {
            Some(k) => items.push((Class::Keyword, 0, copy_range(k))),
            None => {},
        }
        match &s.arg {
            None => {},
            Some(a) => match arg_semantics(&s.kind) {
                ArgSemantics::Atomic(c) => items.push((c, 0, copy_range(&a.range))),
                ArgSemantics::Composite => {
                    let raw: &str = match str_get(text, a.range.start, a.range.end) {
                        Some(t) => {
                            proof {
                                vstd::utf8::encode_utf8_decode_utf8(t@);
                                assert(slice_chars(b, a.range.start as int, a.range.end as int) == Some(t@));
                            }
                            t
                        },
                        None => {
                            proof {
                                reveal_strlit("");
                            }
                            ""
                        },
                    };
                    assert(raw@ == raw_text(b, a.range));
                    match whole_arg(&s.kind, raw) {
                        Some((c, m)) => items.push((c, m, copy_range(&a.range))),
                        None => composite.push(copy_range(&a.range)),
                    }
                },
            },
        }
        proof {
            assert(items@ =~= i0 + here.0);
            assert(composite@ =~= c0 + here.1);
        }
        i = i + 1;
    }
    (items, composite)
}

/// The lexical pass ([`lexical`]).
fn lexical_pass(lex: &[Lexeme], composite: &[Range<usize>]) -> (r: Vec<Item>)
    ensures
        r@ == lexical(lex@, composite@),
{
    let mut items: Vec<Item> = Vec::new();
    let mut k: usize = 0;
    proof {
        assert(lex@.take(0) =~= Seq::<Lexeme>::empty());
    }
    while k < lex.len()
        invariant
            k <= lex@.len(),
            items@ == lexical(lex@.take(k as int), composite@),
        decreases lex@.len() - k,
    {
        let t = &lex[k];
        proof {
            assert(lex@.take(k + 1).drop_last() =~= lex@.take(k as int));
            assert(lex@.take(k + 1).last() == lex@[k as int]);
        }
        let class: Option<Class> = match t.kind {
            LexKind::Comment => Some(Class::Comment),
            LexKind::String => Some(Class::String),
            LexKind::Number => Some(Class::Number),
            LexKind::Boolean => Some(Class::Keyword),
            LexKind::Operator => Some(Class::Operator),
            LexKind::Keyword => Some(Class::Keyword),
            _ => None,
        };
        match class {
            Some(c) => {
                let standalone = match t.kind {
                    LexKind::Comment | LexKind::Boolean => true,
                    _ => false,
                };
                if standalone || inside(&t.range, composite) {
                    items.push((c, 0, copy_range(&t.range)));
                }
            },
            None => {},
        }
        k = k + 1;
    }
    proof {
        assert(lex@.take(k as int) =~= lex@);
    }
    items
}

/// Whether `a` sorts no later than `b` ([`item_le`]).
fn sorts_before(a: &Item, b: &Item) -> (r: bool)
    ensures
        r == item_le(*a, *b),
{
    a.2.start < b.2.start || (a.2.start == b.2.start && a.2.end <= b.2.end)
}

/// Inserting after the last item that sorts no later is [`insert_item`].
proof fn lemma_insert_at(s: Seq<Item>, x: Item, p: int)
    requires
        0 <= p <= s.len(),
        p == 0 || item_le(s[p - 1], x),
        forall|j: int| p <= j < s.len() ==> !item_le(#[trigger] s[j], x),
    ensures
        insert_item(s, x) == s.take(p) + seq![x] + s.skip(p),
    decreases s.len(),
{
    if s.len() == 0 {
        assert(s.take(p) + seq![x] + s.skip(p) =~= s.push(x));
    } else if p == s.len() {
        assert(item_le(s.last(), x));
        assert(s.take(p) + seq![x] + s.skip(p) =~= s.push(x));
    } else {
        assert(!item_le(s[s.len() - 1], x));
        let d = s.drop_last();
        assert forall|j: int| p <= j < d.len() implies !item_le(#[trigger] d[j], x) by {
            assert(d[j] == s[j]);
        }
        if p > 0 {
            assert(d[p - 1] == s[p - 1]);
        }
        lemma_insert_at(d, x, p);
        assert((d.take(p) + seq![x] + d.skip(p)).push(s.last()) =~= s.take(p) + seq![x] + s.skip(p));
    }
}

/// Sort spans, keeping the order of equal ones ([`sort_items`]).
fn sort_spans(items: Vec<Item>) -> (r: Vec<Item>)
    ensures
        r@ == sort_items(items@),
{
    let mut out: Vec<Item> = Vec::new();
    let mut k: usize = 0;
    proof {
        assert(items@.take(0) =~= Seq::<Item>::empty());
    }
    while k < items.len()
        invariant
            k <= items@.len(),
            out@ == sort_items(items@.take(k as int)),
        decreases items@.len() - k,
    {
        let x = (items[k].0, items[k].1, copy_range(&items[k].2));
        proof {
            assert(items@.take(k + 1).drop_last() =~= items@.take(k as int));
            assert(items@.take(k + 1).last() == items@[k as int]);
        }
        let mut p = out.len();
        while p > 0 && !sorts_before(&out[p - 1], &x)
            invariant
                p <= out@.len(),
                forall|j: int| p <= j < out@.len() ==> !item_le(#[trigger] out@[j], x),
            decreases p,
        {
            p = p - 1;
        }
        proof {
            lemma_insert_at(out@, x, p as int);
        }
        out.insert(p, x);
        proof {
            assert(out@ =~= sort_items(items@.take(k + 1)));
        }
        k = k + 1;
    }
    proof {
        assert(items@.take(k as int) =~= items@);
    }
    out
}

/// Keep the spans that start at or after the end of the last one kept
/// ([`keep_disjoint`]).
fn drop_overlaps(sorted: Vec<Item>) -> (r: Vec<Item>)
    ensures
        r@ == keep_disjoint(sorted@, 0),
{
    let mut kept: Vec<Item> = Vec::new();
    let mut end: usize = 0;
    let mut k: usize = 0;
    proof {
        assert(sorted@.skip(0) =~= sorted@);
    }
    while k < sorted.len()
        invariant
            k <= sorted@.len(),
            kept@ + keep_disjoint(sorted@.skip(k as int), end as int) == keep_disjoint(sorted@, 0),
        decreases sorted@.len() - k,
    {
        let ghost rest = sorted@.skip(k as int);
        proof {
            assert(rest[0] == sorted@[k as int]);
            assert(rest.skip(1) =~= sorted@.skip(k + 1));
        }
        if sorted[k].2.start >= end {
            let ghost before = kept@;
            end = sorted[k].2.end;
            kept.push((sorted[k].0, sorted[k].1, copy_range(&sorted[k].2)));
            proof {
                assert(kept@ =~= before + seq![rest[0]]);
            }
        }
        k = k + 1;
    }
    kept
}

/// The semantic tokens of a YANG file: its text `text`, lines `lines`,
/// statements `tree` and lexical tokens `lex`. The classified spans of
/// both passes ([`semantic_items`]) delta-encoded ([`encode`]); nothing
/// when the file has no statements.
pub fn handle(tree: Option<&StmtTree>, text: &str, lines: &Lines, lex: &[Lexeme]) -> (r: Option<Vec<AbsToken>>)
    requires
        lines.wf(),
    ensures
        tree is None ==> r is None,
        tree matches Some(t) ==> (r matches Some(v) && v@ == delta_encode(
            items_tokens(lines.starts@, lines.len as int, text.spec_bytes(), semantic_items(t.nodes@, text.spec_bytes(), lex@)),
        )),
{
    let tree = match tree {
        Some(t) => t,
        None => {
            return None;
        },
    };
    let (mut items, composite) = structural_pass(tree, text);
    let lexed = lexical_pass(lex, composite.as_slice());
    let ghost st = items@;
    let mut lx = lexed;
    items.append(&mut lx);
    let sorted = sort_spans(items);
    let kept = drop_overlaps(sorted);
    Some(encode(text, lines, kept.as_slice()))
}

/// Items in order of their spans.
pub open spec fn sorted_items(s: Seq<Item>) -> bool {
    forall|i: int, j: int| 0 <= i < j < s.len() ==> item_le(s[i], s[j])
}

/// Inserting into sorted items keeps them sorted, adds `x` and nothing
/// else.
proof fn lemma_insert_sorted(s: Seq<Item>, x: Item)
    requires
        sorted_items(s),
    ensures
        sorted_items(insert_item(s, x)),
        insert_item(s, x).len() == s.len() + 1,
        forall|k: int| 0 <= k < insert_item(s, x).len() ==> #[trigger] insert_item(s, x)[k] == x || s.contains(
            insert_item(s, x)[k],
        ),
    decreases s.len(),
{
    if s.len() == 0 || item_le(s.last(), x) {
        let r = s.push(x);
        assert(sorted_items(r)) by {
            assert forall|i: int, j: int| 0 <= i < j < r.len() implies item_le(r[i], r[j]) by {
                assert(r[i] == s[i]);
                if j < s.len() {
                    assert(r[j] == s[j]);
                } else if i < s.len() - 1 {
                    assert(item_le(s[i], s[s.len() - 1]));
                }
            }
        }
        assert forall|k: int| 0 <= k < s.push(x).len() implies #[trigger] s.push(x)[k] == x || s.contains(s.push(x)[k]) by {
            if k < s.len() {
                assert(s.push(x)[k] == s[k]);
            }
        }
    } else {
        let d = s.drop_last();
        assert(sorted_items(d)) by {
            assert forall|i: int, j: int| 0 <= i < j < d.len() implies item_le(d[i], d[j]) by {
                assert(d[i] == s[i] && d[j] == s[j]);
            }
        }
        lemma_insert_sorted(d, x);
        let t = insert_item(d, x);
        assert forall|k: int| 0 <= k < t.len() implies item_le(#[trigger] t[k], s.last()) by {
            if t[k] != x {
                let w = choose|w: int| 0 <= w < d.len() && d[w] == t[k];
                assert(s[w] == d[w]);
                assert(item_le(s[w], s[s.len() - 1]));
            }
        }
        let r = t.push(s.last());
        assert(sorted_items(r)) by {
            assert forall|i: int, j: int| 0 <= i < j < r.len() implies item_le(r[i], r[j]) by {
                if j < t.len() {
                    assert(r[i] == t[i] && r[j] == t[j]);
                } else {
                    assert(r[i] == t[i]);
                }
            }
        }
        assert forall|k: int| 0 <= k < r.len() implies #[trigger] r[k] == x || s.contains(r[k]) by {
            if k < t.len() {
                assert(r[k] == t[k]);
                if t[k] != x {
                    let w = choose|w: int| 0 <= w < d.len() && d[w] == t[k];
                    assert(s[w] == d[w]);
                }
            } else {
                assert(s[s.len() - 1] == r[k]);
            }
        }
    }
}

/// Sorting gives sorted items.
proof fn lemma_sort_sorted(s: Seq<Item>)
    ensures
        sorted_items(sort_items(s)),
    decreases s.len(),
{
    if s.len() > 0 {
        lemma_sort_sorted(s.drop_last());
        lemma_insert_sorted(sort_items(s.drop_last()), s.last());
    }
}

/// What [`keep_disjoint`] keeps of items sorted by start: items of the
/// input, none starting before `end`, each ending at or before the start of
/// every later one, in order of their starts.
proof fn lemma_keep_disjoint(s: Seq<Item>, end: int)
    requires
        forall|i: int, j: int| 0 <= i < j < s.len() ==> s[i].2.start <= s[j].2.start,
    ensures
        forall|k: int| 0 <= k < keep_disjoint(s, end).len() ==> s.contains(#[trigger] keep_disjoint(s, end)[k]),
        forall|k: int| 0 <= k < keep_disjoint(s, end).len() ==> (#[trigger] keep_disjoint(s, end)[k]).2.start >= end,
        forall|i: int, j: int|
            0 <= i < j < keep_disjoint(s, end).len() ==> (#[trigger] keep_disjoint(s, end)[i]).2.end <= (
            #[trigger] keep_disjoint(s, end)[j]).2.start && keep_disjoint(s, end)[i].2.start <= keep_disjoint(
                s,
                end,
            )[j].2.start,
    decreases s.len(),
{
    if s.len() > 0 {
        let t = s.skip(1);
        assert forall|i: int, j: int| 0 <= i < j < t.len() implies t[i].2.start <= t[j].2.start by {
            assert(t[i] == s[i + 1] && t[j] == s[j + 1]);
        }
        if s[0].2.start >= end {
            lemma_keep_disjoint(t, s[0].2.end as int);
            let r2 = keep_disjoint(t, s[0].2.end as int);
            let r = keep_disjoint(s, end);
            assert(r == seq![s[0]] + r2);
            assert forall|k: int| 0 <= k < r2.len() implies s[0].2.start <= (#[trigger] r2[k]).2.start by {
                let w = choose|w: int| 0 <= w < t.len() && t[w] == r2[k];
                assert(t[w] == s[w + 1]);
            }
            assert forall|k: int| 0 <= k < r.len() implies s.contains(#[trigger] r[k]) by {
                if k == 0 {
                    assert(s[0] == r[k]);
                } else {
                    assert(r[k] == r2[k - 1]);
                    let w = choose|w: int| 0 <= w < t.len() && t[w] == r2[k - 1];
                    assert(s[w + 1] == r[k]);
                }
            }
            assert forall|k: int| 0 <= k < r.len() implies (#[trigger] r[k]).2.start >= end by {
                if k > 0 {
                    assert(r[k] == r2[k - 1]);
                }
            }
            assert forall|i: int, j: int| 0 <= i < j < r.len() implies (#[trigger] r[i]).2.end <= (#[trigger] r[j]).2.start
                && r[i].2.start <= r[j].2.start by {
                assert(r[j] == r2[j - 1]);
                if i > 0 {
                    assert(r[i] == r2[i - 1]);
                }
            }
        } else {
            lemma_keep_disjoint(t, end);
            let r = keep_disjoint(t, end);
            assert forall|k: int| 0 <= k < r.len() implies s.contains(#[trigger] r[k]) by {
                let w = choose|w: int| 0 <= w < t.len() && t[w] == r[k];
                assert(s[w + 1] == r[k]);
            }
        }
    }
}

/// The classified spans of a file come in order and never overlap: each
/// ends at or before the start of every later one.
pub proof fn law_semantic_spans_are_sorted_and_disjoint(nodes: Seq<Stmt>, b: Seq<u8>, lex: Seq<Lexeme>)
    ensures
        forall|i: int, j: int|
            0 <= i < j < semantic_items(nodes, b, lex).len() ==> (#[trigger] semantic_items(nodes, b, lex)[i]).2.end
                <= (#[trigger] semantic_items(nodes, b, lex)[j]).2.start,
{
    let st = structural(nodes, b, nodes.len() as int);
    let sorted = sort_items(st.0 + lexical(lex, st.1));
    lemma_sort_sorted(st.0 + lexical(lex, st.1));
    assert forall|i: int, j: int| 0 <= i < j < sorted.len() implies sorted[i].2.start <= sorted[j].2.start by {
        assert(item_le(sorted[i], sorted[j]));
    }
    lemma_keep_disjoint(sorted, 0);
}

/// Absolute tokens rebuilt from their delta encoding: each relative to the
/// one rebuilt before it (the first to line 0, column 0).
pub open spec fn delta_decode(d: Seq<AbsToken>) -> Seq<AbsToken>
    decreases d.len(),
{
    if d.len() == 0 {
        d
    } else {
        let prev = delta_decode(d.drop_last());
        let pl: u32 = if prev.len() == 0 {
            0
        } else {
            prev.last().0
        };
        let pc: u32 = if prev.len() == 0 {
            0
        } else {
            prev.last().1
        };
        let t = d.last();
        prev.push(((pl + t.0) as u32, if t.0 > 0 {
            t.1
        } else {
            (pc + t.1) as u32
        }, t.2, t.3, t.4))
    }
}

/// Tokens in document order: each on a later line than the one before it,
/// or on the same line at or after its column.
pub open spec fn in_document_order(abs: Seq<AbsToken>) -> bool {
    forall|i: int|
        0 < i < abs.len() ==> abs[i - 1].0 < (#[trigger] abs[i]).0 || (abs[i - 1].0 == abs[i].0 && abs[i - 1].1 <= abs[i].1)
}

/// Decoding the delta stream gives back the absolute tokens, whenever they
/// come in document order.
pub proof fn law_delta_decoding_undoes_encoding(abs: Seq<AbsToken>)
    requires
        in_document_order(abs),
    ensures
        delta_decode(delta_encode(abs)) == abs,
    decreases abs.len(),
{
    if abs.len() > 0 {
        let d = abs.drop_last();
        assert(in_document_order(d)) by {
            assert forall|i: int| 0 < i < d.len() implies d[i - 1].0 < (#[trigger] d[i]).0 || (d[i - 1].0 == d[i].0 && d[i - 1].1
                <= d[i].1) by {
                assert(d[i - 1] == abs[i - 1] && d[i] == abs[i]);
            }
        }
        law_delta_decoding_undoes_encoding(d);
        assert(delta_encode(abs).drop_last() =~= delta_encode(d));
        if abs.len() > 1 {
            assert(abs[abs.len() - 1] == abs.last());
        }
        assert(delta_decode(delta_encode(abs)) =~= abs);
    }
}


/// Every class has its own place in the legend.
pub proof fn law_legend_places_are_distinct(c1: Class, c2: Class)
    ensures
        class_index(c1) == class_index(c2) ==> c1 == c2,
{
}

/// The structural pass colors a statement's argument by what the argument
/// is: the argument of a `type`, `uses`, `base` or `refine` statement names
/// a type, grouping, identity or node elsewhere and is one token of class
/// `Type` (legend place 2); the name a data node or a definition declares
/// is one token of class `Variable` (legend place 3); a module or prefix
/// name is one token of class `Namespace` (legend place 1); a `deviate`
/// verb is a keyword (place 0); a date, range, length, key, unique or
/// augment target is one string (place 4). Each token covers exactly the
/// argument and carries no modifier.
pub proof fn law_arguments_are_colored_by_what_they_name(s: Stmt, b: Seq<u8>)
    requires
        s.arg is Some,
    ensures
        s.kind is Type || s.kind is Uses || s.kind is Base || s.kind is Refine ==> {
            &&& stmt_items(s, b).0.last() == (Class::Type, 0u32, s.arg.unwrap().range)
            &&& class_index(stmt_items(s, b).0.last().0) == 2
            &&& stmt_items(s, b).1.len() == 0
        },
        s.kind is Container || s.kind is Leaf || s.kind is LeafList || s.kind is List || s.kind is Choice
            || s.kind is Case || s.kind is Grouping || s.kind is Typedef || s.kind is Identity
            || s.kind is Feature || s.kind is Rpc || s.kind is Notification || s.kind is Action
            || s.kind is Anyxml || s.kind is Anydata || s.kind is Extension || s.kind is Bit || s.kind is Enum ==> {
            &&& stmt_items(s, b).0.last() == (Class::Variable, 0u32, s.arg.unwrap().range)
            &&& class_index(stmt_items(s, b).0.last().0) == 3
            &&& stmt_items(s, b).1.len() == 0
        },
        s.kind is Module || s.kind is Submodule || s.kind is Import || s.kind is Include || s.kind is Prefix
            || s.kind is BelongsTo ==> {
            &&& stmt_items(s, b).0.last() == (Class::Namespace, 0u32, s.arg.unwrap().range)
            &&& class_index(stmt_items(s, b).0.last().0) == 1
            &&& stmt_items(s, b).1.len() == 0
        },
        s.kind is DeviateAdd || s.kind is DeviateDelete || s.kind is DeviateReplace || s.kind is DeviateNotSupported ==> {
            &&& stmt_items(s, b).0.last() == (Class::Keyword, 0u32, s.arg.unwrap().range)
            &&& class_index(stmt_items(s, b).0.last().0) == 0
        },
        s.kind is Revision || s.kind is RevisionDate || s.kind is Range || s.kind is Length || s.kind is Key
            || s.kind is Unique || s.kind is Augment ==> {
            &&& stmt_items(s, b).0.last() == (Class::String, 0u32, s.arg.unwrap().range)
            &&& class_index(stmt_items(s, b).0.last().0) == 4
        },
{
}
} // verus!
