//! JSON (RFC 7951) instance documents: the root object's member keys and the
//! full member tree with byte ranges and per-member module qualifiers.
//!
//! Member names are `module:name` (RFC 7951 §4). Arrays of objects represent
//! list entries and keep their object elements as children.

use std::ops::Range;
use vstd::prelude::*;
use crate::text::{chars_of, find_char, split_once, str_eq, string_of, sub_string, views};
use crate::syntax::{as_ints, kind_child, child_by_field, child_of_kind, children, field_child, is_child, kids, node_string, node_text, parse_json_syntax, json_syntax, tree_view, SynNode, SynView};
use vstd::string::StringSliceAdditionalSpecFns;

verus! {

/// Top level of an RFC 7951 JSON document: its root object member keys.
pub struct JsonRoot {
    /// Top-level member names exactly as written (may be `module:name`).
    pub top_keys: Vec<String>,
}

/// A JSON object (root, nested, or a list-entry element of an array).
pub struct JsonObject {
    /// Member indices (document order).
    pub members: Vec<usize>,
    /// Byte range of the whole `{ … }`.
    pub range: Range<usize>,
}

/// A JSON object member (`"name": value`).
pub struct JsonMember {
    /// Raw key text (may be `module:local`).
    pub name: String,
    /// Module qualifier before the first `:`, when present.
    pub module: Option<String>,
    /// Local part of the name.
    pub local: String,
    /// Byte range of the key (including quotes).
    pub key_range: Range<usize>,
    /// Byte range of the value.
    pub value_range: Range<usize>,
    /// Per-element byte ranges when the value is an array of scalars (a
    /// leaf-list, or `[null]` for an `empty` leaf); `None` otherwise.
    pub scalar_items: Option<Vec<Range<usize>>>,
    /// The value's shape.
    pub val: JsonVal,
}

/// The shape of a member's value.
pub enum JsonVal {
    /// Scalar, or an array of scalars (leaf-list / `[null]` empty).
    Leaf,
    /// A nested object value.
    Object(usize),
    /// An array whose elements are objects (list entries).
    Array(Vec<usize>),
}

/// A parsed RFC 7951 document: an arena of objects and members.
pub struct JsonDoc {
    pub objects: Vec<JsonObject>,
    pub members: Vec<JsonMember>,
    pub root: usize,
}

/// Whether member `m`'s key-to-value span contains byte `b`.
pub open spec fn member_contains(m: JsonMember, b: int) -> bool {
    m.key_range.start <= b < m.value_range.end
}

/// The qualifier and local part of a member name: split at the first `:`.
pub open spec fn name_parts(name: Seq<char>) -> (Option<Seq<char>>, Seq<char>) {
    match split_once(name, ':') {
        Some((m, l)) => (Some(m), l),
        None => (None, name),
    }
}

/// Split a member name into its module qualifier and local part.
pub fn split_name(raw: &str) -> (r: (Option<String>, String))
    ensures
        (match r.0 {
            Some(m) => Some(m@),
            None => None,
        }) == name_parts(raw@).0,
        r.1@ == name_parts(raw@).1,
{
    let cs = chars_of(raw);
    let n = cs.len();
    match find_char(cs.as_slice(), ':') {
        Some(i) => {
            assert(i < n);
            (Some(sub_string(cs.as_slice(), 0, i)), sub_string(cs.as_slice(), i + 1, n))
        },
        None => (None, string_of(cs.as_slice())),
    }
}

impl JsonDoc {
    /// The member whose key-to-value span contains `byte`: among those, the
    /// one whose key starts last (the last such in document order when several
    /// keys start at the same byte).
    pub fn member_at(&self, byte: usize) -> (r: Option<usize>)
        ensures
            match r {
                Some(i) => {
                    &&& i < self.members@.len()
                    &&& member_contains(self.members@[i as int], byte as int)
                    &&& forall|j: int|
                        0 <= j < self.members@.len() && member_contains(#[trigger] self.members@[j], byte as int)
                            ==> self.members@[j].key_range.start <= self.members@[i as int].key_range.start
                    &&& forall|j: int|
                        i < j < self.members@.len() && member_contains(#[trigger] self.members@[j], byte as int)
                            ==> self.members@[j].key_range.start < self.members@[i as int].key_range.start
                },
                None => forall|j: int|
                    0 <= j < self.members@.len() ==> !member_contains(#[trigger] self.members@[j], byte as int),
            },
    {
        let mut best: Option<usize> = None;
        let mut i: usize = 0;
        while i < self.members.len()
            invariant
                i <= self.members@.len(),
                match best {
                    Some(b) => {
                        &&& b < i
                        &&& member_contains(self.members@[b as int], byte as int)
                        &&& forall|j: int|
                            0 <= j < i && member_contains(#[trigger] self.members@[j], byte as int)
                                ==> self.members@[j].key_range.start <= self.members@[b as int].key_range.start
                        &&& forall|j: int|
                            b < j < i && member_contains(#[trigger] self.members@[j], byte as int)
                                ==> self.members@[j].key_range.start < self.members@[b as int].key_range.start
                    },
                    None => forall|j: int|
                        0 <= j < i ==> !member_contains(#[trigger] self.members@[j], byte as int),
                },
            decreases self.members@.len() - i,
        {
            let m = &self.members[i];
            if m.key_range.start <= byte && byte < m.value_range.end {
                best = match best {
                    None => Some(i),
                    Some(b) => if m.key_range.start >= self.members[b].key_range.start {
                        Some(i)
                    } else {
                        Some(b)
                    },
                };
            }
            i = i + 1;
        }
        best
    }

    /// The names of the root object's members, in document order (empty when
    /// `root` names no object).
    pub fn root_keys(&self) -> (r: Vec<String>)
        requires
            self.root < self.objects@.len() ==> forall|k: int|
                0 <= k < self.objects@[self.root as int].members@.len()
                    ==> #[trigger] self.objects@[self.root as int].members@[k] < self.members@.len(),
        ensures
            self.root >= self.objects@.len() ==> r@.len() == 0,
            self.root < self.objects@.len() ==> {
                let ms = self.objects@[self.root as int].members@;
                &&& r@.len() == ms.len()
                &&& forall|k: int|
                    0 <= k < ms.len() ==> #[trigger] r@[k]@ == self.members@[ms[k] as int].name@
            },
    {
        let mut out: Vec<String> = Vec::new();
        if self.root >= self.objects.len() {
            return out;
        }
        let ms = &self.objects[self.root].members;
        let mut k: usize = 0;
        while k < ms.len()
            invariant
                self.root < self.objects@.len(),
                ms@ == self.objects@[self.root as int].members@,
                forall|q: int| 0 <= q < ms@.len() ==> #[trigger] ms@[q] < self.members@.len(),
                k <= ms@.len(),
                out@.len() == k,
                forall|q: int| 0 <= q < k ==> #[trigger] out@[q]@ == self.members@[ms@[q] as int].name@,
            decreases ms@.len() - k,
        {
            let name = self.members[ms[k]].name.clone();
            out.push(name);
            k = k + 1;
        }
        out
    }
}


/// A member key's text with one pair of surrounding `"` removed.
pub open spec fn strip_quotes(raw: Seq<char>) -> Seq<char> {
    if raw.len() >= 2 && raw[0] == '"' && raw[raw.len() - 1] == '"' {
        raw.subrange(1, raw.len() - 1)
    } else {
        raw
    }
}

/// The key node of pair `p`.
pub open spec fn pair_key(t: Seq<SynView>, p: int) -> Option<int> {
    field_child(t, p, "key"@)
}

/// The value node of pair `p`.
pub open spec fn pair_value(t: Seq<SynView>, p: int) -> Option<int> {
    field_child(t, p, "value"@)
}

/// Pair `p` has a key with readable text and a value.
pub open spec fn pair_ok(t: Seq<SynView>, b: Seq<u8>, p: int) -> bool {
    &&& pair_key(t, p) matches Some(k) && node_text(t, b, k) is Some
    &&& pair_value(t, p) is Some
}

/// The pairs among the nodes `ks` can all be read (an object value must
/// itself be readable).
pub open spec fn pairs_ok(t: Seq<SynView>, b: Seq<u8>, o: int, ks: Seq<int>) -> bool
    decreases t.len() - o, ks.len(),
{
    if ks.len() == 0 {
        true
    } else {
        let p = ks[0];
        let head_ok = if 0 <= p < t.len() && t[p].kind == "pair"@ {
            pair_ok(t, b, p) && {
                let v = pair_value(t, p).unwrap();
                t[v].kind == "object"@ ==> (o < v < t.len() && obj_ok(t, b, v))
            }
        } else {
            true
        };
        head_ok && pairs_ok(t, b, o, ks.drop_first())
    }
}

/// Object node `o` can be read: all its pairs can.
pub open spec fn obj_ok(t: Seq<SynView>, b: Seq<u8>, o: int) -> bool
    decreases t.len() - o, kids(t, o).len() + 1,
{
    pairs_ok(t, b, o, kids(t, o))
}


/// The `pair` nodes among `ks`, in order.
pub open spec fn pairs_in(t: Seq<SynView>, ks: Seq<int>) -> Seq<int>
    decreases ks.len(),
{
    if ks.len() == 0 {
        Seq::empty()
    } else if t[ks[0]].kind == "pair"@ {
        seq![ks[0]] + pairs_in(t, ks.drop_first())
    } else {
        pairs_in(t, ks.drop_first())
    }
}

/// The readable `object` nodes among `ks`, in order.
pub open spec fn ok_objs(t: Seq<SynView>, b: Seq<u8>, ks: Seq<int>) -> Seq<int>
    decreases ks.len(),
{
    if ks.len() == 0 {
        Seq::empty()
    } else if t[ks[0]].kind == "object"@ && obj_ok(t, b, ks[0]) {
        seq![ks[0]] + ok_objs(t, b, ks.drop_first())
    } else {
        ok_objs(t, b, ks.drop_first())
    }
}

/// A scalar value kind.
pub open spec fn is_scalar_kind(k: Seq<char>) -> bool {
    k == "string"@ || k == "number"@ || k == "true"@ || k == "false"@ || k == "null"@
}

/// The scalar nodes among `ks`, in order.
pub open spec fn scalars_in(t: Seq<SynView>, ks: Seq<int>) -> Seq<int>
    decreases ks.len(),
{
    if ks.len() == 0 {
        Seq::empty()
    } else if is_scalar_kind(t[ks[0]].kind) {
        seq![ks[0]] + scalars_in(t, ks.drop_first())
    } else {
        scalars_in(t, ks.drop_first())
    }
}

/// The arena positions `ks`, mapped to the syntax nodes they stand for.
pub open spec fn mapped(ks: Seq<usize>, m: Seq<int>) -> Seq<int> {
    ks.map_values(|c: usize| m[c as int])
}

/// The byte ranges of syntax nodes `ks`.
pub open spec fn ranges_of(t: Seq<SynView>, ks: Seq<int>) -> Seq<(int, int)> {
    ks.map_values(|k: int| (t[k].start, t[k].end))
}

/// The view of a list of byte ranges.
pub open spec fn ranges_view(v: Seq<Range<usize>>) -> Seq<(int, int)> {
    v.map_values(|r: Range<usize>| (r.start as int, r.end as int))
}

/// Member `mb` describes pair node `p`; object values name arena objects in
/// `[lo, hi)` through `mo`.
pub open spec fn member_matches(t: Seq<SynView>, b: Seq<u8>, mb: JsonMember, p: int, mo: Seq<int>, lo: int, hi: int) -> bool {
    &&& 0 <= p < t.len()
    &&& t[p].kind == "pair"@
    &&& pair_ok(t, b, p)
    &&& {
        let k = pair_key(t, p).unwrap();
        let v = pair_value(t, p).unwrap();
        &&& mb.name@ == strip_quotes(node_text(t, b, k).unwrap())
        &&& (match mb.module {
            Some(m) => Some(m@),
            None => None,
        }) == name_parts(mb.name@).0
        &&& mb.local@ == name_parts(mb.name@).1
        &&& mb.key_range.start == t[k].start && mb.key_range.end == t[k].end
        &&& mb.value_range.start == t[v].start && mb.value_range.end == t[v].end
        &&& if t[v].kind == "object"@ {
            &&& mb.val matches JsonVal::Object(c) && lo <= c < hi && mo[c as int] == v
            &&& mb.scalar_items is None
        } else if t[v].kind == "array"@ && ok_objs(t, b, kids(t, v)).len() > 0 {
            &&& mb.val matches JsonVal::Array(list) && mapped(list@, mo) == ok_objs(t, b, kids(t, v))
                && forall|q: int| 0 <= q < list@.len() ==> lo <= #[trigger] list@[q] < hi
            &&& mb.scalar_items is None
        } else if t[v].kind == "array"@ {
            &&& mb.val is Leaf
            &&& if scalars_in(t, kids(t, v)).len() > 0 {
                mb.scalar_items matches Some(items) && ranges_view(items@) == ranges_of(t, scalars_in(t, kids(t, v)))
            } else {
                mb.scalar_items is None
            }
        } else {
            &&& mb.val is Leaf
            &&& mb.scalar_items is None
        }
    }
}

/// Object `ob` describes the readable object node `x`, and its member list
/// (given apart for the object being built) names arena members in `[mlo, mhi)`.
pub open spec fn object_matches(t: Seq<SynView>, b: Seq<u8>, ob: JsonObject, x: int) -> bool {
    &&& 0 <= x < t.len()
    &&& t[x].kind == "object"@
    &&& ob.range.start == t[x].start && ob.range.end == t[x].end
}

/// The member list of object `i`, where the list of `lo` is given apart.
pub open spec fn members_at(objs: Seq<JsonObject>, lo: int, lo_members: Seq<usize>, i: int) -> Seq<usize> {
    if i == lo {
        lo_members
    } else {
        objs[i].members@
    }
}

/// The arena regions `[olo, objs.len())` and `[mlo, mems.len())` describe the
/// object node `mo[olo]` and everything under it: each object its node, each
/// member its pair, and every object but `olo` lists exactly its pairs.
pub open spec fn json_region_ok(
    t: Seq<SynView>,
    b: Seq<u8>,
    objs: Seq<JsonObject>,
    mems: Seq<JsonMember>,
    mo: Seq<int>,
    mm: Seq<int>,
    olo: int,
    mlo: int,
    lo_members: Seq<usize>,
) -> bool {
    &&& 0 <= olo < objs.len() == mo.len()
    &&& 0 <= mlo <= mems.len() == mm.len()
    &&& forall|i: int| olo <= i < objs.len() ==> #[trigger] object_matches(t, b, objs[i], mo[i])
    &&& forall|i: int, q: int|
        olo <= i < objs.len() && 0 <= q < members_at(objs, olo, lo_members, i).len()
            ==> mlo <= #[trigger] members_at(objs, olo, lo_members, i)[q] < mems.len()
    &&& forall|i: int| olo < i < objs.len() ==> mapped(#[trigger] objs[i].members@, mm) == pairs_in(t, kids(t, mo[i])) && obj_ok(t, b, mo[i])
    &&& forall|j: int| mlo <= j < mems.len() ==> #[trigger] member_matches(t, b, mems[j], mm[j], mo, olo + 1, objs.len() as int)
}


/// Each member of a well-formed region describes its pair node.
proof fn lemma_region_member(
    t: Seq<SynView>,
    b: Seq<u8>,
    objs: Seq<JsonObject>,
    mems: Seq<JsonMember>,
    mo: Seq<int>,
    mm: Seq<int>,
    olo: int,
    mlo: int,
    lo_members: Seq<usize>,
    j: int,
)
    requires
        json_region_ok(t, b, objs, mems, mo, mm, olo, mlo, lo_members),
        mlo <= j < mems.len(),
    ensures
        member_matches(t, b, mems[j], mm[j], mo, olo + 1, objs.len() as int),
{
}

/// `member_matches` only reads the object mapping inside `[lo, hi)`.
proof fn lemma_member_frame(
    t: Seq<SynView>,
    b: Seq<u8>,
    mb: JsonMember,
    p: int,
    mo1: Seq<int>,
    mo2: Seq<int>,
    lo: int,
    hi1: int,
    hi2: int,
)
    requires
        member_matches(t, b, mb, p, mo1, lo, hi1),
        hi1 <= hi2,
        hi1 <= mo1.len(),
        hi1 <= mo2.len(),
        forall|i: int| 0 <= i < hi1 ==> mo2[i] == mo1[i],
    ensures
        member_matches(t, b, mb, p, mo2, lo, hi2),
{
    let v = pair_value(t, p).unwrap();
    reveal_strlit("array");
    reveal_strlit("object");
    assert("array"@ != "object"@) by {
        assert("array"@[0] != "object"@[0]);
    }
    if t[v].kind == "array"@ && ok_objs(t, b, kids(t, v)).len() > 0 {
        let list = mb.val->Array_0;
        assert(mapped(list@, mo2) =~= mapped(list@, mo1)) by {
            assert forall|q: int| 0 <= q < list@.len() implies mapped(list@, mo2)[q] == mapped(list@, mo1)[q] by {
                assert(lo <= list@[q] < hi1);
            }
        }
    }
}

/// A finished nested object region `[omid, ..) x [mmid, ..)` appended to the
/// region of the object being built keeps that region well formed.
proof fn lemma_json_extend(
    t: Seq<SynView>,
    b: Seq<u8>,
    objs1: Seq<JsonObject>,
    mems1: Seq<JsonMember>,
    mo1: Seq<int>,
    mm1: Seq<int>,
    objs2: Seq<JsonObject>,
    mems2: Seq<JsonMember>,
    mo2: Seq<int>,
    mm2: Seq<int>,
    olo: int,
    mlo: int,
    lm: Seq<usize>,
)
    requires
        json_region_ok(t, b, objs1, mems1, mo1, mm1, olo, mlo, lm),
        objs1.len() < objs2.len(),
        forall|i: int| 0 <= i < objs1.len() ==> objs2[i] == objs1[i],
        forall|j: int| 0 <= j < mems1.len() ==> mems2[j] == mems1[j],
        mo2.take(objs1.len() as int) == mo1,
        mm2.take(mems1.len() as int) == mm1,
        json_region_ok(t, b, objs2, mems2, mo2, mm2, objs1.len() as int, mems1.len() as int, objs2[objs1.len() as int].members@),
        mapped(objs2[objs1.len() as int].members@, mm2) == pairs_in(t, kids(t, mo2[objs1.len() as int])),
        obj_ok(t, b, mo2[objs1.len() as int]),
    ensures
        json_region_ok(t, b, objs2, mems2, mo2, mm2, olo, mlo, lm),
{
    let omid = objs1.len() as int;
    let mmid = mems1.len() as int;
    assert forall|i: int| olo <= i < objs2.len() implies #[trigger] object_matches(t, b, objs2[i], mo2[i]) by {
        if i < omid {
            assert(object_matches(t, b, objs1[i], mo1[i]));
            assert(mo2[i] == mo2.take(omid)[i]);
        }
    }
    assert forall|i: int, q: int|
        olo <= i < objs2.len() && 0 <= q < members_at(objs2, olo, lm, i).len()
            implies mlo <= #[trigger] members_at(objs2, olo, lm, i)[q] < mems2.len() by {
        if i < omid {
            assert(members_at(objs2, olo, lm, i) == members_at(objs1, olo, lm, i));
            assert(mlo <= members_at(objs1, olo, lm, i)[q] < mems1.len());
        } else {
            assert(members_at(objs2, olo, lm, i) == members_at(objs2, omid, objs2[omid].members@, i));
            assert(mmid <= members_at(objs2, omid, objs2[omid].members@, i)[q] < mems2.len());
        }
    }
    assert forall|i: int| olo < i < objs2.len() implies mapped(#[trigger] objs2[i].members@, mm2) == pairs_in(t, kids(t, mo2[i])) && obj_ok(t, b, mo2[i]) by {
        if i < omid {
            assert(mapped(objs1[i].members@, mm1) == pairs_in(t, kids(t, mo1[i])));
            assert(mo2[i] == mo2.take(omid)[i]);
            assert(mapped(objs2[i].members@, mm2) =~= mapped(objs1[i].members@, mm1)) by {
                assert forall|q: int| 0 <= q < objs1[i].members@.len() implies mapped(objs2[i].members@, mm2)[q] == mapped(objs1[i].members@, mm1)[q] by {
                    assert(members_at(objs1, olo, lm, i) == objs1[i].members@);
                    let j = objs1[i].members@[q] as int;
                    assert(mlo <= members_at(objs1, olo, lm, i)[q] < mems1.len());
                    assert(mm2[j] == mm2.take(mmid)[j]);
                }
            }
        } else if i > omid {
            let rc = json_region_ok(t, b, objs2, mems2, mo2, mm2, omid, mmid, objs2[omid].members@);
            assert(rc);
            assert(omid < i < objs2.len());
            assert(mapped(objs2[i].members@, mm2) == pairs_in(t, kids(t, mo2[i])));
        }
    }
    assert forall|j: int| mlo <= j < mems2.len() implies #[trigger] member_matches(t, b, mems2[j], mm2[j], mo2, olo + 1, objs2.len() as int) by {
        if j < mmid {
            assert(member_matches(t, b, mems1[j], mm1[j], mo1, olo + 1, omid));
            assert(mm2[j] == mm2.take(mmid)[j]);
            assert forall|i: int| 0 <= i < omid implies mo2[i] == mo1[i] by {
                assert(mo2[i] == mo2.take(omid)[i]);
            }
            lemma_member_frame(t, b, mems1[j], mm1[j], mo1, mo2, olo + 1, omid, objs2.len() as int);
        } else {
            assert(member_matches(t, b, mems2[j], mm2[j], mo2, omid + 1, objs2.len() as int));
        }
    }
}


/// A member key with one pair of surrounding `"` removed.
pub fn strip_key_quotes(raw: &str) -> (r: String)
    ensures
        r@ == strip_quotes(raw@),
{
    let cs = chars_of(raw);
    let n = cs.len();
    if n >= 2 && cs[0] == '"' && cs[n - 1] == '"' {
        sub_string(cs.as_slice(), 1, n - 1)
    } else {
        string_of(cs.as_slice())
    }
}

fn is_scalar_node(t: &Vec<SynNode>, k: usize) -> (r: bool)
    requires
        k < t@.len(),
    ensures
        r == is_scalar_kind(tree_view(t@)[k as int].kind),
{
    let s = t[k].kind.as_str();
    str_eq(s, "string") || str_eq(s, "number") || str_eq(s, "true") || str_eq(s, "false") || str_eq(s, "null")
}

/// The byte ranges of the scalar nodes among `ks`.
fn scalar_ranges(t: &Vec<SynNode>, ks: &Vec<usize>) -> (r: Vec<Range<usize>>)
    requires
        forall|q: int| 0 <= q < ks@.len() ==> #[trigger] ks@[q] < t@.len(),
    ensures
        ranges_view(r@) == ranges_of(tree_view(t@), scalars_in(tree_view(t@), as_ints(ks@))),
{
    let ghost tv = tree_view(t@);
    let ghost all = as_ints(ks@);
    let mut out: Vec<Range<usize>> = Vec::new();
    let mut i: usize = 0;
    proof {
        assert(all.skip(0) =~= all);
        assert(ranges_view(out@) + ranges_of(tv, scalars_in(tv, all)) =~= ranges_of(tv, scalars_in(tv, all)));
    }
    while i < ks.len()
        invariant
            tv == tree_view(t@),
            all == as_ints(ks@),
            forall|q: int| 0 <= q < ks@.len() ==> #[trigger] ks@[q] < t@.len(),
            i <= ks@.len(),
            ranges_view(out@) + ranges_of(tv, scalars_in(tv, all.skip(i as int))) == ranges_of(tv, scalars_in(tv, all)),
        decreases ks@.len() - i,
    {
        let k = ks[i];
        proof {
            assert(all.skip(i as int)[0] == k as int);
            assert(all.skip(i as int).drop_first() =~= all.skip(i + 1));
        }
        if is_scalar_node(t, k) {
            let ghost before = out@;
            out.push(Range { start: t[k].start, end: t[k].end });
            proof {
                let rest = scalars_in(tv, all.skip(i + 1));
                assert(scalars_in(tv, all.skip(i as int)) == seq![k as int] + rest);
                assert(ranges_of(tv, seq![k as int] + rest) =~= seq![(tv[k as int].start, tv[k as int].end)] + ranges_of(tv, rest));
                assert(ranges_view(out@) =~= ranges_view(before).push((tv[k as int].start, tv[k as int].end)));
                assert(ranges_view(out@) + ranges_of(tv, rest) =~= ranges_view(before) + ranges_of(tv, scalars_in(tv, all.skip(i as int))));
            }
        }
        i = i + 1;
    }
    proof {
        assert(all.skip(ks@.len() as int) =~= Seq::<int>::empty());
        assert(ranges_view(out@) + ranges_of(tv, Seq::<int>::empty()) =~= ranges_view(out@));
    }
    out
}


/// Appending the member of a pair keeps the region of the object being built
/// well formed, with the member listed last.
proof fn lemma_json_push_member(
    t: Seq<SynView>,
    b: Seq<u8>,
    objs: Seq<JsonObject>,
    mems1: Seq<JsonMember>,
    mo: Seq<int>,
    mm1: Seq<int>,
    mb: JsonMember,
    p: int,
    olo: int,
    mlo: int,
    lm: Seq<usize>,
)
    requires
        json_region_ok(t, b, objs, mems1, mo, mm1, olo, mlo, lm),
        member_matches(t, b, mb, p, mo, olo + 1, objs.len() as int),
        mems1.len() < usize::MAX,
    ensures
        json_region_ok(t, b, objs, mems1.push(mb), mo, mm1.push(p), olo, mlo, lm.push(mems1.len() as usize)),
{
    let mems2 = mems1.push(mb);
    let mm2 = mm1.push(p);
    let lm2 = lm.push(mems1.len() as usize);
    assert forall|i: int, q: int|
        olo <= i < objs.len() && 0 <= q < members_at(objs, olo, lm2, i).len()
            implies mlo <= #[trigger] members_at(objs, olo, lm2, i)[q] < mems2.len() by {
        if i == olo {
            if q < lm.len() {
                assert(members_at(objs, olo, lm2, i)[q] == members_at(objs, olo, lm, i)[q]);
            }
        } else {
            assert(members_at(objs, olo, lm2, i) == members_at(objs, olo, lm, i));
        }
    }
    assert forall|i: int| olo < i < objs.len() implies mapped(#[trigger] objs[i].members@, mm2) == pairs_in(t, kids(t, mo[i])) && obj_ok(t, b, mo[i]) by {
        assert(mapped(objs[i].members@, mm1) == pairs_in(t, kids(t, mo[i])));
        assert forall|q: int| 0 <= q < objs[i].members@.len() implies mapped(objs[i].members@, mm2)[q] == mapped(objs[i].members@, mm1)[q] by {
            assert(members_at(objs, olo, lm, i) == objs[i].members@);
            assert(mlo <= members_at(objs, olo, lm, i)[q] < mems1.len());
        }
        assert(mapped(objs[i].members@, mm2) =~= mapped(objs[i].members@, mm1));
    }
    assert forall|j: int| mlo <= j < mems2.len() implies #[trigger] member_matches(t, b, mems2[j], mm2[j], mo, olo + 1, objs.len() as int) by {
        if j < mems1.len() {
            assert(member_matches(t, b, mems1[j], mm1[j], mo, olo + 1, objs.len() as int));
        }
    }
}

/// Reads object node `o` and, recursively, the objects nested in its values,
/// into the arenas `objects` and `members`. `None` when `o` cannot be read
/// (entries already appended may then remain; callers discard them).
fn build_object(
    t: &Vec<SynNode>,
    b: &[u8],
    o: usize,
    objects: &mut Vec<JsonObject>,
    members: &mut Vec<JsonMember>,
    Ghost(mo0): Ghost<Seq<int>>,
    Ghost(mm0): Ghost<Seq<int>>,
) -> (r: (Option<usize>, Ghost<Seq<int>>, Ghost<Seq<int>>))
    requires
        o < t@.len(),
        tree_view(t@)[o as int].kind == "object"@,
        mo0.len() == old(objects)@.len(),
        mm0.len() == old(members)@.len(),
    ensures
        r.0 is Some <==> obj_ok(tree_view(t@), b@, o as int),
        final(objects)@.len() >= old(objects)@.len(),
        final(members)@.len() >= old(members)@.len(),
        forall|i: int| 0 <= i < old(objects)@.len() ==> final(objects)@[i] == old(objects)@[i],
        forall|j: int| 0 <= j < old(members)@.len() ==> final(members)@[j] == old(members)@[j],
        r.0 matches Some(i) ==> {
            let os = final(objects)@;
            let ms = final(members)@;
            &&& i == old(objects)@.len()
            &&& r.1@.take(i as int) == mo0
            &&& r.2@.take(old(members)@.len() as int) == mm0
            &&& r.1@[i as int] == o
            &&& json_region_ok(tree_view(t@), b@, os, ms, r.1@, r.2@, i as int, old(members)@.len() as int, os[i as int].members@)
            &&& mapped(os[i as int].members@, r.2@) == pairs_in(tree_view(t@), kids(tree_view(t@), o as int))
        },
    decreases t@.len() - o,
{
    let ghost tv = tree_view(t@);
    let ghost old_objs = objects@;
    let ghost old_mems = members@;
    let idx = objects.len();
    let mlo = members.len();
    let range = Range { start: t[o].start, end: t[o].end };
    objects.push(JsonObject { members: Vec::new(), range: Range { start: t[o].start, end: t[o].end } });
    let ghost mut mo = mo0.push(o as int);
    let ghost mut mm = mm0;
    let mut mlist: Vec<usize> = Vec::new();
    let ck = children(t, o);
    let ghost cks = as_ints(ck@);
    let mut i: usize = 0;
    let _l0 = objects.len();
    let _l1 = members.len();
    proof {
        assert(cks.skip(0) =~= cks);
        assert(mapped(mlist@, mm) + pairs_in(tv, cks) =~= pairs_in(tv, cks));
        assert(object_matches(tv, b@, objects@[idx as int], mo[idx as int]));
        assert(mo.take(idx as int) =~= mo0);
        assert(mm.take(mlo as int) =~= mm0);
        assert(json_region_ok(tv, b@, objects@, members@, mo, mm, idx as int, mlo as int, mlist@));
    }
    while i < ck.len()
        invariant
            tv == tree_view(t@),
            o < t@.len(),
            cks == as_ints(ck@),
            cks == kids(tv, o as int),
            forall|q: int| 0 <= q < ck@.len() ==> o < #[trigger] ck@[q] < t@.len(),
            i <= ck@.len(),
            idx == old_objs.len(),
            mlo == old_mems.len(),
            old_objs == old(objects)@,
            old_mems == old(members)@,
            idx < objects@.len() <= usize::MAX,
            mlo <= members@.len() <= usize::MAX,
            forall|q: int| 0 <= q < idx ==> objects@[q] == old_objs[q],
            forall|q: int| 0 <= q < mlo ==> members@[q] == old_mems[q],
            objects@[idx as int].range == range,
            range.start == tv[o as int].start && range.end == tv[o as int].end,
            mo.take(idx as int) == mo0,
            mm.take(mlo as int) == mm0,
            mo[idx as int] == o,
            json_region_ok(tv, b@, objects@, members@, mo, mm, idx as int, mlo as int, mlist@),
            mapped(mlist@, mm) + pairs_in(tv, cks.skip(i as int)) == pairs_in(tv, cks),
            obj_ok(tv, b@, o as int) == pairs_ok(tv, b@, o as int, cks.skip(i as int)),
        decreases ck@.len() - i,
    {
        let k = ck[i];
        proof {
            assert(cks.skip(i as int)[0] == k as int);
            assert(cks.skip(i as int).drop_first() =~= cks.skip(i + 1));
        }
        if str_eq(t[k].kind.as_str(), "pair") {
            let key = match child_by_field(t, k, "key") {
                Some(x) => x,
                None => {
                    return (None, Ghost(mo), Ghost(mm));
                },
            };
            let val = match child_by_field(t, k, "value") {
                Some(x) => x,
                None => {
                    return (None, Ghost(mo), Ghost(mm));
                },
            };
            let raw = match node_string(t, b, key) {
                Some(s) => s,
                None => {
                    return (None, Ghost(mo), Ghost(mm));
                },
            };
            let name = strip_key_quotes(raw.as_str());
            let (module, local) = split_name(name.as_str());
            let mut value: JsonVal = JsonVal::Leaf;
            let mut scalar_items: Option<Vec<Range<usize>>> = None;
            if str_eq(t[val].kind.as_str(), "object") {
                let ghost pre_objs = objects@;
                let ghost pre_mems = members@;
                let ghost pre_mo = mo;
                let ghost pre_mm = mm;
                let (res, Ghost(mo2), Ghost(mm2)) = build_object(t, b, val, objects, members, Ghost(mo), Ghost(mm));
                let _l2 = objects.len();
                let _l3 = members.len();
                match res {
                    None => {
                        return (None, Ghost(mo), Ghost(mm));
                    },
                    Some(c) => {
                        proof {
                            lemma_json_extend(tv, b@, pre_objs, pre_mems, pre_mo, pre_mm, objects@, members@, mo2, mm2, idx as int, mlo as int, mlist@);
                            assert(mo2[idx as int] == mo2.take(c as int)[idx as int]);
                            assert(mo2.take(idx as int) =~= mo2.take(c as int).take(idx as int));
                            assert(mm2.take(mlo as int) =~= mm2.take(pre_mems.len() as int).take(mlo as int));
                            assert(mapped(mlist@, mm2) =~= mapped(mlist@, pre_mm)) by {
                                assert forall|q: int| 0 <= q < mlist@.len() implies mapped(mlist@, mm2)[q] == mapped(mlist@, pre_mm)[q] by {
                                    assert(members_at(pre_objs, idx as int, mlist@, idx as int) == mlist@);
                                    assert(mlo <= members_at(pre_objs, idx as int, mlist@, idx as int)[q] < pre_mems.len());
                                    assert(mm2[mlist@[q] as int] == mm2.take(pre_mems.len() as int)[mlist@[q] as int]);
                                }
                            }
                            mo = mo2;
                            mm = mm2;
                        }
                        value = JsonVal::Object(c);
                    },
                }
            } else if str_eq(t[val].kind.as_str(), "array") {
                let ak = children(t, val);
                let ghost aks = as_ints(ak@);
                let mut list: Vec<usize> = Vec::new();
                let mut q: usize = 0;
                let ghost ml_map = mapped(mlist@, mm);
                proof {
                    assert(aks.skip(0) =~= aks);
                    assert(mapped(list@, mo) + ok_objs(tv, b@, aks) =~= ok_objs(tv, b@, aks));
                }
                while q < ak.len()
                    invariant
                        tv == tree_view(t@),
                        o < k < val < t@.len(),
                        aks == as_ints(ak@),
                        forall|w: int| 0 <= w < ak@.len() ==> val < #[trigger] ak@[w] < t@.len(),
                        q <= ak@.len(),
                        idx == old_objs.len(),
                        mlo == old_mems.len(),
                        idx < objects@.len() <= usize::MAX,
                        mlo <= members@.len() <= usize::MAX,
                        forall|w: int| 0 <= w < idx ==> objects@[w] == old_objs[w],
                        forall|w: int| 0 <= w < mlo ==> members@[w] == old_mems[w],
                        objects@[idx as int].range == range,
                        mo.take(idx as int) == mo0,
                        mm.take(mlo as int) == mm0,
                        mo[idx as int] == o,
                        json_region_ok(tv, b@, objects@, members@, mo, mm, idx as int, mlo as int, mlist@),
                        mapped(list@, mo) + ok_objs(tv, b@, aks.skip(q as int)) == ok_objs(tv, b@, aks),
                        forall|w: int| 0 <= w < list@.len() ==> idx < #[trigger] list@[w] < objects@.len(),
                        mapped(mlist@, mm) == ml_map,
                    decreases ak@.len() - q,
                {
                    let c = ak[q];
                    proof {
                        assert(aks.skip(q as int)[0] == c as int);
                        assert(aks.skip(q as int).drop_first() =~= aks.skip(q + 1));
                    }
                    if str_eq(t[c].kind.as_str(), "object") {
                        let ol = objects.len();
                        let ml = members.len();
                        let ghost pre_objs = objects@;
                        let ghost pre_mems = members@;
                        let ghost pre_mo = mo;
                        let ghost pre_mm = mm;
                        let (res, Ghost(mo2), Ghost(mm2)) = build_object(t, b, c, objects, members, Ghost(mo), Ghost(mm));
                        let _l2 = objects.len();
                        let _l3 = members.len();
                        match res {
                            None => {
                                objects.truncate(ol);
                                members.truncate(ml);
                                proof {
                                    assert(objects@ =~= pre_objs);
                                    assert(members@ =~= pre_mems);
                                }
                            },
                            Some(ci) => {
                                proof {
                                    lemma_json_extend(tv, b@, pre_objs, pre_mems, pre_mo, pre_mm, objects@, members@, mo2, mm2, idx as int, mlo as int, mlist@);
                                    assert(mo2[idx as int] == mo2.take(ci as int)[idx as int]);
                                    assert(mo2.take(idx as int) =~= mo2.take(ci as int).take(idx as int));
                                    assert(mm2.take(mlo as int) =~= mm2.take(pre_mems.len() as int).take(mlo as int));
                                    assert(mapped(list@.push(ci), mo2) =~= mapped(list@, pre_mo).push(c as int)) by {
                                        assert forall|w: int| 0 <= w < list@.len() implies mo2[list@[w] as int] == pre_mo[list@[w] as int] by {
                                            assert(mo2[list@[w] as int] == mo2.take(ci as int)[list@[w] as int]);
                                        }
                                    }
                                    assert(mapped(list@, pre_mo).push(c as int) + ok_objs(tv, b@, aks.skip(q + 1)) =~= mapped(list@, pre_mo) + ok_objs(tv, b@, aks.skip(q as int)));
                                    assert(mapped(mlist@, mm2) =~= mapped(mlist@, pre_mm)) by {
                                        assert forall|w: int| 0 <= w < mlist@.len() implies mapped(mlist@, mm2)[w] == mapped(mlist@, pre_mm)[w] by {
                                            assert(members_at(pre_objs, idx as int, mlist@, idx as int) == mlist@);
                                            assert(mlo <= members_at(pre_objs, idx as int, mlist@, idx as int)[w] < pre_mems.len());
                                            assert(mm2[mlist@[w] as int] == mm2.take(pre_mems.len() as int)[mlist@[w] as int]);
                                        }
                                    }
                                    mo = mo2;
                                    mm = mm2;
                                }
                                list.push(ci);
                            },
                        }
                    }
                    q = q + 1;
                }
                proof {
                    assert(aks.skip(ak@.len() as int) =~= Seq::<int>::empty());
                    assert(mapped(list@, mo) =~= mapped(list@, mo) + ok_objs(tv, b@, Seq::<int>::empty()));
                }
                if list.len() > 0 {
                    value = JsonVal::Array(list);
                } else {
                    let items = scalar_ranges(t, &ak);
                    proof {
                        assert(ranges_view(items@).len() == items@.len());
                        assert(ranges_of(tv, scalars_in(tv, aks)).len() == scalars_in(tv, aks).len());
                    }
                    if items.len() > 0 {
                        scalar_items = Some(items);
                    }
                }
            }
            let ghost pre_mems = members@;
            let ghost pre_mm = mm;
            let mb = JsonMember {
                name,
                module,
                local,
                key_range: Range { start: t[key].start, end: t[key].end },
                value_range: Range { start: t[val].start, end: t[val].end },
                scalar_items,
                val: value,
            };
            proof {
                reveal_strlit("array");
                reveal_strlit("object");
                assert("array"@ != "object"@) by {
                    assert("array"@[0] != "object"@[0]);
                }
                assert(pair_key(tv, k as int) == Some(key as int));
                assert(pair_value(tv, k as int) == Some(val as int));
            }
            let ghost gmb = mb;
            let j = members.len();
            members.push(mb);
            let _l4 = members.len();
            proof {
                assert(member_matches(tv, b@, gmb, k as int, mo, idx + 1, objects@.len() as int));
                lemma_json_push_member(tv, b@, objects@, pre_mems, mo, mm, gmb, k as int, idx as int, mlo as int, mlist@);
            }
            let ghost old_ml = mlist@;
            mlist.push(j);
            proof {
                mm = mm.push(k as int);
                assert(mm.take(mlo as int) =~= pre_mm.take(mlo as int));
                assert(mapped(mlist@, mm) =~= mapped(old_ml, pre_mm).push(k as int)) by {
                    assert forall|w: int| 0 <= w < old_ml.len() implies mm[old_ml[w] as int] == pre_mm[old_ml[w] as int] by {
                        assert(members_at(objects@, idx as int, old_ml, idx as int) == old_ml);
                        assert(mlo <= members_at(objects@, idx as int, old_ml, idx as int)[w] < pre_mems.len());
                    }
                }
                assert(pairs_in(tv, cks.skip(i as int)) == seq![k as int] + pairs_in(tv, cks.skip(i + 1)));
                assert(mapped(old_ml, pre_mm).push(k as int) + pairs_in(tv, cks.skip(i + 1)) =~= mapped(old_ml, pre_mm) + pairs_in(tv, cks.skip(i as int)));
            }
        } else {
            proof {
                assert(pairs_in(tv, cks.skip(i as int)) == pairs_in(tv, cks.skip(i + 1)));
                assert(pairs_ok(tv, b@, o as int, cks.skip(i as int)) == pairs_ok(tv, b@, o as int, cks.skip(i + 1)));
            }
        }
        i = i + 1;
    }
    let ghost pre_objs = objects@;
    objects.set(idx, JsonObject { members: mlist, range });
    proof {
        assert(cks.skip(ck@.len() as int) =~= Seq::<int>::empty());
        assert(mapped(objects@[idx as int].members@, mm) =~= mapped(objects@[idx as int].members@, mm) + pairs_in(tv, Seq::<int>::empty()));
        assert forall|w: int| idx <= w < objects@.len() implies #[trigger] object_matches(tv, b@, objects@[w], mo[w]) by {
            assert(object_matches(tv, b@, pre_objs[w], mo[w]));
        }
        assert forall|w: int, q: int|
            idx <= w < objects@.len() && 0 <= q < members_at(objects@, idx as int, objects@[idx as int].members@, w).len()
                implies mlo <= #[trigger] members_at(objects@, idx as int, objects@[idx as int].members@, w)[q] < members@.len() by {
            assert(members_at(objects@, idx as int, objects@[idx as int].members@, w) == members_at(pre_objs, idx as int, objects@[idx as int].members@, w));
        }
        assert forall|w: int| idx < w < objects@.len() implies mapped(#[trigger] objects@[w].members@, mm) == pairs_in(tv, kids(tv, mo[w])) && obj_ok(tv, b@, mo[w]) by {
            assert(objects@[w] == pre_objs[w]);
        }
        assert(json_region_ok(tv, b@, objects@, members@, mo, mm, idx as int, mlo as int, objects@[idx as int].members@));
    }
    (Some(idx), Ghost(mo), Ghost(mm))
}


/// The root object node of a JSON syntax tree: the first `object` child of the
/// document node.
pub open spec fn json_root_obj(t: Seq<SynView>) -> Option<int> {
    if t.len() > 0 {
        kind_child(t, 0, "object"@)
    } else {
        None
    }
}

/// Whether `text` parses to a JSON document whose root object can be read.
pub open spec fn json_parses(text: &str) -> bool {
    &&& json_syntax(text@) matches Some(t)
    &&& json_root_obj(t) matches Some(o)
    &&& obj_ok(t, text.spec_bytes(), o)
}

/// `doc` is the member tree of root object node `o` of `t` over the bytes
/// `b`: object 0 is `o` and lists exactly its pairs, and every arena object
/// and member describes its syntax node.
pub open spec fn json_tree_of(t: Seq<SynView>, b: Seq<u8>, o: int, doc: JsonDoc) -> bool {
    &&& doc.root == 0
    &&& exists|mo: Seq<int>, mm: Seq<int>|
        {
            &&& #[trigger] json_region_ok(t, b, doc.objects@, doc.members@, mo, mm, 0, 0, doc.objects@[0].members@)
            &&& mo[0] == o
            &&& mapped(doc.objects@[0].members@, mm) == pairs_in(t, kids(t, o))
        }
}

/// What a member carries apart from the objects its value holds: its name,
/// qualifier and local part, its spans, and the spans of its scalar items.
pub open spec fn member_content(mb: JsonMember) -> (Seq<char>, Option<Seq<char>>, Seq<char>, Range<usize>, Range<usize>, Option<Seq<(int, int)>>) {
    (
        mb.name@,
        match mb.module {
            Some(m) => Some(m@),
            None => None,
        },
        mb.local@,
        mb.key_range,
        mb.value_range,
        match mb.scalar_items {
            Some(items) => Some(ranges_view(items@)),
            None => None,
        },
    )
}

/// Two member values have the same shape, their objects standing for the
/// same syntax objects (`mo1`, `mo2`).
pub open spec fn same_value(v1: JsonVal, v2: JsonVal, mo1: Seq<int>, mo2: Seq<int>) -> bool {
    match (v1, v2) {
        (JsonVal::Leaf, JsonVal::Leaf) => true,
        (JsonVal::Object(c1), JsonVal::Object(c2)) => mo1[c1 as int] == mo2[c2 as int],
        (JsonVal::Array(l1), JsonVal::Array(l2)) => mapped(l1@, mo1) == mapped(l2@, mo2),
        _ => false,
    }
}

/// `d1` and `d2` are the same member tree: matching their objects and
/// members by the syntax nodes they stand for (`mo`, `mm`), the roots match,
/// matched objects have the same span and matched member lists, and matched
/// members the same content and value shape.
pub open spec fn same_member_tree(d1: JsonDoc, d2: JsonDoc) -> bool {
    exists|mo1: Seq<int>, mm1: Seq<int>, mo2: Seq<int>, mm2: Seq<int>| {
        &&& #[trigger] mo1.len() == d1.objects@.len() && #[trigger] mm1.len() == d1.members@.len()
        &&& #[trigger] mo2.len() == d2.objects@.len() && #[trigger] mm2.len() == d2.members@.len()
        &&& d1.root == 0 && d2.root == 0 && mo1[0] == mo2[0]
        &&& forall|a: int, c: int| 0 <= a < mo1.len() && 0 <= c < mo2.len() && #[trigger] mo1[a] == #[trigger] mo2[c] ==> {
            &&& d1.objects@[a].range == d2.objects@[c].range
            &&& mapped(d1.objects@[a].members@, mm1) == mapped(d2.objects@[c].members@, mm2)
        }
        &&& forall|a: int, c: int| 0 <= a < mm1.len() && 0 <= c < mm2.len() && #[trigger] mm1[a] == #[trigger] mm2[c] ==> {
            &&& member_content(d1.members@[a]) == member_content(d2.members@[c])
            &&& same_value(d1.members@[a].val, d2.members@[c].val, mo1, mo2)
        }
    }
}

/// The member tree of a document is determined by its text: any two member
/// trees of the same root object are the same tree (they may only number
/// their objects and members differently).
pub proof fn law_member_tree_is_determined(t: Seq<SynView>, b: Seq<u8>, o: int, d1: JsonDoc, d2: JsonDoc)
    requires
        json_tree_of(t, b, o, d1),
        json_tree_of(t, b, o, d2),
    ensures
        same_member_tree(d1, d2),
{
    let (mo1, mm1) = choose|mo: Seq<int>, mm: Seq<int>| {
        &&& #[trigger] json_region_ok(t, b, d1.objects@, d1.members@, mo, mm, 0, 0, d1.objects@[0].members@)
        &&& mo[0] == o
        &&& mapped(d1.objects@[0].members@, mm) == pairs_in(t, kids(t, o))
    };
    let (mo2, mm2) = choose|mo: Seq<int>, mm: Seq<int>| {
        &&& #[trigger] json_region_ok(t, b, d2.objects@, d2.members@, mo, mm, 0, 0, d2.objects@[0].members@)
        &&& mo[0] == o
        &&& mapped(d2.objects@[0].members@, mm) == pairs_in(t, kids(t, o))
    };
    assert forall|a: int, c: int| 0 <= a < mo1.len() && 0 <= c < mo2.len() && #[trigger] mo1[a] == #[trigger] mo2[c] implies {
        &&& d1.objects@[a].range == d2.objects@[c].range
        &&& mapped(d1.objects@[a].members@, mm1) == mapped(d2.objects@[c].members@, mm2)
    } by {
        assert(object_matches(t, b, d1.objects@[a], mo1[a]));
        assert(object_matches(t, b, d2.objects@[c], mo2[c]));
        if a > 0 {
            assert(mapped(d1.objects@[a].members@, mm1) == pairs_in(t, kids(t, mo1[a])));
        }
        if c > 0 {
            assert(mapped(d2.objects@[c].members@, mm2) == pairs_in(t, kids(t, mo2[c])));
        }
    }
    assert forall|a: int, c: int| 0 <= a < mm1.len() && 0 <= c < mm2.len() && #[trigger] mm1[a] == #[trigger] mm2[c] implies {
        &&& member_content(d1.members@[a]) == member_content(d2.members@[c])
        &&& same_value(d1.members@[a].val, d2.members@[c].val, mo1, mo2)
    } by {
        assert(member_matches(t, b, d1.members@[a], mm1[a], mo1, 0int + 1, d1.objects@.len() as int));
        assert(member_matches(t, b, d2.members@[c], mm2[c], mo2, 0int + 1, d2.objects@.len() as int));
    }
}

/// The member names that the pairs `ps` declare.
pub open spec fn pair_names(t: Seq<SynView>, b: Seq<u8>, ps: Seq<int>) -> Seq<Seq<char>> {
    ps.map_values(|p: int| strip_quotes(node_text(t, b, pair_key(t, p).unwrap()).unwrap()))
}

fn build_doc(text: &str) -> (r: (Option<JsonDoc>, Ghost<Seq<int>>, Ghost<Seq<int>>))
    ensures
        r.0 is Some <==> json_parses(text),
        r.0 matches Some(doc) ==> {
            let t = json_syntax(text@).unwrap();
            let o = json_root_obj(t).unwrap();
            let mo = r.1@;
            let mm = r.2@;
            &&& doc.root == 0
            &&& json_region_ok(t, text.spec_bytes(), doc.objects@, doc.members@, mo, mm, 0, 0, doc.objects@[0].members@)
            &&& mo[0] == o
            &&& mapped(doc.objects@[0].members@, mm) == pairs_in(t, kids(t, o))
        },
{
    let t = match parse_json_syntax(text) {
        Some(t) => t,
        None => {
            return (None, Ghost(Seq::empty()), Ghost(Seq::empty()));
        },
    };
    if t.len() == 0 {
        return (None, Ghost(Seq::empty()), Ghost(Seq::empty()));
    }
    let root_obj = match child_of_kind(&t, 0, "object") {
        Some(r) => r,
        None => {
            return (None, Ghost(Seq::empty()), Ghost(Seq::empty()));
        },
    };
    let b = text.as_bytes();
    let mut objects: Vec<JsonObject> = Vec::new();
    let mut members: Vec<JsonMember> = Vec::new();
    let (res, mo, mm) = build_object(&t, b, root_obj, &mut objects, &mut members, Ghost(Seq::empty()), Ghost(Seq::empty()));
    match res {
        None => (None, mo, mm),
        Some(root) => (Some(JsonDoc { objects, members, root }), mo, mm),
    }
}

/// Parse a JSON document into its full member tree.
///
/// `None` when the text does not parse, or the root is not an object.
pub fn parse(text: &str) -> (r: Option<JsonDoc>)
    ensures
        r is Some <==> json_parses(text),
        r matches Some(doc) ==> json_tree_of(
            json_syntax(text@).unwrap(),
            text.spec_bytes(),
            json_root_obj(json_syntax(text@).unwrap()).unwrap(),
            doc,
        ),
{
    let (r, Ghost(mo), Ghost(mm)) = build_doc(text);
    match r {
        None => None,
        Some(doc) => {
            proof {
                let t = json_syntax(text@).unwrap();
                assert(json_region_ok(t, text.spec_bytes(), doc.objects@, doc.members@, mo, mm, 0, 0, doc.objects@[0].members@));
            }
            Some(doc)
        },
    }
}

/// Parse a JSON document and return the root object's member keys.
pub fn parse_root(text: &str) -> (r: Option<JsonRoot>)
    ensures
        r is Some <==> json_parses(text),
        r matches Some(root) ==> {
            let t = json_syntax(text@).unwrap();
            let o = json_root_obj(t).unwrap();
            views(root.top_keys@) == pair_names(t, text.spec_bytes(), pairs_in(t, kids(t, o)))
        },
{
    let (r, Ghost(mo), Ghost(mm)) = build_doc(text);
    match r {
        None => None,
        Some(doc) => {
            let ghost t = json_syntax(text@).unwrap();
            let ghost b = text.spec_bytes();
            let ghost o = json_root_obj(t).unwrap();
            proof {
                assert forall|k: int| 0 <= k < doc.objects@[0].members@.len() implies #[trigger] doc.objects@[0].members@[k] < doc.members@.len() by {
                    assert(members_at(doc.objects@, 0, doc.objects@[0].members@, 0) == doc.objects@[0].members@);
                    assert(0 <= members_at(doc.objects@, 0, doc.objects@[0].members@, 0)[k] < doc.members@.len());
                }
            }
            let keys = doc.root_keys();
            proof {
                let ms = doc.objects@[0].members@;
                let ps = pairs_in(t, kids(t, o));
                assert(mapped(ms, mm) == ps);
                let kv = views(keys@);
                assert forall|q: int| 0 <= q < keys@.len() implies #[trigger] kv[q] == pair_names(t, b, ps)[q] by {
                    assert(members_at(doc.objects@, 0, ms, 0) == ms);
                    assert(0 <= members_at(doc.objects@, 0, ms, 0)[q] < doc.members@.len());
                    let j = ms[q] as int;
                    assert(mapped(ms, mm)[q] == ps[q]);
                    assert(mm[j] == ps[q]);
                    lemma_region_member(t, b, doc.objects@, doc.members@, mo, mm, 0, 0, ms, j);
                }
                assert(kv =~= pair_names(t, b, ps));
            }
            Some(JsonRoot { top_keys: keys })
        },
    }
}

} // verus!
