//! The file index behind the open-closure serving: which files on disk may
//! hold a module of a given name, found without parsing.
//!
//! Files are indexed by their basename without its `@revision-date`
//! suffix; each name's files are kept sorted for deterministic tie-breaks.

use vstd::prelude::*;
use crate::stmt::seed_view;
use crate::text::{first_of, opt_view, str_eq, views};
use crate::completion::{ins_by, lemma_sorted_contains, lemma_sorted_map, lex_lt, pair_name, sort_named, sorted_by};

verus! {

broadcast use vstd::slice::group_slice_axioms;

/// The name for what `Path::file_stem` gives for a path read as UTF-8:
/// the final component without its last extension, when it has one.
pub uninterp spec fn path_stem(path: Seq<char>) -> Option<Seq<char>>;

/// `std::path::Path::file_stem` of `path`, as a string (`None` also where
/// the stem is not UTF-8, which a `&str` path never gives).
#[verifier::external_body]
fn file_stem(path: &str) -> (r: Option<String>)
    ensures
        opt_view(r) == path_stem(path@),
{
    std::path::Path::new(path).file_stem().and_then(|s| s.to_str()).map(|s| s.to_owned())
}

/// The name for the order of `std::path::Path`: `a` sorts before `b`
/// (component by component).
pub uninterp spec fn path_lt(a: Seq<char>, b: Seq<char>) -> bool;

/// `Path::new(a) < Path::new(b)`. `Ord` for `Path` is a total order, so
/// the result also says, as `Ord` documents: when `a` sorts before `b`, `b`
/// does not sort before `a`; when `a` does not sort before `b`, it sorts
/// before no path that `b` does not sort before.
#[verifier::external_body]
fn path_less(a: &str, b: &str) -> (r: bool)
    ensures
        r == path_lt(a@, b@),
        r ==> !path_lt(b@, a@),
        !r ==> forall|c: Seq<char>| !#[trigger] path_lt(b@, c) ==> !path_lt(a@, c),
{
    std::path::Path::new(a) < std::path::Path::new(b)
}

/// `s` with `x` inserted after every path that does not sort after it.
pub open spec fn path_ins(s: Seq<Seq<char>>, x: Seq<char>) -> Seq<Seq<char>>
    decreases s.len(),
{
    if s.len() == 0 {
        seq![x]
    } else if path_lt(x, s.last()) {
        path_ins(s.drop_last(), x).push(s.last())
    } else {
        s.push(x)
    }
}

/// `s` sorted by path, stably.
pub open spec fn path_sorted(s: Seq<Seq<char>>) -> Seq<Seq<char>>
    decreases s.len(),
{
    if s.len() == 0 {
        s
    } else {
        path_ins(path_sorted(s.drop_last()), s.last())
    }
}

proof fn lemma_path_ins_at(s: Seq<Seq<char>>, x: Seq<char>, q: int)
    requires
        0 <= q <= s.len(),
        forall|i: int| q <= i < s.len() ==> path_lt(x, #[trigger] s[i]),
        q > 0 ==> !path_lt(x, s[q - 1]),
    ensures
        path_ins(s, x) == s.take(q).push(x) + s.skip(q),
    decreases s.len(),
{
    if s.len() == 0 {
        assert(s.take(q).push(x) + s.skip(q) =~= seq![x]);
    } else if q == s.len() {
        assert(s.take(q).push(x) + s.skip(q) =~= s.push(x));
    } else {
        assert(path_lt(x, s[s.len() - 1]));
        let d = s.drop_last();
        assert forall|i: int| q <= i < d.len() implies path_lt(x, #[trigger] d[i]) by {
            assert(d[i] == s[i]);
        }
        if q > 0 {
            assert(d[q - 1] == s[q - 1]);
        }
        lemma_path_ins_at(d, x, q);
        assert(d.take(q).push(x) + d.skip(q) + seq![s.last()] =~= s.take(q).push(x) + s.skip(q));
        assert(path_ins(d, x).push(s.last()) =~= d.take(q).push(x) + d.skip(q) + seq![s.last()]);
    }
}

/// Sort paths ([`path_sorted`]).
fn sort_paths(v: Vec<String>) -> (r: Vec<String>)
    ensures
        views(r@) == path_sorted(views(v@)),
        in_path_order(views(r@)),
{
    let ghost orig = views(v@);
    let _n = v.len();
    let mut src = v;
    let mut out: Vec<String> = Vec::new();
    let mut i: usize = 0;
    proof {
        assert(orig.take(0) =~= Seq::<Seq<char>>::empty());
        assert(views(src@) =~= orig.skip(0));
        assert(views(out@) =~= Seq::<Seq<char>>::empty());
    }
    while src.len() > 0
        invariant
            i + src@.len() == orig.len(),
            orig.len() <= usize::MAX,
            views(src@) == orig.skip(i as int),
            views(out@) == path_sorted(orig.take(i as int)),
            in_path_order(views(out@)),
        decreases src@.len(),
    {
        let ghost sv = src@;
        let x = src.remove(0);
        proof {
            assert(views(sv)[0] == x@);
            assert(orig.skip(i as int)[0] == x@);
            assert(x@ == orig[i as int]);
            assert(views(src@) =~= views(sv).drop_first());
        }
        let mut q = out.len();
        while q > 0 && path_less(x.as_str(), out[q - 1].as_str())
            invariant
                q <= out@.len(),
                forall|j: int| q <= j < out@.len() ==> path_lt(x@, #[trigger] out@[j]@),
                forall|j: int| q <= j < out@.len() ==> !path_lt(#[trigger] out@[j]@, x@),
            decreases q,
        {
            q = q - 1;
        }
        let ghost pre = views(out@);
        proof {
            let nw = pre.take(q as int).push(x@) + pre.skip(q as int);
            assert forall|a: int, c: int| 0 <= a < c < nw.len() implies !path_lt(#[trigger] nw[c], #[trigger] nw[a]) by {
                if c < q {
                    assert(nw[c] == pre[c]);
                    assert(nw[a] == pre[a]);
                } else if c == q {
                    assert(nw[c] == x@);
                    assert(nw[a] == pre[a]);
                    assert(pre[q - 1] == out@[q - 1]@);
                    if a < q - 1 {
                        assert(!path_lt(pre[q - 1], pre[a]));
                    }
                } else if a == q {
                    assert(nw[a] == x@);
                    assert(nw[c] == pre[c - 1]);
                    assert(pre[c - 1] == out@[c - 1]@);
                } else if a < q {
                    assert(nw[a] == pre[a]);
                    assert(nw[c] == pre[c - 1]);
                } else {
                    assert(nw[a] == pre[a - 1]);
                    assert(nw[c] == pre[c - 1]);
                }
            }
            assert forall|j: int| q <= j < pre.len() implies path_lt(x@, #[trigger] pre[j]) by {
                assert(pre[j] == out@[j]@);
            }
            if q > 0 {
                assert(pre[q - 1] == out@[q - 1]@);
            }
            lemma_path_ins_at(pre, x@, q as int);
            assert(orig.take(i + 1).drop_last() =~= orig.take(i as int));
            assert(orig.take(i + 1).last() == x@);
        }
        let ghost prev = out@;
        out.insert(q, x);
        proof {
            assert(out@ =~= prev.take(q as int).push(x) + prev.skip(q as int));
            assert(views(out@) =~= pre.take(q as int).push(x@) + pre.skip(q as int));
            assert(orig.skip(i as int).drop_first() =~= orig.skip(i + 1));
        }
        i = i + 1;
    }
    proof {
        assert(orig.take(i as int) =~= orig);
    }
    out
}

/// The index name of a file: its stem up to the first `@`, when that is
/// not empty.
pub open spec fn base_of(path: Seq<char>) -> Option<Seq<char>> {
    match path_stem(path) {
        None => None,
        Some(st) => {
            let b = match first_of(st, '@') {
                Some(i) => st.take(i),
                None => st,
            };
            if b.len() > 0 {
                Some(b)
            } else {
                None
            }
        },
    }
}

/// The mathematical form of the index: names with their files, in the
/// order the names were first seen.
pub type IndexView = Seq<(Seq<char>, Seq<Seq<char>>)>;

/// The position of name `key` in `idx`, from `k` on.
pub open spec fn key_pos(idx: IndexView, key: Seq<char>, k: int) -> Option<int>
    decreases idx.len() - k,
{
    if k < 0 || k >= idx.len() {
        None
    } else if idx[k].0 == key {
        Some(k)
    } else {
        key_pos(idx, key, k + 1)
    }
}

/// `idx` with file `path` added under name `key`.
pub open spec fn add_path(idx: IndexView, key: Seq<char>, path: Seq<char>) -> IndexView {
    match key_pos(idx, key, 0) {
        Some(k) => idx.update(k, (key, idx[k].1.push(path))),
        None => idx.push((key, seq![path])),
    }
}

/// The files `paths` grouped by name, unsorted.
pub open spec fn grouped(paths: Seq<Seq<char>>) -> IndexView
    decreases paths.len(),
{
    if paths.len() == 0 {
        Seq::empty()
    } else {
        let g = grouped(paths.drop_last());
        match base_of(paths.last()) {
            Some(b) => add_path(g, b, paths.last()),
            None => g,
        }
    }
}

/// The index of the files `paths`: grouped by name, each name's files
/// sorted.
pub open spec fn index_of(paths: Seq<Seq<char>>) -> IndexView {
    grouped(paths).map_values(|e: (Seq<char>, Seq<Seq<char>>)| (e.0, path_sorted(e.1)))
}

/// The number of files in an index.
pub open spec fn total_files(idx: IndexView) -> int
    decreases idx.len(),
{
    if idx.len() == 0 {
        0
    } else {
        total_files(idx.drop_last()) + idx.last().1.len()
    }
}

/// A parse-free index from module name to candidate files.
pub struct NameIndex {
    /// The names, each once.
    pub names: Vec<String>,
    /// The files of each name (by position).
    pub files: Vec<Vec<String>>,
}

impl NameIndex {
    /// The mathematical form of the index.
    pub open spec fn entries(&self) -> IndexView {
        Seq::new(self.names@.len(), |i: int| (self.names@[i]@, views(self.files@[i]@)))
    }

    /// The two lists line up and the file count fits a `usize`.
    pub open spec fn wf(&self) -> bool {
        &&& self.names@.len() == self.files@.len()
        &&& total_files(self.entries()) <= usize::MAX
        &&& forall|k: int| 0 <= k < self.files@.len() ==> in_path_order(views(#[trigger] self.files@[k]@))
    }

    /// The empty index.
    pub fn new() -> (r: Self)
        ensures
            r.entries() == Seq::<(Seq<char>, Seq<Seq<char>>)>::empty(),
            r.wf(),
    {
        let r = NameIndex { names: Vec::new(), files: Vec::new() };
        proof {
            assert(r.entries() =~= Seq::<(Seq<char>, Seq<Seq<char>>)>::empty());
        }
        r
    }

    /// The index of the files `paths`: each under its basename without
    /// an `@revision` suffix, each name's files sorted ([`index_of`]).
    pub fn build_owned(paths: Vec<String>) -> (r: Self)
        ensures
            r.wf(),
            r.entries() == index_of(views(paths@)),
    {
        let ghost pv = views(paths@);
        let mut names: Vec<String> = Vec::new();
        let mut files: Vec<Vec<String>> = Vec::new();
        let n = paths.len();
        let mut i: usize = 0;
        proof {
            assert(pv.take(0) =~= Seq::<Seq<char>>::empty());
        }
        while i < n
            invariant
                i <= n,
                n == paths@.len(),
                pv == views(paths@),
                names@.len() == files@.len(),
                (NameIndex { names, files }).entries() == grouped(pv.take(i as int)),
                total_files(grouped(pv.take(i as int))) <= i,
            decreases n - i,
        {
            let path = &paths[i];
            let ghost g = grouped(pv.take(i as int));
            proof {
                assert(pv.take(i + 1).drop_last() =~= pv.take(i as int));
                assert(pv.take(i + 1).last() == path@);
            }
            match file_stem(path.as_str()) {
                None => {},
                Some(stem) => {
                    let cs = crate::text::chars_of(stem.as_str());
                    let cut = match crate::text::find_char(cs.as_slice(), '@') {
                        Some(k) => k,
                        None => cs.len(),
                    };
                    if cut > 0 {
                        let base = crate::text::sub_string(cs.as_slice(), 0, cut);
                        proof {
                            assert(base@ =~= match first_of(stem@, '@') {
                                Some(k) => stem@.take(k),
                                None => stem@,
                            });
                            assert(base_of(path@) == Some(base@));
                        }
                        let ghost before = (NameIndex { names, files }).entries();
                        let mut k: usize = 0;
                        while k < names.len() && !crate::text::str_eq(names[k].as_str(), base.as_str())
                            invariant
                                k <= names@.len(),
                                names@.len() == files@.len(),
                                before == (NameIndex { names, files }).entries(),
                                key_pos(before, base@, 0) == key_pos(before, base@, k as int),
                            decreases names@.len() - k,
                        {
                            k = k + 1;
                        }
                        if k < names.len() {
                            proof {
                                assert(before[k as int].0 == names@[k as int]@);
                                assert(key_pos(before, base@, 0) == Some(k as int));
                            }
                            let ghost oldk = files@[k as int];
                            let ghost prev = files@;
                            let mut list: Vec<String> = Vec::new();
                            std::mem::swap(&mut list, &mut files[k]);
                            assert(list@ == oldk@);
                            let pc = path.clone();
                            list.push(pc);
                            assert(views(list@) =~= views(oldk@).push(path@));
                            let ghost lg = list;
                            files.set(k, list);
                            proof {
                                let after = (NameIndex { names, files }).entries();
                                assert(files@ == prev.update(k as int, lg));
                                assert(after =~= before.update(k as int, (base@, before[k as int].1.push(path@))));
                                lemma_total_add(before, base@, path@);
                            }
                        } else {
                            let ghost prev = files@;
                            let ghost prevn = names@;
                            names.push(base);
                            let mut list: Vec<String> = Vec::new();
                            list.push(path.clone());
                            assert(views(list@) =~= seq![path@]);
                            let ghost lg = list;
                            files.push(list);
                            proof {
                                let after = (NameIndex { names, files }).entries();
                                assert(files@ == prev.push(lg));
                                assert(after =~= before.push((base@, seq![path@])));
                                lemma_total_add(before, base@, path@);
                            }
                        }
                    }
                },
            }
            i = i + 1;
        }
        proof {
            assert(pv.take(n as int) =~= pv);
        }
        let ghost g = grouped(pv);
        let mut k: usize = 0;
        while k < files.len()
            invariant
                k <= files@.len(),
                names@.len() == files@.len(),
                g.len() == names@.len(),
                total_files(g) <= n,
                forall|j: int| 0 <= j < g.len() ==> #[trigger] names@[j]@ == g[j].0,
                forall|j: int| 0 <= j < k ==> views(#[trigger] files@[j]@) == path_sorted(g[j].1),
                forall|j: int| 0 <= j < k ==> in_path_order(views(#[trigger] files@[j]@)),
                forall|j: int| k <= j < g.len() ==> views(#[trigger] files@[j]@) == g[j].1,
            decreases files@.len() - k,
        {
            let mut list: Vec<String> = Vec::new();
            std::mem::swap(&mut list, &mut files[k]);
            let sorted = sort_paths(list);
            files.set(k, sorted);
            k = k + 1;
        }
        let r = NameIndex { names, files };
        proof {
            assert(r.entries() =~= index_of(pv));
            lemma_total_sorted(g);
            assert(total_files(r.entries()) == total_files(g));
        }
        r
    }

    /// The files of name `name` ([`key_pos`]).
    pub fn candidates(&self, name: &str) -> (r: &[String])
        requires
            self.wf(),
        ensures
            views(r@) == match key_pos(self.entries(), name@, 0) {
                Some(k) => self.entries()[k].1,
                None => Seq::empty(),
            },
            in_path_order(views(r@)),
    {
        let mut k: usize = 0;
        while k < self.names.len()
            invariant
                k <= self.names@.len(),
                self.wf(),
                key_pos(self.entries(), name@, 0) == key_pos(self.entries(), name@, k as int),
            decreases self.names@.len() - k,
        {
            if crate::text::str_eq(self.names[k].as_str(), name) {
                return self.files[k].as_slice();
            }
            k = k + 1;
        }
        let e: &[String] = &[];
        proof {
            assert(views(e@) =~= Seq::<Seq<char>>::empty());
        }
        e
    }

    /// The number of names.
    pub fn names_len(&self) -> (r: usize)
        ensures
            r == self.names@.len(),
    {
        self.names.len()
    }

    /// The number of files ([`total_files`]).
    pub fn file_count(&self) -> (r: usize)
        requires
            self.wf(),
        ensures
            r == total_files(self.entries()),
    {
        let mut sum: usize = 0;
        let mut k: usize = 0;
        while k < self.files.len()
            invariant
                k <= self.files@.len(),
                self.wf(),
                sum == total_files(self.entries().take(k as int)),
            decreases self.files@.len() - k,
        {
            proof {
                let e = self.entries();
                assert(e.take(k + 1).drop_last() =~= e.take(k as int));
                lemma_total_prefix(e, k + 1);
                lemma_total_take_le(e, k + 1);
                assert(e[k as int].1.len() == self.files@[k as int]@.len());
            }
            sum = sum + self.files[k].len();
            k = k + 1;
        }
        proof {
            assert(self.entries().take(k as int) =~= self.entries());
        }
        sum
    }

    /// The files under names that start with `name`, taken name by name in
    /// the order of the names until `limit` are gathered, then sorted and cut
    /// to `limit` ([`prefix_files`]); none for an empty `name`.
    pub fn prefix_candidates(&self, name: &str, limit: usize) -> (r: Vec<String>)
        requires
            self.wf(),
        ensures
            views(r@) == prefix_files(self.entries(), name@, limit as int),
            in_path_order(views(r@)),
    {
        let nm = crate::text::chars_of(name);
        if nm.len() == 0 {
            return Vec::new();
        }
        let ghost es = self.entries();
        let n = self.names.len();
        let mut order: Vec<(String, usize)> = Vec::new();
        let mut q: usize = 0;
        while q < n
            invariant
                q <= n,
                n == self.names@.len(),
                order@.len() == q,
                forall|j: int| 0 <= j < q ==> (#[trigger] order@[j]).1 == j && order@[j].0@ == self.names@[j]@,
            decreases n - q,
        {
            let copy = crate::text::string_of(crate::text::chars_of(self.names[q].as_str()).as_slice());
            order.push((copy, q));
            q = q + 1;
        }
        let ghost f = |p: (String, usize)| (p.0@, views(self.files@[p.1 as int]@));
        let ghost before = order@;
        let sorted = sort_named(order);
        let ghost ks = by_name(es);
        proof {
            assert(before.map_values(f) =~= es);
            assert forall|a: (String, usize)| before.contains(a) implies #[trigger] entry_name(f(a)) == pair_name(a) by {}
            lemma_sorted_map(before, f, |p: (String, usize)| pair_name(p), |e: (Seq<char>, Seq<Seq<char>>)| entry_name(e));
            assert(sorted@.map_values(f) == ks);
        }
        let mut out: Vec<String> = Vec::new();
        let mut k: usize = 0;
        let mut done = false;
        proof {
            assert(views(out@) =~= Seq::<Seq<char>>::empty());
        }
        while k < sorted.len() && !done
            invariant
                k <= sorted@.len(),
                sorted@.len() == ks.len(),
                self.wf(),
                es == self.entries(),
                sorted@.map_values(f) == ks,
                forall|p: (String, usize)| #[trigger] f(p) == (p.0@, views(self.files@[p.1 as int]@)),
                sorted@ == sorted_by(before, |p: (String, usize)| pair_name(p)),
                forall|j: int| 0 <= j < before.len() ==> (#[trigger] before[j]).1 == j,
                before.len() == self.names@.len(),
                nm@ == name@,
                !done ==> collect(ks, name@, limit as int, 0, Seq::empty()) == collect(ks, name@, limit as int, k as int, views(out@)),
                done ==> collect(ks, name@, limit as int, 0, Seq::empty()) == views(out@),
            decreases sorted@.len() - k,
        {
            let ghost a = sorted@[k as int];
            proof {
                assert(sorted@.contains(a));
                lemma_sorted_contains(before, |p: (String, usize)| pair_name(p), a);
                let j = choose|j: int| 0 <= j < before.len() && before[j] == a;
                assert(a.1 == j);
                assert(ks[k as int] == f(a));
                assert(f(a).0 == a.0@);
                assert(f(a).1 == views(self.files@[a.1 as int]@));
            }
            let idx = sorted[k].1;
            let key = crate::text::chars_of(sorted[k].0.as_str());
            let starts = key.len() >= nm.len() && crate::text::chars_eq(
                crate::text::sub_chars(key.as_slice(), 0, nm.len()).as_slice(),
                nm.as_slice(),
            );
            proof {
                assert(ks[k as int].0 == key@);
            }
            if starts {
                let fs = &self.files[idx];
                proof {
                    assert(ks[k as int].1 == views(fs@));
                }
                let ghost before_out = views(out@);
                let mut j: usize = 0;
                while j < fs.len()
                    invariant
                        j <= fs@.len(),
                        views(out@) == before_out + views(fs@).take(j as int),
                        ks[k as int].1 == views(fs@),
                        ks[k as int].0 == key@,
                    decreases fs@.len() - j,
                {
                    let ghost o = out@;
                    out.push(fs[j].clone());
                    proof {
                        assert(views(out@) =~= views(o).push(fs@[j as int]@));
                        assert(views(fs@).take(j + 1) =~= views(fs@).take(j as int).push(fs@[j as int]@));
                    }
                    j = j + 1;
                }
                proof {
                    assert(views(fs@).take(j as int) =~= views(fs@));
                    assert(ks[k as int].1 == views(fs@));
                    assert(ks[k as int].0 == key@);
                    assert(key@.subrange(0, nm@.len() as int) =~= ks[k as int].0.take(name@.len() as int));
                }
                if out.len() >= limit {
                    done = true;
                }
            } else {
                proof {
                    assert(ks[k as int].0 == key@);
                    if ks[k as int].0.len() >= name@.len() {
                        assert(key@.subrange(0, nm@.len() as int) =~= ks[k as int].0.take(name@.len() as int));
                    }
                }
            }
            k = k + 1;
        }
        proof {
            if !done {
                assert(collect(ks, name@, limit as int, k as int, views(out@)) == views(out@));
            }
        }
        let ghost gathered = views(out@);
        let sorted = sort_paths(out);
        let mut res = sorted;
        if res.len() > limit {
            res.truncate(limit);
        }
        proof {
            assert(views(res@) =~= path_sorted(gathered).take(if path_sorted(gathered).len() > limit { limit as int } else { path_sorted(gathered).len() as int }));
            let all = views(sorted@);
            assert forall|a: int, c: int| 0 <= a < c < views(res@).len() implies !path_lt(#[trigger] views(res@)[c], #[trigger] views(res@)[a]) by {
                assert(views(res@)[c] == all[c]);
                assert(views(res@)[a] == all[a]);
            }
        }
        res
    }
}

/// Gathering the files of names that start with `name`, from entry `k`
/// on, onto `acc`; it stops once `limit` files are gathered.
pub open spec fn collect(es: IndexView, name: Seq<char>, limit: int, k: int, acc: Seq<Seq<char>>) -> Seq<Seq<char>>
    decreases es.len() - k,
{
    if k < 0 || k >= es.len() {
        acc
    } else if es[k].0.len() >= name.len() && es[k].0.take(name.len() as int) == name {
        let acc2 = acc + es[k].1;
        if acc2.len() >= limit {
            acc2
        } else {
            collect(es, name, limit, k + 1, acc2)
        }
    } else {
        collect(es, name, limit, k + 1, acc)
    }
}

/// The name of an index entry.
pub open spec fn entry_name(e: (Seq<char>, Seq<Seq<char>>)) -> Seq<char> {
    e.0
}

/// The entries of an index in the order of their names.
pub open spec fn by_name(es: IndexView) -> IndexView {
    sorted_by(es, |e: (Seq<char>, Seq<Seq<char>>)| entry_name(e))
}

/// The files under names that start with `name`, gathered name by name in
/// the order of the names ([`collect`]), sorted and cut to `limit`; none for
/// an empty `name`.
pub open spec fn prefix_files(es: IndexView, name: Seq<char>, limit: int) -> Seq<Seq<char>> {
    if name.len() == 0 {
        Seq::empty()
    } else {
        let s = path_sorted(collect(by_name(es), name, limit, 0, Seq::empty()));
        if s.len() > limit {
            s.take(limit)
        } else {
            s
        }
    }
}

proof fn lemma_total_prefix(idx: IndexView, k: int)
    requires
        0 < k <= idx.len(),
    ensures
        total_files(idx.take(k)) == total_files(idx.take(k - 1)) + idx[k - 1].1.len(),
{
    assert(idx.take(k).drop_last() =~= idx.take(k - 1));
}

proof fn lemma_total_take_le(idx: IndexView, k: int)
    requires
        0 <= k <= idx.len(),
    ensures
        total_files(idx.take(k)) <= total_files(idx),
    decreases idx.len() - k,
{
    if k < idx.len() {
        lemma_total_take_le(idx, k + 1);
        lemma_total_prefix(idx, k + 1);
    } else {
        assert(idx.take(k) =~= idx);
    }
}

proof fn lemma_total_update(idx: IndexView, k: int, e: (Seq<char>, Seq<Seq<char>>))
    requires
        0 <= k < idx.len(),
    ensures
        total_files(idx.update(k, e)) == total_files(idx) - idx[k].1.len() + e.1.len(),
    decreases idx.len(),
{
    if k < idx.len() - 1 {
        assert(idx.update(k, e).drop_last() =~= idx.drop_last().update(k, e));
        lemma_total_update(idx.drop_last(), k, e);
    } else {
        assert(idx.update(k, e).drop_last() =~= idx.drop_last());
    }
}

proof fn lemma_total_add(idx: IndexView, key: Seq<char>, path: Seq<char>)
    ensures
        total_files(add_path(idx, key, path)) == total_files(idx) + 1,
{
    match key_pos(idx, key, 0) {
        Some(k) => {
            lemma_key_pos_range(idx, key, 0);
            lemma_total_update(idx, k, (key, idx[k].1.push(path)));
        },
        None => {
            assert(idx.push((key, seq![path])).drop_last() =~= idx);
        },
    }
}

proof fn lemma_key_pos_range(idx: IndexView, key: Seq<char>, k: int)
    ensures
        key_pos(idx, key, k) matches Some(p) ==> 0 <= p < idx.len() && idx[p].0 == key,
    decreases idx.len() - k,
{
    if 0 <= k < idx.len() && idx[k].0 != key {
        lemma_key_pos_range(idx, key, k + 1);
    }
}

proof fn lemma_path_sorted_len(s: Seq<Seq<char>>)
    ensures
        path_sorted(s).len() == s.len(),
    decreases s.len(),
{
    if s.len() > 0 {
        lemma_path_sorted_len(s.drop_last());
        lemma_path_ins_len(path_sorted(s.drop_last()), s.last());
    }
}

proof fn lemma_path_ins_len(s: Seq<Seq<char>>, x: Seq<char>)
    ensures
        path_ins(s, x).len() == s.len() + 1,
    decreases s.len(),
{
    if s.len() > 0 {
        lemma_path_ins_len(s.drop_last(), x);
    }
}

proof fn lemma_total_sorted(idx: IndexView)
    ensures
        total_files(idx.map_values(|e: (Seq<char>, Seq<Seq<char>>)| (e.0, path_sorted(e.1)))) == total_files(idx),
    decreases idx.len(),
{
    if idx.len() > 0 {
        let f = |e: (Seq<char>, Seq<Seq<char>>)| (e.0, path_sorted(e.1));
        assert(idx.map_values(f).drop_last() =~= idx.drop_last().map_values(f));
        lemma_total_sorted(idx.drop_last());
        lemma_path_sorted_len(idx.last().1);
    }
}

/// Counters of one closure resolution pass.
#[derive(Debug, Clone)]
pub struct ResolveStats {
    /// Names visited.
    pub names: usize,
    /// Candidate headers parsed.
    pub parsed: usize,
    /// Names with no candidate file.
    pub missing: Vec<String>,
}

impl ResolveStats {
    /// No names visited, nothing parsed, nothing missing.
    pub fn new() -> (r: Self)
        ensures
            r.names == 0,
            r.parsed == 0,
            r.missing@.len() == 0,
    {
        ResolveStats { names: 0, parsed: 0, missing: Vec::new() }
    }
}


/// The number of files among `paths` that have an index name.
pub open spec fn named_count(paths: Seq<Seq<char>>) -> int
    decreases paths.len(),
{
    if paths.len() == 0 {
        0
    } else {
        named_count(paths.drop_last()) + if base_of(paths.last()) is Some {
            1int
        } else {
            0int
        }
    }
}

proof fn lemma_grouped_total(paths: Seq<Seq<char>>)
    ensures
        total_files(grouped(paths)) == named_count(paths),
    decreases paths.len(),
{
    if paths.len() > 0 {
        lemma_grouped_total(paths.drop_last());
        match base_of(paths.last()) {
            Some(b) => lemma_total_add(grouped(paths.drop_last()), b, paths.last()),
            None => {},
        }
    }
}

/// The index loses no file and counts none twice: it holds exactly the
/// files that have a name.
pub proof fn law_index_keeps_every_named_file(paths: Seq<Seq<char>>)
    ensures
        total_files(index_of(paths)) == named_count(paths),
{
    lemma_grouped_total(paths);
    lemma_total_sorted(grouped(paths));
}

/// No path of `s` sorts before one that comes earlier.
pub open spec fn in_path_order(s: Seq<Seq<char>>) -> bool {
    forall|i: int, j: int| 0 <= i < j < s.len() ==> !path_lt(#[trigger] s[j], #[trigger] s[i])
}

/// The files of name `name` in an index, empty where it has no such name.
pub open spec fn files_named(idx: IndexView, name: Seq<char>) -> Seq<Seq<char>> {
    match key_pos(idx, name, 0) {
        Some(k) => idx[k].1,
        None => Seq::empty(),
    }
}

/// Whether a path's index name is `name`.
pub open spec fn named(name: Seq<char>) -> spec_fn(Seq<char>) -> bool {
    |p: Seq<char>| base_of(p) == Some(name)
}

/// Where `key` first stands in `idx` from `k` on.
proof fn lemma_key_pos_first(idx: IndexView, key: Seq<char>, k: int)
    requires
        0 <= k,
    ensures
        match key_pos(idx, key, k) {
            Some(p) => k <= p < idx.len() && idx[p].0 == key
                && forall|j: int| k <= j < p ==> #[trigger] idx[j].0 != key,
            None => forall|j: int| k <= j < idx.len() ==> #[trigger] idx[j].0 != key,
        },
    decreases idx.len() - k,
{
    if k < idx.len() && idx[k].0 != key {
        lemma_key_pos_first(idx, key, k + 1);
    }
}

/// Two indexes with the same names in the same places find a name at the
/// same place.
proof fn lemma_key_pos_same_names(a: IndexView, b: IndexView, key: Seq<char>, k: int)
    requires
        a.len() == b.len(),
        forall|j: int| 0 <= j < a.len() ==> #[trigger] a[j].0 == b[j].0,
    ensures
        key_pos(a, key, k) == key_pos(b, key, k),
    decreases a.len() - k,
{
    if 0 <= k < a.len() && a[k].0 != key {
        lemma_key_pos_same_names(a, b, key, k + 1);
    }
}

proof fn lemma_grouped_files(paths: Seq<Seq<char>>, name: Seq<char>)
    ensures
        files_named(grouped(paths), name) == paths.filter(named(name)),
    decreases paths.len(),
{
    if paths.len() > 0 {
        let d = paths.drop_last();
        let x = paths.last();
        let g = grouped(d);
        lemma_grouped_files(d, name);
        assert(paths =~= d.push(x));
        d.lemma_filter_push(x, named(name));
        match base_of(x) {
            Some(b) => {
                lemma_key_pos_first(g, b, 0);
                lemma_key_pos_first(g, name, 0);
                match key_pos(g, b, 0) {
                    Some(k) => {
                        let g2 = g.update(k, (b, g[k].1.push(x)));
                        assert forall|j: int| 0 <= j < g.len() implies #[trigger] g[j].0 == g2[j].0 by {}
                        lemma_key_pos_same_names(g, g2, name, 0);
                    },
                    None => {
                        let g2 = g.push((b, seq![x]));
                        lemma_key_pos_first(g2, name, 0);
                        if b == name {
                            assert(g2[g.len() as int].0 == name);
                            if key_pos(g2, name, 0) != Some(g.len() as int) {
                                let p = key_pos(g2, name, 0).unwrap();
                                assert(g2[p] == g[p]);
                            }
                            assert(d.filter(named(name)) == Seq::<Seq<char>>::empty());
                            assert(Seq::<Seq<char>>::empty().push(x) =~= seq![x]);
                        } else {
                            match key_pos(g2, name, 0) {
                                Some(p) => {
                                    assert(g2[p] == g[p]);
                                    if key_pos(g, name, 0) != Some(p) {
                                        match key_pos(g, name, 0) {
                                            Some(q) => assert(g2[q] == g[q]),
                                            None => {},
                                        }
                                    }
                                },
                                None => {
                                    if let Some(q) = key_pos(g, name, 0) {
                                        assert(g2[q] == g[q]);
                                    }
                                },
                            }
                        }
                    },
                }
            },
            None => {},
        }
    }
}

/// The files a name's lookup gives are exactly the indexed files of that
/// name, each as often as it was indexed, and none where no file has that
/// name (their order is in [`NameIndex::candidates`]'s contract).
pub proof fn law_name_files_are_its_paths(paths: Seq<Seq<char>>, name: Seq<char>)
    ensures
        files_named(index_of(paths), name).to_multiset() == paths.filter(named(name)).to_multiset(),
{
    let g = grouped(paths);
    let f = |e: (Seq<char>, Seq<Seq<char>>)| (e.0, path_sorted(e.1));
    let ix = index_of(paths);
    assert(ix == g.map_values(f));
    assert forall|j: int| 0 <= j < g.len() implies #[trigger] g[j].0 == ix[j].0 by {}
    lemma_key_pos_same_names(g, ix, name, 0);
    lemma_grouped_files(paths, name);
    let fl = paths.filter(named(name));
    lemma_path_sorted_keeps(fl);
    lemma_key_pos_range(g, name, 0);
    if key_pos(g, name, 0) is None {
        assert(files_named(ix, name) == Seq::<Seq<char>>::empty());
        assert(fl =~= Seq::<Seq<char>>::empty());
        assert(path_sorted(fl) == fl);
    }
}

/// `p` is one of `paths` whose index name starts with `name`.
pub open spec fn named_with_prefix(paths: Seq<Seq<char>>, name: Seq<char>, p: Seq<char>) -> bool {
    &&& paths.contains(p)
    &&& base_of(p) matches Some(b)
    &&& b.len() >= name.len()
    &&& b.take(name.len() as int) == name
}

/// Every file of every entry of `idx` is one of `paths` and has the entry's
/// name.
pub open spec fn entries_hold_named(idx: IndexView, paths: Seq<Seq<char>>) -> bool {
    forall|k: int, j: int| 0 <= k < idx.len() && 0 <= j < idx[k].1.len() ==>
        paths.contains(#[trigger] idx[k].1[j]) && base_of(idx[k].1[j]) == Some(idx[k].0)
}

proof fn lemma_grouped_hold(paths: Seq<Seq<char>>)
    ensures
        entries_hold_named(grouped(paths), paths),
    decreases paths.len(),
{
    if paths.len() > 0 {
        let d = paths.drop_last();
        let x = paths.last();
        let g = grouped(d);
        lemma_grouped_hold(d);
        assert(paths =~= d.push(x));
        assert(paths.contains(x)) by {
            assert(paths[paths.len() - 1] == x);
        }
        assert forall|y: Seq<char>| d.contains(y) implies paths.contains(y) by {
            let j = choose|j: int| 0 <= j < d.len() && d[j] == y;
            assert(paths[j] == y);
        }
        match base_of(x) {
            Some(b) => {
                lemma_key_pos_range(g, b, 0);
                match key_pos(g, b, 0) {
                    Some(k0) => {
                        let g2 = g.update(k0, (b, g[k0].1.push(x)));
                        assert forall|k: int, j: int| 0 <= k < g2.len() && 0 <= j < g2[k].1.len() implies
                            paths.contains(#[trigger] g2[k].1[j]) && base_of(g2[k].1[j]) == Some(g2[k].0) by {
                            if k == k0 {
                                if j < g[k0].1.len() {
                                    assert(g2[k].1[j] == g[k0].1[j]);
                                } else {
                                    assert(g2[k].1[j] == x);
                                }
                            } else {
                                assert(g2[k] == g[k]);
                            }
                        }
                    },
                    None => {
                        let g2 = g.push((b, seq![x]));
                        assert forall|k: int, j: int| 0 <= k < g2.len() && 0 <= j < g2[k].1.len() implies
                            paths.contains(#[trigger] g2[k].1[j]) && base_of(g2[k].1[j]) == Some(g2[k].0) by {
                            if k < g.len() {
                                assert(g2[k] == g[k]);
                            }
                        }
                    },
                }
            },
            None => {
                assert forall|k: int, j: int| 0 <= k < g.len() && 0 <= j < g[k].1.len() implies
                    paths.contains(#[trigger] g[k].1[j]) && base_of(g[k].1[j]) == Some(g[k].0) by {
                    assert(d.contains(g[k].1[j]));
                }
            }
        }
    }
}

proof fn lemma_index_hold(paths: Seq<Seq<char>>)
    ensures
        entries_hold_named(index_of(paths), paths),
{
    lemma_grouped_hold(paths);
    let g = grouped(paths);
    let ix = index_of(paths);
    assert forall|k: int, j: int| 0 <= k < ix.len() && 0 <= j < ix[k].1.len() implies
        paths.contains(#[trigger] ix[k].1[j]) && base_of(ix[k].1[j]) == Some(ix[k].0) by {
        let fs = g[k].1;
        assert(ix[k].1 == path_sorted(fs));
        assert forall|i: int| 0 <= i < fs.len() implies paths.contains(#[trigger] fs[i]) by {}
        lemma_path_sorted_keeps(fs);
        broadcast use vstd::seq_lib::group_to_multiset_ensures;
        assert(path_sorted(fs).contains(ix[k].1[j]));
        assert(path_sorted(fs).to_multiset().count(ix[k].1[j]) > 0);
        assert(fs.to_multiset().count(ix[k].1[j]) > 0);
        assert(fs.contains(ix[k].1[j]));
        let i = choose|i: int| 0 <= i < fs.len() && fs[i] == ix[k].1[j];
        assert(fs[i] == g[k].1[i]);
    }
}

/// Sorting paths keeps them, each as often.
proof fn lemma_path_sorted_keeps(s: Seq<Seq<char>>)
    ensures
        path_sorted(s).to_multiset() == s.to_multiset(),
    decreases s.len(),
{
    broadcast use vstd::seq_lib::group_to_multiset_ensures;
    if s.len() > 0 {
        let d = s.drop_last();
        lemma_path_sorted_keeps(d);
        lemma_path_ins_keeps(path_sorted(d), s.last());
        assert(s =~= d.push(s.last()));
    }
}

proof fn lemma_path_ins_keeps(s: Seq<Seq<char>>, x: Seq<char>)
    ensures
        path_ins(s, x).to_multiset() == s.to_multiset().insert(x),
    decreases s.len(),
{
    broadcast use vstd::seq_lib::group_to_multiset_ensures;
    if s.len() == 0 {
        assert(seq![x] =~= s.push(x));
    } else if path_lt(x, s.last()) {
        let d = s.drop_last();
        lemma_path_ins_keeps(d, x);
        assert(s =~= d.push(s.last()));
        assert(d.to_multiset().insert(x).insert(s.last()) =~= d.to_multiset().insert(s.last()).insert(x));
    }
}

proof fn lemma_collect_hold(ks: IndexView, name: Seq<char>, limit: int, k: int, acc: Seq<Seq<char>>, paths: Seq<Seq<char>>)
    requires
        entries_hold_named(ks, paths),
        forall|i: int| 0 <= i < acc.len() ==> named_with_prefix(paths, name, #[trigger] acc[i]),
    ensures
        forall|i: int| 0 <= i < collect(ks, name, limit, k, acc).len() ==>
            named_with_prefix(paths, name, #[trigger] collect(ks, name, limit, k, acc)[i]),
    decreases ks.len() - k,
{
    if 0 <= k < ks.len() {
        if ks[k].0.len() >= name.len() && ks[k].0.take(name.len() as int) == name {
            let acc2 = acc + ks[k].1;
            assert forall|i: int| 0 <= i < acc2.len() implies named_with_prefix(paths, name, #[trigger] acc2[i]) by {
                if i >= acc.len() {
                    assert(acc2[i] == ks[k].1[i - acc.len()]);
                }
            }
            if acc2.len() < limit {
                lemma_collect_hold(ks, name, limit, k + 1, acc2, paths);
                assert(collect(ks, name, limit, k, acc) == collect(ks, name, limit, k + 1, acc2));
            } else {
                assert(collect(ks, name, limit, k, acc) == acc2);
            }
        } else {
            lemma_collect_hold(ks, name, limit, k + 1, acc, paths);
            assert(collect(ks, name, limit, k, acc) == collect(ks, name, limit, k + 1, acc));
        }
    } else {
        assert(collect(ks, name, limit, k, acc) == acc);
    }
}

/// The files of entry `e` when its name starts with `name`, else none.
pub open spec fn entry_part(e: (Seq<char>, Seq<Seq<char>>), name: Seq<char>) -> Seq<Seq<char>> {
    if e.0.len() >= name.len() && e.0.take(name.len() as int) == name {
        e.1
    } else {
        Seq::empty()
    }
}

/// The files under the names of `es` that start with `name`, entry by
/// entry.
pub open spec fn prefix_pool(es: IndexView, name: Seq<char>) -> Seq<Seq<char>>
    decreases es.len(),
{
    if es.len() == 0 {
        Seq::empty()
    } else {
        prefix_pool(es.drop_last(), name) + entry_part(es.last(), name)
    }
}

proof fn lemma_pool_ins(s: IndexView, x: (Seq<char>, Seq<Seq<char>>), name: Seq<char>, key: spec_fn((Seq<char>, Seq<Seq<char>>)) -> Seq<char>)
    ensures
        prefix_pool(ins_by(s, x, key), name).to_multiset()
            == prefix_pool(s, name).to_multiset().add(entry_part(x, name).to_multiset()),
    decreases s.len(),
{
    broadcast use vstd::seq_lib::lemma_multiset_commutative, vstd::multiset::group_multiset_axioms;
    if s.len() == 0 {
        assert(seq![x].drop_last() =~= Seq::<(Seq<char>, Seq<Seq<char>>)>::empty());
        assert(prefix_pool(s, name) =~= Seq::<Seq<char>>::empty());
        assert(prefix_pool(seq![x].drop_last(), name) == Seq::<Seq<char>>::empty());
        assert(prefix_pool(seq![x], name) =~= Seq::<Seq<char>>::empty() + entry_part(x, name));
        assert(prefix_pool(ins_by(s, x, key), name).to_multiset() =~= prefix_pool(s, name).to_multiset().add(entry_part(x, name).to_multiset()));
    } else if lex_lt(key(x), key(s.last())) {
        let d = s.drop_last();
        lemma_pool_ins(d, x, name, key);
        let t = ins_by(d, x, key);
        assert(t.push(s.last()).drop_last() =~= t);
        assert(prefix_pool(t.push(s.last()), name) == prefix_pool(t, name) + entry_part(s.last(), name));
        assert(prefix_pool(s, name) == prefix_pool(d, name) + entry_part(s.last(), name));
        assert(prefix_pool(ins_by(s, x, key), name).to_multiset() =~= prefix_pool(s, name).to_multiset().add(entry_part(x, name).to_multiset()));
    } else {
        assert(s.push(x).drop_last() =~= s);
        assert(prefix_pool(s.push(x), name) == prefix_pool(s, name) + entry_part(x, name));
    }
}

proof fn lemma_pool_sorted(s: IndexView, name: Seq<char>, key: spec_fn((Seq<char>, Seq<Seq<char>>)) -> Seq<char>)
    ensures
        prefix_pool(sorted_by(s, key), name).to_multiset() == prefix_pool(s, name).to_multiset(),
    decreases s.len(),
{
    broadcast use vstd::seq_lib::lemma_multiset_commutative, vstd::multiset::group_multiset_axioms;
    if s.len() > 0 {
        let d = s.drop_last();
        lemma_pool_sorted(d, name, key);
        lemma_pool_ins(sorted_by(d, key), s.last(), name, key);
        assert(prefix_pool(s, name) == prefix_pool(d, name) + entry_part(s.last(), name));
    } else {
        assert(sorted_by(s, key) == s);
    }
}

proof fn lemma_pool_prefix(s: IndexView, name: Seq<char>, j: int)
    requires
        0 <= j <= s.len(),
    ensures
        prefix_pool(s.take(j), name).is_prefix_of(prefix_pool(s, name)),
    decreases s.len(),
{
    if j == s.len() {
        assert(s.take(j) =~= s);
    } else {
        let d = s.drop_last();
        lemma_pool_prefix(d, name, j);
        assert(s.take(j) =~= d.take(j));
        let a = prefix_pool(d.take(j), name);
        let b = prefix_pool(d, name);
        let c = prefix_pool(s, name);
        assert(c == b + entry_part(s.last(), name));
        assert(a =~= c.subrange(0, a.len() as int)) by {
            assert(a =~= b.subrange(0, a.len() as int));
        }
    }
}

proof fn lemma_collect_pool(ks: IndexView, name: Seq<char>, limit: int, k: int)
    requires
        0 <= k <= ks.len(),
    ensures
        collect(ks, name, limit, k, prefix_pool(ks.take(k), name)).is_prefix_of(prefix_pool(ks, name)),
        collect(ks, name, limit, k, prefix_pool(ks.take(k), name)).len() >= limit
            || collect(ks, name, limit, k, prefix_pool(ks.take(k), name)) == prefix_pool(ks, name),
    decreases ks.len() - k,
{
    if k == ks.len() {
        assert(ks.take(k) =~= ks);
        assert(prefix_pool(ks, name).is_prefix_of(prefix_pool(ks, name))) by {
            assert(prefix_pool(ks, name) =~= prefix_pool(ks, name).subrange(0, prefix_pool(ks, name).len() as int));
        }
    } else {
        let acc = prefix_pool(ks.take(k), name);
        assert(ks.take(k + 1).drop_last() =~= ks.take(k));
        assert(ks.take(k + 1).last() == ks[k]);
        assert(prefix_pool(ks.take(k + 1), name) == acc + entry_part(ks[k], name));
        if ks[k].0.len() >= name.len() && ks[k].0.take(name.len() as int) == name {
            let acc2 = acc + ks[k].1;
            if acc2.len() >= limit {
                lemma_pool_prefix(ks, name, k + 1);
            } else {
                lemma_collect_pool(ks, name, limit, k + 1);
            }
        } else {
            assert(acc + entry_part(ks[k], name) =~= acc);
            lemma_collect_pool(ks, name, limit, k + 1);
        }
    }
}

/// The fallback by name prefix offers as many files as there are under the
/// names that start with `name`, up to `limit`: some of those files (each
/// at most as often as it is there), and all of them when they are no more
/// than `limit`.
pub proof fn law_prefix_files_take_what_there_is(es: IndexView, name: Seq<char>, limit: int)
    requires
        0 <= limit,
        name.len() > 0,
    ensures
        prefix_files(es, name, limit).len() == if prefix_pool(es, name).len() < limit {
            prefix_pool(es, name).len() as int
        } else {
            limit
        },
        prefix_files(es, name, limit).to_multiset().subset_of(prefix_pool(es, name).to_multiset()),
        prefix_pool(es, name).len() <= limit ==> prefix_files(es, name, limit).to_multiset()
            == prefix_pool(es, name).to_multiset(),
{
    broadcast use vstd::seq_lib::lemma_multiset_commutative, vstd::multiset::group_multiset_axioms,
        vstd::seq_lib::group_to_multiset_ensures;
    let key = |e: (Seq<char>, Seq<Seq<char>>)| entry_name(e);
    let ks = by_name(es);
    lemma_pool_sorted(es, name, key);
    let pool = prefix_pool(ks, name);
    assert(pool.to_multiset() == prefix_pool(es, name).to_multiset());
    assert(pool.to_multiset().len() == pool.len());
    assert(prefix_pool(es, name).to_multiset().len() == prefix_pool(es, name).len());
    assert(pool.len() == prefix_pool(es, name).len());
    assert(ks.take(0) =~= Seq::<(Seq<char>, Seq<Seq<char>>)>::empty());
    assert(prefix_pool(ks.take(0), name) =~= Seq::<Seq<char>>::empty());
    lemma_collect_pool(ks, name, limit, 0);
    let c = collect(ks, name, limit, 0, Seq::empty());
    assert(pool =~= c + pool.skip(c.len() as int));
    assert(c.to_multiset().subset_of(pool.to_multiset()));
    lemma_path_sorted_keeps(c);
    lemma_path_sorted_len(c);
    let srt = path_sorted(c);
    if srt.len() > limit {
        let t = srt.take(limit);
        assert(srt =~= t + srt.skip(limit));
        assert(t.to_multiset().subset_of(srt.to_multiset()));
    } else {
        if pool.len() <= limit {
            if c.len() >= limit {
                assert(c.len() == pool.len());
                assert(c =~= pool);
            }
        }
    }
}

/// Every file the fallback by name prefix offers is one of the indexed
/// files, and its name starts with the prefix.
pub proof fn law_prefix_files_are_named_by_the_prefix(paths: Seq<Seq<char>>, name: Seq<char>, limit: int)
    requires
        0 <= limit,
    ensures
        forall|i: int| 0 <= i < prefix_files(index_of(paths), name, limit).len() ==>
            named_with_prefix(paths, name, #[trigger] prefix_files(index_of(paths), name, limit)[i]),
{
    broadcast use vstd::seq_lib::group_to_multiset_ensures;
    if name.len() > 0 {
        let es = index_of(paths);
        let ks = by_name(es);
        lemma_index_hold(paths);
        assert(entries_hold_named(ks, paths)) by {
            assert forall|k: int, j: int| 0 <= k < ks.len() && 0 <= j < ks[k].1.len() implies
                paths.contains(#[trigger] ks[k].1[j]) && base_of(ks[k].1[j]) == Some(ks[k].0) by {
                assert(ks.contains(ks[k]));
                lemma_sorted_contains(es, |e: (Seq<char>, Seq<Seq<char>>)| entry_name(e), ks[k]);
                let q = choose|q: int| 0 <= q < es.len() && es[q] == ks[k];
                assert(es[q].1[j] == ks[k].1[j]);
            }
        }
        let c = collect(ks, name, limit, 0, Seq::empty());
        lemma_collect_hold(ks, name, limit, 0, Seq::empty(), paths);
        lemma_path_sorted_keeps(c);
        let s = path_sorted(c);
        assert forall|i: int| 0 <= i < s.len() implies named_with_prefix(paths, name, #[trigger] s[i]) by {
            assert(s.contains(s[i]));
            assert(s.to_multiset().count(s[i]) > 0);
            assert(c.to_multiset().count(s[i]) > 0);
            assert(c.contains(s[i]));
            let q = choose|q: int| 0 <= q < c.len() && c[q] == s[i];
        }
        if s.len() > limit {
            let t = s.take(limit);
            assert forall|i: int| 0 <= i < t.len() implies named_with_prefix(paths, name, #[trigger] t[i]) by {
                assert(t[i] == s[i]);
            }
        }
    }
}

/// How many files of one name the walk parses at most, and how many files
/// the fallback by name prefix offers.
pub const MAX_CANDIDATES_PER_NAME: usize = 256;
pub const MAX_PREFIX_CANDIDATES: usize = 256;

/// The files to parse for a module name the catalog does not know yet:
/// the files of that name, else those whose name it begins (sorted,
/// bounded), at most [`MAX_CANDIDATES_PER_NAME`] of them.
pub open spec fn candidates_for(es: Seq<(Seq<char>, Seq<Seq<char>>)>, name: Seq<char>) -> Seq<Seq<char>> {
    let exact = match key_pos(es, name, 0) {
        Some(k) => es[k].1,
        None => Seq::empty(),
    };
    let c = if exact.len() == 0 {
        prefix_files(es, name, MAX_PREFIX_CANDIDATES as int)
    } else {
        exact
    };
    if c.len() > MAX_CANDIDATES_PER_NAME {
        c.take(MAX_CANDIDATES_PER_NAME as int)
    } else {
        c
    }
}

impl NameIndex {
    /// The files to parse for a module name the catalog does not know yet
    /// ([`candidates_for`]).
    pub fn parse_candidates(&self, name: &str) -> (r: Vec<String>)
        requires
            self.wf(),
        ensures
            views(r@) == candidates_for(self.entries(), name@),
    {
        let exact = self.candidates(name);
        let mut c: Vec<String> = if exact.len() == 0 {
            self.prefix_candidates(name, MAX_PREFIX_CANDIDATES)
        } else {
            let mut v: Vec<String> = Vec::new();
            let mut k: usize = 0;
            while k < exact.len()
                invariant
                    k <= exact@.len(),
                    views(v@) == views(exact@).take(k as int),
                decreases exact@.len() - k,
            {
                let ghost before = v@;
                v.push(crate::text::string_of(crate::text::chars_of(exact[k].as_str()).as_slice()));
                proof {
                    assert(views(v@) =~= views(before).push(exact@[k as int]@));
                    assert(views(exact@).take(k + 1) =~= views(exact@).take(k as int).push(exact@[k as int]@));
                    assert(views(v@) =~= views(exact@).take(k + 1));
                }
                k = k + 1;
            }
            proof {
                assert(views(exact@).take(k as int) =~= views(exact@));
            }
            v
        };
        let ghost full = views(c@);
        if c.len() > MAX_CANDIDATES_PER_NAME {
            c.truncate(MAX_CANDIDATES_PER_NAME);
            proof {
                assert(views(c@) =~= full.take(MAX_CANDIDATES_PER_NAME as int));
            }
        }
        c
    }
}

/// A module-name dependency as plain values: the name and its revision
/// pin.
pub type SeedView = (Seq<char>, Option<Seq<char>>);

/// The views of seeds.
pub open spec fn seed_views(s: Seq<(String, Option<String>)>) -> Seq<SeedView> {
    s.map_values(|x: (String, Option<String>)| seed_view(x))
}

/// `q` with each of `deps` appended that is not in it yet (nor appended
/// before it).
pub open spec fn enqueue_new(q: Seq<SeedView>, deps: Seq<SeedView>) -> Seq<SeedView>
    decreases deps.len(),
{
    if deps.len() == 0 {
        q
    } else {
        let q1 = enqueue_new(q, deps.drop_last());
        if q1.contains(deps.last()) {
            q1
        } else {
            q1.push(deps.last())
        }
    }
}

/// `s` with `x` added when it is not there yet.
pub open spec fn add_new(s: Seq<Seq<char>>, x: Seq<char>) -> Seq<Seq<char>> {
    if s.contains(x) {
        s
    } else {
        s.push(x)
    }
}

/// A breadth-first walk over the module names an open document depends
/// on, resolving each name to the file that holds it: the decisions of
/// the walk, while the catalog lookups and parses that answer each name
/// happen outside. Every name is queued once (the seeds as given), the
/// files found and the names no file holds are kept once each.
pub struct ClosureWalk {
    /// Every name queued, in order; those before `head` were handed out.
    pub queue: Vec<(String, Option<String>)>,
    pub head: usize,
    /// The files the walk found.
    pub needed: Vec<String>,
    pub stats: ResolveStats,
}

impl ClosureWalk {
    /// Names handed out are counted, the files found and the names missing
    /// are distinct.
    pub open spec fn wf(&self) -> bool {
        &&& self.head <= self.queue@.len()
        &&& self.stats.names == self.head
        &&& views(self.needed@).no_duplicates()
        &&& views(self.stats.missing@).no_duplicates()
    }

    /// Start a walk at `seeds`.
    pub fn new(seeds: &[(String, Option<String>)]) -> (r: Self)
        ensures
            r.wf(),
            seed_views(r.queue@) == seed_views(seeds@),
            r.head == 0,
            r.needed@.len() == 0,
            r.stats.parsed == 0,
            r.stats.missing@.len() == 0,
    {
        let mut queue: Vec<(String, Option<String>)> = Vec::new();
        let mut k: usize = 0;
        while k < seeds.len()
            invariant
                k <= seeds@.len(),
                seed_views(queue@) == seed_views(seeds@).take(k as int),
            decreases seeds@.len() - k,
        {
            let ghost before = queue@;
            queue.push(copy_seed(&seeds[k]));
            proof {
                assert(seed_views(queue@) =~= seed_views(before).push(seed_view(seeds@[k as int])));
                assert(seed_views(seeds@).take(k + 1) =~= seed_views(seeds@).take(k as int).push(seed_view(seeds@[k as int])));
                assert(seed_views(queue@) =~= seed_views(seeds@).take(k + 1));
            }
            k = k + 1;
        }
        proof {
            assert(seed_views(seeds@).take(k as int) =~= seed_views(seeds@));
            assert(views(Seq::<String>::empty()) =~= Seq::<Seq<char>>::empty());
        }
        ClosureWalk { queue, head: 0, needed: Vec::new(), stats: ResolveStats::new() }
    }

    /// The next name to resolve, in the order queued, counted; none when
    /// the walk is over.
    pub fn next(&mut self) -> (r: Option<(String, Option<String>)>)
        requires
            old(self).wf(),
        ensures
            final(self).wf(),
            final(self).queue@ == old(self).queue@,
            final(self).needed@ == old(self).needed@,
            final(self).stats.parsed == old(self).stats.parsed,
            final(self).stats.missing@ == old(self).stats.missing@,
            old(self).head < old(self).queue@.len() ==> (r matches Some(x) && seed_view(x) == seed_view(
                old(self).queue@[old(self).head as int],
            ) && final(self).head == old(self).head + 1),
            old(self).head >= old(self).queue@.len() ==> (r is None && final(self).head == old(self).head),
    {
        if self.head < self.queue.len() {
            let x = copy_seed(&self.queue[self.head]);
            self.head = self.head + 1;
            self.stats.names = self.stats.names + 1;
            Some(x)
        } else {
            None
        }
    }

    /// Record what resolving `name` gave: the file that holds it (none when
    /// no file does), the headers parsed to find it, and the names that
    /// file depends on. The file is kept once, a name no file holds is kept
    /// once as missing, and each dependency not queued yet is queued.
    pub fn record(&mut self, name: &str, winner: Option<String>, parsed: usize, deps: &[(String, Option<String>)])
        requires
            old(self).wf(),
            old(self).stats.parsed + parsed <= usize::MAX,
        ensures
            final(self).wf(),
            final(self).head == old(self).head,
            final(self).stats.parsed == old(self).stats.parsed + parsed,
            seed_views(final(self).queue@) == enqueue_new(seed_views(old(self).queue@), seed_views(deps@)),
            match winner {
                Some(u) => views(final(self).needed@) == add_new(views(old(self).needed@), u@)
                    && final(self).stats.missing@ == old(self).stats.missing@,
                None => views(final(self).stats.missing@) == add_new(views(old(self).stats.missing@), name@)
                    && final(self).needed@ == old(self).needed@,
            },
    {
        self.stats.parsed = self.stats.parsed + parsed;
        match winner {
            Some(u) => {
                let had = contains_str(&self.needed, u.as_str());
                if !had {
                    let ghost before = views(self.needed@);
                    self.needed.push(u);
                    proof {
                        assert(views(self.needed@) =~= before.push(self.needed@.last()@));
                        lemma_push_distinct(before, self.needed@.last()@);
                    }
                }
            },
            None => {
                let had = contains_str(&self.stats.missing, name);
                if !had {
                    let ghost before = views(self.stats.missing@);
                    self.stats.missing.push(crate::text::string_of(crate::text::chars_of(name).as_slice()));
                    proof {
                        assert(views(self.stats.missing@) =~= before.push(name@));
                        lemma_push_distinct(before, name@);
                    }
                }
            },
        }
        let mut k: usize = 0;
        let ghost q0 = seed_views(self.queue@);
        let ghost needed1 = self.needed@;
        let ghost stats1 = self.stats;
        proof {
            assert(seed_views(deps@).take(0) =~= Seq::<SeedView>::empty());
        }
        while k < deps.len()
            invariant
                k <= deps@.len(),
                self.head <= self.queue@.len(),
                self.head == old(self).head,
                self.needed@ == needed1,
                self.stats == stats1,
                seed_views(self.queue@) == enqueue_new(q0, seed_views(deps@).take(k as int)),
            decreases deps@.len() - k,
        {
            proof {
                assert(seed_views(deps@).take(k + 1).drop_last() =~= seed_views(deps@).take(k as int));
                assert(seed_views(deps@).take(k + 1).last() == seed_view(deps@[k as int]));
            }
            if !contains_seed(&self.queue, &deps[k]) {
                let ghost before = seed_views(self.queue@);
                self.queue.push(copy_seed(&deps[k]));
                proof {
                    assert(seed_views(self.queue@) =~= before.push(seed_view(deps@[k as int])));
                }
            }
            k = k + 1;
        }
        proof {
            assert(seed_views(deps@).take(k as int) =~= seed_views(deps@));
        }
    }

    /// The files the walk found and its counters.
    pub fn finish(self) -> (r: (Vec<String>, ResolveStats))
        ensures
            r.0@ == self.needed@,
            r.1 == self.stats,
    {
        (self.needed, self.stats)
    }
}

/// Adding a new element keeps a sequence free of duplicates.
proof fn lemma_push_distinct(s: Seq<Seq<char>>, x: Seq<char>)
    requires
        s.no_duplicates(),
        !s.contains(x),
    ensures
        s.push(x).no_duplicates(),
{
    let t = s.push(x);
    assert forall|i: int, j: int| 0 <= i < t.len() && 0 <= j < t.len() && i != j implies t[i] != t[j] by {
        if i < s.len() && j < s.len() {
            assert(t[i] == s[i] && t[j] == s[j]);
        } else if i < s.len() {
            assert(t[i] == s[i]);
        } else if j < s.len() {
            assert(t[j] == s[j]);
        }
    }
}

/// A copy of a seed.
fn copy_seed(s: &(String, Option<String>)) -> (r: (String, Option<String>))
    ensures
        seed_view(r) == seed_view(*s),
{
    let name = crate::text::string_of(crate::text::chars_of(s.0.as_str()).as_slice());
    let pin = match &s.1 {
        Some(p) => Some(crate::text::string_of(crate::text::chars_of(p.as_str()).as_slice())),
        None => None,
    };
    (name, pin)
}

/// Whether `v` holds a string equal to `x`.
fn contains_str(v: &Vec<String>, x: &str) -> (r: bool)
    ensures
        r == views(v@).contains(x@),
{
    let mut k: usize = 0;
    while k < v.len()
        invariant
            k <= v@.len(),
            forall|j: int| 0 <= j < k ==> (#[trigger] v@[j])@ != x@,
        decreases v@.len() - k,
    {
        if str_eq(v[k].as_str(), x) {
            proof {
                assert(views(v@)[k as int] == x@);
            }
            return true;
        }
        k = k + 1;
    }
    proof {
        if views(v@).contains(x@) {
            let j = choose|j: int| 0 <= j < views(v@).len() && views(v@)[j] == x@;
            assert(v@[j]@ == x@);
        }
    }
    false
}

/// Whether `q` holds a seed equal to `s`.
fn contains_seed(q: &Vec<(String, Option<String>)>, s: &(String, Option<String>)) -> (r: bool)
    ensures
        r == seed_views(q@).contains(seed_view(*s)),
{
    let mut k: usize = 0;
    while k < q.len()
        invariant
            k <= q@.len(),
            forall|j: int| 0 <= j < k ==> seed_view(#[trigger] q@[j]) != seed_view(*s),
        decreases q@.len() - k,
    {
        let same_pin = match (&q[k].1, &s.1) {
            (Some(a), Some(b)) => str_eq(a.as_str(), b.as_str()),
            (None, None) => true,
            _ => false,
        };
        if same_pin && str_eq(q[k].0.as_str(), s.0.as_str()) {
            proof {
                assert(seed_views(q@)[k as int] == seed_view(*s));
            }
            return true;
        }
        k = k + 1;
    }
    proof {
        if seed_views(q@).contains(seed_view(*s)) {
            let j = choose|j: int| 0 <= j < seed_views(q@).len() && seed_views(q@)[j] == seed_view(*s);
            assert(seed_view(q@[j]) == seed_view(*s));
        }
    }
    false
}

/// Whatever the walk is told, no name is queued twice after its seeds:
/// queuing only what is not queued yet keeps every later name distinct from
/// all before it.
pub proof fn law_walk_queues_each_name_once(q: Seq<SeedView>, deps: Seq<SeedView>, seeds: int)
    requires
        0 <= seeds <= q.len(),
        forall|i: int, j: int| 0 <= i < j < q.len() && j >= seeds ==> q[i] != q[j],
    ensures
        forall|i: int, j: int|
            0 <= i < j < enqueue_new(q, deps).len() && j >= seeds ==> enqueue_new(q, deps)[i] != enqueue_new(q, deps)[j],
        enqueue_new(q, deps).len() >= q.len(),
        forall|i: int| 0 <= i < q.len() ==> enqueue_new(q, deps)[i] == q[i],
    decreases deps.len(),
{
    if deps.len() > 0 {
        law_walk_queues_each_name_once(q, deps.drop_last(), seeds);
        let q1 = enqueue_new(q, deps.drop_last());
        if !q1.contains(deps.last()) {
            let q2 = q1.push(deps.last());
            assert forall|i: int, j: int| 0 <= i < j < q2.len() && j >= seeds implies q2[i] != q2[j] by {
                if j == q1.len() {
                    assert(q2[i] == q1[i]);
                    if q1[i] == deps.last() {
                        assert(q1.contains(deps.last()));
                    }
                } else {
                    assert(q2[i] == q1[i] && q2[j] == q1[j]);
                }
            }
        }
    }
}

} // verus!
