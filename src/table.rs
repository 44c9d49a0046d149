use vstd::prelude::*;

use crate::path::{is_prefix, lemma_path_lt_irrefl, lemma_path_lt_total, lemma_path_lt_trans, path_lt, strip, Path};

verus! {

pub type PathV = Seq<Seq<u8>>;

pub type EntryV = (PathV, Option<PathV>);

/// A watched path and, where it is a symlink, the real path it resolves to.
#[derive(Clone, Debug, PartialEq, Eq)]
pub struct Entry {
    pub key: Path,
    pub canonical: Option<Path>,
}

pub open spec fn opt_view(o: Option<Path>) -> Option<PathV> {
    match o {
        Some(p) => Some(p@),
        None => None,
    }
}

impl View for Entry {
    type V = EntryV;

    open spec fn view(&self) -> EntryV {
        (self.key@, opt_view(self.canonical))
    }
}

pub open spec fn paths_view(v: Seq<Path>) -> Seq<PathV> {
    v.map_values(|p: Path| p@)
}

pub open spec fn entries_view(v: Seq<Entry>) -> Seq<EntryV> {
    v.map_values(|e: Entry| e@)
}

/// Order on optional canonical paths: an absent one is below every present one.
pub open spec fn canon_lt(a: Option<PathV>, b: Option<PathV>) -> bool {
    match (a, b) {
        (None, Some(_)) => true,
        (Some(x), Some(y)) => path_lt(x, y),
        _ => false,
    }
}

/// Entries stand in descending order of canonical path, absent ones last.
pub open spec fn sorted_desc(s: Seq<EntryV>) -> bool {
    forall|i: int, j: int| 0 <= i < j < s.len() ==> !canon_lt(#[trigger] s[i].1, #[trigger] s[j].1)
}

pub open spec fn keys_unique(s: Seq<EntryV>) -> bool {
    forall|i: int, j: int|
        0 <= i < s.len() && 0 <= j < s.len() && i != j ==> #[trigger] s[i].0 != #[trigger] s[j].0
}

/// No entry's canonical path is its own key: only genuine symlinks carry one.
pub open spec fn canon_differs(s: Seq<EntryV>) -> bool {
    forall|i: int| 0 <= i < s.len() ==> #[trigger] s[i].1 != Some(s[i].0)
}

pub open spec fn has_key(s: Seq<EntryV>, k: PathV) -> bool {
    exists|i: int| 0 <= i < s.len() && #[trigger] s[i].0 == k
}

pub open spec fn canon_of(s: Seq<EntryV>, k: PathV) -> Option<PathV> {
    s[choose|i: int| 0 <= i < s.len() && #[trigger] s[i].0 == k].1
}

/// The table as a map from watched path to canonical path.
pub open spec fn table_map(s: Seq<EntryV>) -> Map<PathV, Option<PathV>> {
    Map::new(|k: PathV| has_key(s, k), |k: PathV| canon_of(s, k))
}

/// The table that a new set of watched paths gives: each kept path keeps its
/// canonical, each new one has none yet.
pub open spec fn replaced(m: Map<PathV, Option<PathV>>, a: Seq<PathV>) -> Map<PathV, Option<PathV>> {
    Map::new(
        |k: PathV| a.contains(k),
        |k: PathV|
            if m.dom().contains(k) {
                m[k]
            } else {
                None
            },
    )
}

/// The table after the resolved canonicals `staged` are merged in, in order;
/// a path that is no longer watched is left out.
pub open spec fn apply_staged(m: Map<PathV, Option<PathV>>, staged: Seq<(PathV, PathV)>) -> Map<
    PathV,
    Option<PathV>,
>
    decreases staged.len(),
{
    if staged.len() == 0 {
        m
    } else {
        let prev = apply_staged(m, staged.drop_last());
        let kc = staged.last();
        if prev.dom().contains(kc.0) {
            prev.insert(kc.0, Some(kc.1))
        } else {
            prev
        }
    }
}

/// The aliases of `d`: for each entry, in table order, whose canonical is `d`
/// or one of its ancestors, the entry's key followed by the rest of `d`.
pub open spec fn project_spec(s: Seq<EntryV>, d: PathV) -> Seq<PathV>
    decreases s.len(),
{
    if s.len() == 0 {
        Seq::empty()
    } else {
        let prev = project_spec(s.drop_last(), d);
        let e = s.last();
        match e.1 {
            Some(c) => if is_prefix(c, d) {
                prev.push(e.0 + strip(d, c))
            } else {
                prev
            },
            None => prev,
        }
    }
}

pub proof fn lemma_canon_lt_props(a: Option<PathV>, b: Option<PathV>, c: Option<PathV>)
    ensures
        !canon_lt(a, a),
        a != b ==> canon_lt(a, b) || canon_lt(b, a),
        !(canon_lt(a, b) && canon_lt(b, a)),
        canon_lt(a, b) && canon_lt(b, c) ==> canon_lt(a, c),
{
    if let Some(x) = a {
        lemma_path_lt_irrefl(x);
        if let Some(y) = b {
            lemma_path_lt_total(x, y);
            if let Some(z) = c {
                if path_lt(x, y) && path_lt(y, z) {
                    lemma_path_lt_trans(x, y, z);
                }
            }
        }
    }
}

proof fn lemma_canon_at(s: Seq<EntryV>, i: int)
    requires
        keys_unique(s),
        0 <= i < s.len(),
    ensures
        table_map(s).dom().contains(s[i].0),
        table_map(s)[s[i].0] == s[i].1,
{
    assert(has_key(s, s[i].0));
    let j = choose|j: int| 0 <= j < s.len() && #[trigger] s[j].0 == s[i].0;
    assert(j == i);
}

proof fn lemma_view_insert(v: Seq<Entry>, k: int, e: Entry)
    requires
        0 <= k <= v.len(),
    ensures
        entries_view(v.insert(k, e)) == entries_view(v).insert(k, e@),
{
    assert(entries_view(v.insert(k, e)) =~= entries_view(v).insert(k, e@));
}

proof fn lemma_view_remove(v: Seq<Entry>, k: int)
    requires
        0 <= k < v.len(),
    ensures
        entries_view(v.remove(k)) == entries_view(v).remove(k),
{
    assert(entries_view(v.remove(k)) =~= entries_view(v).remove(k));
}

pub proof fn lemma_paths_push(v: Seq<Path>, p: Path)
    ensures
        paths_view(v.push(p)) == paths_view(v).push(p@),
{
    assert(paths_view(v.push(p)) =~= paths_view(v).push(p@));
}

pub proof fn lemma_contains_push<A>(s: Seq<A>, x: A, q: A)
    ensures
        s.push(x).contains(q) <==> (s.contains(q) || q == x),
{
    if s.push(x).contains(q) {
        let j = choose|j: int| 0 <= j < s.push(x).len() && s.push(x)[j] == q;
        if j < s.len() {
            assert(s[j] == q);
        }
    }
    if s.contains(q) {
        let j = choose|j: int| 0 <= j < s.len() && s[j] == q;
        assert(s.push(x)[j] == q);
    }
    if q == x {
        assert(s.push(x)[s.len() as int] == q);
    }
}

proof fn lemma_remove_wf(s: Seq<EntryV>, i: int)
    requires
        sorted_desc(s),
        keys_unique(s),
        canon_differs(s),
        0 <= i < s.len(),
    ensures
        sorted_desc(s.remove(i)),
        keys_unique(s.remove(i)),
        canon_differs(s.remove(i)),
        table_map(s.remove(i)) == table_map(s).remove(s[i].0),
{
    let t = s.remove(i);
    assert forall|a: int| 0 <= a < t.len() implies #[trigger] t[a].1 != Some(t[a].0) by {
        let a2 = if a < i { a } else { a + 1 };
        assert(t[a] == s[a2]);
    }
    assert forall|a: int, b: int| 0 <= a < b < t.len() implies !canon_lt(#[trigger] t[a].1, #[trigger] t[b].1) by {
        let a2 = if a < i { a } else { a + 1 };
        let b2 = if b < i { b } else { b + 1 };
        assert(t[a] == s[a2] && t[b] == s[b2]);
    }
    assert forall|a: int, b: int| 0 <= a < t.len() && 0 <= b < t.len() && a != b implies #[trigger] t[a].0 != #[trigger] t[b].0 by {
        let a2 = if a < i { a } else { a + 1 };
        let b2 = if b < i { b } else { b + 1 };
        assert(t[a] == s[a2] && t[b] == s[b2]);
    }
    let m = table_map(s).remove(s[i].0);
    assert forall|q: PathV| table_map(t).dom().contains(q) <==> m.dom().contains(q) by {
        if has_key(t, q) {
            let a = choose|a: int| 0 <= a < t.len() && #[trigger] t[a].0 == q;
            let a2 = if a < i { a } else { a + 1 };
            assert(t[a] == s[a2]);
            assert(has_key(s, q));
        }
        if m.dom().contains(q) {
            let a2 = choose|a: int| 0 <= a < s.len() && #[trigger] s[a].0 == q;
            let a = if a2 < i { a2 } else { a2 - 1 };
            assert(t[a] == s[a2]);
            assert(has_key(t, q));
        }
    }
    assert forall|q: PathV| #[trigger] table_map(t).dom().contains(q) implies table_map(t)[q] == m[q] by {
        let a = choose|a: int| 0 <= a < t.len() && #[trigger] t[a].0 == q;
        let a2 = if a < i { a } else { a + 1 };
        assert(t[a] == s[a2]);
        lemma_canon_at(t, a);
        lemma_canon_at(s, a2);
    }
    assert(table_map(t) =~= m);
}

proof fn lemma_insert_wf(s: Seq<EntryV>, k: int, e: EntryV)
    requires
        sorted_desc(s),
        keys_unique(s),
        canon_differs(s),
        e.1 != Some(e.0),
        !has_key(s, e.0),
        0 <= k <= s.len(),
        forall|i: int| 0 <= i < k ==> !canon_lt(#[trigger] s[i].1, e.1),
        k < s.len() ==> canon_lt(s[k].1, e.1),
    ensures
        sorted_desc(s.insert(k, e)),
        keys_unique(s.insert(k, e)),
        canon_differs(s.insert(k, e)),
        table_map(s.insert(k, e)) == table_map(s).insert(e.0, e.1),
{
    let t = s.insert(k, e);
    assert forall|a: int| 0 <= a < t.len() implies #[trigger] t[a].1 != Some(t[a].0) by {
        if a != k {
            let a2 = if a < k { a } else { a - 1 };
            assert(t[a] == s[a2]);
        }
    }
    assert forall|a: int, b: int| 0 <= a < b < t.len() implies !canon_lt(#[trigger] t[a].1, #[trigger] t[b].1) by {
        if a == k {
            let b2 = b - 1;
            assert(t[b] == s[b2]);
            lemma_canon_lt_props(s[b2].1, s[k].1, e.1);
            lemma_canon_lt_props(e.1, s[b2].1, s[k].1);
            lemma_canon_lt_props(s[b2].1, e.1, e.1);
            if b2 > k {
                assert(!canon_lt(s[k].1, s[b2].1));
            }
        } else if b == k {
            assert(t[a] == s[a]);
        } else {
            let a2 = if a < k { a } else { a - 1 };
            let b2 = if b < k { b } else { b - 1 };
            assert(t[a] == s[a2] && t[b] == s[b2]);
        }
    }
    assert forall|a: int, b: int| 0 <= a < t.len() && 0 <= b < t.len() && a != b implies #[trigger] t[a].0 != #[trigger] t[b].0 by {
        if a != k && b != k {
            let a2 = if a < k { a } else { a - 1 };
            let b2 = if b < k { b } else { b - 1 };
            assert(t[a] == s[a2] && t[b] == s[b2]);
        } else if a == k {
            let b2 = if b < k { b } else { b - 1 };
            assert(t[b] == s[b2]);
        } else {
            let a2 = if a < k { a } else { a - 1 };
            assert(t[a] == s[a2]);
        }
    }
    let m = table_map(s).insert(e.0, e.1);
    assert forall|q: PathV| table_map(t).dom().contains(q) <==> m.dom().contains(q) by {
        if has_key(t, q) {
            let a = choose|a: int| 0 <= a < t.len() && #[trigger] t[a].0 == q;
            if a != k {
                let a2 = if a < k { a } else { a - 1 };
                assert(t[a] == s[a2]);
                assert(has_key(s, q));
            }
        }
        if m.dom().contains(q) {
            if q == e.0 {
                assert(t[k] == e);
            } else {
                let a2 = choose|a: int| 0 <= a < s.len() && #[trigger] s[a].0 == q;
                let a = if a2 < k { a2 } else { a2 + 1 };
                assert(t[a] == s[a2]);
            }
            assert(has_key(t, q));
        }
    }
    assert forall|q: PathV| #[trigger] table_map(t).dom().contains(q) implies table_map(t)[q] == m[q] by {
        let a = choose|a: int| 0 <= a < t.len() && #[trigger] t[a].0 == q;
        lemma_canon_at(t, a);
        if a != k {
            let a2 = if a < k { a } else { a - 1 };
            assert(t[a] == s[a2]);
            lemma_canon_at(s, a2);
        }
    }
    assert(table_map(t) =~= m);
}

fn copy_opt(o: &Option<Path>) -> (r: Option<Path>)
    ensures
        opt_view(r) == opt_view(*o),
{
    match o {
        Some(p) => Some(p.copy()),
        None => None,
    }
}

fn canon_less(a: &Option<Path>, b: &Option<Path>) -> (r: bool)
    ensures
        r == canon_lt(opt_view(*a), opt_view(*b)),
{
    match (a, b) {
        (None, Some(_)) => true,
        (Some(x), Some(y)) => x.less(y),
        _ => false,
    }
}

/// Whether `p` is one of the paths in `v`.
pub fn contains_path(v: &Vec<Path>, p: &Path) -> (r: bool)
    ensures
        r == paths_view(v@).contains(p@),
{
    let mut i: usize = 0;
    while i < v.len()
        invariant
            i <= v@.len(),
            forall|j: int| 0 <= j < i ==> v@[j]@ != p@,
        decreases v@.len() - i,
    {
        if v[i].same(p) {
            assert(paths_view(v@)[i as int] == p@);
            return true;
        }
        i = i + 1;
    }
    proof {
        if paths_view(v@).contains(p@) {
            let pv = paths_view(v@);
            let j = choose|j: int| 0 <= j < pv.len() && pv[j] == p@;
            assert(v@[j]@ == p@);
        }
    }
    false
}

/// The watched paths, each with its canonical path where it has one.
#[derive(Debug)]
pub struct WatchTable {
    pub entries: Vec<Entry>,
}

impl View for WatchTable {
    type V = Seq<EntryV>;

    open spec fn view(&self) -> Seq<EntryV> {
        entries_view(self.entries@)
    }
}

impl WatchTable {
    /// Keys are unique, no canonical path equals its key, and entries are
    /// sorted descending by canonical.
    pub open spec fn wf(&self) -> bool {
        sorted_desc(self@) && keys_unique(self@) && canon_differs(self@)
    }

    pub open spec fn map(&self) -> Map<PathV, Option<PathV>> {
        table_map(self@)
    }

    /// An empty table.
    pub fn new() -> (r: WatchTable)
        ensures
            r.wf(),
            r.map() == Map::<PathV, Option<PathV>>::empty(),
    {
        let r = WatchTable { entries: Vec::new() };
        assert(r@ =~= Seq::<EntryV>::empty());
        assert(r.map() =~= Map::<PathV, Option<PathV>>::empty());
        r
    }

    /// The number of watched paths.
    pub fn len(&self) -> (r: usize)
        requires
            self.wf(),
        ensures
            r == self@.len(),
            r == self.map().dom().len(),
    {
        proof {
            self.lemma_dom_len();
        }
        self.entries.len()
    }

    proof fn lemma_dom_len(&self)
        requires
            self.wf(),
        ensures
            self.map().dom().len() == self@.len(),
        decreases self@.len(),
    {
        let s = self@;
        let ks = s.map_values(|e: EntryV| e.0);
        assert(ks.no_duplicates()) by {
            assert forall|i: int, j: int| 0 <= i < ks.len() && 0 <= j < ks.len() && i != j implies ks[i] != ks[j] by {
                assert(s[i].0 != s[j].0);
            }
        }
        assert(self.map().dom() =~= ks.to_set()) by {
            assert forall|q: PathV| self.map().dom().contains(q) <==> ks.to_set().contains(q) by {
                if has_key(s, q) {
                    let a = choose|a: int| 0 <= a < s.len() && #[trigger] s[a].0 == q;
                    assert(ks[a] == q);
                }
                if ks.contains(q) {
                    let a = choose|a: int| 0 <= a < ks.len() && ks[a] == q;
                    assert(s[a].0 == q);
                }
            }
        }
        ks.unique_seq_to_set();
    }

    /// The position of the entry for `k`.
    pub fn find(&self, k: &Path) -> (r: Option<usize>)
        requires
            self.wf(),
        ensures
            r.is_none() <==> !self.map().dom().contains(k@),
            r.is_some() ==> r.unwrap() < self@.len() && self@[r.unwrap() as int].0 == k@,
    {
        let mut i: usize = 0;
        while i < self.entries.len()
            invariant
                i <= self@.len(),
                forall|j: int| 0 <= j < i ==> self@[j].0 != k@,
            decreases self@.len() - i,
        {
            if self.entries[i].key.same(k) {
                assert(has_key(self@, self@[i as int].0));
                return Some(i);
            }
            i = i + 1;
        }
        None
    }

    /// The canonical path of `k`, where `k` is watched and has one.
    pub fn canonical_of(&self, k: &Path) -> (r: Option<Path>)
        requires
            self.wf(),
        ensures
            opt_view(r) == (if self.map().dom().contains(k@) {
                self.map()[k@]
            } else {
                None
            }),
            opt_view(r) != Some(k@),
    {
        match self.find(k) {
            Some(i) => {
                proof {
                    lemma_canon_at(self@, i as int);
                    assert(self@[i as int].1 != Some(self@[i as int].0));
                }
                copy_opt(&self.entries[i].canonical)
            },
            None => None,
        }
    }

    fn insert_sorted(&mut self, e: Entry)
        requires
            old(self).wf(),
            e@.1 != Some(e@.0),
            !old(self).map().dom().contains(e@.0),
        ensures
            final(self).wf(),
            final(self).map() == old(self).map().insert(e@.0, e@.1),
    {
        let mut k: usize = 0;
        while k < self.entries.len() && !canon_less(&self.entries[k].canonical, &e.canonical)
            invariant
                k <= self@.len(),
                forall|i: int| 0 <= i < k ==> !canon_lt(#[trigger] self@[i].1, e@.1),
            decreases self@.len() - k,
        {
            k = k + 1;
        }
        proof {
            lemma_insert_wf(self@, k as int, e@);
            lemma_view_insert(self.entries@, k as int, e);
        }
        self.entries.insert(k, e);
    }

    fn remove_at(&mut self, i: usize) -> (r: Entry)
        requires
            old(self).wf(),
            i < old(self)@.len(),
        ensures
            final(self).wf(),
            r@ == old(self)@[i as int],
            final(self).map() == old(self).map().remove(r@.0),
    {
        proof {
            lemma_remove_wf(self@, i as int);
            lemma_view_remove(self.entries@, i as int);
        }
        self.entries.remove(i)
    }

    /// Records `c` as the canonical path of `k`, where `k` is watched.
    pub fn set_canonical(&mut self, k: &Path, c: Path)
        requires
            old(self).wf(),
            c@ != k@,
        ensures
            final(self).wf(),
            final(self).map() == (if old(self).map().dom().contains(k@) {
                old(self).map().insert(k@, Some(c@))
            } else {
                old(self).map()
            }),
    {
        match self.find(k) {
            Some(i) => {
                let ghost m0 = self.map();
                let e = self.remove_at(i);
                proof {
                    assert(!self.map().dom().contains(k@));
                }
                self.insert_sorted(Entry { key: e.key, canonical: Some(c) });
                assert(self.map() =~= m0.insert(k@, Some(c@)));
            },
            None => {},
        }
    }

    /// Merges resolved canonical paths into the table, one after the other,
    /// and keeps it sorted. Paths no longer watched are left out.
    pub fn extend_canonicals(&mut self, staged: &Vec<(Path, Path)>)
        requires
            old(self).wf(),
            forall|i: int| 0 <= i < staged@.len() ==> #[trigger] staged@[i].0@ != staged@[i].1@,
        ensures
            final(self).wf(),
            final(self).map() == apply_staged(
                old(self).map(),
                staged@.map_values(|kc: (Path, Path)| (kc.0@, kc.1@)),
            ),
    {
        let ghost sv = staged@.map_values(|kc: (Path, Path)| (kc.0@, kc.1@));
        let ghost m0 = self.map();
        let mut i: usize = 0;
        assert(sv.subrange(0, 0).len() == 0);
        while i < staged.len()
            invariant
                i <= staged@.len(),
                sv == staged@.map_values(|kc: (Path, Path)| (kc.0@, kc.1@)),
                forall|i: int| 0 <= i < staged@.len() ==> #[trigger] staged@[i].0@ != staged@[i].1@,
                self.wf(),
                self.map() == apply_staged(m0, sv.subrange(0, i as int)),
            decreases staged@.len() - i,
        {
            let c = staged[i].1.copy();
            self.set_canonical(&staged[i].0, c);
            proof {
                assert(sv.subrange(0, i as int + 1).drop_last() =~= sv.subrange(0, i as int));
            }
            i = i + 1;
        }
        assert(sv.subrange(0, staged@.len() as int) =~= sv);
    }

    /// Replaces the set of watched paths by `accepted`. A path that stays
    /// keeps its canonical path; a new one has none. Returns the new paths,
    /// whose canonical paths are still to be resolved.
    pub fn replace(&mut self, accepted: &Vec<Path>) -> (todo: Vec<Path>)
        requires
            old(self).wf(),
        ensures
            final(self).wf(),
            final(self).map() == replaced(old(self).map(), paths_view(accepted@)),
            forall|k: PathV|
                paths_view(todo@).contains(k) <==> (paths_view(accepted@).contains(k)
                    && !old(self).map().dom().contains(k)),
    {
        let ghost a = paths_view(accepted@);
        let ghost m0 = self.map();
        let mut t = WatchTable::new();
        let mut todo: Vec<Path> = Vec::new();
        let mut i: usize = 0;
        assert(replaced(m0, a.subrange(0, 0)) =~= t.map());
        while i < accepted.len()
            invariant
                i <= accepted@.len(),
                a == paths_view(accepted@),
                self.wf(),
                self.map() == m0,
                t.wf(),
                t.map() == replaced(m0, a.subrange(0, i as int)),
                forall|k: PathV|
                    #[trigger] paths_view(todo@).contains(k) <==> (a.subrange(0, i as int).contains(k)
                        && !m0.dom().contains(k)),
                forall|k: PathV|
                    #[trigger] a.subrange(0, i as int).contains(k) && !m0.dom().contains(k) ==> paths_view(todo@).contains(k),
            decreases accepted@.len() - i,
        {
            let k = &accepted[i];
            let ghost todo0 = paths_view(todo@);
            let ghost mut pushed = false;
            proof {
                assert(a.subrange(0, i as int + 1) =~= a.subrange(0, i as int).push(k@));
                assert forall|q: PathV| #[trigger] a.subrange(0, i as int + 1).contains(q) <==> (
                a.subrange(0, i as int).contains(q) || q == k@) by {
                    lemma_contains_push(a.subrange(0, i as int), k@, q);
                }
            }
            if t.find(k).is_none() {
                let c = self.canonical_of(k);
                if c.is_none() && self.find(k).is_none() {
                    let kc = k.copy();
                    proof {
                        lemma_paths_push(todo@, kc);
                        pushed = true;
                    }
                    todo.push(kc);
                }
                t.insert_sorted(Entry { key: k.copy(), canonical: c });
                assert(t.map() =~= replaced(m0, a.subrange(0, i as int + 1)));
            } else {
                assert(t.map() =~= replaced(m0, a.subrange(0, i as int + 1)));
            }
            proof {
                assert forall|q: PathV|
                    #[trigger] paths_view(todo@).contains(q) <==> (a.subrange(0, i as int + 1).contains(q)
                        && !m0.dom().contains(q)) by {
                    lemma_contains_push(a.subrange(0, i as int), k@, q);
                    if pushed {
                        lemma_contains_push(todo0, k@, q);
                    }
                }
            }
            i = i + 1;
        }
        assert(a.subrange(0, accepted@.len() as int) =~= a);
        self.entries = t.entries;
        assert forall|k: PathV|
            paths_view(todo@).contains(k) <==> (paths_view(accepted@).contains(k)
                && !m0.dom().contains(k)) by {
            assert(paths_view(todo@).contains(k) <==> (a.subrange(0, accepted@.len() as int).contains(k)
                && !m0.dom().contains(k)));
        }
        todo
    }

    /// The watched paths, in table order.
    pub fn keys(&self) -> (r: Vec<Path>)
        ensures
            paths_view(r@) == self@.map_values(|e: EntryV| e.0),
    {
        let mut r: Vec<Path> = Vec::new();
        let mut i: usize = 0;
        while i < self.entries.len()
            invariant
                i <= self@.len(),
                paths_view(r@) == self@.subrange(0, i as int).map_values(|e: EntryV| e.0),
            decreases self@.len() - i,
        {
            let k = self.entries[i].key.copy();
            proof {
                lemma_paths_push(r@, k);
            }
            r.push(k);
            i = i + 1;
            assert(paths_view(r@) =~= self@.subrange(0, i as int).map_values(|e: EntryV| e.0));
        }
        assert(self@.subrange(0, self@.len() as int) =~= self@);
        r
    }

    /// The aliases of the physical path `d`: for each entry whose canonical
    /// is `d` or an ancestor of it, the entry's key followed by the rest of `d`.
    pub fn project(&self, d: &Path) -> (r: Vec<Path>)
        ensures
            paths_view(r@) == project_spec(self@, d@),
    {
        let mut r: Vec<Path> = Vec::new();
        let mut i: usize = 0;
        assert(self@.subrange(0, 0) =~= Seq::<EntryV>::empty());
        while i < self.entries.len()
            invariant
                i <= self@.len(),
                paths_view(r@) == project_spec(self@.subrange(0, i as int), d@),
            decreases self@.len() - i,
        {
            proof {
                assert(self@.subrange(0, i as int + 1).drop_last() =~= self@.subrange(0, i as int));
            }
            match &self.entries[i].canonical {
                Some(c) => {
                    if d.starts_with(c) {
                        let a = self.entries[i].key.join_from(d, c.len());
                        proof {
                            lemma_paths_push(r@, a);
                        }
                        r.push(a);
                    }
                },
                None => {},
            }
            i = i + 1;
        }
        assert(self@.subrange(0, self@.len() as int) =~= self@);
        r
    }
}

} // verus!
