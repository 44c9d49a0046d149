use vstd::prelude::*;

use crate::path::{is_prefix, strip, Path};
use crate::table::{
    apply_staged, contains_path, lemma_contains_push, lemma_paths_push, paths_view, project_spec, replaced, EntryV,
    PathV, WatchTable,
};

verus! {

/// What a new set of watched paths asks of the native watcher.
#[derive(Debug)]
pub struct WatchPlan {
    /// Watched now and not asked for: to unregister.
    pub unwatch: Vec<Path>,
    /// Asked for and not watched yet: to register.
    pub watch: Vec<Path>,
}

/// The paths of `v` that are (`keep`) or are not in `other`, in order.
fn filter_in(v: &Vec<Path>, other: &Vec<Path>, keep: bool) -> (r: Vec<Path>)
    ensures
        forall|q: PathV|
            #[trigger] paths_view(r@).contains(q) <==> (paths_view(v@).contains(q) && paths_view(
                other@,
            ).contains(q) == keep),
        paths_view(v@).no_duplicates() ==> paths_view(r@).no_duplicates(),
{
    let mut r: Vec<Path> = Vec::new();
    let mut i: usize = 0;
    let ghost vv = paths_view(v@);
    while i < v.len()
        invariant
            i <= v@.len(),
            vv == paths_view(v@),
            forall|q: PathV|
                #[trigger] paths_view(r@).contains(q) <==> (vv.subrange(0, i as int).contains(q)
                    && paths_view(other@).contains(q) == keep),
            vv.no_duplicates() ==> paths_view(r@).no_duplicates(),
        decreases v@.len() - i,
    {
        let p = &v[i];
        let ghost r0 = paths_view(r@);
        let ghost mut pushed = false;
        if contains_path(other, p) == keep {
            let c = p.copy();
            proof {
                lemma_paths_push(r@, c);
                pushed = true;
                if vv.no_duplicates() {
                    if r0.contains(p@) {
                        assert(vv.subrange(0, i as int).contains(p@));
                        let j = choose|j: int| 0 <= j < i && #[trigger] vv.subrange(0, i as int)[j] == p@;
                        assert(vv[j] == vv[i as int]);
                    }
                    assert forall|a: int, b: int|
                        0 <= a < r0.push(p@).len() && 0 <= b < r0.push(p@).len() && a != b implies r0.push(p@)[a]
                        != r0.push(p@)[b] by {
                        if a == r0.len() {
                            assert(r0[b] == r0.push(p@)[b]);
                        } else if b == r0.len() {
                            assert(r0[a] == r0.push(p@)[a]);
                        }
                    }
                }
            }
            r.push(c);
        }
        proof {
            assert(vv.subrange(0, i as int + 1) =~= vv.subrange(0, i as int).push(p@));
            assert forall|q: PathV|
                #[trigger] paths_view(r@).contains(q) <==> (vv.subrange(0, i as int + 1).contains(q)
                    && paths_view(other@).contains(q) == keep) by {
                lemma_contains_push(vv.subrange(0, i as int), p@, q);
                if pushed {
                    lemma_contains_push(r0, p@, q);
                }
            }
        }
        i = i + 1;
    }
    assert(vv.subrange(0, v@.len() as int) =~= vv);
    r
}

/// What watching `requested` asks of the native watcher, given the table.
pub fn plan_watch(table: &WatchTable, requested: &Vec<Path>) -> (r: WatchPlan)
    requires
        table.wf(),
    ensures
        forall|q: PathV|
            #[trigger] paths_view(r.unwatch@).contains(q) <==> (table.map().dom().contains(q)
                && !paths_view(requested@).contains(q)),
        forall|q: PathV|
            #[trigger] paths_view(r.watch@).contains(q) <==> (paths_view(requested@).contains(q)
                && !table.map().dom().contains(q)),
        paths_view(r.unwatch@).no_duplicates(),
        paths_view(requested@).no_duplicates() ==> paths_view(r.watch@).no_duplicates(),
{
    let keys = table.keys();
    proof {
        assert forall|q: PathV| paths_view(keys@).contains(q) <==> table.map().dom().contains(q) by {
            let s = table@;
            if paths_view(keys@).contains(q) {
                let j = choose|j: int| 0 <= j < paths_view(keys@).len() && paths_view(keys@)[j] == q;
                assert(s[j].0 == q);
            }
            if table.map().dom().contains(q) {
                let j = choose|j: int| 0 <= j < s.len() && #[trigger] s[j].0 == q;
                assert(paths_view(keys@)[j] == q);
            }
        }
    }
    proof {
        let kv = paths_view(keys@);
        assert forall|a: int, b: int| 0 <= a < kv.len() && 0 <= b < kv.len() && a != b implies kv[a]
            != kv[b] by {
            assert(kv[a] == table@[a].0 && kv[b] == table@[b].0);
        }
    }
    let unwatch = filter_in(&keys, requested, false);
    let watch = filter_in(requested, &keys, false);
    WatchPlan { unwatch, watch }
}

/// The requested paths less those whose registration failed.
pub fn accepted(requested: &Vec<Path>, failed: &Vec<Path>) -> (r: Vec<Path>)
    ensures
        forall|q: PathV|
            #[trigger] paths_view(r@).contains(q) <==> (paths_view(requested@).contains(q)
                && !paths_view(failed@).contains(q)),
{
    filter_in(requested, failed, false)
}

/// Watches `requested` in the table, where the paths of `failed` could not
/// be registered: the table then holds exactly the other requested paths.
/// Returns the paths new to the table, whose canonical paths are to be resolved.
pub fn watch(table: &mut WatchTable, requested: &Vec<Path>, failed: &Vec<Path>) -> (todo: Vec<Path>)
    requires
        old(table).wf(),
    ensures
        final(table).wf(),
        forall|q: PathV|
            #[trigger] final(table).map().dom().contains(q) ==> final(table).map()[q] == (if old(
                table,
            ).map().dom().contains(q) {
                old(table).map()[q]
            } else {
                None
            }),
        final(table).map().dom() == Set::new(
            |q: PathV| paths_view(requested@).contains(q) && !paths_view(failed@).contains(q),
        ),
        forall|q: PathV|
            #[trigger] paths_view(todo@).contains(q) <==> (paths_view(requested@).contains(q)
                && !paths_view(failed@).contains(q) && !old(table).map().dom().contains(q)),
{
    let acc = accepted(requested, failed);
    let todo = table.replace(&acc);
    assert(table.map().dom() =~= Set::new(
        |q: PathV| paths_view(requested@).contains(q) && !paths_view(failed@).contains(q),
    ));
    todo
}

/// The entry to stage for the watched path `k`, given what it resolved to:
/// only a resolution that differs from `k` itself is kept.
pub fn stage(k: &Path, resolved: Option<Path>) -> (r: Option<(Path, Path)>)
    ensures
        match resolved {
            Some(c) => if c@ != k@ {
                r.is_some() && r.unwrap().0@ == k@ && r.unwrap().1@ == c@
            } else {
                r.is_none()
            },
            None => r.is_none(),
        },
{
    match resolved {
        Some(c) => if c.same(k) {
            None
        } else {
            Some((k.copy(), c))
        },
        None => None,
    }
}

/// Merging resolved canonicals never changes which paths are watched.
pub proof fn lemma_staged_keeps_keys(m: Map<PathV, Option<PathV>>, staged: Seq<(PathV, PathV)>)
    ensures
        apply_staged(m, staged).dom() == m.dom(),
    decreases staged.len(),
{
    if staged.len() > 0 {
        lemma_staged_keeps_keys(m, staged.drop_last());
        let prev = apply_staged(m, staged.drop_last());
        if prev.dom().contains(staged.last().0) {
            assert(prev.insert(staged.last().0, Some(staged.last().1)).dom() =~= prev.dom());
        }
    }
}

/// After a watch of `requested` in which the paths of `failed` could not be
/// registered, and after any canonical paths have been merged in, the table
/// watches exactly the requested paths that were registered.
pub proof fn lemma_watch_settles(
    m: Map<PathV, Option<PathV>>,
    requested: Seq<PathV>,
    failed: Seq<PathV>,
    accepted: Seq<PathV>,
    staged: Seq<(PathV, PathV)>,
)
    requires
        forall|q: PathV| #[trigger] accepted.contains(q) <==> (requested.contains(q) && !failed.contains(q)),
    ensures
        apply_staged(replaced(m, accepted), staged).dom() == Set::new(
            |q: PathV| requested.contains(q) && !failed.contains(q),
        ),
{
    lemma_staged_keeps_keys(replaced(m, accepted), staged);
    assert(replaced(m, accepted).dom() =~= Set::new(
        |q: PathV| requested.contains(q) && !failed.contains(q),
    ));
}

/// Watching the set that is already watched leaves the table as it is.
pub proof fn lemma_rewatch_no_op(t: Map<PathV, Option<PathV>>, a: Seq<PathV>)
    requires
        t.dom() == a.to_set(),
    ensures
        replaced(t, a) == t,
{
    assert(replaced(t, a) =~= t);
}

/// Watching one set twice gives the table that the first watch gave.
pub proof fn lemma_watch_twice(m: Map<PathV, Option<PathV>>, a: Seq<PathV>)
    ensures
        replaced(replaced(m, a), a) == replaced(m, a),
{
    assert(replaced(replaced(m, a), a) =~= replaced(m, a));
}

/// Projecting `canonical + r` through the table yields `key + r` for an
/// entry that has that canonical path.
pub proof fn lemma_project_round_trip(s: Seq<EntryV>, i: int, c: PathV, r: PathV)
    requires
        0 <= i < s.len(),
        s[i].1 == Some(c),
    ensures
        project_spec(s, c + r).contains(s[i].0 + r),
    decreases s.len(),
{
    let d = c + r;
    assert(d.subrange(0, c.len() as int) =~= c);
    assert(strip(d, c) =~= r);
    if i == s.len() - 1 {
        let prev = project_spec(s.drop_last(), d);
        assert(project_spec(s, d) == prev.push(s[i].0 + r));
        assert(project_spec(s, d)[prev.len() as int] == s[i].0 + r);
    } else {
        lemma_project_round_trip(s.drop_last(), i, c, r);
        let prev = project_spec(s.drop_last(), d);
        let j = choose|j: int| 0 <= j < prev.len() && prev[j] == s[i].0 + r;
        let cur = project_spec(s, d);
        assert(cur == prev || cur == prev.push(s.last().0 + strip(d, s.last().1.unwrap())));
        assert(cur[j] == s[i].0 + r);
    }
}

/// A path under no entry's canonical path has no alias.
pub proof fn lemma_project_unaliased(s: Seq<EntryV>, p: PathV)
    requires
        forall|i: int|
            0 <= i < s.len() ==> match #[trigger] s[i].1 {
                Some(c) => !is_prefix(c, p),
                None => true,
            },
    ensures
        project_spec(s, p) == Seq::<PathV>::empty(),
    decreases s.len(),
{
    if s.len() > 0 {
        assert(s.last() == s[s.len() - 1]);
        lemma_project_unaliased(s.drop_last(), p);
    }
}

} // verus!
