use yazi_watch::classify::{classify, EventKind, MetadataKind, ModifyKind};
use yazi_watch::debounce::{Debouncer, WINDOW_MS};
use yazi_watch::dispatch::{
    batch_emissions, dedup_sorted, dir_changed, dir_emissions, file_changed, namespace, rebase, split_batch, Emission,
};
use yazi_watch::path::Path;
use yazi_watch::table::WatchTable;
use yazi_watch::watcher::{accepted, plan_watch, stage, watch};

fn p(s: &str) -> Path {
    Path { comps: s.split('/').filter(|c| !c.is_empty()).map(|c| c.as_bytes().to_vec()).collect() }
}

fn ps(v: &[&str]) -> Vec<Path> {
    v.iter().map(|s| p(s)).collect()
}

fn table_with(keys: &[&str], canon: &[(&str, &str)]) -> WatchTable {
    let mut t = WatchTable::new();
    watch(&mut t, &ps(keys), &Vec::new());
    let staged: Vec<(Path, Path)> = canon.iter().map(|(k, c)| (p(k), p(c))).collect();
    t.extend_canonicals(&staged);
    t
}

#[test]
fn parent_of_file_and_root() {
    assert_eq!(p("/a/f").parent_or_self(), p("/a"));
    assert_eq!(p("/a").parent_or_self(), p("/"));
    assert_eq!(p("/").parent_or_self(), p("/"));
}

#[test]
fn classify_create_enqueues_parent() {
    assert_eq!(classify(EventKind::Create, &ps(&["/a/f", "/b/g"])), ps(&["/a"]));
}

#[test]
fn classify_modify_data_enqueues_path_and_parent() {
    assert_eq!(classify(EventKind::Modify(ModifyKind::Data), &ps(&["/a/f"])), ps(&["/a/f", "/a"]));
}

#[test]
fn classify_metadata_kinds() {
    for k in [MetadataKind::Permissions, MetadataKind::Ownership, MetadataKind::Extended] {
        let r = classify(EventKind::Modify(ModifyKind::Metadata(k)), &ps(&["/a/f"]));
        assert_eq!(r, ps(&["/a/f", "/a"]));
    }
    let r = classify(EventKind::Modify(ModifyKind::Metadata(MetadataKind::Other)), &ps(&["/a/f"]));
    assert!(r.is_empty());
}

#[test]
fn classify_name_remove_and_others() {
    assert_eq!(classify(EventKind::Modify(ModifyKind::Name), &ps(&["/a/f"])), ps(&["/a/f", "/a"]));
    assert_eq!(classify(EventKind::Remove, &ps(&["/a/f"])), ps(&["/a/f", "/a"]));
    assert!(classify(EventKind::Modify(ModifyKind::Other), &ps(&["/a/f"])).is_empty());
    assert!(classify(EventKind::Other, &ps(&["/a/f"])).is_empty());
}

#[test]
fn classify_empty_paths_dropped() {
    assert!(classify(EventKind::Create, &Vec::new()).is_empty());
    assert!(classify(EventKind::Remove, &Vec::new()).is_empty());
}

#[test]
fn classify_create_on_root_enqueues_root() {
    assert_eq!(classify(EventKind::Create, &ps(&["/"])), ps(&["/"]));
}

#[test]
fn debounce_rapid_events_coalesce() {
    let mut d = Debouncer::new(WINDOW_MS);
    assert!(d.push(p("/a"), 1000).is_none());
    assert!(d.push(p("/a"), 1100).is_none());
    assert!(d.poll(1299).is_none());
    assert_eq!(d.poll(1300), Some(ps(&["/a"])));
    assert!(d.poll(2000).is_none());
}

#[test]
fn debounce_late_event_starts_new_batch() {
    let mut d = Debouncer::new(WINDOW_MS);
    assert!(d.push(p("/a"), 1000).is_none());
    assert_eq!(d.push(p("/b"), 1300), Some(ps(&["/a"])));
    assert_eq!(d.finish(), Some(ps(&["/b"])));
    assert!(d.finish().is_none());
}

#[test]
fn debounce_deadline() {
    let mut d = Debouncer::new(WINDOW_MS);
    assert_eq!(d.deadline(), None);
    d.push(p("/a"), 10);
    assert_eq!(d.deadline(), Some(310));
    assert!(!d.due(309));
    assert!(d.due(310));
}

#[test]
fn debounce_coalescing_scenario() {
    let mut d = Debouncer::new(WINDOW_MS);
    let mut out = Vec::new();
    for (i, q) in classify(EventKind::Create, &ps(&["/a/f1"])).into_iter().enumerate() {
        assert!(d.push(q, i as u64).is_none());
    }
    for q in classify(EventKind::Remove, &ps(&["/a/f2"])) {
        assert!(d.push(q, 100).is_none());
    }
    if let Some(b) = d.poll(400) {
        out.push(b);
    }
    assert_eq!(out.len(), 1);
    let batch = dedup_sorted(&out[0]);
    assert_eq!(batch, ps(&["/a", "/a/f2"]));
    assert_eq!(batch.iter().filter(|q| **q == p("/a")).count(), 1);
}

#[test]
fn dedup_sorted_orders_and_dedups() {
    let r = dedup_sorted(&ps(&["/b", "/a/x", "/a", "/b", "/a/x"]));
    assert_eq!(r, ps(&["/a", "/a/x", "/b"]));
    assert!(dedup_sorted(&Vec::new()).is_empty());
}

#[test]
fn split_batch_by_flag() {
    let (f, d) = split_batch(&ps(&["/a", "/a/f", "/b"]), &vec![false, true, false]);
    assert_eq!(f, ps(&["/a/f"]));
    assert_eq!(d, ps(&["/a", "/b"]));
}

#[test]
fn file_changed_with_and_without_mime() {
    let t = WatchTable::new();
    let r = file_changed(&t, &ps(&["/a/f", "/a/g"]), true);
    assert_eq!(r, vec![Emission::MimeUpdate, Emission::IOErr(p("/a/f")), Emission::IOErr(p("/a/g"))]);
    let r = file_changed(&t, &ps(&["/a/f"]), false);
    assert_eq!(r, vec![Emission::IOErr(p("/a/f"))]);
}

#[test]
fn simple_file_modification() {
    let t = table_with(&["/a"], &[]);
    let mut d = Debouncer::new(WINDOW_MS);
    for q in classify(EventKind::Modify(ModifyKind::Data), &ps(&["/a/f"])) {
        d.push(q, 0);
    }
    let batch = dedup_sorted(&d.poll(WINDOW_MS).unwrap());
    assert_eq!(batch, ps(&["/a", "/a/f"]));
    let (files, dirs) = split_batch(&batch, &vec![false, true]);
    let mut out = file_changed(&t, &files, true);
    for dir in &dirs {
        out.extend(dir_changed(&t, dir, &Some(ps(&["/a/f"]))));
    }
    assert_eq!(
        out,
        vec![
            Emission::MimeUpdate,
            Emission::IOErr(p("/a/f")),
            Emission::DirRead { dir: p("/a"), children: ps(&["/a/f"]) },
        ]
    );
}

#[test]
fn symlink_aliasing() {
    let t = table_with(&["/link"], &[("/link", "/real")]);
    let enq = classify(EventKind::Create, &ps(&["/real/x"]));
    assert_eq!(enq, ps(&["/real"]));
    let out = dir_changed(&t, &enq[0], &Some(ps(&["/real/x", "/real/y"])));
    assert_eq!(out, vec![Emission::DirRead { dir: p("/link"), children: ps(&["/link/x", "/link/y"]) }]);
    let out = dir_changed(&t, &p("/real"), &None);
    assert_eq!(out, vec![Emission::IOErr(p("/link"))]);
}

#[test]
fn aliases_fan_out() {
    let t = table_with(&["/l1", "/l2", "/c"], &[("/l1", "/real"), ("/l2", "/real/sub")]);
    assert_eq!(t.project(&p("/real/sub/d")), ps(&["/l2/d", "/l1/sub/d"]));
    assert_eq!(t.project(&p("/c/d")), Vec::<Path>::new());
    let out = dir_emissions(&p("/real/sub"), &ps(&["/l2", "/l1/sub"]), &Some(ps(&["/real/sub/z"])));
    assert_eq!(
        out,
        vec![
            Emission::DirRead { dir: p("/l2"), children: ps(&["/l2/z"]) },
            Emission::DirRead { dir: p("/l1/sub"), children: ps(&["/l1/sub/z"]) },
        ]
    );
}

#[test]
fn project_round_trip() {
    let t = table_with(&["/k"], &[("/k", "/c/d")]);
    assert_eq!(t.project(&p("/c/d/r/s")), ps(&["/k/r/s"]));
    assert_eq!(t.project(&p("/c/d")), ps(&["/k"]));
    assert!(t.project(&p("/k/r")).is_empty());
    assert!(t.project(&p("/c/dd")).is_empty());
}

#[test]
fn table_sorted_descending_by_canonical() {
    let t = table_with(&["/x", "/y", "/z"], &[("/x", "/m"), ("/z", "/q")]);
    let order: Vec<Path> = t.keys();
    assert_eq!(order, ps(&["/z", "/x", "/y"]));
    assert_eq!(t.entries[0].canonical, Some(p("/q")));
    assert_eq!(t.entries[2].canonical, None);
}

#[test]
fn rebase_children() {
    assert_eq!(rebase(&ps(&["/r/a", "/r/b/c"]), &p("/r"), &p("/l")), ps(&["/l/a", "/l/b/c"]));
}

#[test]
fn narrower_watch_set() {
    let mut t = WatchTable::new();
    let plan = plan_watch(&t, &ps(&["/a", "/b"]));
    assert!(plan.unwatch.is_empty());
    assert_eq!(plan.watch.len(), 2);
    watch(&mut t, &ps(&["/a", "/b"]), &Vec::new());
    let plan = plan_watch(&t, &ps(&["/b"]));
    assert_eq!(plan.unwatch, ps(&["/a"]));
    assert!(plan.watch.is_empty());
    let todo = watch(&mut t, &ps(&["/b"]), &Vec::new());
    assert!(todo.is_empty());
    assert_eq!(t.keys(), ps(&["/b"]));
    assert!(t.find(&p("/a")).is_none());
    assert_eq!(dir_changed(&t, &p("/a"), &None), vec![Emission::IOErr(p("/a"))]);
}

#[test]
fn registration_failure() {
    let mut t = WatchTable::new();
    let todo = watch(&mut t, &ps(&["/a", "/forbidden"]), &ps(&["/forbidden"]));
    assert_eq!(todo, ps(&["/a"]));
    assert_eq!(t.keys(), ps(&["/a"]));
    let plan = plan_watch(&t, &ps(&["/forbidden"]));
    assert_eq!(plan.watch, ps(&["/forbidden"]));
    assert_eq!(plan.unwatch, ps(&["/a"]));
    watch(&mut t, &ps(&["/forbidden"]), &ps(&["/forbidden"]));
    assert!(t.keys().is_empty());
    assert_eq!(accepted(&ps(&["/a", "/b"]), &ps(&["/b"])), ps(&["/a"]));
}

#[test]
fn watch_twice_is_no_op() {
    let mut t = table_with(&["/a", "/l"], &[("/l", "/r")]);
    let before: Vec<_> = t.entries.clone();
    let plan = plan_watch(&t, &ps(&["/a", "/l"]));
    assert!(plan.unwatch.is_empty() && plan.watch.is_empty());
    let todo = watch(&mut t, &ps(&["/a", "/l"]), &Vec::new());
    assert!(todo.is_empty());
    assert_eq!(t.entries, before);
}

#[test]
fn canonical_of_removed_key_is_ignored() {
    let mut t = table_with(&["/a"], &[]);
    t.extend_canonicals(&vec![(p("/gone"), p("/r"))]);
    assert_eq!(t.keys(), ps(&["/a"]));
    t.set_canonical(&p("/a"), p("/r"));
    assert_eq!(t.canonical_of(&p("/a")), Some(p("/r")));
}

#[test]
fn stage_keeps_only_real_symlinks() {
    assert!(stage(&p("/a"), Some(p("/a"))).is_none());
    assert!(stage(&p("/a"), None).is_none());
    assert_eq!(stage(&p("/a"), Some(p("/b"))), Some((p("/a"), p("/b"))));
}

#[test]
fn manual_trigger() {
    let t = WatchTable::new();
    assert_eq!(
        dir_changed(&t, &p("/a"), &Some(ps(&["/a/x"]))),
        vec![Emission::DirRead { dir: p("/a"), children: ps(&["/a/x"]) }]
    );
    assert_eq!(dir_changed(&t, &p("/a"), &None), vec![Emission::IOErr(p("/a"))]);
}

#[test]
fn path_helpers() {
    assert!(p("/a/b").starts_with(&p("/a")));
    assert!(!p("/ab").starts_with(&p("/a")));
    assert!(p("/a").less(&p("/a/b")));
    assert!(p("/a/b").less(&p("/b")));
    assert_eq!(p("/a").child(&b"b".to_vec()), p("/a/b"));
    assert_eq!(Path::root(), p("/"));
}

#[test]
fn files_phase_uses_alias() {
    let t = table_with(&["/link", "/l2"], &[("/link", "/real"), ("/l2", "/real")]);
    assert_eq!(namespace(&t, &p("/real/f")), ps(&["/link/f", "/l2/f"]));
    assert_eq!(namespace(&t, &p("/other/f")), ps(&["/other/f"]));
    let r = file_changed(&t, &ps(&["/real/f", "/other/g"]), true);
    assert_eq!(
        r,
        vec![
            Emission::MimeUpdate,
            Emission::IOErr(p("/link/f")),
            Emission::IOErr(p("/l2/f")),
            Emission::IOErr(p("/other/g")),
        ]
    );
}

#[test]
fn batch_simple_modification() {
    let t = table_with(&["/a"], &[]);
    let batch = dedup_sorted(&classify(EventKind::Modify(ModifyKind::Data), &ps(&["/a/f"])));
    let (files, dirs) = split_batch(&batch, &vec![false, true]);
    let out = batch_emissions(&t, &files, true, &dirs, &vec![Some(ps(&["/a/f"]))]);
    assert_eq!(
        out,
        vec![
            Emission::MimeUpdate,
            Emission::IOErr(p("/a/f")),
            Emission::DirRead { dir: p("/a"), children: ps(&["/a/f"]) },
        ]
    );
}

#[test]
fn batch_coalesced_create_and_remove() {
    let t = table_with(&["/a"], &[]);
    let mut enq = classify(EventKind::Create, &ps(&["/a/f1"]));
    enq.extend(classify(EventKind::Remove, &ps(&["/a/f2"])));
    let batch = dedup_sorted(&enq);
    assert_eq!(batch, ps(&["/a", "/a/f2"]));
    // /a/f2 no longer exists: it goes to the directories phase.
    let (files, dirs) = split_batch(&batch, &vec![false, false]);
    let out = batch_emissions(&t, &files, false, &dirs, &vec![Some(ps(&["/a/f1"])), None]);
    assert_eq!(
        out,
        vec![
            Emission::DirRead { dir: p("/a"), children: ps(&["/a/f1"]) },
            Emission::IOErr(p("/a/f2")),
        ]
    );
}
