use vstd::prelude::*;

use crate::path::{is_prefix, parent_of, Path};
use crate::table::{paths_view, PathV};

verus! {

/// Which metadata of a path changed.
#[derive(Clone, Copy, Debug, PartialEq, Eq)]
pub enum MetadataKind {
    Permissions,
    Ownership,
    Extended,
    Other,
}

/// How a path was modified.
#[derive(Clone, Copy, Debug, PartialEq, Eq)]
pub enum ModifyKind {
    Data,
    Metadata(MetadataKind),
    Name,
    Other,
}

/// The kind of a native filesystem event.
#[derive(Clone, Copy, Debug, PartialEq, Eq)]
pub enum EventKind {
    Create,
    Modify(ModifyKind),
    Remove,
    Other,
}

/// Whether a modification is one that the watcher reacts to.
pub open spec fn modify_counts(m: ModifyKind) -> bool {
    match m {
        ModifyKind::Data => true,
        ModifyKind::Metadata(k) => match k {
            MetadataKind::Other => false,
            _ => true,
        },
        ModifyKind::Name => true,
        ModifyKind::Other => false,
    }
}

/// The paths that an event of kind `kind` on `paths` enqueues: it concerns
/// the first path only.
pub open spec fn enqueued(kind: EventKind, paths: Seq<PathV>) -> Seq<PathV> {
    if paths.len() == 0 {
        Seq::empty()
    } else {
        let p = paths[0];
        match kind {
            EventKind::Create => seq![parent_of(p)],
            EventKind::Modify(m) => if modify_counts(m) {
                seq![p, parent_of(p)]
            } else {
                Seq::empty()
            },
            EventKind::Remove => seq![p, parent_of(p)],
            EventKind::Other => Seq::empty(),
        }
    }
}

/// The parent that stands in for a path is an ancestor of it, one level up,
/// or the path itself where it is the root.
pub proof fn lemma_parent_is_ancestor(p: PathV)
    ensures
        is_prefix(parent_of(p), p),
        p.len() == 0 ==> parent_of(p) == p,
        p.len() > 0 ==> parent_of(p).len() + 1 == p.len(),
{
    assert(p.subrange(0, parent_of(p).len() as int) =~= parent_of(p));
}

/// The paths to enqueue for a native event of kind `kind` on `paths`.
pub fn classify(kind: EventKind, paths: &Vec<Path>) -> (r: Vec<Path>)
    ensures
        paths_view(r@) == enqueued(kind, paths_view(paths@)),
{
    let mut r: Vec<Path> = Vec::new();
    if paths.len() == 0 {
        assert(paths_view(r@) =~= Seq::<PathV>::empty());
        return r;
    }
    let p = &paths[0];
    let both = match kind {
        EventKind::Create => false,
        EventKind::Modify(m) => match m {
            ModifyKind::Data => true,
            ModifyKind::Metadata(k) => match k {
                MetadataKind::Other => {
                    assert(paths_view(r@) =~= Seq::<PathV>::empty());
                    return r;
                },
                _ => true,
            },
            ModifyKind::Name => true,
            ModifyKind::Other => {
                assert(paths_view(r@) =~= Seq::<PathV>::empty());
                return r;
            },
        },
        EventKind::Remove => true,
        EventKind::Other => {
            assert(paths_view(r@) =~= Seq::<PathV>::empty());
            return r;
        },
    };
    if both {
        r.push(p.copy());
    }
    r.push(p.parent_or_self());
    assert(paths_view(r@) =~= enqueued(kind, paths_view(paths@)));
    r
}

} // verus!
