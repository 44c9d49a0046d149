use vstd::prelude::*;

use crate::path::{is_prefix, lemma_path_lt_irrefl, lemma_path_lt_total, lemma_path_lt_trans, path_lt, strip, Path};
use crate::table::{
    contains_path, lemma_contains_push, lemma_paths_push, paths_view, project_spec, EntryV, PathV, WatchTable,
};

verus! {

/// A notification for the rest of the application.
#[derive(Clone, Debug, PartialEq, Eq)]
pub enum Emission {
    /// The directory `dir` was read; `children[i]` is the path of the i-th
    /// item that the reader returned, in the caller's namespace.
    DirRead { dir: Path, children: Vec<Path> },
    /// `path` could not be read, or its cached state is stale.
    IOErr(Path),
    /// The mime probe returned results for the changed files.
    MimeUpdate,
}

/// What an emission says, over paths.
pub enum Note {
    DirRead(PathV, Seq<PathV>),
    IOErr(PathV),
    MimeUpdate,
}

pub open spec fn note_of(e: Emission) -> Note {
    match e {
        Emission::DirRead { dir, children } => Note::DirRead(dir@, paths_view(children@)),
        Emission::IOErr(p) => Note::IOErr(p@),
        Emission::MimeUpdate => Note::MimeUpdate,
    }
}

pub open spec fn notes_of(v: Seq<Emission>) -> Seq<Note> {
    v.map_values(|e: Emission| note_of(e))
}

/// Strictly ascending, hence free of repeats.
pub open spec fn ascending(s: Seq<PathV>) -> bool {
    forall|i: int, j: int| 0 <= i < j < s.len() ==> path_lt(#[trigger] s[i], #[trigger] s[j])
}

/// The paths of `batch` whose flag in `flags` is `want`, in order.
pub open spec fn pick(batch: Seq<PathV>, flags: Seq<bool>, want: bool) -> Seq<PathV>
    decreases batch.len(),
{
    if batch.len() == 0 || flags.len() == 0 {
        Seq::empty()
    } else {
        let prev = pick(batch.drop_last(), flags.drop_last(), want);
        if flags.last() == want {
            prev.push(batch.last())
        } else {
            prev
        }
    }
}

/// The paths under which the physical path `p` is reported: its aliases, or
/// `p` itself where it has none.
pub open spec fn namespaced(s: Seq<EntryV>, p: PathV) -> Seq<PathV> {
    if project_spec(s, p).len() == 0 {
        seq![p]
    } else {
        project_spec(s, p)
    }
}

/// One stale signal for each name of each file, file by file.
pub open spec fn stale_notes(s: Seq<EntryV>, files: Seq<PathV>) -> Seq<Note>
    decreases files.len(),
{
    if files.len() == 0 {
        Seq::empty()
    } else {
        stale_notes(s, files.drop_last()) + namespaced(s, files.last()).map_values(
            |a: PathV| Note::IOErr(a),
        )
    }
}

/// The notes of the files phase: the mime update where the probe succeeded,
/// then the stale signals, in the caller's namespace.
pub open spec fn files_notes(s: Seq<EntryV>, files: Seq<PathV>, mime_ok: bool) -> Seq<Note> {
    (if mime_ok {
        seq![Note::MimeUpdate]
    } else {
        Seq::empty()
    }) + stale_notes(s, files)
}

pub open spec fn read_view(o: Option<Vec<Path>>) -> Option<Seq<PathV>> {
    match o {
        Some(ch) => Some(paths_view(ch@)),
        None => None,
    }
}

/// The notes of the directories phase: each directory in turn, with the
/// reader's result `reads[i]` for `dirs[i]`.
pub open spec fn dirs_notes(s: Seq<EntryV>, dirs: Seq<PathV>, reads: Seq<Option<Seq<PathV>>>) -> Seq<Note>
    decreases dirs.len(),
{
    if dirs.len() == 0 {
        Seq::empty()
    } else {
        dirs_notes(s, dirs.drop_last(), reads) + dir_notes(
            dirs.last(),
            project_spec(s, dirs.last()),
            reads[dirs.len() - 1],
        )
    }
}

/// Each child of `dir` moved under `alias`.
pub open spec fn rebased(children: Seq<PathV>, dir: PathV, alias: PathV) -> Seq<PathV> {
    children.map_values(|c: PathV| alias + strip(c, dir))
}

/// The notes for a re-read of `dir` with the aliases `aliases`; `read` is
/// the reader's result (the children's paths) or `None` on an error.
pub open spec fn dir_notes(dir: PathV, aliases: Seq<PathV>, read: Option<Seq<PathV>>) -> Seq<Note> {
    if aliases.len() == 0 {
        match read {
            Some(ch) => seq![Note::DirRead(dir, ch)],
            None => seq![Note::IOErr(dir)],
        }
    } else {
        aliases.map_values(
            |a: PathV|
                match read {
                    Some(ch) => Note::DirRead(a, rebased(ch, dir, a)),
                    None => Note::IOErr(a),
                },
        )
    }
}

/// The path that a note is about.
pub open spec fn note_path(n: Note) -> Option<PathV> {
    match n {
        Note::DirRead(p, _) => Some(p),
        Note::IOErr(p) => Some(p),
        Note::MimeUpdate => None,
    }
}

proof fn lemma_notes_push(v: Seq<Emission>, e: Emission)
    ensures
        notes_of(v.push(e)) == notes_of(v).push(note_of(e)),
{
    assert(notes_of(v.push(e)) =~= notes_of(v).push(note_of(e)));
}

/// The distinct paths of `batch`, in ascending order.
pub fn dedup_sorted(batch: &Vec<Path>) -> (r: Vec<Path>)
    ensures
        ascending(paths_view(r@)),
        paths_view(r@).no_duplicates(),
        forall|q: PathV| paths_view(r@).contains(q) <==> paths_view(batch@).contains(q),
{
    let mut r: Vec<Path> = Vec::new();
    let mut i: usize = 0;
    while i < batch.len()
        invariant
            i <= batch@.len(),
            ascending(paths_view(r@)),
            forall|q: PathV|
                #[trigger] paths_view(r@).contains(q) <==> paths_view(batch@).subrange(
                    0,
                    i as int,
                ).contains(q),
        decreases batch@.len() - i,
    {
        let x = &batch[i];
        let ghost b = paths_view(batch@);
        proof {
            assert(b.subrange(0, i as int + 1) =~= b.subrange(0, i as int).push(x@));
            assert forall|q: PathV| #[trigger] b.subrange(0, i as int + 1).contains(q) <==> (
            b.subrange(0, i as int).contains(q) || q == x@) by {
                lemma_contains_push(b.subrange(0, i as int), x@, q);
            }
        }
        if !contains_path(&r, x) {
            let mut k: usize = 0;
            while k < r.len() && !x.less(&r[k])
                invariant
                    k <= r@.len(),
                    forall|a: int| 0 <= a < k ==> !path_lt(x@, #[trigger] r@[a]@),
                decreases r@.len() - k,
            {
                k = k + 1;
            }
            let ghost s = paths_view(r@);
            let ghost rv = r@;
            let xc = x.copy();
            r.insert(k, xc);
            proof {
                assert(paths_view(r@) =~= s.insert(k as int, x@));
                let t = s.insert(k as int, x@);
                assert forall|a: int, c: int| 0 <= a < c < t.len() implies path_lt(
                    #[trigger] t[a],
                    #[trigger] t[c],
                ) by {
                    if a == k {
                        assert(t[c] == s[c - 1]);
                        if c - 1 > k {
                            lemma_path_lt_trans(x@, s[k as int], s[c - 1]);
                        }
                    } else if c == k {
                        assert(t[a] == s[a]);
                        assert(rv[a]@ == s[a]);
                        lemma_path_lt_total(x@, s[a]);
                        if s[a] == x@ {
                            assert(s.contains(x@));
                        }
                    } else {
                        let a2 = if a < k { a } else { a - 1 };
                        let c2 = if c < k { c } else { c - 1 };
                        assert(t[a] == s[a2] && t[c] == s[c2]);
                    }
                }
                assert forall|q: PathV| #[trigger] t.contains(q) <==> (s.contains(q) || q == x@) by {
                    if t.contains(q) {
                        let j = choose|j: int| 0 <= j < t.len() && t[j] == q;
                        if j < k {
                            assert(s[j] == q);
                        } else if j > k {
                            assert(s[j - 1] == q);
                        }
                    }
                    if s.contains(q) {
                        let j = choose|j: int| 0 <= j < s.len() && s[j] == q;
                        if j < k {
                            assert(t[j] == q);
                        } else {
                            assert(t[j + 1] == q);
                        }
                    }
                    if q == x@ {
                        assert(t[k as int] == q);
                    }
                }
            }
        }
        i = i + 1;
    }
    proof {
        assert(paths_view(batch@).subrange(0, batch@.len() as int) =~= paths_view(batch@));
        let s = paths_view(r@);
        assert forall|a: int, c: int| 0 <= a < s.len() && 0 <= c < s.len() && a != c implies s[a]
            != s[c] by {
            if a < c {
                assert(path_lt(s[a], s[c]));
                lemma_path_lt_irrefl(s[a]);
            } else {
                assert(path_lt(s[c], s[a]));
                lemma_path_lt_irrefl(s[c]);
            }
        }
    }
    r
}

/// Splits a batch into the paths that are files (`is_file[i]`) and the
/// rest, each in batch order.
pub fn split_batch(batch: &Vec<Path>, is_file: &Vec<bool>) -> (r: (Vec<Path>, Vec<Path>))
    requires
        batch@.len() == is_file@.len(),
    ensures
        paths_view(r.0@) == pick(paths_view(batch@), is_file@, true),
        paths_view(r.1@) == pick(paths_view(batch@), is_file@, false),
{
    let mut files: Vec<Path> = Vec::new();
    let mut dirs: Vec<Path> = Vec::new();
    let mut i: usize = 0;
    let ghost b = paths_view(batch@);
    assert(b.subrange(0, 0).len() == 0);
    while i < batch.len()
        invariant
            i <= batch@.len(),
            batch@.len() == is_file@.len(),
            b == paths_view(batch@),
            paths_view(files@) == pick(b.subrange(0, i as int), is_file@.subrange(0, i as int), true),
            paths_view(dirs@) == pick(b.subrange(0, i as int), is_file@.subrange(0, i as int), false),
        decreases batch@.len() - i,
    {
        proof {
            assert(b.subrange(0, i as int + 1).drop_last() =~= b.subrange(0, i as int));
            assert(is_file@.subrange(0, i as int + 1).drop_last() =~= is_file@.subrange(0, i as int));
        }
        let p = batch[i].copy();
        if is_file[i] {
            proof {
                lemma_paths_push(files@, p);
            }
            files.push(p);
        } else {
            proof {
                lemma_paths_push(dirs@, p);
            }
            dirs.push(p);
        }
        i = i + 1;
    }
    assert(b.subrange(0, batch@.len() as int) =~= b);
    assert(is_file@.subrange(0, batch@.len() as int) =~= is_file@);
    (files, dirs)
}

/// The names under which the physical path `p` is reported.
pub fn namespace(table: &WatchTable, p: &Path) -> (r: Vec<Path>)
    ensures
        paths_view(r@) == namespaced(table@, p@),
{
    let r = table.project(p);
    if r.len() == 0 {
        let mut v: Vec<Path> = Vec::new();
        v.push(p.copy());
        assert(paths_view(v@) =~= seq![p@]);
        v
    } else {
        r
    }
}

/// The notifications of the files phase of a batch: the mime update where
/// the probe succeeded, then a stale signal for each file under each of its
/// names in the caller's namespace.
pub fn file_changed(table: &WatchTable, files: &Vec<Path>, mime_ok: bool) -> (r: Vec<Emission>)
    ensures
        notes_of(r@) == files_notes(table@, paths_view(files@), mime_ok),
{
    let mut r: Vec<Emission> = Vec::new();
    let ghost head: Seq<Note> = if mime_ok {
        seq![Note::MimeUpdate]
    } else {
        Seq::empty()
    };
    if mime_ok {
        r.push(Emission::MimeUpdate);
    }
    assert(notes_of(r@) =~= head);
    let ghost fv = paths_view(files@);
    let ghost s = table@;
    let mut i: usize = 0;
    assert(fv.subrange(0, 0).len() == 0);
    while i < files.len()
        invariant
            i <= files@.len(),
            fv == paths_view(files@),
            s == table@,
            notes_of(r@) == head + stale_notes(s, fv.subrange(0, i as int)),
        decreases files@.len() - i,
    {
        let names = namespace(table, &files[i]);
        let ghost nv = paths_view(names@);
        let ghost before = notes_of(r@);
        let mut j: usize = 0;
        assert(nv.subrange(0, 0).map_values(|a: PathV| Note::IOErr(a)) =~= Seq::<Note>::empty());
        assert(before + Seq::<Note>::empty() =~= before);
        while j < names.len()
            invariant
                j <= names@.len(),
                nv == paths_view(names@),
                notes_of(r@) == before + nv.subrange(0, j as int).map_values(|a: PathV| Note::IOErr(a)),
            decreases names@.len() - j,
        {
            let e = Emission::IOErr(names[j].copy());
            proof {
                lemma_notes_push(r@, e);
            }
            r.push(e);
            j = j + 1;
            assert(notes_of(r@) =~= before + nv.subrange(0, j as int).map_values(|a: PathV| Note::IOErr(a)));
        }
        proof {
            assert(nv.subrange(0, names@.len() as int) =~= nv);
            assert(fv.subrange(0, i as int + 1).drop_last() =~= fv.subrange(0, i as int));
            assert(fv.subrange(0, i as int + 1).last() == fv[i as int]);
            assert(head + stale_notes(s, fv.subrange(0, i as int + 1)) =~= before + nv.map_values(
                |a: PathV| Note::IOErr(a),
            ));
        }
        i = i + 1;
    }
    assert(fv.subrange(0, files@.len() as int) =~= fv);
    r
}

/// The children of `dir`, moved under `alias`.
pub fn rebase(children: &Vec<Path>, dir: &Path, alias: &Path) -> (r: Vec<Path>)
    requires
        forall|i: int| 0 <= i < children@.len() ==> is_prefix(dir@, #[trigger] children@[i]@),
    ensures
        paths_view(r@) == rebased(paths_view(children@), dir@, alias@),
{
    let mut r: Vec<Path> = Vec::new();
    let mut i: usize = 0;
    let ghost cv = paths_view(children@);
    while i < children.len()
        invariant
            i <= children@.len(),
            cv == paths_view(children@),
            forall|i: int| 0 <= i < children@.len() ==> is_prefix(dir@, #[trigger] children@[i]@),
            paths_view(r@) == rebased(cv.subrange(0, i as int), dir@, alias@),
        decreases children@.len() - i,
    {
        assert(is_prefix(dir@, children@[i as int]@));
        let p = alias.join_from(&children[i], dir.len());
        proof {
            lemma_paths_push(r@, p);
        }
        r.push(p);
        i = i + 1;
        assert(paths_view(r@) =~= rebased(cv.subrange(0, i as int), dir@, alias@));
    }
    assert(cv.subrange(0, children@.len() as int) =~= cv);
    r
}

fn copy_paths(v: &Vec<Path>) -> (r: Vec<Path>)
    ensures
        paths_view(r@) == paths_view(v@),
{
    let mut r: Vec<Path> = Vec::new();
    let mut i: usize = 0;
    while i < v.len()
        invariant
            i <= v@.len(),
            paths_view(r@) == paths_view(v@).subrange(0, i as int),
        decreases v@.len() - i,
    {
        let p = v[i].copy();
        proof {
            lemma_paths_push(r@, p);
        }
        r.push(p);
        i = i + 1;
        assert(paths_view(r@) =~= paths_view(v@).subrange(0, i as int));
    }
    assert(paths_view(v@).subrange(0, v@.len() as int) =~= paths_view(v@));
    r
}

/// The notifications for a re-read of `dir`, given its aliases and the
/// reader's result (the children's paths, or `None` on an error).
pub fn dir_emissions(dir: &Path, aliases: &Vec<Path>, read: &Option<Vec<Path>>) -> (r: Vec<Emission>)
    requires
        read.is_some() ==> forall|i: int|
            0 <= i < read.unwrap()@.len() ==> is_prefix(dir@, #[trigger] read.unwrap()@[i]@),
    ensures
        notes_of(r@) == dir_notes(
            dir@,
            paths_view(aliases@),
            match read {
                Some(ch) => Some(paths_view(ch@)),
                None => None,
            },
        ),
{
    let ghost rv = match read {
        Some(ch) => Some(paths_view(ch@)),
        None => None,
    };
    let mut r: Vec<Emission> = Vec::new();
    if aliases.len() == 0 {
        let e = match read {
            Some(ch) => Emission::DirRead { dir: dir.copy(), children: copy_paths(ch) },
            None => Emission::IOErr(dir.copy()),
        };
        proof {
            lemma_notes_push(r@, e);
        }
        r.push(e);
        assert(notes_of(r@) =~= dir_notes(dir@, paths_view(aliases@), rv));
        return r;
    }
    let ghost av = paths_view(aliases@);
    let ghost f = |a: PathV|
        match rv {
            Some(ch) => Note::DirRead(a, rebased(ch, dir@, a)),
            None => Note::IOErr(a),
        };
    let mut i: usize = 0;
    while i < aliases.len()
        invariant
            i <= aliases@.len(),
            av == paths_view(aliases@),
            rv == match read {
                Some(ch) => Some(paths_view(ch@)),
                None => None,
            },
            read.is_some() ==> forall|i: int|
                0 <= i < read.unwrap()@.len() ==> is_prefix(dir@, #[trigger] read.unwrap()@[i]@),
            f == (|a: PathV|
                match rv {
                    Some(ch) => Note::DirRead(a, rebased(ch, dir@, a)),
                    None => Note::IOErr(a),
                }),
            notes_of(r@) == av.subrange(0, i as int).map_values(f),
        decreases aliases@.len() - i,
    {
        let a = &aliases[i];
        let e = match read {
            Some(ch) => Emission::DirRead { dir: a.copy(), children: rebase(ch, dir, a) },
            None => Emission::IOErr(a.copy()),
        };
        proof {
            lemma_notes_push(r@, e);
        }
        r.push(e);
        i = i + 1;
        assert(notes_of(r@) =~= av.subrange(0, i as int).map_values(f));
    }
    assert(av.subrange(0, aliases@.len() as int) =~= av);
    r
}

/// Handles a change of the directory `dir`: projects it through the table
/// and gives the notifications for the reader's result `read`.
pub fn dir_changed(table: &WatchTable, dir: &Path, read: &Option<Vec<Path>>) -> (r: Vec<Emission>)
    requires
        read.is_some() ==> forall|i: int|
            0 <= i < read.unwrap()@.len() ==> is_prefix(dir@, #[trigger] read.unwrap()@[i]@),
    ensures
        notes_of(r@) == dir_notes(
            dir@,
            project_spec(table@, dir@),
            match read {
                Some(ch) => Some(paths_view(ch@)),
                None => None,
            },
        ),
{
    let aliases = table.project(dir);
    dir_emissions(dir, &aliases, read)
}

/// The notifications for a whole batch: the files phase, then each
/// directory in turn, where `reads[i]` is the reader's result for `dirs[i]`.
pub fn batch_emissions(
    table: &WatchTable,
    files: &Vec<Path>,
    mime_ok: bool,
    dirs: &Vec<Path>,
    reads: &Vec<Option<Vec<Path>>>,
) -> (r: Vec<Emission>)
    requires
        reads@.len() == dirs@.len(),
        forall|i: int, j: int|
            0 <= i < dirs@.len() && reads@[i].is_some() && 0 <= j < reads@[i].unwrap()@.len()
                ==> is_prefix(dirs@[i]@, #[trigger] reads@[i].unwrap()@[j]@),
    ensures
        notes_of(r@) == files_notes(table@, paths_view(files@), mime_ok) + dirs_notes(
            table@,
            paths_view(dirs@),
            reads@.map_values(|o: Option<Vec<Path>>| read_view(o)),
        ),
{
    let mut r = file_changed(table, files, mime_ok);
    let ghost head = notes_of(r@);
    let ghost dv = paths_view(dirs@);
    let ghost rv = reads@.map_values(|o: Option<Vec<Path>>| read_view(o));
    let mut i: usize = 0;
    assert(dirs_notes(table@, dv.subrange(0, 0), rv) =~= Seq::<Note>::empty());
    assert(head + Seq::<Note>::empty() =~= head);
    while i < dirs.len()
        invariant
            i <= dirs@.len(),
            reads@.len() == dirs@.len(),
            dv == paths_view(dirs@),
            rv == reads@.map_values(|o: Option<Vec<Path>>| read_view(o)),
            forall|i: int, j: int|
                0 <= i < dirs@.len() && reads@[i].is_some() && 0 <= j < reads@[i].unwrap()@.len()
                    ==> is_prefix(dirs@[i]@, #[trigger] reads@[i].unwrap()@[j]@),
            notes_of(r@) == head + dirs_notes(table@, dv.subrange(0, i as int), rv),
        decreases dirs@.len() - i,
    {
        let ghost before = notes_of(r@);
        let ghost ri = i as int;
        assert forall|j: int| 0 <= j < reads@[ri].unwrap()@.len() && reads@[ri].is_some() implies is_prefix(
            dirs@[ri]@,
            #[trigger] reads@[ri].unwrap()@[j]@,
        ) by {}
        let mut e = dir_changed(table, &dirs[i], &reads[i]);
        let ghost en = notes_of(e@);
        let ghost r0 = r@;
        r.append(&mut e);
        proof {
            assert(notes_of(r@) =~= notes_of(r0) + en);
            assert(dv.subrange(0, ri + 1).drop_last() =~= dv.subrange(0, ri));
            assert(dv.subrange(0, ri + 1).last() == dv[ri]);
            assert(rv[ri] == read_view(reads@[ri]));
            assert(head + dirs_notes(table@, dv.subrange(0, ri + 1), rv) =~= before + en);
        }
        i = i + 1;
    }
    assert(dv.subrange(0, dirs@.len() as int) =~= dv);
    r
}

/// Every stale signal of the files phase names one of the names under which
/// some file of the batch is reported: an alias where the file has one.
pub proof fn lemma_stale_names(s: Seq<EntryV>, files: Seq<PathV>, i: int)
    requires
        0 <= i < stale_notes(s, files).len(),
    ensures
        exists|j: int, k: int|
            0 <= j < files.len() && 0 <= k < namespaced(s, files[j]).len() && stale_notes(s, files)[i]
                == Note::IOErr(#[trigger] namespaced(s, files[j])[k]),
    decreases files.len(),
{
    let prev = stale_notes(s, files.drop_last());
    let last = namespaced(s, files.last()).map_values(|a: PathV| Note::IOErr(a));
    assert(stale_notes(s, files) == prev + last);
    if i < prev.len() {
        lemma_stale_names(s, files.drop_last(), i);
        let (j, k) = choose|j: int, k: int|
            0 <= j < files.drop_last().len() && 0 <= k < namespaced(s, files.drop_last()[j]).len()
                && prev[i] == Note::IOErr(#[trigger] namespaced(s, files.drop_last()[j])[k]);
        assert(files.drop_last()[j] == files[j]);
        assert(stale_notes(s, files)[i] == prev[i]);
        assert(stale_notes(s, files)[i] == Note::IOErr(namespaced(s, files[j])[k]));
    } else {
        let k = i - prev.len();
        assert(stale_notes(s, files)[i] == last[k]);
        assert(files.last() == files[files.len() - 1]);
        assert(stale_notes(s, files)[i] == Note::IOErr(namespaced(s, files[files.len() - 1])[k]));
    }
}

/// Where a directory has aliases, every notification about it names one of
/// them, never the physical path itself (unless that is an alias too), and
/// every child it lists lies under that alias.
pub proof fn lemma_alias_emissions(dir: PathV, aliases: Seq<PathV>, read: Option<Seq<PathV>>, i: int)
    requires
        aliases.len() > 0,
        0 <= i < dir_notes(dir, aliases, read).len(),
    ensures
        note_path(dir_notes(dir, aliases, read)[i]) == Some(aliases[i]),
        match dir_notes(dir, aliases, read)[i] {
            Note::DirRead(a, ch) => forall|j: int|
                0 <= j < ch.len() ==> is_prefix(a, #[trigger] ch[j]),
            _ => true,
        },
{
    match dir_notes(dir, aliases, read)[i] {
        Note::DirRead(a, ch) => {
            assert forall|j: int| 0 <= j < ch.len() implies is_prefix(a, #[trigger] ch[j]) by {
                assert(ch[j].subrange(0, a.len() as int) =~= a);
            }
        },
        _ => {},
    }
}

} // verus!
