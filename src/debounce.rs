use vstd::prelude::*;

use crate::path::Path;
use crate::table::{contains_path, lemma_contains_push, paths_view, PathV};

verus! {

/// The default debounce window, in milliseconds.
pub const WINDOW_MS: u64 = 300;

/// Whether a batch opened at `started` is due at `now`.
pub open spec fn is_due(started: u64, window: u64, now: u64) -> bool {
    now as int >= started as int + window as int
}

/// What a push of `p` at `now` does to the pending batch `pending`, opened at
/// `started`: the new pending batch, the time it was opened, and the batch
/// that it closed, if any.
pub open spec fn push_spec(pending: Seq<PathV>, started: u64, window: u64, p: PathV, now: u64) -> (
    Seq<PathV>,
    u64,
    Option<Seq<PathV>>,
) {
    if pending.len() == 0 {
        (seq![p], now, None)
    } else if is_due(started, window, now) {
        (seq![p], now, Some(pending))
    } else if pending.contains(p) {
        (pending, started, None)
    } else {
        (pending.push(p), started, None)
    }
}

/// Gathers paths over a time window and hands them out in batches, each
/// path at most once per batch.
#[derive(Debug)]
pub struct Debouncer {
    pending: Vec<Path>,
    started: u64,
    last: u64,
    window: u64,
}

impl Debouncer {
    /// The paths of the open batch, in order of arrival.
    pub closed spec fn pending(&self) -> Seq<PathV> {
        paths_view(self.pending@)
    }

    /// When the open batch received its first path.
    pub closed spec fn started(&self) -> u64 {
        self.started
    }

    /// When the last path arrived.
    pub closed spec fn last(&self) -> u64 {
        self.last
    }

    pub closed spec fn window(&self) -> u64 {
        self.window
    }

    /// The open batch holds no path twice, and it was opened no later than
    /// the last arrival.
    pub open spec fn wf(&self) -> bool {
        &&& self.pending().no_duplicates()
        &&& self.started() <= self.last()
    }

    /// A debouncer with no open batch and the window `window` (in ms).
    pub fn new(window: u64) -> (r: Debouncer)
        ensures
            r.wf(),
            r.pending() == Seq::<PathV>::empty(),
            r.window() == window,
            r.last() == 0,
    {
        let r = Debouncer { pending: Vec::new(), started: 0, last: 0, window };
        assert(paths_view(r.pending@) =~= Seq::<PathV>::empty());
        r
    }

    /// Whether the open batch is due at `now`.
    pub fn due(&self, now: u64) -> (r: bool)
        ensures
            r == (self.pending().len() > 0 && is_due(self.started(), self.window(), now)),
    {
        self.pending.len() > 0 && now >= self.started && now - self.started >= self.window
    }

    /// When the open batch falls due, where there is one.
    pub fn deadline(&self) -> (r: Option<u64>)
        ensures
            self.pending().len() == 0 ==> r.is_none(),
            self.pending().len() > 0 ==> r == Some(
                if self.started() as int + self.window() as int > u64::MAX as int {
                    u64::MAX
                } else {
                    (self.started() + self.window()) as u64
                },
            ),
    {
        if self.pending.len() == 0 {
            None
        } else {
            Some(self.started.saturating_add(self.window))
        }
    }

    /// Adds `p`, arrived at `now`. Where the open batch was due, it is
    /// closed and returned, and `p` opens the next one.
    pub fn push(&mut self, p: Path, now: u64) -> (r: Option<Vec<Path>>)
        requires
            old(self).wf(),
        ensures
            final(self).wf(),
            final(self).window() == old(self).window(),
            final(self).last() == (if now > old(self).last() {
                now
            } else {
                old(self).last()
            }),
            ({
                let (np, ns, out) = push_spec(
                    old(self).pending(),
                    old(self).started(),
                    old(self).window(),
                    p@,
                    now,
                );
                &&& final(self).pending() == np
                &&& final(self).started() == ns
                &&& match r {
                    Some(b) => out == Some(paths_view(b@)),
                    None => out.is_none(),
                }
            }),
            r.is_some() ==> paths_view(r.unwrap()@).no_duplicates(),
    {
        let ghost pv = p@;
        let out = if self.due(now) {
            let mut b: Vec<Path> = Vec::new();
            core::mem::swap(&mut b, &mut self.pending);
            Some(b)
        } else {
            None
        };
        if self.pending.len() == 0 {
            self.started = now;
        }
        if now > self.last {
            self.last = now;
        }
        if !contains_path(&self.pending, &p) {
            let ghost before = self.pending@;
            self.pending.push(p);
            proof {
                assert(paths_view(self.pending@) =~= paths_view(before).push(pv));
                assert forall|q: PathV| paths_view(before).push(pv).contains(q) <==> (paths_view(before).contains(q) || q == pv) by {
                    lemma_contains_push(paths_view(before), pv, q);
                }
            }
        }
        proof {
            if out.is_some() || self.pending@.len() == 1 {
                assert(self.pending() =~= seq![pv]);
            }
        }
        out
    }

    /// Closes and returns the open batch where it is due at `now`.
    pub fn poll(&mut self, now: u64) -> (r: Option<Vec<Path>>)
        requires
            old(self).wf(),
        ensures
            final(self).wf(),
            final(self).window() == old(self).window(),
            final(self).last() == old(self).last(),
            final(self).started() == old(self).started(),
            old(self).pending().len() > 0 && is_due(old(self).started(), old(self).window(), now) ==> {
                &&& r.is_some()
                &&& paths_view(r.unwrap()@) == old(self).pending()
                &&& final(self).pending() == Seq::<PathV>::empty()
            },
            !(old(self).pending().len() > 0 && is_due(old(self).started(), old(self).window(), now))
                ==> r.is_none() && final(self).pending() == old(self).pending(),
            r.is_some() ==> paths_view(r.unwrap()@).no_duplicates(),
    {
        if self.due(now) {
            let mut b: Vec<Path> = Vec::new();
            core::mem::swap(&mut b, &mut self.pending);
            assert(self.pending() =~= Seq::<PathV>::empty());
            Some(b)
        } else {
            None
        }
    }

    /// Closes and returns the open batch, due or not, where there is one.
    pub fn finish(&mut self) -> (r: Option<Vec<Path>>)
        requires
            old(self).wf(),
        ensures
            final(self).wf(),
            final(self).pending() == Seq::<PathV>::empty(),
            old(self).pending().len() == 0 ==> r.is_none(),
            old(self).pending().len() > 0 ==> r.is_some() && paths_view(r.unwrap()@)
                == old(self).pending(),
            r.is_some() ==> paths_view(r.unwrap()@).no_duplicates(),
    {
        let mut b: Vec<Path> = Vec::new();
        core::mem::swap(&mut b, &mut self.pending);
        assert(self.pending() =~= Seq::<PathV>::empty());
        if b.len() == 0 {
            assert(paths_view(b@) =~= Seq::<PathV>::empty());
            None
        } else {
            Some(b)
        }
    }
}

/// Two events on one path, the second less than a window after the first,
/// with no batch open before: both land in one batch, which holds the path
/// once.
pub proof fn lemma_rapid_events_coalesce(p: PathV, t0: u64, t1: u64, window: u64)
    requires
        t0 <= t1,
        (t1 as int) < t0 as int + window as int,
    ensures
        ({
            let (p1, s1, out1) = push_spec(Seq::empty(), 0, window, p, t0);
            let (p2, s2, out2) = push_spec(p1, s1, window, p, t1);
            &&& out1.is_none()
            &&& out2.is_none()
            &&& p2 == seq![p]
        }),
{
    assert(seq![p][0] == p);
}

/// An event that comes a window or more after the last one closes the open
/// batch and opens a new one.
pub proof fn lemma_late_event_new_batch(
    pending: Seq<PathV>,
    started: u64,
    last: u64,
    window: u64,
    p: PathV,
    now: u64,
)
    requires
        pending.len() > 0,
        started <= last,
        now as int >= last as int + window as int,
    ensures
        push_spec(pending, started, window, p, now) == (seq![p], now, Some(pending)),
{
}

} // verus!
