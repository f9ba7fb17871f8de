//! When a watched project is indexed again: changes are gathered until the
//! files have been quiet for a while, and then applied all at once.
//!
//! The clock, the file events and the index belong to the caller.
use vstd::prelude::*;

use crate::paths::{enroll, enrolled, in_path_order, law_a_path_takes_its_place, same_path};
use crate::table::Table;
use crate::text;

verus! {

/// How long the files must be quiet before a batch is applied, in
/// milliseconds.
pub const DEBOUNCE_MS: u64 = 2000;

/// A path that changed, and whether it is source code that can be indexed.
#[derive(Debug)]
pub struct Changed {
    pub path: String,
    pub is_code: bool,
}

/// The paths that wait once those among the changes have joined them that can be
/// indexed.
pub open spec fn gathered(waiting: Seq<Seq<char>>, changes: Seq<Changed>) -> Seq<Seq<char>>
    decreases changes.len(),
{
    if changes.len() == 0 {
        waiting
    } else {
        let before = gathered(waiting, changes.drop_last());
        if changes.last().is_code {
            enrolled(before, changes.last().path@)
        } else {
            before
        }
    }
}

/// The path is in the list, in one spelling or another.
pub open spec fn is_listed(list: Seq<Seq<char>>, path: Seq<char>) -> bool {
    exists|x: Seq<char>| #[trigger] list.contains(x) && same_path(x, path)
}

/// What waited still waits once files have changed, and every changed file that
/// can be indexed waits with it, each path once and in order. Nothing else does.
pub proof fn law_what_waits_keeps_waiting(waiting: Seq<Seq<char>>, changes: Seq<Changed>)
    requires
        in_path_order(waiting),
    ensures
        in_path_order(gathered(waiting, changes)),
        forall|x: Seq<char>| #[trigger] waiting.contains(x) ==> gathered(waiting, changes).contains(x),
        forall|i: int|
            0 <= i < changes.len() && (#[trigger] changes[i]).is_code ==> is_listed(
                gathered(waiting, changes),
                changes[i].path@,
            ),
        forall|x: Seq<char>| #[trigger]
            gathered(waiting, changes).contains(x) ==> waiting.contains(x) || exists|i: int|
                0 <= i < changes.len() && (#[trigger] changes[i]).is_code && changes[i].path@ == x,
        forall|i: int, j: int|
            0 <= i < j < gathered(waiting, changes).len() ==> !same_path(
                #[trigger] gathered(waiting, changes)[i],
                #[trigger] gathered(waiting, changes)[j],
            ),
    decreases changes.len(),
{
    let after = gathered(waiting, changes);
    if changes.len() > 0 {
        let front = changes.drop_last();
        let last = changes.last();
        let before = gathered(waiting, front);
        law_what_waits_keeps_waiting(waiting, front);
        law_a_path_takes_its_place(before, last.path@);
        assert(changes[changes.len() - 1] == last);
        assert forall|i: int| 0 <= i < changes.len() && (#[trigger] changes[i]).is_code implies is_listed(
            after,
            changes[i].path@,
        ) by {
            if i < front.len() {
                assert(front[i] == changes[i]);
                let x = choose|x: Seq<char>| #[trigger] before.contains(x) && same_path(x, front[i].path@);
                assert(after.contains(x));
            } else {
                let x = choose|x: Seq<char>| #[trigger] after.contains(x) && same_path(x, last.path@);
                assert(after.contains(x));
            }
        }
        assert forall|x: Seq<char>| #[trigger] after.contains(x) implies waiting.contains(x) || exists|i: int|
            0 <= i < changes.len() && (#[trigger] changes[i]).is_code && changes[i].path@ == x by {
            if before.contains(x) {
                if !waiting.contains(x) {
                    let i = choose|i: int|
                        0 <= i < front.len() && (#[trigger] front[i]).is_code && front[i].path@ == x;
                    assert(changes[i] == front[i]);
                }
            }
        }
    }
    assert forall|i: int, j: int| 0 <= i < j < after.len() implies !same_path(
        #[trigger] after[i],
        #[trigger] after[j],
    ) by {
        crate::paths::law_paths_are_ordered_by_their_first_difference(after[i], after[j]);
    }
}

/// Nothing that changes is lost between two batches: however many times files
/// change before it is quiet, the batch that is then applied holds every one of
/// them that can be indexed, whenever it changed.
pub proof fn law_a_batch_holds_every_change(
    start: Seq<Seq<char>>,
    events: Seq<Seq<Changed>>,
    k: int,
    i: int,
)
    requires
        in_path_order(start),
        0 <= k < events.len(),
        0 <= i < events[k].len(),
        events[k][i].is_code,
    ensures
        in_path_order(after_events(start, events)),
        is_listed(after_events(start, events), events[k][i].path@),
    decreases events.len(),
{
    let front = events.drop_last();
    let before = after_events(start, front);
    lemma_after_events(start, front);
    law_what_waits_keeps_waiting(before, events.last());
    if k < front.len() {
        assert(front[k] == events[k]);
        law_a_batch_holds_every_change(start, front, k, i);
        let x = choose|x: Seq<char>| #[trigger] before.contains(x) && same_path(x, events[k][i].path@);
        assert(after_events(start, events).contains(x));
    } else {
        assert(events[k] == events.last());
        assert(events.last()[i].is_code);
    }
}

/// What waits after several events.
pub open spec fn after_events(start: Seq<Seq<char>>, events: Seq<Seq<Changed>>) -> Seq<Seq<char>>
    decreases events.len(),
{
    if events.len() == 0 {
        start
    } else {
        gathered(after_events(start, events.drop_last()), events.last())
    }
}

proof fn lemma_after_events(start: Seq<Seq<char>>, events: Seq<Seq<Changed>>)
    requires
        in_path_order(start),
    ensures
        in_path_order(after_events(start, events)),
    decreases events.len(),
{
    if events.len() > 0 {
        lemma_after_events(start, events.drop_last());
        law_what_waits_keeps_waiting(after_events(start, events.drop_last()), events.last());
    }
}

/// What a watch wakes up to.
#[derive(Debug)]
pub enum WatchEvent {
    /// Someone asked it to stop.
    Stopped,
    /// Files changed.
    Files(Vec<Changed>),
    /// Nothing happened until the time was up.
    Quiet,
}

/// What a watch does next.
#[derive(Debug)]
pub enum WatchAction {
    Stop,
    Wait,
    /// Bring the index up to date with these paths.
    Apply(Vec<String>),
}

/// The changes that a watch has gathered.
pub struct Watch {
    pending: Vec<String>,
    last_event_ms: u64,
}

impl Watch {
    /// The paths that wait to be applied, in their order.
    pub closed spec fn waiting(self) -> Seq<Seq<char>> {
        text::texts(self.pending@)
    }

    #[verifier::type_invariant]
    spec fn sorted(self) -> bool {
        in_path_order(text::texts(self.pending@))
    }

    /// When something last changed.
    pub closed spec fn last(self) -> int {
        self.last_event_ms as int
    }

    /// A watch that starts now.
    pub fn new(now_ms: u64) -> (r: Watch)
        ensures
            r.waiting() == Seq::<Seq<char>>::empty(),
            r.last() == now_ms,
    {
        let r: Watch = Watch { pending: Vec::new(), last_event_ms: now_ms };
        assert(r.waiting() =~= Seq::<Seq<char>>::empty());
        r
    }

    /// How long to wait for the next event.
    pub fn timeout_ms(&self, now_ms: u64) -> (r: u64)
        ensures
            r == (if now_ms <= self.last() {
                DEBOUNCE_MS as int
            } else if now_ms - self.last() >= DEBOUNCE_MS {
                0
            } else {
                DEBOUNCE_MS - (now_ms - self.last())
            }),
    {
        if now_ms <= self.last_event_ms {
            return DEBOUNCE_MS;
        }
        let elapsed: u64 = now_ms - self.last_event_ms;
        if elapsed >= DEBOUNCE_MS {
            0
        } else {
            DEBOUNCE_MS - elapsed
        }
    }

    fn collect(&mut self, changes: &Vec<Changed>)
        ensures
            final(self).waiting() == gathered(old(self).waiting(), changes@),
            final(self).last() == old(self).last(),
    {
        proof {
            use_type_invariant(&*self);
        }
        let ghost start = self.waiting();
        let mut pending: Vec<String> = Vec::new();
        std::mem::swap(&mut pending, &mut self.pending);
        let mut i: usize = 0;
        assert(changes@.take(0) =~= Seq::<Changed>::empty());
        while i < changes.len()
            invariant
                i <= changes@.len(),
                text::texts(pending@) == gathered(start, changes@.take(i as int)),
                in_path_order(text::texts(pending@)),
            decreases changes@.len() - i,
        {
            let ghost done = text::texts(pending@);
            assert(changes@.take(i + 1).drop_last() =~= changes@.take(i as int));
            if changes[i].is_code {
                enroll(&mut pending, &changes[i].path);
                proof {
                    law_a_path_takes_its_place(done, changes@[i as int].path@);
                }
            }
            i += 1;
        }
        assert(changes@.take(changes@.len() as int) =~= changes@);
        self.pending = pending;
    }

    /// What the watch does on an event.
    pub fn step(&mut self, event: WatchEvent, now_ms: u64) -> (r: WatchAction)
        ensures
            match event {
                WatchEvent::Stopped => r is Stop && *final(self) == *old(self),
                WatchEvent::Files(changes) => {
                    &&& r is Wait
                    &&& final(self).waiting() == gathered(old(self).waiting(), changes@)
                    &&& forall|x: Seq<char>| #[trigger]
                        old(self).waiting().contains(x) ==> final(self).waiting().contains(x)
                    &&& forall|i: int|
                        0 <= i < changes@.len() && (#[trigger] changes@[i]).is_code ==> is_listed(
                            final(self).waiting(),
                            changes@[i].path@,
                        )
                    &&& final(self).last() == now_ms
                },
                WatchEvent::Quiet => if old(self).waiting().len() == 0 {
                    r is Wait && *final(self) == *old(self)
                } else {
                    &&& r matches WatchAction::Apply(paths) && text::texts(paths@) == old(self).waiting()
                        && in_path_order(text::texts(paths@))
                    &&& final(self).waiting() == Seq::<Seq<char>>::empty()
                    &&& final(self).last() == old(self).last()
                },
            },
    {
        match event {
            WatchEvent::Stopped => WatchAction::Stop,
            WatchEvent::Files(changes) => {
                proof {
                    use_type_invariant(&*self);
                    law_what_waits_keeps_waiting(self.waiting(), changes@);
                }
                self.collect(&changes);
                proof {
                    use_type_invariant(&*self);
                }
                self.last_event_ms = now_ms;
                WatchAction::Wait
            },
            WatchEvent::Quiet => {
                if self.pending.len() == 0 {
                    return WatchAction::Wait;
                }
                proof {
                    use_type_invariant(&*self);
                }
                let mut paths: Vec<String> = Vec::new();
                std::mem::swap(&mut paths, &mut self.pending);
                assert(self.waiting() =~= Seq::<Seq<char>>::empty());
                WatchAction::Apply(paths)
            },
        }
    }
}

/// A batch, told apart by what became of the files.
#[derive(Debug)]
pub struct Batch {
    /// Files to index again.
    pub index: Vec<String>,
    /// Files that are gone.
    pub purge: Vec<String>,
}

/// The paths that are there, or those that are not, in order.
pub open spec fn sorted_out(paths: Seq<Seq<char>>, there: Seq<bool>, which: bool) -> Seq<Seq<char>>
    decreases paths.len(),
{
    if paths.len() == 0 {
        paths
    } else {
        let rest = sorted_out(paths.drop_last(), there, which);
        if there[paths.len() - 1] == which {
            rest.push(paths.last())
        } else {
            rest
        }
    }
}

/// Tells the paths of a batch apart. `there` says of each whether it exists.
pub fn sort_out(paths: Vec<String>, there: &Vec<bool>) -> (r: Batch)
    requires
        there@.len() == paths@.len(),
    ensures
        text::texts(r.index@) == sorted_out(text::texts(paths@), there@, true),
        text::texts(r.purge@) == sorted_out(text::texts(paths@), there@, false),
{
    let ghost all = text::texts(paths@);
    let mut index: Vec<String> = Vec::new();
    let mut purge: Vec<String> = Vec::new();
    let mut i: usize = 0;
    assert(text::texts(index@) =~= Seq::<Seq<char>>::empty());
    assert(text::texts(purge@) =~= Seq::<Seq<char>>::empty());
    assert(all.take(0) =~= Seq::<Seq<char>>::empty());
    while i < paths.len()
        invariant
            i <= paths@.len(),
            there@.len() == paths@.len(),
            all == text::texts(paths@),
            text::texts(index@) == sorted_out(all.take(i as int), there@, true),
            text::texts(purge@) == sorted_out(all.take(i as int), there@, false),
        decreases paths@.len() - i,
    {
        let ghost (a, b) = (text::texts(index@), text::texts(purge@));
        assert(all.take(i + 1).drop_last() =~= all.take(i as int));
        assert(all.take(i + 1).last() == paths@[i as int]@);
        if there[i] {
            index.push(paths[i].clone());
            assert(text::texts(index@) =~= a.push(paths@[i as int]@));
        } else {
            purge.push(paths[i].clone());
            assert(text::texts(purge@) =~= b.push(paths@[i as int]@));
        }
        i += 1;
    }
    assert(all.take(all.len() as int) =~= all);
    Batch { index, purge }
}

/// Every path of a batch is indexed again where it is there and purged where it
/// is not, and each is handled once.
pub proof fn law_a_batch_is_applied_in_full(paths: Seq<Seq<char>>, there: Seq<bool>, i: int)
    requires
        there.len() >= paths.len(),
        0 <= i < paths.len(),
    ensures
        there[i] ==> sorted_out(paths, there, true).contains(paths[i]),
        !there[i] ==> sorted_out(paths, there, false).contains(paths[i]),
        sorted_out(paths, there, true).len() + sorted_out(paths, there, false).len() == paths.len(),
    decreases paths.len(),
{
    let (last, before) = (paths.last(), paths.drop_last());
    let which = there[paths.len() - 1];
    let (t, f) = (sorted_out(before, there, true), sorted_out(before, there, false));
    assert(t.push(last)[t.len() as int] == last);
    assert(f.push(last)[f.len() as int] == last);
    if paths.len() == 1 {
        assert(before.len() == 0);
        assert(sorted_out(before, there, true) =~= Seq::<Seq<char>>::empty());
        assert(sorted_out(before, there, false) =~= Seq::<Seq<char>>::empty());
    } else {
        let k = if i < paths.len() - 1 {
            i
        } else {
            0
        };
        law_a_batch_is_applied_in_full(before, there, k);
        if i < paths.len() - 1 {
            assert(before[i] == paths[i]);
            if there[i] {
                let x = t.index_of(paths[i]);
                assert(t.push(last)[x] == paths[i]);
            } else {
                let x = f.index_of(paths[i]);
                assert(f.push(last)[x] == paths[i]);
            }
        }
    }
    if which {
        assert(sorted_out(paths, there, true) == t.push(last));
        assert(sorted_out(paths, there, false) == f);
    } else {
        assert(sorted_out(paths, there, true) == t);
        assert(sorted_out(paths, there, false) == f.push(last));
    }
}

/// Nothing is indexed again that is not there, nothing is purged that is, and
/// both lists keep the order of the batch.
pub proof fn law_a_batch_is_told_apart(paths: Seq<Seq<char>>, there: Seq<bool>, which: bool)
    requires
        there.len() >= paths.len(),
        in_path_order(paths),
    ensures
        in_path_order(sorted_out(paths, there, which)),
        forall|x: Seq<char>| #[trigger]
            sorted_out(paths, there, which).contains(x) ==> exists|i: int|
                0 <= i < paths.len() && there[i] == which && #[trigger] paths[i] == x,
    decreases paths.len(),
{
    if paths.len() > 0 {
        let front = paths.drop_last();
        let rest = sorted_out(front, there, which);
        let all = sorted_out(paths, there, which);
        assert forall|i: int, j: int| 0 <= i < j < front.len() implies crate::paths::path_before(
            #[trigger] front[i],
            #[trigger] front[j],
        ) by {
            assert(crate::paths::path_before(paths[i], paths[j]));
        }
        law_a_batch_is_told_apart(front, there, which);
        assert forall|x: Seq<char>| #[trigger] all.contains(x) implies exists|i: int|
            0 <= i < paths.len() && there[i] == which && #[trigger] paths[i] == x by {
            let k = all.index_of(x);
            if k < rest.len() {
                assert(rest[k] == x);
                assert(rest.contains(x));
                let i = choose|i: int| 0 <= i < front.len() && there[i] == which && #[trigger] front[i] == x;
                assert(paths[i] == x);
            } else {
                assert(paths[paths.len() - 1] == x);
            }
        }
        assert forall|i: int, j: int| 0 <= i < j < all.len() implies crate::paths::path_before(
            #[trigger] all[i],
            #[trigger] all[j],
        ) by {
            assert(all[i] == rest[i]);
            if j < rest.len() {
                assert(all[j] == rest[j]);
            } else {
                assert(rest.contains(rest[i]));
                let k = choose|k: int| 0 <= k < front.len() && there[k] == which && #[trigger] front[k] == rest[i];
                assert(paths[k] == rest[i]);
                assert(crate::paths::path_before(paths[k], paths[paths.len() - 1]));
            }
        }
    } else {
        assert(!sorted_out(paths, there, which).contains(Seq::empty()));
    }
}

/// The projects that are being watched.
pub struct Watchers {
    names: Table<()>,
}

impl View for Watchers {
    type V = Set<Seq<char>>;

    closed spec fn view(&self) -> Set<Seq<char>> {
        self.names@.dom()
    }
}

impl Watchers {
    /// Nothing is watched.
    pub fn new() -> (r: Watchers)
        ensures
            r@ == Set::<Seq<char>>::empty(),
    {
        let r: Watchers = Watchers { names: Table::new() };
        assert(r@ =~= Set::<Seq<char>>::empty());
        r
    }

    /// Notes that a project is being watched.
    pub fn started(&mut self, project: &str)
        ensures
            final(self)@ == old(self)@.insert(project@),
    {
        self.names.insert(project, ());
        assert(self@ =~= old(self)@.insert(project@));
    }

    /// Forgets a project, and says whether it was being watched.
    pub fn stop_watcher(&mut self, project: &str) -> (r: bool)
        ensures
            final(self)@ == old(self)@.remove(project@),
            r == old(self)@.contains(project@),
    {
        let r: bool = self.names.remove(project).is_some();
        assert(self@ =~= old(self)@.remove(project@));
        r
    }
}

} // verus!
