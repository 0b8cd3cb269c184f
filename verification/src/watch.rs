//! Watching the journal of one drive forever: what to do next, after each thing that
//! happened.

use vstd::prelude::*;

use crate::journal::JournalRead;
#[allow(unused_imports)]
use crate::journal::{all_updated, caught_up, update_views, UpdateView};
use crate::mft::Index;
#[allow(unused_imports)]
use crate::mft::IndexView;

verus! {

/// Pause before the volume is opened again.
pub const REOPEN_PAUSE_MS: u64 = 2000;

/// Pause after a read that brought nothing.
pub const IDLE_PAUSE_MS: u64 = 200;

/// What happened.
pub enum Event {
    /// The volume was opened.
    Opened,
    /// The volume could not be opened.
    Unavailable,
    /// The journal was read.
    Read(JournalRead),
    /// The journal could not be read.
    ReadFailed,
    /// The index was rebuilt from the MFT.
    Rebuilt(Index),
    /// The index could not be rebuilt.
    RebuildFailed,
}

/// What to do next.
pub enum Action {
    /// After the pause, read the journal from the cursor on.
    Read { journal_id: u64, start_usn: i64, pause_ms: u64 },
    /// Rebuild the index from the MFT.
    Rebuild,
    /// Close the volume if it is open and, after the pause, open it again.
    Reopen { pause_ms: u64 },
}

/// The place in a journal that a watch has got to.
#[derive(Clone, Copy)]
pub struct Watcher {
    pub journal_id: u64,
    pub next_usn: i64,
}

/// The watch and the index stand at the same place in the journal.
pub open spec fn in_step(watcher: Watcher, v: IndexView) -> bool {
    watcher.journal_id == v.journal_id && watcher.next_usn == v.next_usn
}

/// The index after a batch. One that brought nothing and did not move the cursor
/// leaves the index alone.
pub open spec fn after_batch(
    watcher: Watcher,
    v: IndexView,
    next: i64,
    updates: Seq<UpdateView>,
) -> IndexView {
    if updates.len() == 0 && next == watcher.next_usn {
        v
    } else {
        caught_up(v, next, updates)
    }
}

/// The index after what happened: a batch is applied, and a rebuilt index takes the
/// place of the old one.
pub open spec fn index_after(watcher: Watcher, v: IndexView, event: Event) -> IndexView {
    match event {
        Event::Read(JournalRead::Batch { next, updates }) => after_batch(
            watcher,
            v,
            next,
            update_views(updates@),
        ),
        Event::Rebuilt(fresh) => fresh@,
        _ => v,
    }
}

/// The watch after what happened: a batch moves it, and a volume just opened or an
/// index just rebuilt has it go on from where the index stands.
pub open spec fn watcher_after(watcher: Watcher, v: IndexView, event: Event) -> Watcher {
    match event {
        Event::Opened => Watcher { journal_id: v.journal_id, next_usn: v.next_usn },
        Event::Read(JournalRead::Batch { next, .. }) => Watcher { next_usn: next, ..watcher },
        Event::Rebuilt(fresh) => Watcher {
            journal_id: fresh.journal_id,
            next_usn: fresh.next_usn,
        },
        _ => watcher,
    }
}

/// What is to be done after what happened. After a batch the next read waits if the
/// cursor did not move; a stale journal is answered by rebuilding the index, and
/// whatever fails by opening the volume again.
pub open spec fn action_after(watcher: Watcher, v: IndexView, event: Event) -> Action {
    let after = watcher_after(watcher, v, event);
    match event {
        Event::Read(JournalRead::Stale) => Action::Rebuild,
        Event::Unavailable | Event::ReadFailed | Event::RebuildFailed => Action::Reopen {
            pause_ms: REOPEN_PAUSE_MS,
        },
        Event::Opened | Event::Rebuilt(_) => Action::Read {
            journal_id: after.journal_id,
            start_usn: after.next_usn,
            pause_ms: 0,
        },
        Event::Read(JournalRead::Batch { next, .. }) => Action::Read {
            journal_id: after.journal_id,
            start_usn: after.next_usn,
            pause_ms: if next == watcher.next_usn {
                IDLE_PAUSE_MS
            } else {
                0
            },
        },
    }
}

impl Watcher {
    /// A watch that goes on from where the index stands.
    pub fn new(index: &Index) -> (w: Self)
        ensures
            in_step(w, index@),
    {
        Watcher { journal_id: index.journal_id, next_usn: index.next_usn }
    }

    /// Reads on from where the watch is, after a pause.
    fn read_on(&self, pause_ms: u64) -> (action: Action)
        ensures
            action == (Action::Read {
                journal_id: self.journal_id,
                start_usn: self.next_usn,
                pause_ms,
            }),
    {
        Action::Read { journal_id: self.journal_id, start_usn: self.next_usn, pause_ms }
    }

    /// Takes up what happened, and says what to do next.
    ///
    /// A batch is applied to the index at once; the next read starts behind it, and
    /// not before a pause if the cursor did not move. A stale journal is answered by
    /// rebuilding the index, and whatever fails by opening the volume again.
    pub fn step(&mut self, index: &mut Index, event: Event) -> (action: Action)
        ensures
            *final(self) == watcher_after(*old(self), old(index)@, event),
            final(index)@ == index_after(*old(self), old(index)@, event),
            action == action_after(*old(self), old(index)@, event),
    {
        match event {
            Event::Opened => {
                self.journal_id = index.journal_id;
                self.next_usn = index.next_usn;
                self.read_on(0)
            },
            Event::Read(JournalRead::Batch { next, updates }) => {
                let progressed = next != self.next_usn;
                if updates.len() > 0 || progressed {
                    index.catch_up(next, updates);
                }
                self.next_usn = next;
                if progressed {
                    self.read_on(0)
                } else {
                    self.read_on(IDLE_PAUSE_MS)
                }
            },
            Event::Read(JournalRead::Stale) => Action::Rebuild,
            Event::Rebuilt(fresh) => {
                self.journal_id = fresh.journal_id;
                self.next_usn = fresh.next_usn;
                *index = fresh;
                self.read_on(0)
            },
            Event::Unavailable | Event::ReadFailed | Event::RebuildFailed => Action::Reopen {
                pause_ms: REOPEN_PAUSE_MS,
            },
        }
    }
}

/// A watch that is in step with the index stays so, whatever happens.
pub proof fn law_in_step_is_kept(watcher: Watcher, v: IndexView, event: Event)
    requires
        in_step(watcher, v),
    ensures
        in_step(watcher_after(watcher, v, event), index_after(watcher, v, event)),
{
    if let Event::Read(JournalRead::Batch { next, updates }) = event {
        lemma_journal_is_kept(v, update_views(updates@));
    }
}

/// However a watch went wrong, once the volume is open again it is in step with the
/// index.
pub proof fn law_reopening_resumes(watcher: Watcher, v: IndexView)
    ensures
        in_step(
            watcher_after(watcher, v, Event::Opened),
            index_after(watcher, v, Event::Opened),
        ),
{
}

/// Each read that is asked for starts where the index will then stand.
pub proof fn law_reads_resume_at_the_index(watcher: Watcher, v: IndexView, event: Event)
    requires
        in_step(watcher, v),
    ensures
        action_after(watcher, v, event) matches Action::Read { journal_id, start_usn, .. } ==> {
            let after = index_after(watcher, v, event);
            journal_id == after.journal_id && start_usn == after.next_usn
        },
{
    law_in_step_is_kept(watcher, v, event);
}

/// A stale journal heals: it is answered by a rebuild, and the rebuilt index, whatever
/// it is, takes the place of the stale one and is watched from where it stands.
pub proof fn law_stale_journal_heals(watcher: Watcher, v: IndexView, fresh: Index)
    ensures
        ({
            let stale = Event::Read(JournalRead::Stale);
            let kept = index_after(watcher, v, stale);
            let waiting = watcher_after(watcher, v, stale);
            let rebuilt = Event::Rebuilt(fresh);
            &&& action_after(watcher, v, stale) == Action::Rebuild
            &&& kept == v
            &&& index_after(waiting, kept, rebuilt) == fresh@
            &&& in_step(watcher_after(waiting, kept, rebuilt), fresh@)
            &&& action_after(waiting, kept, rebuilt) == (Action::Read {
                journal_id: fresh.journal_id,
                start_usn: fresh.next_usn,
                pause_ms: 0,
            })
        }),
{
}

/// Changes are those of one journal.
proof fn lemma_journal_is_kept(v: IndexView, updates: Seq<UpdateView>)
    ensures
        all_updated(v, updates).journal_id == v.journal_id,
    decreases updates.len(),
{
    if updates.len() > 0 {
        lemma_journal_is_kept(v, updates.drop_last());
    }
}

} // verus!
