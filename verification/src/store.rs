//! The snapshot store and the refresh trigger.
//!
//! These are the only two pieces of state shared between the background
//! fetcher and the query layer. The store holds the current attendance
//! snapshot and is only ever read whole or replaced whole, so a reader
//! observes either the full old list or the full new one, never a mixture.
//! The trigger is a single-slot signal requesting an out-of-cycle refresh.

use crate::pipeline::Student;
use vstd::prelude::*;

verus! {

/// Holds the attendance snapshot currently served to readers. The snapshot
/// is the empty initial state or the complete result of one successful
/// pipeline run; there is no in-place mutation.
pub struct SnapshotStore {
    students: Vec<Student>,
}

impl SnapshotStore {
    /// The sequence of students a read observes.
    pub closed spec fn view(&self) -> Seq<Student> {
        self.students@
    }

    /// The empty initial snapshot.
    pub fn new() -> (r: SnapshotStore)
        ensures
            r@ == Seq::<Student>::empty(),
    {
        SnapshotStore { students: Vec::new() }
    }

    /// An independent copy of the current snapshot, safe to hold across time.
    pub fn read(&self) -> (r: Vec<Student>)
        ensures
            r@ == self@,
    {
        let mut out: Vec<Student> = Vec::new();
        let mut i: usize = 0;
        while i < self.students.len()
            invariant
                i <= self.students@.len(),
                out@ == self.students@.take(i as int),
            decreases self.students@.len() - i,
        {
            out.push(self.students[i].clone());
            proof {
                assert(out@ =~= self.students@.take(i + 1));
            }
            i = i + 1;
        }
        proof {
            assert(self.students@.take(self.students@.len() as int) =~= self.students@);
        }
        out
    }

    /// Atomically replace the whole snapshot.
    pub fn replace(&mut self, new_snapshot: Vec<Student>)
        ensures
            final(self)@ == new_snapshot@,
    {
        self.students = new_snapshot;
    }
}

/// A single-slot signal that lets an external caller request an out-of-cycle
/// refresh. Requesting is idempotent; consuming reads and clears the slot.
pub struct Trigger {
    pending: bool,
}

impl Trigger {
    /// Whether a refresh request is waiting to be consumed.
    pub closed spec fn is_pending(&self) -> bool {
        self.pending
    }

    pub fn new() -> (r: Trigger)
        ensures
            !r.is_pending(),
    {
        Trigger { pending: false }
    }

    /// Request an out-of-cycle refresh. Any number of requests before the
    /// next consumption leave the same pending state.
    pub fn request(&mut self)
        ensures
            final(self).is_pending(),
    {
        self.pending = true;
    }

    /// Read and clear the pending flag in one step.
    pub fn consume_if_set(&mut self) -> (was_set: bool)
        ensures
            was_set == old(self).is_pending(),
            !final(self).is_pending(),
    {
        let was = self.pending;
        self.pending = false;
        was
    }
}

/// The state shared between the scheduler and the query layer: the roster
/// snapshot and the refresh flag.
pub struct AppState {
    pub students: SnapshotStore,
    pub should_refresh: Trigger,
}

impl AppState {
    pub fn new() -> (r: AppState)
        ensures
            r.students@ == Seq::<Student>::empty(),
            !r.should_refresh.is_pending(),
    {
        AppState { students: SnapshotStore::new(), should_refresh: Trigger::new() }
    }
}

} // verus!
