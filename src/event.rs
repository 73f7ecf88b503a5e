//! An event: the tournaments run together, addressed by index.
use vstd::prelude::*;
use crate::tournament::{Tour, TournamentError};

verus! {

/// The tournaments run together.
pub struct EventRust {
    pub tournaments: Vec<Tour>,
}

/// The event type as the rest of the library names it.
pub type Event = EventRust;

impl Event {
    /// There are fewer tournaments than `i32` can count, and each is well
    /// formed.
    pub open spec fn wf(&self) -> bool {
        &&& self.tournaments@.len() < i32::MAX
        &&& forall|i: int| 0 <= i < self.tournaments@.len() ==> (#[trigger] self.tournaments@[i]).wf()
    }

    pub fn new() -> (e: Event)
        ensures
            e.wf(),
            e.tournaments@.len() == 0,
    {
        EventRust { tournaments: Vec::new() }
    }

    pub fn number_of_tournaments(&self) -> (r: i32)
        requires
            self.wf(),
        ensures
            r == self.tournaments@.len(),
    {
        self.tournaments.len() as i32
    }

    /// Adds a tournament that was built or loaded elsewhere; returns its index.
    pub fn open(&mut self, t: Tour) -> (r: Result<usize, TournamentError>)
        requires
            old(self).wf(),
            t.wf(),
        ensures
            final(self).wf(),
            old(self).tournaments@.len() + 1 < i32::MAX ==> r == Ok::<usize, TournamentError>(
                old(self).tournaments@.len() as usize,
            ) && final(self).tournaments@ == old(self).tournaments@.push(t),
            old(self).tournaments@.len() + 1 >= i32::MAX ==> r == Err::<usize, TournamentError>(
                TournamentError::InvalidState,
            ) && *final(self) == *old(self),
    {
        let n = self.tournaments.len();
        if n + 1 >= i32::MAX as usize {
            return Err(TournamentError::InvalidState);
        }
        self.tournaments.push(t);
        Ok(n)
    }

    /// The tournament with index `i`, if there is one.
    pub fn get_tournament(&self, i: i32) -> (r: Option<&Tour>)
        requires
            self.wf(),
        ensures
            (0 <= i < self.tournaments@.len()) <==> r.is_some(),
            r matches Some(t) ==> *t == self.tournaments@[i as int],
    {
        if i < 0 || i as usize >= self.tournaments.len() {
            None
        } else {
            Some(&self.tournaments[i as usize])
        }
    }

    /// Adds an empty tournament with no rounds configured; returns its index.
    pub fn create_tournament(&mut self) -> (r: Result<usize, TournamentError>)
        requires
            old(self).wf(),
        ensures
            final(self).wf(),
            old(self).tournaments@.len() + 1 < i32::MAX <==> r.is_ok(),
            r.is_err() ==> r == Err::<usize, TournamentError>(TournamentError::InvalidState)
                && *final(self) == *old(self),
            r matches Ok(k) ==> {
                &&& k == old(self).tournaments@.len()
                &&& final(self).tournaments@.len() == k + 1
                &&& final(self).tournaments@.drop_last() == old(self).tournaments@
                &&& final(self).tournaments@[k as int].players@.len() == 0
                &&& final(self).tournaments@[k as int].rounds@.len() == 0
                &&& final(self).tournaments@[k as int].total_rounds == 0
            },
    {
        let t = Tour::new(String::new(), 0);
        let ghost t0 = self.tournaments@;
        let r = self.open(t);
        assert(r.is_ok() ==> self.tournaments@.drop_last() =~= t0);
        r
    }
}

} // verus!
