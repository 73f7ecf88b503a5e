//! The tournament model: players, configured length, and the rounds played.
use vstd::prelude::*;
use crate::player::Player;
use crate::round::{GameResult, Pairing, Round};

verus! {

/// Why an operation on a tournament was refused.
#[derive(Clone, Copy, Debug, PartialEq, Eq, Structural)]
pub enum TournamentError {
    /// The operation is not allowed in the tournament's present state.
    InvalidState,
    /// No player has the given index.
    NoSuchPlayer,
    /// The round has no board with the given index.
    NoSuchPairing,
    /// No legal pairing of the next round was found.
    PairingInfeasible,
}

/// A tournament: its players, the number of rounds to be played, and the
/// rounds paired so far.
pub struct TournamentRust {
    pub name: String,
    pub city: String,
    pub federation: String,
    pub players: Vec<Player>,
    pub rounds: Vec<Round>,
    pub total_rounds: u32,
}

/// The tournament type as the rest of the library names it.
pub type Tour = TournamentRust;

pub open spec fn with_rank(p: Player, rank: u32) -> Player {
    Player { starting_rank: rank, ..p }
}

/// Number of rated players in `ps`.
pub open spec fn count_rated(ps: Seq<Player>) -> nat
    decreases ps.len(),
{
    if ps.len() == 0 {
        0
    } else {
        count_rated(ps.drop_last()) + if ps.last().is_rated_spec() {
            1nat
        } else {
            0nat
        }
    }
}

impl Tour {
    /// Players keep their starting rank (their position, counted from 1),
    /// every round is well formed over the players, only the latest round
    /// may still lack results, and no more rounds exist than configured.
    pub open spec fn wf(&self) -> bool {
        &&& self.players@.len() < i32::MAX
        &&& forall|i: int|
            0 <= i < self.players@.len() ==> (#[trigger] self.players@[i]).starting_rank == i + 1
        &&& self.rounds@.len() <= self.total_rounds
        &&& forall|i: int|
            0 <= i < self.rounds@.len() ==> (#[trigger] self.rounds@[i]).wf(
                self.players@.len(),
            )
        &&& forall|i: int|
            0 <= i < self.rounds@.len() - 1 ==> (#[trigger] self.rounds@[i]).is_complete_spec()
    }

    /// Every round has all its results.
    pub open spec fn rounds_complete(&self) -> bool {
        forall|i: int| 0 <= i < self.rounds@.len() ==> (#[trigger] self.rounds@[i]).is_complete_spec()
    }

    pub open spec fn is_complete_spec(&self) -> bool {
        self.rounds@.len() == self.total_rounds && self.rounds_complete()
    }

    pub fn new(name: String, total_rounds: u32) -> (t: Tour)
        ensures
            t.wf(),
            t.name@ == name@,
            t.total_rounds == total_rounds,
            t.players@.len() == 0,
            t.rounds@.len() == 0,
    {
        TournamentRust {
            name,
            city: String::new(),
            federation: String::new(),
            players: Vec::new(),
            rounds: Vec::new(),
            total_rounds,
        }
    }

    /// Sets the number of rounds to be played; it cannot drop below the
    /// number of rounds that exist.
    pub fn set_total_rounds(&mut self, total: u32) -> (r: Result<(), TournamentError>)
        requires
            old(self).wf(),
        ensures
            final(self).wf(),
            r.is_ok() <==> total >= old(self).rounds@.len(),
            r.is_err() ==> r == Err::<(), TournamentError>(TournamentError::InvalidState)
                && *final(self) == *old(self),
            r.is_ok() ==> *final(self) == (TournamentRust { total_rounds: total, ..*old(self) }),
    {
        if (total as usize) < self.rounds.len() {
            return Err(TournamentError::InvalidState);
        }
        self.total_rounds = total;
        Ok(())
    }

    /// Appends a player before the first round. Starting ranks follow the
    /// order of entry: the player's starting rank is set to his position
    /// (counted from 1), which keeps them unique and makes the entry order
    /// the initial seeding order. Refused with `InvalidState` once a round
    /// exists, leaving the tournament unchanged.
    pub fn add_player(&mut self, player: Player) -> (r: Result<(), TournamentError>)
        requires
            old(self).wf(),
            old(self).players@.len() + 1 < i32::MAX,
        ensures
            final(self).wf(),
            r.is_err() <==> old(self).rounds@.len() > 0,
            r.is_err() ==> r == Err::<(), TournamentError>(TournamentError::InvalidState)
                && *final(self) == *old(self),
            r.is_ok() ==> {
                &&& final(self).players@ == old(self).players@.push(
                    with_rank(player, (old(self).players@.len() + 1) as u32),
                )
                &&& final(self).rounds@ == old(self).rounds@
                &&& final(self).total_rounds == old(self).total_rounds
                &&& final(self).name == old(self).name
            },
    {
        if self.rounds.len() > 0 {
            return Err(TournamentError::InvalidState);
        }
        let mut player = player;
        player.starting_rank = (self.players.len() + 1) as u32;
        self.players.push(player);
        assert forall|i: int| 0 <= i < self.rounds@.len() implies (#[trigger] self.rounds@[i]).wf(
            self.players@.len(),
        ) by {
            assert(old(self).rounds@[i].wf(old(self).players@.len()));
        }
        Ok(())
    }

    /// Removes the player with the given index; the players after it move up
    /// one starting rank. Refused once a round exists.
    pub fn remove_player(&mut self, index: usize) -> (r: Result<Player, TournamentError>)
        requires
            old(self).wf(),
        ensures
            final(self).wf(),
            old(self).rounds@.len() > 0 ==> r == Err::<Player, _>(TournamentError::InvalidState),
            old(self).rounds@.len() == 0 && index >= old(self).players@.len() ==> r == Err::<
                Player,
                _,
            >(TournamentError::NoSuchPlayer),
            r.is_err() ==> *final(self) == *old(self),
            r.is_ok() ==> {
                &&& old(self).rounds@.len() == 0 && index < old(self).players@.len()
                &&& r.unwrap() == old(self).players@[index as int]
                &&& final(self).players@.len() == old(self).players@.len() - 1
                &&& forall|i: int|
                    0 <= i < final(self).players@.len() ==> #[trigger] final(self).players@[i]
                        == with_rank(
                        old(self).players@.remove(index as int)[i],
                        (i + 1) as u32,
                    )
                &&& final(self).rounds@ == old(self).rounds@
                &&& final(self).total_rounds == old(self).total_rounds
            },
    {
        if self.rounds.len() > 0 {
            return Err(TournamentError::InvalidState);
        }
        if index >= self.players.len() {
            return Err(TournamentError::NoSuchPlayer);
        }
        let removed = self.players.remove(index);
        let ghost rest = self.players@;
        let mut i: usize = index;
        while i < self.players.len()
            invariant
                index <= i <= self.players@.len(),
                self.players@.len() == rest.len(),
                rest.len() < i32::MAX,
                forall|j: int| 0 <= j < index ==> #[trigger] self.players@[j] == rest[j],
                forall|j: int| 0 <= j < rest.len() ==> (#[trigger] rest[j]).starting_rank == if j
                    < index {
                    j + 1
                } else {
                    j + 2
                },
                forall|j: int| index <= j < i ==> #[trigger] self.players@[j] == with_rank(
                    rest[j],
                    (j + 1) as u32,
                ),
                forall|j: int| i <= j < rest.len() ==> #[trigger] self.players@[j] == rest[j],
                self.rounds == old(self).rounds,
                self.total_rounds == old(self).total_rounds,
                self.rounds@.len() == 0,
            decreases rest.len() - i,
        {
            self.players[i].starting_rank = (i + 1) as u32;
            i = i + 1;
        }
        assert forall|j: int| 0 <= j < self.players@.len() implies #[trigger] self.players@[j]
            == with_rank(old(self).players@.remove(index as int)[j], (j + 1) as u32) by {
            assert(rest == old(self).players@.remove(index as int));
            if j < index {
                assert(rest[j].starting_rank == j + 1);
            }
        }
        Ok(removed)
    }

    pub fn number_of_players(&self) -> (r: i32)
        requires
            self.wf(),
        ensures
            r == self.players@.len(),
    {
        self.players.len() as i32
    }

    pub fn number_of_rated_players(&self) -> (r: i32)
        requires
            self.wf(),
        ensures
            r == count_rated(self.players@),
    {
        let mut n: i32 = 0;
        let mut i: usize = 0;
        while i < self.players.len()
            invariant
                i <= self.players@.len() < i32::MAX,
                n == count_rated(self.players@.subrange(0, i as int)),
                n <= i,
            decreases self.players@.len() - i,
        {
            assert(self.players@.subrange(0, i + 1).drop_last() =~= self.players@.subrange(
                0,
                i as int,
            ));
            if self.players[i].is_rated() {
                n = n + 1;
            }
            i = i + 1;
        }
        assert(self.players@.subrange(0, self.players@.len() as int) =~= self.players@);
        n
    }

    /// The number of the latest round (counted from 1); 0 before the first.
    pub fn current_round_number(&self) -> (r: u32)
        requires
            self.wf(),
        ensures
            r == self.rounds@.len(),
    {
        self.rounds.len() as u32
    }

    /// Every round so far has all its results.
    pub fn rounds_are_complete(&self) -> (r: bool)
        ensures
            r == self.rounds_complete(),
    {
        let mut i: usize = 0;
        while i < self.rounds.len()
            invariant
                i <= self.rounds@.len(),
                forall|j: int| 0 <= j < i ==> (#[trigger] self.rounds@[j]).is_complete_spec(),
            decreases self.rounds@.len() - i,
        {
            if !self.rounds[i].is_complete() {
                return false;
            }
            i = i + 1;
        }
        true
    }

    /// All configured rounds exist and have their results.
    pub fn is_complete(&self) -> (r: bool)
        requires
            self.wf(),
        ensures
            r == self.is_complete_spec(),
    {
        if self.rounds.len() as u32 != self.total_rounds {
            return false;
        }
        if self.rounds.len() == 0 {
            return true;
        }
        let last = self.rounds.len() - 1;
        let c = self.rounds[last].is_complete();
        if c {
            assert forall|i: int| 0 <= i < self.rounds@.len() implies (#[trigger] self.rounds@[
                i
            ]).is_complete_spec() by {
                if i < last {
                    assert(self.rounds@[i].is_complete_spec());
                } else {
                    assert(i == last);
                }
            }
        }
        c
    }

    /// Enters the result of board `pairing` (counted from 0) of round `round`
    /// (counted from 1). Only the latest round can be changed.
    pub fn record_result(&mut self, round: u32, pairing: usize, result: GameResult) -> (r: Result<
        (),
        TournamentError,
    >)
        requires
            old(self).wf(),
        ensures
            final(self).wf(),
            r.is_err() ==> *final(self) == *old(self),
            (round == 0 || round != old(self).rounds@.len()) <==> r == Err::<(), _>(
                TournamentError::InvalidState,
            ),
            (round > 0 && round == old(self).rounds@.len() && pairing >= old(
                self,
            ).rounds@.last().pairings@.len()) <==> r == Err::<(), _>(
                TournamentError::NoSuchPairing,
            ),
            r.is_ok() ==> {
                let i = round - 1;
                let old_rd = old(self).rounds@[i];
                &&& final(self).players == old(self).players
                &&& final(self).total_rounds == old(self).total_rounds
                &&& final(self).rounds@ == old(self).rounds@.update(
                    i,
                    Round {
                        pairings: final(self).rounds@[i].pairings,
                        bye: old_rd.bye,
                    },
                )
                &&& final(self).rounds@[i].pairings@ == old_rd.pairings@.update(
                    pairing as int,
                    Pairing { result, ..old_rd.pairings@[pairing as int] },
                )
            },
    {
        if round == 0 || round as usize != self.rounds.len() {
            return Err(TournamentError::InvalidState);
        }
        let i = (round - 1) as usize;
        if pairing >= self.rounds[i].pairings.len() {
            return Err(TournamentError::NoSuchPairing);
        }
        let ghost old_rounds = self.rounds@;
        self.rounds[i].pairings[pairing].result = result;
        assert(self.rounds@[i as int].wf(self.players@.len())) by {
            assert(old_rounds[i as int].wf(self.players@.len()));
            let ps = self.rounds@[i as int].pairings@;
            let ops = old_rounds[i as int].pairings@;
            assert(ps.len() == ops.len());
            assert forall|k: int, p: usize| 0 <= k < ps.len() implies #[trigger] ps[k].has(p)
                == ops[k].has(p) by {}
        }
        assert forall|j: int| 0 <= j < self.rounds@.len() implies (#[trigger] self.rounds@[j]).wf(
            self.players@.len(),
        ) by {
            if j != i {
                assert(old_rounds[j].wf(self.players@.len()));
            }
        }
        assert forall|j: int| 0 <= j < self.rounds@.len() - 1 implies (
        #[trigger] self.rounds@[j]).is_complete_spec() by {
            assert(old_rounds[j].is_complete_spec());
        }
        Ok(())
    }
}

} // verus!
