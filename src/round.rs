use vstd::prelude::*;
use crate::player::Color;

verus! {

/// The outcome of one game.
#[derive(Clone, Copy, Debug, PartialEq, Eq, Structural)]
pub enum GameResult {
    Unset,
    WhiteWins,
    BlackWins,
    Draw,
    WhiteWinsByForfeit,
    BlackWinsByForfeit,
    DoubleForfeit,
}

/// One board of a round: two players, given by their index in the
/// tournament's player list, and the result of their game.
#[derive(Clone, Copy, Debug, PartialEq, Eq, Structural)]
pub struct Pairing {
    pub white: usize,
    pub black: usize,
    pub result: GameResult,
}

/// The boards of one round and the player, if any, who has the bye.
#[derive(Clone, Debug)]
pub struct Round {
    pub pairings: Vec<Pairing>,
    pub bye: Option<usize>,
}

/// Points in half-points that a result gives to the player of the given colour.
pub open spec fn result_points(r: GameResult, c: Color) -> nat {
    match (r, c) {
        (GameResult::WhiteWins, Color::White) => 2,
        (GameResult::WhiteWinsByForfeit, Color::White) => 2,
        (GameResult::BlackWins, Color::Black) => 2,
        (GameResult::BlackWinsByForfeit, Color::Black) => 2,
        (GameResult::Draw, _) => 1,
        _ => 0,
    }
}

pub fn points_for(r: GameResult, c: Color) -> (p: u64)
    ensures
        p == result_points(r, c),
{
    match (r, c) {
        (GameResult::WhiteWins, Color::White) => 2,
        (GameResult::WhiteWinsByForfeit, Color::White) => 2,
        (GameResult::BlackWins, Color::Black) => 2,
        (GameResult::BlackWinsByForfeit, Color::Black) => 2,
        (GameResult::Draw, _) => 1,
        _ => 0,
    }
}

/// Half-points for a bye.
pub const BYE_POINTS: u64 = 2;

impl Pairing {
    pub open spec fn has(self, p: usize) -> bool {
        self.white == p || self.black == p
    }

    /// Whether the game was actually played over the board.
    pub open spec fn was_played(self) -> bool {
        match self.result {
            GameResult::WhiteWins | GameResult::BlackWins | GameResult::Draw => true,
            _ => false,
        }
    }
}

impl Round {
    /// Every player index is below `n`, nobody plays himself, nobody is on
    /// two boards, and the bye holder has no board.
    pub open spec fn wf(&self, n: nat) -> bool {
        let ps = self.pairings@;
        &&& forall|k: int| 0 <= k < ps.len() ==> ps[k].white < n && ps[k].black < n
            && ps[k].white != ps[k].black
        &&& forall|k1: int, k2: int, p: usize|
            0 <= k1 < ps.len() && 0 <= k2 < ps.len() && k1 != k2 && #[trigger] ps[k1].has(p)
                ==> !(#[trigger] ps[k2].has(p))
        &&& match self.bye {
            Some(b) => b < n && forall|k: int| 0 <= k < ps.len() ==> !(#[trigger] ps[k].has(b)),
            None => true,
        }
    }

    /// All results of the round are entered.
    pub open spec fn is_complete_spec(&self) -> bool {
        forall|k: int| 0 <= k < self.pairings@.len() ==> (#[trigger] self.pairings@[k]).result
            != GameResult::Unset
    }

    pub fn is_complete(&self) -> (r: bool)
        ensures
            r == self.is_complete_spec(),
    {
        let mut k: usize = 0;
        while k < self.pairings.len()
            invariant
                k <= self.pairings@.len(),
                forall|j: int| 0 <= j < k ==> (#[trigger] self.pairings@[j]).result
                    != GameResult::Unset,
            decreases self.pairings@.len() - k,
        {
            if self.pairings[k].result == GameResult::Unset {
                return false;
            }
            k = k + 1;
        }
        true
    }
}

} // verus!
