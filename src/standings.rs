//! Standings: players ranked by score, then Buchholz, then direct encounter.
use vstd::prelude::*;
use crate::history::{find_pairing, pairing_of, score, score_of};
use crate::player::Color;
use crate::round::{points_for, result_points, Pairing, Round};
use crate::tournament::Tour;

verus! {

pub open spec fn opponent(pr: Pairing, p: usize) -> usize {
    if pr.white == p {
        pr.black
    } else {
        pr.white
    }
}

pub open spec fn color_of(pr: Pairing, p: usize) -> Color {
    if pr.white == p {
        Color::White
    } else {
        Color::Black
    }
}

/// What one round adds to the Buchholz score of `p`: the final score of the
/// opponent of a game played over the board; otherwise (bye, forfeit, no
/// game) a fixed value, the score of a virtual opponent with half the
/// points, which is one half-point per round.
pub open spec fn buchholz_part(rs: Seq<Round>, rd: Round, p: usize) -> nat {
    match pairing_of(rd.pairings@, p) {
        Some(pr) => if pr.was_played() {
            score(rs, opponent(pr, p))
        } else {
            rs.len()
        },
        None => rs.len(),
    }
}

/// Buchholz over the rounds `upto`, opponents' scores taken over `rs`.
pub open spec fn buchholz_over(rs: Seq<Round>, upto: Seq<Round>, p: usize) -> nat
    decreases upto.len(),
{
    if upto.len() == 0 {
        0
    } else {
        buchholz_over(rs, upto.drop_last(), p) + buchholz_part(rs, upto.last(), p)
    }
}

/// Sum of the opponents' scores, in half-points.
pub open spec fn buchholz(rs: Seq<Round>, p: usize) -> nat {
    buchholz_over(rs, rs, p)
}

/// What one round adds to the direct-encounter score of `p`: his points in
/// a game played against an opponent with the same final score.
pub open spec fn encounter_part(rs: Seq<Round>, rd: Round, p: usize) -> nat {
    match pairing_of(rd.pairings@, p) {
        Some(pr) => if pr.was_played() && score(rs, opponent(pr, p)) == score(rs, p) {
            result_points(pr.result, color_of(pr, p))
        } else {
            0
        },
        None => 0,
    }
}

pub open spec fn encounter_over(rs: Seq<Round>, upto: Seq<Round>, p: usize) -> nat
    decreases upto.len(),
{
    if upto.len() == 0 {
        0
    } else {
        encounter_over(rs, upto.drop_last(), p) + encounter_part(rs, upto.last(), p)
    }
}

/// Points, in half-points, scored against players who finished on the same
/// score.
pub open spec fn direct_encounter(rs: Seq<Round>, p: usize) -> nat {
    encounter_over(rs, rs, p)
}

/// One line of the standings.
#[derive(Clone, Copy, Debug, PartialEq, Eq, Structural)]
pub struct Standing {
    pub player: usize,
    pub score: u64,
    pub buchholz: u128,
    pub direct_encounter: u64,
}

/// `a` is listed above `b`: more points, then higher Buchholz, then more
/// direct-encounter points, then the lower player index.
pub open spec fn standing_before(a: Standing, b: Standing) -> bool {
    a.score > b.score || (a.score == b.score && (a.buchholz > b.buchholz || (a.buchholz
        == b.buchholz && (a.direct_encounter > b.direct_encounter || (a.direct_encounter
        == b.direct_encounter && a.player < b.player)))))
}

/// The line of player `p` holds his score and tie-breaks.
pub open spec fn standing_of(t: &Tour, st: Standing) -> bool {
    &&& st.player < t.players@.len()
    &&& st.score == score(t.rounds@, st.player)
    &&& st.buchholz == buchholz(t.rounds@, st.player)
    &&& st.direct_encounter == direct_encounter(t.rounds@, st.player)
}

/// Player `p` has a line in `s`.
pub open spec fn lists(s: Seq<Standing>, p: usize) -> bool {
    exists|i: int| 0 <= i < s.len() && (#[trigger] s[i]).player == p
}

/// `s` lists every player once, with his values, in standing order.
pub open spec fn standings_ok(t: &Tour, s: Seq<Standing>) -> bool {
    &&& s.len() == t.players@.len()
    &&& forall|i: int| 0 <= i < s.len() ==> standing_of(t, #[trigger] s[i])
    &&& forall|p: usize| p < t.players@.len() ==> #[trigger] lists(s, p)
    &&& forall|i: int, j: int| 0 <= i < j < s.len() ==> standing_before(#[trigger] s[i], #[trigger] s[j])
}

fn standing_before_exec(a: &Standing, b: &Standing) -> (r: bool)
    ensures
        r == standing_before(*a, *b),
{
    a.score > b.score || (a.score == b.score && (a.buchholz > b.buchholz || (a.buchholz
        == b.buchholz && (a.direct_encounter > b.direct_encounter || (a.direct_encounter
        == b.direct_encounter && a.player < b.player)))))
}

proof fn lemma_tiebreak_bounds(rs: Seq<Round>, upto: Seq<Round>, p: usize)
    ensures
        buchholz_over(rs, upto, p) <= upto.len() * (2 * rs.len()),
        encounter_over(rs, upto, p) <= 2 * upto.len(),
    decreases upto.len(),
{
    if upto.len() > 0 {
        lemma_tiebreak_bounds(rs, upto.drop_last(), p);
        let rd = upto.last();
        match pairing_of(rd.pairings@, p) {
            Some(pr) => {
                crate::history::lemma_score_bound(rs, opponent(pr, p));
            },
            None => {},
        }
        assert((upto.len() - 1) * (2 * rs.len()) + 2 * rs.len() == upto.len() * (2 * rs.len()))
            by (nonlinear_arith);
    }
}

/// The tie-breaks of `p`, given every player's score.
pub(crate) fn tiebreaks_of(t: &Tour, scores: &Vec<u64>, p: usize) -> (r: (u128, u64))
    requires
        t.wf(),
        p < t.players@.len(),
        scores@.len() == t.players@.len(),
        forall|q: int| 0 <= q < scores@.len() ==> #[trigger] scores@[q] == score(t.rounds@, q as usize),
    ensures
        r.0 == buchholz(t.rounds@, p),
        r.1 == direct_encounter(t.rounds@, p),
{
    let ghost rs = t.rounds@;
    let nr = t.rounds.len();
    let mut bh: u128 = 0;
    let mut de: u64 = 0;
    let mut i: usize = 0;
    while i < nr
        invariant
            t.wf(),
            rs == t.rounds@,
            nr == rs.len(),
            p < t.players@.len(),
            scores@.len() == t.players@.len(),
            forall|q: int| 0 <= q < scores@.len() ==> #[trigger] scores@[q] == score(rs, q as usize),
            i <= nr,
            bh == buchholz_over(rs, rs.subrange(0, i as int), p),
            de == encounter_over(rs, rs.subrange(0, i as int), p),
        decreases nr - i,
    {
        let ghost pre = rs.subrange(0, i as int);
        assert(rs.subrange(0, i + 1).drop_last() =~= pre);
        proof {
            lemma_tiebreak_bounds(rs, rs.subrange(0, i + 1), p);
            assert((i + 1) * (2 * nr) <= (u32::MAX as int) * (2 * (u32::MAX as int)))
                by (nonlinear_arith)
                requires
                    i + 1 <= nr,
                    nr <= u32::MAX,
            ;
        }
        let rd = &t.rounds[i];
        assert(rd.wf(t.players@.len()));
        match find_pairing(&rd.pairings, p) {
            Some(pr) => {
                proof {
                    crate::history::lemma_score_bound(rs, opponent(pr, p));
                }
                let played = match pr.result {
                    crate::round::GameResult::WhiteWins
                    | crate::round::GameResult::BlackWins
                    | crate::round::GameResult::Draw => true,
                    _ => false,
                };
                let (o, c) = if pr.white == p {
                    (pr.black, Color::White)
                } else {
                    (pr.white, Color::Black)
                };
                if played {
                    assert(pairing_of(rd.pairings@, p) == Some(pr));
                    assert(o < t.players@.len()) by {
                        crate::history::lemma_pairing_of_in(rd.pairings@, p);
                    }
                    bh = bh + scores[o] as u128;
                    if scores[o] == scores[p] {
                        de = de + points_for(pr.result, c);
                    }
                } else {
                    bh = bh + nr as u128;
                }
            },
            None => {
                bh = bh + nr as u128;
            },
        }
        i = i + 1;
    }
    assert(rs.subrange(0, nr as int) =~= rs);
    (bh, de)
}

impl Tour {
    /// The standings: every player once, by score, then Buchholz, then direct
    /// encounter, then starting rank.
    pub fn standings(&self) -> (s: Vec<Standing>)
        requires
            self.wf(),
        ensures
            standings_ok(self, s@),
    {
        let n = self.players.len();
        let mut scores: Vec<u64> = Vec::new();
        let mut p: usize = 0;
        while p < n
            invariant
                self.wf(),
                n == self.players@.len(),
                p <= n,
                scores@.len() == p,
                forall|q: int| 0 <= q < p ==> #[trigger] scores@[q] == score(self.rounds@, q as usize),
            decreases n - p,
        {
            scores.push(score_of(&self.rounds, p));
            p = p + 1;
        }
        let mut s: Vec<Standing> = Vec::new();
        let mut k: usize = 0;
        while k < n
            invariant
                self.wf(),
                n == self.players@.len(),
                scores@.len() == n,
                forall|q: int| 0 <= q < n ==> #[trigger] scores@[q] == score(self.rounds@, q as usize),
                k <= n,
                s@.len() == k,
                forall|i: int| 0 <= i < s@.len() ==> standing_of(self, #[trigger] s@[i]),
                forall|i: int| 0 <= i < s@.len() ==> (#[trigger] s@[i]).player < k,
                forall|q: usize| q < k ==> #[trigger] lists(s@, q),
                forall|i: int, j: int|
                    0 <= i < j < s@.len() ==> standing_before(#[trigger] s@[i], #[trigger] s@[j]),
            decreases n - k,
        {
            let (bh, de) = tiebreaks_of(self, &scores, k);
            let st = Standing { player: k, score: scores[k], buchholz: bh, direct_encounter: de };
            let mut pos: usize = 0;
            while pos < s.len() && standing_before_exec(&s[pos], &st)
                invariant
                    pos <= s@.len(),
                    forall|i: int| 0 <= i < pos ==> standing_before(#[trigger] s@[i], st),
                decreases s@.len() - pos,
            {
                pos = pos + 1;
            }
            let ghost s0 = s@;
            s.insert(pos, st);
            assert forall|i: int, j: int| 0 <= i < j < s@.len() implies standing_before(
                #[trigger] s@[i],
                #[trigger] s@[j],
            ) by {
                if j < pos {
                    assert(s@[i] == s0[i] && s@[j] == s0[j]);
                } else if j == pos {
                    assert(s@[i] == s0[i]);
                } else if i == pos {
                    assert(s@[j] == s0[j - 1]);
                    assert(s0[pos as int].player < k);
                    if j - 1 > pos {
                        assert(standing_before(s0[pos as int], s0[j - 1]));
                    }
                } else if i < pos {
                    assert(s@[i] == s0[i] && s@[j] == s0[j - 1]);
                } else {
                    assert(s@[i] == s0[i - 1] && s@[j] == s0[j - 1]);
                }
            }
            assert forall|i: int| 0 <= i < s@.len() implies standing_of(self, #[trigger] s@[i])
                && s@[i].player < k + 1 by {
                if i < pos {
                    assert(s@[i] == s0[i]);
                } else if i > pos {
                    assert(s@[i] == s0[i - 1]);
                }
            }
            assert forall|q: usize| q < k + 1 implies #[trigger] lists(s@, q) by {
                if q == k {
                    assert(s@[pos as int].player == q);
                } else {
                    assert(lists(s0, q));
                    let i0 = choose|i: int| 0 <= i < s0.len() && (#[trigger] s0[i]).player == q;
                    if i0 < pos {
                        assert(s@[i0].player == q);
                    } else {
                        assert(s@[i0 + 1].player == q);
                    }
                }
            }
            k = k + 1;
        }
        s
    }
}

/// A player with strictly fewer points never stands above another: going
/// down the standings, scores never rise.
pub proof fn lemma_standings_monotone(t: &Tour, s: Seq<Standing>, i: int, j: int)
    requires
        standings_ok(t, s),
        0 <= i < j < s.len(),
    ensures
        score(t.rounds@, s[i].player) >= score(t.rounds@, s[j].player),
        score(t.rounds@, s[j].player) < score(t.rounds@, s[i].player) || s[i].buchholz
            > s[j].buchholz || s[i].buchholz == s[j].buchholz && (s[i].direct_encounter
            > s[j].direct_encounter || s[i].direct_encounter == s[j].direct_encounter
            && s[i].player < s[j].player),
{
    assert(standing_before(s[i], s[j]));
    assert(standing_of(t, s[i]) && standing_of(t, s[j]));
}

} // verus!
