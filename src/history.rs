//! What the completed rounds say about each player: score, colours, byes and
//! opponents met. Players are given by their index in the player list.
use vstd::prelude::*;
use crate::player::Color;
use crate::round::{points_for, result_points, Pairing, Round, BYE_POINTS};

verus! {

/// The last board of `ps` on which `p` sits, if any.
pub open spec fn pairing_of(ps: Seq<Pairing>, p: usize) -> Option<Pairing>
    decreases ps.len(),
{
    if ps.len() == 0 {
        None
    } else if ps.last().has(p) {
        Some(ps.last())
    } else {
        pairing_of(ps.drop_last(), p)
    }
}

pub open spec fn color_on(pr: Pairing, p: usize) -> Color {
    if pr.white == p {
        Color::White
    } else {
        Color::Black
    }
}

/// The colour `p` had in a round, or none when `p` did not play.
pub open spec fn color_in(rd: Round, p: usize) -> Option<Color> {
    match pairing_of(rd.pairings@, p) {
        Some(pr) => Some(color_on(pr, p)),
        None => None,
    }
}

/// Half-points `p` earned in a round.
pub open spec fn round_points(rd: Round, p: usize) -> nat {
    if rd.bye == Some(p) {
        BYE_POINTS as nat
    } else {
        match pairing_of(rd.pairings@, p) {
            Some(pr) => result_points(pr.result, color_on(pr, p)),
            None => 0,
        }
    }
}

/// Cumulative score of `p`, in half-points.
pub open spec fn score(rs: Seq<Round>, p: usize) -> nat
    decreases rs.len(),
{
    if rs.len() == 0 {
        0
    } else {
        score(rs.drop_last(), p) + round_points(rs.last(), p)
    }
}

/// The colours `p` played, in order of the rounds.
pub open spec fn color_history(rs: Seq<Round>, p: usize) -> Seq<Color>
    decreases rs.len(),
{
    if rs.len() == 0 {
        Seq::empty()
    } else {
        let prev = color_history(rs.drop_last(), p);
        match color_in(rs.last(), p) {
            Some(c) => prev.push(c),
            None => prev,
        }
    }
}

/// The colour `p` must not get next: the one of the last two games when
/// both had it.
pub open spec fn forbidden_color(rs: Seq<Round>, p: usize) -> Option<Color> {
    let h = color_history(rs, p);
    if h.len() >= 2 && h[h.len() - 1] == h[h.len() - 2] {
        Some(h[h.len() - 1])
    } else {
        None
    }
}

pub open spec fn had_bye(rs: Seq<Round>, p: usize) -> bool {
    exists|i: int| 0 <= i < rs.len() && (#[trigger] rs[i]).bye == Some(p)
}

/// `a` and `b` sat on one board in some round.
pub open spec fn met(rs: Seq<Round>, a: usize, b: usize) -> bool {
    exists|i: int, k: int|
        0 <= i < rs.len() && 0 <= k < rs[i].pairings@.len() && (#[trigger] rs[i].pairings@[k]).has(a)
            && rs[i].pairings@[k].has(b)
}

/// The board found for `p` is one of `ps` and holds `p`.
pub proof fn lemma_pairing_of_in(ps: Seq<Pairing>, p: usize)
    ensures
        pairing_of(ps, p) matches Some(pr) ==> pr.has(p) && exists|k: int|
            0 <= k < ps.len() && #[trigger] ps[k] == pr,
    decreases ps.len(),
{
    if ps.len() > 0 {
        lemma_pairing_of_in(ps.drop_last(), p);
        if !ps.last().has(p) {
            if let Some(pr) = pairing_of(ps.drop_last(), p) {
                let k = choose|k: int| 0 <= k < ps.drop_last().len() && #[trigger] ps.drop_last()[k] == pr;
                assert(ps[k] == pr);
            }
        } else {
            assert(ps[ps.len() - 1] == ps.last());
        }
    }
}

pub fn find_pairing(ps: &Vec<Pairing>, p: usize) -> (r: Option<Pairing>)
    ensures
        r == pairing_of(ps@, p),
{
    let mut r: Option<Pairing> = None;
    let mut k: usize = 0;
    while k < ps.len()
        invariant
            k <= ps@.len(),
            r == pairing_of(ps@.subrange(0, k as int), p),
        decreases ps@.len() - k,
    {
        assert(ps@.subrange(0, k + 1).drop_last() =~= ps@.subrange(0, k as int));
        let pr = ps[k];
        if pr.white == p || pr.black == p {
            r = Some(pr);
        }
        k = k + 1;
    }
    assert(ps@.subrange(0, ps@.len() as int) =~= ps@);
    r
}

pub fn color_in_round(rd: &Round, p: usize) -> (r: Option<Color>)
    ensures
        r == color_in(*rd, p),
{
    match find_pairing(&rd.pairings, p) {
        Some(pr) => Some(if pr.white == p { Color::White } else { Color::Black }),
        None => None,
    }
}

pub fn points_in_round(rd: &Round, p: usize) -> (r: u64)
    ensures
        r == round_points(*rd, p),
        r <= 2,
{
    if rd.bye == Some(p) {
        BYE_POINTS
    } else {
        match find_pairing(&rd.pairings, p) {
            Some(pr) => points_for(pr.result, if pr.white == p { Color::White } else { Color::Black }),
            None => 0,
        }
    }
}

pub proof fn lemma_score_bound(rs: Seq<Round>, p: usize)
    ensures
        score(rs, p) <= 2 * rs.len(),
    decreases rs.len(),
{
    if rs.len() > 0 {
        lemma_score_bound(rs.drop_last(), p);
    }
}

pub proof fn lemma_color_history_len(rs: Seq<Round>, p: usize)
    ensures
        color_history(rs, p).len() <= rs.len(),
    decreases rs.len(),
{
    if rs.len() > 0 {
        lemma_color_history_len(rs.drop_last(), p);
    }
}

pub fn score_of(rounds: &Vec<Round>, p: usize) -> (s: u64)
    requires
        rounds@.len() <= u32::MAX,
    ensures
        s == score(rounds@, p),
{
    let mut s: u64 = 0;
    let mut i: usize = 0;
    while i < rounds.len()
        invariant
            i <= rounds@.len() <= u32::MAX,
            s == score(rounds@.subrange(0, i as int), p),
            s <= 2 * i,
        decreases rounds@.len() - i,
    {
        assert(rounds@.subrange(0, i + 1).drop_last() =~= rounds@.subrange(0, i as int));
        let pts = points_in_round(&rounds[i], p);
        s = s + pts;
        i = i + 1;
    }
    assert(rounds@.subrange(0, rounds@.len() as int) =~= rounds@);
    s
}

pub fn color_history_of(rounds: &Vec<Round>, p: usize) -> (h: Vec<Color>)
    ensures
        h@ == color_history(rounds@, p),
{
    let mut h: Vec<Color> = Vec::new();
    let mut i: usize = 0;
    while i < rounds.len()
        invariant
            i <= rounds@.len(),
            h@ == color_history(rounds@.subrange(0, i as int), p),
        decreases rounds@.len() - i,
    {
        assert(rounds@.subrange(0, i + 1).drop_last() =~= rounds@.subrange(0, i as int));
        match color_in_round(&rounds[i], p) {
            Some(c) => h.push(c),
            None => {},
        }
        i = i + 1;
    }
    assert(rounds@.subrange(0, rounds@.len() as int) =~= rounds@);
    h
}

pub fn forbidden_color_of(rounds: &Vec<Round>, p: usize) -> (r: Option<Color>)
    ensures
        r == forbidden_color(rounds@, p),
{
    let h = color_history_of(rounds, p);
    let n = h.len();
    if n >= 2 && h[n - 1] == h[n - 2] {
        Some(h[n - 1])
    } else {
        None
    }
}

pub fn had_bye_of(rounds: &Vec<Round>, p: usize) -> (r: bool)
    ensures
        r == had_bye(rounds@, p),
{
    let mut i: usize = 0;
    while i < rounds.len()
        invariant
            i <= rounds@.len(),
            forall|j: int| 0 <= j < i ==> (#[trigger] rounds@[j]).bye != Some(p),
        decreases rounds@.len() - i,
    {
        if rounds[i].bye == Some(p) {
            return true;
        }
        i = i + 1;
    }
    false
}

pub fn have_met(rounds: &Vec<Round>, a: usize, b: usize) -> (r: bool)
    ensures
        r == met(rounds@, a, b),
{
    let mut i: usize = 0;
    while i < rounds.len()
        invariant
            i <= rounds@.len(),
            forall|j: int, k: int|
                0 <= j < i && 0 <= k < rounds@[j].pairings@.len() ==> !((
                #[trigger] rounds@[j].pairings@[k]).has(a) && rounds@[j].pairings@[k].has(b)),
        decreases rounds@.len() - i,
    {
        let ps = &rounds[i].pairings;
        let mut k: usize = 0;
        while k < ps.len()
            invariant
                i < rounds@.len(),
                ps@ == rounds@[i as int].pairings@,
                k <= ps@.len(),
                forall|j: int, k: int|
                    0 <= j < i && 0 <= k < rounds@[j].pairings@.len() ==> !((
                    #[trigger] rounds@[j].pairings@[k]).has(a) && rounds@[j].pairings@[k].has(b)),
                forall|m: int| 0 <= m < k ==> !((#[trigger] ps@[m]).has(a) && ps@[m].has(b)),
            decreases ps@.len() - k,
        {
            let pr = ps[k];
            if (pr.white == a || pr.black == a) && (pr.white == b || pr.black == b) {
                return true;
            }
            k = k + 1;
        }
        i = i + 1;
    }
    false
}

} // verus!
