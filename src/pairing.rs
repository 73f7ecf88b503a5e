//! The pairing engine: computes the next round of a Swiss-system tournament.
//!
//! Players are seeded by score, then rating, then starting rank. Each score
//! group, together with the players floated down from above, is split in two
//! halves, and the i-th player of the upper half meets the first compatible
//! player of the lower half. Players left without an opponent float to the
//! next group; those left after the last group are matched greedily. Two
//! players are compatible when they have not met and colours can be given
//! without a third consecutive game with the same colour for either.
use vstd::prelude::*;
use crate::history::{
    color_history, color_history_of, forbidden_color, forbidden_color_of, had_bye, had_bye_of,
    have_met, lemma_color_history_len, met, score, score_of,
};
use crate::player::Color;
use crate::round::{GameResult, Pairing, Round};
use crate::tournament::{Tour, TournamentError};

verus! {

/// `a` is seeded above `b`: more points, or as many and a higher rating, or
/// both equal and a lower starting rank.
pub open spec fn ranks_before(t: &Tour, a: usize, b: usize) -> bool {
    let sa = score(t.rounds@, a);
    let sb = score(t.rounds@, b);
    let ra = t.players@[a as int].rating;
    let rb = t.players@[b as int].rating;
    sa > sb || (sa == sb && (ra > rb || (ra == rb && a < b)))
}

/// A board is legal when its players have not met before and neither gets
/// the colour of both of his last two games.
pub open spec fn legal_board(rs: Seq<Round>, pr: Pairing) -> bool {
    &&& !met(rs, pr.white, pr.black)
    &&& forbidden_color(rs, pr.white) != Some(Color::White)
    &&& forbidden_color(rs, pr.black) != Some(Color::Black)
}

/// The bye goes to the lowest seeded player without an earlier bye, or to
/// the lowest seeded player when all have had one.
pub open spec fn bye_choice_ok(t: &Tour, b: usize) -> bool {
    let n = t.players@.len();
    &&& b < n
    &&& if had_bye(t.rounds@, b) {
        forall|x: usize| x < n && x != b ==> had_bye(t.rounds@, x) && ranks_before(t, x, b)
    } else {
        forall|x: usize|
            x < n && x != b && !had_bye(t.rounds@, x) ==> #[trigger] ranks_before(t, x, b)
    }
}

/// A next round may be paired: all rounds so far have their results and
/// fewer than the configured number exist.
pub open spec fn ready_to_pair(t: &Tour) -> bool {
    t.rounds_complete() && t.rounds@.len() < t.total_rounds
}

/// Every player of `0..n` has the bye or sits on a board.
pub open spec fn covers(rd: &Round, n: nat) -> bool {
    forall|p: usize|
        p < n ==> rd.bye == Some(p) || exists|k: int|
            0 <= k < rd.pairings@.len() && #[trigger] rd.pairings@[k].has(p)
}

pub open spec fn count_true(s: Seq<bool>) -> nat
    decreases s.len(),
{
    if s.len() == 0 {
        0
    } else {
        count_true(s.drop_last()) + if s.last() {
            1nat
        } else {
            0nat
        }
    }
}

proof fn lemma_count_true_set(s: Seq<bool>, i: int)
    requires
        0 <= i < s.len(),
        !s[i],
    ensures
        count_true(s.update(i, true)) == count_true(s) + 1,
    decreases s.len(),
{
    if i == s.len() - 1 {
        assert(s.update(i, true).drop_last() =~= s.drop_last());
    } else {
        assert(s.update(i, true).drop_last() =~= s.drop_last().update(i, true));
        lemma_count_true_set(s.drop_last(), i);
    }
}

proof fn lemma_count_true_all(s: Seq<bool>)
    requires
        forall|i: int| 0 <= i < s.len() ==> s[i],
    ensures
        count_true(s) == s.len(),
    decreases s.len(),
{
    if s.len() > 0 {
        lemma_count_true_all(s.drop_last());
    }
}

/// What has been decided so far while a round is built: `flags` marks the
/// players that have a board or the bye, and every board is legal.
pub open spec fn progress_ok(
    rs: Seq<Round>,
    n: nat,
    flags: Seq<bool>,
    pairs: Seq<Pairing>,
    bye: Option<usize>,
) -> bool {
    &&& flags.len() == n
    &&& forall|k: int|
        0 <= k < pairs.len() ==> {
            &&& (#[trigger] pairs[k]).white < n
            &&& pairs[k].black < n
            &&& pairs[k].white != pairs[k].black
            &&& flags[pairs[k].white as int]
            &&& flags[pairs[k].black as int]
            &&& legal_board(rs, pairs[k])
            &&& pairs[k].result == GameResult::Unset
        }
    &&& forall|k1: int, k2: int, p: usize|
        0 <= k1 < pairs.len() && 0 <= k2 < pairs.len() && k1 != k2 && #[trigger] pairs[k1].has(p)
            ==> !(#[trigger] pairs[k2].has(p))
    &&& match bye {
        Some(b) => b < n && flags[b as int] && forall|k: int|
            0 <= k < pairs.len() ==> !(#[trigger] pairs[k].has(b)),
        None => true,
    }
    &&& forall|p: usize|
        p < n && #[trigger] flags[p as int] ==> bye == Some(p) || exists|k: int|
            0 <= k < pairs.len() && #[trigger] pairs[k].has(p)
    &&& count_true(flags) == 2 * pairs.len() + if bye.is_some() {
        1nat
    } else {
        0nat
    }
}

fn add_pair(
    Ghost(rs): Ghost<Seq<Round>>,
    Ghost(n): Ghost<nat>,
    flags: &mut Vec<bool>,
    pairs: &mut Vec<Pairing>,
    bye: Option<usize>,
    pr: Pairing,
)
    requires
        progress_ok(rs, n, old(flags)@, old(pairs)@, bye),
        pr.white < n,
        pr.black < n,
        pr.white != pr.black,
        !old(flags)@[pr.white as int],
        !old(flags)@[pr.black as int],
        legal_board(rs, pr),
        pr.result == GameResult::Unset,
    ensures
        progress_ok(rs, n, final(flags)@, final(pairs)@, bye),
        final(pairs)@ == old(pairs)@.push(pr),
        final(flags)@ == old(flags)@.update(pr.white as int, true).update(pr.black as int, true),
{
    let ghost f0 = flags@;
    let ghost p0 = pairs@;
    flags[pr.white] = true;
    flags[pr.black] = true;
    pairs.push(pr);
    proof {
        lemma_count_true_set(f0, pr.white as int);
        lemma_count_true_set(f0.update(pr.white as int, true), pr.black as int);
        let ps = pairs@;
        let last = p0.len() as int;
        assert(ps[last] == pr);
        assert forall|k: int| 0 <= k < p0.len() implies !(#[trigger] p0[k]).has(pr.white)
            && !p0[k].has(pr.black) by {
            assert(flags@[p0[k].white as int]);
        }
        assert forall|k1: int, k2: int, p: usize|
            0 <= k1 < ps.len() && 0 <= k2 < ps.len() && k1 != k2 && #[trigger] ps[k1].has(
                p,
            ) implies !(#[trigger] ps[k2].has(p)) by {
            if k1 == last {
                assert(ps[k2] == p0[k2]);
            } else if k2 == last {
                assert(ps[k1] == p0[k1]);
                assert(!p0[k1].has(pr.white) && !p0[k1].has(pr.black));
            } else {
                assert(ps[k1] == p0[k1] && ps[k2] == p0[k2]);
            }
        }
        assert forall|p: usize| p < n && #[trigger] flags@[p as int] implies bye == Some(p)
            || exists|k: int| 0 <= k < ps.len() && #[trigger] ps[k].has(p) by {
            if p == pr.white || p == pr.black {
                assert(ps[last].has(p));
            } else {
                assert(f0[p as int]);
                if bye != Some(p) {
                    let k = choose|k: int| 0 <= k < p0.len() && #[trigger] p0[k].has(p);
                    assert(ps[k].has(p));
                }
            }
        }
        assert forall|k: int| 0 <= k < ps.len() implies {
            &&& (#[trigger] ps[k]).white < n
            &&& ps[k].black < n
            &&& ps[k].white != ps[k].black
            &&& flags@[ps[k].white as int]
            &&& flags@[ps[k].black as int]
            &&& legal_board(rs, ps[k])
            &&& ps[k].result == GameResult::Unset
        } by {
            if k < last {
                assert(ps[k] == p0[k]);
            }
        }
        match bye {
            Some(b) => {
                assert(b != pr.white && b != pr.black);
                assert forall|k: int| 0 <= k < ps.len() implies !(#[trigger] ps[k].has(b)) by {
                    if k < last {
                        assert(ps[k] == p0[k]);
                    }
                }
            },
            None => {},
        }
    }
}


/// White games minus black games.
pub open spec fn color_balance(h: Seq<Color>) -> int
    decreases h.len(),
{
    if h.len() == 0 {
        0
    } else {
        color_balance(h.drop_last()) + if h.last() == Color::White {
            1int
        } else {
            -1int
        }
    }
}

/// The colour a player is due: the rarer one so far, else the other one
/// than in his last game; none before his first game.
pub open spec fn due_color(h: Seq<Color>) -> Option<Color> {
    let b = color_balance(h);
    if b > 0 {
        Some(Color::Black)
    } else if b < 0 {
        Some(Color::White)
    } else if h.len() > 0 {
        Some(h.last().opposite_spec())
    } else {
        None
    }
}

fn due_color_of(h: &Vec<Color>) -> (r: Option<Color>)
    requires
        h@.len() <= u32::MAX,
    ensures
        r == due_color(h@),
{
    let mut b: i64 = 0;
    let mut i: usize = 0;
    while i < h.len()
        invariant
            i <= h@.len(),
            b == color_balance(h@.subrange(0, i as int)),
            -(i as int) <= b <= i,
            h@.len() <= u32::MAX,
        decreases h@.len() - i,
    {
        assert(h@.subrange(0, i + 1).drop_last() =~= h@.subrange(0, i as int));
        if h[i] == Color::White {
            b = b + 1;
        } else {
            b = b - 1;
        }
        i = i + 1;
    }
    assert(h@.subrange(0, h@.len() as int) =~= h@);
    if b > 0 {
        Some(Color::Black)
    } else if b < 0 {
        Some(Color::White)
    } else if h.len() > 0 {
        Some(h[h.len() - 1].opposite())
    } else {
        None
    }
}

/// Whether the higher seeded player `u` gets white against `v`, given the
/// colour each must not get (`fu`, `fv`) and the colour each is due (`du`,
/// `dv`); none when both must avoid the same colour. When both are due the
/// same colour the higher seeded one gives way; when neither is due one,
/// `first_white` decides.
pub open spec fn colors_for(
    fu: Option<Color>,
    fv: Option<Color>,
    du: Option<Color>,
    dv: Option<Color>,
    first_white: bool,
) -> Option<bool> {
    if fu.is_some() && fu == fv {
        None
    } else if fu.is_some() {
        Some(fu.unwrap() == Color::Black)
    } else if fv.is_some() {
        Some(fv.unwrap() == Color::White)
    } else if du.is_some() && dv.is_some() && du == dv {
        Some(dv.unwrap() == Color::Black)
    } else if du.is_some() {
        Some(du.unwrap() == Color::White)
    } else if dv.is_some() {
        Some(dv.unwrap() == Color::Black)
    } else {
        Some(first_white)
    }
}

fn choose_colors(
    fu: Option<Color>,
    fv: Option<Color>,
    du: Option<Color>,
    dv: Option<Color>,
    first_white: bool,
) -> (r: Option<bool>)
    ensures
        r == colors_for(fu, fv, du, dv, first_white),
        r == Some(true) ==> fu != Some(Color::White) && fv != Some(Color::Black),
        r == Some(false) ==> fu != Some(Color::Black) && fv != Some(Color::White),
{
    match (fu, fv) {
        (Some(a), Some(b)) => {
            if a == b {
                None
            } else {
                Some(a == Color::Black)
            }
        },
        (Some(a), None) => Some(a == Color::Black),
        (None, Some(b)) => Some(b == Color::White),
        (None, None) => match (du, dv) {
            (Some(a), Some(b)) => {
                if a == b {
                    Some(b == Color::Black)
                } else {
                    Some(a == Color::White)
                }
            },
            (Some(a), None) => Some(a == Color::White),
            (None, Some(b)) => Some(b == Color::Black),
            (None, None) => Some(first_white),
        },
    }
}

/// What the pairing engine reads of each player, computed once.
pub struct Seeding {
    pub scores: Vec<u64>,
    pub forbidden: Vec<Option<Color>>,
    pub due: Vec<Option<Color>>,
    pub had_bye: Vec<bool>,
}

impl Seeding {
    pub open spec fn matches(&self, t: &Tour) -> bool {
        let n = t.players@.len();
        &&& self.scores@.len() == n
        &&& self.forbidden@.len() == n
        &&& self.due@.len() == n
        &&& self.had_bye@.len() == n
        &&& forall|p: int| 0 <= p < n ==> #[trigger] self.scores@[p] == score(t.rounds@, p as usize)
        &&& forall|p: int|
            0 <= p < n ==> #[trigger] self.forbidden@[p] == forbidden_color(t.rounds@, p as usize)
        &&& forall|p: int|
            0 <= p < n ==> #[trigger] self.due@[p] == due_color(color_history(t.rounds@, p as usize))
        &&& forall|p: int| 0 <= p < n ==> #[trigger] self.had_bye@[p] == had_bye(t.rounds@, p as usize)
    }

    pub fn new(t: &Tour) -> (r: Seeding)
        requires
            t.wf(),
        ensures
            r.matches(t),
    {
        let n = t.players.len();
        let mut r = Seeding {
            scores: Vec::new(),
            forbidden: Vec::new(),
            due: Vec::new(),
            had_bye: Vec::new(),
        };
        let mut p: usize = 0;
        while p < n
            invariant
                t.wf(),
                n == t.players@.len(),
                p <= n,
                r.scores@.len() == p,
                r.forbidden@.len() == p,
                r.due@.len() == p,
                r.had_bye@.len() == p,
                forall|q: int| 0 <= q < p ==> #[trigger] r.scores@[q] == score(t.rounds@, q as usize),
                forall|q: int|
                    0 <= q < p ==> #[trigger] r.forbidden@[q] == forbidden_color(t.rounds@, q as usize),
                forall|q: int|
                    0 <= q < p ==> #[trigger] r.due@[q] == due_color(
                        color_history(t.rounds@, q as usize),
                    ),
                forall|q: int| 0 <= q < p ==> #[trigger] r.had_bye@[q] == had_bye(t.rounds@, q as usize),
            decreases n - p,
        {
            r.scores.push(score_of(&t.rounds, p));
            r.forbidden.push(forbidden_color_of(&t.rounds, p));
            let h = color_history_of(&t.rounds, p);
            proof {
                lemma_color_history_len(t.rounds@, p);
            }
            r.due.push(due_color_of(&h));
            r.had_bye.push(had_bye_of(&t.rounds, p));
            p = p + 1;
        }
        r
    }

    /// Whether `a` is seeded above `b`.
    pub fn before(&self, t: &Tour, a: usize, b: usize) -> (r: bool)
        requires
            self.matches(t),
            a < t.players@.len(),
            b < t.players@.len(),
        ensures
            r == ranks_before(t, a, b),
    {
        let sa = self.scores[a];
        let sb = self.scores[b];
        let ra = t.players[a].rating;
        let rb = t.players[b].rating;
        sa > sb || (sa == sb && (ra > rb || (ra == rb && a < b)))
    }
}

/// A board for `u` (the higher seeded) and `v`, when they are compatible.
fn try_pair(t: &Tour, sd: &Seeding, u: usize, v: usize, first_white: bool) -> (r: Option<
    Pairing,
>)
    requires
        sd.matches(t),
        u < t.players@.len(),
        v < t.players@.len(),
        u != v,
    ensures
        t.rounds@.len() == 0 ==> r.is_some(),
        r matches Some(pr) ==> {
            &&& (pr.white == u && pr.black == v) || (pr.white == v && pr.black == u)
            &&& legal_board(t.rounds@, pr)
            &&& pr.result == GameResult::Unset
        },
{
    if have_met(&t.rounds, u, v) {
        return None;
    }
    proof {
        assert(met(t.rounds@, u, v) == met(t.rounds@, v, u));
        if t.rounds@.len() == 0 {
            assert(color_history(t.rounds@, u).len() == 0);
            assert(color_history(t.rounds@, v).len() == 0);
        }
    }
    match choose_colors(sd.forbidden[u], sd.forbidden[v], sd.due[u], sd.due[v], first_white) {
        Some(true) => Some(Pairing { white: u, black: v, result: GameResult::Unset }),
        Some(false) => Some(Pairing { white: v, black: u, result: GameResult::Unset }),
        None => None,
    }
}


/// Players of `list` that still lack a board are matched: each one before
/// position `upper_end` meets the first compatible free player at or after
/// position `lower_start`, or, when `lower_start` is none, after himself.
fn match_players(
    t: &Tour,
    sd: &Seeding,
    flags: &mut Vec<bool>,
    pairs: &mut Vec<Pairing>,
    bye: Option<usize>,
    list: &Vec<usize>,
    upper_end: usize,
    lower_start: Option<usize>,
)
    requires
        sd.matches(t),
        progress_ok(t.rounds@, t.players@.len() as nat, old(flags)@, old(pairs)@, bye),
        forall|i: int| 0 <= i < list@.len() ==> #[trigger] list@[i] < t.players@.len(),
        upper_end <= list@.len(),
        pairs@.len() < usize::MAX / 2,
    ensures
        progress_ok(t.rounds@, t.players@.len() as nat, final(flags)@, final(pairs)@, bye),
        final(pairs)@.len() <= old(pairs)@.len() + list@.len(),
        forall|p: int| 0 <= p < old(flags)@.len() && old(flags)@[p] ==> #[trigger] final(flags)@[p],
        halves_hyp(t, old(flags)@, list@, upper_end, lower_start) ==> forall|x: int|
            0 <= x < 2 * upper_end ==> #[trigger] final(flags)@[list@[x] as int],
{
    let ghost n = t.players@.len() as nat;
    let ghost start_len = pairs@.len();
    let ghost f0 = flags@;
    let ghost hyp = halves_hyp(t, f0, list@, upper_end, lower_start);
    let ghost h = upper_end as int;
    let mut i: usize = 0;
    while i < upper_end
        invariant
            sd.matches(t),
            n == t.players@.len(),
            progress_ok(t.rounds@, n, flags@, pairs@, bye),
            forall|i: int| 0 <= i < list@.len() ==> #[trigger] list@[i] < t.players@.len(),
            upper_end <= list@.len(),
            i <= upper_end,
            start_len < usize::MAX / 2,
            pairs@.len() <= start_len + i,
            f0.len() == n,
            hyp == halves_hyp(t, f0, list@, upper_end, lower_start),
            h == upper_end,
            forall|p: int| 0 <= p < f0.len() && f0[p] ==> #[trigger] flags@[p],
            hyp ==> forall|x: int|
                0 <= x < list@.len() ==> (#[trigger] flags@[list@[x] as int] <==> (x < i || (h
                    <= x < h + i))),
        decreases upper_end - i,
    {
        let u = list[i];
        let ghost fi = flags@;
        if !flags[u] {
            let mut j: usize = match lower_start {
                Some(l) => l,
                None => i + 1,
            };
            while j < list.len()
                invariant_except_break
                    !flags@[u as int],
                    pairs@.len() <= start_len + i,
                    hyp ==> h <= j <= h + i && flags@ == fi,
                invariant
                    sd.matches(t),
                    n == t.players@.len(),
                    progress_ok(t.rounds@, n, flags@, pairs@, bye),
                    forall|i: int| 0 <= i < list@.len() ==> #[trigger] list@[i] < t.players@.len(),
                    u < n,
                    u == list@[i as int],
                    i < upper_end <= list@.len(),
                    start_len < usize::MAX / 2,
                    f0.len() == n,
                    fi.len() == n,
                    forall|p: int| 0 <= p < f0.len() && f0[p] ==> #[trigger] flags@[p],
                    hyp == halves_hyp(t, f0, list@, upper_end, lower_start),
                    h == upper_end,
                    hyp ==> forall|x: int|
                        0 <= x < list@.len() ==> (#[trigger] fi[list@[x] as int] <==> (x < i || (h
                            <= x < h + i))),
                ensures
                    pairs@.len() <= start_len + i + 1,
                    hyp ==> forall|p: int|
                        0 <= p < n ==> #[trigger] flags@[p] == (fi[p] || p == u || p == list@[h
                            + i]),
                decreases list@.len() - j,
            {
                let v = list[j];
                proof {
                    if hyp {
                        assert(fi[list@[j as int] as int] <==> (j < h + i));
                        if j == h + i {
                            assert(list@[i as int] != list@[j as int]);
                        }
                    }
                }
                if v != u && !flags[v] {
                    let first_white = pairs.len() % 2 == 0;
                    match try_pair(t, sd, u, v, first_white) {
                        Some(pr) => {
                            let ghost fb = flags@;
                            add_pair(Ghost(t.rounds@), Ghost(n), flags, pairs, bye, pr);
                            assert forall|p: int| 0 <= p < f0.len() && f0[p] implies #[trigger] flags@[p] by {
                                assert(fb[p]);
                            }
                            break ;
                        },
                        None => {},
                    }
                }
                j = j + 1;
            }
        }
        proof {
            if hyp {
                assert forall|x: int|
                    0 <= x < list@.len() implies (#[trigger] flags@[list@[x] as int] <==> (x < i + 1
                        || (h <= x < h + i + 1))) by {
                    assert(fi[list@[x] as int] <==> (x < i || (h <= x < h + i)));
                    if x != i as int {
                        assert(list@[x] != list@[i as int]);
                    }
                    if x != h + i {
                        assert(list@[x] != list@[h + i]);
                    }
                }
            }
        }
        i = i + 1;
    }
}

/// The case in which splitting a list in halves pairs all of it: no rounds
/// played yet (so any two players are compatible), the lower half starting
/// where the upper one ends and at least as long, and the list made of
/// distinct players without a board.
pub open spec fn halves_hyp(
    t: &Tour,
    flags: Seq<bool>,
    list: Seq<usize>,
    upper_end: usize,
    lower_start: Option<usize>,
) -> bool {
    &&& t.rounds@.len() == 0
    &&& lower_start == Some(upper_end)
    &&& 2 * upper_end <= list.len()
    &&& forall|a: int, b: int| 0 <= a < list.len() && 0 <= b < list.len() && a != b ==> list[a] != list[b]
    &&& forall|x: int| 0 <= x < list.len() ==> !flags[#[trigger] list[x] as int]
}

/// `p` occurs in `s`.
pub open spec fn in_seq(s: Seq<usize>, p: usize) -> bool {
    exists|i: int| 0 <= i < s.len() && s[i] == p
}

/// At most one player lacks a board.
pub open spec fn at_most_one_free(flags: Seq<bool>) -> bool {
    forall|a: int, b: int| 0 <= a < flags.len() && 0 <= b < flags.len() && !flags[a] && !flags[b] ==> a == b
}

proof fn lemma_parity_all_flagged(flags: Seq<bool>, pairs_len: nat, b: nat)
    requires
        at_most_one_free(flags),
        count_true(flags) == 2 * pairs_len + b,
        b == flags.len() % 2,
    ensures
        forall|p: int| 0 <= p < flags.len() ==> #[trigger] flags[p],
{
    if exists|p: int| 0 <= p < flags.len() && !flags[p] {
        let x = choose|p: int| 0 <= p < flags.len() && !flags[p];
        let g = flags.update(x, true);
        assert forall|i: int| 0 <= i < g.len() implies g[i] by {
            if i != x {
                if !flags[i] {
                    assert(false);
                }
            }
        }
        lemma_count_true_all(g);
        lemma_count_true_set(flags, x);
        assert(false);
    }
}

/// The players' indices in seeding order.
pub fn seeding_order(t: &Tour, sd: &Seeding) -> (order: Vec<usize>)
    requires
        sd.matches(t),
    ensures
        order@.len() == t.players@.len(),
        forall|i: int| 0 <= i < order@.len() ==> #[trigger] order@[i] < t.players@.len(),
        forall|i: int, j: int|
            0 <= i < j < order@.len() ==> ranks_before(t, #[trigger] order@[i], #[trigger] order@[j]),
        forall|p: usize| p < t.players@.len() ==> #[trigger] in_seq(order@, p),
{
    let n = t.players.len();
    let mut order: Vec<usize> = Vec::new();
    let mut k: usize = 0;
    while k < n
        invariant
            sd.matches(t),
            n == t.players@.len(),
            k <= n,
            order@.len() == k,
            forall|i: int| 0 <= i < order@.len() ==> #[trigger] order@[i] < k,
            forall|i: int, j: int|
                0 <= i < j < order@.len() ==> ranks_before(t, #[trigger] order@[i], #[trigger] order@[j]),
            forall|p: usize| p < k ==> #[trigger] in_seq(order@, p),
        decreases n - k,
    {
        let mut pos: usize = 0;
        while pos < order.len() && sd.before(t, order[pos], k)
            invariant
                sd.matches(t),
                n == t.players@.len(),
                k < n,
                pos <= order@.len(),
                forall|i: int| 0 <= i < order@.len() ==> #[trigger] order@[i] < k,
                forall|i: int| 0 <= i < pos ==> ranks_before(t, #[trigger] order@[i], k),
            decreases order@.len() - pos,
        {
            pos = pos + 1;
        }
        let ghost o0 = order@;
        order.insert(pos, k);
        assert forall|i: int, j: int|
            0 <= i < j < order@.len() implies ranks_before(t, #[trigger] order@[i], #[trigger] order@[j]) by {
            if j < pos {
                assert(order@[i] == o0[i] && order@[j] == o0[j]);
            } else if j == pos {
                assert(order@[i] == o0[i]);
            } else if i == pos {
                assert(order@[j] == o0[j - 1]);
                assert(ranks_before(t, k, o0[pos as int]));
                if j - 1 > pos {
                    assert(ranks_before(t, o0[pos as int], o0[j - 1]));
                }
            } else if i < pos {
                assert(order@[i] == o0[i] && order@[j] == o0[j - 1]);
            } else {
                assert(order@[i] == o0[i - 1] && order@[j] == o0[j - 1]);
            }
        }
        assert forall|p: usize| p < k + 1 implies #[trigger] in_seq(order@, p) by {
            if p == k {
                assert(order@[pos as int] == k);
            } else {
                assert(in_seq(o0, p));
                let i0 = choose|i: int| 0 <= i < o0.len() && o0[i] == p;
                if i0 < pos {
                    assert(order@[i0] == p);
                } else {
                    assert(order@[i0 + 1] == p);
                }
            }
        }
        k = k + 1;
    }
    order
}

pub proof fn lemma_ranks_before_trans(t: &Tour, a: usize, b: usize, c: usize)
    requires
        ranks_before(t, a, b),
        ranks_before(t, b, c),
    ensures
        ranks_before(t, a, c),
{
}

pub proof fn lemma_ranks_before_total(t: &Tour, a: usize, b: usize)
    requires
        a != b,
    ensures
        ranks_before(t, a, b) || ranks_before(t, b, a),
        !(ranks_before(t, a, b) && ranks_before(t, b, a)),
{
}

/// The player who gets the bye when the number of players is odd.
pub fn choose_bye(t: &Tour, sd: &Seeding) -> (b: usize)
    requires
        sd.matches(t),
        t.players@.len() > 0,
    ensures
        bye_choice_ok(t, b),
{
    let n = t.players.len();
    let mut worst: usize = 0;
    let mut best: Option<usize> = if sd.had_bye[0] {
        None
    } else {
        Some(0)
    };
    let mut i: usize = 1;
    while i < n
        invariant
            sd.matches(t),
            n == t.players@.len(),
            1 <= i <= n,
            worst < i,
            forall|x: usize| x < i && x != worst ==> #[trigger] ranks_before(t, x, worst),
            match best {
                Some(b) => b < i && !had_bye(t.rounds@, b) && forall|x: usize|
                    x < i && x != b && !had_bye(t.rounds@, x) ==> #[trigger] ranks_before(t, x, b),
                None => forall|x: usize| x < i ==> #[trigger] had_bye(t.rounds@, x),
            },
        decreases n - i,
    {
        let ghost w0 = worst;
        let ghost b0 = best;
        if sd.before(t, worst, i) {
            worst = i;
        }
        proof {
            assert forall|x: usize| x < i + 1 && x != worst implies #[trigger] ranks_before(
                t,
                x,
                worst,
            ) by {
                if worst == i && x != w0 {
                    lemma_ranks_before_trans(t, x, w0, i);
                } else if worst == w0 && x == i {
                    lemma_ranks_before_total(t, i, w0);
                }
            }
        }
        if !sd.had_bye[i] {
            match best {
                Some(b) => {
                    if sd.before(t, b, i) {
                        best = Some(i);
                    }
                },
                None => {
                    best = Some(i);
                },
            }
        }
        proof {
            match best {
                Some(b) => {
                    assert forall|x: usize|
                        x < i + 1 && x != b && !had_bye(t.rounds@, x) implies #[trigger] ranks_before(
                        t,
                        x,
                        b,
                    ) by {
                        match b0 {
                            Some(b1) => {
                                if b == i && x != b1 {
                                    lemma_ranks_before_trans(t, x, b1, i);
                                } else if b == b1 && x == i {
                                    lemma_ranks_before_total(t, i, b1);
                                }
                            },
                            None => {},
                        }
                    }
                },
                None => {},
            }
        }
        i = i + 1;
    }
    match best {
        Some(b) => b,
        None => worst,
    }
}


proof fn lemma_count_true_bound(s: Seq<bool>)
    ensures
        count_true(s) <= s.len(),
    decreases s.len(),
{
    if s.len() > 0 {
        lemma_count_true_bound(s.drop_last());
    }
}

/// A round that may follow the tournament's rounds: every player has the
/// bye or exactly one board, every board is legal and unplayed, there is a
/// bye exactly when the number of players is odd, and it goes to the player
/// it is owed to.
pub open spec fn next_round_ok(t: &Tour, rd: &Round) -> bool {
    let n = t.players@.len();
    let ps = rd.pairings@;
    &&& rd.wf(n)
    &&& covers(rd, n)
    &&& forall|k: int| 0 <= k < ps.len() ==> legal_board(t.rounds@, #[trigger] ps[k])
    &&& forall|k: int| 0 <= k < ps.len() ==> (#[trigger] ps[k]).result == GameResult::Unset
    &&& rd.bye.is_some() <==> n % 2 == 1
    &&& rd.bye matches Some(b) ==> bye_choice_ok(t, b)
    &&& 2 * ps.len() + (if rd.bye.is_some() {
        1int
    } else {
        0int
    }) == n
}

/// Pairs the next round. Refused with `InvalidState` unless every round so
/// far has its results and another round is due; fails with
/// `PairingInfeasible` when the search finds no legal round.
pub fn compute_pairing(t: &Tour) -> (r: Result<Round, TournamentError>)
    requires
        t.wf(),
    ensures
        (r == Err::<Round, TournamentError>(TournamentError::InvalidState)) <==> !ready_to_pair(t),
        r.is_err() ==> r == Err::<Round, TournamentError>(TournamentError::InvalidState) || r
            == Err::<Round, TournamentError>(TournamentError::PairingInfeasible),
        r matches Ok(rd) ==> next_round_ok(t, &rd),
        t.rounds@.len() == 0 && t.total_rounds > 0 ==> r.is_ok(),
{
    if t.rounds.len() as u64 >= t.total_rounds as u64 {
        return Err(TournamentError::InvalidState);
    }
    if !t.rounds_are_complete() {
        return Err(TournamentError::InvalidState);
    }
    let n = t.players.len();
    let ghost rs = t.rounds@;
    let ghost fresh = rs.len() == 0;
    let sd = Seeding::new(t);
    let mut flags: Vec<bool> = Vec::new();
    let mut p: usize = 0;
    while p < n
        invariant
            p <= n,
            flags@.len() == p,
            count_true(flags@) == 0,
            forall|q: int| 0 <= q < p ==> !#[trigger] flags@[q],
        decreases n - p,
    {
        assert(flags@.push(false).drop_last() =~= flags@);
        flags.push(false);
        p = p + 1;
    }
    let mut pairs: Vec<Pairing> = Vec::new();
    let bye = if n % 2 == 1 {
        let b = choose_bye(t, &sd);
        proof {
            lemma_count_true_set(flags@, b as int);
        }
        flags[b] = true;
        Some(b)
    } else {
        None
    };
    assert(progress_ok(rs, n as nat, flags@, pairs@, bye));
    assert(forall|q: int| 0 <= q < n ==> (#[trigger] flags@[q] <==> bye == Some(q as usize)));
    let order = seeding_order(t, &sd);
    let mut carry: Vec<usize> = Vec::new();
    let mut s: usize = 0;
    while s < n
        invariant
            t.wf(),
            ready_to_pair(t),
            sd.matches(t),
            n == t.players@.len(),
            rs == t.rounds@,
            fresh == (rs.len() == 0),
            s <= n,
            order@.len() == n,
            forall|i: int| 0 <= i < order@.len() ==> #[trigger] order@[i] < n,
            forall|i: int, j: int|
                0 <= i < j < order@.len() ==> ranks_before(t, #[trigger] order@[i], #[trigger] order@[j]),
            forall|p: usize| p < n ==> #[trigger] in_seq(order@, p),
            forall|i: int| 0 <= i < carry@.len() ==> #[trigger] carry@[i] < n,
            progress_ok(rs, n as nat, flags@, pairs@, bye),
            bye.is_some() <==> n % 2 == 1,
            fresh ==> (s == 0 && carry@.len() == 0 && forall|q: int|
                0 <= q < n ==> (#[trigger] flags@[q] <==> bye == Some(q as usize))) || (s == n
                && at_most_one_free(flags@)),
        decreases n - s,
    {
        let mut e: usize = s + 1;
        while e < n && sd.scores[order[e]] == sd.scores[order[s]]
            invariant
                s < e <= n,
                order@.len() == n,
                forall|i: int| 0 <= i < order@.len() ==> #[trigger] order@[i] < n,
                sd.matches(t),
                n == t.players@.len(),
            decreases n - e,
        {
            e = e + 1;
        }
        proof {
            if fresh && e < n {
                assert(sd.scores@[order@[e as int] as int] == 0);
                assert(sd.scores@[order@[s as int] as int] == 0);
            }
        }
        let mut bracket: Vec<usize> = Vec::new();
        let mut i: usize = 0;
        while i < carry.len()
            invariant
                i <= carry@.len(),
                forall|i: int| 0 <= i < carry@.len() ==> #[trigger] carry@[i] < n,
                forall|i: int| 0 <= i < bracket@.len() ==> #[trigger] bracket@[i] < n,
                bracket@.len() <= i,
            decreases carry@.len() - i,
        {
            bracket.push(carry[i]);
            i = i + 1;
        }
        let ghost hyp0 = fresh && s == 0 && carry@.len() == 0;
        let mut i: usize = s;
        while i < e
            invariant
                s <= i <= e <= n,
                order@.len() == n,
                flags@.len() == n,
                forall|i: int| 0 <= i < order@.len() ==> #[trigger] order@[i] < n,
                forall|i: int| 0 <= i < bracket@.len() ==> #[trigger] bracket@[i] < n,
                bracket@.len() <= carry@.len() + (i - s),
                hyp0 ==> carry@.len() == 0,
                forall|i: int, j: int|
                    0 <= i < j < order@.len() ==> ranks_before(t, #[trigger] order@[i], #[trigger] order@[j]),
                hyp0 ==> forall|b: int|
                    0 <= b < bracket@.len() ==> exists|q: int|
                        s <= q < i && order@[q] == #[trigger] bracket@[b],
                hyp0 ==> forall|b: int| 0 <= b < bracket@.len() ==> !flags@[#[trigger] bracket@[b] as int],
                hyp0 ==> forall|a: int, b: int|
                    0 <= a < bracket@.len() && 0 <= b < bracket@.len() && a != b ==> bracket@[a]
                        != bracket@[b],
                hyp0 ==> forall|q: int|
                    s <= q < i && !flags@[order@[q] as int] ==> #[trigger] in_seq(bracket@, order@[q]),
            decreases e - i,
        {
            let ghost b0 = bracket@;
            if !flags[order[i]] {
                bracket.push(order[i]);
                proof {
                    if hyp0 {
                        assert forall|b: int| 0 <= b < bracket@.len() implies exists|q: int|
                            s <= q < i + 1 && order@[q] == #[trigger] bracket@[b] by {
                            if b < b0.len() {
                                assert(bracket@[b] == b0[b]);
                                let q = choose|q: int| s <= q < i && order@[q] == #[trigger] b0[b];
                            } else {
                                assert(order@[i as int] == bracket@[b]);
                            }
                        }
                        assert forall|a: int, b: int|
                            0 <= a < bracket@.len() && 0 <= b < bracket@.len() && a != b implies bracket@[a]
                                != bracket@[b] by {
                            if a == b0.len() || b == b0.len() {
                                let o = if a == b0.len() { b } else { a };
                                assert(bracket@[o] == b0[o]);
                                let q = choose|q: int| s <= q < i && order@[q] == #[trigger] b0[o];
                                assert(ranks_before(t, order@[q], order@[i as int]));
                            } else {
                                assert(bracket@[a] == b0[a] && bracket@[b] == b0[b]);
                            }
                        }
                        assert forall|q: int|
                            s <= q < i + 1 && !flags@[order@[q] as int] implies #[trigger] in_seq(bracket@, order@[q]) by {
                            if q < i {
                                assert(in_seq(b0, order@[q]));
                                let x = choose|x: int| 0 <= x < b0.len() && b0[x] == order@[q];
                                assert(bracket@[x] == b0[x]);
                            } else {
                                assert(bracket@[b0.len() as int] == order@[q]);
                            }
                        }
                    }
                }
            }
            i = i + 1;
        }
        proof {
            lemma_count_true_bound(flags@);
        }
        let h = bracket.len() / 2;
        let ghost fb = flags@;
        proof {
            if hyp0 {
                assert(e == n);
                assert(halves_hyp(t, flags@, bracket@, h, Some(h)));
            }
        }
        match_players(t, &sd, &mut flags, &mut pairs, bye, &bracket, h, Some(h));
        proof {
            if hyp0 {
                assert forall|a: int, b: int|
                    0 <= a < flags@.len() && 0 <= b < flags@.len() && !flags@[a] && !flags@[b] implies a == b by {
                    assert(!fb[a] && !fb[b]);
                    assert(bye != Some(a as usize) && bye != Some(b as usize));
                    assert(in_seq(order@, a as usize));
                    let qa = choose|q: int| 0 <= q < order@.len() && order@[q] == a as usize;
                    assert(in_seq(order@, b as usize));
                    let qb = choose|q: int| 0 <= q < order@.len() && order@[q] == b as usize;
                    assert(in_seq(bracket@, order@[qa]));
                    assert(in_seq(bracket@, order@[qb]));
                    let xa = choose|x: int| 0 <= x < bracket@.len() && bracket@[x] == a as usize;
                    let xb = choose|x: int| 0 <= x < bracket@.len() && bracket@[x] == b as usize;
                    if xa < 2 * h {
                        assert(flags@[bracket@[xa] as int]);
                    }
                    if xb < 2 * h {
                        assert(flags@[bracket@[xb] as int]);
                    }
                }
            }
        }
        carry = Vec::new();
        let mut i: usize = 0;
        while i < bracket.len()
            invariant
                i <= bracket@.len(),
                flags@.len() == n,
                forall|i: int| 0 <= i < bracket@.len() ==> #[trigger] bracket@[i] < n,
                forall|i: int| 0 <= i < carry@.len() ==> #[trigger] carry@[i] < n,
            decreases bracket@.len() - i,
        {
            if !flags[bracket[i]] {
                carry.push(bracket[i]);
            }
            i = i + 1;
        }
        s = e;
    }
    proof {
        lemma_count_true_bound(flags@);
    }
    let ghost fg = flags@;
    match_players(t, &sd, &mut flags, &mut pairs, bye, &carry, carry.len(), None);
    proof {
        if fresh {
            assert forall|a: int, b: int|
                0 <= a < flags@.len() && 0 <= b < flags@.len() && !flags@[a] && !flags@[b] implies a == b by {
                assert(!fg[a] && !fg[b]);
            }
            lemma_parity_all_flagged(flags@, pairs@.len(), if bye.is_some() { 1nat } else { 0nat });
        }
    }
    let mut p: usize = 0;
    while p < n
        invariant
            ready_to_pair(t),
            progress_ok(rs, n as nat, flags@, pairs@, bye),
            p <= n,
            flags@.len() == n,
            forall|q: int| 0 <= q < p ==> #[trigger] flags@[q],
            fresh == (t.rounds@.len() == 0),
            fresh ==> forall|q: int| 0 <= q < n ==> #[trigger] flags@[q],
        decreases n - p,
    {
        if !flags[p] {
            return Err(TournamentError::PairingInfeasible);
        }
        p = p + 1;
    }
    proof {
        lemma_count_true_all(flags@);
    }
    let rd = Round { pairings: pairs, bye };
    assert(covers(&rd, n as nat)) by {
        assert forall|p: usize| p < n implies rd.bye == Some(p) || exists|k: int|
            0 <= k < rd.pairings@.len() && #[trigger] rd.pairings@[k].has(p) by {
            assert(flags@[p as int]);
            if rd.bye != Some(p) {
                let k = choose|k: int| 0 <= k < pairs@.len() && #[trigger] pairs@[k].has(p);
                assert(rd.pairings@[k].has(p));
            }
        }
    }
    Ok(rd)
}

impl Tour {
    /// Pairs the next round and appends it to the tournament.
    pub fn pair_next_round(&mut self) -> (r: Result<(), TournamentError>)
        requires
            old(self).wf(),
        ensures
            final(self).wf(),
            (r == Err::<(), TournamentError>(TournamentError::InvalidState)) <==> !ready_to_pair(
                old(self),
            ),
            r.is_err() ==> *final(self) == *old(self) && (r == Err::<(), TournamentError>(
                TournamentError::InvalidState,
            ) || r == Err::<(), TournamentError>(TournamentError::PairingInfeasible)),
            r.is_ok() ==> {
                &&& final(self).players == old(self).players
                &&& final(self).total_rounds == old(self).total_rounds
                &&& final(self).rounds@.len() == old(self).rounds@.len() + 1
                &&& final(self).rounds@.drop_last() == old(self).rounds@
                &&& next_round_ok(old(self), &final(self).rounds@.last())
            },
    {
        match compute_pairing(self) {
            Ok(rd) => {
                let ghost r0 = self.rounds@;
                self.rounds.push(rd);
                assert(self.rounds@.drop_last() =~= r0);
                assert forall|i: int| 0 <= i < self.rounds@.len() implies (
                #[trigger] self.rounds@[i]).wf(self.players@.len()) by {
                    if i < r0.len() {
                        assert(r0[i].wf(self.players@.len()));
                    }
                }
                assert forall|i: int| 0 <= i < self.rounds@.len() - 1 implies (
                #[trigger] self.rounds@[i]).is_complete_spec() by {
                    assert(r0[i].is_complete_spec());
                }
                Ok(())
            },
            Err(e) => Err(e),
        }
    }
}

} // verus!
