//! Building a tournament from the player records of a report.
//!
//! Record `k` must carry starting rank `k + 1`. In each round block the line
//! of the player with white defines the board; a block without opponent whose
//! result is `+`, `F` or `U` is the bye.
use vstd::prelude::*;
use crate::codec::{Field, FieldView};
use crate::player::{Player, Title};
use crate::report::Report;
use crate::round::{GameResult, Pairing, Round};
use crate::history::{have_met, met};
use crate::tournament::Tour;

verus! {

/// What `String::from_utf8_lossy` makes of a byte sequence.
pub uninterp spec fn utf8_text(b: Seq<u8>) -> Seq<char>;

/// Relies on `String::from_utf8_lossy`: the text of the bytes, with each
/// invalid sequence replaced; the result depends on the bytes alone.
#[verifier::external_body]
pub(crate) fn text_of_bytes(b: &Vec<u8>) -> (r: String)
    ensures
        r@ == utf8_text(b@),
{
    String::from_utf8_lossy(b.as_slice()).into_owned()
}

/// Why a report could not become a tournament.
#[derive(Clone, Copy, Debug, PartialEq, Eq, Structural)]
pub enum ImportError {
    /// Record `k` does not carry starting rank `k + 1`, or has a field of the
    /// wrong kind or out of range.
    BadRecord(usize),
    /// A round block of record `k` is malformed, or names an opponent that
    /// does not exist, the player himself, or a player already on a board of
    /// that round.
    BadBoard(usize),
    /// Two byes in one round.
    TwoByes(usize),
    /// The player with this index has neither a board nor the bye in a round.
    MissingPlayer(usize),
    /// Round `j` (counted from 0) pairs two players who met before.
    Rematch(usize),
    /// A round other than the last lacks a result.
    IncompleteRound(usize),
    /// More players or rounds than the model holds.
    TooLarge,
}

pub open spec fn title_of(b: Seq<u8>) -> Option<Title> {
    if b =~= seq![71u8, 77u8] {
        Some(Title::GM)
    } else if b =~= seq![73u8, 77u8] {
        Some(Title::IM)
    } else if b =~= seq![70u8, 77u8] {
        Some(Title::FM)
    } else if b =~= seq![67u8, 77u8] {
        Some(Title::CM)
    } else if b =~= seq![87u8, 71u8, 77u8] {
        Some(Title::WGM)
    } else if b =~= seq![87u8, 73u8, 77u8] {
        Some(Title::WIM)
    } else if b =~= seq![87u8, 70u8, 77u8] {
        Some(Title::WFM)
    } else if b =~= seq![87u8, 67u8, 77u8] {
        Some(Title::WCM)
    } else {
        None
    }
}

pub(crate) fn title_exec(b: &Vec<u8>) -> (r: Option<Title>)
    ensures
        r == title_of(b@),
{
    let n = b.len();
    if n == 2 && b[0] == 71 && b[1] == 77 {
        assert(b@ =~= seq![71u8, 77u8]);
        Some(Title::GM)
    } else if n == 2 && b[0] == 73 && b[1] == 77 {
        assert(b@ =~= seq![73u8, 77u8]);
        Some(Title::IM)
    } else if n == 2 && b[0] == 70 && b[1] == 77 {
        assert(b@ =~= seq![70u8, 77u8]);
        Some(Title::FM)
    } else if n == 2 && b[0] == 67 && b[1] == 77 {
        assert(b@ =~= seq![67u8, 77u8]);
        Some(Title::CM)
    } else if n == 3 && b[0] == 87 && b[1] == 71 && b[2] == 77 {
        assert(b@ =~= seq![87u8, 71u8, 77u8]);
        Some(Title::WGM)
    } else if n == 3 && b[0] == 87 && b[1] == 73 && b[2] == 77 {
        assert(b@ =~= seq![87u8, 73u8, 77u8]);
        Some(Title::WIM)
    } else if n == 3 && b[0] == 87 && b[1] == 70 && b[2] == 77 {
        assert(b@ =~= seq![87u8, 70u8, 77u8]);
        Some(Title::WFM)
    } else if n == 3 && b[0] == 87 && b[1] == 67 && b[2] == 77 {
        assert(b@ =~= seq![87u8, 67u8, 77u8]);
        Some(Title::WCM)
    } else {
        None
    }
}

/// The result of a board, read from the white player's result code.
pub open spec fn result_of(c: u8) -> GameResult {
    if c == 49 || c == 87 {
        GameResult::WhiteWins
    } else if c == 48 || c == 76 {
        GameResult::BlackWins
    } else if c == 61 || c == 68 {
        GameResult::Draw
    } else if c == 43 {
        GameResult::WhiteWinsByForfeit
    } else if c == 45 {
        GameResult::BlackWinsByForfeit
    } else {
        GameResult::Unset
    }
}

fn result_exec(c: u8) -> (r: GameResult)
    ensures
        r == result_of(c),
{
    if c == 49 || c == 87 {
        GameResult::WhiteWins
    } else if c == 48 || c == 76 {
        GameResult::BlackWins
    } else if c == 61 || c == 68 {
        GameResult::Draw
    } else if c == 43 {
        GameResult::WhiteWinsByForfeit
    } else if c == 45 {
        GameResult::BlackWinsByForfeit
    } else {
        GameResult::Unset
    }
}

fn num_at(rec: &Vec<Field>, i: usize) -> (r: Option<u64>)
    ensures
        r.is_some() <==> i < rec@.len() && rec@[i as int]@ is Num,
        r matches Some(n) ==> i < rec@.len() && rec@[i as int]@ == FieldView::Num(n as nat),
{
    if i < rec.len() {
        match &rec[i] {
            Field::Num(n) => Some(*n),
            Field::Text(_) => None,
        }
    } else {
        None
    }
}

fn text_at(rec: &Vec<Field>, i: usize) -> (r: Option<&Vec<u8>>)
    ensures
        r.is_some() <==> i < rec@.len() && rec@[i as int]@ is Text,
        r matches Some(t) ==> i < rec@.len() && rec@[i as int]@ == FieldView::Text(t@),
{
    if i < rec.len() {
        match &rec[i] {
            Field::Text(t) => Some(t),
            Field::Num(_) => None,
        }
    } else {
        None
    }
}

/// The bytes of `t` from `start` on.
fn tail_of(t: &Vec<u8>, start: usize) -> (r: Vec<u8>)
    ensures
        r@ == (if start <= t@.len() {
            t@.subrange(start as int, t@.len() as int)
        } else {
            Seq::empty()
        }),
{
    let mut r: Vec<u8> = Vec::new();
    if start > t.len() {
        return r;
    }
    let mut i: usize = start;
    while i < t.len()
        invariant
            start <= i <= t@.len(),
            r@ == t@.subrange(start as int, i as int),
        decreases t@.len() - i,
    {
        assert(r@.push(t@[i as int]) =~= t@.subrange(start as int, i + 1));
        r.push(t[i]);
        i = i + 1;
    }
    r
}

/// Record `rec` can be the player with starting rank `k + 1`: it carries
/// that rank, text where text belongs, and a rating that fits `u32`.
pub open spec fn record_wf(rec: Seq<FieldView>, k: int) -> bool {
    &&& rec.len() >= 8
    &&& rec[1] == FieldView::Num((k + 1) as nat)
    &&& rec[2] is Text
    &&& rec[3] is Text
    &&& rec[4] matches FieldView::Num(r) && r <= u32::MAX
    &&& rec[5] is Text
    &&& rec[6] is Num
    &&& rec[7] is Text
}

/// The player of record `k`, or none when the record is malformed.
fn player_of(rec: &Vec<Field>, k: usize) -> (r: Option<Player>)
    requires
        k < u32::MAX,
    ensures
        r.is_some() <==> record_wf(crate::codec::fields_view(rec@), k as int),
        r matches Some(p) ==> {
            &&& p.starting_rank == k + 1
            &&& rec@[1]@ == FieldView::Num((k + 1) as nat)
            &&& rec@[4]@ == FieldView::Num(p.rating as nat)
            &&& rec@[6]@ == FieldView::Num(p.player_id as nat)
            &&& rec@[3]@ matches FieldView::Text(name) && p.name@ == utf8_text(name)
        },
{
    let ghost fv = crate::codec::fields_view(rec@);
    assert(forall|i: int| 0 <= i < rec@.len() ==> #[trigger] fv[i] == rec@[i]@);
    let rank = num_at(rec, 1)?;
    if rank != (k + 1) as u64 {
        return None;
    }
    let sex_title = text_at(rec, 2)?;
    let name = text_at(rec, 3)?;
    let rating = num_at(rec, 4)?;
    if rating > u32::MAX as u64 {
        return None;
    }
    let fed = text_at(rec, 5)?;
    let id = num_at(rec, 6)?;
    let birth = text_at(rec, 7)?;
    let sex: Vec<u8> = if sex_title.len() > 0 {
        vec![sex_title[0]]
    } else {
        Vec::new()
    };
    let title = title_exec(&tail_of(sex_title, 2));
    Some(Player {
        starting_rank: (k + 1) as u32,
        title,
        name: text_of_bytes(name),
        rating: rating as u32,
        national_rating: 0,
        player_id: id,
        birth_date: text_of_bytes(birth),
        federation: text_of_bytes(fed),
        origin: String::new(),
        sex: text_of_bytes(&sex),
    })
}


/// The boards of a round under construction: players below `n`, marked in
/// `flags`, none on two boards, the bye holder on none.
pub open spec fn boards_ok(n: nat, flags: Seq<bool>, pairs: Seq<Pairing>, bye: Option<usize>) -> bool {
    &&& flags.len() == n
    &&& forall|k: int|
        0 <= k < pairs.len() ==> {
            &&& (#[trigger] pairs[k]).white < n
            &&& pairs[k].black < n
            &&& pairs[k].white != pairs[k].black
            &&& flags[pairs[k].white as int]
            &&& flags[pairs[k].black as int]
        }
    &&& forall|k1: int, k2: int, p: usize|
        0 <= k1 < pairs.len() && 0 <= k2 < pairs.len() && k1 != k2 && #[trigger] pairs[k1].has(p)
            ==> !(#[trigger] pairs[k2].has(p))
    &&& match bye {
        Some(b) => b < n && flags[b as int] && forall|k: int|
            0 <= k < pairs.len() ==> !(#[trigger] pairs[k].has(b)),
        None => true,
    }
    &&& forall|p: usize|
        p < n && #[trigger] flags[p as int] ==> bye == Some(p) || exists|k: int|
            0 <= k < pairs.len() && #[trigger] pairs[k].has(p)
}

fn add_board(
    Ghost(n): Ghost<nat>,
    flags: &mut Vec<bool>,
    pairs: &mut Vec<Pairing>,
    bye: Option<usize>,
    pr: Pairing,
)
    requires
        boards_ok(n, old(flags)@, old(pairs)@, bye),
        pr.white < n,
        pr.black < n,
        pr.white != pr.black,
        !old(flags)@[pr.white as int],
        !old(flags)@[pr.black as int],
    ensures
        boards_ok(n, final(flags)@, final(pairs)@, bye),
        final(pairs)@ == old(pairs)@.push(pr),
{
    let ghost p0 = pairs@;
    let ghost f0 = flags@;
    flags[pr.white] = true;
    flags[pr.black] = true;
    pairs.push(pr);
    proof {
        let ps = pairs@;
        let last = p0.len() as int;
        assert(ps[last] == pr);
        assert forall|k: int| 0 <= k < p0.len() implies !(#[trigger] p0[k]).has(pr.white)
            && !p0[k].has(pr.black) by {}
        assert forall|k1: int, k2: int, p: usize|
            0 <= k1 < ps.len() && 0 <= k2 < ps.len() && k1 != k2 && #[trigger] ps[k1].has(
                p,
            ) implies !(#[trigger] ps[k2].has(p)) by {
            if k1 == last {
                assert(ps[k2] == p0[k2]);
            } else if k2 == last {
                assert(ps[k1] == p0[k1]);
            } else {
                assert(ps[k1] == p0[k1] && ps[k2] == p0[k2]);
            }
        }
        assert forall|k: int| 0 <= k < ps.len() implies {
            &&& (#[trigger] ps[k]).white < n
            &&& ps[k].black < n
            &&& ps[k].white != ps[k].black
            &&& flags@[ps[k].white as int]
            &&& flags@[ps[k].black as int]
        } by {
            if k < last {
                assert(ps[k] == p0[k]);
            }
        }
        match bye {
            Some(b) => {
                assert forall|k: int| 0 <= k < ps.len() implies !(#[trigger] ps[k].has(b)) by {
                    if k < last {
                        assert(ps[k] == p0[k]);
                    }
                }
            },
            None => {},
        }
        assert forall|p: usize| p < n && #[trigger] flags@[p as int] implies bye == Some(p)
            || exists|k: int| 0 <= k < ps.len() && #[trigger] ps[k].has(p) by {
            if p == pr.white || p == pr.black {
                assert(ps[last].has(p));
            } else if bye != Some(p) {
                assert(f0[p as int]);
                let k = choose|k: int| 0 <= k < p0.len() && #[trigger] p0[k].has(p);
                assert(ps[k].has(p));
            }
        }
    }
}

/// Round `j` (counted from 0) as the records give it.
fn round_of(recs: &Vec<Vec<Field>>, j: usize) -> (r: Result<Round, ImportError>)
    requires
        j < 0x1000_0000,
    ensures
        r matches Ok(rd) ==> rd.wf(recs@.len() as nat),
        r matches Err(e) ==> (e is BadBoard || e is TwoByes || e is MissingPlayer),
        r matches Ok(rd) ==> crate::pairing::covers(&rd, recs@.len() as nat),
{
    let n = recs.len();
    let ghost gn = n as nat;
    let mut flags: Vec<bool> = Vec::new();
    let mut i: usize = 0;
    while i < n
        invariant
            i <= n,
            flags@.len() == i,
            forall|q: int| 0 <= q < i ==> !#[trigger] flags@[q],
        decreases n - i,
    {
        flags.push(false);
        i = i + 1;
    }
    let mut pairs: Vec<Pairing> = Vec::new();
    let mut bye: Option<usize> = None;
    let base = 10 + 4 * j;
    let mut k: usize = 0;
    while k < n
        invariant
            n == recs@.len(),
            gn == n,
            base == 10 + 4 * j,
            j < 0x1000_0000,
            k <= n,
            boards_ok(gn, flags@, pairs@, bye),
        decreases n - k,
    {
        let rec = &recs[k];
        if rec.len() >= base + 4 {
            let opp = match num_at(rec, base + 1) {
                Some(o) => o,
                None => {
                    return Err(ImportError::BadBoard(k));
                },
            };
            let colour = match text_at(rec, base + 2) {
                Some(c) => c,
                None => {
                    return Err(ImportError::BadBoard(k));
                },
            };
            let res = match text_at(rec, base + 3) {
                Some(c) => c,
                None => {
                    return Err(ImportError::BadBoard(k));
                },
            };
            let code: u8 = if res.len() > 0 {
                res[0]
            } else {
                32
            };
            if opp == 0 {
                if code == 43 || code == 70 || code == 85 {
                    if bye.is_some() {
                        return Err(ImportError::TwoByes(j));
                    }
                    if flags[k] {
                        return Err(ImportError::BadBoard(k));
                    }
                    flags[k] = true;
                    bye = Some(k);
                }
            } else if colour.len() > 0 && colour[0] == 119 {
                if opp > n as u64 || opp - 1 == k as u64 {
                    return Err(ImportError::BadBoard(k));
                }
                let o = (opp - 1) as usize;
                if flags[k] || flags[o] {
                    return Err(ImportError::BadBoard(k));
                }
                add_board(
                    Ghost(gn),
                    &mut flags,
                    &mut pairs,
                    bye,
                    Pairing { white: k, black: o, result: result_exec(code) },
                );
            }
        }
        k = k + 1;
    }
    let mut q: usize = 0;
    while q < n
        invariant
            q <= n,
            flags@.len() == n,
            forall|x: int| 0 <= x < q ==> #[trigger] flags@[x],
        decreases n - q,
    {
        if !flags[q] {
            return Err(ImportError::MissingPlayer(q));
        }
        q = q + 1;
    }
    let rd = Round { pairings: pairs, bye };
    assert forall|p: usize| p < n implies rd.bye == Some(p) || exists|k: int|
        0 <= k < rd.pairings@.len() && #[trigger] rd.pairings@[k].has(p) by {
        assert(flags@[p as int]);
        if rd.bye != Some(p) {
            let k = choose|k: int| 0 <= k < pairs@.len() && #[trigger] pairs@[k].has(p);
            assert(rd.pairings@[k].has(p));
        }
    }
    Ok(rd)
}

impl Tour {
    /// The tournament a report describes: record `k` becomes the player with
    /// starting rank `k + 1`, and every round the records reach becomes a
    /// round of the tournament, as many as are configured.
    pub fn from_report(rep: &Report, name: String) -> (r: Result<Tour, ImportError>)
        ensures
            (r == Err::<Tour, ImportError>(ImportError::TooLarge)) <==> (rep.players@.len()
                >= i32::MAX - 1 || rep.rounds >= 0x1000_0000),
            r matches Err(ImportError::BadRecord(k)) ==> k < rep.players@.len() && !record_wf(
                crate::codec::fields_view(rep.players@[k as int]@),
                k as int,
            ),
            (rep.players@.len() < i32::MAX - 1 && rep.rounds == 0 && forall|k: int|
                0 <= k < rep.players@.len() ==> record_wf(
                    crate::codec::fields_view(#[trigger] rep.players@[k]@),
                    k,
                )) ==> r.is_ok(),
            r matches Ok(t) ==> {
                &&& t.wf()
                &&& forall|i: int|
                    0 <= i < t.rounds@.len() ==> crate::pairing::covers(
                        &#[trigger] t.rounds@[i],
                        t.players@.len() as nat,
                    )
                &&& forall|i: int, k: int|
                    0 <= i < t.rounds@.len() && 0 <= k < t.rounds@[i].pairings@.len() ==> !met(
                        t.rounds@.subrange(0, i),
                        (#[trigger] t.rounds@[i].pairings@[k]).white,
                        t.rounds@[i].pairings@[k].black,
                    )
                &&& t.name@ == name@
                &&& t.players@.len() == rep.players@.len()
                &&& t.total_rounds == rep.rounds
                &&& t.rounds@.len() == rep.rounds
                &&& forall|k: int|
                    0 <= k < t.players@.len() ==> {
                        let rec = #[trigger] rep.players@[k]@;
                        let p = t.players@[k];
                        &&& rec[1]@ == FieldView::Num((k + 1) as nat)
                        &&& rec[4]@ == FieldView::Num(p.rating as nat)
                        &&& rec[6]@ == FieldView::Num(p.player_id as nat)
                        &&& rec[3]@ matches FieldView::Text(nm) && p.name@ == utf8_text(nm)
                    }
            },
    {
        let n = rep.players.len();
        if n >= i32::MAX as usize - 1 || rep.rounds >= 0x1000_0000 {
            return Err(ImportError::TooLarge);
        }
        let mut t = Tour::new(name, rep.rounds as u32);
        let mut k: usize = 0;
        while k < n
            invariant
                n == rep.players@.len(),
                n + 1 < i32::MAX,
                rep.rounds < 0x1000_0000,
                k <= n,
                t.wf(),
                t.name@ == name@,
                t.total_rounds == rep.rounds,
                t.rounds@.len() == 0,
                t.players@.len() == k,
                forall|q: int|
                    0 <= q < k ==> {
                        let rec = #[trigger] rep.players@[q]@;
                        let p = t.players@[q];
                        &&& rec[1]@ == FieldView::Num((q + 1) as nat)
                        &&& rec[4]@ == FieldView::Num(p.rating as nat)
                        &&& rec[6]@ == FieldView::Num(p.player_id as nat)
                        &&& rec[3]@ matches FieldView::Text(nm) && p.name@ == utf8_text(nm)
                    },
            decreases n - k,
        {
            match player_of(&rep.players[k], k) {
                Some(p) => {
                    let ghost p0 = t.players@;
                    let _ = t.add_player(p);
                    assert forall|q: int| 0 <= q < k + 1 implies {
                        let rec = #[trigger] rep.players@[q]@;
                        let p = t.players@[q];
                        &&& rec[1]@ == FieldView::Num((q + 1) as nat)
                        &&& rec[4]@ == FieldView::Num(p.rating as nat)
                        &&& rec[6]@ == FieldView::Num(p.player_id as nat)
                        &&& rec[3]@ matches FieldView::Text(nm) && p.name@ == utf8_text(nm)
                    } by {
                        if q < k {
                            assert(t.players@[q] == p0[q]);
                        }
                    }
                },
                None => {
                    return Err(ImportError::BadRecord(k));
                },
            }
            k = k + 1;
        }
        let mut j: usize = 0;
        while j < rep.rounds
            invariant
                n == rep.players@.len(),
                n + 1 < i32::MAX,
                rep.rounds < 0x1000_0000,
                j <= rep.rounds,
                t.wf(),
                t.name@ == name@,
                t.total_rounds == rep.rounds,
                t.rounds@.len() == j,
                t.players@.len() == n,
                forall|i: int| 0 <= i < j ==> crate::pairing::covers(&#[trigger] t.rounds@[i], n as nat),
                forall|i: int, k: int|
                    0 <= i < j && 0 <= k < t.rounds@[i].pairings@.len() ==> !met(
                        t.rounds@.subrange(0, i),
                        (#[trigger] t.rounds@[i].pairings@[k]).white,
                        t.rounds@[i].pairings@[k].black,
                    ),
                forall|q: int|
                    0 <= q < n ==> {
                        let rec = #[trigger] rep.players@[q]@;
                        let p = t.players@[q];
                        &&& rec[1]@ == FieldView::Num((q + 1) as nat)
                        &&& rec[4]@ == FieldView::Num(p.rating as nat)
                        &&& rec[6]@ == FieldView::Num(p.player_id as nat)
                        &&& rec[3]@ matches FieldView::Text(nm) && p.name@ == utf8_text(nm)
                    },
            decreases rep.rounds - j,
        {
            if j > 0 && !t.rounds[j - 1].is_complete() {
                return Err(ImportError::IncompleteRound(j - 1));
            }
            let rd = round_of(&rep.players, j)?;
            let mut k: usize = 0;
            while k < rd.pairings.len()
                invariant
                    n == rep.players@.len(),
                    n + 1 < i32::MAX,
                    rep.rounds < 0x1000_0000,
                    j < rep.rounds,
                    k <= rd.pairings@.len(),
                    forall|m: int| 0 <= m < k ==> !met(t.rounds@, (#[trigger] rd.pairings@[m]).white, rd.pairings@[m].black),
                decreases rd.pairings@.len() - k,
            {
                if have_met(&t.rounds, rd.pairings[k].white, rd.pairings[k].black) {
                    return Err(ImportError::Rematch(j));
                }
                k = k + 1;
            }
            let ghost r0 = t.rounds@;
            t.rounds.push(rd);
            assert forall|i: int| 0 <= i < t.rounds@.len() implies (#[trigger] t.rounds@[i]).wf(
                t.players@.len(),
            ) by {
                if i < r0.len() {
                    assert(r0[i] == t.rounds@[i]);
                }
            }
            assert forall|i: int| 0 <= i < t.rounds@.len() - 1 implies (
            #[trigger] t.rounds@[i]).is_complete_spec() by {
                assert(r0[i] == t.rounds@[i]);
            }
            assert forall|i: int, k: int|
                0 <= i < j + 1 && 0 <= k < t.rounds@[i].pairings@.len() implies !met(
                    t.rounds@.subrange(0, i),
                    (#[trigger] t.rounds@[i].pairings@[k]).white,
                    t.rounds@[i].pairings@[k].black,
                ) by {
                if i < j {
                    assert(t.rounds@.subrange(0, i) =~= r0.subrange(0, i));
                    assert(r0[i] == t.rounds@[i]);
                } else {
                    assert(t.rounds@.subrange(0, i) =~= r0);
                }
            }
            assert forall|i: int| 0 <= i < j + 1 implies crate::pairing::covers(&#[trigger] t.rounds@[i], n as nat) by {
                if i < j {
                    assert(r0[i] == t.rounds@[i]);
                }
            }
            j = j + 1;
        }
        Ok(t)
    }
}

} // verus!
