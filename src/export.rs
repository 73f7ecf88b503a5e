//! Writing a tournament as player records of a report.
use vstd::prelude::*;
use crate::codec::{digits, fields_fit, fields_view, line_text, spaces, write_digits, Field, FieldView, FormatError};
use crate::history::{color_on, find_pairing, pairing_of, score, score_of};
use crate::player::{Color, Title};
use crate::report::{player_columns, write_player_line};
use crate::round::{GameResult, Round};
use crate::standings::{buchholz, direct_encounter, opponent, tiebreaks_of};
use crate::player::Player;
use vstd::utf8::encode_utf8;
use crate::tournament::Tour;

verus! {

/// Result code of a game for the player with colour `c`.
pub open spec fn code_for(r: GameResult, c: Color) -> Seq<u8> {
    let white = c == Color::White;
    match r {
        GameResult::Unset => Seq::empty(),
        GameResult::WhiteWins => if white { seq![49u8] } else { seq![48u8] },
        GameResult::BlackWins => if white { seq![48u8] } else { seq![49u8] },
        GameResult::Draw => seq![61u8],
        GameResult::WhiteWinsByForfeit => if white { seq![43u8] } else { seq![45u8] },
        GameResult::BlackWinsByForfeit => if white { seq![45u8] } else { seq![43u8] },
        GameResult::DoubleForfeit => seq![45u8],
    }
}

/// The round block of player `p` in round `rd`: opponent's starting rank
/// (0 for none), colour (`w`, `b`, or `-`), and result code (`+` for the
/// bye, empty when there is no game).
pub open spec fn block_of(rd: Round, p: usize) -> Seq<FieldView> {
    match pairing_of(rd.pairings@, p) {
        Some(pr) => seq![
            FieldView::Text(Seq::empty()),
            FieldView::Num((opponent(pr, p) + 1) as nat),
            FieldView::Text(if pr.white == p { seq![119u8] } else { seq![98u8] }),
            FieldView::Text(code_for(pr.result, color_on(pr, p))),
        ],
        None => seq![
            FieldView::Text(Seq::empty()),
            FieldView::Num(0),
            FieldView::Text(seq![45u8]),
            FieldView::Text(if rd.bye == Some(p) { seq![43u8] } else { Seq::empty() }),
        ],
    }
}

pub open spec fn title_bytes_spec(t: Title) -> Seq<u8> {
    match t {
        Title::GM => seq![71u8, 77u8],
        Title::IM => seq![73u8, 77u8],
        Title::FM => seq![70u8, 77u8],
        Title::CM => seq![67u8, 77u8],
        Title::WGM => seq![87u8, 71u8, 77u8],
        Title::WIM => seq![87u8, 73u8, 77u8],
        Title::WFM => seq![87u8, 70u8, 77u8],
        Title::WCM => seq![87u8, 67u8, 77u8],
    }
}

/// The sex-and-title column: the first byte of the sex, then, when there
/// is a title, a space and the title (a blank sex written as a space).
pub open spec fn sex_title_spec(sex: Seq<u8>, title: Option<Title>) -> Seq<u8> {
    let first = if sex.len() > 0 { sex.subrange(0, 1) } else { Seq::empty() };
    match title {
        Some(t) => (if first.len() == 0 { seq![32u8] } else { first }) + seq![32u8]
            + title_bytes_spec(t),
        None => first,
    }
}

/// Points in half-points as a report writes them: whole points, a dot, 0
/// or 5, right-aligned in four places.
pub open spec fn points_spec(h: nat) -> Seq<u8> {
    let d = digits(h / 2) + seq![46u8, if h % 2 == 1 { 53u8 } else { 48u8 }];
    if d.len() >= 4 {
        d
    } else {
        spaces((4 - d.len()) as nat) + d
    }
}

/// The round blocks of player `p` over rounds `rs`.
pub open spec fn blocks_spec(rs: Seq<Round>, p: usize) -> Seq<FieldView>
    decreases rs.len(),
{
    if rs.len() == 0 {
        Seq::empty()
    } else {
        blocks_spec(rs.drop_last(), p) + block_of(rs.last(), p)
    }
}

proof fn lemma_blocks_len(rs: Seq<Round>, p: usize)
    ensures
        blocks_spec(rs, p).len() == 4 * rs.len(),
    decreases rs.len(),
{
    if rs.len() > 0 {
        lemma_blocks_len(rs.drop_last(), p);
    }
}

/// The record of player `k` of `t` with place `place`.
pub open spec fn record_spec(t: &Tour, k: int, place: nat) -> Seq<FieldView> {
    let p = t.players@[k];
    seq![
        FieldView::Text(seq![48u8, 48u8, 49u8]),
        FieldView::Num((k + 1) as nat),
        FieldView::Text(sex_title_spec(encode_utf8(p.sex@), p.title)),
        FieldView::Text(encode_utf8(p.name@)),
        FieldView::Num(p.rating as nat),
        FieldView::Text(encode_utf8(p.federation@)),
        FieldView::Num(p.player_id as nat),
        FieldView::Text(encode_utf8(p.birth_date@)),
        FieldView::Text(points_spec(score(t.rounds@, k as usize))),
        FieldView::Num(place),
    ] + blocks_spec(t.rounds@, k as usize)
}

/// Player `j` stands above player `k` in the standings.
pub open spec fn ranks_above(t: &Tour, j: usize, k: usize) -> bool {
    let rs = t.rounds@;
    let (sj, sk) = (score(rs, j), score(rs, k));
    let (bj, bk) = (buchholz(rs, j), buchholz(rs, k));
    let (dj, dk) = (direct_encounter(rs, j), direct_encounter(rs, k));
    sj > sk || (sj == sk && (bj > bk || (bj == bk && (dj > dk || (dj == dk && j < k)))))
}

/// How many of players `0..m` stand above player `k`.
pub open spec fn count_above(t: &Tour, k: usize, m: nat) -> nat
    decreases m,
{
    if m == 0 {
        0
    } else {
        count_above(t, k, (m - 1) as nat) + if ranks_above(t, (m - 1) as usize, k) {
            1nat
        } else {
            0nat
        }
    }
}

/// The place of player `k` in the standings, counted from 1.
pub open spec fn place_of(t: &Tour, k: usize) -> nat {
    1 + count_above(t, k, t.players@.len())
}

proof fn lemma_count_above_step(t: &Tour, x: usize, y: usize, m: nat)
    requires
        ranks_above(t, y, x),
    ensures
        count_above(t, x, m) >= count_above(t, y, m) + if y < m {
            1nat
        } else {
            0nat
        },
    decreases m,
{
    if m > 0 {
        lemma_count_above_step(t, x, y, (m - 1) as nat);
        let j = (m - 1) as usize;
        if ranks_above(t, j, y) {
            assert(ranks_above(t, j, x));
        }
    }
}

/// A player with strictly fewer points gets a strictly worse place in a
/// written report.
pub proof fn lemma_place_monotone(t: &Tour, x: usize, y: usize)
    requires
        y < t.players@.len(),
        score(t.rounds@, x) < score(t.rounds@, y),
    ensures
        place_of(t, y) < place_of(t, x),
{
    lemma_count_above_step(t, x, y, t.players@.len());
}

/// The bytes of a string.
fn bytes_of(s: &String) -> (r: Vec<u8>)
    ensures
        r@ == encode_utf8(s@),
{
    let b = s.as_str().as_bytes();
    let mut r: Vec<u8> = Vec::new();
    let mut i: usize = 0;
    while i < b.len()
        invariant
            i <= b@.len(),
            r@ == b@.subrange(0, i as int),
        decreases b@.len() - i,
    {
        assert(r@.push(b@[i as int]) =~= b@.subrange(0, i + 1));
        r.push(b[i]);
        i = i + 1;
    }
    assert(b@.subrange(0, b@.len() as int) =~= b@);
    r
}

fn title_bytes(t: Title) -> (r: Vec<u8>)
    ensures
        r@ == title_bytes_spec(t),
{
    let r: Vec<u8> = match t {
        Title::GM => vec![71, 77],
        Title::IM => vec![73, 77],
        Title::FM => vec![70, 77],
        Title::CM => vec![67, 77],
        Title::WGM => vec![87, 71, 77],
        Title::WIM => vec![87, 73, 77],
        Title::WFM => vec![87, 70, 77],
        Title::WCM => vec![87, 67, 77],
    };
    assert(r@ =~= title_bytes_spec(t));
    r
}

fn append(out: &mut Vec<u8>, b: &Vec<u8>)
    ensures
        final(out)@ == old(out)@ + b@,
{
    let mut i: usize = 0;
    while i < b.len()
        invariant
            i <= b@.len(),
            out@ == old(out)@ + b@.subrange(0, i as int),
        decreases b@.len() - i,
    {
        assert((old(out)@ + b@.subrange(0, i as int)).push(b@[i as int]) =~= old(out)@ + b@.subrange(0, i + 1));
        out.push(b[i]);
        i = i + 1;
    }
    assert(b@.subrange(0, b@.len() as int) =~= b@);
}

fn sex_title_of(p: &Player) -> (r: Vec<u8>)
    ensures
        r@ == sex_title_spec(encode_utf8(p.sex@), p.title),
{
    let sex = bytes_of(&p.sex);
    let mut r: Vec<u8> = Vec::new();
    if sex.len() > 0 {
        r.push(sex[0]);
    }
    assert(r@ =~= (if sex@.len() > 0 { sex@.subrange(0, 1) } else { Seq::<u8>::empty() }));
    match p.title {
        Some(t) => {
            if r.len() == 0 {
                r.push(32);
            }
            r.push(32);
            let tb = title_bytes(t);
            let ghost r1 = r@;
            append(&mut r, &tb);
            assert(r@ =~= sex_title_spec(encode_utf8(p.sex@), p.title));
        },
        None => {},
    }
    r
}

/// Points as written in a report.
fn points_text(half_points: u64) -> (r: Vec<u8>)
    ensures
        r@ == points_spec(half_points as nat),
{
    let mut d: Vec<u8> = Vec::new();
    write_digits(&mut d, half_points / 2);
    d.push(46);
    d.push(if half_points % 2 == 1 { 53 } else { 48 });
    let ghost dv = digits((half_points / 2) as nat) + seq![46u8, if half_points % 2 == 1 { 53u8 } else { 48u8 }];
    assert(d@ =~= dv);
    let mut r: Vec<u8> = Vec::new();
    if d.len() >= 4 {
        append(&mut r, &d);
        return r;
    }
    let mut i: usize = d.len();
    while i < 4
        invariant
            d@.len() <= i <= 4,
            r@ == spaces((i - d@.len()) as nat),
        decreases 4 - i,
    {
        assert(r@.push(32u8) =~= spaces((i + 1 - d@.len()) as nat));
        r.push(32);
        i = i + 1;
    }
    assert(r@ =~= spaces((4 - dv.len()) as nat));
    append(&mut r, &d);
    r
}

fn code_exec(r: GameResult, c: Color) -> (v: Vec<u8>)
    ensures
        v@ == code_for(r, c),
{
    let white = c == Color::White;
    let v: Vec<u8> = match r {
        GameResult::Unset => Vec::new(),
        GameResult::WhiteWins => if white { vec![49] } else { vec![48] },
        GameResult::BlackWins => if white { vec![48] } else { vec![49] },
        GameResult::Draw => vec![61],
        GameResult::WhiteWinsByForfeit => if white { vec![43] } else { vec![45] },
        GameResult::BlackWinsByForfeit => if white { vec![45] } else { vec![43] },
        GameResult::DoubleForfeit => vec![45],
    };
    assert(v@ =~= code_for(r, c));
    v
}

fn push_block(Ghost(n): Ghost<nat>, rec: &mut Vec<Field>, rd: &Round, p: usize)
    requires
        rd.wf(n),
        n < i32::MAX,
    ensures
        fields_view(final(rec)@) == fields_view(old(rec)@) + block_of(*rd, p),
{
    let ghost r0 = rec@;
    let e: Vec<u8> = Vec::new();
    assert(e@ =~= Seq::<u8>::empty());
    let f0 = Field::Text(e);
    let (f1, f2, f3) = match find_pairing(&rd.pairings, p) {
        Some(pr) => {
            proof {
                crate::history::lemma_pairing_of_in(rd.pairings@, p);
            }
            let w = pr.white == p;
            let o = if w { pr.black } else { pr.white };
            let cv: Vec<u8> = if w { vec![119] } else { vec![98] };
            assert(cv@ =~= if w { seq![119u8] } else { seq![98u8] });
            let c = if w { Color::White } else { Color::Black };
            (Field::Num(o as u64 + 1), Field::Text(cv), Field::Text(code_exec(pr.result, c)))
        },
        None => {
            let cv: Vec<u8> = vec![45];
            assert(cv@ =~= seq![45u8]);
            let bv: Vec<u8> = if rd.bye == Some(p) { vec![43] } else { Vec::new() };
            assert(bv@ =~= if rd.bye == Some(p) { seq![43u8] } else { Seq::<u8>::empty() });
            (Field::Num(0), Field::Text(cv), Field::Text(bv))
        },
    };
    let ghost blk = seq![f0@, f1@, f2@, f3@];
    assert(blk =~= block_of(*rd, p));
    rec.push(f0);
    rec.push(f1);
    rec.push(f2);
    rec.push(f3);
    assert(fields_view(rec@) =~= fields_view(r0) + blk);
}

impl Tour {
    /// The report record of player `k`, placed `place` in the standings.
    pub fn player_record(&self, k: usize, place: u64) -> (rec: Vec<Field>)
        requires
            self.wf(),
            k < self.players@.len(),
        ensures
            fields_view(rec@) == record_spec(self, k as int, place as nat),
    {
        let p = &self.players[k];
        let tag: Vec<u8> = vec![48, 48, 49];
        assert(tag@ =~= seq![48u8, 48u8, 49u8]);
        let mut rec: Vec<Field> = Vec::new();
        rec.push(Field::Text(tag));
        rec.push(Field::Num(k as u64 + 1));
        rec.push(Field::Text(sex_title_of(p)));
        rec.push(Field::Text(bytes_of(&p.name)));
        rec.push(Field::Num(p.rating as u64));
        rec.push(Field::Text(bytes_of(&p.federation)));
        rec.push(Field::Num(p.player_id));
        rec.push(Field::Text(bytes_of(&p.birth_date)));
        rec.push(Field::Text(points_text(score_of(&self.rounds, k))));
        rec.push(Field::Num(place));
        let ghost head = fields_view(rec@);
        assert(head =~= record_spec(self, k as int, place as nat).subrange(0, 10));
        let nr = self.rounds.len();
        let mut j: usize = 0;
        assert(blocks_spec(self.rounds@.subrange(0, 0), k) =~= Seq::<FieldView>::empty());
        assert(fields_view(rec@) =~= head + blocks_spec(self.rounds@.subrange(0, 0), k));
        while j < nr
            invariant
                self.wf(),
                nr == self.rounds@.len(),
                j <= nr,
                fields_view(rec@) == head + blocks_spec(self.rounds@.subrange(0, j as int), k),
            decreases nr - j,
        {
            let ghost v0 = fields_view(rec@);
            assert(self.rounds@[j as int].wf(self.players@.len()));
            push_block(Ghost(self.players@.len() as nat), &mut rec, &self.rounds[j], k);
            assert(self.rounds@.subrange(0, j + 1).drop_last() =~= self.rounds@.subrange(0, j as int));
            assert(fields_view(rec@) =~= head + blocks_spec(self.rounds@.subrange(0, j + 1), k));
            j = j + 1;
        }
        assert(self.rounds@.subrange(0, nr as int) =~= self.rounds@);
        assert(fields_view(rec@) =~= record_spec(self, k as int, place as nat));
        rec
    }

    /// The place of player `k` in the standings, counted from 1.
    pub fn place(&self, k: usize) -> (r: u64)
        requires
            self.wf(),
            k < self.players@.len(),
        ensures
            r == place_of(self, k),
    {
        let n = self.players.len();
        let mut scores: Vec<u64> = Vec::new();
        let mut p: usize = 0;
        while p < n
            invariant
                self.wf(),
                n == self.players@.len(),
                p <= n,
                scores@.len() == p,
                forall|q: int| 0 <= q < p ==> #[trigger] scores@[q] == score(self.rounds@, q as usize),
            decreases n - p,
        {
            scores.push(score_of(&self.rounds, p));
            p = p + 1;
        }
        let (bk, dk) = tiebreaks_of(self, &scores, k);
        let sk = scores[k];
        let mut c: u64 = 0;
        let mut j: usize = 0;
        while j < n
            invariant
                self.wf(),
                n == self.players@.len(),
                k < n,
                scores@.len() == n,
                forall|q: int| 0 <= q < n ==> #[trigger] scores@[q] == score(self.rounds@, q as usize),
                sk == score(self.rounds@, k),
                bk == buchholz(self.rounds@, k),
                dk == direct_encounter(self.rounds@, k),
                j <= n,
                c == count_above(self, k, j as nat),
                c <= j,
            decreases n - j,
        {
            let (bj, dj) = tiebreaks_of(self, &scores, j);
            let sj = scores[j];
            if sj > sk || (sj == sk && (bj > bk || (bj == bk && (dj > dk || (dj == dk && j < k))))) {
                c = c + 1;
            }
            j = j + 1;
        }
        c + 1
    }

    /// The player lines of a report of the tournament, in order of starting
    /// rank, each with the player's place in the standings. Refused when a
    /// value does not fit its column (a name longer than 33 bytes, say).
    pub fn to_report(&self) -> (r: Result<Vec<Vec<u8>>, FormatError>)
        requires
            self.wf(),
        ensures
            r.is_ok() <==> forall|k: int|
                0 <= k < self.players@.len() ==> fields_fit(
                    #[trigger] record_spec(self, k, place_of(self, k as usize)),
                    player_columns(self.rounds@.len()),
                ),
            r.is_err() ==> r == Err::<Vec<Vec<u8>>, FormatError>(FormatError::DoesNotFit),
            r matches Ok(lines) ==> lines@.len() == self.players@.len() && forall|k: int|
                0 <= k < lines@.len() ==> #[trigger] lines@[k]@ == line_text(
                    record_spec(self, k, place_of(self, k as usize)),
                    player_columns(self.rounds@.len()),
                ),
    {
        let n = self.players.len();
        let mut lines: Vec<Vec<u8>> = Vec::new();
        let mut k: usize = 0;
        while k < n
            invariant
                self.wf(),
                n == self.players@.len(),
                k <= n,
                lines@.len() == k,
                forall|q: int|
                    0 <= q < k ==> fields_fit(
                        #[trigger] record_spec(self, q, place_of(self, q as usize)),
                        player_columns(self.rounds@.len()),
                    ),
                forall|q: int|
                    0 <= q < k ==> #[trigger] lines@[q]@ == line_text(
                        record_spec(self, q, place_of(self, q as usize)),
                        player_columns(self.rounds@.len()),
                    ),
            decreases n - k,
        {
            let place = self.place(k);
            let rec = self.player_record(k, place);
            let ghost rv = fields_view(rec@);
            proof {
                lemma_blocks_len(self.rounds@, k);
            }
            assert(rv.len() == 10 + 4 * self.rounds@.len());
            assert((rv.len() - 10) / 4 == self.rounds@.len() && (rv.len() - 10) % 4 == 0) by (nonlinear_arith)
                requires rv.len() == 10 + 4 * self.rounds@.len();
            match write_player_line(&rec) {
                Ok(line) => {
                    lines.push(line);
                },
                Err(e) => {
                    return Err(e);
                },
            }
            k = k + 1;
        }
        Ok(lines)
    }
}

} // verus!
