//! Player records of the tournament-report format.
//!
//! A player line starts with `001` and holds, in fixed columns, the starting
//! rank, sex and title, name, rating, federation, federation id, birth date,
//! points and place, then one block per round played: opponent's starting
//! rank, colour and result. A line starting with `062` declares the number of
//! players.
use vstd::prelude::*;
use crate::codec::{
    fields_fit, fields_view, layout_ok, line_text, write_line, num_chars_ok, num_value, read_line, read_line_exec, read_num,
    Column, Field, FieldView, FormatError, SPACE,
};

verus! {

/// Length of a player line without round blocks.
pub const BASE_LEN: usize = 89;

/// Length of one round block, with the two spaces before it.
pub const ROUND_LEN: usize = 10;

pub open spec fn base_columns() -> Seq<Column> {
    seq![
        Column { width: 3, numeric: false },
        Column { width: 4, numeric: true },
        Column { width: 4, numeric: false },
        Column { width: 33, numeric: false },
        Column { width: 4, numeric: true },
        Column { width: 3, numeric: false },
        Column { width: 11, numeric: true },
        Column { width: 10, numeric: false },
        Column { width: 4, numeric: false },
        Column { width: 4, numeric: true },
    ]
}

pub open spec fn round_columns() -> Seq<Column> {
    seq![
        Column { width: 0, numeric: false },
        Column { width: 4, numeric: true },
        Column { width: 1, numeric: false },
        Column { width: 1, numeric: false },
    ]
}

/// The layout of a player line with `rounds` round blocks.
pub open spec fn player_columns(rounds: nat) -> Seq<Column>
    decreases rounds,
{
    if rounds == 0 {
        base_columns()
    } else {
        player_columns((rounds - 1) as nat) + round_columns()
    }
}

proof fn lemma_player_columns_ok(rounds: nat)
    ensures
        layout_ok(player_columns(rounds)),
        player_columns(rounds).len() == 10 + 4 * rounds,
    decreases rounds,
{
    if rounds > 0 {
        lemma_player_columns_ok((rounds - 1) as nat);
        let a = player_columns((rounds - 1) as nat);
        let s = a + round_columns();
        assert forall|i: int| 0 <= i < s.len() implies (#[trigger] s[i]).numeric ==> s[i].width >= 1 by {
            if i < a.len() {
                assert(s[i] == a[i]);
            }
        }
    }
}

pub fn player_layout(rounds: usize) -> (cols: Vec<Column>)
    ensures
        cols@ == player_columns(rounds as nat),
        layout_ok(cols@),
{
    let mut cols: Vec<Column> = vec![
        Column { width: 3, numeric: false },
        Column { width: 4, numeric: true },
        Column { width: 4, numeric: false },
        Column { width: 33, numeric: false },
        Column { width: 4, numeric: true },
        Column { width: 3, numeric: false },
        Column { width: 11, numeric: true },
        Column { width: 10, numeric: false },
        Column { width: 4, numeric: false },
        Column { width: 4, numeric: true },
    ];
    assert(cols@ =~= base_columns());
    let mut r: usize = 0;
    while r < rounds
        invariant
            r <= rounds,
            cols@ == player_columns(r as nat),
        decreases rounds - r,
    {
        let ghost c0 = cols@;
        cols.push(Column { width: 0, numeric: false });
        cols.push(Column { width: 4, numeric: true });
        cols.push(Column { width: 1, numeric: false });
        cols.push(Column { width: 1, numeric: false });
        assert(cols@ =~= c0 + round_columns());
        r = r + 1;
    }
    proof {
        lemma_player_columns_ok(rounds as nat);
    }
    cols
}

/// `s` starts with the three bytes of `tag`.
pub open spec fn has_tag(s: Seq<u8>, tag: Seq<u8>) -> bool {
    s.len() >= 3 && s[0] == tag[0] && s[1] == tag[1] && s[2] == tag[2]
}

pub open spec fn player_tag() -> Seq<u8> {
    seq![48u8, 48u8, 49u8]
}

pub open spec fn count_tag() -> Seq<u8> {
    seq![48u8, 54u8, 50u8]
}

/// Length of `s` without its trailing spaces.
pub open spec fn trimmed_len(s: Seq<u8>) -> nat
    decreases s.len(),
{
    if s.len() > 0 && s.last() == SPACE {
        trimmed_len(s.drop_last())
    } else {
        s.len()
    }
}

/// Number of round blocks a player line holds: as many as its text reaches
/// into.
pub open spec fn rounds_in(s: Seq<u8>) -> nat {
    let t = trimmed_len(s);
    if t <= BASE_LEN {
        0
    } else {
        ((t - BASE_LEN + ROUND_LEN - 1) / ROUND_LEN as int) as nat
    }
}

/// The fields of a player line.
pub open spec fn read_player(s: Seq<u8>) -> Option<Seq<FieldView>> {
    read_line(s, player_columns(rounds_in(s)))
}

fn trimmed_len_exec(s: &Vec<u8>) -> (r: usize)
    ensures
        r == trimmed_len(s@),
{
    let mut k: usize = s.len();
    assert(s@.subrange(0, k as int) =~= s@);
    while k > 0 && s[k - 1] == SPACE
        invariant
            k <= s@.len(),
            trimmed_len(s@) == trimmed_len(s@.subrange(0, k as int)),
        decreases k,
    {
        assert(s@.subrange(0, k as int).drop_last() =~= s@.subrange(0, k - 1));
        k = k - 1;
    }
    k
}

/// Reads a player line, taking as many round blocks as its text reaches.
pub fn read_player_line(s: &Vec<u8>) -> (r: Result<Vec<Field>, FormatError>)
    ensures
        r.is_ok() <==> read_player(s@).is_some(),
        r matches Ok(fs) ==> read_player(s@) == Some(crate::codec::fields_view(fs@)),
{
    let t = trimmed_len_exec(s);
    proof {
        lemma_trimmed_len_bound(s@);
    }
    let rounds = if t <= BASE_LEN {
        0
    } else {
        (t - BASE_LEN + ROUND_LEN - 1) / ROUND_LEN
    };
    let cols = player_layout(rounds);
    read_line_exec(s, &cols)
}

proof fn lemma_trimmed_len_bound(s: Seq<u8>)
    ensures
        trimmed_len(s) <= s.len(),
    decreases s.len(),
{
    if s.len() > 0 && s.last() == SPACE {
        lemma_trimmed_len_bound(s.drop_last());
    }
}


pub const NEWLINE: u8 = 10;

/// The lines of a text, split at each newline.
pub open spec fn lines_of(s: Seq<u8>) -> Seq<Seq<u8>>
    decreases s.len(),
{
    if s.len() == 0 {
        seq![Seq::empty()]
    } else {
        let l = lines_of(s.drop_last());
        if s.last() == NEWLINE {
            l.push(Seq::empty())
        } else {
            l.update(l.len() - 1, l.last().push(s.last()))
        }
    }
}

proof fn lemma_lines_of_nonempty(s: Seq<u8>)
    ensures
        lines_of(s).len() >= 1,
    decreases s.len(),
{
    if s.len() > 0 {
        lemma_lines_of_nonempty(s.drop_last());
    }
}

pub open spec fn lines_view(ls: Seq<Vec<u8>>) -> Seq<Seq<u8>> {
    ls.map_values(|l: Vec<u8>| l@)
}

pub fn split_lines(text: &Vec<u8>) -> (r: Vec<Vec<u8>>)
    ensures
        lines_view(r@) == lines_of(text@),
{
    let mut lines: Vec<Vec<u8>> = Vec::new();
    let mut cur: Vec<u8> = Vec::new();
    let mut i: usize = 0;
    while i < text.len()
        invariant
            i <= text@.len(),
            lines_view(lines@).push(cur@) == lines_of(text@.subrange(0, i as int)),
        decreases text@.len() - i,
    {
        let ghost pre = text@.subrange(0, i + 1);
        assert(pre.drop_last() =~= text@.subrange(0, i as int));
        proof {
            lemma_lines_of_nonempty(pre.drop_last());
        }
        let ghost l0 = lines_view(lines@);
        let ghost c0 = cur@;
        if text[i] == NEWLINE {
            lines.push(cur);
            cur = Vec::new();
            assert(lines_view(lines@) =~= l0.push(c0));
            assert(lines_view(lines@).push(cur@) =~= lines_of(pre));
        } else {
            cur.push(text[i]);
            assert(lines_view(lines@).push(cur@) =~= l0.push(c0).update(l0.len() as int, c0.push(text@[i as int])));
        }
        i = i + 1;
    }
    assert(text@.subrange(0, text@.len() as int) =~= text@);
    let ghost l0 = lines_view(lines@);
    lines.push(cur);
    assert(lines_view(lines@) =~= l0.push(lines@.last()@));
    lines
}

/// The fields of the player lines among `ls`, in order; none when one of
/// them cannot be read.
pub open spec fn player_records(ls: Seq<Seq<u8>>) -> Option<Seq<Seq<FieldView>>>
    decreases ls.len(),
{
    if ls.len() == 0 {
        Some(Seq::empty())
    } else {
        match player_records(ls.drop_last()) {
            None => None,
            Some(rs) => if has_tag(ls.last(), player_tag()) {
                match read_player(ls.last()) {
                    Some(f) => Some(rs.push(f)),
                    None => None,
                }
            } else {
                Some(rs)
            },
        }
    }
}

pub open spec fn rank_of(fs: Seq<FieldView>) -> Option<nat> {
    if fs.len() > 1 {
        match fs[1] {
            FieldView::Num(n) => Some(n),
            _ => None,
        }
    } else {
        None
    }
}

pub open spec fn ranks_unique(rs: Seq<Seq<FieldView>>) -> bool {
    forall|i: int, j: int| 0 <= i < j < rs.len() ==> rank_of(#[trigger] rs[i]) != rank_of(#[trigger] rs[j])
}

/// Every line that declares the number of players declares `n`.
pub open spec fn count_ok(ls: Seq<Seq<u8>>, n: nat) -> bool {
    forall|i: int|
        0 <= i < ls.len() && #[trigger] has_tag(ls[i], count_tag()) ==> num_chars_ok(
            ls[i].subrange(3, ls[i].len() as int),
        ) && num_value(ls[i].subrange(3, ls[i].len() as int)) == n
}

/// Round blocks in a record of a player line.
pub open spec fn record_rounds(fs: Seq<FieldView>) -> nat {
    if fs.len() >= 10 {
        ((fs.len() - 10) / 4) as nat
    } else {
        0
    }
}

/// The most round blocks among the records.
pub open spec fn max_rounds(rs: Seq<Seq<FieldView>>) -> nat
    decreases rs.len(),
{
    if rs.len() == 0 {
        0
    } else {
        let m = max_rounds(rs.drop_last());
        let k = record_rounds(rs.last());
        if k > m {
            k
        } else {
            m
        }
    }
}

/// The player records of a report and the number of rounds they reach.
pub struct Report {
    pub players: Vec<Vec<Field>>,
    pub rounds: usize,
}

pub open spec fn records_view(rs: Seq<Vec<Field>>) -> Seq<Seq<FieldView>> {
    rs.map_values(|r: Vec<Field>| fields_view(r@))
}

/// Why a report was refused.
#[derive(Clone, Copy, Debug, PartialEq, Eq, Structural)]
pub enum ReportError {
    /// A player line, given by its index among the lines, cannot be read.
    Format(usize, FormatError),
    /// Two player lines share a starting rank; the index of the second line.
    DuplicateRank(usize),
    /// The line with this index declares a number of players other than
    /// the number of player lines, or no number.
    CountMismatch(usize),
}

fn rank_exec(fs: &Vec<Field>) -> (r: Option<u64>)
    ensures
        r matches Some(n) ==> rank_of(fields_view(fs@)) == Some(n as nat),
        r.is_none() ==> rank_of(fields_view(fs@)).is_none(),
{
    if fs.len() > 1 {
        assert(fields_view(fs@)[1] == fs@[1]@);
        match &fs[1] {
            Field::Num(n) => Some(*n),
            Field::Text(_) => None,
        }
    } else {
        None
    }
}

/// Reads a report: each player line in order, with the starting ranks all
/// different and the declared number of players, if any, met.
pub fn read_report(text: &Vec<u8>) -> (r: Result<Report, ReportError>)
    ensures
        r.is_ok() <==> match player_records(lines_of(text@)) {
            Some(rs) => ranks_unique(rs) && count_ok(lines_of(text@), rs.len()),
            None => false,
        },
        r matches Ok(rep) ==> {
            &&& player_records(lines_of(text@)) == Some(records_view(rep.players@))
            &&& rep.rounds == max_rounds(records_view(rep.players@))
        },
        r matches Err(ReportError::DuplicateRank(i)) ==> i < lines_of(text@).len() && has_tag(
            lines_of(text@)[i as int],
            player_tag(),
        ),
        r matches Err(ReportError::CountMismatch(i)) ==> i < lines_of(text@).len() && has_tag(
            lines_of(text@)[i as int],
            count_tag(),
        ),
        r matches Err(ReportError::Format(i, _)) ==> i < lines_of(text@).len() && has_tag(
            lines_of(text@)[i as int],
            player_tag(),
        ) && read_player(lines_of(text@)[i as int]).is_none(),
{
    let lines = split_lines(text);
    let ghost ls = lines_of(text@);
    let mut players: Vec<Vec<Field>> = Vec::new();
    let mut ranks: Vec<Option<u64>> = Vec::new();
    let mut rounds: usize = 0;
    let mut i: usize = 0;
    while i < lines.len()
        invariant
            ls == lines_of(text@),
            ls == lines_view(lines@),
            i <= lines@.len(),
            player_records(ls.subrange(0, i as int)) == Some(records_view(players@)),
            ranks@.len() == players@.len(),
            forall|k: int| 0 <= k < ranks@.len() ==> (match #[trigger] ranks@[k] {
                Some(n) => rank_of(records_view(players@)[k]) == Some(n as nat),
                None => rank_of(records_view(players@)[k]).is_none(),
            }),
            ranks_unique(records_view(players@)),
            rounds == max_rounds(records_view(players@)),
            players@.len() <= i,
        decreases lines@.len() - i,
    {
        let ghost pre = ls.subrange(0, i + 1);
        assert(pre.drop_last() =~= ls.subrange(0, i as int));
        assert(ls[i as int] == lines@[i as int]@);
        let line = &lines[i];
        if line.len() >= 3 && line[0] == 48 && line[1] == 48 && line[2] == 49 {
            assert(has_tag(pre.last(), player_tag()));
            match read_player_line(line) {
                Ok(fs) => {
                    let rk = rank_exec(&fs);
                    match position_of(&ranks, rk) {
                        Some(k) => {
                            proof {
                                assert(ranks@[k as int] == rk);
                                match rk {
                                    Some(n) => {},
                                    None => {},
                                }
                                lemma_records_dup(ls, i as int, records_view(players@), k as int, fields_view(fs@));
                            }
                            return Err(ReportError::DuplicateRank(i));
                        },
                        None => {},
                    }
                    let ghost rv0 = records_view(players@);
                    proof {
                        assert(fs@.len() >= 10) by {
                            lemma_player_columns_ok(rounds_in(line@));
                            crate::codec::lemma_read_line_fits(line@, player_columns(rounds_in(line@)));
                        }
                    }
                    let nr = (fs.len() - 10) / 4;
                    if nr > rounds {
                        rounds = nr;
                    }
                    players.push(fs);
                    ranks.push(rk);
                    assert(records_view(players@) =~= rv0.push(fields_view(players@.last()@)));
                    assert(ranks_unique(records_view(players@))) by {
                        let rv = records_view(players@);
                        assert forall|a: int, b: int| 0 <= a < b < rv.len() implies rank_of(#[trigger] rv[a]) != rank_of(#[trigger] rv[b]) by {
                            if b == rv.len() - 1 {
                                assert(rv[a] == rv0[a]);
                                assert(ranks@[a] != rk);
                                match ranks@[a] {
                                    Some(n) => {},
                                    None => {},
                                }
                            } else {
                                assert(rv[a] == rv0[a] && rv[b] == rv0[b]);
                            }
                        }
                    }
                    assert(rv0.push(fields_view(players@.last()@)).drop_last() =~= rv0);
                },
                Err(e) => {
                    proof {
                        lemma_records_fail(ls, i as int);
                    }
                    return Err(ReportError::Format(i, e));
                },
            }
        } else {
            assert(!has_tag(pre.last(), player_tag()));
        }
        i = i + 1;
    }
    assert(ls.subrange(0, ls.len() as int) =~= ls);
    let n = players.len();
    let mut i: usize = 0;
    while i < lines.len()
        invariant
            ls == lines_of(text@),
            ls == lines_view(lines@),
            i <= lines@.len(),
            n == players@.len(),
            player_records(ls) == Some(records_view(players@)),
            forall|j: int|
                0 <= j < i && #[trigger] has_tag(ls[j], count_tag()) ==> num_chars_ok(
                    ls[j].subrange(3, ls[j].len() as int),
                ) && num_value(ls[j].subrange(3, ls[j].len() as int)) == n,
        decreases lines@.len() - i,
    {
        let line = &lines[i];
        assert(ls[i as int] == line@);
        if line.len() >= 3 && line[0] == 48 && line[1] == 54 && line[2] == 50 {
            assert(has_tag(ls[i as int], count_tag()));
            match read_num(line, 3, line.len()) {
                Some(v) => {
                    if v != n as u64 {
                        return Err(ReportError::CountMismatch(i));
                    }
                },
                None => {
                    return Err(ReportError::CountMismatch(i));
                },
            }
        }
        i = i + 1;
    }
    Ok(Report { players, rounds })
}

/// The index of `x` in `v`, if it is there.
fn position_of(v: &Vec<Option<u64>>, x: Option<u64>) -> (r: Option<usize>)
    ensures
        r matches Some(k) ==> k < v@.len() && v@[k as int] == x,
        r.is_none() ==> forall|k: int| 0 <= k < v@.len() ==> v@[k] != x,
{
    let mut k: usize = 0;
    while k < v.len()
        invariant
            k <= v@.len(),
            forall|m: int| 0 <= m < k ==> v@[m] != x,
        decreases v@.len() - k,
    {
        if v[k] == x {
            return Some(k);
        }
        k = k + 1;
    }
    None
}

proof fn lemma_records_fail(ls: Seq<Seq<u8>>, i: int)
    requires
        0 <= i < ls.len(),
        player_records(ls.subrange(0, i + 1)).is_none(),
    ensures
        player_records(ls).is_none(),
    decreases ls.len() - i,
{
    if i + 1 < ls.len() {
        assert(ls.subrange(0, i + 2).drop_last() =~= ls.subrange(0, i + 1));
        lemma_records_fail(ls, i + 1);
    } else {
        assert(ls.subrange(0, i + 1) =~= ls);
    }
}

/// Records of a prefix stay a prefix of the records of the whole.
proof fn lemma_records_prefix(ls: Seq<Seq<u8>>, i: int)
    requires
        0 <= i <= ls.len(),
        player_records(ls).is_some(),
    ensures
        player_records(ls.subrange(0, i)).is_some(),
        player_records(ls.subrange(0, i)).unwrap().len() <= player_records(ls).unwrap().len(),
        forall|k: int| 0 <= k < player_records(ls.subrange(0, i)).unwrap().len() ==> player_records(ls).unwrap()[k] == #[trigger] player_records(ls.subrange(0, i)).unwrap()[k],
    decreases ls.len() - i,
{
    if i < ls.len() {
        assert(ls.subrange(0, i + 1).drop_last() =~= ls.subrange(0, i));
        lemma_records_prefix(ls, i + 1);
        let a = player_records(ls.subrange(0, i));
        let b = player_records(ls.subrange(0, i + 1));
        assert(a.is_some());
        assert(forall|k: int| 0 <= k < a.unwrap().len() ==> b.unwrap()[k] == #[trigger] a.unwrap()[k]);
        assert(a.unwrap().len() <= b.unwrap().len());
        assert forall|k: int| 0 <= k < a.unwrap().len() implies player_records(ls).unwrap()[k] == #[trigger] a.unwrap()[k] by {
            assert(b.unwrap()[k] == a.unwrap()[k]);
        }
    } else {
        assert(ls.subrange(0, i) =~= ls);
    }
}

proof fn lemma_records_dup(ls: Seq<Seq<u8>>, i: int, rs: Seq<Seq<FieldView>>, k: int, f: Seq<FieldView>)
    requires
        0 <= i < ls.len(),
        player_records(ls.subrange(0, i)) == Some(rs),
        has_tag(ls[i], player_tag()),
        read_player(ls[i]) == Some(f),
        0 <= k < rs.len(),
        rank_of(rs[k]) == rank_of(f),
    ensures
        match player_records(ls) {
            Some(all) => !ranks_unique(all),
            None => true,
        },
{
    let pre = ls.subrange(0, i + 1);
    assert(pre.drop_last() =~= ls.subrange(0, i));
    assert(pre.last() == ls[i]);
    if player_records(ls).is_some() {
        lemma_records_prefix(ls, i + 1);
        let all = player_records(ls).unwrap();
        let p = player_records(pre).unwrap();
        assert(p == rs.push(f));
        assert(all[k] == p[k] && all[rs.len() as int] == p[rs.len() as int]);
        assert(rank_of(all[k]) == rank_of(all[rs.len() as int]));
    }
}


/// Writes a player record in the layout of its number of round blocks.
pub fn write_player_line(fs: &Vec<Field>) -> (r: Result<Vec<u8>, FormatError>)
    ensures
        r.is_ok() <==> fs@.len() >= 10 && (fs@.len() - 10) % 4 == 0 && fields_fit(
            fields_view(fs@),
            player_columns(record_rounds(fields_view(fs@))),
        ),
        r.is_err() ==> r == Err::<Vec<u8>, FormatError>(FormatError::DoesNotFit),
        r matches Ok(line) ==> line@ == line_text(
            fields_view(fs@),
            player_columns(record_rounds(fields_view(fs@))),
        ),
{
    if fs.len() < 10 || (fs.len() - 10) % 4 != 0 {
        return Err(FormatError::DoesNotFit);
    }
    let cols = player_layout((fs.len() - 10) / 4);
    write_line(fs, &cols)
}

/// Each record of `player_records(ls)` is what some player line of `ls`
/// reads as.
proof fn lemma_record_source(ls: Seq<Seq<u8>>, k: int)
    requires
        player_records(ls).is_some(),
        0 <= k < player_records(ls).unwrap().len(),
    ensures
        exists|j: int|
            0 <= j < ls.len() && read_player(#[trigger] ls[j]) == Some(player_records(ls).unwrap()[k]),
    decreases ls.len(),
{
    let l0 = ls.drop_last();
    let rs0 = player_records(l0).unwrap();
    assert(ls[ls.len() - 1] == ls.last());
    if k < rs0.len() {
        lemma_record_source(l0, k);
        let j = choose|j: int| 0 <= j < l0.len() && read_player(#[trigger] l0[j]) == Some(rs0[k]);
        assert(ls[j] == l0[j]);
    }
}

/// Round trip of a report: every player record read from a text, written
/// again in its layout, reads back as the same record.
pub proof fn lemma_report_round_trip(text: Seq<u8>, k: int)
    requires
        player_records(lines_of(text)).is_some(),
        0 <= k < player_records(lines_of(text)).unwrap().len(),
    ensures
        ({
            let rec = player_records(lines_of(text)).unwrap()[k];
            let cols = player_columns(record_rounds(rec));
            fields_fit(rec, cols) && read_line(line_text(rec, cols), cols) == Some(rec)
        }),
{
    let ls = lines_of(text);
    let rec = player_records(ls).unwrap()[k];
    lemma_record_source(ls, k);
    let j = choose|j: int| 0 <= j < ls.len() && read_player(#[trigger] ls[j]) == Some(rec);
    let line = ls[j];
    let n = rounds_in(line);
    lemma_player_columns_ok(n);
    crate::codec::lemma_read_line_fits(line, player_columns(n));
    assert(record_rounds(rec) == n);
    crate::codec::lemma_reread(line, player_columns(n));
}

} // verus!
