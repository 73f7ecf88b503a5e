//! A federation rating list: federation id to rating, title and federation.
use vstd::prelude::*;
use crate::codec::{read_line, read_line_exec, Column, Field, FieldView};
use crate::import::{text_of_bytes, title_exec, title_of, utf8_text};
use crate::player::{Player, Title};
use crate::report::{lines_of, split_lines};
use crate::tournament::Tour;

verus! {

#[derive(Clone, Debug)]
pub struct RatingRecord {
    pub id: u64,
    pub rating: u32,
    pub title: Option<Title>,
    pub federation: String,
}

/// Why a rating list was not taken.
#[derive(Clone, Copy, Debug, PartialEq, Eq, Structural)]
pub enum CatalogError {
    /// The list could not be fetched.
    FetchError,
    /// Two records share one federation id.
    DuplicateId,
    /// The line with this index (counted from 0) of a payload is malformed.
    ParseError(usize),
}

/// A loaded rating list, read-only once built. `last_updated` is the time of
/// the fetch in seconds since the Unix epoch.
pub struct RatingListRust {
    pub entries: Vec<RatingRecord>,
    pub url: String,
    pub last_updated: u64,
}

pub open spec fn ids_unique(s: Seq<RatingRecord>) -> bool {
    forall|i: int, j: int| 0 <= i < j < s.len() ==> (#[trigger] s[i]).id != (#[trigger] s[j]).id
}

/// The record of `id` in `s`, if any.
pub open spec fn record_of(s: Seq<RatingRecord>, id: u64) -> Option<RatingRecord>
    decreases s.len(),
{
    if s.len() == 0 {
        None
    } else if s.last().id == id {
        Some(s.last())
    } else {
        record_of(s.drop_last(), id)
    }
}

/// The player after enrichment: a rating entered by hand wins; the list
/// fills only an unset rating, and then an unset title too.
pub open spec fn enriched(p: Player, s: Seq<RatingRecord>) -> Player {
    if p.rating == 0 && p.player_id != 0 {
        match record_of(s, p.player_id) {
            Some(r) => Player {
                rating: r.rating,
                title: if p.title.is_none() {
                    r.title
                } else {
                    p.title
                },
                ..p
            },
            None => p,
        }
    } else {
        p
    }
}

proof fn lemma_record_of_none(s: Seq<RatingRecord>, id: u64)
    requires
        forall|i: int| 0 <= i < s.len() ==> (#[trigger] s[i]).id != id,
    ensures
        record_of(s, id).is_none(),
    decreases s.len(),
{
    if s.len() > 0 {
        assert(s[s.len() - 1] == s.last());
        lemma_record_of_none(s.drop_last(), id);
    }
}

/// The rating list type as the rest of the library names it.
pub type RatingList = RatingListRust;

/// Layout of a line of a rating-list payload: federation id, rating, title,
/// federation.
pub open spec fn catalog_columns() -> Seq<Column> {
    seq![
        Column { width: 11, numeric: true },
        Column { width: 4, numeric: true },
        Column { width: 3, numeric: false },
        Column { width: 3, numeric: false },
    ]
}

/// The fields of the non-empty lines of a payload; none when one of them
/// cannot be read.
pub open spec fn catalog_lines(ls: Seq<Seq<u8>>) -> Option<Seq<Seq<FieldView>>>
    decreases ls.len(),
{
    if ls.len() == 0 {
        Some(Seq::empty())
    } else {
        match catalog_lines(ls.drop_last()) {
            None => None,
            Some(rs) => if ls.last().len() == 0 {
                Some(rs)
            } else {
                match read_line(ls.last(), catalog_columns()) {
                    Some(f) => Some(rs.push(f)),
                    None => None,
                }
            },
        }
    }
}

/// Record `r` is what fields `fs` say.
pub open spec fn entry_matches(fs: Seq<FieldView>, r: RatingRecord) -> bool {
    &&& fs.len() == 4
    &&& fs[0] == FieldView::Num(r.id as nat)
    &&& fs[1] == FieldView::Num(r.rating as nat)
    &&& fs[2] matches FieldView::Text(t) && r.title == title_of(t)
    &&& fs[3] matches FieldView::Text(f) && r.federation@ == utf8_text(f)
}

fn entry_of(fs: &Vec<Field>) -> (r: RatingRecord)
    requires
        crate::codec::fields_fit(crate::codec::fields_view(fs@), catalog_columns()),
    ensures
        entry_matches(crate::codec::fields_view(fs@), r),
{
    let ghost fv = crate::codec::fields_view(fs@);
    assert(fv[0] == fs@[0]@ && fv[1] == fs@[1]@ && fv[2] == fs@[2]@ && fv[3] == fs@[3]@);
    assert(crate::codec::field_fits(fv[0], catalog_columns()[0]));
    assert(crate::codec::field_fits(fv[1], catalog_columns()[1]));
    assert(crate::codec::field_fits(fv[2], catalog_columns()[2]));
    assert(crate::codec::field_fits(fv[3], catalog_columns()[3]));
    let id = match &fs[0] {
        Field::Num(n) => *n,
        Field::Text(_) => 0,
    };
    let rating = match &fs[1] {
        Field::Num(n) => *n,
        Field::Text(_) => 0,
    };
    proof {
        crate::codec::lemma_digits_bound(rating as nat, 4);
        assert(crate::codec::pow10(0) == 1);
        assert(crate::codec::pow10(1) == 10);
        assert(crate::codec::pow10(2) == 100);
        assert(crate::codec::pow10(3) == 1000);
        assert(crate::codec::pow10(4) == 10000);
    }
    let title = match &fs[2] {
        Field::Text(t) => title_exec(t),
        Field::Num(_) => None,
    };
    let federation = match &fs[3] {
        Field::Text(t) => text_of_bytes(t),
        Field::Num(_) => String::new(),
    };
    RatingRecord { id, rating: rating as u32, title, federation }
}

/// The federation ids of the records are all different.
pub open spec fn catalog_ids_unique(rs: Seq<Seq<FieldView>>) -> bool {
    forall|i: int, j: int| 0 <= i < j < rs.len() ==> (#[trigger] rs[i])[0] != (#[trigger] rs[j])[0]
}

/// Every record read from a payload fits the catalog layout.
proof fn lemma_catalog_fits(ls: Seq<Seq<u8>>)
    requires
        catalog_lines(ls).is_some(),
    ensures
        forall|k: int|
            0 <= k < catalog_lines(ls).unwrap().len() ==> crate::codec::fields_fit(
                #[trigger] catalog_lines(ls).unwrap()[k],
                catalog_columns(),
            ),
    decreases ls.len(),
{
    if ls.len() > 0 {
        lemma_catalog_fits(ls.drop_last());
        if ls.last().len() > 0 {
            lemma_catalog_layout_ok();
            crate::codec::lemma_read_line_fits(ls.last(), catalog_columns());
        }
        let all = catalog_lines(ls).unwrap();
        let pre = catalog_lines(ls.drop_last()).unwrap();
        assert forall|k: int| 0 <= k < all.len() implies crate::codec::fields_fit(
            #[trigger] all[k],
            catalog_columns(),
        ) by {
            if k < pre.len() {
                assert(all[k] == pre[k]);
            }
        }
    }
}

proof fn lemma_catalog_layout_ok()
    ensures
        crate::codec::layout_ok(catalog_columns()),
{
    let c = catalog_columns();
    assert forall|i: int| 0 <= i < c.len() implies (#[trigger] c[i]).numeric ==> c[i].width >= 1 by {}
}

impl RatingList {
    /// Loads a rating list from a fetched payload: one record per non-empty
    /// line, in the columns of `catalog_columns`.
    pub fn import_list(payload: &Vec<u8>, url: String, last_updated: u64) -> (r: Result<
        RatingListRust,
        CatalogError,
    >)
        ensures
            r.is_ok() <==> (catalog_lines(lines_of(payload@)) matches Some(rs)
                && catalog_ids_unique(rs)),
            (r == Err::<RatingListRust, CatalogError>(CatalogError::DuplicateId)) <==> (
            catalog_lines(lines_of(payload@)) matches Some(rs) && !catalog_ids_unique(rs)),
            catalog_lines(lines_of(payload@)).is_none() <==> r matches Err(
                CatalogError::ParseError(_),
            ),
            r matches Err(CatalogError::ParseError(i)) ==> i < lines_of(payload@).len(),
            r matches Ok(l) ==> {
                &&& l.wf()
                &&& l.url@ == url@
                &&& l.last_updated == last_updated
                &&& catalog_lines(lines_of(payload@)) matches Some(rs) && rs.len() == l@.len()
                    && forall|k: int| 0 <= k < rs.len() ==> entry_matches(#[trigger] rs[k], l@[k])
            },
    {
        let lines = split_lines(payload);
        let ghost ls = lines_of(payload@);
        let cols: Vec<Column> = vec![
            Column { width: 11, numeric: true },
            Column { width: 4, numeric: true },
            Column { width: 3, numeric: false },
            Column { width: 3, numeric: false },
        ];
        assert(cols@ =~= catalog_columns());
        let mut records: Vec<RatingRecord> = Vec::new();
        let ghost mut rs: Seq<Seq<FieldView>> = Seq::empty();
        let mut i: usize = 0;
        while i < lines.len()
            invariant
                ls == lines_of(payload@),
                ls == crate::report::lines_view(lines@),
                cols@ == catalog_columns(),
                i <= lines@.len(),
                catalog_lines(ls.subrange(0, i as int)) == Some(rs),
                rs.len() == records@.len(),
                forall|k: int| 0 <= k < rs.len() ==> entry_matches(#[trigger] rs[k], records@[k]),
            decreases lines@.len() - i,
        {
            let ghost pre = ls.subrange(0, i + 1);
            assert(pre.drop_last() =~= ls.subrange(0, i as int));
            assert(ls[i as int] == lines@[i as int]@);
            if lines[i].len() > 0 {
                match read_line_exec(&lines[i], &cols) {
                    Ok(fs) => {
                        proof {
                            lemma_catalog_layout_ok();
                            crate::codec::lemma_read_line_fits(lines@[i as int]@, catalog_columns());
                        }
                        let e = entry_of(&fs);
                        proof {
                            rs = rs.push(crate::codec::fields_view(fs@));
                        }
                        records.push(e);
                    },
                    Err(_) => {
                        proof {
                            lemma_catalog_fail(ls, i as int);
                        }
                        return Err(CatalogError::ParseError(i));
                    },
                }
            }
            i = i + 1;
        }
        assert(ls.subrange(0, ls.len() as int) =~= ls);
        assert(ids_unique(records@) <==> catalog_ids_unique(rs)) by {
            if !catalog_ids_unique(rs) {
                let (a, b) = choose|a: int, b: int| 0 <= a < b < rs.len() && (#[trigger] rs[a])[0] == (#[trigger] rs[b])[0];
                assert(records@[a].id == records@[b].id);
            }
            if !ids_unique(records@) {
                let (a, b) = choose|a: int, b: int| 0 <= a < b < records@.len() && (#[trigger] records@[a]).id == (#[trigger] records@[b]).id;
                assert(entry_matches(rs[a], records@[a]) && entry_matches(rs[b], records@[b]));
                assert(rs[a][0] == rs[b][0]);
            }
        }
        RatingListRust::from_records(records, url, last_updated)
    }
}

proof fn lemma_catalog_fail(ls: Seq<Seq<u8>>, i: int)
    requires
        0 <= i < ls.len(),
        catalog_lines(ls.subrange(0, i + 1)).is_none(),
    ensures
        catalog_lines(ls).is_none(),
    decreases ls.len() - i,
{
    if i + 1 < ls.len() {
        assert(ls.subrange(0, i + 2).drop_last() =~= ls.subrange(0, i + 1));
        lemma_catalog_fail(ls, i + 1);
    } else {
        assert(ls.subrange(0, i + 1) =~= ls);
    }
}

impl RatingListRust {
    pub open spec fn view(&self) -> Seq<RatingRecord> {
        self.entries@
    }

    pub open spec fn wf(&self) -> bool {
        ids_unique(self.entries@)
    }

    /// Builds the list from parsed records; refused when two share an id.
    pub fn from_records(records: Vec<RatingRecord>, url: String, last_updated: u64) -> (r: Result<
        RatingListRust,
        CatalogError,
    >)
        ensures
            r.is_ok() <==> ids_unique(records@),
            r.is_err() ==> r == Err::<RatingListRust, CatalogError>(CatalogError::DuplicateId),
            r matches Ok(l) ==> l.wf() && l@ == records@ && l.last_updated == last_updated
                && l.url@ == url@,
    {
        let n = records.len();
        let mut i: usize = 0;
        while i < n
            invariant
                n == records@.len(),
                i <= n,
                forall|a: int, b: int|
                    0 <= a < b < n && a < i ==> (#[trigger] records@[a]).id != (
                    #[trigger] records@[b]).id,
            decreases n - i,
        {
            let mut j: usize = i + 1;
            while j < n
                invariant
                    n == records@.len(),
                    i < j <= n,
                    forall|a: int, b: int|
                        0 <= a < b < n && a < i ==> (#[trigger] records@[a]).id != (
                        #[trigger] records@[b]).id,
                    forall|b: int| i < b < j ==> records@[i as int].id != (#[trigger] records@[b]).id,
                decreases n - j,
            {
                if records[i].id == records[j].id {
                    return Err(CatalogError::DuplicateId);
                }
                j = j + 1;
            }
            i = i + 1;
        }
        Ok(RatingListRust { entries: records, url, last_updated })
    }

    pub fn len(&self) -> (r: usize)
        ensures
            r == self@.len(),
    {
        self.entries.len()
    }

    /// The record of a federation id.
    pub fn lookup(&self, id: u64) -> (r: Option<&RatingRecord>)
        requires
            self.wf(),
        ensures
            r matches Some(rec) ==> record_of(self@, id) == Some(*rec),
            r.is_none() ==> record_of(self@, id).is_none(),
            r.is_some() <==> exists|i: int| 0 <= i < self@.len() && (#[trigger] self@[i]).id == id,
    {
        let mut k: usize = self.entries.len();
        assert(self.entries@.subrange(0, k as int) =~= self.entries@);
        while k > 0
            invariant
                k <= self.entries@.len(),
                record_of(self.entries@, id) == record_of(self.entries@.subrange(0, k as int), id),
                forall|i: int| k <= i < self.entries@.len() ==> (#[trigger] self.entries@[i]).id != id,
            decreases k,
        {
            let ghost pre = self.entries@.subrange(0, k as int);
            assert(pre.drop_last() =~= self.entries@.subrange(0, k - 1));
            if self.entries[k - 1].id == id {
                return Some(&self.entries[k - 1]);
            }
            k = k - 1;
        }
        proof {
            lemma_record_of_none(self.entries@, id);
        }
        None
    }

    /// Takes the outcome of a fetch: a new list replaces this one whole; a
    /// failed fetch leaves it as it was.
    pub fn apply_fetch(&mut self, fetched: Result<RatingListRust, CatalogError>) -> (r: Result<
        (),
        CatalogError,
    >)
        ensures
            match fetched {
                Ok(l) => r == Ok::<(), CatalogError>(()) && *final(self) == l,
                Err(e) => r == Err::<(), CatalogError>(e) && *final(self) == *old(self),
            },
    {
        match fetched {
            Ok(l) => {
                *self = l;
                Ok(())
            },
            Err(e) => Err(e),
        }
    }
}

impl Tour {
    /// Fills each unrated player's rating, and an unset title, from the list.
    pub fn enrich_ratings(&mut self, list: &RatingListRust)
        requires
            old(self).wf(),
            list.wf(),
        ensures
            final(self).wf(),
            final(self).rounds == old(self).rounds,
            final(self).total_rounds == old(self).total_rounds,
            final(self).players@.len() == old(self).players@.len(),
            forall|i: int|
                0 <= i < final(self).players@.len() ==> #[trigger] final(self).players@[i]
                    == enriched(old(self).players@[i], list@),
    {
        let n = self.players.len();
        let mut i: usize = 0;
        while i < n
            invariant
                n == self.players@.len(),
                n == old(self).players@.len(),
                i <= n,
                list.wf(),
                self.rounds == old(self).rounds,
                self.total_rounds == old(self).total_rounds,
                forall|j: int| 0 <= j < i ==> #[trigger] self.players@[j] == enriched(
                    old(self).players@[j],
                    list@,
                ),
                forall|j: int| i <= j < n ==> #[trigger] self.players@[j] == old(self).players@[j],
            decreases n - i,
        {
            if self.players[i].rating == 0 && self.players[i].player_id != 0 {
                match list.lookup(self.players[i].player_id) {
                    Some(rec) => {
                        self.players[i].rating = rec.rating;
                        if self.players[i].title.is_none() {
                            self.players[i].title = rec.title;
                        }
                    },
                    None => {},
                }
            }
            i = i + 1;
        }
        assert forall|j: int| 0 <= j < n implies (#[trigger] self.players@[j]).starting_rank == j
            + 1 by {
            assert(old(self).players@[j].starting_rank == j + 1);
        }
    }
}

} // verus!
