//! The fixed-column line codec of the tournament-report format.
//!
//! A line is a sequence of fields, each in a column of fixed width, with one
//! space between columns. A numeric field is right-aligned and padded with
//! spaces on the left; a text field is left-aligned and padded with spaces on
//! the right. Reading a text field drops the padding.
use vstd::prelude::*;

verus! {

pub const SPACE: u8 = 32;

/// A column of a line layout.
#[derive(Clone, Copy, Debug, PartialEq, Eq, Structural)]
pub struct Column {
    pub width: usize,
    pub numeric: bool,
}

/// The value of one field.
#[derive(Clone, Debug)]
pub enum Field {
    Num(u64),
    Text(Vec<u8>),
}

/// A field as a mathematical value.
pub enum FieldView {
    Num(nat),
    Text(Seq<u8>),
}

impl Field {
    pub open spec fn view(&self) -> FieldView {
        match self {
            Field::Num(n) => FieldView::Num(*n as nat),
            Field::Text(t) => FieldView::Text(t@),
        }
    }
}

pub open spec fn fields_view(fs: Seq<Field>) -> Seq<FieldView> {
    fs.map_values(|f: Field| f.view())
}

/// Why a line could not be read.
#[derive(Clone, Copy, Debug, PartialEq, Eq, Structural)]
pub enum FormatError {
    /// The line is shorter than its layout.
    TooShort,
    /// A numeric field holds something other than digits and spaces, or a
    /// number too large.
    BadNumber,
    /// A field does not fit its column, or has the wrong kind.
    DoesNotFit,
}

pub open spec fn is_digit(c: u8) -> bool {
    48 <= c <= 57
}

pub open spec fn spaces(k: nat) -> Seq<u8> {
    Seq::new(k, |i: int| SPACE)
}

/// Decimal digits of `n`, without leading zeros.
pub open spec fn digits(n: nat) -> Seq<u8>
    decreases n,
{
    if n < 10 {
        seq![(48 + n) as u8]
    } else {
        digits(n / 10).push((48 + n % 10) as u8)
    }
}

/// The number written in `s`: its digits in order, spaces skipped.
pub open spec fn num_value(s: Seq<u8>) -> nat
    decreases s.len(),
{
    if s.len() == 0 {
        0
    } else if s.last() == SPACE {
        num_value(s.drop_last())
    } else {
        num_value(s.drop_last()) * 10 + (s.last() - 48) as nat
    }
}

pub open spec fn num_chars_ok(s: Seq<u8>) -> bool {
    forall|i: int| 0 <= i < s.len() ==> (#[trigger] s[i]) == SPACE || is_digit(s[i])
}

/// `s` without the spaces at its end.
pub open spec fn trim_end(s: Seq<u8>) -> Seq<u8>
    decreases s.len(),
{
    if s.len() > 0 && s.last() == SPACE {
        trim_end(s.drop_last())
    } else {
        s
    }
}

/// The text of a field in a column.
pub open spec fn field_text(f: FieldView, c: Column) -> Seq<u8> {
    match f {
        FieldView::Num(n) => spaces((c.width - digits(n).len()) as nat) + digits(n),
        FieldView::Text(t) => t + spaces((c.width - t.len()) as nat),
    }
}

/// What a column of text reads as.
pub open spec fn read_field(s: Seq<u8>, c: Column) -> Option<FieldView> {
    if c.numeric {
        if num_chars_ok(s) && num_value(s) <= u64::MAX {
            Some(FieldView::Num(num_value(s)))
        } else {
            None
        }
    } else {
        Some(FieldView::Text(trim_end(s)))
    }
}

/// `f` can be written in column `c` and read back.
pub open spec fn field_fits(f: FieldView, c: Column) -> bool {
    match f {
        FieldView::Num(n) => c.numeric && n <= u64::MAX && digits(n).len() <= c.width,
        FieldView::Text(t) => !c.numeric && t.len() <= c.width && (t.len() == 0 || t.last()
            != SPACE),
    }
}

pub open spec fn sep(cols: Seq<Column>) -> nat {
    if cols.len() > 1 {
        1
    } else {
        0
    }
}

/// Length of a line of layout `cols`.
pub open spec fn layout_len(cols: Seq<Column>) -> nat
    decreases cols.len(),
{
    if cols.len() == 0 {
        0
    } else {
        layout_len(cols.drop_last()) + sep(cols) + cols.last().width as nat
    }
}

/// The line that writes fields `fs` in layout `cols`.
pub open spec fn line_text(fs: Seq<FieldView>, cols: Seq<Column>) -> Seq<u8>
    decreases cols.len(),
{
    if cols.len() == 0 || fs.len() == 0 {
        Seq::empty()
    } else {
        line_text(fs.drop_last(), cols.drop_last()) + spaces(sep(cols)) + field_text(
            fs.last(),
            cols.last(),
        )
    }
}

/// The fields a line reads as in layout `cols`; none when it is too short or
/// a numeric field is not a number.
pub open spec fn read_line(line: Seq<u8>, cols: Seq<Column>) -> Option<Seq<FieldView>>
    decreases cols.len(),
{
    if cols.len() == 0 {
        Some(Seq::empty())
    } else {
        match read_line(line, cols.drop_last()) {
            None => None,
            Some(fs) => {
                let start = layout_len(cols.drop_last()) + sep(cols);
                let end = start + cols.last().width;
                if end > line.len() {
                    None
                } else {
                    match read_field(line.subrange(start as int, end as int), cols.last()) {
                        Some(f) => Some(fs.push(f)),
                        None => None,
                    }
                }
            },
        }
    }
}

pub open spec fn fields_fit(fs: Seq<FieldView>, cols: Seq<Column>) -> bool {
    fs.len() == cols.len() && forall|i: int| 0 <= i < fs.len() ==> field_fits(#[trigger] fs[i], cols[i])
}

proof fn lemma_num_value_digits(n: nat)
    ensures
        num_value(digits(n)) == n,
        digits(n).len() >= 1,
        num_chars_ok(digits(n)),
        digits(n).last() != SPACE,
    decreases n,
{
    if n >= 10 {
        lemma_num_value_digits(n / 10);
        let d = digits(n);
        assert(d.drop_last() =~= digits(n / 10));
        assert(d.last() == (48 + n % 10) as u8);
        assert(num_value(d) == num_value(digits(n / 10)) * 10 + n % 10);
        assert((n / 10) * 10 + n % 10 == n);
        assert forall|i: int| 0 <= i < d.len() implies (#[trigger] d[i]) == SPACE || is_digit(d[i]) by {
            if i < d.len() - 1 {
                assert(d[i] == digits(n / 10)[i]);
            }
        }
    } else {
        let d = digits(n);
        assert(d.drop_last() =~= Seq::<u8>::empty());
        assert(d.last() == (48 + n) as u8);
        assert(num_value(d) == num_value(Seq::<u8>::empty()) * 10 + n);
    }
}

proof fn lemma_num_value_spaces(k: nat, x: Seq<u8>)
    ensures
        num_value(spaces(k) + x) == num_value(x),
    decreases x.len(), k,
{
    if x.len() == 0 {
        assert(spaces(k) + x =~= spaces(k));
        if k > 0 {
            assert(spaces(k).drop_last() =~= spaces((k - 1) as nat));
            lemma_num_value_spaces((k - 1) as nat, x);
            assert(spaces((k - 1) as nat) + x =~= spaces((k - 1) as nat));
        }
    } else {
        assert((spaces(k) + x).drop_last() =~= spaces(k) + x.drop_last());
        lemma_num_value_spaces(k, x.drop_last());
    }
}

proof fn lemma_trim_padding(t: Seq<u8>, k: nat)
    requires
        t.len() == 0 || t.last() != SPACE,
    ensures
        trim_end(t + spaces(k)) == t,
    decreases k,
{
    if k == 0 {
        assert(t + spaces(0) =~= t);
        if t.len() > 0 {
        }
    } else {
        assert((t + spaces(k)).drop_last() =~= t + spaces((k - 1) as nat));
        lemma_trim_padding(t, (k - 1) as nat);
    }
}

/// A field that fits its column reads back as itself.
pub proof fn lemma_field_round_trip(f: FieldView, c: Column)
    requires
        field_fits(f, c),
    ensures
        field_text(f, c).len() == c.width,
        read_field(field_text(f, c), c) == Some(f),
{
    match f {
        FieldView::Num(n) => {
            lemma_num_value_digits(n);
            let k = (c.width - digits(n).len()) as nat;
            lemma_num_value_spaces(k, digits(n));
            let s = spaces(k) + digits(n);
            assert forall|i: int| 0 <= i < s.len() implies (#[trigger] s[i]) == SPACE || is_digit(
                s[i],
            ) by {
                if i >= k {
                    assert(s[i] == digits(n)[i - k]);
                }
            }
        },
        FieldView::Text(t) => {
            lemma_trim_padding(t, (c.width - t.len()) as nat);
        },
    }
}

proof fn lemma_line_len(fs: Seq<FieldView>, cols: Seq<Column>)
    requires
        fields_fit(fs, cols),
    ensures
        line_text(fs, cols).len() == layout_len(cols),
    decreases cols.len(),
{
    if cols.len() > 0 {
        lemma_line_len(fs.drop_last(), cols.drop_last());
        lemma_field_round_trip(fs.last(), cols.last());
        assert(fs[fs.len() - 1] == fs.last());
    }
}

/// Fields that fit their layout are read back from the line that writes
/// them, whatever follows the line.
pub proof fn lemma_line_round_trip(fs: Seq<FieldView>, cols: Seq<Column>, rest: Seq<u8>)
    requires
        fields_fit(fs, cols),
    ensures
        read_line(line_text(fs, cols) + rest, cols) == Some(fs),
    decreases cols.len(),
{
    if cols.len() == 0 {
        assert(fs =~= Seq::<FieldView>::empty());
    } else {
        let fs0 = fs.drop_last();
        let c0 = cols.drop_last();
        assert(fs[fs.len() - 1] == fs.last());
        assert(fields_fit(fs0, c0)) by {
            assert forall|i: int| 0 <= i < fs0.len() implies field_fits(#[trigger] fs0[i], c0[i]) by {
                assert(fs0[i] == fs[i] && c0[i] == cols[i]);
            }
        }
        let head = line_text(fs0, c0);
        let tail = spaces(sep(cols)) + field_text(fs.last(), cols.last());
        assert(line_text(fs, cols) + rest =~= head + (tail + rest));
        lemma_line_round_trip(fs0, c0, tail + rest);
        lemma_line_len(fs0, c0);
        lemma_field_round_trip(fs.last(), cols.last());
        let start = layout_len(c0) + sep(cols);
        let end = start + cols.last().width;
        assert((line_text(fs, cols) + rest).subrange(start as int, end as int) =~= field_text(
            fs.last(),
            cols.last(),
        ));
        assert(fs0.push(fs.last()) =~= fs);
    }
}


proof fn lemma_num_value_prefix(s: Seq<u8>, k: int)
    requires
        0 <= k <= s.len(),
    ensures
        num_value(s) >= num_value(s.subrange(0, k)),
    decreases s.len() - k,
{
    if k < s.len() {
        lemma_num_value_prefix(s, k + 1);
        assert(s.subrange(0, k + 1).drop_last() =~= s.subrange(0, k));
    } else {
        assert(s.subrange(0, k) =~= s);
    }
}

proof fn lemma_trim_end_at(s: Seq<u8>, k: int)
    requires
        0 <= k <= s.len(),
        forall|i: int| k <= i < s.len() ==> s[i] == SPACE,
        k == 0 || s[k - 1] != SPACE,
    ensures
        trim_end(s) == s.subrange(0, k),
    decreases s.len() - k,
{
    if k < s.len() {
        let t = s.drop_last();
        assert forall|i: int| k <= i < t.len() implies t[i] == SPACE by {}
        if k > 0 {
            assert(t[k - 1] == s[k - 1]);
        }
        lemma_trim_end_at(t, k);
        assert(t.subrange(0, k) =~= s.subrange(0, k));
    } else {
        assert(s.subrange(0, k) =~= s);
    }
}

/// Appends the decimal digits of `n`.
pub(crate) fn write_digits(out: &mut Vec<u8>, n: u64)
    ensures
        final(out)@ == old(out)@ + digits(n as nat),
    decreases n,
{
    if n < 10 {
        out.push(48 + n as u8);
        assert(old(out)@.push((48 + n) as u8) =~= old(out)@ + digits(n as nat));
    } else {
        write_digits(out, n / 10);
        out.push(48 + (n % 10) as u8);
        assert(old(out)@ + digits(n as nat) =~= (old(out)@ + digits((n / 10) as nat)).push(
            (48 + n % 10) as u8,
        ));
    }
}

fn push_spaces(out: &mut Vec<u8>, k: usize)
    ensures
        final(out)@ == old(out)@ + spaces(k as nat),
{
    let mut i: usize = 0;
    while i < k
        invariant
            i <= k,
            out@ == old(out)@ + spaces(i as nat),
        decreases k - i,
    {
        assert((old(out)@ + spaces(i as nat)).push(SPACE) =~= old(out)@ + spaces((i + 1) as nat));
        out.push(SPACE);
        i = i + 1;
    }
}

fn field_fits_exec(f: &Field, c: Column) -> (r: bool)
    ensures
        r == field_fits(f@, c),
{
    match f {
        Field::Num(n) => {
            let mut d: Vec<u8> = Vec::new();
            write_digits(&mut d, *n);
            assert(d@ =~= digits(*n as nat));
            c.numeric && d.len() <= c.width
        },
        Field::Text(t) => !c.numeric && t.len() <= c.width && (t.len() == 0 || t[t.len() - 1]
            != SPACE),
    }
}

fn write_field(out: &mut Vec<u8>, f: &Field, c: Column)
    requires
        field_fits(f@, c),
    ensures
        final(out)@ == old(out)@ + field_text(f@, c),
{
    match f {
        Field::Num(n) => {
            let mut d: Vec<u8> = Vec::new();
            write_digits(&mut d, *n);
            assert(d@ =~= digits(*n as nat));
            push_spaces(out, c.width - d.len());
            let ghost o1 = out@;
            let mut i: usize = 0;
            while i < d.len()
                invariant
                    i <= d@.len(),
                    out@ == o1 + d@.subrange(0, i as int),
                decreases d@.len() - i,
            {
                assert((o1 + d@.subrange(0, i as int)).push(d@[i as int]) =~= o1 + d@.subrange(
                    0,
                    i + 1,
                ));
                out.push(d[i]);
                i = i + 1;
            }
            assert(d@.subrange(0, d@.len() as int) =~= d@);
            assert(old(out)@ + field_text(f@, c) =~= o1 + d@);
        },
        Field::Text(t) => {
            let ghost o0 = out@;
            let mut i: usize = 0;
            while i < t.len()
                invariant
                    i <= t@.len(),
                    out@ == o0 + t@.subrange(0, i as int),
                decreases t@.len() - i,
            {
                assert((o0 + t@.subrange(0, i as int)).push(t@[i as int]) =~= o0 + t@.subrange(
                    0,
                    i + 1,
                ));
                out.push(t[i]);
                i = i + 1;
            }
            assert(t@.subrange(0, t@.len() as int) =~= t@);
            push_spaces(out, c.width - t.len());
            assert(old(out)@ + field_text(f@, c) =~= o0 + t@ + spaces((c.width - t@.len()) as nat));
        },
    }
}

/// Writes `fields` in layout `cols`; refused when a field does not fit its
/// column.
pub fn write_line(fields: &Vec<Field>, cols: &Vec<Column>) -> (r: Result<Vec<u8>, FormatError>)
    ensures
        r.is_ok() <==> fields_fit(fields_view(fields@), cols@),
        r.is_err() ==> r == Err::<Vec<u8>, FormatError>(FormatError::DoesNotFit),
        r matches Ok(line) ==> line@ == line_text(fields_view(fields@), cols@),
{
    let ghost fv = fields_view(fields@);
    if fields.len() != cols.len() {
        return Err(FormatError::DoesNotFit);
    }
    let mut i: usize = 0;
    while i < fields.len()
        invariant
            fields@.len() == cols@.len(),
            fv == fields_view(fields@),
            i <= fields@.len(),
            forall|j: int| 0 <= j < i ==> field_fits(#[trigger] fv[j], cols@[j]),
        decreases fields@.len() - i,
    {
        assert(fv[i as int] == fields@[i as int]@);
        if !field_fits_exec(&fields[i], cols[i]) {
            return Err(FormatError::DoesNotFit);
        }
        i = i + 1;
    }
    let mut out: Vec<u8> = Vec::new();
    let mut i: usize = 0;
    while i < fields.len()
        invariant
            fields@.len() == cols@.len(),
            fv == fields_view(fields@),
            fields_fit(fv, cols@),
            i <= fields@.len(),
            out@ == line_text(fv.subrange(0, i as int), cols@.subrange(0, i as int)),
        decreases fields@.len() - i,
    {
        let ghost fs1 = fv.subrange(0, i + 1);
        let ghost cs1 = cols@.subrange(0, i + 1);
        assert(fs1.drop_last() =~= fv.subrange(0, i as int));
        assert(cs1.drop_last() =~= cols@.subrange(0, i as int));
        if i > 0 {
            out.push(SPACE);
        }
        assert(spaces(sep(cs1)) =~= if i > 0 {
            seq![SPACE]
        } else {
            Seq::<u8>::empty()
        });
        assert(fv[i as int] == fields@[i as int]@);
        write_field(&mut out, &fields[i], cols[i]);
        assert(out@ =~= line_text(fs1, cs1));
        i = i + 1;
    }
    assert(fv.subrange(0, fv.len() as int) =~= fv);
    assert(cols@.subrange(0, cols@.len() as int) =~= cols@);
    Ok(out)
}

pub(crate) fn read_num(s: &Vec<u8>, start: usize, end: usize) -> (r: Option<u64>)
    requires
        start <= end <= s@.len(),
    ensures
        r == (if num_chars_ok(s@.subrange(start as int, end as int)) && num_value(
            s@.subrange(start as int, end as int),
        ) <= u64::MAX {
            Some(num_value(s@.subrange(start as int, end as int)) as u64)
        } else {
            None::<u64>
        }),
{
    let ghost full = s@.subrange(start as int, end as int);
    let mut v: u64 = 0;
    let mut i: usize = start;
    while i < end
        invariant
            start <= i <= end <= s@.len(),
            full == s@.subrange(start as int, end as int),
            v == num_value(full.subrange(0, i - start)),
            num_chars_ok(full.subrange(0, i - start)),
        decreases end - i,
    {
        let ghost pre = full.subrange(0, i - start + 1);
        assert(pre.drop_last() =~= full.subrange(0, i - start));
        assert(pre.last() == s@[i as int]);
        let c = s[i];
        if c == SPACE {
        } else if 48 <= c && c <= 57 {
            let d = (c - 48) as u64;
            if v > (u64::MAX - d) / 10 {
                proof {
                    lemma_num_value_prefix(full, i - start + 1);
                }
                return None;
            }
            v = v * 10 + d;
        } else {
            assert(!num_chars_ok(full)) by {
                assert(full[i - start] == c);
            }
            return None;
        }
        assert forall|j: int| 0 <= j < pre.len() implies (#[trigger] pre[j]) == SPACE || is_digit(
            pre[j],
        ) by {
            if j < pre.len() - 1 {
                assert(pre[j] == full.subrange(0, i - start)[j]);
            }
        }
        i = i + 1;
    }
    assert(full.subrange(0, end - start) =~= full);
    Some(v)
}

fn read_text(s: &Vec<u8>, start: usize, end: usize) -> (r: Vec<u8>)
    requires
        start <= end <= s@.len(),
    ensures
        r@ == trim_end(s@.subrange(start as int, end as int)),
{
    let ghost full = s@.subrange(start as int, end as int);
    let mut k: usize = end;
    while k > start && s[k - 1] == SPACE
        invariant
            start <= k <= end <= s@.len(),
            full == s@.subrange(start as int, end as int),
            forall|i: int| k - start <= i < full.len() ==> full[i] == SPACE,
        decreases k,
    {
        k = k - 1;
    }
    proof {
        lemma_trim_end_at(full, k - start);
    }
    let mut out: Vec<u8> = Vec::new();
    let mut i: usize = start;
    while i < k
        invariant
            start <= i <= k <= end <= s@.len(),
            full == s@.subrange(start as int, end as int),
            out@ == full.subrange(0, i - start),
        decreases k - i,
    {
        assert(out@.push(s@[i as int]) =~= full.subrange(0, i - start + 1));
        out.push(s[i]);
        i = i + 1;
    }
    out
}

/// Reads a line in layout `cols`; what follows the layout is ignored.
pub fn read_line_exec(line: &Vec<u8>, cols: &Vec<Column>) -> (r: Result<Vec<Field>, FormatError>)
    ensures
        r.is_ok() <==> read_line(line@, cols@).is_some(),
        r matches Ok(fs) ==> read_line(line@, cols@) == Some(fields_view(fs@)),
{
    let mut fs: Vec<Field> = Vec::new();
    let mut off: usize = 0;
    let mut i: usize = 0;
    while i < cols.len()
        invariant
            i <= cols@.len(),
            read_line(line@, cols@.subrange(0, i as int)) == Some(fields_view(fs@)),
            off == layout_len(cols@.subrange(0, i as int)),
            off <= line@.len(),
        decreases cols@.len() - i,
    {
        let ghost c1 = cols@.subrange(0, i + 1);
        assert(c1.drop_last() =~= cols@.subrange(0, i as int));
        let c = cols[i];
        let start = if i > 0 {
            if off >= line.len() {
                proof {
                    lemma_read_line_fails_after(line@, cols@, i + 1);
                }
                return Err(FormatError::TooShort);
            }
            off + 1
        } else {
            off
        };
        if start > line.len() || c.width > line.len() - start {
            proof {
                lemma_read_line_fails_after(line@, cols@, i + 1);
            }
            return Err(FormatError::TooShort);
        }
        let end = start + c.width;
        if c.numeric {
            match read_num(line, start, end) {
                Some(v) => {
                    fs.push(Field::Num(v));
                },
                None => {
                    proof {
                        lemma_read_line_fails_after(line@, cols@, i + 1);
                    }
                    return Err(FormatError::BadNumber);
                },
            }
        } else {
            let t = read_text(line, start, end);
            fs.push(Field::Text(t));
        }
        assert(fields_view(fs@) =~= fields_view(fs@.drop_last()).push(fs@.last()@));
        off = end;
        i = i + 1;
    }
    assert(cols@.subrange(0, cols@.len() as int) =~= cols@);
    Ok(fs)
}

/// Once a prefix of the layout fails to read, the whole layout does.
proof fn lemma_read_line_fails_after(line: Seq<u8>, cols: Seq<Column>, k: int)
    requires
        0 <= k <= cols.len(),
        read_line(line, cols.subrange(0, k)).is_none(),
    ensures
        read_line(line, cols).is_none(),
    decreases cols.len() - k,
{
    if k < cols.len() {
        assert(cols.subrange(0, k + 1).drop_last() =~= cols.subrange(0, k));
        lemma_read_line_fails_after(line, cols, k + 1);
    } else {
        assert(cols.subrange(0, k) =~= cols);
    }
}


pub open spec fn pow10(k: nat) -> nat
    decreases k,
{
    if k == 0 {
        1
    } else {
        10 * pow10((k - 1) as nat)
    }
}

proof fn lemma_num_value_bound(s: Seq<u8>)
    requires
        num_chars_ok(s),
    ensures
        num_value(s) < pow10(s.len()),
    decreases s.len(),
{
    if s.len() > 0 {
        let p = s.drop_last();
        assert(num_chars_ok(p)) by {
            assert forall|i: int| 0 <= i < p.len() implies (#[trigger] p[i]) == SPACE || is_digit(p[i]) by {
                assert(p[i] == s[i]);
            }
        }
        lemma_num_value_bound(p);
        assert(s[s.len() - 1] == s.last());
        let v = num_value(p);
        let big = pow10(p.len());
        if s.last() != SPACE {
            let d = (s.last() - 48) as nat;
            assert(d <= 9);
            assert(v * 10 + d < 10 * big) by (nonlinear_arith)
                requires
                    v < big,
                    d <= 9,
            ;
        } else {
            assert(big <= 10 * big);
        }
    }
}

proof fn lemma_digits_len(n: nat, k: nat)
    requires
        n < pow10(k),
        k >= 1,
    ensures
        digits(n).len() <= k,
    decreases n,
{
    if n >= 10 {
        let k1 = (k - 1) as nat;
        if k1 == 0 {
            assert(pow10(1) == 10 * pow10(0));
        }
        assert(n / 10 < pow10(k1));
        lemma_digits_len(n / 10, k1);
    }
}

proof fn lemma_pow10_ge10(k: nat)
    requires
        k >= 1,
    ensures
        pow10(k) >= 10,
    decreases k,
{
    assert(pow10(0) == 1);
    if k > 1 {
        lemma_pow10_ge10((k - 1) as nat);
    }
}

/// A number with at most `k` digits is below `10^k`.
pub proof fn lemma_digits_bound(n: nat, k: nat)
    requires
        digits(n).len() <= k,
    ensures
        n < pow10(k),
    decreases n,
{
    lemma_num_value_digits(n);
    if n < 10 {
        lemma_pow10_ge10(k);
    } else {
        let d = digits(n);
        assert(d.drop_last() =~= digits(n / 10));
        lemma_num_value_digits(n / 10);
        lemma_digits_bound(n / 10, (k - 1) as nat);
        assert(n < 10 * pow10((k - 1) as nat));
    }
}

proof fn lemma_trim_end_shape(s: Seq<u8>)
    ensures
        trim_end(s).len() <= s.len(),
        trim_end(s).len() == 0 || trim_end(s).last() != SPACE,
    decreases s.len(),
{
    if s.len() > 0 && s.last() == SPACE {
        lemma_trim_end_shape(s.drop_last());
    }
}

/// Every numeric column is at least one character wide.
pub open spec fn layout_ok(cols: Seq<Column>) -> bool {
    forall|i: int| 0 <= i < cols.len() ==> (#[trigger] cols[i]).numeric ==> cols[i].width >= 1
}

/// What a column reads as fits the column.
proof fn lemma_read_field_fits(s: Seq<u8>, c: Column)
    requires
        s.len() == c.width,
        !c.numeric || c.width >= 1,
        read_field(s, c).is_some(),
    ensures
        field_fits(read_field(s, c).unwrap(), c),
{
    if c.numeric {
        lemma_num_value_bound(s);
        lemma_digits_len(num_value(s), s.len());
    } else {
        lemma_trim_end_shape(s);
    }
}

/// What a line reads as fits the layout.
pub proof fn lemma_read_line_fits(line: Seq<u8>, cols: Seq<Column>)
    requires
        layout_ok(cols),
        read_line(line, cols).is_some(),
    ensures
        fields_fit(read_line(line, cols).unwrap(), cols),
    decreases cols.len(),
{
    if cols.len() > 0 {
        let c0 = cols.drop_last();
        assert(layout_ok(c0)) by {
            assert forall|i: int| 0 <= i < c0.len() implies (#[trigger] c0[i]).numeric ==> c0[i].width >= 1 by {
                assert(c0[i] == cols[i]);
            }
        }
        lemma_read_line_fits(line, c0);
        let fs0 = read_line(line, c0).unwrap();
        let start = layout_len(c0) + sep(cols);
        let end = start + cols.last().width;
        let piece = line.subrange(start as int, end as int);
        assert(cols[cols.len() - 1] == cols.last());
        lemma_read_field_fits(piece, cols.last());
        let fs = read_line(line, cols).unwrap();
        assert(fs == fs0.push(read_field(piece, cols.last()).unwrap()));
        assert forall|i: int| 0 <= i < fs.len() implies field_fits(#[trigger] fs[i], cols[i]) by {
            if i < fs0.len() {
                assert(fs[i] == fs0[i] && cols[i] == c0[i]);
            }
        }
    }
}

/// Round trip: the fields read from any line, written again, read back as
/// the same fields.
pub proof fn lemma_reread(line: Seq<u8>, cols: Seq<Column>)
    requires
        layout_ok(cols),
        read_line(line, cols).is_some(),
    ensures
        read_line(line_text(read_line(line, cols).unwrap(), cols), cols) == read_line(line, cols),
{
    let fs = read_line(line, cols).unwrap();
    lemma_read_line_fits(line, cols);
    lemma_line_round_trip(fs, cols, Seq::empty());
    assert(line_text(fs, cols) + Seq::<u8>::empty() =~= line_text(fs, cols));
}

} // verus!
