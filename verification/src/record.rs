//! Decoding and encoding of dataset rows.
//!
//! A row is a sequence of bytes: delimited decimal fields, the first the
//! class label, the remaining `feature_count` fields the pixel intensities,
//! each in `0..=255`. Decoding a row yields a [`Record`]; a
//! [`RecordDecoder`] walks a whole dataset of rows as a restartable
//! sequence, telling exhaustion apart from a malformed row.

use vstd::prelude::*;
use crate::errors::DecodeError;

verus! {

/// The field delimiter: an ASCII comma.
pub const DELIMITER: u8 = 44;

/// Whether `b` is an ASCII decimal digit.
pub open spec fn is_digit(b: u8) -> bool {
    48 <= b <= 57
}

/// The numeric value of the digit byte `b`.
pub open spec fn digit_val(b: u8) -> nat {
    (b - 48) as nat
}

/// Whether `s` is a well-formed field: nonempty and all digits.
pub open spec fn is_digit_field(s: Seq<u8>) -> bool {
    s.len() >= 1 && forall|i: int| 0 <= i < s.len() ==> is_digit(s[i])
}

/// The number that the digit bytes of `s` spell in decimal.
pub open spec fn field_value(s: Seq<u8>) -> nat
    decreases s.len(),
{
    if s.len() == 0 {
        0
    } else {
        field_value(s.drop_last()) * 10 + digit_val(s.last())
    }
}

/// What parsing one field yields: its value, if the field is well formed
/// and the value fits a byte.
pub open spec fn spec_parse_field(s: Seq<u8>) -> Option<u8> {
    if is_digit_field(s) && field_value(s) <= 255 {
        Some(field_value(s) as u8)
    } else {
        None
    }
}

/// Splits `s` at every delimiter, with `cur` the partial field read so far
/// and `acc` the fields already read. A row always holds at least one
/// field: the empty row holds one empty field.
pub open spec fn split_fields_from(s: Seq<u8>, cur: Seq<u8>, acc: Seq<Seq<u8>>) -> Seq<Seq<u8>>
    decreases s.len(),
{
    if s.len() == 0 {
        acc.push(cur)
    } else if s[0] == DELIMITER {
        split_fields_from(s.skip(1), Seq::empty(), acc.push(cur))
    } else {
        split_fields_from(s.skip(1), cur.push(s[0]), acc)
    }
}

/// The fields of the row `s`, split at every delimiter.
pub open spec fn split_fields(s: Seq<u8>) -> Seq<Seq<u8>> {
    split_fields_from(s, Seq::empty(), Seq::empty())
}

/// The row that holds the fields `fs` joined by the delimiter.
pub open spec fn join_fields(fs: Seq<Seq<u8>>) -> Seq<u8>
    decreases fs.len(),
{
    if fs.len() == 0 {
        Seq::empty()
    } else if fs.len() == 1 {
        fs[0]
    } else {
        fs[0] + seq![DELIMITER] + join_fields(fs.skip(1))
    }
}

/// Whether the row `row` decodes into a record of `fc` pixels: it splits
/// into exactly `1 + fc` fields and every field parses.
pub open spec fn spec_row_ok(row: Seq<u8>, fc: nat) -> bool {
    let fs = split_fields(row);
    &&& fs.len() == fc + 1
    &&& forall|i: int| 0 <= i < fs.len() ==> spec_parse_field(#[trigger] fs[i]) is Some
}

/// The label of a row that decodes: the value of its first field.
pub open spec fn spec_row_label(row: Seq<u8>) -> u8 {
    spec_parse_field(split_fields(row)[0]).unwrap()
}

/// The pixels of a row that decodes into `fc` of them: the values of the
/// fields after the label.
pub open spec fn spec_row_pixels(row: Seq<u8>, fc: nat) -> Seq<u8> {
    Seq::new(fc, |i: int| spec_parse_field(split_fields(row)[i + 1]).unwrap())
}

/// Which [`DecodeError`] a malformed row is owed: the wrong field count, or
/// else the first field that does not parse.
pub open spec fn spec_row_err(row: Seq<u8>, fc: nat, e: DecodeError) -> bool {
    let fs = split_fields(row);
    match e {
        DecodeError::FieldCount { found } => {
            &&& fs.len() != fc + 1
            &&& found as nat == fs.len()
        },
        DecodeError::BadField { field } => {
            &&& fs.len() == fc + 1
            &&& 0 <= field < fs.len()
            &&& spec_parse_field(fs[field as int]) is None
            &&& forall|j: int| 0 <= j < field ==> spec_parse_field(#[trigger] fs[j]) is Some
        },
        DecodeError::LabelRange { .. } => false,
    }
}

/// One decoded record: a class label and a fixed number of pixels.
#[derive(Debug)]
pub struct Record {
    pub label: u8,
    pub pixels: Vec<u8>,
}

/// The decimal rendering of `n`: most significant digit first, no sign,
/// no leading zero (a lone zero for zero).
pub open spec fn spec_digits(n: nat) -> Seq<u8>
    decreases n,
{
    if n < 10 {
        seq![(48 + n) as u8]
    } else {
        spec_digits(n / 10).push((48 + n % 10) as u8)
    }
}

/// The fields a record is written as: the label first, then every pixel.
pub open spec fn spec_encode_fields(label: u8, pixels: Seq<u8>) -> Seq<Seq<u8>> {
    seq![spec_digits(label as nat)] + pixels.map_values(|p: u8| spec_digits(p as nat))
}

/// The row a record is written as: its fields joined by the delimiter.
pub open spec fn spec_encode_row(label: u8, pixels: Seq<u8>) -> Seq<u8> {
    join_fields(spec_encode_fields(label, pixels))
}

/// A decimal rendering is a nonempty run of digits.
proof fn lemma_digits_wf(n: nat)
    ensures
        is_digit_field(spec_digits(n)),
    decreases n,
{
    if n < 10 {
        assert(spec_digits(n)[0] == (48 + n) as u8);
    } else {
        lemma_digits_wf(n / 10);
        let d = spec_digits(n / 10);
        let s = spec_digits(n);
        assert(n % 10 < 10);
        assert forall|i: int| 0 <= i < s.len() implies is_digit(s[i]) by {
            if i < d.len() {
                assert(s[i] == d[i]);
            } else {
                assert(s[i] == (48 + n % 10) as u8);
            }
        }
    }
}

/// A decimal rendering parses back to the number it renders.
proof fn lemma_digits_value(n: nat)
    ensures
        field_value(spec_digits(n)) == n,
    decreases n,
{
    if n < 10 {
        let s = spec_digits(n);
        assert(s == seq![(48 + n) as u8]);
        assert(s.len() == 1);
        assert(s.drop_last() =~= Seq::<u8>::empty());
        assert(field_value(s) == field_value(s.drop_last()) * 10 + digit_val(s.last()));
        assert(field_value(s.drop_last()) == 0);
        assert(s.last() == (48 + n) as u8);
        assert(digit_val(s.last()) == n);
    } else {
        lemma_digits_value(n / 10);
        let d = spec_digits(n / 10);
        let s = spec_digits(n);
        assert(s.drop_last() =~= d);
        assert(digit_val(s.last()) == n % 10);
        assert(field_value(s) == (n / 10) * 10 + n % 10);
        assert((n / 10) * 10 + n % 10 == n) by {
            vstd::arithmetic::div_mod::lemma_fundamental_div_mod(n as int, 10);
        };
    }
}

/// Reading bytes that hold no delimiter only extends the current field.
proof fn lemma_split_from_nodelim(x: Seq<u8>, tail: Seq<u8>, cur: Seq<u8>, acc: Seq<Seq<u8>>)
    requires
        forall|i: int| 0 <= i < x.len() ==> x[i] != DELIMITER,
    ensures
        split_fields_from(x + tail, cur, acc) == split_fields_from(tail, cur + x, acc),
    decreases x.len(),
{
    if x.len() == 0 {
        assert(x + tail =~= tail);
        assert(cur + x =~= cur);
    } else {
        let s = x + tail;
        assert(s[0] == x[0]);
        assert(s.skip(1) =~= x.skip(1) + tail);
        lemma_split_from_nodelim(x.skip(1), tail, cur.push(x[0]), acc);
        assert(cur.push(x[0]) + x.skip(1) =~= cur + x);
    }
}

/// Splitting a join of delimiter-free fields recovers the fields, after
/// whatever was already accumulated.
proof fn lemma_split_from_join(fs: Seq<Seq<u8>>, cur: Seq<u8>, acc: Seq<Seq<u8>>)
    requires
        fs.len() >= 1,
        forall|i: int, j: int|
            0 <= i < fs.len() && 0 <= j < fs[i].len() ==> #[trigger] fs[i][j] != DELIMITER,
    ensures
        split_fields_from(join_fields(fs), cur, acc) == acc.push(cur + fs[0]) + fs.skip(1),
    decreases fs.len(),
{
    if fs.len() == 1 {
        assert(join_fields(fs) == fs[0]);
        lemma_split_from_nodelim(fs[0], Seq::empty(), cur, acc);
        assert(fs[0] + Seq::<u8>::empty() =~= fs[0]);
        assert(acc.push(cur + fs[0]) + fs.skip(1) =~= acc.push(cur + fs[0]));
    } else {
        let rest = fs.skip(1);
        let tail = seq![DELIMITER] + join_fields(rest);
        assert(join_fields(fs) =~= fs[0] + tail);
        lemma_split_from_nodelim(fs[0], tail, cur, acc);
        assert(tail[0] == DELIMITER);
        assert(tail.skip(1) =~= join_fields(rest));
        assert forall|i: int, j: int|
            0 <= i < rest.len() && 0 <= j < rest[i].len() implies #[trigger] rest[i][j]
            != DELIMITER by {
            assert(rest[i] == fs[i + 1]);
        }
        lemma_split_from_join(rest, Seq::empty(), acc.push(cur + fs[0]));
        assert(Seq::<u8>::empty() + rest[0] =~= rest[0]);
        assert(acc.push(cur + fs[0]).push(rest[0]) + rest.skip(1) =~= acc.push(cur + fs[0])
            + fs.skip(1));
    }
}

/// Decoding inverts encoding: the row written for a label and its pixels
/// decodes again, to the same label and the same pixels. Rendering loses
/// nothing, whatever the values.
pub proof fn lemma_encode_decode_round_trip(label: u8, pixels: Seq<u8>)
    ensures
        spec_row_ok(spec_encode_row(label, pixels), pixels.len()),
        spec_row_label(spec_encode_row(label, pixels)) == label,
        spec_row_pixels(spec_encode_row(label, pixels), pixels.len()) == pixels,
{
    let fs = spec_encode_fields(label, pixels);
    let row = spec_encode_row(label, pixels);
    assert(fs.len() == pixels.len() + 1);
    assert forall|i: int| 0 <= i < fs.len() implies spec_parse_field(#[trigger] fs[i])
        == Some(if i == 0 { label } else { pixels[i - 1] }) by {
        let v: u8 = if i == 0 { label } else { pixels[i - 1] };
        assert(fs[i] == spec_digits(v as nat));
        lemma_digits_wf(v as nat);
        lemma_digits_value(v as nat);
    }
    assert forall|i: int, j: int|
        0 <= i < fs.len() && 0 <= j < fs[i].len() implies #[trigger] fs[i][j] != DELIMITER by {
        assert(spec_parse_field(fs[i]) is Some);
        assert(is_digit_field(fs[i]));
        assert(is_digit(fs[i][j]));
    }
    lemma_split_from_join(fs, Seq::empty(), Seq::empty());
    let lhs = Seq::<Seq<u8>>::empty().push(Seq::<u8>::empty() + fs[0]) + fs.skip(1);
    assert(split_fields(row) == lhs);
    assert(Seq::<u8>::empty() + fs[0] =~= fs[0]);
    assert(lhs =~= fs);
    assert(spec_row_pixels(row, pixels.len()) =~= pixels);
}

/// The value of `s` never falls below the value of any of its prefixes:
/// every further digit multiplies by ten and adds a digit.
proof fn lemma_field_value_ge_prefix(s: Seq<u8>, i: int)
    requires
        0 <= i <= s.len(),
    ensures
        field_value(s) >= field_value(s.take(i)),
    decreases s.len() - i,
{
    if i < s.len() {
        assert(s.take(i + 1).drop_last() =~= s.take(i));
        assert(s.take(i + 1).last() == s[i]);
        lemma_field_value_ge_prefix(s, i + 1);
    } else {
        assert(s.take(i) =~= s);
    }
}

/// Joining one more field appends one delimiter and the field.
proof fn lemma_join_push(fs: Seq<Seq<u8>>, g: Seq<u8>)
    requires
        fs.len() >= 1,
    ensures
        join_fields(fs.push(g)) == join_fields(fs) + seq![DELIMITER] + g,
    decreases fs.len(),
{
    let p = fs.push(g);
    assert(p[0] == fs[0]);
    if fs.len() == 1 {
        assert(p.skip(1) =~= seq![g]);
        assert(join_fields(seq![g]) == g);
        assert(join_fields(p) == fs[0] + seq![DELIMITER] + g);
    } else {
        assert(p.skip(1) =~= fs.skip(1).push(g));
        lemma_join_push(fs.skip(1), g);
        assert(fs[0] + seq![DELIMITER] + (join_fields(fs.skip(1)) + seq![DELIMITER] + g) =~= (fs[0]
            + seq![DELIMITER] + join_fields(fs.skip(1))) + seq![DELIMITER] + g);
    }
}

/// Appends the decimal rendering of `n` to `out`.
fn push_digits(n: u8, out: &mut Vec<u8>)
    ensures
        final (out)@ == old(out)@ + spec_digits(n as nat),
    decreases n,
{
    if n < 10 {
        out.push(48 + n);
        assert(out@ =~= old(out)@ + spec_digits(n as nat));
    } else {
        push_digits(n / 10, out);
        out.push(48 + n % 10);
        assert(out@ =~= old(out)@ + spec_digits(n as nat));
    }
}

/// Writes a record back as a row that the decoder reads: delimited decimal
/// fields, the label first, then every pixel.
pub fn encode_record(rec: &Record) -> (row: Vec<u8>)
    ensures
        row@ == spec_encode_row(rec.label, rec.pixels@),
{
    let mut out: Vec<u8> = Vec::new();
    push_digits(rec.label, &mut out);
    proof {
        assert(spec_encode_fields(rec.label, rec.pixels@.take(0)) =~= seq![
            spec_digits(rec.label as nat),
        ]);
        assert(out@ =~= join_fields(spec_encode_fields(rec.label, rec.pixels@.take(0))));
    }
    let mut i: usize = 0;
    while i < rec.pixels.len()
        invariant
            0 <= i <= rec.pixels@.len(),
            out@ == join_fields(spec_encode_fields(rec.label, rec.pixels@.take(i as int))),
        decreases rec.pixels@.len() - i,
    {
        let ghost fields_before = spec_encode_fields(rec.label, rec.pixels@.take(i as int));
        out.push(DELIMITER);
        push_digits(rec.pixels[i], &mut out);
        proof {
            let p = rec.pixels@[i as int];
            assert(spec_encode_fields(rec.label, rec.pixels@.take(i + 1)) =~= fields_before.push(
                spec_digits(p as nat),
            ));
            lemma_join_push(fields_before, spec_digits(p as nat));
            assert(out@ =~= join_fields(fields_before) + seq![DELIMITER] + spec_digits(p as nat));
        }
        i = i + 1;
    }
    proof {
        assert(rec.pixels@.take(rec.pixels@.len() as int) =~= rec.pixels@);
    }
    out
}

/// Splitting can only add fields to those already read.
proof fn lemma_split_from_len(s: Seq<u8>, cur: Seq<u8>, acc: Seq<Seq<u8>>)
    ensures
        split_fields_from(s, cur, acc).len() > acc.len(),
    decreases s.len(),
{
    if s.len() != 0 {
        if s[0] == DELIMITER {
            lemma_split_from_len(s.skip(1), Seq::empty(), acc.push(cur));
        } else {
            lemma_split_from_len(s.skip(1), cur.push(s[0]), acc);
        }
    }
}

/// Parses one delimited field: `Some` exactly when the field is nonempty,
/// all digits, and spells a value that fits a byte.
fn parse_field(s: &Vec<u8>) -> (r: Option<u8>)
    ensures
        r == spec_parse_field(s@),
{
    if s.len() == 0 {
        return None;
    }
    let mut value: u32 = 0;
    let mut i: usize = 0;
    while i < s.len()
        invariant
            0 <= i <= s@.len(),
            s@.len() >= 1,
            value <= 255,
            value as nat == field_value(s@.take(i as int)),
            forall|j: int| 0 <= j < i ==> is_digit(s@[j]),
        decreases s@.len() - i,
    {
        let b = s[i];
        if b < 48 || b > 57 {
            assert(!is_digit_field(s@));
            return None;
        }
        let next = value * 10 + (b - 48) as u32;
        proof {
            assert(s@.take(i + 1).drop_last() =~= s@.take(i as int));
            assert(s@.take(i + 1).last() == s@[i as int]);
        }
        if next > 255 {
            proof {
                lemma_field_value_ge_prefix(s@, i + 1);
            }
            return None;
        }
        value = next;
        i = i + 1;
    }
    proof {
        assert(s@.take(s@.len() as int) =~= s@);
    }
    Some(value as u8)
}

/// Splits a row at every delimiter.
fn split_row(row: &Vec<u8>) -> (fields: Vec<Vec<u8>>)
    ensures
        fields@.map_values(|f: Vec<u8>| f@) == split_fields(row@),
        fields@.len() >= 1,
{
    let mut fields: Vec<Vec<u8>> = Vec::new();
    let mut cur: Vec<u8> = Vec::new();
    let mut i: usize = 0;
    proof {
        assert(row@.skip(0) =~= row@);
        assert(fields@.map_values(|f: Vec<u8>| f@) =~= Seq::<Seq<u8>>::empty());
    }
    while i < row.len()
        invariant
            0 <= i <= row@.len(),
            split_fields(row@) == split_fields_from(
                row@.skip(i as int),
                cur@,
                fields@.map_values(|f: Vec<u8>| f@),
            ),
        decreases row@.len() - i,
    {
        let b = row[i];
        proof {
            assert(row@.skip(i as int)[0] == row@[i as int]);
            assert(row@.skip(i as int).skip(1) =~= row@.skip(i + 1));
        }
        if b == DELIMITER {
            let ghost prev = fields@.map_values(|f: Vec<u8>| f@);
            fields.push(cur);
            cur = Vec::new();
            proof {
                assert(fields@.map_values(|f: Vec<u8>| f@) =~= prev.push(fields@.last()@));
            }
        } else {
            cur.push(b);
        }
        i = i + 1;
    }
    proof {
        assert(row@.skip(row@.len() as int) =~= Seq::<u8>::empty());
        lemma_split_from_len(row@, Seq::empty(), Seq::empty());
    }
    let ghost prev = fields@.map_values(|f: Vec<u8>| f@);
    fields.push(cur);
    proof {
        assert(fields@.map_values(|f: Vec<u8>| f@) =~= prev.push(fields@.last()@));
    }
    fields
}

/// Decodes one row into a [`Record`] of `feature_count` pixels.
///
/// Returns `Ok` exactly when the row splits into `1 + feature_count`
/// fields and every field parses; otherwise the error says whether the
/// field count is wrong or which field is the first that does not parse.
pub fn decode_row(row: &Vec<u8>, feature_count: usize) -> (r: Result<Record, DecodeError>)
    ensures
        match r {
            Ok(rec) => {
                &&& spec_row_ok(row@, feature_count as nat)
                &&& rec.label == spec_row_label(row@)
                &&& rec.pixels@ == spec_row_pixels(row@, feature_count as nat)
                &&& rec.pixels@.len() == feature_count
            },
            Err(e) => {
                &&& !spec_row_ok(row@, feature_count as nat)
                &&& spec_row_err(row@, feature_count as nat, e)
            },
        },
{
    let fields = split_row(row);
    let ghost fs = split_fields(row@);
    proof {
        assert(fs.len() == fields@.len());
    }
    if fields.len() - 1 != feature_count {
        return Err(DecodeError::FieldCount { found: fields.len() });
    }
    let mut pixels: Vec<u8> = Vec::new();
    let mut label: u8 = 0;
    let mut i: usize = 0;
    while i < fields.len()
        invariant
            fields@.map_values(|f: Vec<u8>| f@) == fs,
            fs == split_fields(row@),
            fs.len() == feature_count + 1,
            0 <= i <= fs.len(),
            forall|j: int| 0 <= j < i ==> spec_parse_field(#[trigger] fs[j]) is Some,
            i >= 1 ==> label == spec_parse_field(fs[0]).unwrap(),
            pixels@.len() == (if i == 0 { 0int } else { i - 1 }),
            forall|j: int| 0 <= j < pixels@.len() ==> pixels@[j] == spec_parse_field(
                #[trigger] fs[j + 1],
            ).unwrap(),
        decreases fields@.len() - i,
    {
        let f: &Vec<u8> = &fields[i];
        proof {
            assert(fs[i as int] == fields@[i as int]@);
        }
        match parse_field(f) {
            None => {
                return Err(DecodeError::BadField { field: i });
            },
            Some(v) => {
                if i == 0 {
                    label = v;
                } else {
                    pixels.push(v);
                }
            },
        }
        i = i + 1;
    }
    proof {
        assert(pixels@ =~= spec_row_pixels(row@, feature_count as nat));
    }
    Ok(Record { label, pixels })
}

/// A restartable sequence of decoded records over a dataset of rows.
///
/// Pulling yields the next record, signals exhaustion with `Ok(None)` —
/// distinct from a decode error — and leaves the read position on a
/// malformed row, so the caller can tell "epoch ended" from corrupt data.
pub struct RecordDecoder {
    rows: Vec<Vec<u8>>,
    pos: usize,
    feature_count: usize,
}

impl RecordDecoder {
    /// The dataset: one byte row per record.
    pub closed spec fn rows_view(self) -> Seq<Seq<u8>> {
        self.rows@.map_values(|r: Vec<u8>| r@)
    }

    /// The index of the next row to decode.
    pub closed spec fn spec_pos(self) -> nat {
        self.pos as nat
    }

    /// The number of pixels every record must hold.
    pub closed spec fn spec_feature_count(self) -> nat {
        self.feature_count as nat
    }

    /// The read position never passes the end of the dataset.
    pub open spec fn wf(self) -> bool {
        self.spec_pos() <= self.rows_view().len()
    }

    /// A decoder over `rows`, positioned at the first row.
    pub fn new(rows: Vec<Vec<u8>>, feature_count: usize) -> (r: RecordDecoder)
        ensures
            r.wf(),
            r.rows_view() == rows@.map_values(|v: Vec<u8>| v@),
            r.spec_pos() == 0,
            r.spec_feature_count() == feature_count as nat,
    {
        RecordDecoder { rows, pos: 0, feature_count }
    }

    /// Rewinds to the first row, so a new epoch can decode the same rows.
    pub fn restart(&mut self)
        ensures
            final (self).wf(),
            final (self).rows_view() == old(self).rows_view(),
            final (self).spec_feature_count() == old(self).spec_feature_count(),
            final (self).spec_pos() == 0,
    {
        self.pos = 0;
    }

    /// The number of rows not yet pulled.
    pub fn remaining(&self) -> (r: usize)
        requires
            self.wf(),
        ensures
            r as nat == self.rows_view().len() - self.spec_pos(),
    {
        self.rows.len() - self.pos
    }

    /// The index of the next row to pull.
    pub fn position(&self) -> (r: usize)
        ensures
            r as nat == self.spec_pos(),
    {
        self.pos
    }

    /// The number of rows of the dataset.
    pub fn dataset_len(&self) -> (r: usize)
        ensures
            r as nat == self.rows_view().len(),
    {
        self.rows.len()
    }

    /// The configured number of pixels per record.
    pub fn feature_count(&self) -> (r: usize)
        ensures
            r as nat == self.spec_feature_count(),
    {
        self.feature_count
    }

    /// Pulls the next record.
    ///
    /// `Ok(None)` signals exhaustion; a decode error leaves the position on
    /// the malformed row, so the failing row index is the final position.
    pub fn next_record(&mut self) -> (r: Result<Option<Record>, DecodeError>)
        requires
            old(self).wf(),
        ensures
            final (self).wf(),
            final (self).rows_view() == old(self).rows_view(),
            final (self).spec_feature_count() == old(self).spec_feature_count(),
            match r {
                Ok(None) => {
                    &&& old(self).spec_pos() == old(self).rows_view().len()
                    &&& final (self).spec_pos() == old(self).spec_pos()
                },
                Ok(Some(rec)) => {
                    let row = old(self).rows_view()[old(self).spec_pos() as int];
                    let fc = old(self).spec_feature_count();
                    &&& old(self).spec_pos() < old(self).rows_view().len()
                    &&& spec_row_ok(row, fc)
                    &&& rec.label == spec_row_label(row)
                    &&& rec.pixels@ == spec_row_pixels(row, fc)
                    &&& final (self).spec_pos() == old(self).spec_pos() + 1
                },
                Err(e) => {
                    let row = old(self).rows_view()[old(self).spec_pos() as int];
                    let fc = old(self).spec_feature_count();
                    &&& old(self).spec_pos() < old(self).rows_view().len()
                    &&& !spec_row_ok(row, fc)
                    &&& spec_row_err(row, fc, e)
                    &&& final (self).spec_pos() == old(self).spec_pos()
                },
            },
    {
        if self.pos == self.rows.len() {
            return Ok(None);
        }
        let row: &Vec<u8> = &self.rows[self.pos];
        proof {
            assert(self.rows_view()[self.pos as int] == self.rows@[self.pos as int]@);
        }
        match decode_row(row, self.feature_count) {
            Ok(rec) => {
                self.pos = self.pos + 1;
                Ok(Some(rec))
            },
            Err(e) => Err(e),
        }
    }
}

} // verus!
