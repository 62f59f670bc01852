use vstd::prelude::*;
use crate::average::SCALE;
use crate::listeners::ListenerData;
use crate::registry::{AverageRow, restored_from, truncate_level, lemma_persist_round_trip};

verus! {

/// ASCII `0`.
pub const ZERO: u8 = 48;

/// ASCII `-`.
pub const MINUS: u8 = 45;

/// Number of fields of a persisted row: the id and one per hour.
pub const ROW_FIELDS: usize = 25;

/// Whether `b` is an ASCII decimal digit.
pub open spec fn is_digit(b: u8) -> bool {
    ZERO <= b <= ZERO + 9
}

/// Whether `s` is made of decimal digits only.
pub open spec fn all_digits(s: Seq<u8>) -> bool {
    forall|i: int| 0 <= i < s.len() ==> is_digit(#[trigger] s[i])
}

/// The number that the decimal digits `s` spell.
pub open spec fn digits_value(s: Seq<u8>) -> int
    decreases s.len(),
{
    if s.len() == 0 {
        0
    } else {
        digits_value(s.drop_last()) * 10 + (s.last() - ZERO)
    }
}

/// The count that a field holds: one or more digits whose value fits a `u32`.
pub open spec fn count_of(s: Seq<u8>) -> Option<u32> {
    if s.len() > 0 && all_digits(s) && digits_value(s) <= u32::MAX {
        Some(digits_value(s) as u32)
    } else {
        None
    }
}

/// The feed id that a field holds: digits, with a leading `-` if negative,
/// whose value fits an `i32`.
pub open spec fn id_of(s: Seq<u8>) -> Option<i32> {
    if s.len() > 0 && s[0] == MINUS {
        let d = s.drop_first();
        if d.len() > 0 && all_digits(d) && digits_value(d) <= 0x80000000 {
            Some((-digits_value(d)) as i32)
        } else {
            None
        }
    } else if s.len() > 0 && all_digits(s) && digits_value(s) <= i32::MAX {
        Some(digits_value(s) as i32)
    } else {
        None
    }
}

/// The decimal digits of `n`, without leading zeros.
pub open spec fn decimal(n: nat) -> Seq<u8>
    decreases n,
{
    if n < 10 {
        seq![(ZERO + n) as u8]
    } else {
        decimal(n / 10).push((ZERO + n % 10) as u8)
    }
}

/// The text of a feed id: its decimal digits, after a `-` if negative.
pub open spec fn id_text(id: i32) -> Seq<u8> {
    if id < 0 {
        seq![MINUS] + decimal((-id) as nat)
    } else {
        decimal(id as nat)
    }
}

/// Why a persisted row could not be read.
#[derive(Clone, Copy, Debug, PartialEq, Eq, Structural)]
pub enum RowError {
    /// The row does not have one id and 24 hourly values.
    FieldCount,
    /// The id is not a decimal integer that fits an `i32`.
    BadId,
    /// An hourly value is not a decimal count that fits a `u32`.
    BadCount,
}

/// The row that `fields` spell, or why they spell none: a wrong number of
/// fields first, then a bad id, then a bad hourly value.
pub open spec fn row_of(fields: Seq<Seq<u8>>) -> Result<(i32, Seq<u32>), RowError> {
    if fields.len() != ROW_FIELDS {
        Err(RowError::FieldCount)
    } else if id_of(fields[0]) is None {
        Err(RowError::BadId)
    } else if exists|h: int| 1 <= h < ROW_FIELDS && #[trigger] count_of(fields[h]) is None {
        Err(RowError::BadCount)
    } else {
        Ok((id_of(fields[0])->Some_0, Seq::new(24, |h: int| count_of(fields[h + 1])->Some_0)))
    }
}

/// A longer run of digits is worth at least its prefix.
proof fn lemma_prefix_value(s: Seq<u8>, k: int)
    requires
        all_digits(s),
        0 <= k <= s.len(),
    ensures
        digits_value(s.subrange(0, k)) <= digits_value(s),
    decreases s.len() - k,
{
    if k < s.len() {
        lemma_prefix_value(s, k + 1);
        let p = s.subrange(0, k + 1);
        assert(p.drop_last() =~= s.subrange(0, k));
        assert(is_digit(s[k]));
        assert(digits_value(s.subrange(0, k)) >= 0) by {
            lemma_value_nonneg(s.subrange(0, k));
        }
    } else {
        assert(s.subrange(0, k) =~= s);
    }
}

/// Digits are worth zero or more.
proof fn lemma_value_nonneg(s: Seq<u8>)
    requires
        all_digits(s),
    ensures
        digits_value(s) >= 0,
    decreases s.len(),
{
    if s.len() > 0 {
        assert(all_digits(s.drop_last()));
        lemma_value_nonneg(s.drop_last());
        assert(is_digit(s[s.len() - 1]));
    }
}

/// Reads a run of decimal digits worth at most `limit`.
fn parse_digits(field: &[u8], start: usize, limit: u64) -> (r: Option<u64>)
    requires
        start <= field@.len(),
        limit <= u32::MAX + 1,
    ensures
        ({
            let s = field@.subrange(start as int, field@.len() as int);
            match r {
                Some(v) => s.len() > 0 && all_digits(s) && v == digits_value(s) && v <= limit,
                None => !(s.len() > 0 && all_digits(s) && digits_value(s) <= limit),
            }
        }),
{
    let ghost s = field@.subrange(start as int, field@.len() as int);
    if start == field.len() {
        return None;
    }
    let mut acc: u64 = 0;
    let mut i: usize = start;
    while i < field.len()
        invariant
            start <= i <= field@.len(),
            s == field@.subrange(start as int, field@.len() as int),
            all_digits(s.subrange(0, i - start)),
            acc == digits_value(s.subrange(0, i - start)),
            acc <= limit,
            limit <= u32::MAX + 1,
        decreases field@.len() - i,
    {
        let b = field[i];
        let ghost p = s.subrange(0, i - start + 1);
        proof {
            assert(p.drop_last() =~= s.subrange(0, i - start));
            assert(p.last() == b);
        }
        if b < ZERO || b > ZERO + 9 {
            proof {
                assert(!is_digit(s[i - start]));
            }
            return None;
        }
        acc = acc * 10 + (b - ZERO) as u64;
        proof {
            assert(all_digits(p));
        }
        if acc > limit {
            proof {
                if all_digits(s) {
                    lemma_prefix_value(s, i - start + 1);
                }
            }
            return None;
        }
        i = i + 1;
    }
    proof {
        assert(s.subrange(0, i - start) =~= s);
    }
    Some(acc)
}

/// Reads a count field: one or more digits, worth at most `u32::MAX`.
pub fn parse_count(field: &[u8]) -> (r: Option<u32>)
    ensures
        r == count_of(field@),
{
    proof {
        assert(field@.subrange(0, field@.len() as int) =~= field@);
    }
    match parse_digits(field, 0, u32::MAX as u64) {
        Some(v) => Some(v as u32),
        None => None,
    }
}

/// Reads an id field: digits, with a leading `-` if negative, fitting an `i32`.
pub fn parse_id(field: &[u8]) -> (r: Option<i32>)
    ensures
        r == id_of(field@),
{
    if field.len() > 0 && field[0] == MINUS {
        proof {
            assert(field@.subrange(1, field@.len() as int) =~= field@.drop_first());
        }
        match parse_digits(field, 1, 0x80000000) {
            Some(v) => Some((0 - (v as i64)) as i32),
            None => None,
        }
    } else {
        proof {
            assert(field@.subrange(0, field@.len() as int) =~= field@);
        }
        match parse_digits(field, 0, i32::MAX as u64) {
            Some(v) => Some(v as i32),
            None => None,
        }
    }
}

/// Reads a persisted row from its fields: the feed id, then the baseline of
/// each hour in whole listeners.
pub fn row_from_fields(fields: &Vec<Vec<u8>>) -> (r: Result<AverageRow, RowError>)
    ensures
        match row_of(fields@.map_values(|f: Vec<u8>| f@)) {
            Ok((id, hourly)) => r is Ok && r->Ok_0.0 == id && r->Ok_0.1@ == hourly,
            Err(e) => r == Err::<AverageRow, RowError>(e),
        },
{
    let ghost view = fields@.map_values(|f: Vec<u8>| f@);
    if fields.len() != ROW_FIELDS {
        return Err(RowError::FieldCount);
    }
    let id = match parse_id(fields[0].as_slice()) {
        Some(id) => id,
        None => {
            return Err(RowError::BadId);
        },
    };
    assert(view[0] == fields@[0]@);
    let mut hourly: [u32; 24] = [0u32; 24];
    let mut h: usize = 0;
    while h < 24
        invariant
            h <= 24,
            fields@.len() == ROW_FIELDS,
            view == fields@.map_values(|f: Vec<u8>| f@),
            id_of(view[0]) == Some(id),
            forall|j: int| 0 <= j < h ==> #[trigger] count_of(view[j + 1]) == Some(hourly[j]),
        decreases 24 - h,
    {
        match parse_count(fields[h + 1].as_slice()) {
            Some(v) => {
                proof {
                    assert(view[h + 1] == fields@[h + 1]@);
                }
                hourly[h] = v;
            },
            None => {
                proof {
                    assert(view[h + 1] == fields@[h + 1]@);
                    assert(count_of(view[h + 1]) is None);
                    assert(1 <= h + 1 < ROW_FIELDS);
                    assert(id_of(view[0]) is Some);
                }
                return Err(RowError::BadCount);
            },
        }
        h = h + 1;
    }
    proof {
        assert(!exists|k: int| 1 <= k < ROW_FIELDS && #[trigger] count_of(view[k]) is None) by {
            assert forall|k: int| 1 <= k < ROW_FIELDS implies !(#[trigger] count_of(view[k]) is None) by {
                assert(count_of(view[(k - 1) + 1]) == Some(hourly[k - 1]));
            }
        }
        assert(hourly@ =~= Seq::new(24, |j: int| count_of(view[j + 1])->Some_0));
    }
    Ok((id, hourly))
}

/// The fields of a persisted row, as `fields_of_row` writes them.
pub open spec fn row_text(id: i32, hourly: Seq<u32>) -> Seq<Seq<u8>> {
    seq![id_text(id)] + hourly.map_values(|v: u32| decimal(v as nat))
}

/// The decimal digits of `n` spell `n`.
proof fn lemma_decimal(n: nat)
    ensures
        decimal(n).len() > 0,
        all_digits(decimal(n)),
        digits_value(decimal(n)) == n,
    decreases n,
{
    if n >= 10 {
        lemma_decimal(n / 10);
        let d = decimal(n);
        assert(d.drop_last() =~= decimal(n / 10));
        assert(d.last() - ZERO == n % 10);
        assert((n / 10) * 10 + n % 10 == n);
        assert forall|i: int| 0 <= i < d.len() implies is_digit(#[trigger] d[i]) by {
            if i < d.len() - 1 {
                assert(d[i] == decimal(n / 10)[i]);
            }
        }
    } else {
        assert(decimal(n).drop_last() =~= Seq::<u8>::empty());
        assert(digits_value(Seq::<u8>::empty()) == 0);
    }
}

/// Writing a count and reading it back gives the count.
pub proof fn lemma_count_round_trip(n: u32)
    ensures
        count_of(decimal(n as nat)) == Some(n),
{
    lemma_decimal(n as nat);
}

/// Writing an id and reading it back gives the id.
pub proof fn lemma_id_round_trip(id: i32)
    ensures
        id_of(id_text(id)) == Some(id),
{
    if id < 0 {
        let n = (-id) as nat;
        lemma_decimal(n);
        assert(id_text(id).drop_first() =~= decimal(n));
    } else {
        lemma_decimal(id as nat);
        assert(is_digit(decimal(id as nat)[0]));
    }
}

/// Writing a row's fields and reading them back gives the row.
pub proof fn lemma_row_round_trip(id: i32, hourly: Seq<u32>)
    requires
        hourly.len() == 24,
    ensures
        row_of(row_text(id, hourly)) == Ok::<(i32, Seq<u32>), RowError>((id, hourly)),
{
    let f = row_text(id, hourly);
    lemma_id_round_trip(id);
    assert(f[0] == id_text(id));
    assert forall|h: int| 1 <= h < ROW_FIELDS implies #[trigger] count_of(f[h]) == Some(hourly[h - 1]) by {
        assert(f[h] == decimal(hourly[h - 1] as nat));
        lemma_count_round_trip(hourly[h - 1]);
    }
    let parsed = Seq::new(24, |h: int| count_of(f[h + 1])->Some_0);
    assert forall|h: int| 0 <= h < 24 implies parsed[h] == hourly[h] by {
        assert(count_of(f[h + 1]) == Some(hourly[h]));
    }
    assert(parsed =~= hourly);
}

/// Writes a count as decimal digits.
pub fn format_count(n: u32) -> (r: Vec<u8>)
    ensures
        r@ == decimal(n as nat),
    decreases n,
{
    if n < 10 {
        vec![ZERO + n as u8]
    } else {
        let mut v = format_count(n / 10);
        v.push(ZERO + (n % 10) as u8);
        v
    }
}

/// Writes a feed id as decimal digits, after a `-` if negative.
pub fn format_id(id: i32) -> (r: Vec<u8>)
    ensures
        r@ == id_text(id),
{
    if id < 0 {
        let mut v: Vec<u8> = vec![MINUS];
        let mut d = format_count((0 - (id as i64)) as u32);
        v.append(&mut d);
        v
    } else {
        format_count(id as u32)
    }
}

/// The fields of a persisted row: the feed id, then the baseline of each hour.
pub fn fields_of_row(row: &AverageRow) -> (r: Vec<Vec<u8>>)
    ensures
        r@.map_values(|f: Vec<u8>| f@) == row_text(row.0, row.1@),
{
    let mut fields: Vec<Vec<u8>> = Vec::new();
    fields.push(format_id(row.0));
    let mut h: usize = 0;
    while h < 24
        invariant
            h <= 24,
            fields@.len() == h + 1,
            fields@[0]@ == id_text(row.0),
            forall|j: int| 0 <= j < h ==> #[trigger] fields@[j + 1]@ == decimal(row.1[j] as nat),
        decreases 24 - h,
    {
        fields.push(format_count(row.1[h]));
        h = h + 1;
    }
    let ghost lhs = fields@.map_values(|f: Vec<u8>| f@);
    let ghost rhs = row_text(row.0, row.1@);
    assert forall|j: int| 0 <= j < 25 implies lhs[j] == rhs[j] by {
        if j > 0 {
            assert(fields@[(j - 1) + 1]@ == decimal(row.1[j - 1] as nat));
        }
    }
    assert(lhs =~= rhs);
    fields
}

/// Persisting a feed and loading it again: the row written for feed `id`
/// (its baselines truncated to whole listeners, as `persisted_hourly` gives
/// them) reads back as the same row, and the state restored from it at hour
/// `hour` has every baseline less than one listener below the one persisted, and its
/// average seeded at the restored baseline of that hour.
pub proof fn lemma_feed_round_trip(id: i32, d: ListenerData, row: [u32; 24], r: ListenerData, hour: int)
    requires
        d.wf(),
        forall|i: int| 0 <= i < 24 ==> #[trigger] row[i] == truncate_level(d.hourly[i] as int),
        0 <= hour < 24,
        restored_from(r, row, hour),
    ensures
        row_of(row_text(id, row@)) == Ok::<(i32, Seq<u32>), RowError>((id, row@)),
        forall|i: int| 0 <= i < 24 ==> #[trigger] r.hourly[i] <= d.hourly[i] < r.hourly[i] + SCALE,
        r.average.current == r.hourly[hour],
{
    lemma_row_round_trip(id, row@);
    assert forall|i: int| 0 <= i < 24 implies #[trigger] r.hourly[i] <= d.hourly[i] < r.hourly[i] + SCALE by {
        lemma_persist_round_trip(d.hourly[i], row[i]);
    }
}

/// The records that csv reads from `bytes` (no header row), each as its
/// fields; `None` where csv reports an error.
pub uninterp spec fn csv_fields(bytes: Seq<u8>) -> Option<Seq<Seq<Seq<u8>>>>;

/// The text that csv writes for `records`, one line per record.
pub uninterp spec fn csv_text(records: Seq<Seq<Seq<u8>>>) -> Seq<u8>;

/// The records of `recs` as plain sequences of fields.
pub open spec fn records_view(recs: Seq<Vec<Vec<u8>>>) -> Seq<Seq<Seq<u8>>> {
    recs.map_values(|rec: Vec<Vec<u8>>| rec@.map_values(|f: Vec<u8>| f@))
}

/// Relies on csv's `ReaderBuilder` (without a header row) and
/// `Reader::byte_records`: the records of `bytes`, each as its fields; `None`
/// where csv reports an error.
#[verifier::external_body]
fn read_csv(bytes: &[u8]) -> (r: Option<Vec<Vec<Vec<u8>>>>)
    ensures
        match r {
            Some(v) => csv_fields(bytes@) == Some(records_view(v@)),
            None => csv_fields(bytes@) is None,
        },
{
    csv::ReaderBuilder::new()
        .has_headers(false)
        .from_reader(bytes)
        .byte_records()
        .map(|rec| rec.map(|rec| rec.iter().map(|f| f.to_vec()).collect()))
        .collect::<Result<Vec<Vec<Vec<u8>>>, csv::Error>>()
        .ok()
}

/// Relies on csv's `WriterBuilder`, `Writer::write_record` and
/// `Writer::into_inner`: the text of `records`; `None` where csv reports an
/// error. Writing into a `Vec` cannot fail but for records of unequal
/// lengths (`Writer::check_field_count`).
#[verifier::external_body]
fn write_csv(records: &Vec<Vec<Vec<u8>>>) -> (r: Option<Vec<u8>>)
    ensures
        r matches Some(b) ==> b@ == csv_text(records_view(records@)),
        (forall|i: int, j: int|
            0 <= i < records@.len() && 0 <= j < records@.len() ==> (#[trigger] records@[i])@.len()
                == (#[trigger] records@[j])@.len()) ==> r is Some,
{
    let mut writer = csv::WriterBuilder::new().has_headers(false).from_writer(Vec::new());
    for rec in records {
        writer.write_record(rec).ok()?;
    }
    writer.into_inner().ok()
}

/// The rows that `records` spell, or the error of the first that spells none.
pub open spec fn rows_of(records: Seq<Seq<Seq<u8>>>) -> Result<Seq<(i32, Seq<u32>)>, RowError>
    decreases records.len(),
{
    if records.len() == 0 {
        Ok(seq![])
    } else {
        match rows_of(records.drop_last()) {
            Err(e) => Err(e),
            Ok(rows) => match row_of(records.last()) {
                Ok(row) => Ok(rows.push(row)),
                Err(e) => Err(e),
            },
        }
    }
}

/// Rows as plain values.
pub open spec fn rows_view(rows: Seq<AverageRow>) -> Seq<(i32, Seq<u32>)> {
    rows.map_values(|row: AverageRow| (row.0, row.1@))
}

/// The records written for `rows`.
pub open spec fn rows_text(rows: Seq<AverageRow>) -> Seq<Seq<Seq<u8>>> {
    rows.map_values(|row: AverageRow| row_text(row.0, row.1@))
}

/// Why persisted text could not be read.
#[derive(Clone, Copy, Debug, PartialEq, Eq, Structural)]
pub enum DecodeError {
    /// The text is not well-formed csv.
    Csv,
    /// A record is not a row.
    Row(RowError),
}

/// Reads rows from records, stopping at the first record that is not a row.
pub fn rows_from_records(records: &Vec<Vec<Vec<u8>>>) -> (r: Result<Vec<AverageRow>, RowError>)
    ensures
        match rows_of(records_view(records@)) {
            Ok(rows) => r is Ok && rows_view(r->Ok_0@) == rows,
            Err(e) => r == Err::<Vec<AverageRow>, RowError>(e),
        },
{
    let ghost view = records_view(records@);
    let mut rows: Vec<AverageRow> = Vec::new();
    let mut i: usize = 0;
    assert(view.subrange(0, 0) =~= Seq::<Seq<Seq<u8>>>::empty());
    assert(rows_view(rows@) =~= Seq::<(i32, Seq<u32>)>::empty());
    while i < records.len()
        invariant
            i <= records@.len(),
            view == records_view(records@),
            rows_of(view.subrange(0, i as int)) == Ok::<Seq<(i32, Seq<u32>)>, RowError>(rows_view(rows@)),
        decreases records@.len() - i,
    {
        let ghost sub = view.subrange(0, i + 1);
        proof {
            assert(sub.drop_last() =~= view.subrange(0, i as int));
            assert(sub.last() == records@[i as int]@.map_values(|f: Vec<u8>| f@));
        }
        match row_from_fields(&records[i]) {
            Ok(row) => {
                let ghost before = rows@;
                rows.push(row);
                proof {
                    assert(rows_view(rows@) =~= rows_view(before).push((row.0, row.1@)));
                }
            },
            Err(e) => {
                proof {
                    lemma_error_persists(view, i as int + 1);
                }
                return Err(e);
            },
        }
        i = i + 1;
    }
    proof {
        assert(view.subrange(0, i as int) =~= view);
    }
    Ok(rows)
}

/// Once a prefix of the records fails, the whole fails with the same error.
proof fn lemma_error_persists(records: Seq<Seq<Seq<u8>>>, k: int)
    requires
        0 <= k <= records.len(),
        rows_of(records.subrange(0, k)) is Err,
    ensures
        rows_of(records) == rows_of(records.subrange(0, k)),
    decreases records.len() - k,
{
    if k < records.len() {
        let p = records.subrange(0, k + 1);
        assert(p.drop_last() =~= records.subrange(0, k));
        lemma_error_persists(records, k + 1);
    } else {
        assert(records.subrange(0, k) =~= records);
    }
}

/// Reads persisted rows from their csv text.
pub fn decode_averages(bytes: &[u8]) -> (r: Result<Vec<AverageRow>, DecodeError>)
    ensures
        match csv_fields(bytes@) {
            None => r == Err::<Vec<AverageRow>, DecodeError>(DecodeError::Csv),
            Some(recs) => match rows_of(recs) {
                Ok(rows) => r is Ok && rows_view(r->Ok_0@) == rows,
                Err(e) => r == Err::<Vec<AverageRow>, DecodeError>(DecodeError::Row(e)),
            },
        },
{
    match read_csv(bytes) {
        None => Err(DecodeError::Csv),
        Some(records) => match rows_from_records(&records) {
            Ok(rows) => Ok(rows),
            Err(e) => Err(DecodeError::Row(e)),
        },
    }
}

/// The records of persisted rows, one per row.
pub fn records_of_rows(rows: &Vec<AverageRow>) -> (r: Vec<Vec<Vec<u8>>>)
    ensures
        records_view(r@) == rows_text(rows@),
{
    let mut records: Vec<Vec<Vec<u8>>> = Vec::new();
    let mut i: usize = 0;
    assert(records_view(records@) =~= rows_text(rows@.subrange(0, 0)));
    while i < rows.len()
        invariant
            i <= rows@.len(),
            records_view(records@) == rows_text(rows@.subrange(0, i as int)),
        decreases rows@.len() - i,
    {
        let ghost before = records@;
        records.push(fields_of_row(&rows[i]));
        proof {
            assert(records_view(records@) =~= records_view(before).push(records@[i as int]@.map_values(|f: Vec<u8>| f@)));
            assert(rows_text(rows@.subrange(0, i + 1)) =~= rows_text(rows@.subrange(0, i as int)).push(
                row_text(rows@[i as int].0, rows@[i as int].1@)));
        }
        i = i + 1;
    }
    proof {
        assert(rows@.subrange(0, i as int) =~= rows@);
    }
    records
}

/// Writes persisted rows as csv text, one line per feed.
pub fn encode_averages(rows: &Vec<AverageRow>) -> (r: Option<Vec<u8>>)
    ensures
        r is Some,
        r matches Some(b) ==> b@ == csv_text(rows_text(rows@)),
{
    let records = records_of_rows(rows);
    proof {
        assert forall|i: int| 0 <= i < records@.len() implies (#[trigger] records@[i])@.len() == ROW_FIELDS by {
            assert(records_view(records@).len() == records@.len());
            assert(rows_text(rows@).len() == rows@.len());
            assert(records_view(records@)[i] == rows_text(rows@)[i]);
            assert(rows_text(rows@)[i] == row_text(rows@[i].0, rows@[i].1@));
            assert(row_text(rows@[i].0, rows@[i].1@).len() == 25);
            assert(records_view(records@)[i] == records@[i]@.map_values(|f: Vec<u8>| f@));
        }
    }
    write_csv(&records)
}

/// Each record written for rows reads back as its row.
pub proof fn lemma_rows_round_trip(rows: Seq<AverageRow>)
    ensures
        rows_of(rows_text(rows)) == Ok::<Seq<(i32, Seq<u32>)>, RowError>(rows_view(rows)),
    decreases rows.len(),
{
    if rows.len() > 0 {
        let prev = rows.drop_last();
        lemma_rows_round_trip(prev);
        assert(rows_text(rows).drop_last() =~= rows_text(prev));
        let last = rows.last();
        lemma_row_round_trip(last.0, last.1@);
        assert(rows_view(rows) =~= rows_view(prev).push((last.0, last.1@)));
    } else {
        assert(rows_view(rows) =~= seq![]);
    }
}

} // verus!
