//! Conversions between JSON and CSV for the file tools service: the table a
//! JSON array of objects makes, writing CSV text with the csv crate, reading
//! CSV records, and reading CSV cells as JSON scalars.

use vstd::prelude::*;
use crate::filter::{eq_ignore_ascii_case, eq_ignore_ascii_case_chars};
use crate::json::{get_member, jv, jv_list, jv_members, lemma_jv_list, lemma_jv_members, member, Json, JsonValue};
use crate::query::{all_digits, digits_value, parse_unsigned, parse_unsigned_chars, unsigned_digits};
use crate::text::{chars_of, sorted_set, sorted_set_of, string_from_chars, views};
use crate::tools::ToolError;
use crate::validate::texts;

verus! {

// ---------------------------------------------------------------------------
// Writing CSV text.
// ---------------------------------------------------------------------------

/// CSV text being written by the csv crate's `Writer`, into memory.
#[verifier::external_body]
pub struct CsvOut {
    inner: csv::Writer<Vec<u8>>,
}

/// The records written so far, in order.
pub uninterp spec fn csv_records(w: CsvOut) -> Seq<Seq<Seq<char>>>;

/// The CSV text that the csv crate's writer, as `Writer::from_writer` makes
/// it, produces for `records`.
pub uninterp spec fn csv_text(records: Seq<Seq<Seq<char>>>) -> Seq<u8>;

/// `Writer::from_writer` on an empty buffer: a writer with no records.
#[verifier::external_body]
fn csv_out() -> (r: CsvOut)
    ensures
        csv_records(r) == Seq::<Seq<Seq<char>>>::empty(),
{
    CsvOut { inner: csv::Writer::from_writer(Vec::new()) }
}

/// `Writer::write_record`, into memory. The writer is not flexible, so it
/// refuses a record whose number of fields differs from the first record's;
/// writing to a `Vec` fails in no other way. On success the record is the
/// last one written; on failure the writer is dropped.
#[verifier::external_body]
fn csv_write_record(w: CsvOut, record: &Vec<String>) -> (r: Result<CsvOut, String>)
    ensures
        r is Ok <==> (csv_records(w).len() == 0 || record@.len() == csv_records(w)[0].len()),
        r matches Ok(w2) ==> csv_records(w2) == csv_records(w).push(texts(record@)),
{
    let mut w = w;
    match w.inner.write_record(record) {
        Ok(()) => Ok(w),
        Err(e) => Err(e.to_string()),
    }
}

/// `Writer::into_inner`: the text of the records written. Flushing into a
/// `Vec` does not fail.
#[verifier::external_body]
fn csv_finish(w: CsvOut) -> (r: Result<Vec<u8>, String>)
    ensures
        r is Ok,
        r matches Ok(b) ==> b@ == csv_text(csv_records(w)),
{
    w.inner.into_inner().map_err(|e| e.to_string())
}

/// Every row has as many fields as the header line.
pub open spec fn rows_fit(headers: Seq<String>, rows: Seq<Vec<String>>) -> bool {
    forall|i: int| 0 <= i < rows.len() ==> (#[trigger] rows[i])@.len() == headers.len()
}

/// The CSV text of a header line and rows, read as UTF-8 (invalid sequences
/// replaced); a `500 csv_write_error` when a row has not as many fields as
/// the header line.
pub fn write_csv(headers: &Vec<String>, rows: &Vec<Vec<String>>) -> (r: Result<String, ToolError>)
    ensures
        r is Ok <==> rows_fit(headers@, rows@),
        r matches Ok(s) ==> s@ == crate::query::utf8_lossy(
            csv_text(seq![texts(headers@)] + rows@.map_values(|row: Vec<String>| texts(row@))),
        ),
        r matches Err(e) ==> e.status == 500 && e.code@ == "csv_write_error"@,
{
    let ghost all = seq![texts(headers@)] + rows@.map_values(|row: Vec<String>| texts(row@));
    let w0 = csv_out();
    let mut w = match csv_write_record(w0, headers) {
        Ok(w1) => w1,
        Err(msg) => {
            return Err(ToolError::new(500, "csv_write_error", msg.as_str()));
        },
    };
    let mut i: usize = 0;
    proof {
        assert(csv_records(w) =~= all.take(1));
    }
    while i < rows.len()
        invariant
            i <= rows@.len(),
            all == seq![texts(headers@)] + rows@.map_values(|row: Vec<String>| texts(row@)),
            csv_records(w) == all.take(i + 1),
            forall|k: int| 0 <= k < i ==> (#[trigger] rows@[k])@.len() == headers@.len(),
        decreases rows@.len() - i,
    {
        proof {
            assert(csv_records(w)[0] == texts(headers@));
        }
        w = match csv_write_record(w, &rows[i]) {
            Ok(w2) => w2,
            Err(msg) => {
                return Err(ToolError::new(500, "csv_write_error", msg.as_str()));
            },
        };
        proof {
            assert(all.take(i + 2) =~= all.take(i + 1).push(texts(rows@[i as int]@)));
        }
        i = i + 1;
    }
    proof {
        assert(all.take(rows@.len() as int + 1) =~= all);
    }
    match csv_finish(w) {
        Ok(bytes) => Ok(crate::query::string_from_utf8_lossy(bytes.as_slice())),
        Err(msg) => Err(ToolError::new(500, "csv_write_error", msg.as_str())),
    }
}

// ---------------------------------------------------------------------------
// The table of a JSON array of objects.
// ---------------------------------------------------------------------------

/// A CSV cell: text, or a nested array or object written as its JSON text.
#[derive(Debug)]
pub enum CsvCell {
    Text(String),
    Nested(JsonValue),
}

/// The text of a scalar cell value: empty for `null`, `true`/`false`,
/// the number's text, the string itself; `None` for arrays and objects,
/// which are written as JSON.
pub open spec fn cell_text(j: Json) -> Option<Seq<char>> {
    match j {
        Json::Null => Some(seq![]),
        Json::Bool(b) => Some(crate::json::bool_text(b)),
        Json::Number(t, _) => Some(t),
        Json::Str(s) => Some(s),
        _ => None,
    }
}

/// A cell as data: its text, or the nested value.
pub open spec fn cell_view(c: CsvCell) -> Result<Seq<char>, Json> {
    match c {
        CsvCell::Text(s) => Ok(s@),
        CsvCell::Nested(v) => Err(jv(v)),
    }
}

/// The cell of a value.
pub open spec fn cell_of(j: Json) -> Result<Seq<char>, Json> {
    match cell_text(j) {
        Some(t) => Ok(t),
        None => Err(j),
    }
}

/// The member names of the rows, in row order.
pub open spec fn all_names(rows: Seq<Json>) -> Seq<Seq<char>>
    decreases rows.len(),
{
    if rows.len() == 0 {
        seq![]
    } else {
        all_names(rows.drop_last()) + match rows.last() {
            Json::Object(m) => m.map_values(|e: (Seq<char>, Json)| e.0),
            _ => seq![],
        }
    }
}

/// The cells of a row under the headers: each header's member, `null` when
/// the row has none.
pub open spec fn row_cells(m: Seq<(Seq<char>, Json)>, headers: Seq<Seq<char>>) -> Seq<Result<Seq<char>, Json>> {
    headers.map_values(|h: Seq<char>| cell_of(
        match member(m, h) {
            Some(v) => v,
            None => Json::Null,
        },
    ))
}

/// Every row is an object.
pub open spec fn all_objects(rows: Seq<Json>) -> bool {
    forall|i: int| 0 <= i < rows.len() ==> (#[trigger] rows[i]) is Object
}

/// A CSV table: a header line and rows of cells.
#[derive(Debug)]
pub struct CsvTable {
    pub headers: Vec<String>,
    pub rows: Vec<Vec<CsvCell>>,
}

/// The cells of a table row as data.
pub open spec fn cells_view(row: Seq<CsvCell>) -> Seq<Result<Seq<char>, Json>> {
    row.map_values(|c: CsvCell| cell_view(c))
}

/// The cell of a value.
fn csv_cell(v: &JsonValue) -> (r: CsvCell)
    ensures
        cell_view(r) == cell_of(jv(*v)),
{
    match v {
        JsonValue::Null => CsvCell::Text(String::new()),
        JsonValue::Bool(b) => {
            let t: Vec<char> = if *b {
                vec!['t', 'r', 'u', 'e']
            } else {
                vec!['f', 'a', 'l', 's', 'e']
            };
            proof {
                assert(t@ =~= crate::json::bool_text(*b));
            }
            CsvCell::Text(string_from_chars(t.as_slice()))
        },
        JsonValue::Number(n) => CsvCell::Text(n.text.clone()),
        JsonValue::String(s) => CsvCell::Text(s.clone()),
        _ => CsvCell::Nested(v.deep_clone()),
    }
}

/// The table a JSON array of objects makes: headers are the member names of
/// all rows, sorted and without repeats; each row holds, under each header,
/// its member's cell (empty when it has none). A value that is not an array,
/// or an array with a non-object item, is refused with a `400`.
pub fn json_to_csv_table(value: &JsonValue) -> (r: Result<CsvTable, ToolError>)
    ensures
        !(jv(*value) is Array) ==> (r matches Err(e) && e.status == 400 && e.code@ == "invalid_input"@
            && e.message@ == "expected a JSON array of flat objects"@),
        jv(*value) matches Json::Array(rows) ==> {
            &&& !all_objects(rows) ==> (r matches Err(e) && e.status == 400 && e.code@ == "invalid_input"@
                && e.message@ == "each array item must be an object"@)
            &&& all_objects(rows) ==> (r matches Ok(t) && texts(t.headers@) == sorted_set(all_names(rows))
                && t.rows@.len() == rows.len() && forall|i: int|
                0 <= i < rows.len() ==> (rows[i] matches Json::Object(m) && cells_view(
                    (#[trigger] t.rows@[i])@,
                ) == row_cells(m, sorted_set(all_names(rows)))))
        },
{
    let items = match value {
        JsonValue::Array(a) => a,
        _ => {
            return Err(ToolError::new(400, "invalid_input", "expected a JSON array of flat objects"));
        },
    };
    let ghost rows = jv_list(items@);
    proof {
        lemma_jv_list(items@);
    }
    let mut names: Vec<Vec<char>> = Vec::new();
    let mut i: usize = 0;
    proof {
        assert(rows.take(0) =~= Seq::<Json>::empty());
        assert(views(names@) =~= Seq::<Seq<char>>::empty());
    }
    while i < items.len()
        invariant
            i <= items@.len(),
            rows == jv_list(items@),
            rows.len() == items@.len(),
            forall|k: int| 0 <= k < items@.len() ==> #[trigger] rows[k] == jv(items@[k]),
            all_objects(rows.take(i as int)),
            views(names@) == all_names(rows.take(i as int)),
            *value == JsonValue::Array(*items),
        decreases items@.len() - i,
    {
        proof {
            assert(rows.take(i + 1).drop_last() =~= rows.take(i as int));
            assert(rows.take(i + 1).last() == rows[i as int]);
        }
        match &items[i] {
            JsonValue::Object(m) => {
                proof {
                    lemma_jv_members(m@);
                }
                let ghost before = views(names@);
                let mut k: usize = 0;
                while k < m.len()
                    invariant
                        k <= m@.len(),
                        jv_members(m@).len() == m@.len(),
                        forall|j: int| 0 <= j < m@.len() ==> #[trigger] jv_members(m@)[j] == (m@[j].0@, jv(m@[j].1)),
                        views(names@) == before + jv_members(m@).take(k as int).map_values(
                            |e: (Seq<char>, Json)| e.0,
                        ),
                    decreases m@.len() - k,
                {
                    let ghost prev = views(names@);
                    names.push(chars_of(m[k].0.as_str()));
                    proof {
                        assert(views(names@) =~= prev.push(m@[k as int].0@));
                        assert(jv_members(m@).take(k + 1).map_values(|e: (Seq<char>, Json)| e.0) =~= jv_members(
                            m@,
                        ).take(k as int).map_values(|e: (Seq<char>, Json)| e.0).push(m@[k as int].0@));
                    }
                    k = k + 1;
                }
                proof {
                    assert(jv_members(m@).take(m@.len() as int) =~= jv_members(m@));
                    assert(all_objects(rows.take(i + 1))) by {
                        assert forall|j: int| 0 <= j < rows.take(i + 1).len() implies (#[trigger] rows.take(
                            i + 1,
                        )[j]) is Object by {
                            if j < i {
                                assert(rows.take(i + 1)[j] == rows.take(i as int)[j]);
                            }
                        }
                    }
                }
            },
            _ => {
                proof {
                    assert(!(rows[i as int] is Object));
                    assert(!all_objects(rows));
                }
                return Err(ToolError::new(400, "invalid_input", "each array item must be an object"));
            },
        }
        i = i + 1;
    }
    proof {
        assert(rows.take(items@.len() as int) =~= rows);
    }
    let sorted = sorted_set_of(&names);
    let ghost hs = views(sorted@);
    let mut headers: Vec<String> = Vec::new();
    let mut h: usize = 0;
    while h < sorted.len()
        invariant
            h <= sorted@.len(),
            hs == views(sorted@),
            texts(headers@) == hs.take(h as int),
        decreases sorted@.len() - h,
    {
        let ghost prev = texts(headers@);
        headers.push(string_from_chars(sorted[h].as_slice()));
        proof {
            assert(texts(headers@) =~= prev.push(hs[h as int]));
            assert(hs.take(h + 1) =~= hs.take(h as int).push(hs[h as int]));
        }
        h = h + 1;
    }
    proof {
        assert(hs.take(sorted@.len() as int) =~= hs);
    }
    let mut table_rows: Vec<Vec<CsvCell>> = Vec::new();
    let mut r: usize = 0;
    while r < items.len()
        invariant
            r <= items@.len(),
            rows == jv_list(items@),
            rows.len() == items@.len(),
            forall|k: int| 0 <= k < items@.len() ==> #[trigger] rows[k] == jv(items@[k]),
            all_objects(rows),
            texts(headers@) == hs,
            hs == sorted_set(all_names(rows)),
            table_rows@.len() == r,
            forall|k: int|
                0 <= k < r ==> (rows[k] matches Json::Object(m) && cells_view((#[trigger] table_rows@[k])@)
                    == row_cells(m, hs)),
        decreases items@.len() - r,
    {
        proof {
            assert(rows[r as int] is Object);
        }
        match &items[r] {
            JsonValue::Object(m) => {
                let mut cells: Vec<CsvCell> = Vec::new();
                let mut c: usize = 0;
                while c < headers.len()
                    invariant
                        c <= headers@.len(),
                        texts(headers@) == hs,
                        cells_view(cells@) == row_cells(jv_members(m@), hs).take(c as int),
                    decreases headers@.len() - c,
                {
                    let cell = match get_member(m, headers[c].as_str()) {
                        Some(v) => csv_cell(v),
                        None => CsvCell::Text(String::new()),
                    };
                    let ghost prev = cells_view(cells@);
                    cells.push(cell);
                    proof {
                        assert(hs[c as int] == headers@[c as int]@);
                        assert(cells_view(cells@) =~= prev.push(cell_view(cell)));
                        assert(row_cells(jv_members(m@), hs).take(c + 1) =~= row_cells(jv_members(m@), hs).take(
                            c as int,
                        ).push(row_cells(jv_members(m@), hs)[c as int]));
                    }
                    c = c + 1;
                }
                proof {
                    assert(row_cells(jv_members(m@), hs).take(hs.len() as int) =~= row_cells(jv_members(m@), hs));
                    assert(rows[r as int] == jv(items@[r as int]));
                }
                table_rows.push(cells);
            },
            _ => {},
        }
        r = r + 1;
    }
    Ok(CsvTable { headers, rows: table_rows })
}

// ---------------------------------------------------------------------------
// Reading CSV text.
// ---------------------------------------------------------------------------

/// CSV text being read by the csv crate's `Reader`, with a header line.
#[verifier::external_body]
pub struct CsvIn<'a> {
    inner: csv::Reader<&'a [u8]>,
}

/// A CSV reader, with the bytes it reads and how far it has got: `reads`
/// calls of `Reader::read_record` made, and `ready` while the header line
/// was read and every one of those calls gave a record.
pub struct CsvSource<'a> {
    reader: CsvIn<'a>,
    source: Ghost<Seq<u8>>,
    reads: Ghost<nat>,
    ready: Ghost<bool>,
}

/// The fields that `Reader::headers` reads from the first line of `bytes`,
/// or `None` where it fails.
pub uninterp spec fn csv_header(bytes: Seq<u8>) -> Option<Seq<Seq<char>>>;

/// What call number `k` (from 0) of `Reader::read_record` gives on a reader
/// over `bytes` whose header line was read and whose earlier calls all gave
/// records: `None` for an error, `Some(None)` at the end of the text, and
/// otherwise the fields of the record read.
pub uninterp spec fn csv_record(bytes: Seq<u8>, k: nat) -> Option<Option<Seq<Seq<char>>>>;

/// `Reader::from_reader` over the bytes: nothing read yet.
#[verifier::external_body]
fn csv_in<'a>(body: &'a [u8]) -> (r: CsvSource<'a>)
    ensures
        r.source@ == body@,
        r.reads@ == 0,
        !r.ready@,
{
    CsvSource { reader: CsvIn { inner: csv::Reader::from_reader(body) }, source: Ghost(body@), reads: Ghost(0), ready: Ghost(false) }
}

/// `Reader::headers`, as the first call on the reader: the fields of the
/// header line, or the reader's error text.
#[verifier::external_body]
fn csv_headers(r: &mut CsvSource) -> (h: Result<Vec<String>, String>)
    requires
        old(r).reads@ == 0,
        !old(r).ready@,
    ensures
        final(r).source@ == old(r).source@,
        final(r).reads@ == 0,
        final(r).ready@ == h is Ok,
        h matches Ok(v) ==> csv_header(old(r).source@) == Some(texts(v@)),
        h is Err ==> csv_header(old(r).source@) is None,
{
    let out = match r.reader.inner.headers() {
        Ok(record) => Ok(record.iter().map(|f| f.to_string()).collect()),
        Err(e) => Err(e.to_string()),
    };
    r.ready = Ghost(out is Ok);
    out
}

/// `Reader::read_record`: the fields of the next record, `None` at the end,
/// or the reader's error text.
#[verifier::external_body]
fn csv_next_record(r: &mut CsvSource) -> (rec: Result<Option<Vec<String>>, String>)
    requires
        old(r).ready@,
    ensures
        final(r).source@ == old(r).source@,
        final(r).reads@ == old(r).reads@ + 1,
        final(r).ready@ == rec matches Ok(Some(_)),
        rec matches Ok(Some(v)) ==> csv_record(old(r).source@, old(r).reads@) == Some(Some(texts(v@))),
        rec matches Ok(None) ==> csv_record(old(r).source@, old(r).reads@) == Some(None::<Seq<Seq<char>>>),
        rec is Err ==> csv_record(old(r).source@, old(r).reads@) is None,
{
    let mut record = csv::StringRecord::new();
    let out = match r.reader.inner.read_record(&mut record) {
        Ok(true) => Ok(Some(record.iter().map(|f| f.to_string()).collect())),
        Ok(false) => Ok(None),
        Err(e) => Err(e.to_string()),
    };
    r.reads = Ghost(r.reads@ + 1);
    r.ready = Ghost(out matches Ok(Some(_)));
    out
}

/// The first `n` calls of `Reader::read_record` on `bytes` give records.
pub open spec fn csv_records_read(bytes: Seq<u8>, n: nat) -> bool {
    forall|k: nat| k < n ==> #[trigger] csv_record(bytes, k) matches Some(Some(_))
}

/// `rows` are the fields of the first records of `bytes`, in order.
pub open spec fn csv_rows_are(bytes: Seq<u8>, rows: Seq<Vec<String>>) -> bool {
    forall|k: int| 0 <= k < rows.len() ==> csv_record(bytes, k as nat) == Some(Some(texts((#[trigger] rows[k])@)))
}

/// The header fields and records of CSV text, as the csv crate reads them:
/// a `400 invalid_csv` error when the header line cannot be read, a
/// `400 invalid_csv_record` error at the first record that cannot be read,
/// and otherwise the header fields and every record up to the end of the
/// text (or as many as a `Vec` can count).
pub fn read_csv(body: &[u8]) -> (r: Result<(Vec<String>, Vec<Vec<String>>), ToolError>)
    ensures
        r matches Err(e) ==> e.status == 400 && (e.code@ == "invalid_csv"@ || e.code@ == "invalid_csv_record"@),
        (r matches Err(e) && e.code@ == "invalid_csv"@) <==> csv_header(body@) is None,
        r matches Ok((h, rows)) ==> csv_header(body@) == Some(texts(h@)) && csv_rows_are(body@, rows@) && (rows@.len()
            < usize::MAX ==> csv_record(body@, rows@.len()) == Some(None::<Seq<Seq<char>>>)),
        r matches Err(e) && e.code@ == "invalid_csv_record"@ ==> exists|n: nat|
            csv_records_read(body@, n) && #[trigger] csv_record(body@, n) is None,
{
    proof {
        reveal_strlit("invalid_csv");
        reveal_strlit("invalid_csv_record");
        assert("invalid_csv"@.len() != "invalid_csv_record"@.len());
    }
    let mut reader = csv_in(body);
    let headers = match csv_headers(&mut reader) {
        Ok(h) => h,
        Err(msg) => {
            return Err(ToolError::new(400, "invalid_csv", msg.as_str()));
        },
    };
    let mut records: Vec<Vec<String>> = Vec::new();
    loop
        invariant_except_break
            reader.source@ == body@,
            reader.ready@,
            csv_header(body@) == Some(texts(headers@)),
            "invalid_csv"@ != "invalid_csv_record"@,
            reader.reads@ == records@.len(),
            csv_rows_are(body@, records@),
        ensures
            csv_rows_are(body@, records@),
            records@.len() < usize::MAX ==> csv_record(body@, records@.len()) == Some(None::<Seq<Seq<char>>>),
        decreases usize::MAX - records@.len(),
    {
        match csv_next_record(&mut reader) {
            Ok(Some(rec)) => {
                if records.len() == usize::MAX {
                    break;
                }
                let ghost before = records@;
                records.push(rec);
                proof {
                    assert forall|k: int| 0 <= k < records@.len() implies csv_record(body@, k as nat) == Some(
                        Some(texts((#[trigger] records@[k])@)),
                    ) by {
                        if k < before.len() {
                            assert(records@[k] == before[k]);
                        }
                    }
                }
            },
            Ok(None) => {
                break;
            },
            Err(msg) => {
                proof {
                    let n = records@.len() as nat;
                    assert forall|k: nat| k < n implies #[trigger] csv_record(body@, k) matches Some(Some(_)) by {
                        assert(csv_record(body@, k as int as nat) == Some(Some(texts(records@[k as int]@))));
                    }
                    assert(csv_records_read(body@, n));
                }
                return Err(ToolError::new(400, "invalid_csv_record", msg.as_str()));
            },
        }
    }
    Ok((headers, records))
}

// ---------------------------------------------------------------------------
// Reading CSV cells.
// ---------------------------------------------------------------------------

/// A CSV cell read as JSON: `null`, a boolean, an integer, or raw text left
/// for the float, JSON and string readings.
#[derive(Debug)]
pub enum CsvValue {
    Null,
    Bool(bool),
    Integer(i64),
    Unresolved(String),
}

/// A signed integer as `str::parse::<i64>` reads it: an optional `+` or `-`
/// and one or more ASCII digits, within the range of `i64`.
pub open spec fn parse_i64(s: Seq<char>) -> Option<int> {
    if s.len() > 0 && s[0] == '-' {
        let d = s.drop_first();
        if d.len() > 0 && all_digits(d) && digits_value(d) <= 0x8000_0000_0000_0000 {
            Some(-digits_value(d))
        } else {
            None
        }
    } else {
        parse_unsigned(s, 0x7fff_ffff_ffff_ffff)
    }
}

/// How a CSV cell reads as JSON: empty is `null`, `true` and `false` in any
/// ASCII case are booleans, an `i64` is an integer; anything else is left
/// unresolved.
pub open spec fn csv_value_spec(raw: Seq<char>) -> CsvValueView {
    if raw.len() == 0 {
        CsvValueView::Null
    } else if eq_ignore_ascii_case(raw, "true"@) {
        CsvValueView::Bool(true)
    } else if eq_ignore_ascii_case(raw, "false"@) {
        CsvValueView::Bool(false)
    } else if parse_i64(raw) is Some {
        CsvValueView::Integer(parse_i64(raw)->0)
    } else {
        CsvValueView::Unresolved(raw)
    }
}

/// A read cell as data.
pub enum CsvValueView {
    Null,
    Bool(bool),
    Integer(int),
    Unresolved(Seq<char>),
}

/// A read cell as data.
pub open spec fn csv_value_view(v: CsvValue) -> CsvValueView {
    match v {
        CsvValue::Null => CsvValueView::Null,
        CsvValue::Bool(b) => CsvValueView::Bool(b),
        CsvValue::Integer(n) => CsvValueView::Integer(n as int),
        CsvValue::Unresolved(s) => CsvValueView::Unresolved(s@),
    }
}

/// Reads a signed 64-bit integer.
fn parse_i64_chars(s: &[char]) -> (r: Option<i64>)
    ensures
        r matches Some(v) ==> parse_i64(s@) == Some(v as int),
        r is None ==> parse_i64(s@) is None,
{
    if s.len() > 0 && s[0] == '-' {
        let rest = crate::text::slice_chars(s, 1, s.len());
        proof {
            assert(rest@ =~= s@.drop_first());
        }
        if rest.len() > 0 && rest[0] == '+' {
            proof {
                assert(!crate::query::is_digit(rest@[0]));
            }
            return None;
        }
        proof {
            assert(unsigned_digits(rest@) == rest@);
        }
        match parse_unsigned_chars(rest.as_slice(), 0x8000_0000_0000_0000u64) {
            Some(v) => {
                if v == 0x8000_0000_0000_0000u64 {
                    Some(i64::MIN)
                } else {
                    Some(-(v as i64))
                }
            },
            None => None,
        }
    } else {
        match parse_unsigned_chars(s, 0x7fff_ffff_ffff_ffffu64) {
            Some(v) => Some(v as i64),
            None => None,
        }
    }
}

/// Reads a CSV cell as JSON, as far as it is an empty cell, a boolean or an
/// integer.
pub fn parse_csv_cell(raw: &str) -> (r: CsvValue)
    ensures
        csv_value_view(r) == csv_value_spec(raw@),
{
    let c = chars_of(raw);
    if c.len() == 0 {
        return CsvValue::Null;
    }
    let t = chars_of("true");
    let f = chars_of("false");
    if eq_ignore_ascii_case_chars(c.as_slice(), t.as_slice()) {
        return CsvValue::Bool(true);
    }
    if eq_ignore_ascii_case_chars(c.as_slice(), f.as_slice()) {
        return CsvValue::Bool(false);
    }
    match parse_i64_chars(c.as_slice()) {
        Some(n) => CsvValue::Integer(n),
        None => CsvValue::Unresolved(raw.to_owned()),
    }
}

/// The objects of CSV records: each header paired with the record's field
/// at its position (empty when the record is shorter), read as a cell.
pub open spec fn record_object(headers: Seq<Seq<char>>, record: Seq<Seq<char>>) -> Seq<(Seq<char>, CsvValueView)> {
    Seq::new(
        headers.len(),
        |i: int| (headers[i], csv_value_spec(if i < record.len() {
            record[i]
        } else {
            seq![]
        })),
    )
}

/// A read object as data.
pub open spec fn object_view(o: Seq<(String, CsvValue)>) -> Seq<(Seq<char>, CsvValueView)> {
    o.map_values(|e: (String, CsvValue)| (e.0@, csv_value_view(e.1)))
}

/// The objects of CSV records under their header fields, in record order.
pub fn csv_records_to_objects(headers: &Vec<String>, records: &Vec<Vec<String>>) -> (r: Vec<
    Vec<(String, CsvValue)>,
>)
    ensures
        r@.len() == records@.len(),
        forall|i: int|
            0 <= i < records@.len() ==> object_view((#[trigger] r@[i])@) == record_object(
                texts(headers@),
                texts(records@[i]@),
            ),
{
    let mut out: Vec<Vec<(String, CsvValue)>> = Vec::new();
    let mut i: usize = 0;
    while i < records.len()
        invariant
            i <= records@.len(),
            out@.len() == i,
            forall|k: int|
                0 <= k < i ==> object_view((#[trigger] out@[k])@) == record_object(
                    texts(headers@),
                    texts(records@[k]@),
                ),
        decreases records@.len() - i,
    {
        let record = &records[i];
        let ghost want = record_object(texts(headers@), texts(record@));
        let mut obj: Vec<(String, CsvValue)> = Vec::new();
        let mut j: usize = 0;
        while j < headers.len()
            invariant
                j <= headers@.len(),
                want == record_object(texts(headers@), texts(record@)),
                object_view(obj@) == want.take(j as int),
            decreases headers@.len() - j,
        {
            let raw: &str = if j < record.len() {
                record[j].as_str()
            } else {
                ""
            };
            proof {
                reveal_strlit("");
            }
            let v = parse_csv_cell(raw);
            let ghost prev = object_view(obj@);
            obj.push((headers[j].clone(), v));
            proof {
                assert(object_view(obj@) =~= prev.push((headers@[j as int]@, csv_value_view(v))));
                assert(want.take(j + 1) =~= want.take(j as int).push(want[j as int]));
            }
            j = j + 1;
        }
        proof {
            assert(want.take(headers@.len() as int) =~= want);
        }
        out.push(obj);
        i = i + 1;
    }
    out
}

} // verus!
