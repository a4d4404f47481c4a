//! RFC-4180 CSV text: quoting fields on export and splitting records on
//! import, so that what `csv_row` writes `parse_csv_records` reads back.

use vstd::prelude::*;
use crate::date::{parse_iso_date_text, Date};
use crate::text::{
    chars_of, decimal_text, parse_i32_chars, parse_i32_spec, parse_u64_chars, parse_u64_spec,
    push_char, push_text, signed_decimal_text, string_of, trim_chars, trim_spec, u64_text,
};

verus! {

/// A field needs quoting when it holds a comma, a double quote or a line break.
pub open spec fn needs_quotes(s: Seq<char>) -> bool {
    s.contains(',') || s.contains('"') || s.contains('\n') || s.contains('\r')
}

/// `s` with every double quote doubled.
pub open spec fn escape_quotes(s: Seq<char>) -> Seq<char>
    decreases s.len(),
{
    if s.len() == 0 {
        Seq::empty()
    } else {
        (if s[0] == '"' { seq!['"', '"'] } else { seq![s[0]] }) + escape_quotes(s.skip(1))
    }
}

/// The text of one field: quoted (with doubled quotes) when it needs it.
pub open spec fn field_text(s: Seq<char>) -> Seq<char> {
    if needs_quotes(s) {
        seq!['"'] + escape_quotes(s) + seq!['"']
    } else {
        s
    }
}

/// The fields of a row joined by commas.
pub open spec fn fields_text(fs: Seq<Seq<char>>) -> Seq<char>
    decreases fs.len(),
{
    if fs.len() == 0 {
        Seq::empty()
    } else if fs.len() == 1 {
        field_text(fs[0])
    } else {
        field_text(fs[0]) + seq![','] + fields_text(fs.skip(1))
    }
}

/// The text of one row: its fields joined by commas, then a newline.
pub open spec fn row_text(fs: Seq<Seq<char>>) -> Seq<char> {
    fields_text(fs) + seq!['\n']
}

/// The text of several rows, one after the other.
pub open spec fn rows_text(rs: Seq<Seq<Seq<char>>>) -> Seq<char>
    decreases rs.len(),
{
    if rs.len() == 0 {
        Seq::empty()
    } else {
        row_text(rs[0]) + rows_text(rs.skip(1))
    }
}

/// Where the record scanner stands: the finished records, the fields of the
/// current record, the current field, and whether it is inside quotes.
#[verifier::ext_equal]
pub struct CsvScan {
    pub records: Seq<Seq<Seq<char>>>,
    pub record: Seq<Seq<char>>,
    pub field: Seq<char>,
    pub in_quotes: bool,
}

pub open spec fn scan_start() -> CsvScan {
    CsvScan { records: Seq::empty(), record: Seq::empty(), field: Seq::empty(), in_quotes: false }
}

/// One step of the scanner on the front of `s`: how many characters it
/// consumes and the state after them.
pub open spec fn scan_step(s: Seq<char>, st: CsvScan) -> (int, CsvScan)
    recommends
        s.len() > 0,
{
    let c = s[0];
    let next_is = |x: char| s.len() > 1 && s[1] == x;
    if st.in_quotes {
        if c == '"' && next_is('"') {
            (2, CsvScan { field: st.field.push('"'), ..st })
        } else if c == '"' {
            (1, CsvScan { in_quotes: false, ..st })
        } else {
            (1, CsvScan { field: st.field.push(c), ..st })
        }
    } else if c == '"' {
        (1, CsvScan { in_quotes: true, ..st })
    } else if c == ',' {
        (1, CsvScan { record: st.record.push(st.field), field: Seq::empty(), ..st })
    } else if c == '\r' && next_is('\n') {
        (1, st)
    } else if c == '\n' || c == '\r' {
        (1, CsvScan {
            records: st.records.push(st.record.push(st.field)),
            record: Seq::empty(),
            field: Seq::empty(),
            ..st
        })
    } else {
        (1, CsvScan { field: st.field.push(c), ..st })
    }
}

/// The scanner state after all of `s`.
pub open spec fn scan(s: Seq<char>, st: CsvScan) -> CsvScan
    decreases s.len(),
{
    if s.len() == 0 {
        st
    } else {
        let (k, next) = scan_step(s, st);
        scan(s.skip(k), next)
    }
}

/// The records of a CSV body: the scanner's records, plus a final record
/// that ended without a newline.
pub open spec fn parse_records_spec(s: Seq<char>) -> Seq<Seq<Seq<char>>> {
    let st = scan(s, scan_start());
    if st.field.len() > 0 || st.record.len() > 0 {
        st.records.push(st.record.push(st.field))
    } else {
        st.records
    }
}

/// Quotes a single field if it contains commas, double quotes or line breaks.
pub fn csv_field(s: &str) -> (r: String)
    ensures
        r@ == field_text(s@),
{
    let cs = chars_of(s);
    let mut special = false;
    let mut i: usize = 0;
    while i < cs.len()
        invariant
            i <= cs@.len(),
            cs@ == s@,
            special <==> exists|j: int| 0 <= j < i && (cs@[j] == ',' || cs@[j] == '"' || cs@[j] == '\n' || cs@[j] == '\r'),
        decreases cs.len() - i,
    {
        let c = cs[i];
        if c == ',' || c == '"' || c == '\n' || c == '\r' {
            special = true;
        }
        i += 1;
    }
    proof {
        if special {
            let j = choose|j: int| 0 <= j < cs@.len() && (cs@[j] == ',' || cs@[j] == '"' || cs@[j] == '\n' || cs@[j] == '\r');
            assert(cs@[j] == s@[j]);
        }
        if needs_quotes(s@) {
            if s@.contains(',') {
                let j = choose|j: int| 0 <= j < s@.len() && s@[j] == ',';
                assert(cs@[j] == ',');
            } else if s@.contains('"') {
                let j = choose|j: int| 0 <= j < s@.len() && s@[j] == '"';
                assert(cs@[j] == '"');
            } else if s@.contains('\n') {
                let j = choose|j: int| 0 <= j < s@.len() && s@[j] == '\n';
                assert(cs@[j] == '\n');
            } else {
                let j = choose|j: int| 0 <= j < s@.len() && s@[j] == '\r';
                assert(cs@[j] == '\r');
            }
        }
    }
    if !special {
        return string_of(&cs);
    }
    let mut out = String::new();
    push_char(&mut out, '"');
    let mut k: usize = 0;
    while k < cs.len()
        invariant
            k <= cs@.len(),
            out@ == seq!['"'] + escape_quotes(cs@.take(k as int)),
        decreases cs.len() - k,
    {
        let c = cs[k];
        proof {
            lemma_escape_quotes_push(cs@.take(k as int), c);
            assert(cs@.take(k + 1) =~= cs@.take(k as int).push(c));
        }
        if c == '"' {
            push_char(&mut out, '"');
            push_char(&mut out, '"');
        } else {
            push_char(&mut out, c);
        }
        k += 1;
    }
    push_char(&mut out, '"');
    assert(cs@.take(k as int) =~= cs@);
    out
}

proof fn lemma_escape_quotes_push(s: Seq<char>, c: char)
    ensures
        escape_quotes(s.push(c)) == escape_quotes(s) + if c == '"' { seq!['"', '"'] } else { seq![c] },
    decreases s.len(),
{
    if s.len() == 0 {
        assert(s.push(c).skip(1) =~= Seq::<char>::empty());
        assert(escape_quotes(Seq::<char>::empty()) == Seq::<char>::empty());
    } else {
        assert(s.push(c).skip(1) =~= s.skip(1).push(c));
        lemma_escape_quotes_push(s.skip(1), c);
        assert(s.push(c)[0] == s[0]);
    }
    assert(escape_quotes(s.push(c)) =~= escape_quotes(s) + if c == '"' { seq!['"', '"'] } else { seq![c] });
}

proof fn lemma_fields_text_push(fs: Seq<Seq<char>>, f: Seq<char>)
    requires
        fs.len() >= 1,
    ensures
        fields_text(fs.push(f)) == fields_text(fs) + seq![','] + field_text(f),
    decreases fs.len(),
{
    assert(fs.push(f)[0] == fs[0]);
    assert(fs.push(f).skip(1) =~= fs.skip(1).push(f));
    if fs.len() == 1 {
        assert(fs.skip(1).push(f) =~= seq![f]);
        assert(fields_text(seq![f]) == field_text(f));
    } else {
        lemma_fields_text_push(fs.skip(1), f);
    }
    assert(fields_text(fs.push(f)) =~= fields_text(fs) + seq![','] + field_text(f));
}

/// Formats one CSV row from a slice of field values.
pub fn csv_row(fields: &[&str]) -> (r: String)
    ensures
        r@ == row_text(fields@.map_values(|f: &str| f@)),
{
    let ghost fs = fields@.map_values(|f: &str| f@);
    let mut out = String::new();
    let mut i: usize = 0;
    while i < fields.len()
        invariant
            i <= fields@.len(),
            fs == fields@.map_values(|f: &str| f@),
            out@ == fields_text(fs.take(i as int)),
        decreases fields.len() - i,
    {
        let ghost before = out@;
        if i > 0 {
            push_char(&mut out, ',');
        }
        let f = csv_field(fields[i]);
        crate::text::push_text(&mut out, f.as_str());
        proof {
            assert(fs.take(i + 1) =~= fs.take(i as int).push(fs[i as int]));
            if i == 0 {
                assert(fs.take(1) =~= seq![fs[0]]);
                assert(fields_text(seq![fs[0]]) == field_text(fs[0]));
            } else {
                lemma_fields_text_push(fs.take(i as int), fs[i as int]);
            }
            assert(out@ =~= fields_text(fs.take(i + 1)));
        }
        i += 1;
    }
    push_char(&mut out, '\n');
    assert(fs.take(i as int) =~= fs);
    out
}

/// Splits a CSV body into records, each a vector of fields. Quoted fields
/// may hold commas, doubled quotes and line breaks; records end at line
/// breaks outside quotes (`\n`, `\r\n` or a lone `\r`); a final newline adds
/// no empty record.
pub fn parse_csv_records(body: &str) -> (r: Vec<Vec<String>>)
    ensures
        r.deep_view() == parse_records_spec(body@),
        r@.len() <= body@.len() + 1,
{
    let cs = chars_of(body);
    let mut records: Vec<Vec<String>> = Vec::new();
    let mut record: Vec<String> = Vec::new();
    let mut field: Vec<char> = Vec::new();
    let mut in_quotes = false;
    let mut i: usize = 0;
    assert(cs@.skip(0) =~= cs@);
    assert(records.deep_view() =~= Seq::<Seq<Seq<char>>>::empty());
    assert(record.deep_view() =~= Seq::<Seq<char>>::empty());
    assert(field@ =~= Seq::<char>::empty());
    while i < cs.len()
        invariant
            i <= cs@.len(),
            cs@ == body@,
            scan(cs@.skip(i as int), CsvScan {
                records: records.deep_view(),
                record: record.deep_view(),
                field: field@,
                in_quotes,
            }) == scan(cs@, scan_start()),
            records@.len() <= i,
        decreases cs.len() - i,
    {
        let ghost rest = cs@.skip(i as int);
        let ghost st = CsvScan { records: records.deep_view(), record: record.deep_view(), field: field@, in_quotes };
        let c = cs[i];
        let next_is_quote = i + 1 < cs.len() && cs[i + 1] == '"';
        let next_is_newline = i + 1 < cs.len() && cs[i + 1] == '\n';
        assert(rest[0] == c);
        assert(rest.len() > 1 ==> rest[1] == cs@[i + 1]);
        let mut k: usize = 1;
        if in_quotes {
            if c == '"' && next_is_quote {
                field.push('"');
                k = 2;
            } else if c == '"' {
                in_quotes = false;
            } else {
                field.push(c);
            }
        } else if c == '"' {
            in_quotes = true;
        } else if c == ',' {
            let f = string_of(&field);
            let ghost rv = record.deep_view();
            record.push(f);
            assert(record.deep_view() =~= rv.push(field@));
            field = Vec::new();
        } else if c == '\r' && next_is_newline {
        } else if c == '\n' || c == '\r' {
            let f = string_of(&field);
            let ghost rv = record.deep_view();
            record.push(f);
            assert(record.deep_view() =~= rv.push(field@));
            let mut done: Vec<String> = Vec::new();
            std::mem::swap(&mut done, &mut record);
            let ghost recs = records.deep_view();
            records.push(done);
            assert(records.deep_view() =~= recs.push(rv.push(field@)));
            field = Vec::new();
            assert(record.deep_view() =~= Seq::<Seq<char>>::empty());
        } else {
            field.push(c);
        }
        proof {
            let (sk, nxt) = scan_step(rest, st);
            assert(sk == k);
            assert(nxt == CsvScan { records: records.deep_view(), record: record.deep_view(), field: field@, in_quotes });
            assert(rest.skip(sk) =~= cs@.skip(i + k));
        }
        i += k;
    }
    assert(cs@.skip(i as int) =~= Seq::<char>::empty());
    if field.len() > 0 || record.len() > 0 {
        let f = string_of(&field);
        let ghost rv = record.deep_view();
        record.push(f);
        assert(record.deep_view() =~= rv.push(field@));
        let ghost recs = records.deep_view();
        records.push(record);
        assert(records.deep_view() =~= recs.push(rv.push(field@)));
    }
    records
}

// ── the round trip ──────────────────────────────────────────────────────────

proof fn lemma_plain_chars(f: Seq<char>, j: int)
    requires
        !needs_quotes(f),
        0 <= j < f.len(),
    ensures
        f[j] != ',' && f[j] != '"' && f[j] != '\n' && f[j] != '\r',
{
    if f[j] == ',' {
        assert(f.contains(','));
    }
    if f[j] == '"' {
        assert(f.contains('"'));
    }
    if f[j] == '\n' {
        assert(f.contains('\n'));
    }
    if f[j] == '\r' {
        assert(f.contains('\r'));
    }
}

proof fn lemma_plain_skip(f: Seq<char>)
    requires
        !needs_quotes(f),
        f.len() > 0,
    ensures
        !needs_quotes(f.skip(1)),
{
    let g = f.skip(1);
    assert forall|j: int| 0 <= j < g.len() implies g[j] != ',' && g[j] != '"' && g[j] != '\n' && g[j] != '\r' by {
        lemma_plain_chars(f, j + 1);
    }
    if g.contains(',') {
        let j = choose|j: int| 0 <= j < g.len() && g[j] == ',';
    }
    if g.contains('"') {
        let j = choose|j: int| 0 <= j < g.len() && g[j] == '"';
    }
    if g.contains('\n') {
        let j = choose|j: int| 0 <= j < g.len() && g[j] == '\n';
    }
    if g.contains('\r') {
        let j = choose|j: int| 0 <= j < g.len() && g[j] == '\r';
    }
}

/// An unquoted field's characters go straight into the current field.
proof fn lemma_scan_plain(f: Seq<char>, rest: Seq<char>, st: CsvScan)
    requires
        !needs_quotes(f),
        !st.in_quotes,
    ensures
        scan(f + rest, st) == scan(rest, (CsvScan { field: st.field + f, ..st })),
    decreases f.len(),
{
    if f.len() == 0 {
        assert(f + rest =~= rest);
        assert(st.field + f =~= st.field);
        assert(CsvScan { field: st.field + f, ..st } =~= st);
    } else {
        let t = f + rest;
        let c = f[0];
        lemma_plain_chars(f, 0);
        assert(t[0] == c);
        lemma_plain_skip(f);
        assert(t.skip(1) =~= f.skip(1) + rest);
        let st2 = CsvScan { field: st.field.push(c), ..st };
        assert(scan_step(t, st) == (1int, st2));
        lemma_scan_plain(f.skip(1), rest, st2);
        assert(st.field.push(c) + f.skip(1) =~= st.field + f);
    }
}

/// Inside quotes, an escaped field body and its closing quote give back the
/// field itself.
proof fn lemma_scan_quoted(f: Seq<char>, rest: Seq<char>, st: CsvScan)
    requires
        st.in_quotes,
        rest.len() == 0 || rest[0] != '"',
    ensures
        scan(escape_quotes(f) + seq!['"'] + rest, st)
            == scan(rest, (CsvScan { field: st.field + f, in_quotes: false, ..st })),
    decreases f.len(),
{
    let t = escape_quotes(f) + seq!['"'] + rest;
    if f.len() == 0 {
        assert(escape_quotes(f) == Seq::<char>::empty());
        assert(t =~= seq!['"'] + rest);
        assert(t[0] == '"');
        assert(t.len() > 1 ==> t[1] == rest[0]);
        assert(t.skip(1) =~= rest);
        assert(st.field + f =~= st.field);
        assert(scan_step(t, st) == (1int, CsvScan { in_quotes: false, ..st }));
        assert(CsvScan { field: st.field + f, in_quotes: false, ..st } =~= CsvScan { in_quotes: false, ..st });
    } else {
        let c = f[0];
        let tail = escape_quotes(f.skip(1)) + seq!['"'] + rest;
        let st2 = CsvScan { field: st.field.push(c), ..st };
        if c == '"' {
            assert(t =~= seq!['"', '"'] + tail);
            assert(t[0] == '"' && t[1] == '"');
            assert(t.skip(2) =~= tail);
            assert(scan_step(t, st) == (2int, st2));
        } else {
            assert(t =~= seq![c] + tail);
            assert(t[0] == c);
            assert(t.skip(1) =~= tail);
            assert(scan_step(t, st) == (1int, st2));
        }
        lemma_scan_quoted(f.skip(1), rest, st2);
        assert(st.field.push(c) + f.skip(1) =~= st.field + f);
    }
}

/// One field's text, followed by a comma, a newline or nothing, leaves the
/// field's value as the current field.
proof fn lemma_scan_field(f: Seq<char>, rest: Seq<char>, st: CsvScan)
    requires
        !st.in_quotes,
        st.field.len() == 0,
        rest.len() == 0 || rest[0] == ',' || rest[0] == '\n',
    ensures
        scan(field_text(f) + rest, st) == scan(rest, (CsvScan { field: f, ..st })),
{
    if needs_quotes(f) {
        let t = field_text(f) + rest;
        let inner = escape_quotes(f) + seq!['"'] + rest;
        assert(t =~= seq!['"'] + inner);
        assert(t[0] == '"');
        assert(t.skip(1) =~= inner);
        let st2 = CsvScan { in_quotes: true, ..st };
        assert(scan_step(t, st) == (1int, st2));
        lemma_scan_quoted(f, rest, st2);
        assert(st.field + f =~= f);
        assert(CsvScan { field: st2.field + f, in_quotes: false, ..st2 } =~= CsvScan { field: f, ..st });
    } else {
        lemma_scan_plain(f, rest, st);
        assert(st.field + f =~= f);
    }
}

/// A row's fields end up as the current record (all but the last) and the
/// current field (the last).
proof fn lemma_scan_fields(fs: Seq<Seq<char>>, rest: Seq<char>, st: CsvScan)
    requires
        fs.len() >= 1,
        !st.in_quotes,
        st.field.len() == 0,
        rest.len() == 0 || rest[0] == '\n',
    ensures
        scan(fields_text(fs) + rest, st)
            == scan(rest, (CsvScan { record: st.record + fs.drop_last(), field: fs.last(), ..st })),
    decreases fs.len(),
{
    if fs.len() == 1 {
        lemma_scan_field(fs[0], rest, st);
        assert(st.record + fs.drop_last() =~= st.record);
        assert(CsvScan { field: fs[0], ..st } =~= CsvScan { record: st.record + fs.drop_last(), field: fs.last(), ..st });
    } else {
        let more = seq![','] + fields_text(fs.skip(1)) + rest;
        assert(fields_text(fs) + rest =~= field_text(fs[0]) + more);
        assert(more[0] == ',');
        lemma_scan_field(fs[0], more, st);
        let st1 = CsvScan { field: fs[0], ..st };
        assert(more.skip(1) =~= fields_text(fs.skip(1)) + rest);
        let st2 = CsvScan { record: st.record.push(fs[0]), field: Seq::empty(), ..st };
        assert(scan_step(more, st1) == (1int, st2));
        lemma_scan_fields(fs.skip(1), rest, st2);
        assert(st.record.push(fs[0]) + fs.skip(1).drop_last() =~= st.record + fs.drop_last());
        assert(fs.skip(1).last() == fs.last());
    }
}

/// Rows written one after another are read back as records.
proof fn lemma_scan_rows(rs: Seq<Seq<Seq<char>>>, st: CsvScan)
    requires
        forall|i: int| 0 <= i < rs.len() ==> (#[trigger] rs[i]).len() >= 1,
        !st.in_quotes,
        st.field.len() == 0,
        st.record.len() == 0,
    ensures
        scan(rows_text(rs), st) == (CsvScan { records: st.records + rs, ..st }),
    decreases rs.len(),
{
    if rs.len() == 0 {
        assert(st.records + rs =~= st.records);
        assert(CsvScan { records: st.records + rs, ..st } =~= st);
    } else {
        let r0 = rs[0];
        let more = seq!['\n'] + rows_text(rs.skip(1));
        assert(rows_text(rs) =~= fields_text(r0) + more);
        assert(more[0] == '\n');
        lemma_scan_fields(r0, more, st);
        let st1 = CsvScan { record: st.record + r0.drop_last(), field: r0.last(), ..st };
        assert(st1.record.push(st1.field) =~= r0);
        let st2 = CsvScan {
            records: st.records.push(r0),
            record: Seq::empty(),
            field: Seq::empty(),
            ..st
        };
        assert(scan_step(more, st1) == (1int, st2));
        assert(more.skip(1) =~= rows_text(rs.skip(1)));
        lemma_scan_rows(rs.skip(1), st2);
        assert(st.records.push(r0) + rs.skip(1) =~= st.records + rs);
    }
}

/// Reading back what was written: the records of the text of any rows
/// (each with at least one field) are those rows.
pub proof fn lemma_parse_records_of_rows_text(rs: Seq<Seq<Seq<char>>>)
    requires
        forall|i: int| 0 <= i < rs.len() ==> (#[trigger] rs[i]).len() >= 1,
    ensures
        parse_records_spec(rows_text(rs)) == rs,
{
    lemma_scan_rows(rs, scan_start());
    assert(Seq::<Seq<Seq<char>>>::empty() + rs =~= rs);
}

// ── import ──────────────────────────────────────────────────────────────────

/// The header line of a blocks CSV.
pub const HEADER: &'static str = "id,name,parent_id,start_date,duration_days,row,row_name\n";

/// The header's column names, as the first line must read once trimmed.
pub const HEADER_FIELDS: &'static str = "id,name,parent_id,start_date,duration_days,row,row_name";

/// One parsed row from a blocks CSV.
#[derive(Debug)]
pub struct CsvRow {
    /// The `id` value from the CSV; a cross-reference key for `parent_id`.
    pub old_id: u64,
    pub name: String,
    pub parent_old_id: Option<u64>,
    pub start_date: Date,
    pub duration_days: i32,
    pub row: i32,
    pub row_name: String,
}

/// The text `{:?}` writes for a string (quoted, with escapes).
pub uninterp spec fn debug_text(s: Seq<char>) -> Seq<char>;

/// Formats `s` with `{:?}` (`<str as Debug>::fmt`); the text is named.
#[verifier::external_body]
fn debug_quoted(s: &str) -> (r: String)
    ensures
        r@ == debug_text(s@),
{
    format!("{:?}", s)
}

/// "Line {line}: {text}".
pub open spec fn line_message(line: nat, text: Seq<char>) -> Seq<char> {
    "Line "@ + decimal_text(line) + ": "@ + text
}

/// The message for a wrong header line.
pub open spec fn header_message(header: Seq<char>) -> Seq<char> {
    "Line 1: expected header 'id,name,parent_id,start_date,duration_days,row,row_name', got '"@
        + header + "'"@
}

/// What one record on line `line` gives: its id, parent id, start date,
/// duration and row, or the message for the first thing wrong with it.
pub open spec fn check_record(f: Seq<Seq<char>>, line: nat) -> Result<(u64, Option<u64>, int, i32, i32), Seq<char>> {
    if f.len() != 7 {
        Err(line_message(line, "expected 7 fields, got "@ + decimal_text(f.len())))
    } else if parse_u64_spec(f[0]) is None {
        Err(line_message(line, "invalid id "@ + debug_text(f[0])))
    } else if f[1].len() == 0 {
        Err(line_message(line, "name must not be empty"@))
    } else if f[2].len() != 0 && parse_u64_spec(f[2]) is None {
        Err(line_message(line, "invalid parent_id "@ + debug_text(f[2])))
    } else if parse_iso_date_text(f[3]) is None {
        Err(line_message(line, "invalid start_date "@ + debug_text(f[3])))
    } else if parse_i32_spec(f[4]) is None {
        Err(line_message(line, "invalid duration_days "@ + debug_text(f[4])))
    } else if parse_i32_spec(f[4]).unwrap() < 1 {
        Err(line_message(line, "duration_days must be >= 1, got "@ + signed_decimal_text(parse_i32_spec(f[4]).unwrap() as int)))
    } else if parse_i32_spec(f[5]) is None {
        Err(line_message(line, "invalid row "@ + debug_text(f[5])))
    } else if parse_i32_spec(f[5]).unwrap() < 0 {
        Err(line_message(line, "row must be >= 0, got "@ + signed_decimal_text(parse_i32_spec(f[5]).unwrap() as int)))
    } else {
        Ok((
            parse_u64_spec(f[0]).unwrap(),
            if f[2].len() == 0 { None } else { parse_u64_spec(f[2]) },
            parse_iso_date_text(f[3]).unwrap(),
            parse_i32_spec(f[4]).unwrap(),
            parse_i32_spec(f[5]).unwrap(),
        ))
    }
}

/// A record is taken only with a readable parent id: a record that checks
/// out has no parent exactly when its parent field is empty, and otherwise
/// the parent the field reads as; a non-empty parent field that is no
/// decimal `u64` makes the record bad.
pub proof fn lemma_record_parent(f: Seq<Seq<char>>, line: nat)
    ensures
        check_record(f, line) matches Ok((id, parent, date, dur, row)) ==> {
            &&& (parent is None <==> f[2].len() == 0)
            &&& parent matches Some(v) ==> parse_u64_spec(f[2]) == Some(v)
        },
        f.len() == 7 && f[2].len() > 0 && parse_u64_spec(f[2]) is None ==> check_record(f, line) is Err,
{
}

/// A bad record among `recs` gives at least one message.
proof fn lemma_record_errors_nonempty(recs: Seq<Seq<Seq<char>>>, line: nat, i: int)
    requires
        0 <= i < recs.len(),
        check_record(recs[i], (line + i) as nat) is Err,
    ensures
        record_errors(recs, line).len() > 0,
    decreases i,
{
    if i > 0 {
        assert(recs.skip(1)[i - 1] == recs[i]);
        lemma_record_errors_nonempty(recs.skip(1), line + 1, i - 1);
    }
}

/// The messages for the bad records of `recs`, the first being on line `line`.
pub open spec fn record_errors(recs: Seq<Seq<Seq<char>>>, line: nat) -> Seq<Seq<char>>
    decreases recs.len(),
{
    if recs.len() == 0 {
        Seq::empty()
    } else {
        (match check_record(recs[0], line) {
            Err(e) => seq![e],
            Ok(_) => Seq::empty(),
        }) + record_errors(recs.skip(1), line + 1)
    }
}

/// `row` holds what record `f` gives.
pub open spec fn row_matches(row: CsvRow, f: Seq<Seq<char>>, line: nat) -> bool {
    &&& check_record(f, line) matches Ok((id, parent, date, dur, r))
    &&& row.old_id == id
    &&& row.name@ == f[1]
    &&& row.parent_old_id == parent
    &&& row.start_date@ == date
    &&& row.duration_days == dur
    &&& row.row == r
    &&& row.row_name@ == f[6]
}

/// Where the first line of `s` ends (the index of its newline, or the length).
pub open spec fn first_line_end(s: Seq<char>) -> int
    decreases s.len(),
{
    if s.len() == 0 {
        0
    } else if s[0] == '\n' {
        0
    } else {
        1 + first_line_end(s.skip(1))
    }
}

/// The text after the first newline of `s` (empty when there is none).
pub open spec fn after_first_line(s: Seq<char>) -> Seq<char> {
    let k = first_line_end(s);
    if k < s.len() { s.skip(k + 1) } else { Seq::empty() }
}

proof fn lemma_first_line_end(s: Seq<char>)
    ensures
        0 <= first_line_end(s) <= s.len(),
        forall|j: int| 0 <= j < first_line_end(s) ==> s[j] != '\n',
        first_line_end(s) < s.len() ==> s[first_line_end(s)] == '\n',
    decreases s.len(),
{
    if s.len() > 0 && s[0] != '\n' {
        lemma_first_line_end(s.skip(1));
        assert forall|j: int| 0 <= j < first_line_end(s) implies s[j] != '\n' by {
            if j > 0 {
                assert(s[j] == s.skip(1)[j - 1]);
            }
        }
    }
}

fn push_line_prefix(out: &mut String, line: usize)
    ensures
        final(out)@ == old(out)@ + "Line "@ + decimal_text(line as nat) + ": "@,
{
    push_text(out, "Line ");
    let n = u64_text(line as u64);
    push_text(out, n.as_str());
    push_text(out, ": ");
}

/// The message for record `f` on line `line` when it is bad.
fn record_message(fields: &Vec<String>, line: usize, Ghost(f): Ghost<Seq<Seq<char>>>) -> (r: Result<(u64, Option<u64>, Date, i32, i32), String>)
    requires
        f == fields.deep_view(),
    ensures
        match (r, check_record(f, line as nat)) {
            (Ok((id, parent, date, dur, row)), Ok((id2, parent2, date2, dur2, row2))) =>
                id == id2 && parent == parent2 && date@ == date2 && dur == dur2 && row == row2,
            (Err(m), Err(m2)) => m@ == m2,
            _ => false,
        },
{
    let mut out = String::new();
    push_line_prefix(&mut out, line);
    if fields.len() != 7 {
        push_text(&mut out, "expected 7 fields, got ");
        let n = u64_text(fields.len() as u64);
        push_text(&mut out, n.as_str());
        return Err(out);
    }
    assert(f[0] == fields@[0]@);
    let c0 = chars_of(fields[0].as_str());
    let id = match parse_u64_chars(&c0) {
        Some(v) => v,
        None => {
            push_text(&mut out, "invalid id ");
            let d = debug_quoted(fields[0].as_str());
            push_text(&mut out, d.as_str());
            return Err(out);
        },
    };
    assert(f[1] == fields@[1]@);
    if fields[1].as_str().is_empty() {
        push_text(&mut out, "name must not be empty");
        return Err(out);
    }
    assert(f[2] == fields@[2]@);
    let parent = if fields[2].as_str().is_empty() {
        None
    } else {
        let c2 = chars_of(fields[2].as_str());
        match parse_u64_chars(&c2) {
            Some(v) => Some(v),
            None => {
                push_text(&mut out, "invalid parent_id ");
                let d = debug_quoted(fields[2].as_str());
                push_text(&mut out, d.as_str());
                return Err(out);
            },
        }
    };
    assert(f[3] == fields@[3]@);
    let date = match Date::parse_iso(fields[3].as_str()) {
        Some(d) => d,
        None => {
            push_text(&mut out, "invalid start_date ");
            let d = debug_quoted(fields[3].as_str());
            push_text(&mut out, d.as_str());
            return Err(out);
        },
    };
    assert(f[4] == fields@[4]@);
    let c4 = chars_of(fields[4].as_str());
    let dur = match parse_i32_chars(&c4) {
        Some(v) => v,
        None => {
            push_text(&mut out, "invalid duration_days ");
            let d = debug_quoted(fields[4].as_str());
            push_text(&mut out, d.as_str());
            return Err(out);
        },
    };
    if dur < 1 {
        push_text(&mut out, "duration_days must be >= 1, got ");
        let d = crate::text::i64_text(dur as i64);
        push_text(&mut out, d.as_str());
        return Err(out);
    }
    assert(f[5] == fields@[5]@);
    let c5 = chars_of(fields[5].as_str());
    let row = match parse_i32_chars(&c5) {
        Some(v) => v,
        None => {
            push_text(&mut out, "invalid row ");
            let d = debug_quoted(fields[5].as_str());
            push_text(&mut out, d.as_str());
            return Err(out);
        },
    };
    if row < 0 {
        push_text(&mut out, "row must be >= 0, got ");
        let d = crate::text::i64_text(row as i64);
        push_text(&mut out, d.as_str());
        return Err(out);
    }
    Ok((id, parent, date, dur, row))
}

/// Positions, among the first `n` records, of those that check out (record
/// `k` is on line `k + 2`), in order.
pub open spec fn good_records(recs: Seq<Seq<Seq<char>>>, n: int) -> Seq<int>
    decreases n,
{
    if n <= 0 {
        Seq::empty()
    } else {
        good_records(recs, n - 1) + if check_record(recs[n - 1], (n + 1) as nat) is Ok {
            seq![n - 1]
        } else {
            Seq::empty()
        }
    }
}

/// `rows` are the rows of the records of `recs` that check out, in order.
pub open spec fn rows_of_good_records(rows: Seq<CsvRow>, recs: Seq<Seq<Seq<char>>>) -> bool {
    let g = good_records(recs, recs.len() as int);
    &&& rows.len() == g.len()
    &&& forall|t: int| 0 <= t < g.len() ==> row_matches(#[trigger] rows[t], recs[g[t]], (g[t] + 2) as nat)
}

/// Parses a blocks CSV string into rows: `Ok` with one row per record when
/// the header is right and every record is good. Otherwise `Err` with the
/// rows of the good records (a partial result; the import as a whole has
/// failed) and one message per bad record, or no rows and the one header
/// message.
pub fn parse_csv(csv: &str) -> (r: Result<Vec<CsvRow>, (Vec<CsvRow>, Vec<String>)>)
    requires
        csv@.len() <= isize::MAX,
    ensures
        ({
            let header = trim_spec(csv@.take(first_line_end(csv@)));
            let recs = parse_records_spec(after_first_line(csv@));
            let errs = record_errors(recs, 2);
            if header != HEADER_FIELDS@ {
                r matches Err((rows, e)) && rows@.len() == 0 && e.deep_view() == seq![header_message(header)]
            } else if errs.len() > 0 {
                r matches Err((rows, e)) && e.deep_view() == errs && rows_of_good_records(rows@, recs)
            } else {
                r matches Ok(rows) && rows@.len() == recs.len()
                    && forall|i: int| 0 <= i < recs.len() ==> row_matches(#[trigger] rows@[i], recs[i], (i + 2) as nat)
            }
        }),
        ({
            let recs = parse_records_spec(after_first_line(csv@));
            &&& (exists|i: int| 0 <= i < recs.len() && (#[trigger] recs[i]).len() == 7 && recs[i][2].len() > 0
                && parse_u64_spec(recs[i][2]) is None) ==> r is Err
            &&& r matches Ok(rows) ==> forall|i: int| 0 <= i < rows@.len() ==>
                ((#[trigger] rows@[i]).parent_old_id is None <==> recs[i][2].len() == 0)
        }),
{
    let cs = chars_of(csv);
    proof {
        lemma_first_line_end(cs@);
    }
    // Split at the first newline.
    let mut k: usize = 0;
    while k < cs.len() && cs[k] != '\n'
        invariant
            k <= cs@.len(),
            cs@ == csv@,
            forall|j: int| 0 <= j < k ==> cs@[j] != '\n',
            0 <= first_line_end(cs@) <= cs@.len(),
            forall|j: int| 0 <= j < first_line_end(cs@) ==> cs@[j] != '\n',
            first_line_end(cs@) < cs@.len() ==> cs@[first_line_end(cs@)] == '\n',
        decreases cs.len() - k,
    {
        k += 1;
    }
    assert(k == first_line_end(cs@));
    let mut head: Vec<char> = Vec::new();
    let mut i: usize = 0;
    while i < k
        invariant
            i <= k <= cs@.len(),
            head@ == cs@.take(i as int),
        decreases k - i,
    {
        head.push(cs[i]);
        assert(cs@.take(i + 1) =~= cs@.take(i as int).push(cs@[i as int]));
        i += 1;
    }
    let mut body: Vec<char> = Vec::new();
    if k < cs.len() {
        let mut j: usize = k + 1;
        while j < cs.len()
            invariant
                k + 1 <= j <= cs@.len(),
                body@ == cs@.subrange(k + 1, j as int),
            decreases cs.len() - j,
        {
            body.push(cs[j]);
            assert(cs@.subrange(k + 1, j + 1) =~= cs@.subrange(k + 1, j as int).push(cs@[j as int]));
            j += 1;
        }
        assert(cs@.subrange(k + 1, cs@.len() as int) =~= cs@.skip(k + 1));
    } else {
        assert(body@ =~= Seq::<char>::empty());
    }
    assert(body@ == after_first_line(csv@));
    let header = trim_chars(&head);
    let expected = chars_of(HEADER_FIELDS);
    let mut header_ok = header.len() == expected.len();
    let mut h: usize = 0;
    while header_ok && h < header.len()
        invariant
            header_ok ==> header@.len() == expected@.len(),
            header_ok ==> forall|j: int| 0 <= j < h ==> header@[j] == expected@[j],
            !header_ok ==> header@ != expected@,
            h <= header@.len(),
        decreases header.len() - h,
    {
        if header[h] != expected[h] {
            header_ok = false;
            h = header.len();
        } else {
            h += 1;
        }
    }
    if !header_ok {
        let mut msg = String::new();
        push_text(&mut msg, "Line 1: expected header 'id,name,parent_id,start_date,duration_days,row,row_name', got '");
        let hs = string_of(&header);
        push_text(&mut msg, hs.as_str());
        push_text(&mut msg, "'");
        let mut errors: Vec<String> = Vec::new();
        errors.push(msg);
        assert(errors.deep_view() =~= seq![header_message(trim_spec(csv@.take(first_line_end(csv@))))]);
        return Err((Vec::new(), errors));
    }
    assert(header@ =~= expected@);
    let body_str = string_of(&body);
    let records = parse_csv_records(body_str.as_str());
    assert(body@.len() <= cs@.len());
    let ghost recs = records.deep_view();
    let mut rows: Vec<CsvRow> = Vec::new();
    let mut errors: Vec<String> = Vec::new();
    let mut idx: usize = 0;
    assert(recs.skip(0) =~= recs);
    while idx < records.len()
        invariant
            idx <= records@.len(),
            records@.len() <= isize::MAX + 1,
            recs == records.deep_view(),
            record_errors(recs, 2) == errors.deep_view() + record_errors(recs.skip(idx as int), (idx + 2) as nat),
            errors@.len() == 0 ==> rows@.len() == idx
                && forall|i: int| 0 <= i < idx ==> row_matches(#[trigger] rows@[i], recs[i], (i + 2) as nat),
            rows@.len() == good_records(recs, idx as int).len(),
            forall|t: int| 0 <= t < good_records(recs, idx as int).len() ==> row_matches(#[trigger] rows@[t],
                recs[good_records(recs, idx as int)[t]], (good_records(recs, idx as int)[t] + 2) as nat),
        decreases records.len() - idx,
    {
        let ghost f = recs[idx as int];
        assert(records@[idx as int].deep_view() == f);
        assert(recs.skip(idx as int).skip(1) =~= recs.skip(idx + 1));
        assert(recs.skip(idx as int)[0] == f);
        let line = idx + 2;
        match record_message(&records[idx], line, Ghost(f)) {
            Ok((id, parent, date, dur, row)) => {
                let fields = &records[idx];
                assert(fields@[1]@ == f[1] && fields@[6]@ == f[6]);
                let name = fields[1].clone();
                let row_name = fields[6].clone();
                rows.push(CsvRow {
                    old_id: id,
                    name,
                    parent_old_id: parent,
                    start_date: date,
                    duration_days: dur,
                    row,
                    row_name,
                });
                assert(errors.deep_view() + record_errors(recs.skip(idx as int), (idx + 2) as nat)
                    =~= errors.deep_view() + record_errors(recs.skip(idx + 1), (idx + 3) as nat));
                assert(good_records(recs, idx + 1) =~= good_records(recs, idx as int).push(idx as int));
                assert(row_matches(rows@[rows@.len() - 1], recs[idx as int], (idx + 2) as nat));
            },
            Err(m) => {
                let ghost ev = errors.deep_view();
                errors.push(m);
                assert(errors.deep_view() =~= ev.push(m@));
                assert(ev + record_errors(recs.skip(idx as int), (idx + 2) as nat)
                    =~= errors.deep_view() + record_errors(recs.skip(idx + 1), (idx + 3) as nat));
                assert(good_records(recs, idx + 1) =~= good_records(recs, idx as int));
            },
        }
        idx += 1;
    }
    assert(recs.skip(idx as int) =~= Seq::<Seq<Seq<char>>>::empty());
    assert(errors.deep_view() + Seq::<Seq<char>>::empty() =~= errors.deep_view());
    proof {
        if exists|i: int| 0 <= i < recs.len() && (#[trigger] recs[i]).len() == 7 && recs[i][2].len() > 0
            && parse_u64_spec(recs[i][2]) is None {
            let i = choose|i: int| 0 <= i < recs.len() && (#[trigger] recs[i]).len() == 7 && recs[i][2].len() > 0
                && parse_u64_spec(recs[i][2]) is None;
            lemma_record_parent(recs[i], (2 + i) as nat);
            lemma_record_errors_nonempty(recs, 2, i);
        }
        if errors@.len() == 0 {
            assert forall|i: int| 0 <= i < rows@.len() implies
                ((#[trigger] rows@[i]).parent_old_id is None <==> recs[i][2].len() == 0) by {
                assert(row_matches(rows@[i], recs[i], (i + 2) as nat));
                lemma_record_parent(recs[i], (i + 2) as nat);
            }
        }
    }
    if errors.len() == 0 {
        Ok(rows)
    } else {
        Err((rows, errors))
    }
}

} // verus!
