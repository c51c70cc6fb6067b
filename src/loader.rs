//! The record loader: delimited text to typed fighter records, with one
//! diagnostic for each row that is turned away.

use vstd::prelude::*;
use vstd::std_specs::iter::IteratorSpec;
use vstd::utf8::encode_utf8;
use crate::date::{Date, parse_date, ymd_of};
use crate::numeric::{count_of, decimal_of, parse_count, parse_decimal};

verus! {

/// Number of columns in the record schema.
pub const NUM_COLUMNS: usize = 18;

/// One row of the source as the CSV reader splits it.
pub struct CsvRow {
    /// Line of the source on which the row starts, counted from 1.
    pub line: u64,
    pub fields: Vec<String>,
}

pub open spec fn fields_view(fields: Seq<String>) -> Seq<Seq<char>> {
    fields.map_values(|f: String| f@)
}

pub open spec fn row_view(r: CsvRow) -> (int, Seq<Seq<char>>) {
    (r.line as int, fields_view(r.fields@))
}

pub open spec fn rows_view(rows: Seq<CsvRow>) -> Seq<(int, Seq<Seq<char>>)> {
    rows.map_values(|r: CsvRow| row_view(r))
}

/// What the csv crate splits a text into: each row's line number and fields.
pub uninterp spec fn csv_rows_of(text: Seq<char>) -> Seq<(int, Seq<Seq<char>>)>;

/// Relies on the csv crate's `Reader` over the text's bytes, with commas as
/// delimiters, no header handling and rows of any length: the rows it yields
/// depend on the text alone. Over text in memory the reader meets no I/O
/// error, `flexible` rules out the length error, and fields cut from valid
/// UTF-8 at ASCII delimiters and quotes stay valid UTF-8, so it reports no
/// error at all.
#[verifier::external_body]
fn split_csv(text: &str) -> (r: Vec<CsvRow>)
    ensures
        rows_view(r@) == csv_rows_of(text@),
{
    let mut rdr = csv::ReaderBuilder::new().delimiter(b',').has_headers(false).flexible(true)
        .from_reader(text.as_bytes());
    let mut rows = Vec::new();
    for rec in rdr.records().flatten() {
        let line = rec.position().map(|p| p.line()).unwrap_or(0);
        rows.push(CsvRow { line, fields: rec.iter().map(|f| f.to_string()).collect() });
    }
    rows
}

/// One fighter's row, field for field. Measurements and rates are in
/// fixed-point units.
#[derive(Clone, Debug)]
pub struct FighterRecord {
    pub name: String,
    pub nickname: Option<String>,
    pub wins: u64,
    pub losses: u64,
    pub draws: u64,
    pub height_cm: Option<i64>,
    pub weight_in_kg: Option<i64>,
    pub reach_in_cm: Option<i64>,
    pub stance: String,
    pub date_of_birth: Date,
    pub significant_strikes_landed_per_minute: Option<i64>,
    pub significant_striking_accuracy: Option<i64>,
    pub significant_strikes_absorbed_per_minute: Option<i64>,
    pub significant_strike_defence: Option<i64>,
    pub average_takedowns_landed_per_15_minutes: Option<i64>,
    pub takedown_accuracy: Option<i64>,
    pub takedown_defense: Option<i64>,
    pub average_submissions_attempted_per_15_minutes: Option<i64>,
}

/// A `FighterRecord` with its texts as character sequences.
pub struct FighterRecordView {
    pub name: Seq<char>,
    pub nickname: Option<Seq<char>>,
    pub wins: u64,
    pub losses: u64,
    pub draws: u64,
    pub height_cm: Option<i64>,
    pub weight_in_kg: Option<i64>,
    pub reach_in_cm: Option<i64>,
    pub stance: Seq<char>,
    pub date_of_birth: Date,
    pub significant_strikes_landed_per_minute: Option<i64>,
    pub significant_striking_accuracy: Option<i64>,
    pub significant_strikes_absorbed_per_minute: Option<i64>,
    pub significant_strike_defence: Option<i64>,
    pub average_takedowns_landed_per_15_minutes: Option<i64>,
    pub takedown_accuracy: Option<i64>,
    pub takedown_defense: Option<i64>,
    pub average_submissions_attempted_per_15_minutes: Option<i64>,
}

impl View for FighterRecord {
    type V = FighterRecordView;

    open spec fn view(&self) -> FighterRecordView {
        FighterRecordView {
            name: self.name@,
            nickname: match self.nickname {
                Some(n) => Some(n@),
                None => None,
            },
            wins: self.wins,
            losses: self.losses,
            draws: self.draws,
            height_cm: self.height_cm,
            weight_in_kg: self.weight_in_kg,
            reach_in_cm: self.reach_in_cm,
            stance: self.stance@,
            date_of_birth: self.date_of_birth,
            significant_strikes_landed_per_minute: self.significant_strikes_landed_per_minute,
            significant_striking_accuracy: self.significant_striking_accuracy,
            significant_strikes_absorbed_per_minute: self.significant_strikes_absorbed_per_minute,
            significant_strike_defence: self.significant_strike_defence,
            average_takedowns_landed_per_15_minutes: self.average_takedowns_landed_per_15_minutes,
            takedown_accuracy: self.takedown_accuracy,
            takedown_defense: self.takedown_defense,
            average_submissions_attempted_per_15_minutes:
                self.average_submissions_attempted_per_15_minutes,
        }
    }
}

/// Why a row was turned away.
#[derive(Clone, Copy, Debug, PartialEq, Eq, Structural)]
pub enum RejectReason {
    /// The row has another number of fields than the header.
    FieldCount { expected: usize, found: usize },
    /// The header has no column for this required schema column.
    MissingField { column: usize },
    /// The field for this schema column does not convert.
    BadField { column: usize },
}

/// The diagnostic for one rejected row.
#[derive(Clone, Copy, Debug, PartialEq, Eq, Structural)]
pub struct Rejection {
    pub line: u64,
    pub reason: RejectReason,
}

/// The loader's result: the records in source order, and one rejection for
/// each row that was neither blank nor converted.
pub struct LoadOutcome {
    pub records: Vec<FighterRecord>,
    pub rejections: Vec<Rejection>,
}

pub open spec fn bytes(s: Seq<char>) -> Seq<u8> {
    encode_utf8(s)
}

/// Unicode white space, as `char::is_whitespace` and `str::trim` take it.
pub open spec fn is_white(c: char) -> bool {
    let u = c as u32;
    (9 <= u <= 13) || u == 32 || u == 0x85 || u == 0xA0 || u == 0x1680 || (0x2000 <= u <= 0x200A)
        || u == 0x2028 || u == 0x2029 || u == 0x202F || u == 0x205F || u == 0x3000
}

/// A field that is empty or holds only white space.
pub open spec fn blank_field(f: Seq<char>) -> bool {
    forall|i: int| 0 <= i < f.len() ==> is_white(#[trigger] f[i])
}

pub open spec fn blank_row(fields: Seq<Seq<char>>) -> bool {
    forall|k: int| 0 <= k < fields.len() ==> blank_field(#[trigger] fields[k])
}

/// The header name of each schema column, in schema order.
pub open spec fn schema_name(k: int) -> Seq<char> {
    if k == 0 { "name"@ }
    else if k == 1 { "nickname"@ }
    else if k == 2 { "wins"@ }
    else if k == 3 { "losses"@ }
    else if k == 4 { "draws"@ }
    else if k == 5 { "height_cm"@ }
    else if k == 6 { "weight_in_kg"@ }
    else if k == 7 { "reach_in_cm"@ }
    else if k == 8 { "stance"@ }
    else if k == 9 { "date_of_birth"@ }
    else if k == 10 { "significant_strikes_landed_per_minute"@ }
    else if k == 11 { "significant_striking_accuracy"@ }
    else if k == 12 { "significant_strikes_absorbed_per_minute"@ }
    else if k == 13 { "significant_strike_defence"@ }
    else if k == 14 { "average_takedowns_landed_per_15_minutes"@ }
    else if k == 15 { "takedown_accuracy"@ }
    else if k == 16 { "takedown_defense"@ }
    else { "average_submissions_attempted_per_15_minutes"@ }
}

/// The header name of schema column `k`.
pub fn schema_column_name(k: usize) -> (r: &'static str)
    requires
        k < NUM_COLUMNS,
    ensures
        r@ == schema_name(k as int),
{
    if k == 0 { "name" }
    else if k == 1 { "nickname" }
    else if k == 2 { "wins" }
    else if k == 3 { "losses" }
    else if k == 4 { "draws" }
    else if k == 5 { "height_cm" }
    else if k == 6 { "weight_in_kg" }
    else if k == 7 { "reach_in_cm" }
    else if k == 8 { "stance" }
    else if k == 9 { "date_of_birth" }
    else if k == 10 { "significant_strikes_landed_per_minute" }
    else if k == 11 { "significant_striking_accuracy" }
    else if k == 12 { "significant_strikes_absorbed_per_minute" }
    else if k == 13 { "significant_strike_defence" }
    else if k == 14 { "average_takedowns_landed_per_15_minutes" }
    else if k == 15 { "takedown_accuracy" }
    else if k == 16 { "takedown_defense" }
    else { "average_submissions_attempted_per_15_minutes" }
}

/// The first position from `j` on at which `header` holds `name`.
pub open spec fn position_from(header: Seq<Seq<char>>, name: Seq<char>, j: nat) -> Option<nat>
    decreases header.len() - j,
{
    if j >= header.len() {
        None
    } else if header[j as int] == name {
        Some(j)
    } else {
        position_from(header, name, j + 1)
    }
}

/// Where each schema column stands in the header, if anywhere.
pub open spec fn layout_of(header: Seq<Seq<char>>) -> Seq<Option<nat>> {
    Seq::new(NUM_COLUMNS as nat, |k: int| position_from(header, schema_name(k), 0))
}

/// The field of each schema column in a row laid out as `header`.
pub open spec fn column_values(header: Seq<Seq<char>>, fields: Seq<Seq<char>>) -> Seq<
    Option<Seq<char>>,
> {
    Seq::new(
        NUM_COLUMNS as nat,
        |k: int|
            match layout_of(header)[k] {
                Some(p) => Some(fields[p as int]),
                None => None,
            },
    )
}

/// An optional decimal field: `Some(None)` when empty, `None` when it does not convert.
pub open spec fn opt_decimal_of(f: Seq<char>) -> Option<Option<i64>> {
    if f.len() == 0 {
        Some(None)
    } else {
        match decimal_of(bytes(f)) {
            Some(v) => Some(Some(v as i64)),
            None => None,
        }
    }
}

/// An optional decimal column, which may also be absent from the header.
pub open spec fn opt_decimal_col(v: Option<Seq<char>>) -> Option<Option<i64>> {
    match v {
        Some(f) => opt_decimal_of(f),
        None => Some(None),
    }
}

pub open spec fn is_count_column(k: int) -> bool {
    2 <= k <= 4
}

pub open spec fn is_decimal_column(k: int) -> bool {
    (5 <= k <= 7) || (10 <= k <= 17)
}

/// Columns that every row must have: name, the three counters, stance and date of birth.
pub open spec fn is_required(k: int) -> bool {
    k == 0 || is_count_column(k) || k == 8 || k == 9
}

/// Whether the value `v` of schema column `k` converts as the column asks.
pub open spec fn column_ok(k: int, v: Option<Seq<char>>) -> bool {
    if is_decimal_column(k) {
        opt_decimal_col(v) is Some
    } else if v is None {
        !is_required(k)
    } else if is_count_column(k) {
        count_of(bytes(v.unwrap())) is Some
    } else if k == 9 {
        ymd_of(v.unwrap()) is Some
    } else {
        true
    }
}

/// The first schema column from `k` on whose value does not convert.
pub open spec fn first_bad_from(cols: Seq<Option<Seq<char>>>, k: nat) -> Option<nat>
    decreases NUM_COLUMNS - k,
{
    if k >= NUM_COLUMNS {
        None
    } else if !column_ok(k as int, cols[k as int]) {
        Some(k)
    } else {
        first_bad_from(cols, k + 1)
    }
}

pub open spec fn date_of(t: (int, int, int)) -> Date {
    Date { year: t.0 as i32, month: t.1 as u32, day: t.2 as u32 }
}

/// The record that convertible column values make.
pub open spec fn record_view_of(cols: Seq<Option<Seq<char>>>) -> FighterRecordView {
    FighterRecordView {
        name: cols[0].unwrap(),
        nickname: if cols[1] is Some && cols[1].unwrap().len() > 0 {
            cols[1]
        } else {
            None
        },
        wins: count_of(bytes(cols[2].unwrap())).unwrap() as u64,
        losses: count_of(bytes(cols[3].unwrap())).unwrap() as u64,
        draws: count_of(bytes(cols[4].unwrap())).unwrap() as u64,
        height_cm: opt_decimal_col(cols[5]).unwrap(),
        weight_in_kg: opt_decimal_col(cols[6]).unwrap(),
        reach_in_cm: opt_decimal_col(cols[7]).unwrap(),
        stance: cols[8].unwrap(),
        date_of_birth: date_of(ymd_of(cols[9].unwrap()).unwrap()),
        significant_strikes_landed_per_minute: opt_decimal_col(cols[10]).unwrap(),
        significant_striking_accuracy: opt_decimal_col(cols[11]).unwrap(),
        significant_strikes_absorbed_per_minute: opt_decimal_col(cols[12]).unwrap(),
        significant_strike_defence: opt_decimal_col(cols[13]).unwrap(),
        average_takedowns_landed_per_15_minutes: opt_decimal_col(cols[14]).unwrap(),
        takedown_accuracy: opt_decimal_col(cols[15]).unwrap(),
        takedown_defense: opt_decimal_col(cols[16]).unwrap(),
        average_submissions_attempted_per_15_minutes: opt_decimal_col(cols[17]).unwrap(),
    }
}

/// What becomes of one data row.
pub enum RowOutcome {
    Blank,
    Accepted(FighterRecordView),
    Rejected(RejectReason),
}

/// The fate of a data row under `header`.
pub open spec fn row_outcome(header: Seq<Seq<char>>, fields: Seq<Seq<char>>) -> RowOutcome {
    let cols = column_values(header, fields);
    if blank_row(fields) {
        RowOutcome::Blank
    } else if fields.len() != header.len() {
        RowOutcome::Rejected(
            RejectReason::FieldCount {
                expected: header.len() as usize,
                found: fields.len() as usize,
            },
        )
    } else {
        match first_bad_from(cols, 0) {
            Some(c) => RowOutcome::Rejected(
                if cols[c as int] is None {
                    RejectReason::MissingField { column: c as usize }
                } else {
                    RejectReason::BadField { column: c as usize }
                },
            ),
            None => RowOutcome::Accepted(record_view_of(cols)),
        }
    }
}

/// The records made by the data rows `rows`, in order.
pub open spec fn accepted(header: Seq<Seq<char>>, rows: Seq<(int, Seq<Seq<char>>)>) -> Seq<
    FighterRecordView,
>
    decreases rows.len(),
{
    if rows.len() == 0 {
        Seq::empty()
    } else {
        let prev = accepted(header, rows.drop_last());
        match row_outcome(header, rows.last().1) {
            RowOutcome::Accepted(v) => prev.push(v),
            _ => prev,
        }
    }
}

/// The diagnostics for the data rows `rows`, in order.
pub open spec fn rejected(header: Seq<Seq<char>>, rows: Seq<(int, Seq<Seq<char>>)>) -> Seq<
    Rejection,
>
    decreases rows.len(),
{
    if rows.len() == 0 {
        Seq::empty()
    } else {
        let prev = rejected(header, rows.drop_last());
        match row_outcome(header, rows.last().1) {
            RowOutcome::Rejected(why) => prev.push(
                Rejection { line: rows.last().0 as u64, reason: why },
            ),
            _ => prev,
        }
    }
}

/// Number of blank rows among `rows`.
pub open spec fn blank_count(header: Seq<Seq<char>>, rows: Seq<(int, Seq<Seq<char>>)>) -> nat
    decreases rows.len(),
{
    if rows.len() == 0 {
        0
    } else {
        blank_count(header, rows.drop_last()) + (if row_outcome(header, rows.last().1) is Blank {
            1nat
        } else {
            0nat
        })
    }
}

/// The header row's fields (none for an empty source).
pub open spec fn header_of(rows: Seq<(int, Seq<Seq<char>>)>) -> Seq<Seq<char>> {
    if rows.len() == 0 { Seq::empty() } else { rows[0].1 }
}

/// The rows after the header.
pub open spec fn data_rows(rows: Seq<(int, Seq<Seq<char>>)>) -> Seq<(int, Seq<Seq<char>>)> {
    if rows.len() == 0 { rows } else { rows.drop_first() }
}

pub open spec fn records_view(recs: Seq<FighterRecord>) -> Seq<FighterRecordView> {
    recs.map_values(|r: FighterRecord| r@)
}

impl LoadOutcome {
    /// The outcome of loading the rows `rows`: the first is the header.
    pub open spec fn loaded_from(&self, rows: Seq<(int, Seq<Seq<char>>)>) -> bool {
        &&& records_view(self.records@) == accepted(header_of(rows), data_rows(rows))
        &&& self.rejections@ == rejected(header_of(rows), data_rows(rows))
    }
}

fn field_bytes(s: &String) -> (b: &[u8])
    ensures
        b@ == bytes(s@),
{
    s.as_str().as_bytes()
}

fn is_white_char(c: char) -> (r: bool)
    ensures
        r == is_white(c),
{
    let u = c as u32;
    (9 <= u && u <= 13) || u == 32 || u == 0x85 || u == 0xA0 || u == 0x1680 || (0x2000 <= u && u
        <= 0x200A) || u == 0x2028 || u == 0x2029 || u == 0x202F || u == 0x205F || u == 0x3000
}

fn is_blank_field(f: &String) -> (r: bool)
    ensures
        r == blank_field(f@),
{
    broadcast use vstd::string::axiom_spec_iter, vstd::string::next_postcondition;

    let s = f.as_str();
    let mut it = s.chars();
    let ghost chars = f@;
    let ghost mut i: int = 0;
    loop
        invariant
            0 <= i <= chars.len(),
            chars == f@,
            it.remaining() == chars.skip(i),
            it.obeys_prophetic_iter_laws(),
            forall|j: int| 0 <= j < i ==> is_white(#[trigger] chars[j]),
        decreases chars.len() - i,
    {
        match it.next() {
            None => {
                return true;
            },
            Some(c) => {
                if !is_white_char(c) {
                    assert(c == chars[i]);
                    return false;
                }
                proof {
                    assert(chars.skip(i).drop_first() =~= chars.skip(i + 1));
                    i = i + 1;
                }
            },
        }
    }
}

fn is_blank_row(fields: &Vec<String>) -> (r: bool)
    ensures
        r == blank_row(fields_view(fields@)),
{
    let ghost fv = fields_view(fields@);
    let mut k: usize = 0;
    while k < fields.len()
        invariant
            fv == fields_view(fields@),
            k <= fields.len(),
            forall|j: int| 0 <= j < k ==> blank_field(#[trigger] fv[j]),
        decreases fields.len() - k,
    {
        if !is_blank_field(&fields[k]) {
            assert(!blank_field(fv[k as int]));
            return false;
        }
        k = k + 1;
    }
    true
}

fn read_opt_decimal(f: &String) -> (r: Option<Option<i64>>)
    ensures
        r == opt_decimal_of(f@),
{
    if f.as_str().is_empty() {
        return Some(None);
    }
    match parse_decimal(field_bytes(f)) {
        Some(v) => Some(Some(v)),
        None => None,
    }
}

fn read_count(f: &String) -> (r: Option<u64>)
    ensures
        r matches Some(v) ==> count_of(bytes(f@)) == Some(v as nat),
        r is None ==> count_of(bytes(f@)) is None,
{
    parse_count(field_bytes(f))
}

/// Whether two texts are the same.
fn same_text(a: &String, lit: &str) -> (r: bool)
    ensures
        r == (a@ == lit@),
{
    let x = a.as_str().as_bytes();
    let y = lit.as_bytes();
    proof {
        vstd::utf8::encode_utf8_decode_utf8(a@);
        vstd::utf8::encode_utf8_decode_utf8(lit@);
    }
    if x.len() != y.len() {
        return false;
    }
    let mut i: usize = 0;
    while i < x.len()
        invariant
            x@ == bytes(a@),
            y@ == bytes(lit@),
            x.len() == y.len(),
            i <= x.len(),
            forall|j: int| 0 <= j < i ==> x@[j] == y@[j],
        decreases x.len() - i,
    {
        if x[i] != y[i] {
            assert(x@[i as int] != y@[i as int]);
            assert(x@ != y@);
            return false;
        }
        i = i + 1;
    }
    assert(x@ =~= y@);
    true
}

/// Where `name` first stands in `header`.
fn find_column(header: &Vec<String>, name: &str) -> (r: Option<usize>)
    ensures
        r matches Some(p) ==> position_from(fields_view(header@), name@, 0) == Some(p as nat) && p
            < header.len(),
        r is None ==> position_from(fields_view(header@), name@, 0) is None,
{
    let ghost hv = fields_view(header@);
    let mut j: usize = 0;
    while j < header.len()
        invariant
            hv == fields_view(header@),
            j <= header.len(),
            position_from(hv, name@, 0) == position_from(hv, name@, j as nat),
        decreases header.len() - j,
    {
        if same_text(&header[j], name) {
            return Some(j);
        }
        j = j + 1;
    }
    None
}

pub open spec fn nat_opt(o: Option<usize>) -> Option<nat> {
    match o {
        Some(p) => Some(p as nat),
        None => None,
    }
}

/// `layout` gives the position of each schema column in `header`, all of
/// them below `n`.
pub open spec fn layout_fits(layout: Seq<Option<usize>>, header: Seq<Seq<char>>, n: nat) -> bool {
    &&& layout.len() == NUM_COLUMNS
    &&& forall|k: int| 0 <= k < NUM_COLUMNS ==> nat_opt(#[trigger] layout[k]) == layout_of(header)[k]
    &&& forall|k: int| 0 <= k < NUM_COLUMNS ==> (#[trigger] layout[k] matches Some(p) ==> p < n)
}

/// The value of each schema column of a row under `layout`.
pub open spec fn columns_by(layout: Seq<Option<usize>>, fields: Seq<Seq<char>>) -> Seq<
    Option<Seq<char>>,
> {
    Seq::new(
        NUM_COLUMNS as nat,
        |k: int|
            match layout[k] {
                Some(p) => Some(fields[p as int]),
                None => None,
            },
    )
}

fn layout_for(header: &Vec<String>) -> (r: Vec<Option<usize>>)
    ensures
        layout_fits(r@, fields_view(header@), header.len() as nat),
{
    let mut layout: Vec<Option<usize>> = Vec::new();
    let mut k: usize = 0;
    while k < NUM_COLUMNS
        invariant
            k <= NUM_COLUMNS,
            layout.len() == k,
            forall|j: int|
                0 <= j < k ==> nat_opt(#[trigger] layout@[j]) == layout_of(fields_view(header@))[j],
            forall|j: int| 0 <= j < k ==> (#[trigger] layout@[j] matches Some(p) ==> p < header.len()),
        decreases NUM_COLUMNS - k,
    {
        layout.push(find_column(header, schema_column_name(k)));
        k = k + 1;
    }
    layout
}

pub open spec fn col_view(v: Option<&String>) -> Option<Seq<char>> {
    match v {
        Some(s) => Some(s@),
        None => None,
    }
}

fn column<'a>(layout: &Vec<Option<usize>>, fields: &'a Vec<String>, k: usize) -> (r: Option<
    &'a String,
>)
    requires
        k < NUM_COLUMNS,
        layout.len() == NUM_COLUMNS,
        forall|j: int| 0 <= j < NUM_COLUMNS ==> (#[trigger] layout@[j] matches Some(p) ==> p
            < fields.len()),
    ensures
        col_view(r) == columns_by(layout@, fields_view(fields@))[k as int],
{
    match layout[k] {
        Some(p) => Some(&fields[p]),
        None => None,
    }
}

fn read_opt_decimal_col(v: Option<&String>) -> (r: Option<Option<i64>>)
    ensures
        r == opt_decimal_col(col_view(v)),
{
    match v {
        Some(f) => read_opt_decimal(f),
        None => Some(None),
    }
}

proof fn lemma_first_bad(cols: Seq<Option<Seq<char>>>, c: nat, j: nat)
    requires
        c <= NUM_COLUMNS,
        j <= c,
        cols.len() == NUM_COLUMNS,
        forall|k: int| 0 <= k < c ==> column_ok(k, #[trigger] cols[k]),
        c < NUM_COLUMNS ==> !column_ok(c as int, cols[c as int]),
    ensures
        first_bad_from(cols, j) == (if c < NUM_COLUMNS { Some(c) } else { None::<nat> }),
    decreases c - j,
{
    if j < c {
        lemma_first_bad(cols, c, j + 1);
    }
}

/// Converts the schema columns of a row laid out by `layout`, or names the
/// first that is missing or does not convert.
fn convert_row(layout: &Vec<Option<usize>>, fields: &Vec<String>) -> (r: Result<
    FighterRecord,
    usize,
>)
    requires
        layout.len() == NUM_COLUMNS,
        forall|j: int| 0 <= j < NUM_COLUMNS ==> (#[trigger] layout@[j] matches Some(p) ==> p
            < fields.len()),
    ensures
        match first_bad_from(columns_by(layout@, fields_view(fields@)), 0) {
            Some(c) => r == Err::<FighterRecord, usize>(c as usize) && c < NUM_COLUMNS,
            None => r matches Ok(rec) && rec@ == record_view_of(
                columns_by(layout@, fields_view(fields@)),
            ),
        },
{
    let ghost cols = columns_by(layout@, fields_view(fields@));
    let mut nums: Vec<Option<i64>> = Vec::new();
    let mut counts: Vec<u64> = Vec::new();
    let mut birth: Option<Date> = None;
    let mut k: usize = 0;
    while k < NUM_COLUMNS
        invariant
            cols == columns_by(layout@, fields_view(fields@)),
            layout.len() == NUM_COLUMNS,
            forall|j: int| 0 <= j < NUM_COLUMNS ==> (#[trigger] layout@[j] matches Some(p) ==> p
                < fields.len()),
            k <= NUM_COLUMNS,
            nums.len() == k,
            counts.len() == k,
            forall|j: int| 0 <= j < k ==> column_ok(j, #[trigger] cols[j]),
            forall|j: int|
                0 <= j < k && is_decimal_column(j) ==> Some(#[trigger] nums@[j]) == opt_decimal_col(
                    cols[j],
                ),
            forall|j: int|
                0 <= j < k && is_count_column(j) ==> count_of(bytes(cols[j].unwrap())) == Some(
                    (#[trigger] counts@[j]) as nat,
                ),
            k > 9 ==> (birth matches Some(d) && ymd_of(cols[9].unwrap()) == Some(
                (d.year as int, d.month as int, d.day as int),
            )),
        decreases NUM_COLUMNS - k,
    {
        let v = column(layout, fields, k);
        if (5 <= k && k <= 7) || (10 <= k && k <= 17) {
            match read_opt_decimal_col(v) {
                Some(x) => {
                    nums.push(x);
                    counts.push(0);
                },
                None => {
                    proof {
                        lemma_first_bad(cols, k as nat, 0);
                    }
                    return Err(k);
                },
            }
        } else if 2 <= k && k <= 4 {
            let c = match v {
                Some(f) => read_count(f),
                None => None,
            };
            match c {
                Some(c) => {
                    nums.push(None);
                    counts.push(c);
                },
                None => {
                    proof {
                        lemma_first_bad(cols, k as nat, 0);
                    }
                    return Err(k);
                },
            }
        } else if k == 9 {
            let d = match v {
                Some(f) => parse_date(f.as_str()),
                None => None,
            };
            match d {
                Some(d) => {
                    birth = Some(d);
                    nums.push(None);
                    counts.push(0);
                },
                None => {
                    proof {
                        lemma_first_bad(cols, k as nat, 0);
                    }
                    return Err(k);
                },
            }
        } else {
            if v.is_none() && (k == 0 || k == 8) {
                proof {
                    lemma_first_bad(cols, k as nat, 0);
                }
                return Err(k);
            }
            nums.push(None);
            counts.push(0);
        }
        k = k + 1;
    }
    proof {
        lemma_first_bad(cols, NUM_COLUMNS as nat, 0);
        assert(column_ok(0, cols[0]) && column_ok(8, cols[8]));
        assert(is_count_column(2) && is_count_column(3) && is_count_column(4));
        assert(is_decimal_column(5) && is_decimal_column(6) && is_decimal_column(7));
        assert(is_decimal_column(10) && is_decimal_column(11) && is_decimal_column(12));
        assert(is_decimal_column(13) && is_decimal_column(14) && is_decimal_column(15));
        assert(is_decimal_column(16) && is_decimal_column(17));
    }
    let name = column(layout, fields, 0).unwrap().clone();
    let nickname = match column(layout, fields, 1) {
        Some(f) => if f.as_str().is_empty() { None } else { Some(f.clone()) },
        None => None,
    };
    let stance = column(layout, fields, 8).unwrap().clone();
    let rec = FighterRecord {
        name,
        nickname,
        wins: counts[2],
        losses: counts[3],
        draws: counts[4],
        height_cm: nums[5],
        weight_in_kg: nums[6],
        reach_in_cm: nums[7],
        stance,
        date_of_birth: birth.unwrap(),
        significant_strikes_landed_per_minute: nums[10],
        significant_striking_accuracy: nums[11],
        significant_strikes_absorbed_per_minute: nums[12],
        significant_strike_defence: nums[13],
        average_takedowns_landed_per_15_minutes: nums[14],
        takedown_accuracy: nums[15],
        takedown_defense: nums[16],
        average_submissions_attempted_per_15_minutes: nums[17],
    };
    assert(rec@ =~= record_view_of(cols));
    Ok(rec)
}

/// Loads the rows that the reader produced: the first row is the header,
/// whose field count every later row must have and whose names place the
/// schema's columns.
pub fn load_rows(rows: &Vec<CsvRow>) -> (r: LoadOutcome)
    ensures
        r.loaded_from(rows_view(rows@)),
{
    let ghost rv = rows_view(rows@);
    let mut records: Vec<FighterRecord> = Vec::new();
    let mut rejections: Vec<Rejection> = Vec::new();
    if rows.len() == 0 {
        assert(data_rows(rv) =~= Seq::<(int, Seq<Seq<char>>)>::empty());
        assert(records_view(records@) =~= Seq::<FighterRecordView>::empty());
        return LoadOutcome { records, rejections };
    }
    let header = &rows[0].fields;
    let ghost hv = header_of(rv);
    assert(hv == fields_view(header@));
    let expected = header.len();
    let layout = layout_for(header);
    let mut i: usize = 1;
    while i < rows.len()
        invariant
            rv == rows_view(rows@),
            rows.len() > 0,
            hv == header_of(rv),
            expected == hv.len(),
            layout_fits(layout@, hv, expected as nat),
            1 <= i <= rows.len(),
            records_view(records@) == accepted(hv, rv.subrange(1, i as int)),
            rejections@ == rejected(hv, rv.subrange(1, i as int)),
        decreases rows.len() - i,
    {
        let ghost prev_recs = records_view(records@);
        let ghost seen = rv.subrange(1, i + 1);
        assert(seen.drop_last() =~= rv.subrange(1, i as int));
        assert(seen.last() == row_view(rows@[i as int]));
        let row = &rows[i];
        let fields = &row.fields;
        if is_blank_row(fields) {
        } else if fields.len() != expected {
            rejections.push(
                Rejection {
                    line: row.line,
                    reason: RejectReason::FieldCount { expected, found: fields.len() },
                },
            );
        } else {
            let ghost fv = fields_view(fields@);
            assert(columns_by(layout@, fv) =~= column_values(hv, fv)) by {
                assert forall|k: int| 0 <= k < NUM_COLUMNS implies #[trigger] columns_by(
                    layout@,
                    fv,
                )[k] == column_values(hv, fv)[k] by {
                    assert(nat_opt(layout@[k]) == layout_of(hv)[k]);
                }
            }
            match convert_row(&layout, fields) {
                Ok(rec) => {
                    records.push(rec);
                    assert(records_view(records@) =~= prev_recs.push(rec@));
                },
                Err(c) => {
                    let reason = if layout[c].is_none() {
                        RejectReason::MissingField { column: c }
                    } else {
                        RejectReason::BadField { column: c }
                    };
                    rejections.push(Rejection { line: row.line, reason });
                },
            }
        }
        i = i + 1;
    }
    assert(rv.subrange(1, rows.len() as int) =~= data_rows(rv));
    LoadOutcome { records, rejections }
}

/// Splits `text` into rows and loads them. Bad rows never make the load
/// fail: they are skipped, each with its diagnostic.
pub fn load_records(text: &str) -> (r: LoadOutcome)
    ensures
        r.loaded_from(csv_rows_of(text@)),
{
    let rows = split_csv(text);
    load_rows(&rows)
}

/// Every data row is accounted for once: it is blank, it makes a record, or
/// it makes exactly one diagnostic. So when no row is rejected, the number
/// of records is the number of non-blank rows.
pub proof fn lemma_rows_accounted(header: Seq<Seq<char>>, rows: Seq<(int, Seq<Seq<char>>)>)
    ensures
        accepted(header, rows).len() + rejected(header, rows).len() + blank_count(header, rows)
            == rows.len(),
        (forall|i: int|
            0 <= i < rows.len() ==> !(row_outcome(header, #[trigger] rows[i].1) is Rejected))
            ==> accepted(header, rows).len() == rows.len() - blank_count(header, rows),
    decreases rows.len(),
{
    if rows.len() > 0 {
        let p = rows.drop_last();
        lemma_rows_accounted(header, p);
        if forall|i: int|
            0 <= i < rows.len() ==> !(row_outcome(header, #[trigger] rows[i].1) is Rejected) {
            assert(!(row_outcome(header, rows[rows.len() - 1].1) is Rejected));
            assert forall|i: int|
                0 <= i < p.len() implies !(row_outcome(header, #[trigger] p[i].1) is Rejected) by {
                assert(p[i] == rows[i]);
            }
        }
    }
}

/// A row that makes no record leaves the loaded records as they would be
/// without it.
pub proof fn lemma_unconverted_row_excluded(
    header: Seq<Seq<char>>,
    rows: Seq<(int, Seq<Seq<char>>)>,
    i: int,
)
    requires
        0 <= i < rows.len(),
        !(row_outcome(header, rows[i].1) is Accepted),
    ensures
        accepted(header, rows) == accepted(header, rows.remove(i)),
    decreases rows.len(),
{
    if i == rows.len() - 1 {
        assert(rows.remove(i) =~= rows.drop_last());
    } else {
        let q = rows.remove(i);
        assert(q.drop_last() =~= rows.drop_last().remove(i));
        assert(q.last() == rows.last());
        assert(rows.drop_last()[i] == rows[i]);
        lemma_unconverted_row_excluded(header, rows.drop_last(), i);
    }
}

/// A non-blank row whose field count differs from the header's is
/// rejected for its field count and contributes no record.
pub proof fn lemma_wrong_arity_excluded(
    header: Seq<Seq<char>>,
    rows: Seq<(int, Seq<Seq<char>>)>,
    i: int,
)
    requires
        0 <= i < rows.len(),
        !blank_row(rows[i].1),
        rows[i].1.len() != header.len(),
    ensures
        row_outcome(header, rows[i].1) == RowOutcome::Rejected(
            RejectReason::FieldCount {
                expected: header.len() as usize,
                found: rows[i].1.len() as usize,
            },
        ),
        accepted(header, rows) == accepted(header, rows.remove(i)),
{
    lemma_unconverted_row_excluded(header, rows, i);
}

/// A non-blank row of the header's width whose schema column `c` is
/// missing, or holds a counter, a decimal or a date that does not convert,
/// is rejected for a column no later than `c` and contributes no record.
pub proof fn lemma_bad_field_excluded(
    header: Seq<Seq<char>>,
    rows: Seq<(int, Seq<Seq<char>>)>,
    i: int,
    c: nat,
)
    requires
        0 <= i < rows.len(),
        !blank_row(rows[i].1),
        rows[i].1.len() == header.len(),
        c < NUM_COLUMNS,
        !column_ok(c as int, column_values(header, rows[i].1)[c as int]),
    ensures
        rejected_for_column_by(row_outcome(header, rows[i].1), c),
        accepted(header, rows) == accepted(header, rows.remove(i)),
{
    lemma_first_bad_at_most(column_values(header, rows[i].1), c, 0);
    lemma_unconverted_row_excluded(header, rows, i);
}

/// A rejection for a missing or unconvertible column no later than `c`.
pub open spec fn rejected_for_column_by(o: RowOutcome, c: nat) -> bool {
    match o {
        RowOutcome::Rejected(RejectReason::BadField { column }) => column <= c,
        RowOutcome::Rejected(RejectReason::MissingField { column }) => column <= c,
        _ => false,
    }
}

proof fn lemma_first_bad_at_most(cols: Seq<Option<Seq<char>>>, c: nat, j: nat)
    requires
        j <= c < NUM_COLUMNS,
        !column_ok(c as int, cols[c as int]),
    ensures
        first_bad_from(cols, j) matches Some(b) && j <= b <= c,
    decreases c - j,
{
    if j < c && column_ok(j as int, cols[j as int]) {
        lemma_first_bad_at_most(cols, c, j + 1);
    }
}

} // verus!
