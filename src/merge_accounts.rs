//! Joining the ledger export with the payment-provider export.
use vstd::prelude::*;
use vstd::string::StringSliceAdditionalSpecFns;
use crate::bytes::starts_with;
use crate::{normalize_number, normalized};
use crate::csv_io::{csv_text, write_rows};
use crate::dates::{
    decimal_bytes, decimal_text, format_iso8601, git_date_seconds, iso8601_text, parse_git_date,
    parse_utc_date_time, utc_seconds, utf8_text,
};
use crate::merge::{
    all_rows, is_sorted_listing, key_indices, latest, merge_inputs, read_tables, selector_bytes,
    merge_ok, readable, read_fails_at, rows_have_width, sorted_listing_unique,
};
use crate::column::column_index;
use crate::record::copy_fields;
use crate::reconcile::{
    build_lookup, decisions, is_lookup_of, lemma_decisions_in_range, lemma_lookup_properties,
    lemma_decisions_len, lookup_unique, reconcile_pairs_at_most_once,
    match_view, paired_row, reconcile, LookupEntry, Match,
};
use crate::sle::{first_rule, text_bytes, Engine};
use csv::Error as CsvError;
use time::Error as TimeError;
use vstd::utf8::{decode_utf8, encode_utf8, valid_utf8};

verus! {

/// Whether a byte starts a character in UTF-8 (is not a continuation byte).
pub open spec fn is_lead(b: u8) -> bool {
    !(0x80 <= b && b < 0xc0)
}

/// Splitting `b` into pieces that each start at a lead byte: the pieces done so far and
/// the one being built.
pub open spec fn split_state(b: Seq<u8>) -> (Seq<Seq<u8>>, Seq<u8>)
    decreases b.len(),
{
    if b.len() == 0 {
        (Seq::empty(), Seq::empty())
    } else {
        let (done, cur) = split_state(b.drop_last());
        let x = b.last();
        if is_lead(x) && cur.len() > 0 {
            (done.push(cur), seq![x])
        } else {
            (done, cur.push(x))
        }
    }
}

/// The characters of a marker string, each as its bytes.
pub open spec fn marker_pieces(b: Seq<u8>) -> Seq<Seq<u8>> {
    let (done, cur) = split_state(b);
    if cur.len() > 0 {
        done.push(cur)
    } else {
        done
    }
}

/// The field starts with one of the markers.
pub open spec fn is_marked(f: Seq<u8>, markers: Seq<Seq<u8>>) -> bool {
    exists|i: int|
        0 <= i < markers.len() && (#[trigger] markers[i]).len() <= f.len() && f.take(
            markers[i].len() as int,
        ) == markers[i]
}

/// A field with its number separators rewritten when it starts with a marker.
pub open spec fn normalize_field(f: Seq<u8>, markers: Seq<Seq<u8>>, thousands: u8, decimal: u8) -> Seq<u8> {
    if is_marked(f, markers) {
        normalized(f, thousands, decimal)
    } else {
        f
    }
}

pub open spec fn normalize_row(
    row: Seq<Seq<u8>>,
    markers: Seq<Seq<u8>>,
    thousands: u8,
    decimal: u8,
) -> Seq<Seq<u8>> {
    Seq::new(row.len(), |i: int| normalize_field(row[i], markers, thousands, decimal))
}

/// Split the marker string into its characters' bytes.
fn split_markers(markers: &str) -> (r: Vec<Vec<u8>>)
    ensures
        r.deep_view() == marker_pieces(markers.spec_bytes()),
{
    let b = markers.as_bytes();
    let mut done: Vec<Vec<u8>> = Vec::new();
    let mut cur: Vec<u8> = Vec::new();
    let mut i: usize = 0;
    while i < b.len()
        invariant
            i <= b@.len(),
            b@ == markers.spec_bytes(),
            (done.deep_view(), cur@) == split_state(b@.take(i as int)),
        decreases b.len() - i,
    {
        let x = b[i];
        proof {
            assert(b@.take(i + 1).drop_last() =~= b@.take(i as int));
        }
        let ghost d0 = done.deep_view();
        let ghost e0 = done@;
        let ghost c0 = cur@;
        if !(0x80 <= x && x < 0xc0) && cur.len() > 0 {
            done.push(cur);
            cur = Vec::new();
            cur.push(x);
            proof {
                assert forall|j: int| 0 <= j < e0.len() implies done@[j] == e0[j] by {}
                assert(done.deep_view().last() =~= c0);
                assert(done.deep_view() =~= d0.push(split_state(b@.take(i as int)).1));
                assert(cur@ =~= seq![x]);
            }
        } else {
            cur.push(x);
        }
        i = i + 1;
    }
    assert(b@.take(i as int) =~= b@);
    if cur.len() > 0 {
        let ghost d0 = done.deep_view();
        let ghost e0 = done@;
        let ghost c0 = cur@;
        done.push(cur);
        assert forall|j: int| 0 <= j < e0.len() implies done@[j] == e0[j] by {}
        assert(done.deep_view().last() =~= c0);
        assert(done.deep_view() =~= d0.push(split_state(b@).1));
    }
    done
}

/// Whether `value` starts with one of `markers`.
fn starts_with_marker(value: &[u8], markers: &Vec<Vec<u8>>) -> (r: bool)
    ensures
        r == is_marked(value@, markers.deep_view()),
{
    let mut i: usize = 0;
    while i < markers.len()
        invariant
            i <= markers@.len(),
            forall|j: int|
                0 <= j < i ==> !((#[trigger] markers.deep_view()[j]).len() <= value@.len()
                    && value@.take(markers.deep_view()[j].len() as int) == markers.deep_view()[j]),
        decreases markers.len() - i,
    {
        assert(markers.deep_view()[i as int] =~= markers@[i as int]@);
        if starts_with(value, markers[i].as_slice()) {
            return true;
        }
        i = i + 1;
    }
    false
}

/// The fields of `row`, each normalized when it starts with a marker.
fn normalize_fields(row: &Vec<Vec<u8>>, markers: &Vec<Vec<u8>>, thousands: char, decimal: char) -> (r:
    Vec<Vec<u8>>)
    requires
        (thousands as u32) < 256,
        (decimal as u32) < 256,
    ensures
        r.deep_view() == normalize_row(
            row.deep_view(),
            markers.deep_view(),
            (thousands as u32) as u8,
            (decimal as u32) as u8,
        ),
{
    let mut out: Vec<Vec<u8>> = Vec::new();
    let mut i: usize = 0;
    while i < row.len()
        invariant
            i <= row@.len(),
            (thousands as u32) < 256,
            (decimal as u32) < 256,
            out@.len() == i,
            forall|j: int|
                0 <= j < i ==> (#[trigger] out@[j])@ == normalize_field(
                    row.deep_view()[j],
                    markers.deep_view(),
                    (thousands as u32) as u8,
                    (decimal as u32) as u8,
                ),
        decreases row.len() - i,
    {
        let f = row[i].as_slice();
        assert(row.deep_view()[i as int] =~= f@);
        let v = if starts_with_marker(f, markers) {
            normalize_number(f, thousands, decimal)
        } else {
            vstd::slice::slice_to_vec(f)
        };
        out.push(v);
        i = i + 1;
    }
    proof {
        let want = normalize_row(row.deep_view(), markers.deep_view(), (thousands as u32) as u8, (decimal as u32) as u8);
        assert forall|j: int| 0 <= j < out@.len() implies out.deep_view()[j] == want[j] by {
            assert(out.deep_view()[j] =~= out@[j]@);
        }
        assert(out.deep_view() =~= want);
    }
    out
}

/// The format of the payment export's date column followed by its time column.
pub const PAYMENT_FORMAT: &'static str = "[month repr:long] [day padding:none], [year][hour]:[minute]:[second] UTC";

/// Why joining the two exports failed.
#[derive(Debug)]
pub enum Error {
    Csv(CsvError),
    Merge(crate::merge::Error),
    /// A row of the merged table (whose header is line 1) lacks a date or time field.
    MissingColumn { index: usize, kind: String, line: u64 },
    /// Date bytes that are not UTF-8.
    InvalidDateEncoding { date: Vec<u8> },
    /// A payment date and time that the payment format does not read.
    ParseTime { date_time: String, source: TimeError },
    /// A ledger date that the flexible date grammar does not read.
    ParseGitTime { date_time: String, source: String },
}

impl Error {
    /// A missing `kind` column at `index` in the row at `line`.
    pub fn from_position(index: usize, line: u64, kind: &str) -> (r: Self)
        ensures
            r matches Error::MissingColumn { index: i, kind: k, line: l } && i == index && l == line
                && k@ == kind@,
    {
        Error::MissingColumn { line, kind: kind.to_owned(), index }
    }
}

/// How to read and join the two exports.
#[derive(Clone, Debug)]
pub struct Options {
    pub stripe_date_column: String,
    pub stripe_time_column: String,
    pub stripe_delimiter: char,
    pub github_date_column: String,
    pub github_delimiter: char,
    pub max_distance_seconds: u64,
    /// the possible characters that denote the start of a number that we are supposed to normalize
    pub number_markers: String,
    /// Separator for use with number normalization.
    pub decimal_separator: char,
    /// Separator for use with number normalization.
    pub thousands_separator: char,
    /// The rules whose note is appended to each output row, if any.
    pub notes: Option<Engine>,
}

impl Default for Options {
    fn default() -> (r: Self)
        ensures
            r.stripe_date_column@ == "Date"@,
            r.stripe_time_column@ == "Time"@,
            r.stripe_delimiter == ',',
            r.github_date_column@ == "Transaction Date"@,
            r.github_delimiter == ',',
            r.max_distance_seconds == 10,
            r.number_markers@ == "\u{e2}\u{201a}\u{ac}$"@,
            r.thousands_separator == '.',
            r.decimal_separator == ',',
            r.notes is None,
    {
        Options {
            stripe_date_column: "Date".to_owned(),
            stripe_time_column: "Time".to_owned(),
            stripe_delimiter: ',',
            github_date_column: "Transaction Date".to_owned(),
            github_delimiter: ',',
            max_distance_seconds: 10,
            number_markers: "\u{e2}\u{201a}\u{ac}$".to_owned(),
            thousands_separator: '.',
            decimal_separator: ',',
            notes: None,
        }
    }
}

/// The date and time text of a payment row.
pub open spec fn payment_text(row: Seq<Seq<u8>>, di: usize, ti: usize) -> Seq<u8> {
    row[di as int] + row[ti as int]
}

/// A payment row has both fields, and they read as a date-time in the payment format.
pub open spec fn payment_row_ok(row: Seq<Seq<u8>>, di: usize, ti: usize) -> bool {
    &&& di < row.len()
    &&& ti < row.len()
    &&& valid_utf8(payment_text(row, di, ti))
    &&& utc_seconds(decode_utf8(payment_text(row, di, ti)), PAYMENT_FORMAT@) is Some
}

pub open spec fn payment_seconds(row: Seq<Seq<u8>>, di: usize, ti: usize) -> int {
    utc_seconds(decode_utf8(payment_text(row, di, ti)), PAYMENT_FORMAT@)->0
}

/// A ledger row has the date field, and it reads as a date.
pub open spec fn ledger_row_ok(row: Seq<Seq<u8>>, gi: usize) -> bool {
    &&& gi < row.len()
    &&& valid_utf8(row[gi as int])
    &&& git_date_seconds(decode_utf8(row[gi as int])) is Some
}

pub open spec fn ledger_seconds(row: Seq<Seq<u8>>, gi: usize) -> int {
    git_date_seconds(decode_utf8(row[gi as int]))->0
}

/// The line of the `k`-th row of a merged table whose header is line 1.
pub open spec fn line_of(k: int) -> int {
    if k + 2 <= u64::MAX {
        k + 2
    } else {
        u64::MAX as int
    }
}

/// `e` is the error the payment row `row` (the `k`-th) gives: a missing date field, else
/// a missing time field, else date and time text that is not UTF-8, else text that the
/// payment format does not read.
pub open spec fn payment_error_fits(e: Error, row: Seq<Seq<u8>>, di: usize, ti: usize, k: int) -> bool {
    match e {
        Error::MissingColumn { index, kind, line } => line as int == line_of(k) && if di
            >= row.len() {
            index == di && kind@ == "date"@
        } else {
            ti >= row.len() && index == ti && kind@ == "time"@
        },
        Error::InvalidDateEncoding { date } => di < row.len() && ti < row.len() && !valid_utf8(
            payment_text(row, di, ti),
        ) && date@ == payment_text(row, di, ti),
        Error::ParseTime { date_time, source } => di < row.len() && ti < row.len() && valid_utf8(
            payment_text(row, di, ti),
        ) && date_time@ == decode_utf8(payment_text(row, di, ti)) && utc_seconds(
            date_time@,
            PAYMENT_FORMAT@,
        ) is None,
        _ => false,
    }
}

/// `e` is the error the ledger row `row` (the `k`-th) gives: a missing date field
/// (named after `column`), else date text that is not UTF-8, else text that the date
/// grammar does not read.
pub open spec fn ledger_error_fits(e: Error, row: Seq<Seq<u8>>, gi: usize, column: String, k: int) -> bool {
    match e {
        Error::MissingColumn { index, kind, line } => line as int == line_of(k) && gi >= row.len()
            && index == gi && kind@ == column@,
        Error::InvalidDateEncoding { date } => gi < row.len() && !valid_utf8(row[gi as int])
            && date@ == row[gi as int],
        Error::ParseGitTime { date_time, source } => gi < row.len() && valid_utf8(row[gi as int])
            && date_time@ == decode_utf8(row[gi as int]) && git_date_seconds(date_time@) is None,
        _ => false,
    }
}

/// The instant of each payment row.
fn payment_instants(rows: &Vec<Vec<Vec<u8>>>, di: usize, ti: usize) -> (r: Result<Vec<i64>, Error>)
    ensures
        r is Ok <==> forall|k: int| 0 <= k < rows@.len() ==> payment_row_ok(#[trigger] rows@[k].deep_view(), di, ti),
        r matches Ok(v) ==> v@.len() == rows@.len() && forall|k: int|
            0 <= k < rows@.len() ==> (#[trigger] v@[k]) as int == payment_seconds(rows@[k].deep_view(), di, ti),
        r matches Err(e) ==> exists|k: int|
            0 <= k < rows@.len() && (forall|j: int|
                0 <= j < k ==> payment_row_ok(#[trigger] rows@[j].deep_view(), di, ti))
                && payment_error_fits(e, rows@[k].deep_view(), di, ti, k),
{
    let mut out: Vec<i64> = Vec::new();
    let mut k: usize = 0;
    while k < rows.len()
        invariant
            k <= rows@.len(),
            out@.len() == k,
            forall|j: int| 0 <= j < k ==> payment_row_ok(#[trigger] rows@[j].deep_view(), di, ti),
            forall|j: int|
                0 <= j < k ==> (#[trigger] out@[j]) as int == payment_seconds(rows@[j].deep_view(), di, ti),
        decreases rows.len() - k,
    {
        let row = &rows[k];
        assert(rows@[k as int].deep_view().len() == row@.len());
        let line: u64 = (k as u64).saturating_add(2);
        if di >= row.len() {
            return Err(Error::from_position(di, line, "date"));
        }
        if ti >= row.len() {
            return Err(Error::from_position(ti, line, "time"));
        }
        let mut text = vstd::slice::slice_to_vec(row[di].as_slice());
        text.extend_from_slice(row[ti].as_slice());
        proof {
            assert(row.deep_view()[di as int] =~= row@[di as int]@);
            assert(row.deep_view()[ti as int] =~= row@[ti as int]@);
            assert(text@ =~= payment_text(row.deep_view(), di, ti));
        }
        let s = match utf8_text(text.as_slice()) {
            Some(s) => s,
            None => {
                return Err(Error::InvalidDateEncoding { date: text });
            },
        };
        proof { vstd::utf8::encode_utf8_decode_utf8(s@); }
        match parse_utc_date_time(s.as_str(), PAYMENT_FORMAT) {
            Ok(t) => out.push(t),
            Err(e) => {
                return Err(Error::ParseTime { date_time: s, source: e });
            },
        }
        k = k + 1;
    }
    Ok(out)
}

/// The instant of each ledger row.
fn ledger_instants(rows: &Vec<Vec<Vec<u8>>>, gi: usize, column: &String) -> (r: Result<Vec<i64>, Error>)
    ensures
        r is Ok <==> forall|k: int| 0 <= k < rows@.len() ==> ledger_row_ok(#[trigger] rows@[k].deep_view(), gi),
        r matches Ok(v) ==> v@.len() == rows@.len() && forall|k: int|
            0 <= k < rows@.len() ==> (#[trigger] v@[k]) as int == ledger_seconds(rows@[k].deep_view(), gi),
        r matches Err(e) ==> exists|k: int|
            0 <= k < rows@.len() && (forall|j: int|
                0 <= j < k ==> ledger_row_ok(#[trigger] rows@[j].deep_view(), gi))
                && ledger_error_fits(e, rows@[k].deep_view(), gi, *column, k),
{
    let mut out: Vec<i64> = Vec::new();
    let mut k: usize = 0;
    while k < rows.len()
        invariant
            k <= rows@.len(),
            out@.len() == k,
            forall|j: int| 0 <= j < k ==> ledger_row_ok(#[trigger] rows@[j].deep_view(), gi),
            forall|j: int|
                0 <= j < k ==> (#[trigger] out@[j]) as int == ledger_seconds(rows@[j].deep_view(), gi),
        decreases rows.len() - k,
    {
        let row = &rows[k];
        assert(rows@[k as int].deep_view().len() == row@.len());
        let line: u64 = (k as u64).saturating_add(2);
        if gi >= row.len() {
            return Err(Error::from_position(gi, line, column.as_str()));
        }
        let bytes = row[gi].as_slice();
        assert(row.deep_view()[gi as int] =~= bytes@);
        let s = match utf8_text(bytes) {
            Some(s) => s,
            None => {
                return Err(Error::InvalidDateEncoding { date: vstd::slice::slice_to_vec(bytes) });
            },
        };
        proof { vstd::utf8::encode_utf8_decode_utf8(s@); }
        match parse_git_date(s.as_str()) {
            Ok(t) => out.push(t),
            Err(e) => {
                return Err(Error::ParseGitTime { date_time: s, source: e });
            },
        }
        k = k + 1;
    }
    Ok(out)
}

/// The fields that follow the ledger fields: the paired payment row's instant, the
/// distance and the payment row's fields, or as many empty fields.
pub open spec fn match_fields(
    decision: Option<(int, int)>,
    stripe_rows: Seq<Seq<Seq<u8>>>,
    ps: Seq<i64>,
    width: nat,
    markers: Seq<Seq<u8>>,
    thousands: u8,
    decimal: u8,
) -> Seq<Seq<u8>> {
    match decision {
        Some((p, d)) => seq![encode_utf8(iso8601_text(ps[p] as int)), decimal_text(d as nat)]
            + normalize_row(stripe_rows[p], markers, thousands, decimal),
        None => Seq::new(width + 2, |i: int| Seq::<u8>::empty()),
    }
}

/// `row` with the note of the first matching rule appended (empty if none matches),
/// when there are rules.
pub open spec fn with_note(row: Seq<Seq<u8>>, notes: Option<Engine>) -> Seq<Seq<u8>> {
    match notes {
        Some(e) => row.push(
            match first_rule(e.rules@, row) {
                Some(i) => text_bytes(e.rules@[i].value),
                None => Seq::empty(),
            },
        ),
        None => row,
    }
}

/// One output row.
pub open spec fn joined_row(
    ledger_row: Seq<Seq<u8>>,
    decision: Option<(int, int)>,
    stripe_rows: Seq<Seq<Seq<u8>>>,
    ps: Seq<i64>,
    width: nat,
    markers: Seq<Seq<u8>>,
    thousands: u8,
    decimal: u8,
    notes: Option<Engine>,
) -> Seq<Seq<u8>> {
    with_note(
        normalize_row(ledger_row, markers, thousands, decimal) + match_fields(
            decision,
            stripe_rows,
            ps,
            width,
            markers,
            thousands,
            decimal,
        ),
        notes,
    )
}

fn append_fields(dst: &mut Vec<Vec<u8>>, src: Vec<Vec<u8>>)
    ensures
        final(dst).deep_view() == old(dst).deep_view() + src.deep_view(),
{
    let ghost d0 = dst@;
    let ghost dd = dst.deep_view();
    let mut src = src;
    let ghost s0 = src@;
    let ghost sd = src.deep_view();
    dst.append(&mut src);
    assert(dst@ == d0 + s0);
    assert forall|j: int| 0 <= j < dst@.len() implies dst.deep_view()[j] == (dd + sd)[j] by {
        if j < d0.len() {
            assert(dst@[j] == d0[j]);
        } else {
            assert(dst@[j] == s0[j - d0.len()]);
        }
    }
    assert(dst.deep_view() =~= dd + sd);
}

fn push_field(dst: &mut Vec<Vec<u8>>, f: Vec<u8>)
    ensures
        final(dst).deep_view() == old(dst).deep_view().push(f@),
{
    let ghost d0 = dst@;
    let ghost dd = dst.deep_view();
    let ghost fv = f@;
    dst.push(f);
    assert forall|j: int| 0 <= j < dst@.len() implies dst.deep_view()[j] == dd.push(fv)[j] by {
        if j < d0.len() {
            assert(dst@[j] == d0[j]);
        }
    }
    assert(dst.deep_view() =~= dd.push(fv));
}

fn push_row(dst: &mut Vec<Vec<Vec<u8>>>, row: Vec<Vec<u8>>)
    ensures
        final(dst).deep_view() == old(dst).deep_view().push(row.deep_view()),
{
    let ghost d0 = dst@;
    let ghost dd = dst.deep_view();
    let ghost rv = row.deep_view();
    dst.push(row);
    assert forall|j: int| 0 <= j < dst@.len() implies dst.deep_view()[j] == dd.push(rv)[j] by {
        if j < d0.len() {
            assert(dst@[j] == d0[j]);
        }
    }
    assert(dst.deep_view() =~= dd.push(rv));
}

/// Build one output row.
fn join_row(
    ledger_row: &Vec<Vec<u8>>,
    decision: Option<Match>,
    stripe_rows: &Vec<Vec<Vec<u8>>>,
    ps: &Vec<i64>,
    width: usize,
    markers: &Vec<Vec<u8>>,
    thousands: char,
    decimal: char,
    notes: &Option<Engine>,
) -> (r: Vec<Vec<u8>>)
    requires
        (thousands as u32) < 256,
        (decimal as u32) < 256,
        decision matches Some(m) ==> m.index < stripe_rows@.len() && m.index < ps@.len(),
    ensures
        r.deep_view() == joined_row(
            ledger_row.deep_view(),
            match_view(decision),
            stripe_rows.deep_view(),
            ps@,
            width as nat,
            markers.deep_view(),
            (thousands as u32) as u8,
            (decimal as u32) as u8,
            *notes,
        ),
{
    let ghost th = (thousands as u32) as u8;
    let ghost de = (decimal as u32) as u8;
    let mut row = normalize_fields(ledger_row, markers, thousands, decimal);
    let ghost base = row.deep_view();
    let mut extra: Vec<Vec<u8>> = Vec::new();
    match decision {
        Some(m) => {
            let when = format_iso8601(ps[m.index]);
            push_field(&mut extra, vstd::slice::slice_to_vec(when.as_str().as_bytes()));
            push_field(&mut extra, decimal_bytes(m.distance));
            let ghost two = extra.deep_view();
            assert(two =~= seq![encode_utf8(iso8601_text(ps@[m.index as int] as int)), decimal_text(m.distance as nat)]);
            assert(stripe_rows.deep_view()[m.index as int] =~= stripe_rows@[m.index as int].deep_view());
            let fields = normalize_fields(&stripe_rows[m.index], markers, thousands, decimal);
            append_fields(&mut extra, fields);
        },
        None => {
            push_field(&mut extra, Vec::new());
            push_field(&mut extra, Vec::new());
            let mut i: usize = 0;
            while i < width
                invariant
                    i <= width,
                    extra.deep_view() =~= Seq::new((i + 2) as nat, |j: int| Seq::<u8>::empty()),
                decreases width - i,
            {
                push_field(&mut extra, Vec::new());
                i = i + 1;
            }
        },
    }
    append_fields(&mut row, extra);
    match notes {
        Some(engine) => {
            let note: Vec<u8> = match engine.matching_rule(&row) {
                Some(rule) => vstd::slice::slice_to_vec(rule.value.as_str().as_bytes()),
                None => Vec::new(),
            };
            push_field(&mut row, note);
        },
        None => {},
    }
    row
}

/// The instants of the payment rows.
pub open spec fn payment_instants_of(stripe: Seq<Seq<Seq<u8>>>, di: usize, ti: usize) -> Seq<i64> {
    Seq::new(stripe.len(), |k: int| payment_seconds(stripe[k], di, ti) as i64)
}

/// The instants of the ledger rows.
pub open spec fn ledger_instants_of(ledger: Seq<Seq<Seq<u8>>>, gi: usize) -> Seq<i64> {
    Seq::new(ledger.len(), |k: int| ledger_seconds(ledger[k], gi) as i64)
}

/// The output rows: each ledger row joined with its pairing from `lut`.
pub open spec fn reconciled_rows(
    ledger: Seq<Seq<Seq<u8>>>,
    gi: usize,
    stripe: Seq<Seq<Seq<u8>>>,
    di: usize,
    ti: usize,
    width: nat,
    lut: Seq<LookupEntry>,
    options: Options,
    markers: Seq<Seq<u8>>,
) -> Seq<Seq<Seq<u8>>> {
    let ps = payment_instants_of(stripe, di, ti);
    let dec = decisions(lut, ledger_instants_of(ledger, gi), options.max_distance_seconds as int);
    Seq::new(
        ledger.len(),
        |k: int|
            joined_row(
                ledger[k],
                dec[k],
                stripe,
                ps,
                width,
                markers,
                (options.thousands_separator as u32) as u8,
                (options.decimal_separator as u32) as u8,
                options.notes,
            ),
    )
}

/// Pair the ledger rows (date at `gi`) with the payment rows (date at `di`, time at
/// `ti`, `width` columns) and build the output rows.
pub fn reconcile_rows(
    ledger: &Vec<Vec<Vec<u8>>>,
    gi: usize,
    stripe: &Vec<Vec<Vec<u8>>>,
    di: usize,
    ti: usize,
    width: usize,
    options: &Options,
) -> (r: Result<Vec<Vec<Vec<u8>>>, Error>)
    requires
        (options.thousands_separator as u32) < 256,
        (options.decimal_separator as u32) < 256,
    ensures
        r is Ok <==> (forall|k: int| 0 <= k < stripe@.len() ==> payment_row_ok(#[trigger] stripe@[k].deep_view(), di, ti))
            && (forall|k: int| 0 <= k < ledger@.len() ==> ledger_row_ok(#[trigger] ledger@[k].deep_view(), gi)),
        r matches Ok(rows) ==> exists|lut: Seq<LookupEntry>|
            is_lookup_of(lut, payment_instants_of(stripe.deep_view(), di, ti)) && rows.deep_view()
                == reconciled_rows(
                ledger.deep_view(),
                gi,
                stripe.deep_view(),
                di,
                ti,
                width as nat,
                lut,
                *options,
                marker_pieces(encode_utf8(options.number_markers@)),
            ),
        !(r matches Err(Error::Csv(_))) && !(r matches Err(Error::Merge(_))),
        r matches Err(e) ==> (exists|k: int|
            0 <= k < stripe@.len() && (forall|j: int|
                0 <= j < k ==> payment_row_ok(#[trigger] stripe@[j].deep_view(), di, ti))
                && payment_error_fits(e, stripe@[k].deep_view(), di, ti, k)) || ((forall|j: int|
            0 <= j < stripe@.len() ==> payment_row_ok(#[trigger] stripe@[j].deep_view(), di, ti))
            && exists|k: int|
            0 <= k < ledger@.len() && (forall|j: int|
                0 <= j < k ==> ledger_row_ok(#[trigger] ledger@[j].deep_view(), gi))
                && ledger_error_fits(e, ledger@[k].deep_view(), gi, options.github_date_column, k)),
{
    let ps = match payment_instants(stripe, di, ti) {
        Ok(v) => v,
        Err(e) => {
            return Err(e);
        },
    };
    let ts = match ledger_instants(ledger, gi, &options.github_date_column) {
        Ok(v) => v,
        Err(e) => {
            return Err(e);
        },
    };
    let ghost psv = payment_instants_of(stripe.deep_view(), di, ti);
    assert(ps@ =~= psv);
    assert(ts@ =~= ledger_instants_of(ledger.deep_view(), gi));
    let mut lut = build_lookup(&ps);
    let ghost lut0 = lut@;
    proof {
        lemma_lookup_properties(lut@, ps@);
        lemma_decisions_in_range(lut@, ts@, options.max_distance_seconds as int, ps@.len() as int);
    }
    let matches = reconcile(&ts, &mut lut, options.max_distance_seconds);
    let markers = split_markers(options.number_markers.as_str());
    let ghost dec = decisions(lut0, ts@, options.max_distance_seconds as int);
    let ghost want = reconciled_rows(
        ledger.deep_view(),
        gi,
        stripe.deep_view(),
        di,
        ti,
        width as nat,
        lut0,
        *options,
        markers.deep_view(),
    );
    let mut rows: Vec<Vec<Vec<u8>>> = Vec::new();
    let mut k: usize = 0;
    while k < ledger.len()
        invariant
            k <= ledger@.len(),
            matches@.len() == ledger@.len(),
            ts@.len() == ledger@.len(),
            ps@.len() == stripe@.len(),
            ps@ == psv,
            psv == payment_instants_of(stripe.deep_view(), di, ti),
            ts@ == ledger_instants_of(ledger.deep_view(), gi),
            (options.thousands_separator as u32) < 256,
            (options.decimal_separator as u32) < 256,
            markers.deep_view() == marker_pieces(encode_utf8(options.number_markers@)),
            dec == decisions(lut0, ts@, options.max_distance_seconds as int),
            forall|j: int| 0 <= j < ledger@.len() ==> match_view(#[trigger] matches@[j]) == dec[j],
            forall|j: int|
                0 <= j < ledger@.len() && (#[trigger] dec[j]) is Some ==> 0 <= paired_row(dec[j]) < ps@.len(),
            want == reconciled_rows(
                ledger.deep_view(),
                gi,
                stripe.deep_view(),
                di,
                ti,
                width as nat,
                lut0,
                *options,
                markers.deep_view(),
            ),
            rows.deep_view() =~= want.take(k as int),
        decreases ledger.len() - k,
    {
        let m = matches[k];
        proof {
            assert(match_view(m) == dec[k as int]);
            assert(ledger.deep_view()[k as int] =~= ledger@[k as int].deep_view());
        }
        let row = join_row(
            &ledger[k],
            m,
            stripe,
            &ps,
            width,
            &markers,
            options.thousands_separator,
            options.decimal_separator,
            &options.notes,
        );
        proof {
            assert(row.deep_view() == want[k as int]);
        }
        push_row(&mut rows, row);
        proof {
            assert(want.take(k + 1) =~= want.take(k as int).push(want[k as int]));
        }
        k = k + 1;
    }
    assert(want.take(k as int) =~= want);
    Ok(rows)
}

/// The output header: the ledger columns, the two match columns, the payment columns,
/// and a note column when there are rules.
pub open spec fn output_header(gh: Seq<Seq<u8>>, sh: Seq<Seq<u8>>, has_notes: bool) -> Seq<Seq<u8>> {
    let h = gh + seq![encode_utf8("Received Date"@), encode_utf8("Distance [s]"@)] + sh;
    if has_notes {
        h.push(encode_utf8("Note"@))
    } else {
        h
    }
}

/// The ledger exports' merge key: the date column alone.
pub open spec fn ledger_keys(options: Options) -> Seq<String> {
    seq![options.github_date_column]
}

/// The payment exports' merge key: the date and the time column.
pub open spec fn payment_keys(options: Options) -> Seq<String> {
    seq![options.stripe_date_column, options.stripe_time_column]
}

/// The number of fields of each output row.
pub open spec fn output_width(gw: int, width: int, options: Options) -> int {
    gw + 2 + width + if options.notes is Some {
        1int
    } else {
        0int
    }
}

/// Each output row has the ledger fields, the two match fields, the payment fields and,
/// with rules, the note.
pub proof fn lemma_reconciled_width(
    ledger: Seq<Seq<Seq<u8>>>,
    gi: usize,
    stripe: Seq<Seq<Seq<u8>>>,
    di: usize,
    ti: usize,
    width: nat,
    lut: Seq<LookupEntry>,
    options: Options,
    markers: Seq<Seq<u8>>,
    gw: int,
)
    requires
        rows_have_width(ledger, gw),
        rows_have_width(stripe, width as int),
        is_lookup_of(lut, payment_instants_of(stripe, di, ti)),
    ensures
        rows_have_width(
            reconciled_rows(ledger, gi, stripe, di, ti, width, lut, options, markers),
            output_width(gw, width as int, options),
        ),
{
    let ts = ledger_instants_of(ledger, gi);
    let max = options.max_distance_seconds as int;
    assert forall|i: int| 0 <= i < lut.len() implies (#[trigger] lut[i]).index < stripe.len() by {}
    lemma_decisions_in_range(lut, ts, max, stripe.len() as int);
    lemma_decisions_len(lut, ts, max);
    let out = reconciled_rows(ledger, gi, stripe, di, ti, width, lut, options, markers);
    assert forall|k: int| 0 <= k < out.len() implies (#[trigger] out[k]).len() == output_width(
        gw,
        width as int,
        options,
    ) by {
        let dec = decisions(lut, ts, max)[k];
        assert(ledger[k].len() == gw);
        if let Some((p, d)) = dec {
            assert(paired_row(dec) == p);
            assert(stripe[p].len() == width);
        }
    }
}

/// `text` is the joined table of the ledger exports `github` and the payment exports
/// `stripe`: both merged, the payment rows paired with the ledger rows in order.
pub open spec fn is_accounts_output(
    text: Seq<u8>,
    github: Seq<Vec<u8>>,
    stripe: Seq<Vec<u8>>,
    options: Options,
) -> bool {
    let gt = read_tables(github, (options.github_delimiter as u32) as u8);
    let st = read_tables(stripe, (options.stripe_delimiter as u32) as u8);
    let gh = gt[0].0;
    let sh = st[0].0;
    let gidx = key_indices(ledger_keys(options), gh);
    let gi = column_index(selector_bytes(options.github_date_column), gh)->0 as usize;
    let sidx = key_indices(payment_keys(options), sh);
    let si = column_index(selector_bytes(options.stripe_date_column), sh)->0 as usize;
    exists|l: Seq<Seq<Seq<u8>>>, s: Seq<Seq<Seq<u8>>>, lut: Seq<LookupEntry>|
        {
            &&& is_sorted_listing(l, latest(all_rows(gt), gidx), gidx, gi)
            &&& is_sorted_listing(s, latest(all_rows(st), sidx), sidx, si)
            &&& is_lookup_of(lut, payment_instants_of(s, sidx[0], sidx[1]))
            &&& rows_have_width(l, gh.len() as int)
            &&& rows_have_width(s, sh.len() as int)
            &&& rows_have_width(
                reconciled_rows(
                    l,
                    gi,
                    s,
                    sidx[0],
                    sidx[1],
                    sh.len(),
                    lut,
                    options,
                    marker_pieces(encode_utf8(options.number_markers@)),
                ),
                output_width(gh.len() as int, sh.len() as int, options),
            )
            &&& text == csv_text(
                seq![output_header(gh, sh, options.notes is Some)] + reconciled_rows(
                    l,
                    gi,
                    s,
                    sidx[0],
                    sidx[1],
                    sh.len(),
                    lut,
                    options,
                    marker_pieces(encode_utf8(options.number_markers@)),
                ),
                0x2c,
            )
        }
}

/// Both kinds of exports merge, and every merged payment row and ledger row has a date
/// (and time) that reads.
pub open spec fn accounts_inputs_ok(github: Seq<Vec<u8>>, stripe: Seq<Vec<u8>>, options: Options) -> bool {
    let gt = read_tables(github, (options.github_delimiter as u32) as u8);
    let st = read_tables(stripe, (options.stripe_delimiter as u32) as u8);
    let gh = gt[0].0;
    let sh = st[0].0;
    let gidx = key_indices(ledger_keys(options), gh);
    let gi = column_index(selector_bytes(options.github_date_column), gh)->0 as usize;
    let sidx = key_indices(payment_keys(options), sh);
    let si = column_index(selector_bytes(options.stripe_date_column), sh)->0 as usize;
    &&& (options.github_delimiter as u32) < 256
    &&& (options.stripe_delimiter as u32) < 256
    &&& readable(github, (options.github_delimiter as u32) as u8)
    &&& readable(stripe, (options.stripe_delimiter as u32) as u8)
    &&& merge_ok(gt, ledger_keys(options), options.github_date_column)
    &&& merge_ok(st, payment_keys(options), options.stripe_date_column)
    &&& forall|l: Seq<Seq<Seq<u8>>>, s: Seq<Seq<Seq<u8>>>|
        is_sorted_listing(l, latest(all_rows(gt), gidx), gidx, gi) && is_sorted_listing(
            s,
            latest(all_rows(st), sidx),
            sidx,
            si,
        ) ==> (forall|k: int| 0 <= k < s.len() ==> payment_row_ok(#[trigger] s[k], sidx[0], sidx[1]))
            && (forall|k: int| 0 <= k < l.len() ==> ledger_row_ok(#[trigger] l[k], gi))
}

/// `e` is the error of the first bad merged row: the first payment row whose date or
/// time is missing, not UTF-8 or unreadable; else the first such ledger row.
pub open spec fn accounts_row_error(e: Error, github: Seq<Vec<u8>>, stripe: Seq<Vec<u8>>, options: Options) -> bool {
    let gt = read_tables(github, (options.github_delimiter as u32) as u8);
    let st = read_tables(stripe, (options.stripe_delimiter as u32) as u8);
    let gh = gt[0].0;
    let sh = st[0].0;
    let gidx = key_indices(ledger_keys(options), gh);
    let gi = column_index(selector_bytes(options.github_date_column), gh)->0 as usize;
    let sidx = key_indices(payment_keys(options), sh);
    let si = column_index(selector_bytes(options.stripe_date_column), sh)->0 as usize;
    exists|l: Seq<Seq<Seq<u8>>>, s: Seq<Seq<Seq<u8>>>|
        #[trigger] is_sorted_listing(l, latest(all_rows(gt), gidx), gidx, gi)
            && #[trigger] is_sorted_listing(s, latest(all_rows(st), sidx), sidx, si) && ((exists|k: int|
            0 <= k < s.len() && (forall|j: int|
                0 <= j < k ==> payment_row_ok(#[trigger] s[j], sidx[0], sidx[1]))
                && payment_error_fits(e, s[k], sidx[0], sidx[1], k)) || ((forall|j: int|
            0 <= j < s.len() ==> payment_row_ok(#[trigger] s[j], sidx[0], sidx[1])) && exists|k: int|
            0 <= k < l.len() && (forall|j: int| 0 <= j < k ==> ledger_row_ok(#[trigger] l[j], gi))
                && ledger_error_fits(e, l[k], gi, options.github_date_column, k)))
}

/// Merge the ledger exports and the payment exports, pair each ledger row with a
/// payment row, and append the joined table to `out` as comma-separated CSV.
pub fn merge_accounts(
    github_data: &Vec<Vec<u8>>,
    stripe_data: &Vec<Vec<u8>>,
    out: &mut Vec<u8>,
    options: Options,
) -> (r: Result<(), Error>)
    requires
        (options.thousands_separator as u32) < 256,
        (options.decimal_separator as u32) < 256,
    ensures
        r is Err ==> *final(out) == *old(out),
        !(r matches Err(Error::Csv(_))),
        (r matches Err(Error::Merge(crate::merge::Error::Csv(_)))) <==> ((options.github_delimiter
            as u32) < 256 && exists|i: int|
            #[trigger] read_fails_at(
                github_data@,
                (options.github_delimiter as u32) as u8,
                ledger_keys(options),
                options.github_date_column,
                i,
            )) || ((options.github_delimiter as u32) < 256 && readable(
            github_data@,
            (options.github_delimiter as u32) as u8,
        ) && merge_ok(
            read_tables(github_data@, (options.github_delimiter as u32) as u8),
            ledger_keys(options),
            options.github_date_column,
        ) && (options.stripe_delimiter as u32) < 256 && exists|i: int|
            #[trigger] read_fails_at(
                stripe_data@,
                (options.stripe_delimiter as u32) as u8,
                payment_keys(options),
                options.stripe_date_column,
                i,
            )),
        r matches Err(Error::Merge(e)) && !(e is Csv) ==> !((options.github_delimiter as u32) < 256
            && readable(github_data@, (options.github_delimiter as u32) as u8) && merge_ok(
            read_tables(github_data@, (options.github_delimiter as u32) as u8),
            ledger_keys(options),
            options.github_date_column,
        )) || !((options.stripe_delimiter as u32) < 256 && readable(
            stripe_data@,
            (options.stripe_delimiter as u32) as u8,
        ) && merge_ok(
            read_tables(stripe_data@, (options.stripe_delimiter as u32) as u8),
            payment_keys(options),
            options.stripe_date_column,
        )),
        r is Ok <==> accounts_inputs_ok(github_data@, stripe_data@, options),
        r matches Err(e) ==> (e is Merge || accounts_row_error(e, github_data@, stripe_data@, options)),
        r is Ok ==> final(out)@.len() >= old(out)@.len() && final(out)@.take(old(out)@.len() as int)
            == old(out)@ && is_accounts_output(
            final(out)@.skip(old(out)@.len() as int),
            github_data@,
            stripe_data@,
            options,
        ),
{
    let mut gkeys: Vec<String> = Vec::new();
    gkeys.push(options.github_date_column.clone());
    assert(gkeys@ =~= ledger_keys(options));
    let ledger = match merge_inputs(github_data, &gkeys, &options.github_date_column, options.github_delimiter) {
        Ok(m) => m,
        Err(e) => {
            return Err(Error::Merge(e));
        },
    };
    let mut skeys: Vec<String> = Vec::new();
    skeys.push(options.stripe_date_column.clone());
    skeys.push(options.stripe_time_column.clone());
    assert(skeys@ =~= payment_keys(options));
    let stripe = match merge_inputs(stripe_data, &skeys, &options.stripe_date_column, options.stripe_delimiter) {
        Ok(m) => m,
        Err(e) => {
            return Err(Error::Merge(e));
        },
    };
    let gi = ledger.sort_column_index;
    let di = stripe.key_column_indices[0];
    let ti = stripe.key_column_indices[1];
    let width = stripe.header.len();
    let rows = match reconcile_rows(&ledger.rows, gi, &stripe.rows, di, ti, width, &options) {
        Ok(rows) => rows,
        Err(e) => {
            proof {
                let gt = read_tables(github_data@, (options.github_delimiter as u32) as u8);
                let st = read_tables(stripe_data@, (options.stripe_delimiter as u32) as u8);
                let gidx = key_indices(ledger_keys(options), gt[0].0);
                let sidx = key_indices(payment_keys(options), st[0].0);
                let si = column_index(selector_bytes(options.stripe_date_column), st[0].0)->0 as usize;
                assert(sidx[0] == di && sidx[1] == ti);
                let l = ledger.rows.deep_view();
                let s = stripe.rows.deep_view();
                assert(is_sorted_listing(l, latest(all_rows(gt), gidx), gidx, gi));
                assert(is_sorted_listing(s, latest(all_rows(st), sidx), sidx, si));
                assert forall|k: int| 0 <= k < s.len() implies s[k] == stripe.rows@[k].deep_view() by {}
                assert forall|k: int| 0 <= k < l.len() implies l[k] == ledger.rows@[k].deep_view() by {}
                if exists|k: int|
                    0 <= k < stripe.rows@.len() && (forall|j: int|
                        0 <= j < k ==> payment_row_ok(#[trigger] stripe.rows@[j].deep_view(), di, ti))
                        && payment_error_fits(e, stripe.rows@[k].deep_view(), di, ti, k) {
                    let k = choose|k: int|
                        0 <= k < stripe.rows@.len() && (forall|j: int|
                            0 <= j < k ==> payment_row_ok(#[trigger] stripe.rows@[j].deep_view(), di, ti))
                            && payment_error_fits(e, stripe.rows@[k].deep_view(), di, ti, k);
                    assert(forall|j: int| 0 <= j < k ==> payment_row_ok(#[trigger] s[j], sidx[0], sidx[1]) ) by {
                        assert forall|j: int| 0 <= j < k implies payment_row_ok(#[trigger] s[j], sidx[0], sidx[1]) by {
                            assert(payment_row_ok(stripe.rows@[j].deep_view(), di, ti));
                        }
                    }
                    assert(payment_error_fits(e, s[k], sidx[0], sidx[1], k));
                } else {
                    assert forall|j: int| 0 <= j < s.len() implies payment_row_ok(#[trigger] s[j], sidx[0], sidx[1]) by {
                        assert(payment_row_ok(stripe.rows@[j].deep_view(), di, ti));
                    }
                    let k = choose|k: int|
                        0 <= k < ledger.rows@.len() && (forall|j: int|
                            0 <= j < k ==> ledger_row_ok(#[trigger] ledger.rows@[j].deep_view(), gi))
                            && ledger_error_fits(e, ledger.rows@[k].deep_view(), gi, options.github_date_column, k);
                    assert forall|j: int| 0 <= j < k implies ledger_row_ok(#[trigger] l[j], gi) by {
                        assert(ledger_row_ok(ledger.rows@[j].deep_view(), gi));
                    }
                    assert(ledger_error_fits(e, l[k], gi, options.github_date_column, k));
                }
                assert(accounts_row_error(e, github_data@, stripe_data@, options));
                if (forall|k: int| 0 <= k < s.len() ==> payment_row_ok(#[trigger] s[k], sidx[0], sidx[1]))
                    && (forall|k: int| 0 <= k < l.len() ==> ledger_row_ok(#[trigger] l[k], gi)) {
                    assert forall|k: int| 0 <= k < stripe.rows@.len() implies payment_row_ok(
                        #[trigger] stripe.rows@[k].deep_view(),
                        di,
                        ti,
                    ) by {
                        assert(s[k] == stripe.rows@[k].deep_view());
                    }
                    assert forall|k: int| 0 <= k < ledger.rows@.len() implies ledger_row_ok(
                        #[trigger] ledger.rows@[k].deep_view(),
                        gi,
                    ) by {
                        assert(l[k] == ledger.rows@[k].deep_view());
                    }
                }
            }
            return Err(e);
        },
    };
    let mut header = copy_fields(&ledger.header);
    push_field(&mut header, vstd::slice::slice_to_vec("Received Date".as_bytes()));
    push_field(&mut header, vstd::slice::slice_to_vec("Distance [s]".as_bytes()));
    append_fields(&mut header, copy_fields(&stripe.header));
    if options.notes.is_some() {
        push_field(&mut header, vstd::slice::slice_to_vec("Note".as_bytes()));
    }
    let ghost rv = rows.deep_view();
    let mut lines: Vec<Vec<Vec<u8>>> = Vec::new();
    push_row(&mut lines, header);
    let mut k: usize = 0;
    while k < rows.len()
        invariant
            k <= rows@.len(),
            rv == rows.deep_view(),
            lines.deep_view().len() == k + 1,
            lines.deep_view().skip(1) =~= rv.take(k as int),
            lines.deep_view()[0] == output_header(ledger.header.deep_view(), stripe.header.deep_view(), options.notes is Some),
        decreases rows.len() - k,
    {
        let ghost before = lines.deep_view();
        push_row(&mut lines, copy_fields(&rows[k]));
        proof {
            assert(rv[k as int] =~= rows@[k as int].deep_view());
            assert(rv.take(k + 1) =~= rv.take(k as int).push(rv[k as int]));
            assert(lines.deep_view().skip(1) =~= before.skip(1).push(rv[k as int]));
        }
        k = k + 1;
    }
    proof {
        assert(rv.take(k as int) =~= rv);
        let lv = lines.deep_view();
        assert forall|i: int| 0 <= i < lv.len() implies lv[i] == (seq![lv[0]] + rv)[i] by {
            if i > 0 {
                assert(lv[i] == lv.skip(1)[i - 1]);
            }
        }
        let lut = choose|lut: Seq<LookupEntry>|
            is_lookup_of(lut, payment_instants_of(stripe.rows.deep_view(), di, ti)) && rv
                == reconciled_rows(
                ledger.rows.deep_view(),
                gi,
                stripe.rows.deep_view(),
                di,
                ti,
                width as nat,
                lut,
                options,
                marker_pieces(encode_utf8(options.number_markers@)),
            );
        lemma_reconciled_width(
            ledger.rows.deep_view(),
            gi,
            stripe.rows.deep_view(),
            di,
            ti,
            width as nat,
            lut,
            options,
            marker_pieces(encode_utf8(options.number_markers@)),
            ledger.header.deep_view().len() as int,
        );
        let w = output_width(ledger.header.deep_view().len() as int, width as int, options);
        assert(lv[0].len() == w);
        assert forall|i: int| 0 <= i < lines@.len() implies (#[trigger] lines@[i])@.len()
            == lines@[0]@.len() by {
            assert(lines@[i]@.len() == lv[i].len());
            assert(lines@[0]@.len() == lv[0].len());
            if i > 0 {
                assert(lv[i] == rv[i - 1]);
            }
        }
    }
    let text = match write_rows(&lines, 0x2c) {
        Ok(b) => b,
        Err(e) => {
            return Err(Error::Csv(e));
        },
    };
    let ghost before = out@;
    let mut j: usize = 0;
    while j < text.len()
        invariant
            j <= text@.len(),
            out@ == before + text@.take(j as int),
        decreases text.len() - j,
    {
        out.push(text[j]);
        proof {
            assert(text@.take(j + 1) =~= text@.take(j as int).push(text@[j as int]));
        }
        j = j + 1;
    }
    proof {
        assert(text@.take(j as int) =~= text@);
        assert(out@.take(before.len() as int) =~= before);
        assert(out@.skip(before.len() as int) =~= text@);
        assert(rv.take(k as int) =~= rv);
        let lv = lines.deep_view();
        assert forall|i: int| 0 <= i < lv.len() implies lv[i] == (seq![lv[0]] + rv)[i] by {
            if i > 0 {
                assert(lv[i] == lv.skip(1)[i - 1]);
            }
        }
        assert(lv =~= seq![lv[0]] + rv);
        let gt = read_tables(github_data@, (options.github_delimiter as u32) as u8);
        let st = read_tables(stripe_data@, (options.stripe_delimiter as u32) as u8);
        let sidx = key_indices(payment_keys(options), st[0].0);
        assert(sidx[0] == di && sidx[1] == ti);
        let lut = choose|lut: Seq<LookupEntry>|
            is_lookup_of(lut, payment_instants_of(stripe.rows.deep_view(), di, ti)) && rv
                == reconciled_rows(
                ledger.rows.deep_view(),
                gi,
                stripe.rows.deep_view(),
                di,
                ti,
                width as nat,
                lut,
                options,
                marker_pieces(encode_utf8(options.number_markers@)),
            );
        assert(is_sorted_listing(ledger.rows.deep_view(), latest(all_rows(gt), key_indices(ledger_keys(options), gt[0].0)), key_indices(ledger_keys(options), gt[0].0), gi));
        assert(is_accounts_output(out@.skip(before.len() as int), github_data@, stripe_data@, options));
    }
    Ok(())
}

/// Joining the same exports with the same options gives the same output: which ledger
/// rows are paired with which payment rows, and every distance, included.
pub proof fn accounts_output_unique(
    t1: Seq<u8>,
    t2: Seq<u8>,
    github: Seq<Vec<u8>>,
    stripe: Seq<Vec<u8>>,
    options: Options,
)
    requires
        is_accounts_output(t1, github, stripe, options),
        is_accounts_output(t2, github, stripe, options),
    ensures
        t1 == t2,
{
    let gt = read_tables(github, (options.github_delimiter as u32) as u8);
    let st = read_tables(stripe, (options.stripe_delimiter as u32) as u8);
    let gh = gt[0].0;
    let sh = st[0].0;
    let gidx = key_indices(ledger_keys(options), gh);
    let gi = column_index(selector_bytes(options.github_date_column), gh)->0 as usize;
    let sidx = key_indices(payment_keys(options), sh);
    let si = column_index(selector_bytes(options.stripe_date_column), sh)->0 as usize;
    let markers = marker_pieces(encode_utf8(options.number_markers@));
    let (l1, s1, lut1) = choose|l: Seq<Seq<Seq<u8>>>, s: Seq<Seq<Seq<u8>>>, lut: Seq<LookupEntry>|
        {
            &&& is_sorted_listing(l, latest(all_rows(gt), gidx), gidx, gi)
            &&& is_sorted_listing(s, latest(all_rows(st), sidx), sidx, si)
            &&& is_lookup_of(lut, payment_instants_of(s, sidx[0], sidx[1]))
            &&& rows_have_width(l, gh.len() as int)
            &&& rows_have_width(s, sh.len() as int)
            &&& rows_have_width(
                reconciled_rows(l, gi, s, sidx[0], sidx[1], sh.len(), lut, options, markers),
                output_width(gh.len() as int, sh.len() as int, options),
            )
            &&& t1 == csv_text(
                seq![output_header(gh, sh, options.notes is Some)] + reconciled_rows(
                    l,
                    gi,
                    s,
                    sidx[0],
                    sidx[1],
                    sh.len(),
                    lut,
                    options,
                    markers,
                ),
                0x2c,
            )
        };
    let (l2, s2, lut2) = choose|l: Seq<Seq<Seq<u8>>>, s: Seq<Seq<Seq<u8>>>, lut: Seq<LookupEntry>|
        {
            &&& is_sorted_listing(l, latest(all_rows(gt), gidx), gidx, gi)
            &&& is_sorted_listing(s, latest(all_rows(st), sidx), sidx, si)
            &&& is_lookup_of(lut, payment_instants_of(s, sidx[0], sidx[1]))
            &&& rows_have_width(l, gh.len() as int)
            &&& rows_have_width(s, sh.len() as int)
            &&& rows_have_width(
                reconciled_rows(l, gi, s, sidx[0], sidx[1], sh.len(), lut, options, markers),
                output_width(gh.len() as int, sh.len() as int, options),
            )
            &&& t2 == csv_text(
                seq![output_header(gh, sh, options.notes is Some)] + reconciled_rows(
                    l,
                    gi,
                    s,
                    sidx[0],
                    sidx[1],
                    sh.len(),
                    lut,
                    options,
                    markers,
                ),
                0x2c,
            )
        };
    sorted_listing_unique(l1, l2, latest(all_rows(gt), gidx), gidx, gi);
    sorted_listing_unique(s1, s2, latest(all_rows(st), sidx), sidx, si);
    lookup_unique(lut1, lut2, payment_instants_of(s1, sidx[0], sidx[1]));
}

/// In the joined output no payment row is paired with two ledger rows: the output is
/// built from pairings that name pairwise distinct payment rows.
pub proof fn accounts_pairs_at_most_once(
    text: Seq<u8>,
    github: Seq<Vec<u8>>,
    stripe: Seq<Vec<u8>>,
    options: Options,
)
    requires
        is_accounts_output(text, github, stripe, options),
    ensures
        exists|l: Seq<Seq<Seq<u8>>>, s: Seq<Seq<Seq<u8>>>, lut: Seq<LookupEntry>, gi: usize, di: usize, ti: usize|
            {
                let dec = decisions(
                    lut,
                    ledger_instants_of(l, gi),
                    options.max_distance_seconds as int,
                );
                &&& is_lookup_of(lut, payment_instants_of(s, di, ti))
                &&& text == csv_text(
                    seq![output_header(read_tables(github, (options.github_delimiter as u32) as u8)[0].0, read_tables(stripe, (options.stripe_delimiter as u32) as u8)[0].0, options.notes is Some)]
                        + #[trigger] reconciled_rows(
                        l,
                        gi,
                        s,
                        di,
                        ti,
                        read_tables(stripe, (options.stripe_delimiter as u32) as u8)[0].0.len(),
                        lut,
                        options,
                        marker_pieces(encode_utf8(options.number_markers@)),
                    ),
                    0x2c,
                )
                &&& forall|a: int, b: int|
                    0 <= a < b < l.len() && (#[trigger] dec[a]) is Some && (#[trigger] dec[b]) is Some
                        ==> paired_row(dec[a]) != paired_row(dec[b])
            },
{
    let gt = read_tables(github, (options.github_delimiter as u32) as u8);
    let st = read_tables(stripe, (options.stripe_delimiter as u32) as u8);
    let gh = gt[0].0;
    let sh = st[0].0;
    let gidx = key_indices(ledger_keys(options), gh);
    let gi = column_index(selector_bytes(options.github_date_column), gh)->0 as usize;
    let sidx = key_indices(payment_keys(options), sh);
    let si = column_index(selector_bytes(options.stripe_date_column), sh)->0 as usize;
    let markers = marker_pieces(encode_utf8(options.number_markers@));
    let (l, s, lut) = choose|l: Seq<Seq<Seq<u8>>>, s: Seq<Seq<Seq<u8>>>, lut: Seq<LookupEntry>|
        {
            &&& is_sorted_listing(l, latest(all_rows(gt), gidx), gidx, gi)
            &&& is_sorted_listing(s, latest(all_rows(st), sidx), sidx, si)
            &&& is_lookup_of(lut, payment_instants_of(s, sidx[0], sidx[1]))
            &&& rows_have_width(l, gh.len() as int)
            &&& rows_have_width(s, sh.len() as int)
            &&& rows_have_width(
                reconciled_rows(l, gi, s, sidx[0], sidx[1], sh.len(), lut, options, markers),
                output_width(gh.len() as int, sh.len() as int, options),
            )
            &&& text == csv_text(
                seq![output_header(gh, sh, options.notes is Some)] + reconciled_rows(
                    l,
                    gi,
                    s,
                    sidx[0],
                    sidx[1],
                    sh.len(),
                    lut,
                    options,
                    markers,
                ),
                0x2c,
            )
        };
    let ts = ledger_instants_of(l, gi);
    lemma_lookup_properties(lut, payment_instants_of(s, sidx[0], sidx[1]));
    reconcile_pairs_at_most_once(lut, ts, options.max_distance_seconds as int);
    assert(is_lookup_of(lut, payment_instants_of(s, sidx[0], sidx[1])));
}

} // verus!
