//! Merging overlapping exports of one table into a single key-unique, sorted table.
use vstd::prelude::*;
use crate::bytes::{
    bytes_lt, compare_bytes, bytes_equal, lemma_bytes_lt_irreflexive, lemma_bytes_lt_transitive,
    lemma_bytes_lt_total,
};
use csv::Error as CsvError;
use crate::column::{column_index, header_idx};
use crate::csv_io::{csv_read, csv_text, read_table, write_rows};
use crate::record::{copy_fields, table_rows, tables_view, Table, TableView};

verus! {

/// Which configured column could not be found.
#[derive(Clone, Copy, Debug, PartialEq, Eq)]
pub enum ColumnRole {
    Key,
    Sort,
}

/// Why a merge failed.
#[derive(Debug)]
pub enum Error {
    /// No table was given.
    NoInput,
    /// The delimiter does not fit in one byte.
    InvalidDelimiter(char),
    /// The CSV data could not be read or written.
    Csv(CsvError),
    /// A key or sort column selector names no column of the first header.
    MissingColumn { name: String, role: ColumnRole },
    /// A later table's header differs from the first one's.
    SchemaChange { previous: Vec<Vec<u8>>, current: Vec<Vec<u8>> },
    /// A row lacks a field at one of the key columns.
    ColumnMissingInRow { line: u64, key_column_index: usize },
}

/// What a merge reports besides its output.
pub struct Outcome {
    /// The column indices of all provided keys.
    pub key_column_indices: Vec<usize>,
    /// The index of the sort column as determined by input index or name.
    pub sort_column_index: usize,
    /// The delimiter that was used to write the output with.
    pub delimiter: u8,
}

/// How to read the tables of a merge.
#[derive(Clone, Debug)]
pub struct Options {
    pub sort_column: String,
    pub delimiter: char,
}

/// The merged table: the first input's header and the surviving rows in output order.
pub struct Merged {
    pub header: Vec<Vec<u8>>,
    pub rows: Vec<Vec<Vec<u8>>>,
    pub key_column_indices: Vec<usize>,
    pub sort_column_index: usize,
}

/// The bytes of a column selector.
pub open spec fn selector_bytes(s: String) -> Seq<u8> {
    vstd::utf8::encode_utf8(s@)
}

/// Every key selector resolves against `header`.
pub open spec fn keys_resolve(keys: Seq<String>, header: Seq<Seq<u8>>) -> bool {
    forall|i: int| 0 <= i < keys.len() ==> column_index(selector_bytes(#[trigger] keys[i]), header) is Some
}

/// The resolved key columns.
pub open spec fn key_indices(keys: Seq<String>, header: Seq<Seq<u8>>) -> Seq<usize> {
    Seq::new(keys.len(), |i: int| column_index(selector_bytes(keys[i]), header)->0 as usize)
}

/// Table `t` has `header` and each of its rows has a field at each index of `idx`.
pub open spec fn table_ok(t: TableView, header: Seq<Seq<u8>>, idx: Seq<usize>) -> bool {
    &&& t.0 == header
    &&& forall|r: int| 0 <= r < t.1.len() ==> has_fields(#[trigger] table_rows(t)[r], idx)
}

pub open spec fn tables_ok(tables: Seq<TableView>, header: Seq<Seq<u8>>, idx: Seq<usize>) -> bool {
    forall|t: int| 0 <= t < tables.len() ==> table_ok(#[trigger] tables[t], header, idx)
}

/// The key of a row: the concatenation of its fields at `idx`, in order.
pub open spec fn key_of(fields: Seq<Seq<u8>>, idx: Seq<usize>) -> Seq<u8>
    decreases idx.len(),
{
    if idx.len() == 0 {
        Seq::empty()
    } else {
        key_of(fields, idx.drop_last()) + fields[idx.last() as int]
    }
}

/// A row has a field at each index of `idx`.
pub open spec fn has_fields(fields: Seq<Seq<u8>>, idx: Seq<usize>) -> bool {
    forall|i: int| 0 <= i < idx.len() ==> idx[i] < fields.len()
}

/// The value a row is sorted by; a row without that field sorts first.
pub open spec fn sort_value(fields: Seq<Seq<u8>>, si: usize) -> Option<Seq<u8>> {
    if si < fields.len() {
        Some(fields[si as int])
    } else {
        None
    }
}

pub open spec fn option_lt(a: Option<Seq<u8>>, b: Option<Seq<u8>>) -> bool {
    match (a, b) {
        (None, Some(_)) => true,
        (Some(x), Some(y)) => bytes_lt(x, y),
        _ => false,
    }
}

/// The output order: by sort value, then by key.
pub open spec fn row_before(a: Seq<Seq<u8>>, b: Seq<Seq<u8>>, idx: Seq<usize>, si: usize) -> bool {
    option_lt(sort_value(a, si), sort_value(b, si)) || (sort_value(a, si) == sort_value(b, si)
        && bytes_lt(key_of(a, idx), key_of(b, idx)))
}

/// The surviving row of each key after reading `rows` in order: a later row with a key
/// replaces an earlier one.
pub open spec fn latest(rows: Seq<Seq<Seq<u8>>>, idx: Seq<usize>) -> Map<Seq<u8>, Seq<Seq<u8>>>
    decreases rows.len(),
{
    if rows.len() == 0 {
        Map::empty()
    } else {
        latest(rows.drop_last(), idx).insert(key_of(rows.last(), idx), rows.last())
    }
}

/// The rows of all tables, table after table.
pub open spec fn all_rows(tables: Seq<TableView>) -> Seq<Seq<Seq<u8>>>
    decreases tables.len(),
{
    if tables.len() == 0 {
        Seq::empty()
    } else {
        all_rows(tables.drop_last()) + table_rows(tables.last())
    }
}

/// `out` lists the rows of `m`, each once, strictly ordered by `row_before`.
pub open spec fn is_sorted_listing(
    out: Seq<Seq<Seq<u8>>>,
    m: Map<Seq<u8>, Seq<Seq<u8>>>,
    idx: Seq<usize>,
    si: usize,
) -> bool {
    &&& forall|i: int, j: int| 0 <= i < j < out.len() ==> row_before(out[i], out[j], idx, si)
    &&& forall|i: int|
        0 <= i < out.len() ==> m.contains_key(key_of(#[trigger] out[i], idx)) && m[key_of(
            out[i],
            idx,
        )] == out[i]
    &&& forall|k: Seq<u8>|
        m.contains_key(k) ==> exists|i: int| 0 <= i < out.len() && key_of(out[i], idx) == k
}

pub proof fn lemma_row_before_irreflexive(a: Seq<Seq<u8>>, idx: Seq<usize>, si: usize)
    ensures
        !row_before(a, a, idx, si),
{
    lemma_bytes_lt_irreflexive(key_of(a, idx));
    if si < a.len() {
        lemma_bytes_lt_irreflexive(a[si as int]);
    }
}

pub proof fn lemma_row_before_transitive(
    a: Seq<Seq<u8>>,
    b: Seq<Seq<u8>>,
    c: Seq<Seq<u8>>,
    idx: Seq<usize>,
    si: usize,
)
    requires
        row_before(a, b, idx, si),
        row_before(b, c, idx, si),
    ensures
        row_before(a, c, idx, si),
{
    let (x, y, z) = (sort_value(a, si), sort_value(b, si), sort_value(c, si));
    if x == y && y == z {
        if x is Some {
            lemma_bytes_lt_irreflexive(x->0);
        }
        lemma_bytes_lt_transitive(key_of(a, idx), key_of(b, idx), key_of(c, idx));
    } else if x is Some && y is Some && z is Some {
        if x != y && y != z {
            lemma_bytes_lt_transitive(x->0, y->0, z->0);
        }
    }
}

pub proof fn lemma_row_before_total(a: Seq<Seq<u8>>, b: Seq<Seq<u8>>, idx: Seq<usize>, si: usize)
    requires
        key_of(a, idx) != key_of(b, idx),
    ensures
        row_before(a, b, idx, si) || row_before(b, a, idx, si),
{
    lemma_bytes_lt_total(key_of(a, idx), key_of(b, idx));
    if sort_value(a, si) is Some && sort_value(b, si) is Some {
        lemma_bytes_lt_total(a[si as int], b[si as int]);
    }
}

proof fn lemma_listing_keys_distinct(
    l: Seq<Seq<Seq<u8>>>,
    m: Map<Seq<u8>, Seq<Seq<u8>>>,
    idx: Seq<usize>,
    si: usize,
    i: int,
    j: int,
)
    requires
        is_sorted_listing(l, m, idx, si),
        0 <= i < l.len(),
        0 <= j < l.len(),
        i != j,
    ensures
        key_of(l[i], idx) != key_of(l[j], idx),
{
    if key_of(l[i], idx) == key_of(l[j], idx) {
        lemma_row_before_irreflexive(l[i], idx, si);
        if i < j {
            assert(row_before(l[i], l[j], idx, si));
        } else {
            assert(row_before(l[j], l[i], idx, si));
        }
    }
}

proof fn lemma_listing_remove(
    l: Seq<Seq<Seq<u8>>>,
    m: Map<Seq<u8>, Seq<Seq<u8>>>,
    idx: Seq<usize>,
    si: usize,
    j: int,
)
    requires
        is_sorted_listing(l, m, idx, si),
        0 <= j < l.len(),
    ensures
        is_sorted_listing(l.remove(j), m.remove(key_of(l[j], idx)), idx, si),
{
    let k = key_of(l[j], idx);
    let l2 = l.remove(j);
    let m2 = m.remove(k);
    assert forall|a: int, b: int| 0 <= a < b < l2.len() implies row_before(
        l2[a],
        l2[b],
        idx,
        si,
    ) by {
        let a0 = if a < j { a } else { a + 1 };
        let b0 = if b < j { b } else { b + 1 };
        assert(l2[a] == l[a0] && l2[b] == l[b0]);
    }
    assert forall|i: int| 0 <= i < l2.len() implies m2.contains_key(key_of(#[trigger] l2[i], idx))
        && m2[key_of(l2[i], idx)] == l2[i] by {
        let i0 = if i < j { i } else { i + 1 };
        assert(l2[i] == l[i0]);
        lemma_listing_keys_distinct(l, m, idx, si, i0, j);
    }
    assert forall|k2: Seq<u8>| m2.contains_key(k2) implies exists|i: int|
        0 <= i < l2.len() && key_of(l2[i], idx) == k2 by {
        let i0 = choose|i: int| 0 <= i < l.len() && key_of(l[i], idx) == k2;
        let i = if i0 < j { i0 } else { i0 - 1 };
        assert(i0 != j);
        assert(l2[i] == l[i0]);
    }
}

proof fn lemma_listing_absent(
    l: Seq<Seq<Seq<u8>>>,
    m: Map<Seq<u8>, Seq<Seq<u8>>>,
    idx: Seq<usize>,
    si: usize,
    k: Seq<u8>,
)
    requires
        is_sorted_listing(l, m, idx, si),
        forall|i: int| 0 <= i < l.len() ==> key_of(l[i], idx) != k,
    ensures
        m.remove(k) == m,
{
    assert(!m.contains_key(k));
    assert(m.remove(k) =~= m);
}

proof fn lemma_listing_insert(
    l: Seq<Seq<Seq<u8>>>,
    m: Map<Seq<u8>, Seq<Seq<u8>>>,
    idx: Seq<usize>,
    si: usize,
    x: Seq<Seq<u8>>,
    p: int,
)
    requires
        is_sorted_listing(l, m, idx, si),
        !m.contains_key(key_of(x, idx)),
        0 <= p <= l.len(),
        forall|j: int| 0 <= j < p ==> !row_before(x, l[j], idx, si),
        p < l.len() ==> row_before(x, l[p], idx, si),
    ensures
        is_sorted_listing(l.insert(p, x), m.insert(key_of(x, idx), x), idx, si),
{
    let k = key_of(x, idx);
    let l2 = l.insert(p, x);
    let m2 = m.insert(k, x);
    assert forall|j: int| 0 <= j < l.len() implies key_of(l[j], idx) != k by {}
    assert forall|a: int, b: int| 0 <= a < b < l2.len() implies row_before(
        l2[a],
        l2[b],
        idx,
        si,
    ) by {
        if a < p && b == p {
            lemma_row_before_total(l[a], x, idx, si);
        } else if a < p && b > p {
            lemma_row_before_total(l[a], x, idx, si);
            assert(l2[b] == l[b - 1]);
        } else if a == p {
            assert(l2[b] == l[b - 1]);
            if b - 1 > p {
                lemma_row_before_transitive(x, l[p], l[b - 1], idx, si);
            }
        } else {
            let a0 = if a < p { a } else { a - 1 };
            let b0 = if b < p { b } else { b - 1 };
            assert(l2[a] == l[a0] && l2[b] == l[b0]);
        }
    }
    assert forall|i: int| 0 <= i < l2.len() implies m2.contains_key(key_of(#[trigger] l2[i], idx))
        && m2[key_of(l2[i], idx)] == l2[i] by {
        if i != p {
            let i0 = if i < p { i } else { i - 1 };
            assert(l2[i] == l[i0]);
        }
    }
    assert forall|k2: Seq<u8>| m2.contains_key(k2) implies exists|i: int|
        0 <= i < l2.len() && key_of(l2[i], idx) == k2 by {
        if k2 == k {
            assert(l2[p] == x);
        } else {
            let i0 = choose|i: int| 0 <= i < l.len() && key_of(l[i], idx) == k2;
            let i = if i0 < p { i0 } else { i0 + 1 };
            assert(l2[i] == l[i0]);
        }
    }
}

/// A row together with its key.
struct KeyedRow {
    key: Vec<u8>,
    fields: Vec<Vec<u8>>,
}

spec fn rows_view(e: Seq<KeyedRow>) -> Seq<Seq<Seq<u8>>> {
    e.map_values(|r: KeyedRow| r.fields.deep_view())
}

spec fn keys_match(e: Seq<KeyedRow>, idx: Seq<usize>) -> bool {
    forall|i: int| 0 <= i < e.len() ==> (#[trigger] e[i]).key@ == key_of(e[i].fields.deep_view(), idx)
}

/// Put `fields` (with key `key`) in its place in `entries`, replacing the row with the
/// same key if there is one.
fn upsert(
    entries: &mut Vec<KeyedRow>,
    key: Vec<u8>,
    fields: Vec<Vec<u8>>,
    Ghost(idx): Ghost<Seq<usize>>,
    si: usize,
    Ghost(m): Ghost<Map<Seq<u8>, Seq<Seq<u8>>>>,
)
    requires
        keys_match(old(entries)@, idx),
        is_sorted_listing(rows_view(old(entries)@), m, idx, si),
        key@ == key_of(fields.deep_view(), idx),
    ensures
        keys_match(final(entries)@, idx),
        is_sorted_listing(
            rows_view(final(entries)@),
            m.insert(key@, fields.deep_view()),
            idx,
            si,
        ),
{
    let ghost x = fields.deep_view();
    let mut j: usize = 0;
    let mut found = false;
    while j < entries.len() && !found
        invariant
            j <= entries@.len(),
            forall|i: int| 0 <= i < j ==> (#[trigger] entries@[i]).key@ != key@,
            found ==> j < entries@.len() && entries@[j as int].key@ == key@,
        decreases entries.len() - j + if found { 0int } else { 1 },
    {
        if bytes_equal(entries[j].key.as_slice(), key.as_slice()) {
            found = true;
        } else {
            j = j + 1;
        }
    }
    let ghost m1 = m.remove(key@);
    if found {
        proof {
            assert(rows_view(entries@).remove(j as int) =~= rows_view(entries@.remove(j as int)));
            lemma_listing_remove(rows_view(entries@), m, idx, si, j as int);
        }
        entries.remove(j);
    } else {
        proof {
            assert forall|i: int| 0 <= i < entries@.len() implies key_of(
                rows_view(entries@)[i],
                idx,
            ) != key@ by {
                assert(entries@[i].key@ != key@);
            }
            lemma_listing_absent(rows_view(entries@), m, idx, si, key@);
        }
    }
    assert(is_sorted_listing(rows_view(entries@), m1, idx, si));
    assert(keys_match(entries@, idx));
    let mut p: usize = 0;
    let mut placed = false;
    while p < entries.len() && !placed
        invariant
            p <= entries@.len(),
            placed ==> p < entries@.len() && row_before(x, rows_view(entries@)[p as int], idx, si),
            keys_match(entries@, idx),
            key@ == key_of(x, idx),
            x == fields.deep_view(),
            forall|i: int| 0 <= i < p ==> !row_before(x, rows_view(entries@)[i], idx, si),
        decreases entries.len() - p + if placed { 0int } else { 1 },
    {
        if precedes(&fields, &key, &entries[p].fields, &entries[p].key, si) {
            placed = true;
        } else {
            p = p + 1;
        }
    }
    proof {
        assert(!m1.contains_key(key@));
        lemma_listing_insert(rows_view(entries@), m1, idx, si, x, p as int);
        assert(m1.insert(key@, x) =~= m.insert(key@, x));
    }
    let ghost before = entries@;
    entries.insert(p, KeyedRow { key, fields });
    proof {
        assert(rows_view(entries@) =~= rows_view(before).insert(p as int, x));
    }
}

/// Whether `a` (with key `a_key`) comes before `b` (with key `b_key`) in the output.
fn precedes(a: &Vec<Vec<u8>>, a_key: &Vec<u8>, b: &Vec<Vec<u8>>, b_key: &Vec<u8>, si: usize) -> (r:
    bool)
    ensures
        forall|idx: Seq<usize>|
            a_key@ == key_of(a.deep_view(), idx) && b_key@ == key_of(b.deep_view(), idx) ==> r
                == row_before(a.deep_view(), b.deep_view(), idx, si),
{
    proof {
        if si < a@.len() {
            assert(a.deep_view()[si as int] =~= a@[si as int]@);
        }
        if si < b@.len() {
            assert(b.deep_view()[si as int] =~= b@[si as int]@);
        }
    }
    let c: i8 = if si < a.len() && si < b.len() {
        compare_bytes(a[si].as_slice(), b[si].as_slice())
    } else if si < b.len() {
        -1
    } else if si < a.len() {
        1
    } else {
        0
    };
    if c < 0 {
        true
    } else if c > 0 {
        proof {
            if si < a@.len() && si < b@.len() {
                crate::bytes::lemma_bytes_lt_asymmetric(b@[si as int]@, a@[si as int]@);
            }
        }
        false
    } else {
        compare_bytes(a_key.as_slice(), b_key.as_slice()) < 0
    }
}

} // verus!

verus! {

/// The key of `fields` at `idx`, or the first index of `idx` at which `fields` has no field.
fn row_key(fields: &Vec<Vec<u8>>, idx: &Vec<usize>) -> (r: Result<Vec<u8>, usize>)
    ensures
        r matches Ok(k) ==> has_fields(fields.deep_view(), idx@) && k@ == key_of(
            fields.deep_view(),
            idx@,
        ),
        r matches Err(i) ==> !has_fields(fields.deep_view(), idx@) && idx@.contains(i) && i
            >= fields@.len(),
{
    let mut key: Vec<u8> = Vec::new();
    let mut j: usize = 0;
    while j < idx.len()
        invariant
            j <= idx@.len(),
            has_fields(fields.deep_view(), idx@.take(j as int)),
            key@ == key_of(fields.deep_view(), idx@.take(j as int)),
        decreases idx.len() - j,
    {
        let c = idx[j];
        if c >= fields.len() {
            assert(idx@[j as int] == c);
            return Err(c);
        }
        key.extend_from_slice(fields[c].as_slice());
        proof {
            assert(idx@.take(j + 1).drop_last() =~= idx@.take(j as int));
            assert(fields.deep_view()[c as int] =~= fields@[c as int]@);
        }
        j = j + 1;
    }
    assert(idx@.take(j as int) =~= idx@);
    Ok(key)
}

/// Resolve every key selector, or give the position of the first that does not resolve.
fn resolve_keys(keys: &Vec<String>, header: &Vec<Vec<u8>>) -> (r: Result<Vec<usize>, usize>)
    ensures
        r matches Ok(v) ==> keys_resolve(keys@, header.deep_view()) && v@ == key_indices(
            keys@,
            header.deep_view(),
        ),
        r matches Err(i) ==> i < keys@.len() && column_index(
            selector_bytes(keys@[i as int]),
            header.deep_view(),
        ) is None && forall|j: int|
            0 <= j < i ==> column_index(selector_bytes(#[trigger] keys@[j]), header.deep_view()) is Some,
{
    let mut out: Vec<usize> = Vec::new();
    let mut i: usize = 0;
    while i < keys.len()
        invariant
            i <= keys@.len(),
            out@.len() == i,
            forall|j: int|
                0 <= j < i ==> column_index(selector_bytes(#[trigger] keys@[j]), header.deep_view())
                    is Some,
            forall|j: int|
                0 <= j < i ==> out@[j] == column_index(selector_bytes(keys@[j]), header.deep_view())->0 as usize,
        decreases keys.len() - i,
    {
        match header_idx(keys[i].as_str(), header) {
            Some(c) => {
                out.push(c);
            },
            None => {
                return Err(i);
            },
        }
        i = i + 1;
    }
    assert(out@ =~= key_indices(keys@, header.deep_view()));
    Ok(out)
}

proof fn lemma_all_rows_step(tables: Seq<TableView>, t: int)
    requires
        0 <= t < tables.len(),
    ensures
        all_rows(tables.take(t + 1)) == all_rows(tables.take(t)) + table_rows(tables[t]),
{
    assert(tables.take(t + 1).drop_last() =~= tables.take(t));
}

proof fn lemma_latest_step(rows: Seq<Seq<Seq<u8>>>, x: Seq<Seq<u8>>, idx: Seq<usize>)
    ensures
        latest(rows.push(x), idx) == latest(rows, idx).insert(key_of(x, idx), x),
{
    assert(rows.push(x).drop_last() =~= rows);
}
/// What a merge error of `tables` says: the first key selector that does not resolve,
/// else the sort selector; the first later header that differs, with both headers; a
/// row (with its line) that lacks a key field. Earlier tables are free of errors.
pub open spec fn merge_error_fits(
    e: Error,
    tables: Seq<TableView>,
    keys: Seq<String>,
    sort_column: String,
) -> bool {
    let h = tables[0].0;
    let idx = key_indices(keys, h);
    let resolved = keys_resolve(keys, h) && column_index(selector_bytes(sort_column), h) is Some;
    match e {
        Error::MissingColumn { name, role } => tables.len() > 0 && match role {
            ColumnRole::Key => exists|i: int|
                0 <= i < keys.len() && name@ == keys[i]@ && column_index(
                    selector_bytes(keys[i]),
                    h,
                ) is None && forall|j: int|
                    0 <= j < i ==> column_index(selector_bytes(#[trigger] keys[j]), h) is Some,
            ColumnRole::Sort => name@ == sort_column@ && keys_resolve(keys, h) && column_index(
                selector_bytes(sort_column),
                h,
            ) is None,
        },
        Error::SchemaChange { previous, current } => resolved && exists|t: int|
            0 < t < tables.len() && tables_ok(tables.take(t), h, idx) && tables[t].0 != h
                && previous.deep_view() == h && current.deep_view() == tables[t].0,
        Error::ColumnMissingInRow { line, key_column_index } => resolved && exists|t: int, i: int|
            0 <= t < tables.len() && 0 <= i < tables[t].1.len() && tables_ok(tables.take(t), h, idx)
                && tables[t].0 == h && tables[t].1[i].0 == line && idx.contains(key_column_index)
                && key_column_index >= tables[t].1[i].1.len(),
        _ => true,
    }
}

/// Every row of every table has as many fields as its table's header.
pub open spec fn tables_fit(tables: Seq<TableView>) -> bool {
    forall|t: int, i: int|
        0 <= t < tables.len() && 0 <= i < tables[t].1.len() ==> (#[trigger] tables[t].1[i]).1.len()
            == tables[t].0.len()
}

/// Every row has `w` fields.
pub open spec fn rows_have_width(rows: Seq<Seq<Seq<u8>>>, w: int) -> bool {
    forall|i: int| 0 <= i < rows.len() ==> (#[trigger] rows[i]).len() == w
}

proof fn lemma_all_rows_width(tables: Seq<TableView>, w: int)
    requires
        tables_fit(tables),
        forall|t: int| 0 <= t < tables.len() ==> (#[trigger] tables[t]).0.len() == w,
    ensures
        rows_have_width(all_rows(tables), w),
    decreases tables.len(),
{
    if tables.len() > 0 {
        let p = tables.drop_last();
        assert(tables_fit(p)) by {
            assert forall|t: int, i: int| 0 <= t < p.len() && 0 <= i < p[t].1.len() implies (
            #[trigger] p[t].1[i]).1.len() == p[t].0.len() by {
                assert(p[t] == tables[t]);
            }
        }
        lemma_all_rows_width(p, w);
        let last = tables.last();
        assert(last == tables[tables.len() - 1]);
        let r = all_rows(tables);
        assert forall|i: int| 0 <= i < r.len() implies (#[trigger] r[i]).len() == w by {
            if i >= all_rows(p).len() {
                let k = i - all_rows(p).len();
                assert(r[i] == table_rows(last)[k]);
                assert(table_rows(last)[k] == last.1[k].1);
            }
        }
    }
}

proof fn lemma_latest_width(rows: Seq<Seq<Seq<u8>>>, idx: Seq<usize>, w: int)
    requires
        rows_have_width(rows, w),
    ensures
        forall|k: Seq<u8>| #[trigger] latest(rows, idx).contains_key(k) ==> latest(rows, idx)[k].len() == w,
    decreases rows.len(),
{
    if rows.len() > 0 {
        let p = rows.drop_last();
        assert forall|i: int| 0 <= i < p.len() implies (#[trigger] p[i]).len() == w by {
            assert(p[i] == rows[i]);
        }
        lemma_latest_width(p, idx, w);
        assert(rows.last() == rows[rows.len() - 1]);
        assert forall|k: Seq<u8>| #[trigger] latest(rows, idx).contains_key(k) implies latest(
            rows,
            idx,
        )[k].len() == w by {
            if k != key_of(rows.last(), idx) {
                assert(latest(p, idx).contains_key(k));
            }
        }
    }
}

/// The rows of a sorted listing of readable tables' merge have the header's width.
proof fn lemma_listing_width(
    tables: Seq<TableView>,
    out: Seq<Seq<Seq<u8>>>,
    keys: Seq<String>,
    sort_column: String,
)
    requires
        tables_fit(tables),
        merge_ok(tables, keys, sort_column),
        is_sorted_listing(
            out,
            latest(all_rows(tables), key_indices(keys, tables[0].0)),
            key_indices(keys, tables[0].0),
            column_index(selector_bytes(sort_column), tables[0].0)->0 as usize,
        ),
    ensures
        rows_have_width(out, tables[0].0.len() as int),
{
    let h = tables[0].0;
    let idx = key_indices(keys, h);
    assert forall|t: int| 0 <= t < tables.len() implies (#[trigger] tables[t]).0.len() == h.len() by {
        assert(table_ok(tables[t], h, idx));
    }
    lemma_all_rows_width(tables, h.len() as int);
    lemma_latest_width(all_rows(tables), idx, h.len() as int);
    let m = latest(all_rows(tables), idx);
    assert forall|i: int| 0 <= i < out.len() implies (#[trigger] out[i]).len() == h.len() by {
        assert(m.contains_key(key_of(out[i], idx)));
    }
}

/// Merge tables of one shape into one: rows with equal keys collapse into the one read
/// last, and the survivors are ordered by the sort column's bytes, then by key.
pub fn merge_tables(tables: &Vec<Table>, key_columns: &Vec<String>, sort_column: &String) -> (r:
    Result<Merged, Error>)
    ensures
        tables@.len() == 0 <==> r matches Err(Error::NoInput),
        !(r matches Err(Error::InvalidDelimiter(_))),
        !(r matches Err(Error::Csv(_))),
        tables@.len() > 0 ==> (r matches Err(Error::MissingColumn { .. }) <==> !(keys_resolve(
            key_columns@,
            tables_view(tables@)[0].0,
        ) && column_index(selector_bytes(*sort_column), tables_view(tables@)[0].0) is Some)),
        r matches Err(e) ==> merge_error_fits(e, tables_view(tables@), key_columns@, *sort_column),
        r is Ok <==> tables@.len() > 0 && keys_resolve(key_columns@, tables_view(tables@)[0].0)
            && column_index(selector_bytes(*sort_column), tables_view(tables@)[0].0) is Some
            && tables_ok(
            tables_view(tables@),
            tables_view(tables@)[0].0,
            key_indices(key_columns@, tables_view(tables@)[0].0),
        ),
        r matches Ok(m) ==> {
            let h = tables_view(tables@)[0].0;
            let idx = key_indices(key_columns@, h);
            let si = column_index(selector_bytes(*sort_column), h)->0 as usize;
            &&& m.header.deep_view() == h
            &&& m.key_column_indices@ == idx
            &&& m.sort_column_index == si
            &&& column_index(selector_bytes(*sort_column), h) == Some(m.sort_column_index as int)
            &&& is_sorted_listing(m.rows.deep_view(), latest(all_rows(tables_view(tables@)), idx), idx, si)
        },
{
    if tables.len() == 0 {
        return Err(Error::NoInput);
    }
    let header = &tables[0].header;
    let ghost tv = tables_view(tables@);
    let ghost h = header.deep_view();
    assert(tv[0] == tables@[0]@);
    let idx = match resolve_keys(key_columns, header) {
        Ok(v) => v,
        Err(i) => {
            return Err(Error::MissingColumn { name: key_columns[i].clone(), role: ColumnRole::Key });
        },
    };
    let si = match header_idx(sort_column.as_str(), header) {
        Some(c) => c,
        None => {
            return Err(Error::MissingColumn { name: sort_column.clone(), role: ColumnRole::Sort });
        },
    };
    let mut entries: Vec<KeyedRow> = Vec::new();
    let mut t: usize = 0;
    proof {
        assert(rows_view(entries@) =~= Seq::empty());
        assert(all_rows(tv.take(0)) =~= Seq::empty());
    }
    while t < tables.len()
        invariant
            0 < tables@.len(),
            t <= tables@.len(),
            h == tv[0].0,
                tv == tables_view(tables@),
            h == header.deep_view(),
            idx@ == key_indices(key_columns@, h),
            keys_resolve(key_columns@, h),
            column_index(selector_bytes(*sort_column), h) == Some(si as int),
            tables_ok(tv.take(t as int), h, idx@),
            keys_match(entries@, idx@),
            is_sorted_listing(rows_view(entries@), latest(all_rows(tv.take(t as int)), idx@), idx@, si),
        decreases tables.len() - t,
    {
        let table = &tables[t];
        if !crate::record::fields_equal(&table.header, header) {
            proof {
                assert(tv[t as int] == table@);
                assert(!table_ok(tv[t as int], h, idx@));
            }
            return Err(Error::SchemaChange { previous: copy_fields(header), current: copy_fields(&table.header) });
        }
        let ghost done = all_rows(tv.take(t as int));
        let mut i: usize = 0;
        while i < table.records.len()
            invariant
                0 < tables@.len(),
                t < tables@.len(),
                *table == tables@[t as int],
                tv[t as int] == table@,
                i <= table.records@.len(),
                h == tv[0].0,
                tv == tables_view(tables@),
                h == header.deep_view(),
                table@.0 == h,
                idx@ == key_indices(key_columns@, h),
                keys_resolve(key_columns@, h),
                column_index(selector_bytes(*sort_column), h) == Some(si as int),
                tables_ok(tv.take(t as int), h, idx@),
                done == all_rows(tv.take(t as int)),
                forall|j: int| 0 <= j < i ==> has_fields(#[trigger] table_rows(table@)[j], idx@),
                keys_match(entries@, idx@),
                is_sorted_listing(
                    rows_view(entries@),
                    latest(done + table_rows(table@).take(i as int), idx@),
                    idx@,
                    si,
                ),
            decreases table.records.len() - i,
        {
            let record = &table.records[i];
            let key = match row_key(&record.fields, &idx) {
                Ok(k) => k,
                Err(c) => {
                    proof {
                        assert(table_rows(table@)[i as int] == record.fields.deep_view());
                        assert(!table_ok(tv[t as int], h, idx@));
                        assert(!tables_ok(tv, h, idx@));
                    }
                    return Err(Error::ColumnMissingInRow { line: record.line, key_column_index: c });
                },
            };
            let fields = copy_fields(&record.fields);
            proof {
                assert(table_rows(table@)[i as int] == fields.deep_view());
                assert(table_rows(table@).take(i + 1) =~= table_rows(table@).take(i as int).push(fields.deep_view()));
                assert(done + table_rows(table@).take(i + 1) =~= (done + table_rows(table@).take(i as int)).push(fields.deep_view()));
                lemma_latest_step(done + table_rows(table@).take(i as int), fields.deep_view(), idx@);
            }
            upsert(&mut entries, key, fields, Ghost(idx@), si, Ghost(latest(done + table_rows(table@).take(i as int), idx@)));
            i = i + 1;
        }
        proof {
            lemma_all_rows_step(tv, t as int);
            assert(table_rows(table@).take(i as int) =~= table_rows(table@));
            assert(table_ok(tv[t as int], h, idx@));
            assert(tv.take(t + 1) =~= tv.take(t as int).push(tv[t as int]));
            assert(tables_ok(tv.take(t + 1), h, idx@));
        }
        t = t + 1;
    }
    proof {
        assert(tv.take(t as int) =~= tv);
    }
    let mut rows: Vec<Vec<Vec<u8>>> = Vec::new();
    let ghost listed = rows_view(entries@);
    while entries.len() > 0
        invariant
            rows.deep_view() + rows_view(entries@) == listed,
        decreases entries.len(),
    {
        let e = entries.remove(0);
        let ghost before = rows.deep_view();
        rows.push(e.fields);
        proof {
            assert(rows.deep_view() =~= before.push(e.fields.deep_view()));
            assert(rows.deep_view() + rows_view(entries@) =~= listed);
        }
    }
    assert(rows.deep_view() =~= listed);
    Ok(Merged { header: copy_fields(header), rows, key_column_indices: idx, sort_column_index: si })
}

/// The merge of `tables` succeeds.
pub open spec fn merge_ok(tables: Seq<TableView>, keys: Seq<String>, sort_column: String) -> bool {
    &&& tables.len() > 0
    &&& keys_resolve(keys, tables[0].0)
    &&& column_index(selector_bytes(sort_column), tables[0].0) is Some
    &&& tables_ok(tables, tables[0].0, key_indices(keys, tables[0].0))
}

/// The tables that the `csv` crate reads from each input with `delimiter`.
pub open spec fn read_tables(data: Seq<Vec<u8>>, delimiter: u8) -> Seq<TableView> {
    Seq::new(data.len(), |i: int| csv_read(data[i]@, delimiter)->0)
}

/// The `csv` crate reads every input.
pub open spec fn readable(data: Seq<Vec<u8>>, delimiter: u8) -> bool {
    forall|i: int| 0 <= i < data.len() ==> csv_read((#[trigger] data[i])@, delimiter) is Some
}

/// `text` is the CSV rendering of the merge of `tables`: the first header, then the
/// surviving rows in output order.
pub open spec fn is_merge_output(
    text: Seq<u8>,
    tables: Seq<TableView>,
    keys: Seq<String>,
    sort_column: String,
) -> bool {
    let h = tables[0].0;
    let idx = key_indices(keys, h);
    let si = column_index(selector_bytes(sort_column), h)->0 as usize;
    exists|rows: Seq<Seq<Seq<u8>>>|
        is_sorted_listing(rows, latest(all_rows(tables), idx), idx, si) && rows_have_width(
            rows,
            h.len() as int,
        ) && text == csv_text(seq![h] + rows, 0x2c)
}

/// Reading fails at input `i`: the inputs before it read, and they merge without error.
pub open spec fn read_fails_at(
    data: Seq<Vec<u8>>,
    delimiter: u8,
    keys: Seq<String>,
    sort_column: String,
    i: int,
) -> bool {
    &&& 0 <= i < data.len()
    &&& csv_read(data[i]@, delimiter) is None
    &&& readable(data.take(i), delimiter)
    &&& i > 0 ==> merge_ok(read_tables(data, delimiter).take(i), keys, sort_column)
}

proof fn lemma_no_read_failure(data: Seq<Vec<u8>>, d: u8, keys: Seq<String>, sort_column: String, i: int)
    requires
        0 <= i < data.len(),
        readable(data.take(i + 1), d),
        !table_ok(
            read_tables(data, d)[i],
            read_tables(data, d)[0].0,
            key_indices(keys, read_tables(data, d)[0].0),
        ),
    ensures
        forall|k: int| !#[trigger] read_fails_at(data, d, keys, sort_column, k),
{
    let all = read_tables(data, d);
    assert forall|k: int| !#[trigger] read_fails_at(data, d, keys, sort_column, k) by {
        if 0 <= k <= i {
            assert(data.take(i + 1)[k] == data[k]);
        } else if k > i && k < data.len() {
            let tk = all.take(k);
            if merge_ok(tk, keys, sort_column) {
                assert(tk[i] == all[i]);
                assert(tk[0] == all[0]);
                assert(table_ok(tk[i], tk[0].0, key_indices(keys, tk[0].0)));
            }
        }
    }
}

/// The first row of `t` that lacks a key field, with its line and the missing index.
fn first_short_row(t: &Table, idx: &Vec<usize>) -> (r: Option<(u64, usize)>)
    ensures
        r is None <==> forall|i: int| 0 <= i < t@.1.len() ==> has_fields(#[trigger] table_rows(t@)[i], idx@),
        r matches Some((line, c)) ==> exists|i: int|
            0 <= i < t@.1.len() && t@.1[i].0 == line && idx@.contains(c) && c >= t@.1[i].1.len(),
{
    let mut i: usize = 0;
    while i < t.records.len()
        invariant
            i <= t.records@.len(),
            forall|j: int| 0 <= j < i ==> has_fields(#[trigger] table_rows(t@)[j], idx@),
        decreases t.records.len() - i,
    {
        let rec = &t.records[i];
        assert(table_rows(t@)[i as int] == rec.fields.deep_view());
        match row_key(&rec.fields, idx) {
            Ok(_) => {},
            Err(c) => {
                return Some((rec.line, c));
            },
        }
        i = i + 1;
    }
    None
}

/// Read each input as CSV with a header row and `delimiter`, and merge the tables. Each
/// table is checked against the first as soon as it is read.
pub fn merge_inputs(
    csv_data: &Vec<Vec<u8>>,
    key_columns: &Vec<String>,
    sort_column: &String,
    delimiter: char,
) -> (r: Result<Merged, Error>)
    ensures
        (r matches Err(Error::InvalidDelimiter(_))) <==> (delimiter as u32) >= 256,
        r matches Err(Error::InvalidDelimiter(c)) ==> c == delimiter,
        r matches Err(Error::NoInput) <==> (delimiter as u32) < 256 && csv_data@.len() == 0,
        (r matches Err(Error::Csv(_))) <==> (delimiter as u32) < 256 && exists|i: int|
            #[trigger] read_fails_at(csv_data@, (delimiter as u32) as u8, key_columns@, *sort_column, i),
        r is Ok <==> (delimiter as u32) < 256 && readable(csv_data@, (delimiter as u32) as u8)
            && merge_ok(read_tables(csv_data@, (delimiter as u32) as u8), key_columns@, *sort_column),
        r matches Err(e) ==> exists|n: int|
            0 <= n <= csv_data@.len() && readable(csv_data@.take(n), (delimiter as u32) as u8)
                && merge_error_fits(
                e,
                read_tables(csv_data@, (delimiter as u32) as u8).take(n),
                key_columns@,
                *sort_column,
            ),
        r matches Ok(m) ==> rows_have_width(m.rows.deep_view(), m.header.deep_view().len() as int),
        r matches Ok(m) ==> {
            let tv = read_tables(csv_data@, (delimiter as u32) as u8);
            let h = tv[0].0;
            let idx = key_indices(key_columns@, h);
            let si = column_index(selector_bytes(*sort_column), h)->0 as usize;
            &&& m.header.deep_view() == h
            &&& m.key_column_indices@ == idx
            &&& m.sort_column_index == si
            &&& column_index(selector_bytes(*sort_column), h) == Some(m.sort_column_index as int)
            &&& is_sorted_listing(m.rows.deep_view(), latest(all_rows(tv), idx), idx, si)
        },
{
    if delimiter as u32 >= 256 {
        return Err(Error::InvalidDelimiter(delimiter));
    }
    let d = delimiter as u32 as u8;
    let ghost all = read_tables(csv_data@, d);
    let mut tables: Vec<Table> = Vec::new();
    let mut idx: Vec<usize> = Vec::new();
    let mut i: usize = 0;
    while i < csv_data.len()
        invariant
            i <= csv_data@.len(),
            d == (delimiter as u32) as u8,
            (delimiter as u32) < 256,
            all == read_tables(csv_data@, d),
            tables@.len() == i,
            forall|j: int| 0 <= j < i ==> csv_read(csv_data@[j]@, d) == Some((#[trigger] tables@[j])@),
            tables_fit(tables_view(tables@)),
            tables_view(tables@) == all.take(i as int),
            readable(csv_data@.take(i as int), d),
            i > 0 ==> merge_ok(all.take(i as int), key_columns@, *sort_column),
            i > 0 ==> idx@ == key_indices(key_columns@, all[0].0),
        decreases csv_data.len() - i,
    {
        let t = match read_table(csv_data[i].as_slice(), d) {
            Ok(t) => t,
            Err(e) => {
                proof {
                    assert(csv_data@.take(i as int) =~= csv_data@.take(i as int));
                    assert(read_fails_at(csv_data@, d, key_columns@, *sort_column, i as int));
                    assert(!readable(csv_data@, d)) by {
                        assert(csv_read(csv_data@[i as int]@, d) is None);
                    }
                }
                return Err(Error::Csv(e));
            },
        };
        proof {
            assert(all[i as int] == t@);
            assert(all.take(i + 1) =~= all.take(i as int).push(t@));
            assert(csv_data@.take(i + 1) =~= csv_data@.take(i as int).push(csv_data@[i as int]));
            assert forall|k: int| 0 <= k < t.records@.len() implies t@.1[k].1.len() == t@.0.len() by {
                assert(t.records@[k].fields@.len() == t.header@.len());
            }
        }
        if i == 0 {
            proof { assert(all.take(1) =~= seq![t@]); }
            match resolve_keys(key_columns, &t.header) {
                Ok(v) => {
                    idx = v;
                },
                Err(k) => {
                    proof {
                        assert(merge_error_fits(
                            Error::MissingColumn { name: key_columns@[k as int], role: ColumnRole::Key },
                            all.take(1),
                            key_columns@,
                            *sort_column,
                        ));
                        assert(readable(csv_data@.take(1), d));
                    }
                    return Err(Error::MissingColumn { name: key_columns[k].clone(), role: ColumnRole::Key });
                },
            }
            if header_idx(sort_column.as_str(), &t.header).is_none() {
                proof { assert(readable(csv_data@.take(1), d)); }
                return Err(Error::MissingColumn { name: sort_column.clone(), role: ColumnRole::Sort });
            }
        } else {
            if !crate::record::fields_equal(&t.header, &tables[0].header) {
                proof {
                    assert(tables@[0]@ == all[0]);
                    let tk = all.take(i + 1);
                    assert(tk.take(i as int) =~= all.take(i as int));
                    assert(tk[i as int] == t@);
                    assert(tk[0] == all[0]);
                    assert(readable(csv_data@.take(i + 1), d));
                    assert(!tables_ok(all, all[0].0, key_indices(key_columns@, all[0].0))) by {
                        assert(!table_ok(all[i as int], all[0].0, key_indices(key_columns@, all[0].0)));
                    }
                    lemma_no_read_failure(csv_data@, d, key_columns@, *sort_column, i as int);
                }
                return Err(Error::SchemaChange {
                    previous: copy_fields(&tables[0].header),
                    current: copy_fields(&t.header),
                });
            }
        }
        match first_short_row(&t, &idx) {
            None => {},
            Some((line, c)) => {
                proof {
                    let tk = all.take(i + 1);
                    assert(tk.take(i as int) =~= all.take(i as int));
                    assert(tk[i as int] == t@);
                    assert(tk[0] == all[0]);
                    assert(readable(csv_data@.take(i + 1), d));
                    let h = all[0].0;
                    let w = choose|w: int|
                        0 <= w < t@.1.len() && t@.1[w].0 == line && idx@.contains(c) && c >= t@.1[w].1.len();
                    assert(!has_fields(table_rows(t@)[w], idx@));
                    assert(!tables_ok(all, h, key_indices(key_columns@, h))) by {
                        assert(!table_ok(all[i as int], h, key_indices(key_columns@, h)));
                    }
                    lemma_no_read_failure(csv_data@, d, key_columns@, *sort_column, i as int);
                }
                return Err(Error::ColumnMissingInRow { line, key_column_index: c });
            },
        }
        let ghost before = tables@;
        tables.push(t);
        proof {
            let tv = tables_view(tables@);
            assert(tv =~= all.take(i + 1));
            assert forall|a: int, b: int| 0 <= a < tv.len() && 0 <= b < tv[a].1.len() implies (
            #[trigger] tv[a].1[b]).1.len() == tv[a].0.len() by {
                if a < i {
                    assert(tv[a] == tables_view(before)[a]);
                }
            }
            assert forall|j: int| 0 <= j < i + 1 implies csv_read(csv_data@[j]@, d) == Some(
                (#[trigger] tables@[j])@,
            ) by {
                if j < i {
                    assert(tables@[j] == before[j]);
                }
            }
            let h = all[0].0;
            let kidx = key_indices(key_columns@, h);
            assert(table_ok(tv[i as int], h, kidx));
            assert forall|a: int| 0 <= a < tv.len() implies table_ok(#[trigger] tv[a], h, kidx) by {
                if a < i {
                    assert(tv[a] == all.take(i as int)[a]);
                }
            }
            assert(merge_ok(all.take(i + 1), key_columns@, *sort_column));
        }
        i = i + 1;
    }
    assert(all.take(i as int) =~= all);
    assert(csv_data@.take(i as int) =~= csv_data@);
    proof {
        if (delimiter as u32) < 256 && exists|k: int| read_fails_at(csv_data@, d, key_columns@, *sort_column, k) {
            let k = choose|k: int| read_fails_at(csv_data@, d, key_columns@, *sort_column, k);
            assert(csv_read(csv_data@[k]@, d) is Some);
        }
    }
    let r = merge_tables(&tables, key_columns, sort_column);
    proof {
        if r is Ok {
            lemma_listing_width(tables_view(tables@), r->Ok_0.rows.deep_view(), key_columns@, *sort_column);
        }
        if r is Err {
            assert(r->Err_0 is NoInput);
            assert(readable(csv_data@.take(0), d));
            assert(merge_error_fits(r->Err_0, all.take(0), key_columns@, *sort_column));
        }
    }
    r
}

/// Read each input as CSV with a header row, merge them, and append the result to `out`
/// as comma-separated CSV.
pub fn merge(
    csv_data: &Vec<Vec<u8>>,
    key_columns: &Vec<String>,
    out: &mut Vec<u8>,
    options: Options,
) -> (r: Result<Outcome, Error>)
    ensures
        (r matches Err(Error::InvalidDelimiter(_))) <==> (options.delimiter as u32) >= 256,
        r matches Err(Error::InvalidDelimiter(c)) ==> c == options.delimiter,
        r matches Err(Error::NoInput) <==> (options.delimiter as u32) < 256 && csv_data@.len()
            == 0,
        (r matches Err(Error::Csv(_))) <==> (options.delimiter as u32) < 256 && exists|i: int|
            #[trigger] read_fails_at(
                csv_data@,
                (options.delimiter as u32) as u8,
                key_columns@,
                options.sort_column,
                i,
            ),
        r is Ok <==> (options.delimiter as u32) < 256 && readable(
            csv_data@,
            (options.delimiter as u32) as u8,
        ) && merge_ok(
            read_tables(csv_data@, (options.delimiter as u32) as u8),
            key_columns@,
            options.sort_column,
        ),
        r matches Err(e) ==> exists|n: int|
            0 <= n <= csv_data@.len() && readable(csv_data@.take(n), (options.delimiter as u32) as u8)
                && merge_error_fits(
                e,
                read_tables(csv_data@, (options.delimiter as u32) as u8).take(n),
                key_columns@,
                options.sort_column,
            ),
        r matches Ok(o) ==> {
            let tv = read_tables(csv_data@, (options.delimiter as u32) as u8);
            let h = tv[0].0;
            &&& o.key_column_indices@ == key_indices(key_columns@, h)
            &&& o.sort_column_index == column_index(selector_bytes(options.sort_column), h)->0
            &&& o.delimiter == 0x2c
            &&& final(out)@.len() >= old(out)@.len()
            &&& final(out)@.take(old(out)@.len() as int) == old(out)@
            &&& is_merge_output(
                final(out)@.skip(old(out)@.len() as int),
                tv,
                key_columns@,
                options.sort_column,
            )
        },
        r is Err ==> *final(out) == *old(out),
{
    let merged = match merge_inputs(csv_data, key_columns, &options.sort_column, options.delimiter) {
        Ok(m) => m,
        Err(e) => {
            return Err(e);
        },
    };
    let ghost delimiter = (options.delimiter as u32) as u8;
    let mut lines: Vec<Vec<Vec<u8>>> = Vec::new();
    lines.push(merged.header);
    let ghost rows = merged.rows.deep_view();
    let ghost h = lines.deep_view()[0];
    assert(lines.deep_view() =~= seq![h]);
    let mut j: usize = 0;
    while j < merged.rows.len()
        invariant
            j <= merged.rows@.len(),
            rows == merged.rows.deep_view(),
            lines.deep_view() =~= seq![h] + rows.take(j as int),
        decreases merged.rows.len() - j,
    {
        let ghost before = lines.deep_view();
        lines.push(copy_fields(&merged.rows[j]));
        proof {
            assert(lines.deep_view() =~= before.push(rows[j as int]));
            assert(rows.take(j + 1) =~= rows.take(j as int).push(rows[j as int]));
        }
        j = j + 1;
    }
    assert(rows.take(j as int) =~= rows);
    proof {
        assert forall|i: int| 0 <= i < lines@.len() implies (#[trigger] lines@[i])@.len()
            == lines@[0]@.len() by {
            assert(lines@[i]@.len() == lines.deep_view()[i].len());
            assert(lines@[0]@.len() == lines.deep_view()[0].len());
            if i > 0 {
                assert(lines.deep_view()[i] == rows[i - 1]);
            }
        }
    }
    let text = match write_rows(&lines, 0x2c) {
        Ok(b) => b,
        Err(e) => {
            return Err(Error::Csv(e));
        },
    };
    let ghost before = out@;
    let mut k: usize = 0;
    while k < text.len()
        invariant
            k <= text@.len(),
            out@ == before + text@.take(k as int),
        decreases text.len() - k,
    {
        out.push(text[k]);
        proof {
            assert(text@.take(k + 1) =~= text@.take(k as int).push(text@[k as int]));
        }
        k = k + 1;
    }
    proof {
        assert(text@.take(k as int) =~= text@);
        assert(out@.take(before.len() as int) =~= before);
        assert(out@.skip(before.len() as int) =~= text@);
        let tv = read_tables(csv_data@, delimiter);
        let hh = tv[0].0;
        let idx = key_indices(key_columns@, hh);
        let si = column_index(selector_bytes(options.sort_column), hh)->0 as usize;
        assert(h == hh);
        assert(is_sorted_listing(rows, latest(all_rows(tv), idx), idx, si));
        assert(text@ == csv_text(seq![hh] + rows, 0x2c));
        assert(is_merge_output(out@.skip(before.len() as int), tv, key_columns@, options.sort_column));
        assert(merged.key_column_indices@ == idx);
        assert(merged.sort_column_index == si);
    }
    Ok(Outcome {
        key_column_indices: merged.key_column_indices,
        sort_column_index: merged.sort_column_index,
        delimiter: 0x2c,
    })
}

proof fn lemma_latest_concat(a: Seq<Seq<Seq<u8>>>, b: Seq<Seq<Seq<u8>>>, idx: Seq<usize>)
    ensures
        latest(a + b, idx) == latest(a, idx).union_prefer_right(latest(b, idx)),
    decreases b.len(),
{
    if b.len() == 0 {
        assert(a + b =~= a);
        assert(latest(a, idx).union_prefer_right(latest(b, idx)) =~= latest(a, idx));
    } else {
        assert((a + b).drop_last() =~= a + b.drop_last());
        lemma_latest_concat(a, b.drop_last(), idx);
        assert(latest(a + b, idx) =~= latest(a, idx).union_prefer_right(latest(b, idx)));
    }
}

proof fn lemma_latest_last(rows: Seq<Seq<Seq<u8>>>, idx: Seq<usize>, j: int)
    requires
        0 <= j < rows.len(),
        forall|i: int| j < i < rows.len() ==> key_of(#[trigger] rows[i], idx) != key_of(rows[j], idx),
    ensures
        latest(rows, idx).contains_key(key_of(rows[j], idx)),
        latest(rows, idx)[key_of(rows[j], idx)] == rows[j],
    decreases rows.len(),
{
    if j < rows.len() - 1 {
        lemma_latest_last(rows.drop_last(), idx, j);
    }
}

/// `n` copies of one table.
pub open spec fn repeated(t: TableView, n: nat) -> Seq<TableView> {
    Seq::new(n, |i: int| t)
}

/// Two sorted listings of the same rows are the same sequence.
pub proof fn sorted_listing_unique(
    a: Seq<Seq<Seq<u8>>>,
    b: Seq<Seq<Seq<u8>>>,
    m: Map<Seq<u8>, Seq<Seq<u8>>>,
    idx: Seq<usize>,
    si: usize,
)
    requires
        is_sorted_listing(a, m, idx, si),
        is_sorted_listing(b, m, idx, si),
    ensures
        a == b,
    decreases a.len(),
{
    if a.len() == 0 || b.len() == 0 {
        if b.len() > 0 {
            assert(m.contains_key(key_of(b[0], idx)));
        }
        if a.len() > 0 {
            assert(m.contains_key(key_of(a[0], idx)));
        }
        assert(a =~= b);
    } else {
        let x = a[0];
        let y = b[0];
        if x != y {
            let kx = key_of(x, idx);
            let ky = key_of(y, idx);
            assert(m.contains_key(kx) && m[kx] == x);
            assert(m.contains_key(ky) && m[ky] == y);
            let i = choose|i: int| 0 <= i < a.len() && key_of(a[i], idx) == ky;
            let j = choose|j: int| 0 <= j < b.len() && key_of(b[j], idx) == kx;
            assert(m[key_of(a[i], idx)] == a[i]);
            assert(m[key_of(b[j], idx)] == b[j]);
            assert(row_before(x, y, idx, si));
            assert(row_before(y, x, idx, si));
            lemma_row_before_transitive(x, y, x, idx, si);
            lemma_row_before_irreflexive(x, idx, si);
        }
        lemma_listing_remove(a, m, idx, si, 0);
        lemma_listing_remove(b, m, idx, si, 0);
        sorted_listing_unique(a.remove(0), b.remove(0), m.remove(key_of(x, idx)), idx, si);
        assert(a =~= seq![x] + a.remove(0));
        assert(b =~= seq![y] + b.remove(0));
    }
}

/// The output of a merge is determined by its inputs: two texts that both render the
/// merge of the same tables are equal.
pub proof fn merge_output_unique(
    t1: Seq<u8>,
    t2: Seq<u8>,
    tables: Seq<TableView>,
    keys: Seq<String>,
    sort_column: String,
)
    requires
        is_merge_output(t1, tables, keys, sort_column),
        is_merge_output(t2, tables, keys, sort_column),
    ensures
        t1 == t2,
{
    let h = tables[0].0;
    let idx = key_indices(keys, h);
    let si = column_index(selector_bytes(sort_column), h)->0 as usize;
    let m = latest(all_rows(tables), idx);
    let r1 = choose|rows: Seq<Seq<Seq<u8>>>|
        is_sorted_listing(rows, m, idx, si) && t1 == csv_text(seq![h] + rows, 0x2c);
    let r2 = choose|rows: Seq<Seq<Seq<u8>>>|
        is_sorted_listing(rows, m, idx, si) && t2 == csv_text(seq![h] + rows, 0x2c);
    sorted_listing_unique(r1, r2, m, idx, si);
}

/// Merging a table with itself any number of times gives what merging it once gives:
/// the same success condition and the same output.
pub proof fn merge_idempotent(t: TableView, n: nat, keys: Seq<String>, sort_column: String)
    requires
        n >= 1,
    ensures
        merge_ok(repeated(t, n), keys, sort_column) == merge_ok(seq![t], keys, sort_column),
        forall|text: Seq<u8>|
            is_merge_output(text, repeated(t, n), keys, sort_column) == is_merge_output(
                text,
                seq![t],
                keys,
                sort_column,
            ),
    decreases n,
{
    let idx = key_indices(keys, t.0);
    lemma_all_rows_single(t);
    if n > 1 {
        merge_idempotent(t, (n - 1) as nat, keys, sort_column);
        assert(repeated(t, n).drop_last() =~= repeated(t, (n - 1) as nat));
        assert(all_rows(repeated(t, n)) == all_rows(repeated(t, (n - 1) as nat)) + table_rows(t));
        lemma_all_rows_repeated(t, (n - 1) as nat, idx);
        lemma_latest_concat(all_rows(repeated(t, (n - 1) as nat)), table_rows(t), idx);
        assert(latest(all_rows(repeated(t, n)), idx) =~= latest(table_rows(t), idx));
        assert(tables_ok(repeated(t, n), t.0, idx) == tables_ok(seq![t], t.0, idx));
    } else {
        assert(repeated(t, n) =~= seq![t]);
    }
}

proof fn lemma_all_rows_single(t: TableView)
    ensures
        all_rows(seq![t]) == table_rows(t),
{
    let e = Seq::<TableView>::empty();
    assert(seq![t].drop_last() =~= e);
    assert(all_rows(e) == Seq::<Seq<Seq<u8>>>::empty());
    assert(all_rows(seq![t]) == all_rows(e) + table_rows(t));
    assert(Seq::<Seq<Seq<u8>>>::empty() + table_rows(t) =~= table_rows(t));
}

proof fn lemma_all_rows_repeated(t: TableView, n: nat, idx: Seq<usize>)
    requires
        n >= 1,
    ensures
        latest(all_rows(repeated(t, n)), idx) == latest(table_rows(t), idx),
    decreases n,
{
    assert(repeated(t, n).drop_last() =~= repeated(t, (n - 1) as nat));
    if n == 1 {
        assert(repeated(t, n) =~= seq![t]);
        lemma_all_rows_single(t);
    } else {
        lemma_all_rows_repeated(t, (n - 1) as nat, idx);
        lemma_latest_concat(all_rows(repeated(t, (n - 1) as nat)), table_rows(t), idx);
        assert(latest(all_rows(repeated(t, n)), idx) =~= latest(table_rows(t), idx));
    }
}

/// When two tables share a key, the merged row with that key is the last row with that
/// key in the later table.
pub proof fn merge_last_wins(first: TableView, second: TableView, idx: Seq<usize>, j: int)
    requires
        0 <= j < second.1.len(),
        forall|i: int|
            j < i < second.1.len() ==> key_of(#[trigger] second.1[i].1, idx) != key_of(
                second.1[j].1,
                idx,
            ),
    ensures
        latest(all_rows(seq![first, second]), idx).contains_key(key_of(second.1[j].1, idx)),
        latest(all_rows(seq![first, second]), idx)[key_of(second.1[j].1, idx)] == second.1[j].1,
{
    assert(seq![first, second].drop_last() =~= seq![first]);
    lemma_all_rows_single(first);
    assert(all_rows(seq![first, second]) == all_rows(seq![first]) + table_rows(second));
    lemma_latest_concat(table_rows(first), table_rows(second), idx);
    let rows = table_rows(second);
    assert forall|i: int| j < i < rows.len() implies key_of(#[trigger] rows[i], idx) != key_of(
        rows[j],
        idx,
    ) by {
        assert(rows[i] == second.1[i].1);
    }
    lemma_latest_last(rows, idx, j);
}

/// The merged rows never decrease by the raw bytes of the sort column.
pub proof fn merge_sorted(
    rows: Seq<Seq<Seq<u8>>>,
    m: Map<Seq<u8>, Seq<Seq<u8>>>,
    idx: Seq<usize>,
    si: usize,
)
    requires
        is_sorted_listing(rows, m, idx, si),
    ensures
        forall|i: int, j: int|
            0 <= i < j < rows.len() ==> sort_value(#[trigger] rows[i], si) == sort_value(
                #[trigger] rows[j],
                si,
            ) || option_lt(sort_value(rows[i], si), sort_value(rows[j], si)),
{
    assert forall|i: int, j: int| 0 <= i < j < rows.len() implies sort_value(
        #[trigger] rows[i],
        si,
    ) == sort_value(#[trigger] rows[j], si) || option_lt(
        sort_value(rows[i], si),
        sort_value(rows[j], si),
    ) by {
        assert(row_before(rows[i], rows[j], idx, si));
    }
}

/// The rows `merge` writes after the header never decrease by the raw bytes of the
/// sort column, and each has the header's field count.
pub proof fn merge_output_sorted(
    text: Seq<u8>,
    tables: Seq<TableView>,
    keys: Seq<String>,
    sort_column: String,
)
    requires
        is_merge_output(text, tables, keys, sort_column),
    ensures
        exists|rows: Seq<Seq<Seq<u8>>>|
            text == csv_text(seq![tables[0].0] + rows, 0x2c) && rows_have_width(
                rows,
                tables[0].0.len() as int,
            ) && forall|i: int, j: int|
                0 <= i < j < rows.len() ==> {
                    let si = column_index(selector_bytes(sort_column), tables[0].0)->0 as usize;
                    sort_value(#[trigger] rows[i], si) == sort_value(#[trigger] rows[j], si)
                        || option_lt(sort_value(rows[i], si), sort_value(rows[j], si))
                },
{
    let h = tables[0].0;
    let idx = key_indices(keys, h);
    let si = column_index(selector_bytes(sort_column), h)->0 as usize;
    let rows = choose|rows: Seq<Seq<Seq<u8>>>|
        is_sorted_listing(rows, latest(all_rows(tables), idx), idx, si) && rows_have_width(
            rows,
            h.len() as int,
        ) && text == csv_text(seq![h] + rows, 0x2c);
    merge_sorted(rows, latest(all_rows(tables), idx), idx, si);
}

/// When a later table has a row with a key, the rows `merge` writes hold exactly one
/// row with that key: the last such row of the later table.
pub proof fn merge_output_last_wins(
    text: Seq<u8>,
    first: TableView,
    second: TableView,
    keys: Seq<String>,
    sort_column: String,
    j: int,
)
    requires
        is_merge_output(text, seq![first, second], keys, sort_column),
        0 <= j < second.1.len(),
        forall|i: int|
            j < i < second.1.len() ==> key_of(#[trigger] second.1[i].1, key_indices(keys, first.0))
                != key_of(second.1[j].1, key_indices(keys, first.0)),
    ensures
        exists|rows: Seq<Seq<Seq<u8>>>, p: int|
            #![trigger csv_text(seq![first.0] + rows, 0x2c), rows[p]]
            text == csv_text(seq![first.0] + rows, 0x2c) && 0 <= p < rows.len() && rows[p]
                == second.1[j].1 && forall|q: int|
                0 <= q < rows.len() && q != p ==> key_of(#[trigger] rows[q], key_indices(keys, first.0))
                    != key_of(second.1[j].1, key_indices(keys, first.0)),
{
    let tables = seq![first, second];
    assert(tables[0] == first);
    let h = first.0;
    let idx = key_indices(keys, h);
    let si = column_index(selector_bytes(sort_column), h)->0 as usize;
    let m = latest(all_rows(tables), idx);
    let rows = choose|rows: Seq<Seq<Seq<u8>>>|
        is_sorted_listing(rows, m, idx, si) && rows_have_width(rows, h.len() as int) && text
            == csv_text(seq![h] + rows, 0x2c);
    merge_last_wins(first, second, idx, j);
    let k = key_of(second.1[j].1, idx);
    assert(m.contains_key(k));
    let p = choose|p: int| 0 <= p < rows.len() && key_of(rows[p], idx) == k;
    assert(m[key_of(rows[p], idx)] == rows[p]);
    assert forall|q: int| 0 <= q < rows.len() && q != p implies key_of(#[trigger] rows[q], idx) != k by {
        lemma_listing_keys_distinct(rows, m, idx, si, q, p);
    }
}

} // verus!
