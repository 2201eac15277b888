//! The tabular record model: a row is an ordered list of byte-string fields.
use vstd::prelude::*;

verus! {

/// One data row of a table together with the 1-based line it was read from.
pub struct Record {
    pub line: u64,
    pub fields: Vec<Vec<u8>>,
}

/// A table: a header row of column names and the data rows below it.
pub struct Table {
    pub header: Vec<Vec<u8>>,
    pub records: Vec<Record>,
}

/// A table as values: the header's fields, then each record's line and fields.
pub type TableView = (Seq<Seq<u8>>, Seq<(u64, Seq<Seq<u8>>)>);

impl View for Table {
    type V = TableView;

    open spec fn view(&self) -> TableView {
        (
            self.header.deep_view(),
            Seq::new(
                self.records@.len(),
                |i: int| (self.records@[i].line, self.records@[i].fields.deep_view()),
            ),
        )
    }
}

/// The views of a list of tables.
pub open spec fn tables_view(tables: Seq<Table>) -> Seq<TableView> {
    Seq::new(tables.len(), |i: int| tables[i]@)
}

/// The field values of every record of `t`, in order.
pub open spec fn table_rows(t: TableView) -> Seq<Seq<Seq<u8>>> {
    Seq::new(t.1.len(), |i: int| t.1[i].1)
}

/// A copy of a list of fields.
pub fn copy_fields(fields: &Vec<Vec<u8>>) -> (r: Vec<Vec<u8>>)
    ensures
        r.deep_view() == fields.deep_view(),
{
    let mut out: Vec<Vec<u8>> = Vec::with_capacity(fields.len());
    let mut i: usize = 0;
    while i < fields.len()
        invariant
            i <= fields@.len(),
            out@.len() == i,
            forall|j: int| 0 <= j < i ==> out@[j]@ == fields@[j]@,
        decreases fields.len() - i,
    {
        let f: Vec<u8> = fields[i].clone();
        assert(f@ =~= fields@[i as int]@);
        assert(f.deep_view() =~= fields@[i as int].deep_view());
        out.push(f);
        i = i + 1;
    }
    assert forall|j: int| 0 <= j < out@.len() implies out@[j].deep_view() == fields@[j].deep_view() by {
        assert(out@[j].deep_view() =~= fields@[j].deep_view());
    }
    assert(out.deep_view() =~= fields.deep_view());
    out
}

/// Whether two lists of fields are equal.
pub fn fields_equal(a: &Vec<Vec<u8>>, b: &Vec<Vec<u8>>) -> (r: bool)
    ensures
        r == (a.deep_view() == b.deep_view()),
{
    if a.len() != b.len() {
        assert(a.deep_view().len() != b.deep_view().len());
        return false;
    }
    let mut i: usize = 0;
    while i < a.len()
        invariant
            a@.len() == b@.len(),
            i <= a@.len(),
            forall|j: int| 0 <= j < i ==> a.deep_view()[j] == b.deep_view()[j],
        decreases a.len() - i,
    {
        if !crate::bytes::bytes_equal(a[i].as_slice(), b[i].as_slice()) {
            assert(a.deep_view()[i as int] =~= a@[i as int]@);
            assert(b.deep_view()[i as int] =~= b@[i as int]@);
            return false;
        }
        assert(a.deep_view()[i as int] =~= a@[i as int]@);
        assert(b.deep_view()[i as int] =~= b@[i as int]@);
        i = i + 1;
    }
    assert(a.deep_view() =~= b.deep_view());
    true
}

} // verus!
