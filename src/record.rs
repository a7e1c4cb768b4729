use vstd::prelude::*;

verus! {

/// The mathematical value of a record: its field values in column order and
/// the input line it came from.
pub struct RecordView {
    pub fields: Seq<Seq<char>>,
    pub line: u64,
}

/// One row of the export: field values aligned with the schema's columns,
/// and the line of the input at which the row appeared.
pub struct Record {
    pub fields: Vec<String>,
    pub line: u64,
}

impl View for Record {
    type V = RecordView;

    open spec fn view(&self) -> RecordView {
        RecordView { fields: self.fields.deep_view(), line: self.line }
    }
}

/// Copies a sequence of strings value by value.
pub fn copy_strings(v: &Vec<String>) -> (r: Vec<String>)
    ensures
        r.deep_view() == v.deep_view(),
{
    let mut r: Vec<String> = Vec::new();
    let mut i: usize = 0;
    while i < v.len()
        invariant
            i <= v@.len(),
            r@.len() == i,
            forall|j: int| 0 <= j < i ==> r@[j]@ == v@[j]@,
        decreases v@.len() - i,
    {
        r.push(v[i].clone());
        i = i + 1;
    }
    assert(r.deep_view() =~= v.deep_view());
    r
}

impl Record {
    pub fn new(fields: Vec<String>, line: u64) -> (r: Record)
        ensures
            r.fields == fields,
            r.line == line,
    {
        Record { fields, line }
    }

    /// The value at column `i`, if the record has that many fields.
    pub fn field(&self, i: usize) -> (r: Option<&String>)
        ensures
            i < self.fields@.len() ==> r == Some(&self.fields@[i as int]),
            i >= self.fields@.len() ==> r.is_none(),
    {
        if i < self.fields.len() {
            Some(&self.fields[i])
        } else {
            None
        }
    }

    pub fn source_line(&self) -> (r: u64)
        ensures
            r == self.line,
    {
        self.line
    }

    /// A record with the same field values and line.
    pub fn duplicate(&self) -> (r: Record)
        ensures
            r@ == self@,
    {
        Record { fields: copy_strings(&self.fields), line: self.line }
    }
}

} // verus!
