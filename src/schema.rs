use vstd::prelude::*;

verus! {

/// Returns the position of the first column whose name equals `name`.
pub fn column_of(columns: &Vec<String>, name: &str) -> (r: Option<usize>)
    ensures
        match r {
            Some(i) => i < columns@.len() && columns@[i as int]@ == name@
                && forall|j: int| 0 <= j < i ==> columns@[j]@ != name@,
            None => forall|j: int| 0 <= j < columns@.len() ==> columns@[j]@ != name@,
        },
{
    let target = String::from_str(name);
    let mut i: usize = 0;
    while i < columns.len()
        invariant
            i <= columns@.len(),
            target@ == name@,
            forall|j: int| 0 <= j < i ==> columns@[j]@ != name@,
        decreases columns@.len() - i,
    {
        if columns[i] == target {
            return Some(i);
        }
        i = i + 1;
    }
    None
}

} // verus!

verus! {

/// How conflicting duplicates are settled.
#[derive(PartialEq, Eq, Structural, Clone, Copy, Debug)]
pub enum Policy {
    /// A person chooses between merging, dropping both and splitting.
    Interactive,
    /// Records whose url, username and password agree count as duplicates;
    /// any other difference is reported and the earlier record is kept.
    Automatic,
}

#[derive(Debug)]
pub enum SchemaError {
    /// The header lacks the named column.
    MissingColumn(String),
}

/// The column layout of the input, with the positions the engine reads.
pub struct Schema {
    pub columns: Vec<String>,
    /// Position of the `name` column, the logical key.
    pub key_pos: usize,
    /// Positions of the `url`, `username` and `password` columns under the
    /// automatic policy; empty under the interactive one.
    pub significant: Vec<usize>,
}

/// The first position of `name` among `cols`, or -1.
#[verifier::opaque]
pub open spec fn first_position(cols: Seq<Seq<char>>, name: Seq<char>) -> int {
    if cols.contains(name) {
        choose|i: int|
            0 <= i < cols.len() && cols[i] == name && forall|j: int| 0 <= j < i ==> cols[j] != name
    } else {
        -1
    }
}

/// The first column that `policy` needs and `cols` lacks, checked in the
/// order name, url, username, password.
pub open spec fn missing_column(cols: Seq<Seq<char>>, policy: Policy) -> Option<Seq<char>> {
    if !cols.contains("name"@) {
        Some("name"@)
    } else if policy == Policy::Interactive {
        None
    } else if !cols.contains("url"@) {
        Some("url"@)
    } else if !cols.contains("username"@) {
        Some("username"@)
    } else if !cols.contains("password"@) {
        Some("password"@)
    } else {
        None
    }
}

proof fn lemma_found_is_first(cols: Seq<Seq<char>>, name: Seq<char>, i: int)
    requires
        0 <= i < cols.len(),
        cols[i] == name,
        forall|j: int| 0 <= j < i ==> cols[j] != name,
    ensures
        first_position(cols, name) == i,
{
    reveal(first_position);
    assert(cols.contains(name));
    let k = first_position(cols, name);
    assert(0 <= k < cols.len() && cols[k] == name);
    if k < i {
    } else if k > i {
        assert(cols[i] != name);
    }
}

proof fn lemma_column_names_distinct()
    ensures
        "name"@ != "url"@,
        "name"@ != "username"@,
        "name"@ != "password"@,
{
    reveal_strlit("name");
    reveal_strlit("url");
    reveal_strlit("username");
    reveal_strlit("password");
    assert("name"@[0] != "url"@[0]);
    assert("name"@[0] != "username"@[0]);
    assert("name"@[0] != "password"@[0]);
}

fn position_of(columns: &Vec<String>, name: &str) -> (r: Option<usize>)
    ensures
        match r {
            Some(i) => i < columns@.len() && columns@[i as int]@ == name@
                && columns.deep_view().contains(name@)
                && i as int == first_position(columns.deep_view(), name@),
            None => !columns.deep_view().contains(name@),
        },
{
    let r = column_of(columns, name);
    proof {
        let cols = columns.deep_view();
        match r {
            Some(i) => {
                assert(cols[i as int] == columns@[i as int]@);
                lemma_found_is_first(cols, name@, i as int);
            },
            None => {
                assert forall|j: int| 0 <= j < cols.len() implies cols[j] != name@ by {
                    assert(cols[j] == columns@[j]@);
                }
            },
        }
    }
    r
}

impl Schema {
    pub open spec fn wf(&self) -> bool {
        &&& self.key_pos < self.columns@.len()
        &&& self.columns@[self.key_pos as int]@ == "name"@
        &&& forall|i: int| 0 <= i < self.significant@.len()
            ==> #[trigger] self.significant@[i] < self.columns@.len()
                && self.significant@[i] != self.key_pos
    }

    pub open spec fn width(&self) -> nat {
        self.columns@.len()
    }

    /// Reads the positions that `policy` needs from a header row.
    pub fn from_header(columns: Vec<String>, policy: Policy) -> (r: Result<Schema, SchemaError>)
        ensures
            match r {
                Ok(s) => {
                    &&& missing_column(columns.deep_view(), policy).is_none()
                    &&& s.wf()
                    &&& s.columns == columns
                    &&& s.key_pos == first_position(columns.deep_view(), "name"@)
                    &&& policy == Policy::Interactive ==> s.significant@.len() == 0
                    &&& policy == Policy::Automatic ==> s.significant@.len() == 3
                        && s.significant@[0] == first_position(columns.deep_view(), "url"@)
                        && s.significant@[1] == first_position(columns.deep_view(), "username"@)
                        && s.significant@[2] == first_position(columns.deep_view(), "password"@)
                },
                Err(SchemaError::MissingColumn(c)) => missing_column(columns.deep_view(), policy)
                    == Some(c@),
            },
    {
        let key_pos = match position_of(&columns, "name") {
            Some(p) => p,
            None => {
                return Err(SchemaError::MissingColumn(String::from_str("name")));
            },
        };
        proof {
            lemma_column_names_distinct();
        }
        let mut significant: Vec<usize> = Vec::new();
        if policy == Policy::Automatic {
            let u = match position_of(&columns, "url") {
                Some(p) => p,
                None => { return Err(SchemaError::MissingColumn(String::from_str("url"))); },
            };
            let n = match position_of(&columns, "username") {
                Some(p) => p,
                None => { return Err(SchemaError::MissingColumn(String::from_str("username"))); },
            };
            let p = match position_of(&columns, "password") {
                Some(p) => p,
                None => { return Err(SchemaError::MissingColumn(String::from_str("password"))); },
            };
            significant.push(u);
            significant.push(n);
            significant.push(p);
        }
        Ok(Schema { columns, key_pos, significant })
    }
}

} // verus!
