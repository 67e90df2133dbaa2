//! The catalogue of known tables and their columns.
use vstd::prelude::*;
use crate::text::str_eq;

verus! {

/// A column of a known table.
#[derive(Debug)]
pub struct ColumnInfo {
    pub name: String,
    pub label: String,
}

/// A known table: its name, a human label and its columns.
#[derive(Debug)]
pub struct TableInfo {
    pub name: String,
    pub label: String,
    pub columns: Vec<ColumnInfo>,
}

/// The known tables.
#[derive(Debug)]
pub struct Schema {
    pub tables: Vec<TableInfo>,
}

/// The column names of a table, in order.
pub open spec fn column_names(t: TableInfo) -> Seq<Seq<char>> {
    t.columns@.map_values(|c: ColumnInfo| c.name@)
}

/// The position of the first table named `name` at or after `k`.
pub open spec fn table_index_from(tables: Seq<TableInfo>, name: Seq<char>, k: int) -> Option<int>
    decreases tables.len() - k,
{
    if k < 0 || k >= tables.len() {
        None
    } else if tables[k].name@ == name {
        Some(k)
    } else {
        table_index_from(tables, name, k + 1)
    }
}

/// The position of the first table named `name`.
pub open spec fn table_index(s: Schema, name: Seq<char>) -> Option<int> {
    table_index_from(s.tables@, name, 0)
}

/// `name` is the name of a known table.
pub open spec fn is_known_table(s: Schema, name: Seq<char>) -> bool {
    table_index(s, name) is Some
}

/// `col` is a column of the table named `table`.
pub open spec fn table_has_column(s: Schema, table: Seq<char>, col: Seq<char>) -> bool {
    match table_index(s, table) {
        Some(k) => column_names(s.tables@[k]).contains(col),
        None => false,
    }
}

impl Schema {
    /// The position of the first table named `name`.
    pub fn find_table_index(&self, name: &str) -> (r: Option<usize>)
        ensures
            match r {
                Some(k) => table_index(*self, name@) == Some(k as int) && k < self.tables@.len(),
                None => table_index(*self, name@) is None,
            },
    {
        let mut i: usize = 0;
        while i < self.tables.len()
            invariant
                i <= self.tables.len(),
                table_index_from(self.tables@, name@, 0) == table_index_from(
                    self.tables@,
                    name@,
                    i as int,
                ),
            decreases self.tables.len() - i,
        {
            if str_eq(self.tables[i].name.as_str(), name) {
                return Some(i);
            }
            i = i + 1;
        }
        None
    }

    /// The first table named `name`.
    pub fn find_table(&self, name: &str) -> (r: Option<&TableInfo>)
        ensures
            match r {
                Some(t) => exists|k: int|
                    table_index(*self, name@) == Some(k) && 0 <= k < self.tables@.len()
                        && self.tables@[k] == *t,
                None => table_index(*self, name@) is None,
            },
    {
        match self.find_table_index(name) {
            Some(k) => Some(&self.tables[k]),
            None => None,
        }
    }

    /// Whether the table named `table` has a column named `col`.
    pub fn has_column(&self, table: &str, col: &str) -> (r: bool)
        ensures
            r == table_has_column(*self, table@, col@),
    {
        match self.find_table_index(table) {
            Some(k) => {
                let t = &self.tables[k];
                let mut i: usize = 0;
                while i < t.columns.len()
                    invariant
                        i <= t.columns.len(),
                        k < self.tables@.len(),
                        table_index(*self, table@) == Some(k as int),
                        self.tables@[k as int] == *t,
                        forall|j: int| 0 <= j < i ==> column_names(*t)[j] != col@,
                    decreases t.columns.len() - i,
                {
                    if str_eq(t.columns[i].name.as_str(), col) {
                        assert(column_names(*t)[i as int] == col@);
                        return true;
                    }
                    i = i + 1;
                }
                false
            },
            None => false,
        }
    }

    /// The column names of the table named `name`, or none when it is unknown.
    pub fn column_names_of(&self, name: &str) -> (r: Option<Vec<String>>)
        ensures
            match r {
                Some(v) => exists|k: int|
                    table_index(*self, name@) == Some(k) && 0 <= k < self.tables@.len()
                        && v.deep_view() == column_names(self.tables@[k]),
                None => table_index(*self, name@) is None,
            },
    {
        match self.find_table_index(name) {
            Some(k) => {
                let t = &self.tables[k];
                let mut v: Vec<String> = Vec::new();
                let mut i: usize = 0;
                while i < t.columns.len()
                    invariant
                        i <= t.columns.len(),
                        v.deep_view() == column_names(*t).take(i as int),
                    decreases t.columns.len() - i,
                {
                    let ghost before = v.deep_view();
                    v.push(t.columns[i].name.clone());
                    assert(v.deep_view() =~= before.push(t.columns@[i as int].name@));
                    i = i + 1;
                    assert(v.deep_view() =~= column_names(*t).take(i as int));
                }
                assert(column_names(*t).take(t.columns.len() as int) =~= column_names(*t));
                Some(v)
            },
            None => None,
        }
    }
}

} // verus!
