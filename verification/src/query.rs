//! Queries and their results: the columns of a compiled query, and the rows of
//! one execution, read by position or by column name.

use crate::database::texts;
use crate::error::{CouchbaseLiteError, Error};
use crate::fleece::{
    entries_put, model_item, model_wf, Array, Entries, Value, ValueModel,
};
use crate::fleece_mutable::{storable, MutableArray, MutableDict};
use crate::index::QueryLanguage;
use crate::text::same_text;
use vstd::prelude::*;

verus! {

/// No name occurs twice.
pub open spec fn names_unique(names: Seq<Seq<char>>) -> bool {
    forall|i: int, j: int|
        0 <= i < names.len() && 0 <= j < names.len() && i != j ==> #[trigger] names[i]
            != #[trigger] names[j]
}

/// A compiled query: its language, its text, and the names of its columns,
/// which do not change and of which none occurs twice.
#[derive(Debug)]
pub struct Query {
    pub(crate) language: QueryLanguage,
    pub(crate) text: String,
    pub(crate) columns: Vec<String>,
}

impl Query {
    /// The names of the columns, in their order.
    pub closed spec fn spec_columns(&self) -> Seq<Seq<char>> {
        texts(self.columns@)
    }

    /// The text of the query.
    pub closed spec fn spec_text(&self) -> Seq<char> {
        self.text@
    }

    /// The language of the query.
    pub closed spec fn spec_language(&self) -> QueryLanguage {
        self.language
    }

    /// The validity of the query: no column name occurs twice.
    pub open spec fn wf(&self) -> bool {
        names_unique(self.spec_columns())
    }

    /// The query with the given text and the columns that the compiler found
    /// for it. Fails with `InvalidQuery` for the empty text, and for columns of
    /// which one name occurs twice.
    pub fn new(language: QueryLanguage, text: &str, columns: Vec<String>) -> (r: Result<Query, Error>)
        ensures
            text@.len() > 0 && names_unique(texts(columns@)) ==> (r matches Ok(q) && q.wf()
                && q.spec_columns() == texts(columns@) && q.spec_text() == text@
                && q.spec_language() == language),
            !(text@.len() > 0 && names_unique(texts(columns@))) ==> (r matches Err(e) && e
                == Error::spec_cbl_error(CouchbaseLiteError::InvalidQuery)),
    {
        if text.unicode_len() == 0 {
            return Err(Error::cbl_error(CouchbaseLiteError::InvalidQuery));
        }
        let ghost names = texts(columns@);
        let mut i: usize = 0;
        while i < columns.len()
            invariant
                i <= columns.len(),
                names == texts(columns@),
                forall|a: int, b: int| 0 <= a < b < i ==> #[trigger] names[a] != #[trigger] names[b],
            decreases columns.len() - i,
        {
            let mut j: usize = 0;
            while j < i
                invariant
                    j <= i < columns.len(),
                    names == texts(columns@),
                    forall|a: int| 0 <= a < j ==> #[trigger] names[a] != names[i as int],
                decreases i - j,
            {
                if same_text(columns[j].as_str(), columns[i].as_str()) {
                    assert(names[j as int] == names[i as int]);
                    return Err(Error::cbl_error(CouchbaseLiteError::InvalidQuery));
                }
                j += 1;
            }
            i += 1;
        }
        Ok(Query { language, text: text.to_owned(), columns })
    }

    /// The number of columns in each result.
    pub fn column_count(&self) -> (n: usize)
        ensures
            n == self.spec_columns().len(),
    {
        self.columns.len()
    }

    /// The name of the column `col`; `None` where there is no such column.
    pub fn column_name(&self, col: usize) -> (r: Option<&str>)
        ensures
            col < self.spec_columns().len() ==> (r matches Some(name) && name@
                == self.spec_columns()[col as int]),
            col >= self.spec_columns().len() ==> r is None,
    {
        if col < self.columns.len() {
            Some(self.columns[col].as_str())
        } else {
            None
        }
    }

    /// The names of the columns, in their order.
    pub fn column_names(&self) -> (names: Vec<&str>)
        ensures
            names@.len() == self.spec_columns().len(),
            forall|i: int| 0 <= i < names@.len() ==> (#[trigger] names@[i])@ == self.spec_columns()[i],
    {
        let mut names: Vec<&str> = Vec::new();
        let mut i: usize = 0;
        while i < self.columns.len()
            invariant
                i <= self.columns.len(),
                names@.len() == i,
                forall|k: int| 0 <= k < i ==> (#[trigger] names@[k])@ == self.columns@[k]@,
            decreases self.columns.len() - i,
        {
            names.push(self.columns[i].as_str());
            i += 1;
        }
        names
    }

    /// The text of the query.
    pub fn text(&self) -> (r: &str)
        ensures
            r@ == self.spec_text(),
    {
        self.text.as_str()
    }

    /// The results of one execution of the query: `rows` holds the values of
    /// each row in the order of the columns.
    pub fn results(&self, rows: Vec<MutableArray>) -> (r: ResultSet<'_>)
        ensures
            r.spec_columns() == self.spec_columns(),
            r.spec_rows() == rows_model(rows@),
            r.spec_position() == 0,
    {
        ResultSet { columns: &self.columns, rows, position: 0 }
    }
}

/// The values of the rows, as mathematics.
pub open spec fn rows_model(rows: Seq<MutableArray>) -> Seq<ValueModel> {
    Seq::new(rows.len(), |i: int| rows[i]@)
}

/// The rows of one execution of a query: a single pass, forward only.
#[derive(Debug)]
pub struct ResultSet<'q> {
    pub(crate) columns: &'q Vec<String>,
    pub(crate) rows: Vec<MutableArray>,
    pub(crate) position: usize,
}

/// A single row of the results of a query.
#[derive(Debug)]
pub struct Row<'r> {
    pub(crate) columns: &'r Vec<String>,
    pub(crate) values: &'r MutableArray,
}

impl<'q> ResultSet<'q> {
    /// The names of the columns.
    pub closed spec fn spec_columns(&self) -> Seq<Seq<char>> {
        texts(self.columns@)
    }

    /// The rows, each an array of the values of its columns.
    pub closed spec fn spec_rows(&self) -> Seq<ValueModel> {
        rows_model(self.rows@)
    }

    /// How many rows have been handed out.
    pub closed spec fn spec_position(&self) -> nat {
        if self.position <= self.rows@.len() {
            self.position as nat
        } else {
            self.rows@.len()
        }
    }

    /// The next row; `None` when all have been handed out. There is no way
    /// back.
    pub fn next(&mut self) -> (r: Option<Row<'_>>)
        ensures
            final(self).spec_columns() == old(self).spec_columns(),
            final(self).spec_rows() == old(self).spec_rows(),
            old(self).spec_position() < old(self).spec_rows().len() ==> {
                &&& r matches Some(row) && row.spec_values() == old(self).spec_rows()[old(self).spec_position() as int] && row.spec_columns() == old(self).spec_columns()
                &&& final(self).spec_position() == old(self).spec_position() + 1
            },
            old(self).spec_position() >= old(self).spec_rows().len() ==> {
                &&& r is None
                &&& final(self).spec_position() == old(self).spec_position()
            },
    {
        if self.position < self.rows.len() {
            let at = self.position;
            self.position = self.position + 1;
            Some(Row { columns: self.columns, values: &self.rows[at] })
        } else {
            None
        }
    }
}

/// The entries of a row as a dictionary: the value of each column under its
/// name, for the first `n` columns; a column without a value holds null.
pub open spec fn row_entries(columns: Seq<Seq<char>>, values: ValueModel, n: nat) -> Entries
    decreases n,
{
    if n == 0 {
        Seq::empty()
    } else {
        entries_put(
            row_entries(columns, values, (n - 1) as nat),
            columns[n - 1],
            storable(model_item(values, n - 1)),
        )
    }
}

impl<'r> Row<'r> {
    /// The names of the columns.
    pub closed spec fn spec_columns(&self) -> Seq<Seq<char>> {
        texts(self.columns@)
    }

    /// The values of the row, as an array in the order of the columns.
    pub closed spec fn spec_values(&self) -> ValueModel {
        self.values@
    }

    /// The value of the column at `index`, counted from 0; `Undefined` where
    /// there is no such column.
    pub fn get(&self, index: isize) -> (v: Value<'_>)
        ensures
            v@ == model_item(self.spec_values(), index as int),
    {
        if index < 0 {
            Value::undefined()
        } else {
            self.values.item(index as usize)
        }
    }

    /// The position of the column `key`; `None` where no column has that name.
    pub fn column_of(&self, key: &str) -> (r: Option<usize>)
        ensures
            r matches Some(i) ==> i < self.spec_columns().len() && self.spec_columns()[i as int]
                == key@ && (forall|j: int| 0 <= j < i ==> self.spec_columns()[j] != key@),
            r is None ==> !self.spec_columns().contains(key@),
    {
        let mut i: usize = 0;
        while i < self.columns.len()
            invariant
                i <= self.columns.len(),
                forall|j: int| 0 <= j < i ==> self.spec_columns()[j] != key@,
            decreases self.columns.len() - i,
        {
            if same_text(self.columns[i].as_str(), key) {
                return Some(i);
            }
            i += 1;
        }
        None
    }

    /// The value of the column `key`; `Undefined` where no column has that
    /// name.
    pub fn get_key(&self, key: &str) -> (v: Value<'_>)
        ensures
            self.spec_columns().contains(key@) ==> exists|i: int|
                0 <= i < self.spec_columns().len() && #[trigger] self.spec_columns()[i] == key@
                    && (forall|j: int| 0 <= j < i ==> self.spec_columns()[j] != key@) && v@
                    == model_item(self.spec_values(), i),
            !self.spec_columns().contains(key@) ==> v@ == ValueModel::Undefined,
    {
        match self.column_of(key) {
            Some(i) => self.values.item(i),
            None => Value::undefined(),
        }
    }

    /// The number of columns.
    pub fn column_count(&self) -> (n: isize)
        ensures
            self.spec_columns().len() <= isize::MAX ==> n == self.spec_columns().len(),
            self.spec_columns().len() > isize::MAX ==> n == isize::MAX,
    {
        if self.columns.len() <= isize::MAX as usize {
            self.columns.len() as isize
        } else {
            isize::MAX
        }
    }

    /// The name of the column `col`; `None` where there is no such column.
    pub fn column_name(&self, col: isize) -> (r: Option<&str>)
        ensures
            0 <= col < self.spec_columns().len() ==> (r matches Some(name) && name@
                == self.spec_columns()[col as int]),
            !(0 <= col < self.spec_columns().len()) ==> r is None,
    {
        if col >= 0 && (col as usize) < self.columns.len() {
            Some(self.columns[col as usize].as_str())
        } else {
            None
        }
    }

    /// All the values of the row, as an array in the order of the columns.
    pub fn as_array(&self) -> (r: Array<'_>)
        ensures
            r@ == self.spec_values(),
    {
        self.values.as_array()
    }

    /// All the values of the row, as a dictionary: the value of each column
    /// under its name.
    pub fn as_dict(&self) -> (r: MutableDict)
        requires
            model_wf(self.spec_values()),
        ensures
            r@ == ValueModel::Dict(
                row_entries(self.spec_columns(), self.spec_values(), self.spec_columns().len()),
            ),
            r.wf(),
    {
        let mut dict = MutableDict::new();
        let mut i: usize = 0;
        let ghost names = self.spec_columns();
        let ghost values = self.spec_values();
        proof {
            dict.lemma_view_is_dict();
        }
        while i < self.columns.len()
            invariant
                i <= self.columns.len(),
                names == self.spec_columns(),
                values == self.spec_values(),
                model_wf(values),
                dict.wf(),
                dict@ == ValueModel::Dict(row_entries(names, values, i as nat)),
            decreases self.columns.len() - i,
        {
            proof {
                dict.lemma_view_is_dict();
                self.values.lemma_view_is_array();
            }
            let value = self.values.item(i);
            assert(names[i as int] == self.columns@[i as int]@);
            dict.at(self.columns[i].as_str()).put_value(&value);
            proof {
                dict.lemma_view_is_dict();
            }
            i += 1;
        }
        dict
    }
}

} // verus!
