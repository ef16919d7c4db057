//! Tabular data: typed columns and rows of values.
use vstd::prelude::*;

verus! {

/// The type that a column declares for its values.
#[derive(Clone, Copy, Debug, PartialEq, Eq, Structural)]
pub enum ColumnType {
    Integer,
    String,
}

/// One cell of a dataset.
#[derive(Debug, PartialEq, Eq, Hash)]
pub enum Value {
    Integer(i32),
    String(String),
}

/// The mathematical content of a `Value`.
pub enum Datum {
    Int(i32),
    Text(Seq<char>),
}

impl View for Value {
    type V = Datum;

    open spec fn view(&self) -> Datum {
        match self {
            Value::Integer(i) => Datum::Int(*i),
            Value::String(s) => Datum::Text(s@),
        }
    }
}

impl Value {
    /// Compares two values by content.
    pub fn same_as(&self, other: &Value) -> (r: bool)
        ensures
            r == (self@ == other@),
    {
        match (self, other) {
            (Value::Integer(a), Value::Integer(b)) => *a == *b,
            (Value::String(a), Value::String(b)) => a.eq(b),
            _ => false,
        }
    }

    /// A copy of the value.
    pub fn duplicate(&self) -> (r: Value)
        ensures
            r@ == self@,
    {
        match self {
            Value::Integer(i) => Value::Integer(*i),
            Value::String(s) => Value::String(s.clone()),
        }
    }
}


/// A row of values, one per column.
#[derive(Debug, PartialEq, Eq)]
pub struct Row {
    values: Vec<Value>,
}

impl View for Row {
    type V = Seq<Datum>;

    closed spec fn view(&self) -> Seq<Datum> {
        self.values@.map_values(|v: Value| v@)
    }
}

impl Row {
    pub fn new(values: Vec<Value>) -> (r: Row)
        ensures
            r@ == values@.map_values(|v: Value| v@),
    {
        Row { values }
    }

    /// The number of values in the row.
    pub fn len(&self) -> (n: usize)
        ensures
            n == self@.len(),
    {
        self.values.len()
    }

    /// The value at position `i`.
    pub fn get_value(&self, i: usize) -> (v: &Value)
        requires
            i < self@.len(),
        ensures
            v@ == self@[i as int],
    {
        &self.values[i]
    }

    /// A copy of the row.
    pub fn duplicate(&self) -> (r: Row)
        ensures
            r@ == self@,
    {
        let mut values: Vec<Value> = Vec::new();
        let n = self.values.len();
        for i in 0..n
            invariant
                n == self.values@.len(),
                values@.len() == i,
                forall|k: int| 0 <= k < i ==> #[trigger] values@[k]@ == self.values@[k]@,
        {
            values.push(self.values[i].duplicate());
        }
        let r = Row { values };
        assert(r@ =~= self@);
        r
    }
}

/// A column: its name and type.
pub open spec fn column_view(c: (String, ColumnType)) -> (Seq<char>, ColumnType) {
    (c.0@, c.1)
}

/// The content of a dataset: its columns and its rows.
#[verifier::ext_equal]
pub struct Table {
    pub columns: Seq<(Seq<char>, ColumnType)>,
    pub rows: Seq<Seq<Datum>>,
}

/// Whether every row of `t` has one value per column.
pub open spec fn rows_full(t: Table) -> bool {
    forall|k: int| 0 <= k < t.rows.len() ==> (#[trigger] t.rows[k]).len() == t.columns.len()
}

/// A dataset: named, typed columns and a sequence of rows, each row with one
/// value per column.
#[derive(Debug, PartialEq, Eq)]
pub struct Dataset {
    columns: Vec<(String, ColumnType)>,
    rows: Vec<Row>,
}

impl View for Dataset {
    type V = Table;

    closed spec fn view(&self) -> Table {
        Table {
            columns: self.columns@.map_values(|c: (String, ColumnType)| column_view(c)),
            rows: self.rows@.map_values(|r: Row| r@),
        }
    }
}

/// The position of the first column named `name` at or after `k`, or the
/// number of columns when there is none.
pub open spec fn position_from(cols: Seq<(Seq<char>, ColumnType)>, name: Seq<char>, k: int) -> int
    decreases cols.len() - k,
{
    if k >= cols.len() {
        cols.len() as int
    } else if cols[k].0 == name {
        k
    } else {
        position_from(cols, name, k + 1)
    }
}

/// The position of the first column named `name`, or the number of columns
/// when there is none.
pub open spec fn column_position(cols: Seq<(Seq<char>, ColumnType)>, name: Seq<char>) -> int {
    position_from(cols, name, 0)
}

/// Whether some column is named `name`.
pub open spec fn has_column(cols: Seq<(Seq<char>, ColumnType)>, name: Seq<char>) -> bool {
    column_position(cols, name) < cols.len()
}

pub proof fn lemma_position_from_bounds(cols: Seq<(Seq<char>, ColumnType)>, name: Seq<char>, k: int)
    requires
        0 <= k <= cols.len(),
    ensures
        k <= position_from(cols, name, k) <= cols.len(),
        position_from(cols, name, k) < cols.len() ==> cols[position_from(cols, name, k)].0 == name,
        forall|m: int| k <= m < position_from(cols, name, k) ==> cols[m].0 != name,
    decreases cols.len() - k,
{
    if k < cols.len() && cols[k].0 != name {
        lemma_position_from_bounds(cols, name, k + 1);
    }
}

pub proof fn lemma_column_position(cols: Seq<(Seq<char>, ColumnType)>, name: Seq<char>)
    ensures
        0 <= column_position(cols, name) <= cols.len(),
        has_column(cols, name) ==> cols[column_position(cols, name)].0 == name,
        forall|m: int| 0 <= m < column_position(cols, name) ==> cols[m].0 != name,
        !has_column(cols, name) ==> forall|m: int| 0 <= m < cols.len() ==> cols[m].0 != name,
{
    lemma_position_from_bounds(cols, name, 0);
}

impl Dataset {
    /// Every row has one value per column.
    #[verifier::type_invariant]
    pub open spec fn well_formed(self) -> bool {
        rows_full(self@)
    }

    /// An empty dataset with the given columns.
    pub fn new(columns: Vec<(String, ColumnType)>) -> (d: Dataset)
        ensures
            d@.columns == columns@.map_values(|c: (String, ColumnType)| column_view(c)),
            d@.rows == Seq::<Seq<Datum>>::empty(),
    {
        let d = Dataset { columns, rows: Vec::new() };
        assert(d@.rows =~= Seq::<Seq<Datum>>::empty());
        d
    }

    /// The columns of the dataset.
    pub fn columns(&self) -> (c: &Vec<(String, ColumnType)>)
        ensures
            c@.map_values(|c: (String, ColumnType)| column_view(c)) == self@.columns,
    {
        &self.columns
    }

    /// A copy of the column list.
    pub fn copy_columns(&self) -> (c: Vec<(String, ColumnType)>)
        ensures
            c@.map_values(|c: (String, ColumnType)| column_view(c)) == self@.columns,
    {
        let mut out: Vec<(String, ColumnType)> = Vec::new();
        let n = self.columns.len();
        for i in 0..n
            invariant
                n == self.columns@.len(),
                out@.len() == i,
                forall|k: int| 0 <= k < i ==> #[trigger] column_view(out@[k]) == column_view(self.columns@[k]),
        {
            let name = self.columns[i].0.clone();
            out.push((name, self.columns[i].1));
        }
        assert(out@.map_values(|c: (String, ColumnType)| column_view(c)) =~= self@.columns);
        out
    }

    /// The rows of the dataset, in order.
    pub fn rows(&self) -> (r: &Vec<Row>)
        ensures
            r@.map_values(|r: Row| r@) == self@.rows,
    {
        &self.rows
    }

    /// The number of rows.
    pub fn len(&self) -> (n: usize)
        ensures
            n == self@.rows.len(),
    {
        self.rows.len()
    }

    /// Appends a row, which has one value per column.
    pub fn add_row(&mut self, row: Row)
        requires
            row@.len() == old(self)@.columns.len(),
        ensures
            final(self)@.columns == old(self)@.columns,
            final(self)@.rows == old(self)@.rows.push(row@),
    {
        proof {
            use_type_invariant(&*self);
        }
        let ghost before = self@;
        let mut rows: Vec<Row> = Vec::new();
        std::mem::swap(&mut rows, &mut self.rows);
        rows.push(row);
        assert(rows@.map_values(|r: Row| r@) =~= before.rows.push(row@));
        self.rows = rows;
        assert(self@.rows =~= before.rows.push(row@));
    }

    /// The position of the first column named `name`.
    pub fn column_index(&self, name: &String) -> (i: usize)
        requires
            has_column(self@.columns, name@),
        ensures
            i == column_position(self@.columns, name@),
    {
        let n = self.columns.len();
        let mut i: usize = 0;
        while i < n
            invariant
                n == self.columns@.len(),
                0 <= i <= n,
                has_column(self@.columns, name@),
                position_from(self@.columns, name@, i as int) == column_position(self@.columns, name@),
            decreases n - i,
        {
            assert(self@.columns[i as int] == column_view(self.columns@[i as int]));
            if self.columns[i].0.eq(name) {
                return i;
            }
            i = i + 1;
        }
        proof {
            lemma_column_position(self@.columns, name@);
        }
        i
    }

    /// The type of the first column named `name`.
    pub fn column_type(&self, name: &String) -> (t: &ColumnType)
        requires
            has_column(self@.columns, name@),
        ensures
            *t == self@.columns[column_position(self@.columns, name@)].1,
    {
        proof {
            lemma_column_position(self@.columns, name@);
        }
        let i = self.column_index(name);
        &self.columns[i].1
    }
}

} // verus!
