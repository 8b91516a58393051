use vstd::prelude::*;

verus! {

/// The type of the values stored in a column.
#[derive(Clone, Copy, Debug, PartialEq, Eq, Structural)]
pub enum ColumnType {
    Integer,
    String,
}

/// A single cell of a dataset.
#[derive(Debug)]
pub enum Value {
    Integer(i32),
    String(String),
}

/// What a `Value` holds, as a mathematical value.
pub enum ValueModel {
    Integer(i32),
    Text(Seq<char>),
}

impl View for Value {
    type V = ValueModel;

    open spec fn view(&self) -> ValueModel {
        match self {
            Value::Integer(i) => ValueModel::Integer(*i),
            Value::String(s) => ValueModel::Text(s@),
        }
    }
}

impl Clone for Value {
    fn clone(&self) -> (r: Self)
        ensures
            r@ == self@,
    {
        match self {
            Value::Integer(i) => Value::Integer(*i),
            Value::String(s) => Value::String(s.clone()),
        }
    }
}

impl PartialEq for Value {
    fn eq(&self, other: &Value) -> (r: bool) {
        match (self, other) {
            (Value::Integer(a), Value::Integer(b)) => *a == *b,
            (Value::String(a), Value::String(b)) => *a == *b,
            _ => false,
        }
    }
}

impl vstd::std_specs::cmp::PartialEqSpecImpl for Value {
    open spec fn obeys_eq_spec() -> bool {
        true
    }

    open spec fn eq_spec(&self, other: &Value) -> bool {
        self@ == other@
    }
}

impl Value {
    /// Compares two values by what they hold.
    pub fn same_as(&self, other: &Value) -> (r: bool)
        ensures
            r == (self@ == other@),
    {
        match (self, other) {
            (Value::Integer(a), Value::Integer(b)) => *a == *b,
            (Value::String(a), Value::String(b)) => *a == *b,
            _ => false,
        }
    }
}

/// The model of a sequence of values.
pub open spec fn values_model(v: Seq<Value>) -> Seq<ValueModel> {
    v.map_values(|x: Value| x@)
}

/// One row of a dataset.
#[derive(Debug)]
pub struct Row {
    values: Vec<Value>,
}

impl View for Row {
    type V = Seq<ValueModel>;

    closed spec fn view(&self) -> Seq<ValueModel> {
        values_model(self.values@)
    }
}

/// Copies a vector of values, keeping what each holds.
pub fn copy_values(v: &Vec<Value>) -> (r: Vec<Value>)
    ensures
        values_model(r@) == values_model(v@),
{
    let mut r: Vec<Value> = Vec::new();
    let mut i: usize = 0;
    while i < v.len()
        invariant
            i <= v.len(),
            r@.len() == i,
            forall|k: int| 0 <= k < i ==> (#[trigger] r@[k])@ == v@[k]@,
        decreases v.len() - i,
    {
        let x = v[i].clone();
        r.push(x);
        i = i + 1;
    }
    assert(values_model(r@) =~= values_model(v@));
    r
}

impl Clone for Row {
    fn clone(&self) -> (r: Self)
        ensures
            r@ == self@,
    {
        Row { values: copy_values(&self.values) }
    }
}

impl Row {
    /// A row holding the given values, in order.
    pub fn new(values: Vec<Value>) -> (r: Row)
        ensures
            r@ == values_model(values@),
    {
        Row { values }
    }

    /// The value in the given position.
    pub fn get_value(&self, index: usize) -> (r: &Value)
        requires
            index < self@.len(),
        ensures
            r@ == self@[index as int],
    {
        &self.values[index]
    }

    /// The number of values in the row.
    pub fn len(&self) -> (r: usize)
        ensures
            r == self@.len(),
    {
        self.values.len()
    }
}

/// The model of a list of columns: name and type of each.
pub open spec fn columns_model(c: Seq<(String, ColumnType)>) -> Seq<(Seq<char>, ColumnType)> {
    c.map_values(|x: (String, ColumnType)| (x.0@, x.1))
}

/// The model of a list of rows.
pub open spec fn rows_model(r: Seq<Row>) -> Seq<Seq<ValueModel>> {
    r.map_values(|x: Row| x@)
}

/// What a dataset holds: its columns and its rows, in order.
pub struct DatasetModel {
    pub columns: Seq<(Seq<char>, ColumnType)>,
    pub rows: Seq<Seq<ValueModel>>,
}

/// The position of the first column named `name` at or after `from`, or -1 if there is none.
pub open spec fn column_position_from(
    cols: Seq<(Seq<char>, ColumnType)>,
    name: Seq<char>,
    from: int,
) -> int
    decreases cols.len() - from,
{
    if from < 0 || from >= cols.len() {
        -1
    } else if cols[from].0 == name {
        from
    } else {
        column_position_from(cols, name, from + 1)
    }
}

/// The position of the first column named `name`, or -1 if there is none.
pub open spec fn column_position(cols: Seq<(Seq<char>, ColumnType)>, name: Seq<char>) -> int {
    column_position_from(cols, name, 0)
}

/// Skipping columns with other names does not change the first match.
pub proof fn lemma_column_position_skip(
    cols: Seq<(Seq<char>, ColumnType)>,
    name: Seq<char>,
    from: int,
    to: int,
)
    requires
        0 <= from <= to <= cols.len(),
        forall|j: int| from <= j < to ==> cols[j].0 != name,
    ensures
        column_position_from(cols, name, from) == column_position_from(cols, name, to),
    decreases to - from,
{
    if from < to {
        lemma_column_position_skip(cols, name, from + 1, to);
    }
}

/// The first match, when there is one, is a column of that name.
pub proof fn lemma_column_position_bounds(
    cols: Seq<(Seq<char>, ColumnType)>,
    name: Seq<char>,
    from: int,
)
    requires
        0 <= from,
    ensures
        -1 <= column_position_from(cols, name, from) < cols.len(),
        column_position_from(cols, name, from) >= 0 ==> cols[column_position_from(
            cols,
            name,
            from,
        )].0 == name && column_position_from(cols, name, from) >= from,
        (exists|j: int| from <= j < cols.len() && cols[j].0 == name) ==> column_position_from(
            cols,
            name,
            from,
        ) >= 0,
    decreases cols.len() - from,
{
    if from < cols.len() {
        lemma_column_position_bounds(cols, name, from + 1);
    }
}

/// Whether every row holds one value per column.
pub open spec fn rows_fit(d: DatasetModel) -> bool {
    forall|i: int| 0 <= i < d.rows.len() ==> (#[trigger] d.rows[i]).len() == d.columns.len()
}

/// A table: named, typed columns and a list of rows, each holding one value per column.
pub struct Dataset {
    columns: Vec<(String, ColumnType)>,
    rows: Vec<Row>,
}

impl View for Dataset {
    type V = DatasetModel;

    closed spec fn view(&self) -> DatasetModel {
        DatasetModel { columns: columns_model(self.columns@), rows: rows_model(self.rows@) }
    }
}

/// Copies a list of columns.
pub fn copy_columns(c: &Vec<(String, ColumnType)>) -> (r: Vec<(String, ColumnType)>)
    ensures
        columns_model(r@) == columns_model(c@),
{
    let mut r: Vec<(String, ColumnType)> = Vec::new();
    let mut i: usize = 0;
    while i < c.len()
        invariant
            i <= c.len(),
            r@.len() == i,
            forall|k: int| 0 <= k < i ==> (#[trigger] r@[k]).0@ == c@[k].0@ && r@[k].1 == c@[k].1,
        decreases c.len() - i,
    {
        let name = c[i].0.clone();
        let typ = c[i].1;
        r.push((name, typ));
        i = i + 1;
    }
    assert(columns_model(r@) =~= columns_model(c@));
    r
}

impl Dataset {
    /// Every row holds one value per column.
    #[verifier::type_invariant]
    closed spec fn inv(&self) -> bool {
        rows_fit(self@)
    }

    /// An empty dataset with the given columns.
    pub fn new(columns: Vec<(String, ColumnType)>) -> (r: Dataset)
        ensures
            r@.columns == columns_model(columns@),
            r@.rows == Seq::<Seq<ValueModel>>::empty(),
    {
        let r = Dataset { columns, rows: Vec::new() };
        assert(r@.rows =~= Seq::<Seq<ValueModel>>::empty());
        r
    }

    /// The columns of the dataset.
    pub fn columns(&self) -> (r: &Vec<(String, ColumnType)>)
        ensures
            columns_model(r@) == self@.columns,
    {
        &self.columns
    }

    /// The rows of the dataset, in order.
    pub fn rows(&self) -> (r: &Vec<Row>)
        ensures
            rows_model(r@) == self@.rows,
            rows_fit(self@),
    {
        proof {
            use_type_invariant(self);
        }
        &self.rows
    }

    /// Takes the rows out of the dataset.
    pub fn into_rows(self) -> (r: Vec<Row>)
        ensures
            rows_model(r@) == self@.rows,
            rows_fit(self@),
    {
        proof {
            use_type_invariant(&self);
        }
        self.rows
    }

    /// The number of rows.
    pub fn len(&self) -> (r: usize)
        ensures
            r == self@.rows.len(),
            rows_fit(self@),
    {
        proof {
            use_type_invariant(self);
        }
        self.rows.len()
    }

    /// Appends a row, which holds one value per column, at the end.
    pub fn add_row(&mut self, row: Row)
        requires
            row@.len() == old(self)@.columns.len(),
        ensures
            final(self)@.columns == old(self)@.columns,
            final(self)@.rows == old(self)@.rows.push(row@),
    {
        proof {
            use_type_invariant(&*self);
        }
        let ghost old_rows = old(self)@.rows;
        let ghost cols = old(self)@.columns;
        assert(rows_fit(old(self)@));
        let mut rows: Vec<Row> = Vec::new();
        std::mem::swap(&mut rows, &mut self.rows);
        assert(columns_model(self.columns@) == cols);
        assert(rows_model(rows@) == old_rows);
        rows.push(row);
        let ghost new_rows = rows_model(rows@);
        assert(new_rows =~= old_rows.push(row@));
        assert forall|i: int| 0 <= i < new_rows.len() implies (#[trigger] new_rows[i]).len()
            == cols.len() by {
            if i < old_rows.len() {
                assert(new_rows[i] == old_rows[i]);
            }
        }
        self.rows = rows;
    }

    /// The position of the first column with the given name.
    pub fn column_index(&self, name: &String) -> (r: usize)
        requires
            column_position(self@.columns, name@) >= 0,
        ensures
            r == column_position(self@.columns, name@),
            r < self@.columns.len(),
    {
        let ghost cols = self@.columns;
        let mut i: usize = 0;
        proof {
            lemma_column_position_bounds(cols, name@, 0);
        }
        while i < self.columns.len()
            invariant
                i <= self.columns.len(),
                cols == columns_model(self.columns@),
                column_position(cols, name@) >= i,
                column_position(cols, name@) >= 0,
                forall|j: int| 0 <= j < i ==> cols[j].0 != name@,
            decreases self.columns.len() - i,
        {
            if self.columns[i].0 == *name {
                proof {
                    lemma_column_position_skip(cols, name@, 0, i as int);
                }
                return i;
            }
            proof {
                lemma_column_position_skip(cols, name@, 0, i as int);
                lemma_column_position_skip(cols, name@, 0, i + 1);
                lemma_column_position_bounds(cols, name@, i + 1);
            }
            i = i + 1;
        }
        proof {
            lemma_column_position_bounds(cols, name@, 0);
        }
        0
    }

    /// The type of the first column with the given name.
    pub fn column_type(&self, name: &String) -> (r: &ColumnType)
        requires
            column_position(self@.columns, name@) >= 0,
        ensures
            *r == self@.columns[column_position(self@.columns, name@)].1,
    {
        let i = self.column_index(name);
        &self.columns[i].1
    }
}

} // verus!
