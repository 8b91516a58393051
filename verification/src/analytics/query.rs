use vstd::prelude::*;
use vstd::string::*;

use crate::analytics::dataset::{Value, ValueModel, column_position};
use crate::analytics::dataset::ColumnType;

verus! {

/// A filter on the rows of a dataset.
#[derive(Debug)]
pub enum Condition {
    /// The named column holds the given value.
    Equal(String, Value),
    Not(Box<Condition>),
    And(Box<Condition>, Box<Condition>),
    Or(Box<Condition>, Box<Condition>),
}

/// What a `Condition` says, as a mathematical value.
pub enum ConditionModel {
    Equal(Seq<char>, ValueModel),
    Not(Box<ConditionModel>),
    And(Box<ConditionModel>, Box<ConditionModel>),
    Or(Box<ConditionModel>, Box<ConditionModel>),
}

/// The model of a condition.
pub open spec fn condition_model(c: Condition) -> ConditionModel
    decreases c,
{
    match c {
        Condition::Equal(col, val) => ConditionModel::Equal(col@, val@),
        Condition::Not(inner) => ConditionModel::Not(Box::new(condition_model(*inner))),
        Condition::And(l, r) => ConditionModel::And(
            Box::new(condition_model(*l)),
            Box::new(condition_model(*r)),
        ),
        Condition::Or(l, r) => ConditionModel::Or(
            Box::new(condition_model(*l)),
            Box::new(condition_model(*r)),
        ),
    }
}

/// Whether `row`, read with the columns `cols`, satisfies `c`.
pub open spec fn condition_holds(
    c: Condition,
    cols: Seq<(Seq<char>, ColumnType)>,
    row: Seq<ValueModel>,
) -> bool
    decreases c,
{
    match c {
        Condition::Equal(col, val) => row[column_position(cols, col@)] == val@,
        Condition::Not(inner) => !condition_holds(*inner, cols, row),
        Condition::And(l, r) => condition_holds(*l, cols, row) && condition_holds(*r, cols, row),
        Condition::Or(l, r) => condition_holds(*l, cols, row) || condition_holds(*r, cols, row),
    }
}

/// Whether evaluating `c` on `row` only reads columns that exist.
/// Evaluation stops early: the right side of `And` is read only when the left side holds,
/// that of `Or` only when the left side does not.
pub open spec fn condition_defined(
    c: Condition,
    cols: Seq<(Seq<char>, ColumnType)>,
    row: Seq<ValueModel>,
) -> bool
    decreases c,
{
    match c {
        Condition::Equal(col, val) => column_position(cols, col@) >= 0,
        Condition::Not(inner) => condition_defined(*inner, cols, row),
        Condition::And(l, r) => condition_defined(*l, cols, row) && (condition_holds(
            *l,
            cols,
            row,
        ) ==> condition_defined(*r, cols, row)),
        Condition::Or(l, r) => condition_defined(*l, cols, row) && (!condition_holds(
            *l,
            cols,
            row,
        ) ==> condition_defined(*r, cols, row)),
    }
}

/// How the rows of one group are summed up.
#[derive(Debug)]
pub enum Aggregation {
    /// The number of rows.
    Count(String),
    /// The sum of the integers in the named column.
    Sum(String),
    /// That sum divided by the number of rows.
    Average(String),
}

/// What an `Aggregation` says, as a mathematical value.
pub enum AggregationModel {
    Count(Seq<char>),
    Sum(Seq<char>),
    Average(Seq<char>),
}

impl Aggregation {
    /// The model of the aggregation.
    pub open spec fn model(&self) -> AggregationModel {
        match self {
            Aggregation::Count(c) => AggregationModel::Count(c@),
            Aggregation::Sum(c) => AggregationModel::Sum(c@),
            Aggregation::Average(c) => AggregationModel::Average(c@),
        }
    }

    /// The column that the aggregation reads.
    pub open spec fn column(&self) -> Seq<char> {
        match self {
            Aggregation::Count(c) => c@,
            Aggregation::Sum(c) => c@,
            Aggregation::Average(c) => c@,
        }
    }

    /// The name of the column that holds the result: the kind, then the column in brackets.
    pub open spec fn result_column_name(&self) -> Seq<char> {
        match self {
            Aggregation::Count(c) => "Count("@ + c@ + ")"@,
            Aggregation::Sum(c) => "Sum("@ + c@ + ")"@,
            Aggregation::Average(c) => "Average("@ + c@ + ")"@,
        }
    }

    /// The name of the column that holds the result, such as `Count(grade)`.
    pub fn get_result_column_name(&self) -> (r: String)
        ensures
            r@ == self.result_column_name(),
    {
        let (kind, col) = match self {
            Aggregation::Count(c) => ("Count(", c),
            Aggregation::Sum(c) => ("Sum(", c),
            Aggregation::Average(c) => ("Average(", c),
        };
        let mut r = String::from_str(kind);
        r.append(col.as_str());
        r.append(")");
        r
    }
}

/// A query: keep the rows that satisfy a filter, group them by a column,
/// and sum up each group.
#[derive(Debug)]
pub struct Query {
    filter: Condition,
    group_by: String,
    aggregate: Aggregation,
}

impl Query {
    pub closed spec fn filter(&self) -> Condition {
        self.filter
    }

    pub closed spec fn group_by(&self) -> String {
        self.group_by
    }

    pub closed spec fn aggregate(&self) -> Aggregation {
        self.aggregate
    }

    pub fn new(filter: Condition, group_by: String, aggregate: Aggregation) -> (r: Query)
        ensures
            r.filter() == filter,
            r.group_by() == group_by,
            r.aggregate() == aggregate,
    {
        Query { filter, group_by, aggregate }
    }

    pub fn get_filter(&self) -> (r: &Condition)
        ensures
            *r == self.filter(),
    {
        &self.filter
    }

    pub fn get_group_by(&self) -> (r: &String)
        ensures
            *r == self.group_by(),
    {
        &self.group_by
    }

    pub fn get_aggregate(&self) -> (r: &Aggregation)
        ensures
            *r == self.aggregate(),
    {
        &self.aggregate
    }
}

} // verus!
