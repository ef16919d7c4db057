//! Queries over a dataset: a filter condition, a grouping column and an
//! aggregation.
use vstd::prelude::*;
use crate::dataset::{Datum, Value};

verus! {

/// A condition on the values of a row.
#[derive(Debug, PartialEq, Eq)]
pub enum Condition {
    /// The named column holds the given value.
    Equal(String, Value),
    Not(Box<Condition>),
    And(Box<Condition>, Box<Condition>),
    Or(Box<Condition>, Box<Condition>),
}

/// How the rows of a group are reduced to one integer.
#[derive(Debug, PartialEq, Eq)]
pub enum Aggregation {
    /// The number of rows.
    Count(String),
    /// The sum of the named integer column.
    Sum(String),
    /// The mean, truncated toward zero, of the named integer column.
    Average(String),
}

/// The name of the column that holds the aggregated values: the operation in
/// capitals followed by the aggregated column in parentheses.
pub open spec fn result_column_name(a: Aggregation) -> Seq<char> {
    match a {
        Aggregation::Count(c) => "COUNT("@ + c@ + ")"@,
        Aggregation::Sum(c) => "SUM("@ + c@ + ")"@,
        Aggregation::Average(c) => "AVERAGE("@ + c@ + ")"@,
    }
}

impl Aggregation {
    /// The name of the column that holds the result of the aggregation.
    pub fn get_result_column_name(&self) -> (name: String)
        ensures
            name@ == result_column_name(*self),
    {
        let (mut name, col) = match self {
            Aggregation::Count(c) => (String::from_str("COUNT("), c),
            Aggregation::Sum(c) => (String::from_str("SUM("), c),
            Aggregation::Average(c) => (String::from_str("AVERAGE("), c),
        };
        name.append(col.as_str());
        name.append(")");
        name
    }
}

/// A query: keep the rows that satisfy `filter`, group them by the value of
/// the column `group_by`, and reduce each group with `aggregate`.
#[derive(Debug, PartialEq, Eq)]
pub struct Query {
    pub filter: Condition,
    pub group_by: String,
    pub aggregate: Aggregation,
}

impl Query {
    pub fn new(filter: Condition, group_by: String, aggregate: Aggregation) -> (q: Query)
        ensures
            q.filter == filter,
            q.group_by == group_by,
            q.aggregate == aggregate,
    {
        Query { filter, group_by, aggregate }
    }

    pub fn get_filter(&self) -> (c: &Condition)
        ensures
            *c == self.filter,
    {
        &self.filter
    }

    pub fn get_group_by(&self) -> (g: &String)
        ensures
            *g == self.group_by,
    {
        &self.group_by
    }

    pub fn get_aggregate(&self) -> (a: &Aggregation)
        ensures
            *a == self.aggregate,
    {
        &self.aggregate
    }
}


/// The content of a condition.
pub enum CondModel {
    Equal(Seq<char>, Datum),
    Not(Box<CondModel>),
    And(Box<CondModel>, Box<CondModel>),
    Or(Box<CondModel>, Box<CondModel>),
}

/// The content of an aggregation.
pub enum AggModel {
    Count(Seq<char>),
    Sum(Seq<char>),
    Average(Seq<char>),
}

/// The content of a query.
pub struct QueryModel {
    pub filter: CondModel,
    pub group_by: Seq<char>,
    pub aggregate: AggModel,
}

/// The content of condition `c`.
pub open spec fn cond_model(c: Condition) -> CondModel
    decreases c,
{
    match c {
        Condition::Equal(name, v) => CondModel::Equal(name@, v@),
        Condition::Not(inner) => CondModel::Not(Box::new(cond_model(*inner))),
        Condition::And(l, r) => CondModel::And(Box::new(cond_model(*l)), Box::new(cond_model(*r))),
        Condition::Or(l, r) => CondModel::Or(Box::new(cond_model(*l)), Box::new(cond_model(*r))),
    }
}

/// The content of aggregation `a`.
pub open spec fn agg_model(a: Aggregation) -> AggModel {
    match a {
        Aggregation::Count(c) => AggModel::Count(c@),
        Aggregation::Sum(c) => AggModel::Sum(c@),
        Aggregation::Average(c) => AggModel::Average(c@),
    }
}

/// The content of query `q`.
pub open spec fn query_model(q: Query) -> QueryModel {
    QueryModel { filter: cond_model(q.filter), group_by: q.group_by@, aggregate: agg_model(q.aggregate) }
}

} // verus!
