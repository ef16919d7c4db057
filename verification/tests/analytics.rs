use coursework::analytics::{
    aggregate_dataset, aggregate_group, check_condition, compute_query_on_dataset, filter_dataset,
    group_by_dataset,
};
use coursework::dataset::{ColumnType, Dataset, Row, Value};
use coursework::query::{Aggregation, Condition, Query};

fn s(x: &str) -> String {
    x.to_string()
}

fn people() -> Dataset {
    let mut d = Dataset::new(vec![
        (s("name"), ColumnType::String),
        (s("city"), ColumnType::String),
        (s("age"), ColumnType::Integer),
    ]);
    d.add_row(Row::new(vec![Value::String(s("ann")), Value::String(s("boston")), Value::Integer(30)]));
    d.add_row(Row::new(vec![Value::String(s("bob")), Value::String(s("nyc")), Value::Integer(-7)]));
    d.add_row(Row::new(vec![Value::String(s("cat")), Value::String(s("boston")), Value::Integer(5)]));
    d.add_row(Row::new(vec![Value::String(s("dan")), Value::String(s("nyc")), Value::Integer(0)]));
    d.add_row(Row::new(vec![Value::String(s("eve")), Value::String(s("la")), Value::Integer(12)]));
    d
}

fn eq(col: &str, v: Value) -> Condition {
    Condition::Equal(s(col), v)
}

#[test]
fn check_condition_equal_not_and_or() {
    let d = people();
    let row = &d.rows()[0];
    assert!(check_condition(row, &d, &eq("city", Value::String(s("boston")))));
    assert!(!check_condition(row, &d, &eq("city", Value::String(s("nyc")))));
    assert!(!check_condition(row, &d, &eq("age", Value::String(s("30")))));
    assert!(check_condition(row, &d, &Condition::Not(Box::new(eq("city", Value::String(s("nyc")))))));
    let both = Condition::And(
        Box::new(eq("city", Value::String(s("boston")))),
        Box::new(eq("age", Value::Integer(30))),
    );
    assert!(check_condition(row, &d, &both));
    let either = Condition::Or(
        Box::new(eq("city", Value::String(s("nyc")))),
        Box::new(eq("age", Value::Integer(31))),
    );
    assert!(!check_condition(row, &d, &either));
}

#[test]
fn check_condition_short_circuits_on_missing_column() {
    // The right side names no column; it is never read because the left decides.
    let d = people();
    let row = &d.rows()[1];
    let c = Condition::Or(
        Box::new(eq("city", Value::String(s("nyc")))),
        Box::new(eq("missing", Value::Integer(1))),
    );
    assert!(check_condition(row, &d, &c));
}

#[test]
fn filter_dataset_keeps_matching_rows_in_order() {
    let d = people();
    let f = filter_dataset(&d, &eq("city", Value::String(s("nyc"))));
    assert_eq!(f.columns(), d.columns());
    assert_eq!(f.len(), 2);
    assert_eq!(f.rows()[0].get_value(0), &Value::String(s("bob")));
    assert_eq!(f.rows()[1].get_value(0), &Value::String(s("dan")));
}

#[test]
fn filter_with_condition_and_its_negation_splits_rows() {
    let d = people();
    let c = eq("city", Value::String(s("boston")));
    let yes = filter_dataset(&d, &c);
    let no = filter_dataset(&d, &Condition::Not(Box::new(eq("city", Value::String(s("boston"))))));
    assert_eq!(yes.len() + no.len(), d.len());
    let twice = filter_dataset(&yes, &c);
    assert_eq!(twice, yes);
}

#[test]
fn group_by_dataset_groups_in_first_seen_order() {
    let d = people();
    let groups = group_by_dataset(d, &s("city"));
    assert_eq!(groups.len(), 3);
    assert_eq!(groups[0].0, Value::String(s("boston")));
    assert_eq!(groups[1].0, Value::String(s("nyc")));
    assert_eq!(groups[2].0, Value::String(s("la")));
    assert_eq!(groups[0].1.len(), 2);
    assert_eq!(groups[1].1.len(), 2);
    assert_eq!(groups[2].1.len(), 1);
    assert_eq!(groups[0].1.rows()[1].get_value(0), &Value::String(s("cat")));
    let total: usize = groups.iter().map(|g| g.1.len()).sum();
    assert_eq!(total, 5);
}

#[test]
fn aggregate_count_sum_average() {
    let d = people();
    let groups = group_by_dataset(d, &s("city"));
    let counts = aggregate_dataset(groups, &Aggregation::Count(s("name")));
    assert_eq!(counts[0], (Value::String(s("boston")), Value::Integer(2)));
    assert_eq!(counts[1], (Value::String(s("nyc")), Value::Integer(2)));
    assert_eq!(counts[2], (Value::String(s("la")), Value::Integer(1)));

    let groups = group_by_dataset(people(), &s("city"));
    let sums = aggregate_dataset(groups, &Aggregation::Sum(s("age")));
    assert_eq!(sums[0].1, Value::Integer(35));
    assert_eq!(sums[1].1, Value::Integer(-7));
    assert_eq!(sums[2].1, Value::Integer(12));

    let groups = group_by_dataset(people(), &s("city"));
    let avgs = aggregate_dataset(groups, &Aggregation::Average(s("age")));
    assert_eq!(avgs[0].1, Value::Integer(17));
    // -7 / 2 rounds toward zero.
    assert_eq!(avgs[1].1, Value::Integer(-3));
    assert_eq!(avgs[2].1, Value::Integer(12));
}

#[test]
fn average_of_empty_group_is_zero() {
    let d = Dataset::new(vec![(s("age"), ColumnType::Integer)]);
    assert_eq!(aggregate_group(&d, &Aggregation::Average(s("age"))), Value::Integer(0));
    assert_eq!(aggregate_group(&d, &Aggregation::Count(s("age"))), Value::Integer(0));
    assert_eq!(aggregate_group(&d, &Aggregation::Sum(s("age"))), Value::Integer(0));
}

#[test]
fn result_column_names() {
    assert_eq!(Aggregation::Count(s("x")).get_result_column_name(), "COUNT(x)");
    assert_eq!(Aggregation::Sum(s("age")).get_result_column_name(), "SUM(age)");
    assert_eq!(Aggregation::Average(s("a b")).get_result_column_name(), "AVERAGE(a b)");
}

#[test]
fn compute_query_on_dataset_filters_groups_and_aggregates() {
    let d = people();
    let q = Query::new(
        Condition::Not(Box::new(eq("name", Value::String(s("eve"))))),
        s("city"),
        Aggregation::Sum(s("age")),
    );
    let r = compute_query_on_dataset(&d, &q);
    assert_eq!(
        r.columns(),
        &vec![(s("city"), ColumnType::String), (s("SUM(age)"), ColumnType::Integer)]
    );
    assert_eq!(r.len(), 2);
    assert_eq!(r.rows()[0], Row::new(vec![Value::String(s("boston")), Value::Integer(35)]));
    assert_eq!(r.rows()[1], Row::new(vec![Value::String(s("nyc")), Value::Integer(-7)]));
}

#[test]
fn compute_query_with_nothing_kept_is_empty() {
    let d = people();
    let q = Query::new(eq("city", Value::String(s("paris"))), s("city"), Aggregation::Count(s("name")));
    let r = compute_query_on_dataset(&d, &q);
    assert_eq!(r.len(), 0);
    assert_eq!(r.columns().len(), 2);
}

#[test]
fn column_lookup() {
    let d = people();
    assert_eq!(d.column_index(&s("city")), 1);
    assert_eq!(d.column_type(&s("age")), &ColumnType::Integer);
}

#[test]
fn counts_add_up_to_the_kept_rows() {
    let d = people();
    let q = Query::new(
        Condition::Not(Box::new(eq("name", Value::String(s("bob"))))),
        s("city"),
        Aggregation::Count(s("name")),
    );
    let r = compute_query_on_dataset(&d, &q);
    let total: i32 = r
        .rows()
        .iter()
        .map(|row| match row.get_value(1) {
            Value::Integer(n) => *n,
            _ => 0,
        })
        .sum();
    assert_eq!(total, 4);
}

#[test]
fn conditions_obey_de_morgan_and_double_negation() {
    let d = people();
    let a = || eq("city", Value::String(s("boston")));
    let b = || eq("age", Value::Integer(5));
    for row in d.rows() {
        let not_and = Condition::Not(Box::new(Condition::And(Box::new(a()), Box::new(b()))));
        let or_nots = Condition::Or(Box::new(Condition::Not(Box::new(a()))), Box::new(Condition::Not(Box::new(b()))));
        assert_eq!(check_condition(row, &d, &not_and), check_condition(row, &d, &or_nots));
        let not_or = Condition::Not(Box::new(Condition::Or(Box::new(a()), Box::new(b()))));
        let and_nots = Condition::And(Box::new(Condition::Not(Box::new(a()))), Box::new(Condition::Not(Box::new(b()))));
        assert_eq!(check_condition(row, &d, &not_or), check_condition(row, &d, &and_nots));
        let not_not = Condition::Not(Box::new(Condition::Not(Box::new(a()))));
        assert_eq!(check_condition(row, &d, &not_not), check_condition(row, &d, &a()));
    }
}

#[test]
fn filtering_twice_is_filtering_by_the_conjunction() {
    let d = people();
    let a = || eq("city", Value::String(s("boston")));
    let b = || Condition::Not(Box::new(eq("age", Value::Integer(5))));
    let twice = filter_dataset(&filter_dataset(&d, &a()), &b());
    let both = filter_dataset(&d, &Condition::And(Box::new(a()), Box::new(b())));
    assert_eq!(twice, both);
    assert_eq!(both.len(), 1);
    let once = filter_dataset(&d, &a());
    assert_eq!(filter_dataset(&once, &a()), once);
}

#[test]
fn group_keys_are_distinct() {
    let d = people();
    let groups = group_by_dataset(d, &s("city"));
    for a in 0..groups.len() {
        for b in a + 1..groups.len() {
            assert_ne!(groups[a].0, groups[b].0);
        }
    }
    assert_eq!(groups.len(), 3);
}
