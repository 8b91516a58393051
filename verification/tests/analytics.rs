use projects_lib::analytics::dataset::{ColumnType, Dataset, Row, Value};
use projects_lib::analytics::query::{Aggregation, Condition, Query};
use projects_lib::analytics::solution::{
    aggregate_dataset, compute_query_on_dataset, filter_dataset, group_by_dataset,
};

fn s(x: &str) -> String {
    x.to_string()
}

fn ival(v: i32) -> Value {
    Value::Integer(v)
}

fn text(x: &str) -> Value {
    Value::String(x.to_string())
}

fn grades() -> Dataset {
    let mut d = Dataset::new(vec![
        (s("name"), ColumnType::String),
        (s("section"), ColumnType::String),
        (s("grade"), ColumnType::Integer),
    ]);
    d.add_row(Row::new(vec![text("ann"), text("A"), ival(90)]));
    d.add_row(Row::new(vec![text("bob"), text("B"), ival(70)]));
    d.add_row(Row::new(vec![text("cat"), text("A"), ival(81)]));
    d.add_row(Row::new(vec![text("dan"), text("C"), ival(-5)]));
    d.add_row(Row::new(vec![text("eve"), text("B"), ival(60)]));
    d
}

fn cell(d: &Dataset, row: usize, col: usize) -> Value {
    d.rows()[row].get_value(col).clone()
}

#[test]
fn filter_keeps_matching_rows_in_order() {
    let d = grades();
    let f = filter_dataset(&d, &Condition::Equal(s("section"), text("A")));
    assert_eq!(f.len(), 2);
    assert_eq!(f.columns().len(), 3);
    assert_eq!(cell(&f, 0, 0), text("ann"));
    assert_eq!(cell(&f, 1, 0), text("cat"));
}

#[test]
fn filter_not_and_or() {
    let d = grades();
    let not_a = Condition::Not(Box::new(Condition::Equal(s("section"), text("A"))));
    assert_eq!(filter_dataset(&d, &not_a).len(), 3);
    let both = Condition::And(
        Box::new(Condition::Equal(s("section"), text("B"))),
        Box::new(Condition::Equal(s("grade"), ival(60))),
    );
    let f = filter_dataset(&d, &both);
    assert_eq!(f.len(), 1);
    assert_eq!(cell(&f, 0, 0), text("eve"));
    let either = Condition::Or(
        Box::new(Condition::Equal(s("name"), text("dan"))),
        Box::new(Condition::Equal(s("grade"), ival(90))),
    );
    let f = filter_dataset(&d, &either);
    assert_eq!(f.len(), 2);
    assert_eq!(cell(&f, 0, 0), text("ann"));
    assert_eq!(cell(&f, 1, 0), text("dan"));
}

#[test]
fn filter_integer_does_not_match_text() {
    let d = grades();
    let f = filter_dataset(&d, &Condition::Equal(s("grade"), text("90")));
    assert_eq!(f.len(), 0);
}

#[test]
fn filter_twice_is_filter_and() {
    let d = grades();
    let l = Condition::Equal(s("section"), text("B"));
    let r = Condition::Equal(s("name"), text("bob"));
    let twice = filter_dataset(&filter_dataset(&d, &l), &r);
    let once = filter_dataset(
        &d,
        &Condition::And(
            Box::new(Condition::Equal(s("section"), text("B"))),
            Box::new(Condition::Equal(s("name"), text("bob"))),
        ),
    );
    assert_eq!(twice.len(), once.len());
    assert_eq!(cell(&twice, 0, 0), cell(&once, 0, 0));
}

#[test]
fn filter_complement_counts() {
    let d = grades();
    let c = Condition::Equal(s("section"), text("B"));
    let n = Condition::Not(Box::new(Condition::Equal(s("section"), text("B"))));
    assert_eq!(filter_dataset(&d, &c).len() + filter_dataset(&d, &n).len(), d.len());
}

#[test]
fn group_by_first_occurrence_order() {
    let groups = group_by_dataset(grades(), &s("section"));
    assert_eq!(groups.len(), 3);
    assert_eq!(groups[0].0, text("A"));
    assert_eq!(groups[1].0, text("B"));
    assert_eq!(groups[2].0, text("C"));
    assert_eq!(groups[0].1.len(), 2);
    assert_eq!(groups[1].1.len(), 2);
    assert_eq!(groups[2].1.len(), 1);
    assert_eq!(cell(&groups[1].1, 1, 0), text("eve"));
    let total: usize = groups.iter().map(|g| g.1.len()).sum();
    assert_eq!(total, 5);
}

#[test]
fn group_by_empty_dataset() {
    let d = Dataset::new(vec![(s("k"), ColumnType::Integer)]);
    assert_eq!(group_by_dataset(d, &s("k")).len(), 0);
}

#[test]
fn aggregate_count_sum_average() {
    let groups = group_by_dataset(grades(), &s("section"));
    let counts = aggregate_dataset(group_by_dataset(grades(), &s("section")), &Aggregation::Count(s("name")));
    assert_eq!(counts[0].1, ival(2));
    assert_eq!(counts[2].1, ival(1));
    let sums = aggregate_dataset(groups, &Aggregation::Sum(s("grade")));
    assert_eq!(sums[0], (text("A"), ival(171)));
    assert_eq!(sums[1].1, ival(130));
    assert_eq!(sums[2].1, ival(-5));
    let avgs = aggregate_dataset(group_by_dataset(grades(), &s("section")), &Aggregation::Average(s("grade")));
    assert_eq!(avgs[0].1, ival(85));
    assert_eq!(avgs[1].1, ival(65));
    assert_eq!(avgs[2].1, ival(-5));
}

#[test]
fn average_rounds_toward_zero() {
    let mut d = Dataset::new(vec![(s("k"), ColumnType::String), (s("v"), ColumnType::Integer)]);
    d.add_row(Row::new(vec![text("x"), ival(-3)]));
    d.add_row(Row::new(vec![text("x"), ival(-4)]));
    d.add_row(Row::new(vec![text("y"), ival(7)]));
    d.add_row(Row::new(vec![text("y"), ival(0)]));
    let avgs = aggregate_dataset(group_by_dataset(d, &s("k")), &Aggregation::Average(s("v")));
    assert_eq!(avgs[0].1, ival(-3));
    assert_eq!(avgs[1].1, ival(3));
}

#[test]
fn sum_skips_text_values() {
    let mut d = Dataset::new(vec![(s("k"), ColumnType::String), (s("v"), ColumnType::Integer)]);
    d.add_row(Row::new(vec![text("x"), ival(5)]));
    d.add_row(Row::new(vec![text("x"), text("seven")]));
    let sums = aggregate_dataset(group_by_dataset(d, &s("k")), &Aggregation::Sum(s("v")));
    assert_eq!(sums[0].1, ival(5));
}

#[test]
fn result_column_names() {
    assert_eq!(Aggregation::Count(s("grade")).get_result_column_name(), "Count(grade)");
    assert_eq!(Aggregation::Sum(s("grade")).get_result_column_name(), "Sum(grade)");
    assert_eq!(Aggregation::Average(s("g")).get_result_column_name(), "Average(g)");
}

#[test]
fn column_lookup() {
    let d = grades();
    assert_eq!(d.column_index(&s("grade")), 2);
    assert_eq!(*d.column_type(&s("name")), ColumnType::String);
}

#[test]
fn query_end_to_end() {
    let d = grades();
    let q = Query::new(
        Condition::Not(Box::new(Condition::Equal(s("name"), text("dan")))),
        s("section"),
        Aggregation::Sum(s("grade")),
    );
    let r = compute_query_on_dataset(&d, &q);
    assert_eq!(r.columns().len(), 2);
    assert_eq!(r.columns()[0], (s("section"), ColumnType::String));
    assert_eq!(r.columns()[1], (s("Sum(grade)"), ColumnType::Integer));
    assert_eq!(r.len(), 2);
    assert_eq!(cell(&r, 0, 0), text("A"));
    assert_eq!(cell(&r, 0, 1), ival(171));
    assert_eq!(cell(&r, 1, 0), text("B"));
    assert_eq!(cell(&r, 1, 1), ival(130));
}

#[test]
fn query_count_totals_kept_rows() {
    let d = grades();
    let q = Query::new(
        Condition::Or(
            Box::new(Condition::Equal(s("section"), text("A"))),
            Box::new(Condition::Equal(s("section"), text("C"))),
        ),
        s("section"),
        Aggregation::Count(s("name")),
    );
    let r = compute_query_on_dataset(&d, &q);
    assert_eq!(r.len(), 2);
    assert_eq!(cell(&r, 0, 1), ival(2));
    assert_eq!(cell(&r, 1, 1), ival(1));
}

fn names(d: &Dataset) -> Vec<Value> {
    (0..d.len()).map(|i| cell(d, i, 0)).collect()
}

fn eq_c(col: &str, v: Value) -> Condition {
    Condition::Equal(s(col), v)
}

#[test]
fn filter_and_commutes_and_is_idempotent() {
    let d = grades();
    let ab = Condition::And(Box::new(eq_c("section", text("A"))), Box::new(eq_c("grade", ival(81))));
    let ba = Condition::And(Box::new(eq_c("grade", ival(81))), Box::new(eq_c("section", text("A"))));
    assert_eq!(names(&filter_dataset(&d, &ab)), names(&filter_dataset(&d, &ba)));
    let c = eq_c("section", text("B"));
    let once = filter_dataset(&d, &c);
    assert_eq!(names(&filter_dataset(&once, &c)), names(&once));
}

#[test]
fn filter_de_morgan_and_double_negation() {
    let d = grades();
    let not_and = Condition::Not(Box::new(Condition::And(
        Box::new(eq_c("section", text("A"))),
        Box::new(eq_c("grade", ival(90))),
    )));
    let or_not = Condition::Or(
        Box::new(Condition::Not(Box::new(eq_c("section", text("A"))))),
        Box::new(Condition::Not(Box::new(eq_c("grade", ival(90))))),
    );
    assert_eq!(names(&filter_dataset(&d, &not_and)), names(&filter_dataset(&d, &or_not)));
    let nn = Condition::Not(Box::new(Condition::Not(Box::new(eq_c("section", text("C"))))));
    assert_eq!(names(&filter_dataset(&d, &nn)), vec![text("dan")]);
}

#[test]
fn filter_partition_rows() {
    let d = grades();
    let kept = names(&filter_dataset(&d, &eq_c("section", text("B"))));
    let rest = names(&filter_dataset(&d, &Condition::Not(Box::new(eq_c("section", text("B"))))));
    assert_eq!(kept, vec![text("bob"), text("eve")]);
    assert_eq!(rest, vec![text("ann"), text("cat"), text("dan")]);
}
