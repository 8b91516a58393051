use vstd::prelude::*;
use vstd::multiset::Multiset;

use crate::analytics::dataset::{
    ColumnType, Dataset, DatasetModel, Row, Value, ValueModel, column_position, columns_model, values_model,
    rows_fit, lemma_column_position_bounds,
    copy_columns, rows_model,
};
use crate::analytics::query::{Aggregation, Condition, Query, condition_defined, condition_holds};

verus! {

/// The rows of `rows` that satisfy `c`, in their order.
pub open spec fn select_rows(
    rows: Seq<Seq<ValueModel>>,
    c: Condition,
    cols: Seq<(Seq<char>, ColumnType)>,
) -> Seq<Seq<ValueModel>>
    decreases rows.len(),
{
    if rows.len() == 0 {
        Seq::empty()
    } else {
        let prev = select_rows(rows.drop_last(), c, cols);
        if condition_holds(c, cols, rows.last()) {
            prev.push(rows.last())
        } else {
            prev
        }
    }
}

/// Whether `c` can be evaluated on every row of `d`.
pub open spec fn condition_defined_on(c: Condition, d: DatasetModel) -> bool {
    forall|i: int| 0 <= i < d.rows.len() ==> condition_defined(c, d.columns, #[trigger] d.rows[i])
}

/// Evaluates a condition on one row of `dataset`.
pub fn evaluate(row: &Row, condition: &Condition, dataset: &Dataset) -> (r: bool)
    requires
        condition_defined(*condition, dataset@.columns, row@),
        row@.len() == dataset@.columns.len(),
    ensures
        r == condition_holds(*condition, dataset@.columns, row@),
    decreases condition,
{
    match condition {
        Condition::Equal(col, val) => {
            let idx = dataset.column_index(col);
            assert(idx < row@.len());
            row.get_value(idx).same_as(val)
        },
        Condition::Not(inner) => !evaluate(row, inner, dataset),
        Condition::And(l, r) => evaluate(row, l, dataset) && evaluate(row, r, dataset),
        Condition::Or(l, r) => evaluate(row, l, dataset) || evaluate(row, r, dataset),
    }
}

/// The dataset of the rows of `dataset` that satisfy `filter`, with the same columns.
pub fn filter_dataset(dataset: &Dataset, filter: &Condition) -> (r: Dataset)
    requires
        condition_defined_on(*filter, dataset@),
    ensures
        r@.columns == dataset@.columns,
        r@.rows == select_rows(dataset@.rows, *filter, dataset@.columns),
{
    let mut result = Dataset::new(copy_columns(dataset.columns()));
    let rows = dataset.rows();
    assert(rows_fit(dataset@));
    let ghost all = dataset@.rows;
    let mut i: usize = 0;
    while i < rows.len()
        invariant
            i <= rows@.len(),
            rows_model(rows@) == all,
            all == dataset@.rows,
            condition_defined_on(*filter, dataset@),
            rows_fit(dataset@),
            result@.columns == dataset@.columns,
            result@.rows == select_rows(all.take(i as int), *filter, dataset@.columns),
        decreases rows.len() - i,
    {
        let row = &rows[i];
        assert(all[i as int] == row@);
        assert(all.take(i + 1).drop_last() =~= all.take(i as int));
        if evaluate(row, filter, dataset) {
            result.add_row(row.clone());
        }
        i = i + 1;
    }
    assert(all.take(rows.len() as int) =~= all);
    result
}

} // verus!

verus! {

/// The rows of `rows` whose value in column `idx` is `key`, in their order.
pub open spec fn rows_with(rows: Seq<Seq<ValueModel>>, idx: int, key: ValueModel) -> Seq<
    Seq<ValueModel>,
>
    decreases rows.len(),
{
    if rows.len() == 0 {
        Seq::empty()
    } else {
        let prev = rows_with(rows.drop_last(), idx, key);
        if rows.last()[idx] == key {
            prev.push(rows.last())
        } else {
            prev
        }
    }
}

/// The values that occur in column `idx` of `rows`, each once, in the order of first occurrence.
pub open spec fn distinct_keys(rows: Seq<Seq<ValueModel>>, idx: int) -> Seq<ValueModel>
    decreases rows.len(),
{
    if rows.len() == 0 {
        Seq::empty()
    } else {
        let prev = distinct_keys(rows.drop_last(), idx);
        if prev.contains(rows.last()[idx]) {
            prev
        } else {
            prev.push(rows.last()[idx])
        }
    }
}

/// A value is a key exactly when some row holds it in that column; no key occurs twice.
pub proof fn lemma_distinct_keys(rows: Seq<Seq<ValueModel>>, idx: int)
    ensures
        distinct_keys(rows, idx).no_duplicates(),
        forall|k: ValueModel|
            distinct_keys(rows, idx).contains(k) <==> exists|j: int|
                0 <= j < rows.len() && #[trigger] rows[j][idx] == k,
    decreases rows.len(),
{
    if rows.len() > 0 {
        let prev = rows.drop_last();
        lemma_distinct_keys(prev, idx);
        let last = rows.last()[idx];
        let dp = distinct_keys(prev, idx);
        let d = distinct_keys(rows, idx);
        assert(rows[rows.len() - 1][idx] == last);
        assert forall|k: ValueModel| d.contains(k) implies exists|j: int|
            0 <= j < rows.len() && #[trigger] rows[j][idx] == k by {
            if dp.contains(k) {
                let j = choose|j: int| 0 <= j < prev.len() && #[trigger] prev[j][idx] == k;
                assert(rows[j][idx] == k);
            } else {
                assert(d == dp.push(last));
                let q = choose|q: int| 0 <= q < d.len() && d[q] == k;
                assert(q == dp.len());
                assert(k == last);
                assert(rows[rows.len() - 1][idx] == k);
            }
        }
        assert forall|k: ValueModel|
            (exists|j: int| 0 <= j < rows.len() && #[trigger] rows[j][idx] == k) implies d.contains(
            k,
        ) by {
            let j = choose|j: int| 0 <= j < rows.len() && #[trigger] rows[j][idx] == k;
            if j < rows.len() - 1 {
                assert(prev[j][idx] == k);
                assert(dp.contains(k));
                let q = choose|q: int| 0 <= q < dp.len() && dp[q] == k;
                if dp.contains(last) {
                    assert(d == dp);
                } else {
                    assert(d == dp.push(last));
                    assert(d[q] == k);
                }
            } else {
                assert(k == last);
                if dp.contains(last) {
                    assert(d == dp);
                } else {
                    assert(d == dp.push(last));
                    assert(d[dp.len() as int] == k);
                }
            }
        }
    }
}

/// No row holds the key: none is selected.
pub proof fn lemma_rows_with_absent(rows: Seq<Seq<ValueModel>>, idx: int, key: ValueModel)
    requires
        forall|j: int| 0 <= j < rows.len() ==> #[trigger] rows[j][idx] != key,
    ensures
        rows_with(rows, idx, key) == Seq::<Seq<ValueModel>>::empty(),
    decreases rows.len(),
{
    if rows.len() > 0 {
        let prev = rows.drop_last();
        assert forall|j: int| 0 <= j < prev.len() implies #[trigger] prev[j][idx] != key by {
            assert(prev[j] == rows[j]);
        }
        lemma_rows_with_absent(prev, idx, key);
        assert(rows[rows.len() - 1][idx] != key);
    }
}


/// The position of the group whose key holds what `key` holds, if there is one.
pub fn find_group(groups: &Vec<(Value, Dataset)>, key: &Value) -> (r: Option<usize>)
    ensures
        match r {
            Some(j) => j < groups@.len() && groups@[j as int].0@ == key@,
            None => forall|m: int| 0 <= m < groups@.len() ==> #[trigger] groups@[m].0@ != key@,
        },
{
    let mut j: usize = 0;
    while j < groups.len()
        invariant
            j <= groups@.len(),
            forall|m: int| 0 <= m < j ==> #[trigger] groups@[m].0@ != key@,
        decreases groups.len() - j,
    {
        if groups[j].0.same_as(key) {
            return Some(j);
        }
        j = j + 1;
    }
    None
}

/// Splits `dataset` by the value in the column named `group_by_column`: one group per
/// value that occurs, in the order of first occurrence, each holding the rows with
/// that value, in order, under the same columns.
pub fn group_by_dataset(dataset: Dataset, group_by_column: &String) -> (r: Vec<(Value, Dataset)>)
    requires
        column_position(dataset@.columns, group_by_column@) >= 0,
    ensures
        ({
            let idx = column_position(dataset@.columns, group_by_column@);
            let keys = distinct_keys(dataset@.rows, idx);
            &&& r@.len() == keys.len()
            &&& forall|j: int|
                0 <= j < r@.len() ==> {
                    &&& (#[trigger] r@[j]).0@ == keys[j]
                    &&& r@[j].1@.columns == dataset@.columns
                    &&& r@[j].1@.rows == rows_with(dataset@.rows, idx, keys[j])
                }
        }),
{
    let ghost cols = dataset@.columns;
    let ghost all = dataset@.rows;
    let col_index = dataset.column_index(group_by_column);
    let ghost idx = col_index as int;
    let columns = copy_columns(dataset.columns());
    let rows = dataset.into_rows();
    assert(rows_fit(DatasetModel { columns: cols, rows: all }));
    let mut groups: Vec<(Value, Dataset)> = Vec::new();
    let mut i: usize = 0;
    while i < rows.len()
        invariant
            i <= rows@.len(),
            rows_model(rows@) == all,
            columns_model(columns@) == cols,
            idx == col_index,
            forall|m: int| 0 <= m < all.len() ==> (#[trigger] all[m]).len() == cols.len(),
            0 <= idx < cols.len(),
            groups@.len() == distinct_keys(all.take(i as int), idx).len(),
            forall|j: int|
                0 <= j < groups@.len() ==> {
                    &&& (#[trigger] groups@[j]).0@ == distinct_keys(all.take(i as int), idx)[j]
                    &&& groups@[j].1@.columns == cols
                    &&& groups@[j].1@.rows == rows_with(
                        all.take(i as int),
                        idx,
                        distinct_keys(all.take(i as int), idx)[j],
                    )
                },
        decreases rows.len() - i,
    {
        let row = &rows[i];
        assert(all[i as int] == row@);
        let ghost pre = all.take(i as int);
        let ghost post = all.take(i + 1);
        assert(post.drop_last() =~= pre);
        assert(post.last() == row@);
        proof {
            lemma_distinct_keys(pre, idx);
        }
        let key = row.get_value(col_index);
        match find_group(&groups, key) {
            Some(j) => {
                let ghost before = groups@;
                let (k, mut d) = groups.remove(j);
                d.add_row(row.clone());
                groups.insert(j, (k, d));
                assert(distinct_keys(pre, idx)[j as int] == key@);
                assert(distinct_keys(pre, idx).contains(key@));
                assert(distinct_keys(post, idx) == distinct_keys(pre, idx));
                assert forall|m: int| 0 <= m < groups@.len() implies {
                    &&& (#[trigger] groups@[m]).0@ == distinct_keys(post, idx)[m]
                    &&& groups@[m].1@.columns == cols
                    &&& groups@[m].1@.rows == rows_with(post, idx, distinct_keys(post, idx)[m])
                } by {
                    if m != j {
                        assert(groups@[m] == before[m]);
                        assert(distinct_keys(pre, idx)[m] != key@);
                    }
                }
            },
            None => {
                let ghost before = groups@;
                assert forall|m: int| 0 <= m < pre.len() implies #[trigger] pre[m][idx]
                    != key@ by {
                    if pre[m][idx] == key@ {
                        assert(distinct_keys(pre, idx).contains(key@));
                        let q = choose|q: int|
                            0 <= q < distinct_keys(pre, idx).len() && distinct_keys(
                                pre,
                                idx,
                            )[q] == key@;
                        assert(groups@[q].0@ == key@);
                    }
                }
                proof {
                    lemma_rows_with_absent(pre, idx, key@);
                }
                assert(!distinct_keys(pre, idx).contains(key@));
                let mut d = Dataset::new(copy_columns(&columns));
                d.add_row(row.clone());
                groups.push((key.clone(), d));
                assert(distinct_keys(post, idx) == distinct_keys(pre, idx).push(key@));
                assert forall|m: int| 0 <= m < groups@.len() implies {
                    &&& (#[trigger] groups@[m]).0@ == distinct_keys(post, idx)[m]
                    &&& groups@[m].1@.columns == cols
                    &&& groups@[m].1@.rows == rows_with(post, idx, distinct_keys(post, idx)[m])
                } by {
                    if m < before.len() {
                        assert(groups@[m] == before[m]);
                        assert(distinct_keys(pre, idx)[m] != key@);
                    } else {
                        assert(rows_with(post, idx, key@) =~= seq![row@]);
                    }
                }
            },
        }
        i = i + 1;
    }
    assert(all.take(rows.len() as int) =~= all);
    groups
}

} // verus!

verus! {

/// The sum of the integers in column `idx` of `rows`; other values count as nothing.
pub open spec fn int_sum(rows: Seq<Seq<ValueModel>>, idx: int) -> int
    decreases rows.len(),
{
    if rows.len() == 0 {
        0
    } else {
        int_sum(rows.drop_last(), idx) + match rows.last()[idx] {
            ValueModel::Integer(v) => v as int,
            ValueModel::Text(_) => 0,
        }
    }
}

/// Every running sum of column `idx`, row by row, fits in an `i32`.
pub open spec fn sums_fit(rows: Seq<Seq<ValueModel>>, idx: int) -> bool {
    forall|k: int|
        0 <= k <= rows.len() ==> i32::MIN <= #[trigger] int_sum(rows.take(k), idx) <= i32::MAX
}

/// Division that rounds toward zero, for a positive divisor.
pub open spec fn div_toward_zero(a: int, b: int) -> int {
    if a >= 0 {
        a / b
    } else {
        -((-a) / b)
    }
}

/// Whether `agg` can be computed on the group `d` without a panic.
pub open spec fn aggregation_defined(agg: Aggregation, d: DatasetModel) -> bool {
    match agg {
        Aggregation::Count(_) => true,
        Aggregation::Sum(c) => {
            let idx = column_position(d.columns, c@);
            idx >= 0 && sums_fit(d.rows, idx)
        },
        Aggregation::Average(c) => {
            let idx = column_position(d.columns, c@);
            &&& idx >= 0
            &&& sums_fit(d.rows, idx)
            &&& 0 < d.rows.len() <= i32::MAX
        },
    }
}

/// The value that `agg` gives for the group `d`.
pub open spec fn aggregate_value(agg: Aggregation, d: DatasetModel) -> ValueModel {
    match agg {
        Aggregation::Count(_) => ValueModel::Integer(d.rows.len() as i32),
        Aggregation::Sum(c) => ValueModel::Integer(
            int_sum(d.rows, column_position(d.columns, c@)) as i32,
        ),
        Aggregation::Average(c) => ValueModel::Integer(
            div_toward_zero(int_sum(d.rows, column_position(d.columns, c@)), d.rows.len() as int)
                as i32,
        ),
    }
}

/// The sum of the integers in column `col_index` of `group`.
pub fn sum_column(group: &Dataset, col_index: usize) -> (r: i32)
    requires
        col_index < group@.columns.len(),
        sums_fit(group@.rows, col_index as int),
    ensures
        r == int_sum(group@.rows, col_index as int),
{
    let rows = group.rows();
    let ghost all = group@.rows;
    assert(rows_fit(group@));
    let ghost idx = col_index as int;
    let mut sum: i32 = 0;
    let mut i: usize = 0;
    assert(all.take(0) =~= Seq::<Seq<ValueModel>>::empty());
    while i < rows.len()
        invariant
            i <= rows@.len(),
            rows_model(rows@) == all,
            idx < group@.columns.len(),
            rows_fit(group@),
            all == group@.rows,
            idx == col_index,
            sums_fit(all, idx),
            sum == int_sum(all.take(i as int), idx),
        decreases rows.len() - i,
    {
        let row = &rows[i];
        assert(all[i as int] == row@);
        assert(all.take(i + 1).drop_last() =~= all.take(i as int));
        assert(i32::MIN <= int_sum(all.take(i + 1), idx) <= i32::MAX);
        if let Value::Integer(v) = row.get_value(col_index) {
            sum = sum + *v;
        }
        i = i + 1;
    }
    assert(all.take(rows.len() as int) =~= all);
    sum
}

/// Computes the aggregation on one group.
pub fn aggregate_group(group: &Dataset, aggregation: &Aggregation) -> (r: Value)
    requires
        aggregation_defined(*aggregation, group@),
    ensures
        r@ == aggregate_value(*aggregation, group@),
{
    match aggregation {
        Aggregation::Count(_) => Value::Integer(group.len() as i32),
        Aggregation::Sum(column_name) => {
            let col_index = group.column_index(column_name);
            Value::Integer(sum_column(group, col_index))
        },
        Aggregation::Average(column_name) => {
            let count = group.len() as i32;
            let col_index = group.column_index(column_name);
            let sum = sum_column(group, col_index);
            Value::Integer(sum / count)
        },
    }
}

/// Sums up each group: the key of each group, with the value that `aggregation` gives for it,
/// in the order of the groups.
pub fn aggregate_dataset(dataset: Vec<(Value, Dataset)>, aggregation: &Aggregation) -> (r: Vec<
    (Value, Value),
>)
    requires
        forall|j: int|
            0 <= j < dataset@.len() ==> aggregation_defined(*aggregation, (#[trigger] dataset@[j]).1@),
    ensures
        r@.len() == dataset@.len(),
        forall|j: int|
            0 <= j < r@.len() ==> {
                &&& (#[trigger] r@[j]).0@ == dataset@[j].0@
                &&& r@[j].1@ == aggregate_value(*aggregation, dataset@[j].1@)
            },
{
    let mut result: Vec<(Value, Value)> = Vec::new();
    let mut i: usize = 0;
    while i < dataset.len()
        invariant
            i <= dataset@.len(),
            result@.len() == i,
            forall|j: int|
                0 <= j < dataset@.len() ==> aggregation_defined(*aggregation, (#[trigger] dataset@[j]).1@),
            forall|j: int|
                0 <= j < i ==> {
                    &&& (#[trigger] result@[j]).0@ == dataset@[j].0@
                    &&& result@[j].1@ == aggregate_value(*aggregation, dataset@[j].1@)
                },
        decreases dataset.len() - i,
    {
        let value = aggregate_group(&dataset[i].1, aggregation);
        let key = dataset[i].0.clone();
        result.push((key, value));
        i = i + 1;
    }
    result
}

} // verus!

verus! {

/// The rows of `d` that satisfy the filter of `q`, under the same columns.
pub open spec fn filtered_model(d: DatasetModel, q: Query) -> DatasetModel {
    DatasetModel { columns: d.columns, rows: select_rows(d.rows, q.filter(), d.columns) }
}

/// The group of the rows of `d` whose value in column `idx` is `key`.
pub open spec fn group_model(d: DatasetModel, idx: int, key: ValueModel) -> DatasetModel {
    DatasetModel { columns: d.columns, rows: rows_with(d.rows, idx, key) }
}

/// Whether `q` can be run on `d` without a panic: the filter can be read on every row,
/// the grouping column exists and every kept row holds it, and each group can be summed up.
pub open spec fn query_defined(d: DatasetModel, q: Query) -> bool {
    let f = filtered_model(d, q);
    let idx = column_position(d.columns, q.group_by()@);
    &&& condition_defined_on(q.filter(), d)
    &&& idx >= 0
    &&& forall|k: ValueModel|
        #[trigger] distinct_keys(f.rows, idx).contains(k) ==> aggregation_defined(
            q.aggregate(),
            group_model(f, idx, k),
        )
}

/// The result of `q` on `d`: two columns, the grouping column and the aggregate;
/// one row per value of the grouping column among the kept rows, in the order of
/// first occurrence, holding that value and the aggregate of its group.
pub open spec fn query_result(d: DatasetModel, q: Query) -> DatasetModel {
    let f = filtered_model(d, q);
    let idx = column_position(d.columns, q.group_by()@);
    let keys = distinct_keys(f.rows, idx);
    DatasetModel {
        columns: seq![
            (q.group_by()@, d.columns[idx].1),
            (q.aggregate().result_column_name(), ColumnType::Integer),
        ],
        rows: Seq::new(
            keys.len(),
            |j: int| seq![keys[j], aggregate_value(q.aggregate(), group_model(f, idx, keys[j]))],
        ),
    }
}

/// Runs a query: filter, group, sum up each group, and lay the results out as a dataset.
pub fn compute_query_on_dataset(dataset: &Dataset, query: &Query) -> (r: Dataset)
    requires
        query_defined(dataset@, *query),
    ensures
        r@ == query_result(dataset@, *query),
{
    let ghost f = filtered_model(dataset@, *query);
    let ghost idx = column_position(dataset@.columns, query.group_by()@);
    let ghost keys = distinct_keys(f.rows, idx);
    let filtered = filter_dataset(dataset, query.get_filter());
    assert(filtered@ == f);
    let grouped = group_by_dataset(filtered, query.get_group_by());
    proof {
        lemma_distinct_keys(f.rows, idx);
        assert forall|j: int| 0 <= j < grouped@.len() implies aggregation_defined(
            query.aggregate(),
            (#[trigger] grouped@[j]).1@,
        ) by {
            assert(keys.contains(keys[j]));
            assert(grouped@[j].1@ == group_model(f, idx, keys[j]));
        }
    }
    let aggregated = aggregate_dataset(grouped, query.get_aggregate());

    let group_by_column_name = query.get_group_by();
    let group_by_column_type = dataset.column_type(group_by_column_name);
    let columns = vec![
        (group_by_column_name.clone(), *group_by_column_type),
        (query.get_aggregate().get_result_column_name(), ColumnType::Integer),
    ];
    let mut result = Dataset::new(columns);
    assert(result@.columns =~= query_result(dataset@, *query).columns);

    let mut i: usize = 0;
    while i < aggregated.len()
        invariant
            i <= aggregated@.len(),
            f == filtered_model(dataset@, *query),
            idx == column_position(dataset@.columns, query.group_by()@),
            keys == distinct_keys(f.rows, idx),
            aggregated@.len() == keys.len(),
            forall|j: int|
                0 <= j < aggregated@.len() ==> {
                    &&& (#[trigger] aggregated@[j]).0@ == keys[j]
                    &&& aggregated@[j].1@ == aggregate_value(
                        query.aggregate(),
                        group_model(f, idx, keys[j]),
                    )
                },
            result@.columns == query_result(dataset@, *query).columns,
            result@.rows == query_result(dataset@, *query).rows.take(i as int),
        decreases aggregated.len() - i,
    {
        let row_values = vec![aggregated[i].0.clone(), aggregated[i].1.clone()];
        assert(values_model(row_values@) =~= seq![aggregated@[i as int].0@, aggregated@[i as int].1@]);
        let row = Row::new(row_values);
        assert(row@ =~= query_result(dataset@, *query).rows[i as int]);
        result.add_row(row);
        assert(result@.rows =~= query_result(dataset@, *query).rows.take(i + 1));
        i = i + 1;
    }
    assert(result@.rows =~= query_result(dataset@, *query).rows);
    result
}

} // verus!

verus! {

/// Filtering by `l` and then by `r` keeps the same rows, in the same order, as filtering
/// once by `l AND r`.
pub proof fn lemma_filter_twice(
    rows: Seq<Seq<ValueModel>>,
    l: Condition,
    r: Condition,
    cols: Seq<(Seq<char>, ColumnType)>,
)
    ensures
        select_rows(select_rows(rows, l, cols), r, cols) == select_rows(
            rows,
            Condition::And(Box::new(l), Box::new(r)),
            cols,
        ),
    decreases rows.len(),
{
    if rows.len() > 0 {
        lemma_filter_twice(rows.drop_last(), l, r, cols);
        let once = select_rows(rows.drop_last(), l, cols);
        if condition_holds(l, cols, rows.last()) {
            assert(select_rows(rows, l, cols).drop_last() =~= once);
        }
    }
}

/// Every row is kept either by `c` or by `NOT c`, never by both.
pub proof fn lemma_filter_complement(
    rows: Seq<Seq<ValueModel>>,
    c: Condition,
    cols: Seq<(Seq<char>, ColumnType)>,
)
    ensures
        select_rows(rows, c, cols).len() + select_rows(rows, Condition::Not(Box::new(c)), cols).len()
            == rows.len(),
    decreases rows.len(),
{
    if rows.len() > 0 {
        lemma_filter_complement(rows.drop_last(), c, cols);
    }
}

/// The total number of rows in the groups of the given keys.
pub open spec fn group_sizes(rows: Seq<Seq<ValueModel>>, idx: int, keys: Seq<ValueModel>) -> int
    decreases keys.len(),
{
    if keys.len() == 0 {
        0
    } else {
        group_sizes(rows, idx, keys.drop_last()) + rows_with(rows, idx, keys.last()).len()
    }
}

/// One more row adds one to the group of its key and nothing to the others.
proof fn lemma_group_sizes_push(
    rows: Seq<Seq<ValueModel>>,
    row: Seq<ValueModel>,
    idx: int,
    keys: Seq<ValueModel>,
)
    requires
        keys.no_duplicates(),
    ensures
        group_sizes(rows.push(row), idx, keys) == group_sizes(rows, idx, keys) + if keys.contains(
            row[idx],
        ) {
            1int
        } else {
            0int
        },
    decreases keys.len(),
{
    if keys.len() > 0 {
        let prev = keys.drop_last();
        assert(prev.no_duplicates()) by {
            assert forall|i: int, j: int| 0 <= i < prev.len() && 0 <= j < prev.len() && i != j implies prev[i]
                != prev[j] by {
                assert(prev[i] == keys[i] && prev[j] == keys[j]);
            }
        }
        lemma_group_sizes_push(rows, row, idx, prev);
        assert(rows.push(row).drop_last() =~= rows);
        if keys.last() == row[idx] {
            assert(!prev.contains(row[idx])) by {
                if prev.contains(row[idx]) {
                    let q = choose|q: int| 0 <= q < prev.len() && prev[q] == row[idx];
                    assert(keys[q] == keys[keys.len() - 1]);
                }
            }
            assert(keys.contains(row[idx])) by {
                assert(keys[keys.len() - 1] == row[idx]);
            }
        } else {
            assert(keys.contains(row[idx]) == prev.contains(row[idx])) by {
                if keys.contains(row[idx]) {
                    let q = choose|q: int| 0 <= q < keys.len() && keys[q] == row[idx];
                    assert(prev[q] == row[idx]);
                }
                if prev.contains(row[idx]) {
                    let q = choose|q: int| 0 <= q < prev.len() && prev[q] == row[idx];
                    assert(keys[q] == row[idx]);
                }
            }
        }
    }
}

/// Grouping loses no row and repeats none: the groups together hold as many rows as
/// the dataset.
pub proof fn lemma_groups_partition(rows: Seq<Seq<ValueModel>>, idx: int)
    ensures
        group_sizes(rows, idx, distinct_keys(rows, idx)) == rows.len(),
    decreases rows.len(),
{
    if rows.len() > 0 {
        let prev = rows.drop_last();
        let row = rows.last();
        lemma_groups_partition(prev, idx);
        lemma_distinct_keys(prev, idx);
        let d = distinct_keys(prev, idx);
        assert(rows == prev.push(row));
        lemma_group_sizes_push(prev, row, idx, d);
        if !d.contains(row[idx]) {
            assert(distinct_keys(rows, idx) == d.push(row[idx]));
            assert(d.push(row[idx]).drop_last() =~= d);
            assert forall|j: int| 0 <= j < prev.len() implies #[trigger] prev[j][idx] != row[idx] by {
                if prev[j][idx] == row[idx] {
                    assert(d.contains(row[idx]));
                }
            }
            lemma_rows_with_absent(prev, idx, row[idx]);
        }
    }
}

} // verus!

verus! {

/// Whether some row of `rows` holds `k` in column `idx`.
pub open spec fn column_has(rows: Seq<Seq<ValueModel>>, idx: int, k: ValueModel) -> bool {
    exists|j: int| 0 <= j < rows.len() && #[trigger] rows[j][idx] == k
}

/// A query result lists each value of the grouping column once, and lists exactly the
/// values that occur among the kept rows.
pub proof fn lemma_query_result_keys(d: DatasetModel, q: Query)
    ensures
        ({
            let res = query_result(d, q);
            let f = filtered_model(d, q);
            let idx = column_position(d.columns, q.group_by()@);
            &&& forall|i: int, j: int|
                0 <= i < j < res.rows.len() ==> (#[trigger] res.rows[i])[0] != (#[trigger] res.rows[j])[0]
            &&& forall|k: ValueModel| #[trigger] column_has(res.rows, 0, k) <==> column_has(f.rows, idx, k)
        }),
{
    let res = query_result(d, q);
    let f = filtered_model(d, q);
    let idx = column_position(d.columns, q.group_by()@);
    let keys = distinct_keys(f.rows, idx);
    lemma_distinct_keys(f.rows, idx);
    assert forall|i: int, j: int| 0 <= i < j < res.rows.len() implies (#[trigger] res.rows[i])[0]
        != (#[trigger] res.rows[j])[0] by {
        assert(res.rows[i][0] == keys[i] && res.rows[j][0] == keys[j]);
    }
    assert forall|k: ValueModel| #[trigger] column_has(res.rows, 0, k) <==> column_has(f.rows, idx, k) by {
        if column_has(res.rows, 0, k) {
            let i = choose|i: int| 0 <= i < res.rows.len() && #[trigger] res.rows[i][0] == k;
            assert(keys[i] == k);
            assert(keys.contains(k));
        }
        if column_has(f.rows, idx, k) {
            assert(keys.contains(k));
            let i = choose|i: int| 0 <= i < keys.len() && keys[i] == k;
            assert(res.rows[i][0] == k);
        }
    }
}

} // verus!

verus! {

/// Conditions that agree on every row keep the same rows, in the same order.
pub proof fn lemma_filter_equivalent(
    rows: Seq<Seq<ValueModel>>,
    c1: Condition,
    c2: Condition,
    cols: Seq<(Seq<char>, ColumnType)>,
)
    requires
        forall|r: Seq<ValueModel>| condition_holds(c1, cols, r) == condition_holds(c2, cols, r),
    ensures
        select_rows(rows, c1, cols) == select_rows(rows, c2, cols),
    decreases rows.len(),
{
    if rows.len() > 0 {
        lemma_filter_equivalent(rows.drop_last(), c1, c2, cols);
    }
}

/// `a AND b` keeps the same rows, in the same order, as `b AND a`.
pub proof fn lemma_filter_and_commutes(
    rows: Seq<Seq<ValueModel>>,
    a: Condition,
    b: Condition,
    cols: Seq<(Seq<char>, ColumnType)>,
)
    ensures
        select_rows(rows, Condition::And(Box::new(a), Box::new(b)), cols) == select_rows(
            rows,
            Condition::And(Box::new(b), Box::new(a)),
            cols,
        ),
{
    lemma_filter_equivalent(
        rows,
        Condition::And(Box::new(a), Box::new(b)),
        Condition::And(Box::new(b), Box::new(a)),
        cols,
    );
}

/// Filtering twice by the same condition is filtering once.
pub proof fn lemma_filter_idempotent(
    rows: Seq<Seq<ValueModel>>,
    c: Condition,
    cols: Seq<(Seq<char>, ColumnType)>,
)
    ensures
        select_rows(select_rows(rows, c, cols), c, cols) == select_rows(rows, c, cols),
{
    lemma_filter_twice(rows, c, c, cols);
    lemma_filter_equivalent(rows, Condition::And(Box::new(c), Box::new(c)), c, cols);
}

/// De Morgan: `NOT (a AND b)` keeps what `NOT a OR NOT b` keeps, and `NOT (a OR b)` what
/// `NOT a AND NOT b` keeps; `NOT NOT a` keeps what `a` keeps. Rows and order are the same.
pub proof fn lemma_filter_negation(
    rows: Seq<Seq<ValueModel>>,
    a: Condition,
    b: Condition,
    cols: Seq<(Seq<char>, ColumnType)>,
)
    ensures
        select_rows(rows, Condition::Not(Box::new(Condition::And(Box::new(a), Box::new(b)))), cols)
            == select_rows(
            rows,
            Condition::Or(
                Box::new(Condition::Not(Box::new(a))),
                Box::new(Condition::Not(Box::new(b))),
            ),
            cols,
        ),
        select_rows(rows, Condition::Not(Box::new(Condition::Or(Box::new(a), Box::new(b)))), cols)
            == select_rows(
            rows,
            Condition::And(
                Box::new(Condition::Not(Box::new(a))),
                Box::new(Condition::Not(Box::new(b))),
            ),
            cols,
        ),
        select_rows(rows, Condition::Not(Box::new(Condition::Not(Box::new(a)))), cols)
            == select_rows(rows, a, cols),
{
    let na = Condition::Not(Box::new(a));
    let nb = Condition::Not(Box::new(b));
    let and_ab = Condition::And(Box::new(a), Box::new(b));
    let or_ab = Condition::Or(Box::new(a), Box::new(b));
    assert forall|r: Seq<ValueModel>|
        condition_holds(Condition::Not(Box::new(and_ab)), cols, r) == condition_holds(
            Condition::Or(Box::new(na), Box::new(nb)),
            cols,
            r,
        ) by {
        assert(condition_holds(and_ab, cols, r) == (condition_holds(a, cols, r) && condition_holds(b, cols, r)));
        assert(condition_holds(na, cols, r) == !condition_holds(a, cols, r));
        assert(condition_holds(nb, cols, r) == !condition_holds(b, cols, r));
    }
    lemma_filter_equivalent(rows, Condition::Not(Box::new(and_ab)), Condition::Or(Box::new(na), Box::new(nb)), cols);
    assert forall|r: Seq<ValueModel>|
        condition_holds(Condition::Not(Box::new(or_ab)), cols, r) == condition_holds(
            Condition::And(Box::new(na), Box::new(nb)),
            cols,
            r,
        ) by {
        assert(condition_holds(or_ab, cols, r) == (condition_holds(a, cols, r) || condition_holds(b, cols, r)));
        assert(condition_holds(na, cols, r) == !condition_holds(a, cols, r));
        assert(condition_holds(nb, cols, r) == !condition_holds(b, cols, r));
    }
    lemma_filter_equivalent(rows, Condition::Not(Box::new(or_ab)), Condition::And(Box::new(na), Box::new(nb)), cols);
    assert forall|r: Seq<ValueModel>|
        condition_holds(Condition::Not(Box::new(na)), cols, r) == condition_holds(a, cols, r) by {
        assert(condition_holds(na, cols, r) == !condition_holds(a, cols, r));
    }
    lemma_filter_equivalent(rows, Condition::Not(Box::new(na)), a, cols);
}

/// Each row lands in exactly one of the results of `c` and of `NOT c`: together they hold
/// every row as often as the dataset does, the first only rows that satisfy `c`, the second
/// only rows that do not.
pub proof fn lemma_filter_partition(
    rows: Seq<Seq<ValueModel>>,
    c: Condition,
    cols: Seq<(Seq<char>, ColumnType)>,
)
    ensures
        select_rows(rows, c, cols).to_multiset().add(
            select_rows(rows, Condition::Not(Box::new(c)), cols).to_multiset(),
        ) == rows.to_multiset(),
        forall|i: int|
            0 <= i < select_rows(rows, c, cols).len() ==> condition_holds(
                c,
                cols,
                #[trigger] select_rows(rows, c, cols)[i],
            ),
        forall|i: int|
            0 <= i < select_rows(rows, Condition::Not(Box::new(c)), cols).len() ==> !condition_holds(
                c,
                cols,
                #[trigger] select_rows(rows, Condition::Not(Box::new(c)), cols)[i],
            ),
    decreases rows.len(),
{
    broadcast use vstd::seq_lib::group_to_multiset_ensures;
    broadcast use vstd::multiset::group_multiset_axioms;

    let n = Condition::Not(Box::new(c));
    if rows.len() == 0 {
        assert(rows.to_multiset() =~= Multiset::empty());
        assert(select_rows(rows, c, cols).to_multiset() =~= Multiset::empty());
        assert(select_rows(rows, n, cols).to_multiset() =~= Multiset::empty());
        assert(Multiset::<Seq<ValueModel>>::empty().add(Multiset::empty()) =~= Multiset::empty());
    } else {
        let prev = rows.drop_last();
        let last = rows.last();
        lemma_filter_partition(prev, c, cols);
        assert(rows == prev.push(last));
        let a0 = select_rows(prev, c, cols);
        let b0 = select_rows(prev, n, cols);
        if condition_holds(c, cols, last) {
            assert(select_rows(rows, c, cols) == a0.push(last));
            assert(select_rows(rows, n, cols) == b0);
            assert(a0.push(last).to_multiset().add(b0.to_multiset()) =~= a0.to_multiset().add(
                b0.to_multiset(),
            ).insert(last));
        } else {
            assert(select_rows(rows, c, cols) == a0);
            assert(select_rows(rows, n, cols) == b0.push(last));
            assert(a0.to_multiset().add(b0.push(last).to_multiset()) =~= a0.to_multiset().add(
                b0.to_multiset(),
            ).insert(last));
        }
    }
}

} // verus!

verus! {

/// An `Equal` filter keeps exactly the rows whose value in the named column is the given
/// value, in the order they come in.
pub proof fn lemma_filter_equal(
    rows: Seq<Seq<ValueModel>>,
    col: String,
    val: Value,
    cols: Seq<(Seq<char>, ColumnType)>,
)
    ensures
        select_rows(rows, Condition::Equal(col, val), cols) == rows.filter(
            |r: Seq<ValueModel>| r[column_position(cols, col@)] == val@,
        ),
    decreases rows.len(),
{
    reveal(Seq::filter);
    if rows.len() > 0 {
        lemma_filter_equal(rows.drop_last(), col, val, cols);
    }
}

/// The integer a value adds to a sum: its number, or nothing for text.
pub open spec fn summand(v: ValueModel) -> int {
    match v {
        ValueModel::Integer(n) => n as int,
        ValueModel::Text(_) => 0,
    }
}

/// One more row adds its own value to the sum, whatever rows came before it.
pub proof fn lemma_int_sum_push(rows: Seq<Seq<ValueModel>>, row: Seq<ValueModel>, idx: int)
    ensures
        int_sum(rows.push(row), idx) == int_sum(rows, idx) + summand(row[idx]),
{
    assert(rows.push(row).drop_last() =~= rows);
}

/// The sum over two runs of rows put together is the sum of their sums.
pub proof fn lemma_int_sum_concat(a: Seq<Seq<ValueModel>>, b: Seq<Seq<ValueModel>>, idx: int)
    ensures
        int_sum(a + b, idx) == int_sum(a, idx) + int_sum(b, idx),
    decreases b.len(),
{
    if b.len() == 0 {
        assert(a + b =~= a);
    } else {
        lemma_int_sum_concat(a, b.drop_last(), idx);
        assert((a + b).drop_last() =~= a + b.drop_last());
        assert((a + b).last() == b.last());
    }
}

} // verus!
