//! The query engine: filtering, grouping and aggregation of datasets.
use vstd::prelude::*;
use crate::dataset::{ColumnType, Datum, Dataset, Row, Table, Value, column_position, has_column, rows_full};
use crate::query::{Aggregation, Condition, Query, result_column_name};

verus! {

/// Whether `row` satisfies condition `c`, the columns being named by `cols`.
pub open spec fn holds(cols: Seq<(Seq<char>, ColumnType)>, row: Seq<Datum>, c: Condition) -> bool
    decreases c,
{
    match c {
        Condition::Equal(name, v) => row[column_position(cols, name@)] == v@,
        Condition::Not(inner) => !holds(cols, row, *inner),
        Condition::And(l, r) => holds(cols, row, *l) && holds(cols, row, *r),
        Condition::Or(l, r) => holds(cols, row, *l) || holds(cols, row, *r),
    }
}

/// Whether checking `c` on `row` only reads columns that exist and values
/// that the row has. `And` and `Or` read their right side only when the left
/// side does not decide.
pub open spec fn evaluable(cols: Seq<(Seq<char>, ColumnType)>, row: Seq<Datum>, c: Condition) -> bool
    decreases c,
{
    match c {
        Condition::Equal(name, v) => has_column(cols, name@) && column_position(cols, name@) < row.len(),
        Condition::Not(inner) => evaluable(cols, row, *inner),
        Condition::And(l, r) => evaluable(cols, row, *l) && (holds(cols, row, *l) ==> evaluable(cols, row, *r)),
        Condition::Or(l, r) => evaluable(cols, row, *l) && (!holds(cols, row, *l) ==> evaluable(cols, row, *r)),
    }
}

/// The rows that satisfy `c`, in their order.
pub open spec fn matching_rows(cols: Seq<(Seq<char>, ColumnType)>, rows: Seq<Seq<Datum>>, c: Condition) -> Seq<Seq<Datum>>
    decreases rows.len(),
{
    if rows.len() == 0 {
        Seq::empty()
    } else {
        let prev = matching_rows(cols, rows.drop_last(), c);
        if holds(cols, rows.last(), c) {
            prev.push(rows.last())
        } else {
            prev
        }
    }
}

/// Whether every row of `t` can be checked against `c`.
pub open spec fn filter_runs(t: Table, c: Condition) -> bool {
    forall|k: int| 0 <= k < t.rows.len() ==> evaluable(t.columns, #[trigger] t.rows[k], c)
}

/// Whether every column that `c` names is a column of `cols`.
pub open spec fn names_known(cols: Seq<(Seq<char>, ColumnType)>, c: Condition) -> bool
    decreases c,
{
    match c {
        Condition::Equal(name, v) => has_column(cols, name@),
        Condition::Not(inner) => names_known(cols, *inner),
        Condition::And(l, r) => names_known(cols, *l) && names_known(cols, *r),
        Condition::Or(l, r) => names_known(cols, *l) && names_known(cols, *r),
    }
}

/// A row with one value per column can be checked against any condition
/// whose columns all exist.
pub proof fn law_known_names_are_evaluable(cols: Seq<(Seq<char>, ColumnType)>, row: Seq<Datum>, c: Condition)
    requires
        row.len() == cols.len(),
        names_known(cols, c),
    ensures
        evaluable(cols, row, c),
    decreases c,
{
    match c {
        Condition::Equal(name, v) => {
            crate::dataset::lemma_column_position(cols, name@);
        },
        Condition::Not(inner) => {
            law_known_names_are_evaluable(cols, row, *inner);
        },
        Condition::And(l, r) => {
            law_known_names_are_evaluable(cols, row, *l);
            law_known_names_are_evaluable(cols, row, *r);
        },
        Condition::Or(l, r) => {
            law_known_names_are_evaluable(cols, row, *l);
            law_known_names_are_evaluable(cols, row, *r);
        },
    }
}

/// Every dataset can be filtered by a condition whose columns all exist: its
/// rows have one value per column.
pub proof fn law_known_names_let_filter_run(t: Table, c: Condition)
    requires
        rows_full(t),
        names_known(t.columns, c),
    ensures
        filter_runs(t, c),
{
    assert forall|k: int| 0 <= k < t.rows.len() implies evaluable(t.columns, #[trigger] t.rows[k], c) by {
        law_known_names_are_evaluable(t.columns, t.rows[k], c);
    }
}

/// De Morgan's laws and double negation hold of conditions.
pub proof fn law_condition_de_morgan(cols: Seq<(Seq<char>, ColumnType)>, row: Seq<Datum>, a: Condition, b: Condition)
    ensures
        holds(cols, row, Condition::Not(Box::new(Condition::And(Box::new(a), Box::new(b)))))
            == holds(cols, row, Condition::Or(Box::new(Condition::Not(Box::new(a))), Box::new(Condition::Not(Box::new(b))))),
        holds(cols, row, Condition::Not(Box::new(Condition::Or(Box::new(a), Box::new(b)))))
            == holds(cols, row, Condition::And(Box::new(Condition::Not(Box::new(a))), Box::new(Condition::Not(Box::new(b))))),
        holds(cols, row, Condition::Not(Box::new(Condition::Not(Box::new(a))))) == holds(cols, row, a),
{
    reveal_with_fuel(holds, 3);
}

/// Whether `row` satisfies `condition`.
pub fn check_condition(row: &Row, dataset: &Dataset, condition: &Condition) -> (r: bool)
    requires
        evaluable(dataset@.columns, row@, *condition),
    ensures
        r == holds(dataset@.columns, row@, *condition),
    decreases condition,
{
    match condition {
        Condition::Equal(column_name, val) => {
            let i = dataset.column_index(column_name);
            let row_val = row.get_value(i);
            row_val.same_as(val)
        },
        Condition::Not(inner) => !check_condition(row, dataset, inner),
        Condition::And(left, right) => {
            check_condition(row, dataset, left) && check_condition(row, dataset, right)
        },
        Condition::Or(left, right) => {
            check_condition(row, dataset, left) || check_condition(row, dataset, right)
        },
    }
}

/// The dataset with the same columns and only the rows that satisfy `filter`.
pub fn filter_dataset(dataset: &Dataset, filter: &Condition) -> (result: Dataset)
    requires
        filter_runs(dataset@, *filter),
    ensures
        result@ == (Table {
            columns: dataset@.columns,
            rows: matching_rows(dataset@.columns, dataset@.rows, *filter),
        }),
{
    proof {
        use_type_invariant(dataset);
    }
    let mut result = Dataset::new(dataset.copy_columns());
    let rows = dataset.rows();
    let n = rows.len();
    let ghost cols = dataset@.columns;
    let ghost all = dataset@.rows;
    for i in 0..n
        invariant
            n == rows@.len(),
            all == rows@.map_values(|r: Row| r@),
            cols == dataset@.columns,
            all == dataset@.rows,
            rows_full(dataset@),
            filter_runs(dataset@, *filter),
            result@.columns == cols,
            result@.rows == matching_rows(cols, all.take(i as int), *filter),
    {
        let row = &rows[i];
        assert(row@ == all[i as int]);
        assert(all.take(i + 1).drop_last() =~= all.take(i as int));
        assert(all.take(i + 1).last() == all[i as int]);
        if check_condition(row, dataset, filter) {
            result.add_row(row.duplicate());
        }
    }
    assert(all.take(n as int) =~= all);
    result
}


/// The distinct values of `vals`, in the order of their first occurrence.
pub open spec fn distinct_values(vals: Seq<Datum>) -> Seq<Datum>
    decreases vals.len(),
{
    if vals.len() == 0 {
        Seq::empty()
    } else {
        let prev = distinct_values(vals.drop_last());
        if prev.contains(vals.last()) {
            prev
        } else {
            prev.push(vals.last())
        }
    }
}

/// The values that the rows hold at position `p`.
pub open spec fn column_values(rows: Seq<Seq<Datum>>, p: int) -> Seq<Datum> {
    rows.map_values(|r: Seq<Datum>| r[p])
}

/// The rows whose value at position `p` is `key`, in their order.
pub open spec fn rows_with(rows: Seq<Seq<Datum>>, p: int, key: Datum) -> Seq<Seq<Datum>>
    decreases rows.len(),
{
    if rows.len() == 0 {
        Seq::empty()
    } else {
        let prev = rows_with(rows.drop_last(), p, key);
        if rows.last()[p] == key {
            prev.push(rows.last())
        } else {
            prev
        }
    }
}

/// The groups of `t` by the column named `name`: one per distinct value of
/// that column, in the order of first occurrence, each with the columns of
/// `t` and the rows that hold that value, in their order.
pub open spec fn grouped(t: Table, name: Seq<char>) -> Seq<(Datum, Table)> {
    let p = column_position(t.columns, name);
    distinct_values(column_values(t.rows, p)).map_values(
        |k: Datum| (k, Table { columns: t.columns, rows: rows_with(t.rows, p, k) }),
    )
}

/// Whether `t` can be grouped by the column named `name`: the column exists
/// and every row has a value there.
pub open spec fn grouping_runs(t: Table, name: Seq<char>) -> bool {
    &&& has_column(t.columns, name)
    &&& forall|k: int| 0 <= k < t.rows.len() ==> column_position(t.columns, name) < #[trigger] t.rows[k].len()
}

/// The view of a list of groups.
pub open spec fn groups_view(g: Seq<(Value, Dataset)>) -> Seq<(Datum, Table)> {
    g.map_values(|e: (Value, Dataset)| (e.0@, e.1@))
}

/// Whether no key occurs twice among the groups.
pub open spec fn group_keys_distinct(g: Seq<(Datum, Table)>) -> bool {
    forall|a: int, b: int| 0 <= a < b < g.len() ==> #[trigger] g[a].0 != #[trigger] g[b].0
}

/// Whether no key occurs twice among the aggregated groups.
pub open spec fn pair_keys_distinct(g: Seq<(Datum, Datum)>) -> bool {
    forall|a: int, b: int| 0 <= a < b < g.len() ==> #[trigger] g[a].0 != #[trigger] g[b].0
}

pub proof fn lemma_seq_contains_push(s: Seq<Datum>, x: Datum, v: Datum)
    ensures
        s.push(x).contains(v) <==> (s.contains(v) || v == x),
{
    if s.contains(v) {
        let k = choose|k: int| 0 <= k < s.len() && s[k] == v;
        assert(s.push(x)[k] == v);
    }
    if v == x {
        assert(s.push(x)[s.len() as int] == v);
    }
    if s.push(x).contains(v) {
        let k = choose|k: int| 0 <= k < s.push(x).len() && s.push(x)[k] == v;
        if k < s.len() {
            assert(s[k] == v);
        }
    }
}

pub proof fn lemma_distinct_values_contains(vals: Seq<Datum>, v: Datum)
    ensures
        distinct_values(vals).contains(v) <==> vals.contains(v),
    decreases vals.len(),
{
    if vals.len() > 0 {
        let prev = distinct_values(vals.drop_last());
        lemma_distinct_values_contains(vals.drop_last(), v);
        assert(vals =~= vals.drop_last().push(vals.last()));
        lemma_seq_contains_push(vals.drop_last(), vals.last(), v);
        lemma_seq_contains_push(prev, vals.last(), v);
        if prev.contains(vals.last()) && v == vals.last() {
            assert(prev.contains(v));
        }
    }
}

pub proof fn lemma_distinct_values_unique(vals: Seq<Datum>)
    ensures
        forall|a: int, b: int|
            0 <= a < b < distinct_values(vals).len() ==> distinct_values(vals)[a] != distinct_values(vals)[b],
    decreases vals.len(),
{
    if vals.len() > 0 {
        let prev = distinct_values(vals.drop_last());
        lemma_distinct_values_unique(vals.drop_last());
        if !prev.contains(vals.last()) {
            let d = prev.push(vals.last());
            assert forall|a: int, b: int| 0 <= a < b < d.len() implies d[a] != d[b] by {
                if b == prev.len() {
                    if d[a] == d[b] {
                        assert(prev[a] == vals.last());
                    }
                } else {
                    assert(d[a] == prev[a] && d[b] == prev[b]);
                }
            }
        }
    }
}

pub proof fn lemma_grouped(t: Table, name: Seq<char>)
    ensures
        grouped(t, name).len() == distinct_values(column_values(t.rows, column_position(t.columns, name))).len(),
        forall|g: int| 0 <= g < grouped(t, name).len() ==> #[trigger] grouped(t, name)[g] == ({
            let p = column_position(t.columns, name);
            let k = distinct_values(column_values(t.rows, p))[g];
            (k, Table { columns: t.columns, rows: rows_with(t.rows, p, k) })
        }),
{
}

pub proof fn lemma_rows_with_absent(rows: Seq<Seq<Datum>>, p: int, key: Datum)
    requires
        forall|k: int| 0 <= k < rows.len() ==> #[trigger] rows[k][p] != key,
    ensures
        rows_with(rows, p, key) == Seq::<Seq<Datum>>::empty(),
    decreases rows.len(),
{
    if rows.len() > 0 {
        lemma_rows_with_absent(rows.drop_last(), p, key);
        assert(rows.last() == rows[rows.len() - 1]);
    }
}

/// The groups of the rows of `dataset` by the value of column `group_by_column`.
pub fn group_by_dataset(dataset: Dataset, group_by_column: &String) -> (groups: Vec<(Value, Dataset)>)
    requires
        grouping_runs(dataset@, group_by_column@),
    ensures
        groups_view(groups@) == grouped(dataset@, group_by_column@),
        group_keys_distinct(groups_view(groups@)),
{
    proof {
        use_type_invariant(&dataset);
    }
    let p = dataset.column_index(group_by_column);
    let rows = dataset.rows();
    let n = rows.len();
    let ghost cols = dataset@.columns;
    let ghost all = dataset@.rows;
    let mut groups: Vec<(Value, Dataset)> = Vec::new();
    for i in 0..n
        invariant
            n == rows@.len(),
            all == rows@.map_values(|r: Row| r@),
            cols == dataset@.columns,
            all == dataset@.rows,
            p == column_position(cols, group_by_column@),
            rows_full(dataset@),
            grouping_runs(dataset@, group_by_column@),
            groups_view(groups@) == grouped(Table { columns: cols, rows: all.take(i as int) }, group_by_column@),
    {
        let ghost prefix = all.take(i as int);
        let ghost next = all.take(i + 1);
        let ghost keys = distinct_values(column_values(prefix, p as int));
        let row = &rows[i];
        assert(row@ == all[i as int]);
        assert(next.drop_last() =~= prefix);
        assert(next.last() == all[i as int]);
        assert(column_values(next, p as int).drop_last() =~= column_values(prefix, p as int));
        assert(column_values(next, p as int).last() == row@[p as int]);
        assert(p < row@.len());
        let key = row.get_value(p);
        let mut found: usize = 0;
        let glen = groups.len();
        while found < glen
            invariant
                glen == groups@.len(),
                0 <= found <= glen,
                groups_view(groups@) == grouped(Table { columns: cols, rows: prefix }, group_by_column@),
                keys == distinct_values(column_values(prefix, p as int)),
                forall|g: int| 0 <= g < found ==> (#[trigger] groups@[g]).0@ != key@,
            ensures
                0 <= found <= glen,
                found < glen ==> groups@[found as int].0@ == key@,
                forall|g: int| 0 <= g < found ==> (#[trigger] groups@[g]).0@ != key@,
            decreases glen - found,
        {
            assert(groups_view(groups@)[found as int].0 == groups@[found as int].0@);
            if groups[found].0.same_as(key) {
                break;
            }
            found = found + 1;
        }
        proof {
            lemma_grouped(Table { columns: cols, rows: prefix }, group_by_column@);
            lemma_grouped(Table { columns: cols, rows: next }, group_by_column@);
            lemma_distinct_values_unique(column_values(prefix, p as int));
            lemma_distinct_values_contains(column_values(prefix, p as int), key@);
        }
        if found < glen {
            assert(groups_view(groups@)[found as int].0 == groups@[found as int].0@);
            assert(grouped(Table { columns: cols, rows: prefix }, group_by_column@)[found as int].0 == keys[found as int]);
            assert(keys[found as int] == key@);
            assert(keys.contains(key@));
            let ghost old_groups = groups@;
            assert(groups_view(groups@)[found as int].1 == groups@[found as int].1@);
            let (k, mut d) = groups.remove(found);
            d.add_row(row.duplicate());
            groups.insert(found, (k, d));
            assert forall|g: int| 0 <= g < groups@.len() implies #[trigger] groups_view(groups@)[g]
                == grouped(Table { columns: cols, rows: next }, group_by_column@)[g] by {
                let kg = keys[g];
                assert(groups_view(old_groups)[g] == grouped(Table { columns: cols, rows: prefix }, group_by_column@)[g]);
                if g != found {
                    assert(groups@[g] == old_groups[g]);
                    assert(kg != key@);
                }
            }
            assert(groups_view(groups@) =~= grouped(Table { columns: cols, rows: next }, group_by_column@));
        } else {
            assert(!keys.contains(key@)) by {
                if keys.contains(key@) {
                    let g = choose|g: int| 0 <= g < keys.len() && keys[g] == key@;
                    assert(groups_view(groups@)[g].0 == groups@[g].0@);
                    assert(grouped(Table { columns: cols, rows: prefix }, group_by_column@)[g].0 == keys[g]);
                }
            }
            proof {
                assert forall|k: int| 0 <= k < prefix.len() implies #[trigger] prefix[k][p as int] != key@ by {
                    assert(column_values(prefix, p as int)[k] == prefix[k][p as int]);
                }
                lemma_rows_with_absent(prefix, p as int, key@);
            }
            let mut d = Dataset::new(dataset.copy_columns());
            d.add_row(row.duplicate());
            let ghost old_groups = groups@;
            groups.push((key.duplicate(), d));
            assert(distinct_values(column_values(next, p as int)) == keys.push(key@));
            assert(rows_with(next, p as int, key@) =~= seq![row@]);
            assert forall|g: int| 0 <= g < groups@.len() implies #[trigger] groups_view(groups@)[g]
                == grouped(Table { columns: cols, rows: next }, group_by_column@)[g] by {
                if g < old_groups.len() {
                    assert(groups@[g] == old_groups[g]);
                    assert(groups_view(old_groups)[g] == grouped(Table { columns: cols, rows: prefix }, group_by_column@)[g]);
                    assert(keys[g] != key@);
                }
            }
            assert(groups_view(groups@) =~= grouped(Table { columns: cols, rows: next }, group_by_column@));
        }
    }
    assert(all.take(n as int) =~= all);
    assert(Table { columns: cols, rows: all } == dataset@);
    proof {
        lemma_grouped(dataset@, group_by_column@);
        lemma_distinct_values_unique(column_values(all, p as int));
    }
    groups
}


/// The integer that a datum holds, 0 for text.
pub open spec fn int_of(d: Datum) -> int {
    match d {
        Datum::Int(v) => v as int,
        Datum::Text(_) => 0,
    }
}

/// The sum of the integers at position `p` of the rows.
pub open spec fn column_sum(rows: Seq<Seq<Datum>>, p: int) -> int
    decreases rows.len(),
{
    if rows.len() == 0 {
        0
    } else {
        column_sum(rows.drop_last(), p) + int_of(rows.last()[p])
    }
}

/// Integer division rounded toward zero, for a positive divisor.
pub open spec fn truncated_div(a: int, b: int) -> int {
    if a >= 0 {
        a / b
    } else {
        -((-a) / b)
    }
}

/// The value that aggregation `a` gives for the rows of `t`. A count that
/// does not fit in an `i32` wraps around.
pub open spec fn aggregate_value(t: Table, a: Aggregation) -> Datum {
    match a {
        Aggregation::Count(_) => Datum::Int(t.rows.len() as i32),
        Aggregation::Sum(c) => Datum::Int(column_sum(t.rows, column_position(t.columns, c@)) as i32),
        Aggregation::Average(c) => {
            let s = column_sum(t.rows, column_position(t.columns, c@));
            Datum::Int(if t.rows.len() == 0 { 0 } else { truncated_div(s, t.rows.len() as int) as i32 })
        },
    }
}

/// Whether every row of `t` holds an integer at position `p` and every
/// running sum of those integers fits in an `i32`.
pub open spec fn summable_at(t: Table, p: int) -> bool {
    &&& forall|k: int| 0 <= k < t.rows.len() ==> p < #[trigger] t.rows[k].len() && t.rows[k][p] is Int
    &&& forall|k: int| 0 <= k <= t.rows.len() ==> i32::MIN <= #[trigger] column_sum(t.rows.take(k), p) <= i32::MAX
}

/// Whether the column named `c` exists, every row holds an integer there,
/// and every running sum of those integers fits in an `i32`.
pub open spec fn summable(t: Table, c: Seq<char>) -> bool {
    has_column(t.columns, c) && summable_at(t, column_position(t.columns, c))
}

/// Whether aggregation `a` can be computed on `t` without failing.
pub open spec fn aggregation_runs(t: Table, a: Aggregation) -> bool {
    match a {
        Aggregation::Count(_) => true,
        Aggregation::Sum(c) => summable(t, c@),
        Aggregation::Average(c) => summable(t, c@) && t.rows.len() <= i32::MAX,
    }
}

/// The sum of the integers at position `p` of the rows of `group`.
fn sum_column(group: &Dataset, p: usize) -> (sum: i32)
    requires
        summable_at(group@, p as int),
    ensures
        sum == column_sum(group@.rows, p as int),
{
    let rows = group.rows();
    let n = rows.len();
    let ghost all = group@.rows;
    let mut sum: i32 = 0;
    for i in 0..n
        invariant
            n == rows@.len(),
            all == rows@.map_values(|r: Row| r@),
            all == group@.rows,
            summable_at(group@, p as int),
            sum == column_sum(all.take(i as int), p as int),
    {
        let row = &rows[i];
        assert(row@ == all[i as int]);
        assert(all.take(i + 1).drop_last() =~= all.take(i as int));
        assert(all.take(i + 1).last() == all[i as int]);
        assert(p < all[i as int].len() && all[i as int][p as int] is Int);
        assert(i32::MIN <= column_sum(all.take(i + 1), p as int) <= i32::MAX);
        match row.get_value(p) {
            Value::Integer(val) => {
                sum = sum + *val;
            },
            Value::String(_) => {
                proof {
                    assert(false);
                }
            },
        }
    }
    assert(all.take(n as int) =~= all);
    sum
}

/// The value that `aggregation` gives for `group_dataset`.
pub fn aggregate_group(group_dataset: &Dataset, aggregation: &Aggregation) -> (v: Value)
    requires
        aggregation_runs(group_dataset@, *aggregation),
    ensures
        v@ == aggregate_value(group_dataset@, *aggregation),
{
    match aggregation {
        Aggregation::Count(_) => Value::Integer(group_dataset.len() as i32),
        Aggregation::Sum(column_name) => {
            let i = group_dataset.column_index(column_name);
            let sum = sum_column(group_dataset, i);
            Value::Integer(sum)
        },
        Aggregation::Average(column_name) => {
            let i = group_dataset.column_index(column_name);
            let sum = sum_column(group_dataset, i);
            let count = group_dataset.len() as i32;
            let avg = if count == 0 { 0 } else { sum / count };
            Value::Integer(avg)
        },
    }
}

/// The aggregated value of each group, keyed and ordered as the groups.
pub open spec fn aggregated(groups: Seq<(Datum, Table)>, a: Aggregation) -> Seq<(Datum, Datum)> {
    groups.map_values(|g: (Datum, Table)| (g.0, aggregate_value(g.1, a)))
}

/// The view of a list of aggregated groups.
pub open spec fn pairs_view(g: Seq<(Value, Value)>) -> Seq<(Datum, Datum)> {
    g.map_values(|e: (Value, Value)| (e.0@, e.1@))
}

/// Reduces each group with `aggregation`.
pub fn aggregate_dataset(dataset: Vec<(Value, Dataset)>, aggregation: &Aggregation) -> (result: Vec<(Value, Value)>)
    requires
        group_keys_distinct(groups_view(dataset@)),
        forall|g: int| 0 <= g < dataset@.len() ==> aggregation_runs(#[trigger] dataset@[g].1@, *aggregation),
    ensures
        pairs_view(result@) == aggregated(groups_view(dataset@), *aggregation),
        pair_keys_distinct(pairs_view(result@)),
{
    let mut result: Vec<(Value, Value)> = Vec::new();
    let n = dataset.len();
    for i in 0..n
        invariant
            n == dataset@.len(),
            forall|g: int| 0 <= g < dataset@.len() ==> aggregation_runs(#[trigger] dataset@[g].1@, *aggregation),
            result@.len() == i,
            forall|g: int| 0 <= g < i ==> #[trigger] pairs_view(result@)[g] == aggregated(groups_view(dataset@), *aggregation)[g],
    {
        let (group_val, group_dataset) = &dataset[i];
        let agg_val = aggregate_group(group_dataset, aggregation);
        let ghost before = result@;
        result.push((group_val.duplicate(), agg_val));
        assert(pairs_view(result@) =~= pairs_view(before).push((group_val@, agg_val@)));
        assert(pairs_view(result@)[i as int] == aggregated(groups_view(dataset@), *aggregation)[i as int]);
    }
    assert(pairs_view(result@) =~= aggregated(groups_view(dataset@), *aggregation));
    assert forall|a: int, b: int| 0 <= a < b < pairs_view(result@).len() implies
        #[trigger] pairs_view(result@)[a].0 != #[trigger] pairs_view(result@)[b].0 by {
        assert(groups_view(dataset@)[a].0 != groups_view(dataset@)[b].0);
    }
    result
}

/// Whether `q` can be computed on `t` without failing: every row can be
/// checked against the filter, the grouping column exists and every kept row
/// has a value there, and every group can be aggregated.
pub open spec fn query_runs(t: Table, q: Query) -> bool {
    let kept = Table { columns: t.columns, rows: matching_rows(t.columns, t.rows, q.filter) };
    &&& filter_runs(t, q.filter)
    &&& grouping_runs(kept, q.group_by@)
    &&& forall|g: int| 0 <= g < grouped(kept, q.group_by@).len()
        ==> aggregation_runs(#[trigger] grouped(kept, q.group_by@)[g].1, q.aggregate)
}

/// The result of `q` on `t`: two columns, the grouping column (with its type
/// in `t`) and the aggregate (an integer column), and one row per group of the
/// kept rows, holding the group's value and its aggregate.
pub open spec fn query_result(t: Table, q: Query) -> Table {
    let kept = Table { columns: t.columns, rows: matching_rows(t.columns, t.rows, q.filter) };
    let groups = aggregated(grouped(kept, q.group_by@), q.aggregate);
    Table {
        columns: seq![
            (q.group_by@, t.columns[column_position(t.columns, q.group_by@)].1),
            (result_column_name(q.aggregate), ColumnType::Integer),
        ],
        rows: groups.map_values(|g: (Datum, Datum)| seq![g.0, g.1]),
    }
}

/// Runs `query` on `dataset`.
pub fn compute_query_on_dataset(dataset: &Dataset, query: &Query) -> (result: Dataset)
    requires
        query_runs(dataset@, *query),
    ensures
        result@ == query_result(dataset@, *query),
{
    let filtered = filter_dataset(dataset, query.get_filter());
    let ghost kept = Table { columns: dataset@.columns, rows: matching_rows(dataset@.columns, dataset@.rows, query.filter) };
    assert(filtered@ == kept);
    let grouped_rows = group_by_dataset(filtered, query.get_group_by());
    assert(groups_view(grouped_rows@) == grouped(kept, query.group_by@));
    assert forall|g: int| 0 <= g < grouped_rows@.len() implies aggregation_runs(#[trigger] grouped_rows@[g].1@, query.aggregate) by {
        assert(groups_view(grouped_rows@).len() == grouped_rows@.len());
        assert(groups_view(grouped_rows@)[g] == (grouped_rows@[g].0@, grouped_rows@[g].1@));
        assert(groups_view(grouped_rows@)[g] == grouped(kept, query.group_by@)[g]);
        assert(aggregation_runs(grouped(kept, query.group_by@)[g].1, query.aggregate));
    }
    let aggregated_rows = aggregate_dataset(grouped_rows, query.get_aggregate());

    // The columns of the result.
    let group_by_column_name = query.get_group_by();
    let group_by_column_type = dataset.column_type(group_by_column_name);
    let mut columns: Vec<(String, ColumnType)> = Vec::new();
    columns.push((group_by_column_name.clone(), *group_by_column_type));
    columns.push((query.get_aggregate().get_result_column_name(), ColumnType::Integer));

    let mut result = Dataset::new(columns);
    let n = aggregated_rows.len();
    let ghost want = query_result(dataset@, *query);
    assert(result@.columns =~= want.columns);
    for i in 0..n
        invariant
            n == aggregated_rows@.len(),
            pairs_view(aggregated_rows@) == aggregated(grouped(kept, query.group_by@), query.aggregate),
            want == query_result(dataset@, *query),
            kept == (Table { columns: dataset@.columns, rows: matching_rows(dataset@.columns, dataset@.rows, query.filter) }),
            result@.columns == want.columns,
            result@.rows == want.rows.take(i as int),
    {
        let (grouped_value, aggregation_value) = &aggregated_rows[i];
        let mut values: Vec<Value> = Vec::new();
        values.push(grouped_value.duplicate());
        values.push(aggregation_value.duplicate());
        let row = Row::new(values);
        assert(pairs_view(aggregated_rows@)[i as int] == (grouped_value@, aggregation_value@));
        assert(row@ =~= want.rows[i as int]);
        result.add_row(row);
        assert(result@.rows =~= want.rows.take(i + 1));
    }
    assert(want.rows.take(n as int) =~= want.rows);
    result
}


pub proof fn lemma_rows_contains_push(s: Seq<Seq<Datum>>, x: Seq<Datum>, v: Seq<Datum>)
    ensures
        s.push(x).contains(v) <==> (s.contains(v) || v == x),
{
    if s.contains(v) {
        let k = choose|k: int| 0 <= k < s.len() && s[k] == v;
        assert(s.push(x)[k] == v);
    }
    if v == x {
        assert(s.push(x)[s.len() as int] == v);
    }
    if s.push(x).contains(v) {
        let k = choose|k: int| 0 <= k < s.push(x).len() && s.push(x)[k] == v;
        if k < s.len() {
            assert(s[k] == v);
        }
    }
}

/// Filtering keeps exactly the rows that satisfy the condition.
pub proof fn law_filter_keeps_matching_rows(cols: Seq<(Seq<char>, ColumnType)>, rows: Seq<Seq<Datum>>, c: Condition)
    ensures
        forall|r: Seq<Datum>|
            #[trigger] matching_rows(cols, rows, c).contains(r) <==> (rows.contains(r) && holds(cols, r, c)),
    decreases rows.len(),
{
    if rows.len() > 0 {
        law_filter_keeps_matching_rows(cols, rows.drop_last(), c);
        let prev = matching_rows(cols, rows.drop_last(), c);
        assert forall|r: Seq<Datum>|
            #[trigger] matching_rows(cols, rows, c).contains(r) <==> (rows.contains(r) && holds(cols, r, c)) by {
            assert(rows =~= rows.drop_last().push(rows.last()));
            lemma_rows_contains_push(rows.drop_last(), rows.last(), r);
            lemma_rows_contains_push(prev, rows.last(), r);
        }
    }
}

/// Filtering twice with the same condition is filtering once.
pub proof fn law_filter_idempotent(cols: Seq<(Seq<char>, ColumnType)>, rows: Seq<Seq<Datum>>, c: Condition)
    ensures
        matching_rows(cols, matching_rows(cols, rows, c), c) == matching_rows(cols, rows, c),
    decreases rows.len(),
{
    if rows.len() > 0 {
        law_filter_idempotent(cols, rows.drop_last(), c);
        let prev = matching_rows(cols, rows.drop_last(), c);
        if holds(cols, rows.last(), c) {
            assert(prev.push(rows.last()).drop_last() =~= prev);
        }
    }
}

/// Filtering by `And(a, b)` is filtering by `a`, then by `b`.
pub proof fn law_filter_and(cols: Seq<(Seq<char>, ColumnType)>, rows: Seq<Seq<Datum>>, a: Condition, b: Condition)
    ensures
        matching_rows(cols, rows, Condition::And(Box::new(a), Box::new(b)))
            == matching_rows(cols, matching_rows(cols, rows, a), b),
    decreases rows.len(),
{
    if rows.len() > 0 {
        law_filter_and(cols, rows.drop_last(), a, b);
        let prev = matching_rows(cols, rows.drop_last(), a);
        if holds(cols, rows.last(), a) {
            assert(prev.push(rows.last()).drop_last() =~= prev);
        }
    }
}

/// A condition and its negation split the rows between them.
pub proof fn law_filter_not_complements(cols: Seq<(Seq<char>, ColumnType)>, rows: Seq<Seq<Datum>>, c: Condition)
    ensures
        matching_rows(cols, rows, c).len() + matching_rows(cols, rows, Condition::Not(Box::new(c))).len()
            == rows.len(),
    decreases rows.len(),
{
    if rows.len() > 0 {
        law_filter_not_complements(cols, rows.drop_last(), c);
    }
}

/// The number of rows of the groups `keys`.
pub open spec fn group_sizes(rows: Seq<Seq<Datum>>, p: int, keys: Seq<Datum>) -> int
    decreases keys.len(),
{
    if keys.len() == 0 {
        0
    } else {
        group_sizes(rows, p, keys.drop_last()) + rows_with(rows, p, keys.last()).len()
    }
}

/// How many of `keys` equal `v`.
pub open spec fn occurrences(keys: Seq<Datum>, v: Datum) -> int
    decreases keys.len(),
{
    if keys.len() == 0 {
        0
    } else {
        occurrences(keys.drop_last(), v) + if keys.last() == v { 1int } else { 0int }
    }
}

pub proof fn lemma_group_sizes_push_row(rows: Seq<Seq<Datum>>, r: Seq<Datum>, p: int, keys: Seq<Datum>)
    ensures
        group_sizes(rows.push(r), p, keys) == group_sizes(rows, p, keys) + occurrences(keys, r[p]),
    decreases keys.len(),
{
    if keys.len() > 0 {
        lemma_group_sizes_push_row(rows, r, p, keys.drop_last());
        assert(rows.push(r).drop_last() =~= rows);
    }
}

pub proof fn lemma_occurrences_distinct(keys: Seq<Datum>, v: Datum)
    requires
        forall|a: int, b: int| 0 <= a < b < keys.len() ==> keys[a] != keys[b],
    ensures
        occurrences(keys, v) == if keys.contains(v) { 1int } else { 0int },
    decreases keys.len(),
{
    if keys.len() > 0 {
        let prev = keys.drop_last();
        lemma_occurrences_distinct(prev, v);
        assert(keys =~= prev.push(keys.last()));
        lemma_seq_contains_push(prev, keys.last(), v);
        if keys.last() == v && prev.contains(v) {
            let k = choose|k: int| 0 <= k < prev.len() && prev[k] == v;
            assert(keys[k] == keys[keys.len() - 1]);
        }
    }
}

/// The groups of a grouping hold every row exactly once: their sizes add up
/// to the number of rows.
pub proof fn law_groups_partition_rows(rows: Seq<Seq<Datum>>, p: int)
    ensures
        group_sizes(rows, p, distinct_values(column_values(rows, p))) == rows.len(),
    decreases rows.len(),
{
    if rows.len() > 0 {
        let prev = rows.drop_last();
        let r = rows.last();
        law_groups_partition_rows(prev, p);
        let vals = column_values(rows, p);
        assert(vals.drop_last() =~= column_values(prev, p));
        assert(vals.last() == r[p]);
        assert(rows =~= prev.push(r));
        let keys = distinct_values(column_values(prev, p));
        lemma_distinct_values_unique(column_values(prev, p));
        lemma_distinct_values_contains(column_values(prev, p), r[p]);
        lemma_group_sizes_push_row(prev, r, p, keys);
        lemma_occurrences_distinct(keys, r[p]);
        if !keys.contains(r[p]) {
            assert(keys.push(r[p]).drop_last() =~= keys);
            assert forall|k: int| 0 <= k < prev.len() implies #[trigger] prev[k][p] != r[p] by {
                assert(column_values(prev, p)[k] == prev[k][p]);
                if prev[k][p] == r[p] {
                    assert(column_values(prev, p).contains(r[p]));
                }
            }
            lemma_rows_with_absent(prev, p, r[p]);
        }
    }
}

/// Every row of a group holds the group's value in the grouping column.
pub proof fn law_group_rows_hold_key(rows: Seq<Seq<Datum>>, p: int, key: Datum)
    ensures
        forall|k: int| 0 <= k < rows_with(rows, p, key).len() ==> (#[trigger] rows_with(rows, p, key)[k])[p] == key,
    decreases rows.len(),
{
    if rows.len() > 0 {
        law_group_rows_hold_key(rows.drop_last(), p, key);
    }
}


pub proof fn lemma_group_sizes_parts(rows: Seq<Seq<Datum>>, p: int, keys: Seq<Datum>)
    ensures
        group_sizes(rows, p, keys) >= 0,
        keys.len() > 0 ==> group_sizes(rows, p, keys.drop_last()) <= group_sizes(rows, p, keys),
        keys.len() > 0 ==> rows_with(rows, p, keys.last()).len() <= group_sizes(rows, p, keys),
    decreases keys.len(),
{
    if keys.len() > 0 {
        lemma_group_sizes_parts(rows, p, keys.drop_last());
    }
}

/// The rows of a count query over the groups `keys`.
pub open spec fn count_rows(rows: Seq<Seq<Datum>>, p: int, keys: Seq<Datum>) -> Seq<Seq<Datum>> {
    keys.map_values(|k: Datum| seq![k, Datum::Int(rows_with(rows, p, k).len() as i32)])
}

pub proof fn lemma_count_rows_sum(rows: Seq<Seq<Datum>>, p: int, keys: Seq<Datum>)
    requires
        group_sizes(rows, p, keys) <= i32::MAX,
    ensures
        column_sum(count_rows(rows, p, keys), 1) == group_sizes(rows, p, keys),
    decreases keys.len(),
{
    if keys.len() > 0 {
        lemma_group_sizes_parts(rows, p, keys);
        lemma_count_rows_sum(rows, p, keys.drop_last());
        assert(count_rows(rows, p, keys).drop_last() =~= count_rows(rows, p, keys.drop_last()));
        let n = rows_with(rows, p, keys.last()).len();
        assert(count_rows(rows, p, keys).last() == seq![keys.last(), Datum::Int(n as i32)]);
        assert(int_of(Datum::Int(n as i32)) == n);
    }
}

/// The counts of a count query add up to the number of rows that pass the
/// filter.
pub proof fn law_counts_add_up_to_kept_rows(t: Table, q: Query)
    requires
        q.aggregate is Count,
        t.rows.len() <= i32::MAX,
    ensures
        column_sum(query_result(t, q).rows, 1) == matching_rows(t.columns, t.rows, q.filter).len(),
{
    let kept_rows = matching_rows(t.columns, t.rows, q.filter);
    let kept = Table { columns: t.columns, rows: kept_rows };
    let p = column_position(t.columns, q.group_by@);
    let keys = distinct_values(column_values(kept_rows, p));
    law_filter_not_complements(t.columns, t.rows, q.filter);
    law_groups_partition_rows(kept_rows, p);
    lemma_count_rows_sum(kept_rows, p, keys);
    assert(query_result(t, q).rows =~= count_rows(kept_rows, p, keys));
}


/// An `Equal` condition holds of a row exactly when the row's value in the
/// named column is the given value: a row satisfies it for one value only,
/// and any row holding that value there satisfies it.
pub proof fn law_equal_condition_is_value_equality(
    cols: Seq<(Seq<char>, ColumnType)>,
    row: Seq<Datum>,
    name: String,
    v: Value,
    w: Value,
)
    ensures
        holds(cols, row, Condition::Equal(name, v)) <==> row[column_position(cols, name@)] == v@,
        holds(cols, row, Condition::Equal(name, v)) && holds(cols, row, Condition::Equal(name, w)) ==> v@ == w@,
        row[column_position(cols, name@)] == v@ ==> holds(cols, row, Condition::Equal(name, v)),
{
}

/// Whether datum `d` is a value of a column of type `ty`.
pub open spec fn datum_has_type(d: Datum, ty: ColumnType) -> bool {
    match d {
        Datum::Int(_) => ty == ColumnType::Integer,
        Datum::Text(_) => ty == ColumnType::String,
    }
}

/// The average of a nonempty group is its sum divided by its count, rounded
/// toward zero: the remainder `sum - average * count` lies strictly within one
/// count of zero and has the sign of the sum.
pub proof fn law_average_is_sum_over_count(t: Table, c: String)
    requires
        aggregation_runs(t, Aggregation::Average(c)),
        t.rows.len() > 0,
    ensures
        ({
            let avg = int_of(aggregate_value(t, Aggregation::Average(c)));
            let sum = int_of(aggregate_value(t, Aggregation::Sum(c)));
            let cnt = int_of(aggregate_value(t, Aggregation::Count(c)));
            &&& cnt == t.rows.len()
            &&& sum == column_sum(t.rows, column_position(t.columns, c@))
            &&& sum >= 0 ==> 0 <= sum - avg * cnt < cnt
            &&& sum < 0 ==> -cnt < sum - avg * cnt <= 0
        }),
{
    let p = column_position(t.columns, c@);
    let n = t.rows.len() as int;
    assert(t.rows.take(n) =~= t.rows);
    assert(column_sum(t.rows.take(n), p) == column_sum(t.rows, p));
    let s = column_sum(t.rows, p);
    assert(i32::MIN <= s <= i32::MAX);
    if s >= 0 {
        assert(0 <= s - (s / n) * n < n && 0 <= s / n <= s) by (nonlinear_arith)
            requires
                s >= 0,
                n > 0,
        ;
    } else {
        let m = -s;
        assert(0 <= m - (m / n) * n < n && 0 <= m / n <= m) by (nonlinear_arith)
            requires
                m > 0,
                n > 0,
        ;
        assert(s - (-(m / n)) * n == -(m - (m / n) * n)) by (nonlinear_arith)
            requires
                m == -s,
        ;
    }
}

/// Whether the group value of row `k` of the result of `q` on `t` is the
/// value of the grouping column in some row of `t` that passes the filter.
pub open spec fn key_from_kept_row(t: Table, q: Query, k: int) -> bool {
    exists|j: int| 0 <= j < t.rows.len() && holds(t.columns, t.rows[j], q.filter)
        && t.rows[j][column_position(t.columns, q.group_by@)] == query_result(t, q).rows[k][0]
}

pub proof fn lemma_result_key_from_input(t: Table, q: Query, k: int)
    requires
        0 <= k < query_result(t, q).rows.len(),
    ensures
        key_from_kept_row(t, q, k),
{
    let g = q.group_by@;
    let p = column_position(t.columns, g);
    let kept_rows = matching_rows(t.columns, t.rows, q.filter);
    let kept = Table { columns: t.columns, rows: kept_rows };
    lemma_grouped(kept, g);
    law_filter_keeps_matching_rows(t.columns, t.rows, q.filter);
    let vals = column_values(kept_rows, p);
    let key = distinct_values(vals)[k];
    assert(query_result(t, q).rows[k][0] == key);
    assert(distinct_values(vals).contains(key));
    lemma_distinct_values_contains(vals, key);
    let i = choose|i: int| 0 <= i < vals.len() && vals[i] == key;
    assert(kept_rows.contains(kept_rows[i]));
    let j = choose|j: int| 0 <= j < t.rows.len() && t.rows[j] == kept_rows[i];
    assert(holds(t.columns, t.rows[j], q.filter));
    assert(t.rows[j][p] == query_result(t, q).rows[k][0]);
}

/// The result of a query keeps the type of the grouping column: looking the
/// column up by name gives the same type in the result as in the input. Each
/// group value is the value of that column in some kept row of the input, so
/// when the input's values match their column's type, every value of the
/// result matches the type of its column.
pub proof fn law_query_result_keeps_column_types(t: Table, q: Query)
    ensures
        query_result(t, q).columns[column_position(query_result(t, q).columns, q.group_by@)].1
            == t.columns[column_position(t.columns, q.group_by@)].1,
        forall|k: int| 0 <= k < query_result(t, q).rows.len() ==> #[trigger] key_from_kept_row(t, q, k),
        (forall|j: int| 0 <= j < t.rows.len() ==> datum_has_type(
            (#[trigger] t.rows[j])[column_position(t.columns, q.group_by@)],
            t.columns[column_position(t.columns, q.group_by@)].1,
        )) ==> forall|k: int| 0 <= k < query_result(t, q).rows.len() ==> {
            &&& datum_has_type((#[trigger] query_result(t, q).rows[k])[0], query_result(t, q).columns[0].1)
            &&& datum_has_type(query_result(t, q).rows[k][1], query_result(t, q).columns[1].1)
        },
{
    let g = q.group_by@;
    let p = column_position(t.columns, g);
    assert(column_position(query_result(t, q).columns, g) == 0);
    assert forall|k: int| 0 <= k < query_result(t, q).rows.len() implies #[trigger] key_from_kept_row(t, q, k) by {
        lemma_result_key_from_input(t, q, k);
    }
    if forall|j: int| 0 <= j < t.rows.len() ==> datum_has_type(
        (#[trigger] t.rows[j])[p], t.columns[p].1) {
        assert forall|k: int| 0 <= k < query_result(t, q).rows.len() implies {
            &&& datum_has_type((#[trigger] query_result(t, q).rows[k])[0], query_result(t, q).columns[0].1)
            &&& datum_has_type(query_result(t, q).rows[k][1], query_result(t, q).columns[1].1)
        } by {
            assert(key_from_kept_row(t, q, k));
            let j = choose|j: int| 0 <= j < t.rows.len() && holds(t.columns, t.rows[j], q.filter)
                && t.rows[j][p] == query_result(t, q).rows[k][0];
            assert(datum_has_type(t.rows[j][p], t.columns[p].1));
        }
    }
}

} // verus!
