//! Laws of the steps SOURCE, SORT_BY, LIMIT and MAP_MANY.
use vstd::prelude::*;
use crate::eval::eval;
use crate::json::flattened;
use crate::laws::mapping::{lemma_set_keeps_apart, part_ways};
use crate::number::num_key;
use crate::order::{json_order, lemma_json_order_symmetric, Order};
use crate::paths::{lemma_get_after_set, lookup, value_at};
use crate::pipeline::{element_members, lemma_sort_by_stable, lemma_sorted_rows, parallelism_of, rows_order, sorted_rows, step_name, step_rows, task_eval, task_inputs, with_columns, Many};
use crate::query::{Expr, MapItem, SortDirection, Step};
use crate::text::{lemma_text_lt_total, path_of, text_lt};
use crate::value::{obj_get, Json, Num};

verus! {

/// SOURCE evaluates each of its sources once, in order, and its rows are the items of what they came
/// to, one source after another: an array gives its items, and anything else is one row.
pub proof fn lemma_source_step(sources: Seq<Expr>, rows: Seq<Json>, results: Seq<Json>, i: int, answers: Seq<Json>)
    ensures
        task_inputs(Step::Source(sources), rows).len() == sources.len(),
        0 <= i < sources.len() ==> task_eval(Step::Source(sources), rows, i, answers) == eval(
            sources[i],
            Json::Null,
            answers,
            0,
        ),
        step_rows(Step::Source(sources), rows, results) == Many::Rows(flattened(results)),
{
}

/// LIMIT keeps the first rows, as many as it says or all of them.
pub proof fn lemma_limit_step(count: nat, rows: Seq<Json>, results: Seq<Json>)
    ensures
        step_rows(Step::Limit(count), rows, results) == Many::Rows(
            rows.take(if count < rows.len() { count as int } else { rows.len() as int }),
        ),
{
    assert(rows.take(rows.len() as int) =~= rows);
}

/// The place of a value's type in the order of types.
pub open spec fn type_place(value: Json) -> int {
    match value {
        Json::Null => 0,
        Json::Bool(_) => 1,
        Json::Number(_) => 2,
        Json::Text(_) => 3,
        Json::Array(_) => 4,
        Json::Object(_) => 5,
    }
}

/// Whether a value may stand before another in ascending order: numbers by value, texts by their
/// characters, false before true, and values of different types by type.
pub open spec fn precedes(a: Json, b: Json) -> bool {
    match (a, b) {
        (Json::Number(x), Json::Number(y)) => num_key(x) <= num_key(y),
        (Json::Text(x), Json::Text(y)) => x == y || text_lt(x, y),
        (Json::Bool(x), Json::Bool(y)) => x ==> y,
        _ => type_place(a) <= type_place(b),
    }
}

/// Whether neither of two values stands before the other.
pub open spec fn level(a: Json, b: Json) -> bool {
    precedes(a, b) && precedes(b, a)
}

proof fn lemma_precedes(a: Json, b: Json)
    ensures
        precedes(a, b) <==> json_order(a, b) != Order::Greater,
        level(a, b) <==> json_order(a, b) == Order::Equal,
        precedes(b, a) <==> json_order(a, b) != Order::Less,
{
    lemma_json_order_symmetric(a, b);
    match (a, b) {
        (Json::Text(x), Json::Text(y)) => lemma_text_lt_total(x, y),
        _ => {},
    }
}

/// What a row holds in a column.
pub open spec fn column(row: Json, key: (Seq<char>, SortDirection)) -> Json {
    value_at(row, path_of(key.0))
}

/// Whether a row may stand before another by a key: in the direction of the key.
pub open spec fn precedes_by(a: Json, b: Json, key: (Seq<char>, SortDirection)) -> bool {
    match key.1 {
        SortDirection::Asc => precedes(column(a, key), column(b, key)),
        SortDirection::Desc => precedes(column(b, key), column(a, key)),
    }
}

/// Whether the first keys, up to one, do not tell two rows apart.
pub open spec fn level_before(a: Json, b: Json, keys: Seq<(Seq<char>, SortDirection)>, k: int) -> bool {
    forall|l: int| 0 <= l < k ==> level(column(a, #[trigger] keys[l]), column(b, keys[l]))
}

proof fn lemma_order_by_keys(keys: Seq<(Seq<char>, SortDirection)>, a: Json, b: Json, k: int)
    requires
        rows_order(keys, a, b) != Order::Greater,
        0 <= k < keys.len(),
        level_before(a, b, keys, k),
    ensures
        precedes_by(a, b, keys[k]),
    decreases keys.len(),
{
    lemma_precedes(column(a, keys[0]), column(b, keys[0]));
    lemma_precedes(column(b, keys[0]), column(a, keys[0]));
    lemma_json_order_symmetric(column(a, keys[0]), column(b, keys[0]));
    if k > 0 {
        assert(level(column(a, keys[0]), column(b, keys[0])));
        let rest = keys.drop_first();
        assert forall|l: int| 0 <= l < k - 1 implies level(column(a, #[trigger] rest[l]), column(b, rest[l])) by {
            assert(rest[l] == keys[l + 1]);
        }
        lemma_order_by_keys(rest, a, b, k - 1);
    }
}

proof fn lemma_level_rows(keys: Seq<(Seq<char>, SortDirection)>, a: Json, b: Json)
    ensures
        rows_order(keys, a, b) == Order::Equal <==> level_before(a, b, keys, keys.len() as int),
    decreases keys.len(),
{
    if keys.len() > 0 {
        let rest = keys.drop_first();
        lemma_precedes(column(a, keys[0]), column(b, keys[0]));
        lemma_level_rows(rest, a, b);
        if level_before(a, b, keys, keys.len() as int) {
            assert(level(column(a, keys[0]), column(b, keys[0])));
            assert forall|l: int| 0 <= l < rest.len() implies level(column(a, #[trigger] rest[l]), column(b, rest[l])) by {
                assert(rest[l] == keys[l + 1]);
            }
        }
        if rows_order(keys, a, b) == Order::Equal {
            assert forall|l: int| 0 <= l < keys.len() implies level(column(a, #[trigger] keys[l]), column(b, keys[l])) by {
                if l > 0 {
                    assert(keys[l] == rest[l - 1]);
                }
            }
        }
    }
}

/// SORT_BY gives the same rows, each as often, in the order of its keys: of two rows the one that
/// stands first may stand before the other by the first key, and where the first keys do not tell
/// them apart, by the next one. Rows that no key tells apart stay in the order they came in.
pub proof fn lemma_sort_by_step(keys: Seq<(Seq<char>, SortDirection)>, rows: Seq<Json>, results: Seq<Json>, like: Json)
    ensures
        ({
            &&& step_rows(Step::SortBy(keys), rows, results) matches Many::Rows(sorted)
            &&& sorted.to_multiset() == rows.to_multiset()
            &&& sorted.len() == rows.len()
            &&& forall|i: int, j: int, k: int|
                0 <= i < j < sorted.len() && 0 <= k < keys.len() && level_before(sorted[i], sorted[j], keys, k)
                    ==> precedes_by(#[trigger] sorted[i], #[trigger] sorted[j], #[trigger] keys[k])
            &&& sorted.filter(|row: Json| level_before(row, like, keys, keys.len() as int)) == rows.filter(
                |row: Json| level_before(row, like, keys, keys.len() as int),
            )
        }),
{
    let sorted = sorted_rows(rows, keys);
    lemma_sorted_rows(rows, keys);
    lemma_sort_by_stable(rows, keys, like);
    let after = |a: Json, b: Json| rows_order(keys, a, b) == Order::Greater;
    assert forall|i: int, j: int, k: int|
        0 <= i < j < sorted.len() && 0 <= k < keys.len() && level_before(sorted[i], sorted[j], keys, k) implies precedes_by(
        #[trigger] sorted[i],
        #[trigger] sorted[j],
        #[trigger] keys[k],
    ) by {
        assert(!after(sorted[i], sorted[j]));
        lemma_order_by_keys(keys, sorted[i], sorted[j], k);
    }
    let same = |row: Json| rows_order(keys, row, like) == Order::Equal;
    let even = |row: Json| level_before(row, like, keys, keys.len() as int);
    assert forall|row: Json| #[trigger] same(row) == even(row) by {
        lemma_level_rows(keys, row, like);
    }
    assert(same =~= even);
}

/// Whether a flattened row comes of an element: it holds the carried columns of the row it came of,
/// and else what the element has, which is an object or stands at the path of the flattened column.
pub open spec fn comes_of(
    output: Json,
    element: Json,
    row: Json,
    field: Seq<char>,
    columns: Seq<Seq<char>>,
) -> bool {
    &&& output is Object
    &&& forall|c: int|
        #![trigger columns[c]]
        0 <= c < columns.len() && path_of(columns[c]).len() > 0 && (forall|d: int|
            c < d < columns.len() ==> part_ways(path_of(#[trigger] columns[d]), path_of(columns[c]))) ==> lookup(
            output,
            path_of(columns[c]),
        ) == Some(value_at(row, path_of(columns[c])))
    &&& forall|other: Seq<Seq<char>>|
        apart_from_all(columns, other) && element is Object ==> #[trigger] lookup(output, other) == lookup(element, other)
    &&& !(element is Object) && path_of(field).len() > 0 && apart_from_all(columns, path_of(field)) ==> lookup(
        output,
        path_of(field),
    ) == Some(element)
}

/// Whether a path parts ways with those of all columns.
pub open spec fn apart_from_all(columns: Seq<Seq<char>>, path: Seq<Seq<char>>) -> bool {
    forall|c: int| 0 <= c < columns.len() ==> part_ways(path_of(#[trigger] columns[c]), path)
}

proof fn lemma_columns_kept(members: Seq<(Seq<char>, Json)>, row: Json, columns: Seq<Seq<char>>, other: Seq<Seq<char>>)
    requires
        apart_from_all(columns, other),
    ensures
        lookup(Json::Object(with_columns(members, row, columns)), other) == lookup(Json::Object(members), other),
    decreases columns.len(),
{
    if columns.len() > 0 {
        let fewer = columns.drop_last();
        assert forall|c: int| 0 <= c < fewer.len() implies part_ways(path_of(#[trigger] fewer[c]), other) by {
            assert(fewer[c] == columns[c]);
        }
        lemma_columns_kept(members, row, fewer, other);
        assert(part_ways(path_of(columns[columns.len() - 1]), other));
        lemma_set_keeps_apart(
            with_columns(members, row, fewer),
            path_of(columns.last()),
            value_at(row, path_of(columns.last())),
            other,
        );
    }
}

proof fn lemma_column_carried(members: Seq<(Seq<char>, Json)>, row: Json, columns: Seq<Seq<char>>, c: int)
    requires
        0 <= c < columns.len(),
        path_of(columns[c]).len() > 0,
        forall|d: int| c < d < columns.len() ==> part_ways(path_of(#[trigger] columns[d]), path_of(columns[c])),
    ensures
        lookup(Json::Object(with_columns(members, row, columns)), path_of(columns[c])) == Some(
            value_at(row, path_of(columns[c])),
        ),
    decreases columns.len(),
{
    let fewer = columns.drop_last();
    let last = columns.len() - 1;
    let before = with_columns(members, row, fewer);
    let (path, value) = (path_of(columns[last]), value_at(row, path_of(columns[last])));
    if c == last {
        lemma_get_after_set(before, path, value);
    } else {
        assert(fewer[c] == columns[c]);
        assert forall|d: int| c < d < fewer.len() implies part_ways(path_of(#[trigger] fewer[d]), path_of(fewer[c])) by {
            assert(fewer[d] == columns[d]);
        }
        lemma_column_carried(members, row, fewer, c);
        assert(part_ways(path_of(columns[last]), path_of(columns[c])));
        lemma_set_keeps_apart(before, path, value, path_of(columns[c]));
    }
}

/// MAP_MANY gives, row after row, one row for each element of the array in its column; a row whose
/// column is null or missing gives none, and one whose column holds anything else fails the step,
/// naming the column and the value. Without carried columns a row is the element itself.
pub proof fn lemma_map_many_step(
    field: Seq<char>,
    columns: Seq<Seq<char>>,
    rows: Seq<Json>,
    results: Seq<Json>,
    row: Json,
)
    ensures
        step_rows(Step::MapMany(field, columns), Seq::empty(), results) == Many::Rows(Seq::empty()),
        ({
            let before = step_rows(Step::MapMany(field, columns), rows, results);
            let after = step_rows(Step::MapMany(field, columns), rows.push(row), results);
            match before {
                Many::Wrong(_, _) => after == before,
                Many::Rows(earlier) => match value_at(row, path_of(field)) {
                    Json::Array(elements) => {
                        &&& after matches Many::Rows(output)
                        &&& output.len() == earlier.len() + elements.len()
                        &&& output.take(earlier.len() as int) == earlier
                        &&& columns.len() == 0 ==> output.skip(earlier.len() as int) == elements
                        &&& columns.len() > 0 ==> forall|e: int|
                            0 <= e < elements.len() ==> comes_of(
                                output[earlier.len() + e],
                                #[trigger] elements[e],
                                row,
                                field,
                                columns,
                            )
                    },
                    Json::Null => after == before,
                    value => after == Many::Wrong(field, value),
                },
            }
        }),
{
    assert(rows.push(row).drop_last() =~= rows);
    assert(rows.push(row).last() == row);
    let before = step_rows(Step::MapMany(field, columns), rows, results);
    let after = step_rows(Step::MapMany(field, columns), rows.push(row), results);
    if let Many::Rows(earlier) = before {
        match value_at(row, path_of(field)) {
            Json::Array(elements) => {
                let output = after->Rows_0;
                assert(output.take(earlier.len() as int) =~= earlier);
                if columns.len() == 0 {
                    assert(output.skip(earlier.len() as int) =~= elements);
                } else {
                    assert forall|e: int| 0 <= e < elements.len() implies comes_of(
                        output[earlier.len() + e],
                        #[trigger] elements[e],
                        row,
                        field,
                        columns,
                    ) by {
                        lemma_comes_of(elements[e], row, field, columns);
                    }
                }
            },
            Json::Null => {
                assert(earlier + Seq::<Json>::empty() =~= earlier);
            },
            _ => {},
        }
    }
}

proof fn lemma_comes_of(element: Json, row: Json, field: Seq<char>, columns: Seq<Seq<char>>)
    ensures
        comes_of(
            Json::Object(with_columns(element_members(element, path_of(field)), row, columns)),
            element,
            row,
            field,
            columns,
        ),
{
    let members = element_members(element, path_of(field));
    let output = Json::Object(with_columns(members, row, columns));
    assert forall|c: int|
        #![trigger columns[c]]
        0 <= c < columns.len() && path_of(columns[c]).len() > 0 && (forall|d: int|
            c < d < columns.len() ==> part_ways(path_of(#[trigger] columns[d]), path_of(columns[c]))) implies lookup(
        output,
        path_of(columns[c]),
    ) == Some(value_at(row, path_of(columns[c]))) by {
        lemma_column_carried(members, row, columns, c);
    }
    assert forall|other: Seq<Seq<char>>| apart_from_all(columns, other) && element is Object implies #[trigger] lookup(
        output,
        other,
    ) == lookup(element, other) by {
        lemma_columns_kept(members, row, columns, other);
    }
    if !(element is Object) && path_of(field).len() > 0 && apart_from_all(columns, path_of(field)) {
        lemma_get_after_set(Seq::empty(), path_of(field), element);
        lemma_columns_kept(members, row, columns, path_of(field));
    }
}

/// The names of steps in reports of progress.
pub proof fn lemma_step_names(sources: Seq<Expr>, config: Json, items: Seq<MapItem>, field: Seq<char>, columns: Seq<Seq<char>>, count: nat)
    ensures
        step_name(Step::Source(sources)) == "Source"@,
        step_name(Step::MapRows(config, items)) == "Map"@,
        forall|condition: Expr| #[trigger] step_name(Step::Filter(condition)) == "Filter"@,
        step_name(Step::MapMany(field, columns)) == "Map many"@,
        step_name(Step::GroupBy(columns, items)) == "Group by"@,
        step_name(Step::SortBy(Seq::empty())) == "Sort by"@,
        step_name(Step::Limit(count)) == "Limit"@,
{
}

/// Rows are mapped several at a time where the configuration asks for more than one and there are
/// more than one: as many as it says, or as there are rows.
pub proof fn lemma_parallelism(config: Json, wanted: u64, count: nat)
    requires
        config is Object,
        obj_get(config->Object_0, "parallel"@) == Some(Json::Number(Num::PosInt(wanted))),
    ensures
        parallelism_of(config, count) == (if wanted <= 1 || count <= 1 {
            None::<int>
        } else if wanted <= count {
            Some(wanted as int)
        } else {
            Some(count as int)
        }),
{
}

} // verus!
