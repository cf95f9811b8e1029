//! The steps of a pipeline. A step is a number of tasks, one evaluation each, and a result made of
//! what the tasks came to.
use vstd::prelude::*;
use crate::eval::{eval, Eval, Evaluated};
use crate::functions::common::{merge_members, merged_members};
use crate::grouping::{group_rows, group_views, grouped, grouped_rows_value, groups_of, key_members, key_output};
use crate::json::{push_items, truthy, value_truthy};
use crate::order::{compare_values, is_order, is_sorted, json_order, lemma_json_order_symmetric, lemma_json_order_transitive, lemma_sort_map, reversed, stable_sort, stable_sorted, Order};
use crate::paths::{assign_output, assigned, get_path, set_path, value_at, with_path};
use crate::query::{map_items, sort_keys_of, MapExpr, MapItem, MapMany, SortDirection, SortKey, Step, SubQuery};
use crate::text::{path_of, path_parts, texts};
use crate::value::{copy_values, jsons, lemma_array_json, lemma_jsons_push, Json, Num, Number, Object, Value};

verus! {

broadcast use {lemma_array_json, lemma_jsons_push};

/// The members of an object, none for any other value.
pub open spec fn members_of(value: Json) -> Seq<(Seq<char>, Json)> {
    match value {
        Json::Object(members) => members,
        _ => Seq::empty(),
    }
}

/// The row that a mapping makes of a row: each part adds to the output in turn.
pub open spec fn map_row_of(items: Seq<MapItem>, row: Json, answers: Seq<Json>, used: nat) -> Eval
    decreases items.len(),
{
    if items.len() == 0 {
        Eval::Done(Json::Object(Seq::empty()), used)
    } else {
        match map_row_of(items.drop_last(), row, answers, used) {
            Eval::Ask(question) => Eval::Ask(question),
            Eval::Done(output, now_used) => match items.last() {
                MapItem::All => match row {
                    Json::Object(members) => Eval::Done(
                        Json::Object(merged_members(members_of(output), members)),
                        now_used,
                    ),
                    _ => Eval::Done(output, now_used),
                },
                MapItem::Column(path, expr) => match eval(expr, row, answers, now_used) {
                    Eval::Ask(question) => Eval::Ask(question),
                    Eval::Done(value, then_used) => Eval::Done(assigned(output, path, value), then_used),
                },
            },
        }
    }
}

proof fn lemma_map_asks(items: Seq<MapItem>, shorter: int, row: Json, answers: Seq<Json>, used: nat)
    requires
        0 <= shorter <= items.len(),
        map_row_of(items.take(shorter), row, answers, used) is Ask,
    ensures
        map_row_of(items, row, answers, used) == map_row_of(items.take(shorter), row, answers, used),
    decreases items.len(),
{
    if shorter == items.len() {
        assert(items.take(shorter) =~= items);
    } else {
        assert(items.drop_last().take(shorter) =~= items.take(shorter));
        lemma_map_asks(items.drop_last(), shorter, row, answers, used);
    }
}

/// The row that a mapping makes of a row.
pub fn map_row(row: &Value, mapping: &Vec<MapExpr>, answers: &Vec<Value>) -> (result: Evaluated)
    ensures
        result@ == map_row_of(map_items(mapping@), row@, jsons(answers@), 0),
        result matches Evaluated::Done(_, used) ==> used <= answers@.len(),
{
    let ghost items = map_items(mapping@);
    let mut output = Value::Object(Object::new());
    let mut used: usize = 0;
    let mut i: usize = 0;
    assert(items.take(0) =~= Seq::empty());
    while i < mapping.len()
        invariant
            i <= mapping.len(),
            used <= answers@.len(),
            items == map_items(mapping@),
            map_row_of(items.take(i as int), row@, jsons(answers@), 0) == Eval::Done(output@, used as nat),
        decreases mapping.len() - i,
    {
        assert(items.take(i + 1).drop_last() =~= items.take(i as int));
        assert(items.take(i + 1).last() == mapping@[i as int]@);
        match &mapping[i] {
            MapExpr::All => match row {
                Value::Object(members) => {
                    let mut merged = match output {
                        Value::Object(members) => members,
                        _ => Object::new(),
                    };
                    merge_members(&mut merged, members);
                    output = Value::Object(merged);
                },
                _ => {},
            },
            MapExpr::Specific { column, value } => match value.caluculate(row, answers, used) {
                Evaluated::Done(value, then_used) => {
                    assign_output(&mut output, column, value);
                    used = then_used;
                },
                Evaluated::Ask(request) => {
                    proof {
                        lemma_map_asks(items, i + 1, row@, jsons(answers@), 0);
                    }
                    return Evaluated::Ask(request);
                },
            },
        }
        i = i + 1;
    }
    assert(items.take(i as int) =~= items);
    Evaluated::Done(output, used)
}

/// The output row of a group: its keys, then what the mapping makes of the group's value.
pub open spec fn group_output_of(
    items: Seq<MapItem>,
    start: Seq<(Seq<char>, Json)>,
    group: Json,
    answers: Seq<Json>,
    used: nat,
) -> Eval
    decreases items.len(),
{
    if items.len() == 0 {
        Eval::Done(Json::Object(start), used)
    } else {
        match group_output_of(items.drop_last(), start, group, answers, used) {
            Eval::Ask(question) => Eval::Ask(question),
            Eval::Done(output, now_used) => match items.last() {
                MapItem::All => Eval::Done(output, now_used),
                MapItem::Column(path, expr) => match eval(expr, group, answers, now_used) {
                    Eval::Ask(question) => Eval::Ask(question),
                    Eval::Done(value, then_used) => Eval::Done(
                        Json::Object(with_path(members_of(output), path, value)),
                        then_used,
                    ),
                },
            },
        }
    }
}

proof fn lemma_group_asks(
    items: Seq<MapItem>,
    shorter: int,
    start: Seq<(Seq<char>, Json)>,
    group: Json,
    answers: Seq<Json>,
    used: nat,
)
    requires
        0 <= shorter <= items.len(),
        group_output_of(items.take(shorter), start, group, answers, used) is Ask,
    ensures
        group_output_of(items, start, group, answers, used) == group_output_of(
            items.take(shorter),
            start,
            group,
            answers,
            used,
        ),
    decreases items.len(),
{
    if shorter == items.len() {
        assert(items.take(shorter) =~= items);
    } else {
        assert(items.drop_last().take(shorter) =~= items.take(shorter));
        lemma_group_asks(items.drop_last(), shorter, start, group, answers, used);
    }
}

fn group_output(start: &Object, group: &Value, mapping: &Vec<MapExpr>, answers: &Vec<Value>) -> (result: Evaluated)
    ensures
        result@ == group_output_of(map_items(mapping@), start@, group@, jsons(answers@), 0),
{
    let ghost items = map_items(mapping@);
    let mut output = start.copy();
    let mut used: usize = 0;
    let mut i: usize = 0;
    assert(items.take(0) =~= Seq::empty());
    while i < mapping.len()
        invariant
            i <= mapping.len(),
            used <= answers@.len(),
            items == map_items(mapping@),
            group_output_of(items.take(i as int), start@, group@, jsons(answers@), 0) == Eval::Done(
                Json::Object(output@),
                used as nat,
            ),
        decreases mapping.len() - i,
    {
        assert(items.take(i + 1).drop_last() =~= items.take(i as int));
        assert(items.take(i + 1).last() == mapping@[i as int]@);
        match &mapping[i] {
            MapExpr::All => {},
            MapExpr::Specific { column, value } => match value.caluculate(group, answers, used) {
                Evaluated::Done(value, then_used) => {
                    set_path(&mut output, column, value);
                    used = then_used;
                },
                Evaluated::Ask(request) => {
                    proof {
                        lemma_group_asks(items, i + 1, start@, group@, jsons(answers@), 0);
                    }
                    return Evaluated::Ask(request);
                },
            },
        }
        i = i + 1;
    }
    assert(items.take(i as int) =~= items);
    Evaluated::Done(Value::Object(output), used)
}

/// Why a step fails: a column to flatten holds a value that is no array.
#[derive(Debug, PartialEq)]
pub struct StepError {
    pub column: String,
    pub value: Value,
}

/// The rows that come of rows, or the column and the value in it that are wrong.
#[verifier::ext_equal]
pub enum Many {
    Rows(Seq<Json>),
    Wrong(Seq<char>, Json),
}

/// The members of a flattened element: an object's own, or the element at the path of the column.
pub open spec fn element_members(element: Json, path: Seq<Seq<char>>) -> Seq<(Seq<char>, Json)> {
    match element {
        Json::Object(members) => members,
        _ => with_path(Seq::empty(), path, element),
    }
}

/// The members with columns of the row copied into them.
pub open spec fn with_columns(members: Seq<(Seq<char>, Json)>, row: Json, columns: Seq<Seq<char>>) -> Seq<
    (Seq<char>, Json),
>
    decreases columns.len(),
{
    if columns.len() == 0 {
        members
    } else {
        with_path(
            with_columns(members, row, columns.drop_last()),
            path_of(columns.last()),
            value_at(row, path_of(columns.last())),
        )
    }
}

/// The rows that a row is flattened to: the elements of the array at the column, with columns of
/// the row copied into each where some are to be kept. Null gives none, and any other value is
/// wrong.
pub open spec fn many_of(row: Json, field: Seq<char>, columns: Seq<Seq<char>>) -> Many {
    match value_at(row, path_of(field)) {
        Json::Array(elements) => if columns.len() == 0 {
            Many::Rows(elements)
        } else {
            Many::Rows(
                Seq::new(
                    elements.len(),
                    |i: int| Json::Object(with_columns(element_members(elements[i], path_of(field)), row, columns)),
                ),
            )
        },
        Json::Null => Many::Rows(Seq::empty()),
        value => Many::Wrong(field, value),
    }
}

/// All rows flattened; wrong at the first row that is.
pub open spec fn flattened_rows(rows: Seq<Json>, field: Seq<char>, columns: Seq<Seq<char>>) -> Many
    decreases rows.len(),
{
    if rows.len() == 0 {
        Many::Rows(Seq::empty())
    } else {
        match flattened_rows(rows.drop_last(), field, columns) {
            Many::Wrong(column, value) => Many::Wrong(column, value),
            Many::Rows(earlier) => match many_of(rows.last(), field, columns) {
                Many::Wrong(column, value) => Many::Wrong(column, value),
                Many::Rows(more) => Many::Rows(earlier + more),
            },
        }
    }
}

proof fn lemma_flatten_wrong(rows: Seq<Json>, shorter: int, field: Seq<char>, columns: Seq<Seq<char>>)
    requires
        0 <= shorter <= rows.len(),
        flattened_rows(rows.take(shorter), field, columns) is Wrong,
    ensures
        flattened_rows(rows, field, columns) == flattened_rows(rows.take(shorter), field, columns),
    decreases rows.len(),
{
    if shorter == rows.len() {
        assert(rows.take(shorter) =~= rows);
    } else {
        assert(rows.drop_last().take(shorter) =~= rows.take(shorter));
        lemma_flatten_wrong(rows.drop_last(), shorter, field, columns);
    }
}

fn map_many_output(element: &Value, path: &Vec<String>) -> (output: Object)
    ensures
        output@ == element_members(element@, texts(path@)),
{
    match element {
        Value::Object(members) => members.copy(),
        _ => {
            let mut output = Object::new();
            set_path(&mut output, path, element.copy());
            output
        },
    }
}

fn copy_columns(output: &mut Object, row: &Value, columns: &Vec<String>)
    ensures
        final(output)@ == with_columns(old(output)@, row@, texts(columns@)),
{
    let ghost before = output@;
    let ghost names = texts(columns@);
    let mut i: usize = 0;
    assert(names.take(0) =~= Seq::<Seq<char>>::empty());
    while i < columns.len()
        invariant
            i <= columns.len(),
            names == texts(columns@),
            output@ == with_columns(before, row@, names.take(i as int)),
        decreases columns.len() - i,
    {
        assert(names.take(i + 1).drop_last() =~= names.take(i as int));
        assert(names.take(i + 1).last() == columns@[i as int]@);
        let path = path_parts(columns[i].as_str());
        set_path(output, &path, get_path(row, &path));
        i = i + 1;
    }
    assert(names.take(i as int) =~= names);
}

/// Flattens an array column of the rows into rows.
pub fn apply_map_many(rows: &Vec<Value>, many: &MapMany) -> (result: Result<Vec<Value>, StepError>)
    ensures
        match result {
            Ok(output) => flattened_rows(jsons(rows@), many.field@, texts(many.include_columns@)) == Many::Rows(
                jsons(output@),
            ),
            Err(error) => flattened_rows(jsons(rows@), many.field@, texts(many.include_columns@)) == Many::Wrong(
                many.field@,
                error.value@,
            ) && error.column@ == many.field@,
        },
{
    let ghost all = jsons(rows@);
    let ghost columns = texts(many.include_columns@);
    let path = path_parts(many.field.as_str());
    let mut output: Vec<Value> = Vec::new();
    let mut i: usize = 0;
    assert(all.take(0) =~= Seq::empty());
    assert(jsons(output@) =~= Seq::empty());
    while i < rows.len()
        invariant
            i <= rows.len(),
            all == jsons(rows@),
            columns == texts(many.include_columns@),
            texts(path@) == path_of(many.field@),
            flattened_rows(all.take(i as int), many.field@, columns) == Many::Rows(jsons(output@)),
        decreases rows.len() - i,
    {
        assert(all.take(i + 1).drop_last() =~= all.take(i as int));
        assert(all.take(i + 1).last() == rows@[i as int]@);
        let ghost before = jsons(output@);
        match get_path(&rows[i], &path) {
            Value::Array(elements) => {
                if many.include_columns.len() == 0 {
                    push_items(&mut output, &Value::Array(elements));
                } else {
                    let ghost given = jsons(elements@);
                    let ghost whole = Seq::new(
                        given.len(),
                        |k: int| Json::Object(with_columns(element_members(given[k], path_of(many.field@)), rows@[i as int]@, columns)),
                    );
                    let mut k: usize = 0;
                    assert(jsons(output@) =~= before + whole.take(0));
                    while k < elements.len()
                        invariant
                            k <= elements.len(),
                            i < rows.len(),
                            given == jsons(elements@),
                            columns == texts(many.include_columns@),
                            texts(path@) == path_of(many.field@),
                            whole == Seq::new(
                                given.len(),
                                |k: int| Json::Object(with_columns(element_members(given[k], path_of(many.field@)), rows@[i as int]@, columns)),
                            ),
                            jsons(output@) == before + whole.take(k as int),
                        decreases elements.len() - k,
                    {
                        assert(given[k as int] == elements@[k as int]@);
                        let mut members = map_many_output(&elements[k], &path);
                        copy_columns(&mut members, &rows[i], &many.include_columns);
                        let ghost held = output@;
                        output.push(Value::Object(members));
                        assert(whole.take(k + 1) =~= whole.take(k as int).push(whole[k as int]));
                        assert(jsons(output@) =~= before + whole.take(k + 1));
                        k = k + 1;
                    }
                    assert(whole.take(k as int) =~= whole);
                }
            },
            Value::Null => {
                assert(before + Seq::<Json>::empty() =~= before);
            },
            value => {
                proof {
                    lemma_flatten_wrong(all, i + 1, many.field@, columns);
                }
                return Err(StepError { column: many.field.clone(), value });
            },
        }
        i = i + 1;
    }
    assert(all.take(i as int) =~= all);
    Ok(output)
}

/// The order of two rows by sort keys: the first key that tells them apart decides.
pub open spec fn rows_order(keys: Seq<(Seq<char>, SortDirection)>, a: Json, b: Json) -> Order
    decreases keys.len(),
{
    if keys.len() == 0 {
        Order::Equal
    } else {
        let (column, direction) = keys[0];
        let order = json_order(value_at(a, path_of(column)), value_at(b, path_of(column)));
        let directed = match direction {
            SortDirection::Asc => order,
            SortDirection::Desc => reversed(order),
        };
        if directed != Order::Equal {
            directed
        } else {
            rows_order(keys.drop_first(), a, b)
        }
    }
}

/// The rows sorted by sort keys; equal rows keep their order.
pub open spec fn sorted_rows(rows: Seq<Json>, keys: Seq<(Seq<char>, SortDirection)>) -> Seq<Json> {
    stable_sorted(rows, |a: Json, b: Json| rows_order(keys, a, b) == Order::Greater)
}

proof fn lemma_rows_order_symmetric(keys: Seq<(Seq<char>, SortDirection)>, a: Json, b: Json)
    ensures
        rows_order(keys, b, a) == reversed(rows_order(keys, a, b)),
    decreases keys.len(),
{
    if keys.len() > 0 {
        let path = path_of(keys[0].0);
        lemma_json_order_symmetric(value_at(a, path), value_at(b, path));
        lemma_rows_order_symmetric(keys.drop_first(), a, b);
    }
}

proof fn lemma_rows_order_transitive(keys: Seq<(Seq<char>, SortDirection)>, a: Json, b: Json, c: Json)
    requires
        rows_order(keys, a, b) != Order::Greater,
        rows_order(keys, b, c) != Order::Greater,
    ensures
        rows_order(keys, a, c) != Order::Greater,
        rows_order(keys, a, c) == Order::Equal <==> (rows_order(keys, a, b) == Order::Equal && rows_order(keys, b, c)
            == Order::Equal),
    decreases keys.len(),
{
    if keys.len() > 0 {
        let path = path_of(keys[0].0);
        let (x, y, z) = (value_at(a, path), value_at(b, path), value_at(c, path));
        lemma_json_order_symmetric(x, y);
        lemma_json_order_symmetric(y, z);
        lemma_json_order_symmetric(x, z);
        match keys[0].1 {
            SortDirection::Asc => {
                lemma_json_order_transitive(x, y, z);
            },
            SortDirection::Desc => {
                lemma_json_order_transitive(z, y, x);
            },
        }
        if json_order(x, y) == Order::Equal && json_order(y, z) == Order::Equal {
            lemma_rows_order_transitive(keys.drop_first(), a, b, c);
        }
    }
}

/// The order of rows by sort keys is a total preorder.
pub proof fn lemma_rows_ordered(keys: Seq<(Seq<char>, SortDirection)>)
    ensures
        is_order(|a: Json, b: Json| rows_order(keys, a, b) == Order::Greater),
{
    let after = |a: Json, b: Json| rows_order(keys, a, b) == Order::Greater;
    assert forall|a: Json, b: Json| #[trigger] after(a, b) implies !after(b, a) by {
        lemma_rows_order_symmetric(keys, a, b);
    }
    assert forall|a: Json, b: Json, c: Json| !(#[trigger] after(a, b)) && !(#[trigger] after(b, c)) implies !after(a, c) by {
        lemma_rows_order_transitive(keys, a, b, c);
    }
}

/// Sorted rows are sorted, and they are the rows that were given.
pub proof fn lemma_sorted_rows(rows: Seq<Json>, keys: Seq<(Seq<char>, SortDirection)>)
    ensures
        is_sorted(sorted_rows(rows, keys), |a: Json, b: Json| rows_order(keys, a, b) == Order::Greater),
        sorted_rows(rows, keys).to_multiset() == rows.to_multiset(),
        sorted_rows(rows, keys).len() == rows.len(),
{
    let after = |a: Json, b: Json| rows_order(keys, a, b) == Order::Greater;
    lemma_rows_ordered(keys);
    crate::order::lemma_sort_sorts(rows, after);
    crate::order::lemma_sort_keeps_items(rows, after);
}

/// Rows that no key tells apart stay in the order they came in.
pub proof fn lemma_sort_by_stable(rows: Seq<Json>, keys: Seq<(Seq<char>, SortDirection)>, like: Json)
    ensures
        sorted_rows(rows, keys).filter(|row: Json| rows_order(keys, row, like) == Order::Equal) == rows.filter(
            |row: Json| rows_order(keys, row, like) == Order::Equal,
        ),
{
    let after = |a: Json, b: Json| rows_order(keys, a, b) == Order::Greater;
    lemma_rows_ordered(keys);
    crate::order::lemma_sort_is_stable(rows, like, after);
    let same = |row: Json| rows_order(keys, row, like) == Order::Equal;
    let by_after = |row: Json| !after(row, like) && !after(like, row);
    assert forall|row: Json| #[trigger] same(row) == by_after(row) by {
        lemma_rows_order_symmetric(keys, row, like);
    }
    assert(same =~= by_after);
    assert(crate::order::equal_items(rows, like, after) == rows.filter(by_after));
}

/// Null comes before all other values in ascending order and after them in descending order.
pub proof fn lemma_null_first(key: (Seq<char>, SortDirection), more: Seq<(Seq<char>, SortDirection)>, a: Json, b: Json)
    requires
        value_at(a, path_of(key.0)) is Null,
        value_at(b, path_of(key.0)) !is Null,
    ensures
        rows_order(seq![key] + more, a, b) == (match key.1 {
            SortDirection::Asc => Order::Less,
            SortDirection::Desc => Order::Greater,
        }),
{
    assert((seq![key] + more)[0] == key);
}

fn order_of_rows(keys: &Vec<SortKey>, a: &Value, b: &Value) -> (order: Order)
    ensures
        order == rows_order(sort_keys_of(keys@), a@, b@),
{
    let ghost all = sort_keys_of(keys@);
    let mut i: usize = 0;
    assert(all.skip(0) =~= all);
    while i < keys.len()
        invariant
            i <= keys.len(),
            all == sort_keys_of(keys@),
            rows_order(all, a@, b@) == rows_order(all.skip(i as int), a@, b@),
        decreases keys.len() - i,
    {
        assert(all.skip(i as int)[0] == all[i as int]);
        assert(all.skip(i as int).drop_first() =~= all.skip(i + 1));
        let path = path_parts(keys[i].column.as_str());
        let order = compare_values(&get_path(a, &path), &get_path(b, &path));
        let directed = match keys[i].direction {
            SortDirection::Asc => order,
            SortDirection::Desc => match order {
                Order::Less => Order::Greater,
                Order::Equal => Order::Equal,
                Order::Greater => Order::Less,
            },
        };
        match directed {
            Order::Equal => {},
            _ => {
                return directed;
            },
        }
        i = i + 1;
    }
    Order::Equal
}

/// Sorts rows by sort keys.
pub fn apply_sort_by(rows: Vec<Value>, keys: &Vec<SortKey>) -> (sorted: Vec<Value>)
    ensures
        jsons(sorted@) == sorted_rows(jsons(rows@), sort_keys_of(keys@)),
{
    let ghost before = rows@;
    let ghost order = |a: Value, b: Value| rows_order(sort_keys_of(keys@), a@, b@) == Order::Greater;
    let after = |a: &Value, b: &Value| -> (r: bool)
        ensures
            r == (rows_order(sort_keys_of(keys@), a@, b@) == Order::Greater),
        { order_of_rows(keys, a, b) == Order::Greater };
    let sorted = stable_sort(rows, &after, Ghost(order));
    proof {
        let view = |v: Value| v@;
        let by_json = |a: Json, b: Json| rows_order(sort_keys_of(keys@), a, b) == Order::Greater;
        lemma_sort_map(before, view, order, by_json);
        assert(before.map_values(view) =~= jsons(before));
        assert(sorted@.map_values(view) =~= jsons(sorted@));
    }
    sorted
}

/// The first rows, at most so many.
pub open spec fn limited(rows: Seq<Json>, count: nat) -> Seq<Json> {
    if count < rows.len() {
        rows.take(count as int)
    } else {
        rows
    }
}

/// Keeps the first rows, at most so many.
pub fn apply_limit(rows: Vec<Value>, count: usize) -> (kept: Vec<Value>)
    ensures
        jsons(kept@) == limited(jsons(rows@), count as nat),
{
    let mut kept = rows;
    if count < kept.len() {
        kept.truncate(count);
        assert(jsons(kept@) =~= jsons(rows@).take(count as int));
    }
    kept
}

/// A step that ends at a limit keeps a beginning of the rows, and two limits are the smaller one.
pub proof fn lemma_limit(rows: Seq<Json>, first: nat, second: nat)
    ensures
        limited(rows, first).len() == if first < rows.len() { first } else { rows.len() },
        limited(rows, first) == rows.take(limited(rows, first).len() as int),
        limited(limited(rows, first), second) == limited(rows, if first < second { first } else { second }),
{
    assert(rows.take(rows.len() as int) =~= rows);
    let smaller = if first < second {
        first
    } else {
        second
    };
    assert(limited(limited(rows, first), second) =~= limited(rows, smaller));
}

/// How many rows may be mapped at a time, where the configuration asks for more than one and
/// there is more than one row.
pub open spec fn parallelism_of(config: Json, count: nat) -> Option<int> {
    match crate::functions::array::field_of(config, "parallel"@) {
        Json::Number(Num::PosInt(n)) => if count <= 1 || n <= 1 {
            None
        } else if n < count {
            Some(n as int)
        } else {
            Some(count as int)
        },
        _ => None,
    }
}

/// How many rows may be mapped at a time.
pub fn map_parallelism(config: &Value, count: usize) -> (parallelism: Option<usize>)
    ensures
        match parallelism {
            Some(n) => parallelism_of(config@, count as nat) == Some(n as int),
            None => parallelism_of(config@, count as nat) is None,
        },
{
    if count <= 1 {
        return None;
    }
    match config {
        Value::Object(members) => match members.get("parallel") {
            Some(Value::Number(Number::PosInt(n))) => if *n <= 1 {
                None
            } else if *n < count as u64 {
                Some(*n as usize)
            } else {
                Some(count)
            },
            _ => None,
        },
        _ => None,
    }
}

/// Whether a mapping leaves the rows as they are.
pub open spec fn keeps_rows(items: Seq<MapItem>) -> bool {
    items.len() == 1 && items[0] is All
}

/// What the tasks of a step are run on.
pub open spec fn task_inputs(step: Step, rows: Seq<Json>) -> Seq<Json> {
    match step {
        Step::Source(sources) => Seq::new(sources.len(), |i: int| Json::Null),
        Step::MapRows(_, items) => if keeps_rows(items) {
            Seq::empty()
        } else {
            rows
        },
        Step::Filter(_) => rows,
        Step::GroupBy(keys, _) => Seq::new(
            groups_of(rows, keys).len(),
            |i: int| grouped(groups_of(rows, keys)[i].rows),
        ),
        _ => Seq::empty(),
    }
}

/// What a task of a step comes to.
pub open spec fn task_eval(step: Step, rows: Seq<Json>, i: int, answers: Seq<Json>) -> Eval {
    let input = task_inputs(step, rows)[i];
    match step {
        Step::Source(sources) => eval(sources[i], input, answers, 0),
        Step::MapRows(_, items) => map_row_of(items, input, answers, 0),
        Step::Filter(filter) => eval(filter, input, answers, 0),
        Step::GroupBy(keys, items) => group_output_of(
            items,
            key_members(keys, groups_of(rows, keys)[i].key_values),
            input,
            answers,
            0,
        ),
        _ => Eval::Done(Json::Null, 0),
    }
}

/// Grouping without a mapping gives one row for each group, which holds the keys of the group and
/// nothing else.
pub proof fn lemma_grouping_alone_gives_keys(keys: Seq<Seq<char>>, rows: Seq<Json>, i: int, answers: Seq<Json>)
    requires
        0 <= i < groups_of(rows, keys).len(),
    ensures
        task_inputs(Step::GroupBy(keys, Seq::empty()), rows).len() == groups_of(rows, keys).len(),
        task_eval(Step::GroupBy(keys, Seq::empty()), rows, i, answers) == Eval::Done(
            Json::Object(key_members(keys, groups_of(rows, keys)[i].key_values)),
            0,
        ),
{
}

/// The rows whose results are true.
pub open spec fn kept_rows(rows: Seq<Json>, results: Seq<Json>) -> Seq<Json>
    decreases rows.len(),
{
    if rows.len() == 0 || results.len() != rows.len() {
        Seq::empty()
    } else {
        let earlier = kept_rows(rows.drop_last(), results.drop_last());
        if truthy(results.last()) {
            earlier.push(rows.last())
        } else {
            earlier
        }
    }
}

/// The rows of a step from the results of its tasks.
pub open spec fn step_rows(step: Step, rows: Seq<Json>, results: Seq<Json>) -> Many {
    match step {
        Step::Source(_) => Many::Rows(crate::json::flattened(results)),
        Step::MapRows(_, items) => if keeps_rows(items) {
            Many::Rows(rows)
        } else {
            Many::Rows(results)
        },
        Step::Filter(_) => Many::Rows(kept_rows(rows, results)),
        Step::MapMany(field, columns) => flattened_rows(rows, field, columns),
        Step::GroupBy(_, _) => Many::Rows(results),
        Step::SortBy(keys) => Many::Rows(sorted_rows(rows, keys)),
        Step::Limit(count) => Many::Rows(limited(rows, count)),
    }
}

/// A mapped pipeline has as many rows as before, each made of the row at its place.
pub proof fn lemma_map_keeps_count(config: Json, items: Seq<MapItem>, rows: Seq<Json>, results: Seq<Json>)
    requires
        results.len() == task_inputs(Step::MapRows(config, items), rows).len(),
    ensures
        step_rows(Step::MapRows(config, items), rows, results) matches Many::Rows(output) && output.len() == rows.len(),
{
}

/// Keeping rows by one condition and then by another keeps those that meet both.
pub proof fn lemma_filters_chain(rows: Seq<Json>, keep: spec_fn(Json) -> Json, then_keep: spec_fn(Json) -> Json)
    ensures
        kept_rows(rows, rows.map_values(keep)) == rows.filter(|row: Json| truthy(keep(row))),
        kept_rows(
            kept_rows(rows, rows.map_values(keep)),
            kept_rows(rows, rows.map_values(keep)).map_values(then_keep),
        ) == rows.filter(|row: Json| truthy(keep(row)) && truthy(then_keep(row))),
    decreases rows.len(),
{
    reveal(Seq::filter);
    lemma_kept_is_filter(rows, keep);
    let once = kept_rows(rows, rows.map_values(keep));
    lemma_kept_is_filter(once, then_keep);
    lemma_filter_twice(rows, keep, then_keep);
}

proof fn lemma_kept_is_filter(rows: Seq<Json>, keep: spec_fn(Json) -> Json)
    ensures
        kept_rows(rows, rows.map_values(keep)) == rows.filter(|row: Json| truthy(keep(row))),
    decreases rows.len(),
{
    reveal(Seq::filter);
    if rows.len() > 0 {
        lemma_kept_is_filter(rows.drop_last(), keep);
        assert(rows.map_values(keep).drop_last() =~= rows.drop_last().map_values(keep));
        assert(rows.map_values(keep).last() == keep(rows.last()));
    }
}

proof fn lemma_filter_twice(rows: Seq<Json>, keep: spec_fn(Json) -> Json, then_keep: spec_fn(Json) -> Json)
    ensures
        rows.filter(|row: Json| truthy(keep(row))).filter(|row: Json| truthy(then_keep(row))) == rows.filter(
            |row: Json| truthy(keep(row)) && truthy(then_keep(row)),
        ),
    decreases rows.len(),
{
    reveal(Seq::filter);
    if rows.len() > 0 {
        lemma_filter_twice(rows.drop_last(), keep, then_keep);
        let first = |row: Json| truthy(keep(row));
        let kept = rows.drop_last().filter(first);
        assert(kept.push(rows.last()).drop_last() =~= kept);
    }
}

/// The inputs of the tasks of a step and, for a step that groups, the rows that its groups' keys
/// begin.
pub struct Tasks {
    pub inputs: Vec<Value>,
    pub starts: Vec<Object>,
}

/// The members of a list of objects.
pub open spec fn object_members(objects: Seq<Object>) -> Seq<Seq<(Seq<char>, Json)>> {
    Seq::new(objects.len(), |i: int| objects[i]@)
}

/// Whether tasks are those of a step on some rows.
pub open spec fn are_tasks(tasks: Tasks, step: Step, rows: Seq<Json>) -> bool {
    &&& jsons(tasks.inputs@) == task_inputs(step, rows)
    &&& step matches Step::GroupBy(keys, _) ==> object_members(tasks.starts@) == Seq::new(
        groups_of(rows, keys).len(),
        |i: int| key_members(keys, groups_of(rows, keys)[i].key_values),
    )
}

fn group_tasks(rows: &Vec<Value>, keys: &Vec<String>) -> (tasks: Tasks)
    ensures
        jsons(tasks.inputs@) == Seq::new(
            groups_of(jsons(rows@), texts(keys@)).len(),
            |i: int| grouped(groups_of(jsons(rows@), texts(keys@))[i].rows),
        ),
        object_members(tasks.starts@) == Seq::new(
            groups_of(jsons(rows@), texts(keys@)).len(),
            |i: int| key_members(texts(keys@), groups_of(jsons(rows@), texts(keys@))[i].key_values),
        ),
{
    let groups = group_rows(rows, keys);
    let ghost all = groups_of(jsons(rows@), texts(keys@));
    let ghost whole_inputs = Seq::new(all.len(), |i: int| grouped(all[i].rows));
    let ghost whole_starts = Seq::new(all.len(), |i: int| key_members(texts(keys@), all[i].key_values));
    let mut inputs: Vec<Value> = Vec::new();
    let mut starts: Vec<Object> = Vec::new();
    let mut i: usize = 0;
    assert(jsons(inputs@) =~= whole_inputs.take(0));
    assert(object_members(starts@) =~= whole_starts.take(0));
    while i < groups.len()
        invariant
            i <= groups.len(),
            all == group_views(groups@),
            whole_inputs == Seq::new(all.len(), |i: int| grouped(all[i].rows)),
            whole_starts == Seq::new(all.len(), |i: int| key_members(texts(keys@), all[i].key_values)),
            jsons(inputs@) == whole_inputs.take(i as int),
            object_members(starts@) == whole_starts.take(i as int),
        decreases groups.len() - i,
    {
        assert(all[i as int] == groups@[i as int]@);
        inputs.push(grouped_rows_value(&groups[i].rows));
        let ghost before = starts@;
        starts.push(key_output(keys, &groups[i].key_values));
        assert(object_members(starts@) =~= object_members(before).push(whole_starts[i as int]));
        assert(whole_inputs.take(i + 1) =~= whole_inputs.take(i as int).push(whole_inputs[i as int]));
        assert(whole_starts.take(i + 1) =~= whole_starts.take(i as int).push(whole_starts[i as int]));
        i = i + 1;
    }
    assert(whole_inputs.take(i as int) =~= whole_inputs);
    assert(whole_starts.take(i as int) =~= whole_starts);
    Tasks { inputs, starts }
}

fn nulls(count: usize) -> (values: Vec<Value>)
    ensures
        jsons(values@) == Seq::new(count as nat, |i: int| Json::Null),
{
    let mut values: Vec<Value> = Vec::new();
    let mut i: usize = 0;
    while i < count
        invariant
            i <= count,
            values@.len() == i,
            forall|j: int| 0 <= j < i ==> (#[trigger] values@[j])@ is Null,
        decreases count - i,
    {
        values.push(Value::Null);
        i = i + 1;
    }
    assert(jsons(values@) =~= Seq::new(count as nat, |i: int| Json::Null));
    values
}

/// The tasks of a step on some rows.
pub fn prepare(step: &SubQuery, rows: &Vec<Value>) -> (tasks: Tasks)
    ensures
        are_tasks(tasks, step@, jsons(rows@)),
{
    let none: Vec<Value> = Vec::new();
    assert(jsons(none@) =~= Seq::empty());
    match step {
        SubQuery::Source(sources) => Tasks { inputs: nulls(sources.len()), starts: Vec::new() },
        SubQuery::MapRows(map) => {
            if map.mapping.len() == 1 {
                assert(map_items(map.mapping@)[0] == map.mapping@[0]@);
                match &map.mapping[0] {
                    MapExpr::All => {
                        return Tasks { inputs: none, starts: Vec::new() };
                    },
                    _ => {},
                }
            }
            Tasks { inputs: copy_values(rows), starts: Vec::new() }
        },
        SubQuery::Filter(_) => Tasks { inputs: copy_values(rows), starts: Vec::new() },
        SubQuery::GroupBy { keys, mapping } => group_tasks(rows, keys),
        _ => Tasks { inputs: none, starts: Vec::new() },
    }
}

/// Runs a task of a step with the answers so far.
pub(crate) fn run_task(step: &SubQuery, tasks: &Tasks, i: usize, answers: &Vec<Value>, Ghost(rows): Ghost<Seq<Json>>) -> (result: Evaluated)
    requires
        are_tasks(*tasks, step@, rows),
        i < tasks.inputs@.len(),
    ensures
        result@ == task_eval(step@, rows, i as int, jsons(answers@)),
{
    assert(jsons(tasks.inputs@)[i as int] == tasks.inputs@[i as int]@);
    assert(task_inputs(step@, rows)[i as int] == tasks.inputs@[i as int]@);
    assert(task_inputs(step@, rows).len() == tasks.inputs@.len());
    match step {
        SubQuery::Source(sources) => {
            assert(crate::query::exprs(sources@)[i as int] == sources@[i as int]@);
            sources[i].caluculate(&tasks.inputs[i], answers, 0)
        },
        SubQuery::MapRows(map) => map_row(&tasks.inputs[i], &map.mapping, answers),
        SubQuery::Filter(filter) => filter.caluculate(&tasks.inputs[i], answers, 0),
        SubQuery::GroupBy { keys, mapping } => {
            assert(object_members(tasks.starts@).len() == tasks.starts@.len());
            assert(object_members(tasks.starts@)[i as int] == tasks.starts@[i as int]@);
            group_output(&tasks.starts[i], &tasks.inputs[i], mapping, answers)
        },
        _ => {
            assert(false);
            Evaluated::Done(Value::Null, 0)
        },
    }
}

fn keep_rows(rows: &Vec<Value>, results: &Vec<Value>) -> (kept: Vec<Value>)
    ensures
        jsons(kept@) == kept_rows(jsons(rows@), jsons(results@)),
{
    let mut kept: Vec<Value> = Vec::new();
    let ghost (all, outcomes) = (jsons(rows@), jsons(results@));
    if rows.len() != results.len() {
        assert(jsons(kept@) =~= Seq::empty());
        return kept;
    }
    let mut i: usize = 0;
    assert(jsons(kept@) =~= kept_rows(all.take(0), outcomes.take(0)));
    while i < rows.len()
        invariant
            i <= rows.len() == results.len(),
            all == jsons(rows@),
            outcomes == jsons(results@),
            jsons(kept@) == kept_rows(all.take(i as int), outcomes.take(i as int)),
        decreases rows.len() - i,
    {
        assert(all.take(i + 1).drop_last() =~= all.take(i as int));
        assert(outcomes.take(i + 1).drop_last() =~= outcomes.take(i as int));
        assert(all.take(i + 1).last() == rows@[i as int]@);
        assert(outcomes.take(i + 1).last() == results@[i as int]@);
        if value_truthy(&results[i]) {
            kept.push(rows[i].copy());
        }
        i = i + 1;
    }
    assert(all.take(i as int) =~= all);
    assert(outcomes.take(i as int) =~= outcomes);
    kept
}

/// The rows of a step from the results of its tasks.
pub fn complete(step: &SubQuery, rows: Vec<Value>, results: Vec<Value>) -> (output: Result<Vec<Value>, StepError>)
    ensures
        match output {
            Ok(output) => step_rows(step@, jsons(rows@), jsons(results@)) == Many::Rows(jsons(output@)),
            Err(error) => {
                &&& step_rows(step@, jsons(rows@), jsons(results@)) == Many::Wrong(error.column@, error.value@)
                &&& step@ matches Step::MapMany(field, _) && error.column@ == field
            },
        },
{
    match step {
        SubQuery::Source(_) => Ok(crate::json::flatten(&results)),
        SubQuery::MapRows(map) => {
            if map.mapping.len() == 1 {
                assert(map_items(map.mapping@)[0] == map.mapping@[0]@);
                match &map.mapping[0] {
                    MapExpr::All => {
                        return Ok(rows);
                    },
                    _ => {},
                }
            }
            Ok(results)
        },
        SubQuery::Filter(_) => Ok(keep_rows(&rows, &results)),
        SubQuery::MapMany(many) => apply_map_many(&rows, many),
        SubQuery::GroupBy { keys, mapping } => Ok(results),
        SubQuery::SortBy(keys) => Ok(apply_sort_by(rows, keys)),
        SubQuery::Limit(count) => Ok(apply_limit(rows, *count)),
    }
}

/// The name of a step in reports of progress.
pub open spec fn step_name(step: Step) -> Seq<char> {
    match step {
        Step::Source(_) => "Source"@,
        Step::MapRows(_, _) => "Map"@,
        Step::Filter(_) => "Filter"@,
        Step::MapMany(_, _) => "Map many"@,
        Step::GroupBy(_, _) => "Group by"@,
        Step::SortBy(_) => "Sort by"@,
        Step::Limit(_) => "Limit"@,
    }
}

/// The name of a step in reports of progress.
pub fn subquery_name(step: &SubQuery) -> (name: String)
    ensures
        name@ == step_name(step@),
{
    match step {
        SubQuery::Source(_) => "Source".to_owned(),
        SubQuery::MapRows(_) => "Map".to_owned(),
        SubQuery::Filter(_) => "Filter".to_owned(),
        SubQuery::MapMany(_) => "Map many".to_owned(),
        SubQuery::GroupBy { keys, mapping } => "Group by".to_owned(),
        SubQuery::SortBy(_) => "Sort by".to_owned(),
        SubQuery::Limit(_) => "Limit".to_owned(),
    }
}

/// A mapped row depends on the row at its place alone, not on the other rows nor on their number.
pub proof fn lemma_map_is_stateless(config: Json, items: Seq<MapItem>, rows: Seq<Json>, others: Seq<Json>, i: int, j: int, answers: Seq<Json>)
    requires
        !keeps_rows(items),
        0 <= i < rows.len(),
        0 <= j < others.len(),
        rows[i] == others[j],
    ensures
        task_eval(Step::MapRows(config, items), rows, i, answers) == task_eval(Step::MapRows(config, items), others, j, answers),
{
}

} // verus!
