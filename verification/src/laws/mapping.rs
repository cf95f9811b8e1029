//! Laws of paths and of MAP: what is written to a column is found there, and nothing else changes.
use vstd::prelude::*;
use crate::eval::{eval, Eval};
use crate::functions::common::lemma_later_members_win;
use crate::paths::{follow, lemma_get_after_set, lemma_set_keeps_others, lookup, value_at, with_path};
use crate::pipeline::{group_output_of, map_row_of, step_rows, task_eval, task_inputs, Many};
use crate::query::{Expr, MapItem, Step};
use crate::value::{keys_ascending, lemma_get_after_insert, obj_get, obj_insert, Json};

verus! {

/// Whether two paths lead to different places: at some point they go on with different keys.
pub open spec fn part_ways(a: Seq<Seq<char>>, b: Seq<Seq<char>>) -> bool {
    exists|k: int| 0 <= k < a.len() && k < b.len() && #[trigger] a[k] != b[k]
}

/// Setting a path leaves what stands at every path that parts ways with it as it is.
pub proof fn lemma_set_keeps_apart(
    members: Seq<(Seq<char>, Json)>,
    path: Seq<Seq<char>>,
    value: Json,
    other: Seq<Seq<char>>,
)
    requires
        part_ways(path, other),
    ensures
        lookup(Json::Object(with_path(members, path, value)), other) == lookup(Json::Object(members), other),
    decreases path.len(),
{
    let k = choose|k: int| 0 <= k < path.len() && k < other.len() && #[trigger] path[k] != other[k];
    if path[0] != other[0] {
        lemma_set_keeps_others(members, path, value, other);
    } else {
        let inner = match obj_get(members, path[0]) {
            Some(Json::Object(inner)) => inner,
            _ => Seq::empty(),
        };
        let (rest, rest_other) = (path.drop_first(), other.drop_first());
        assert(rest[k - 1] != rest_other[k - 1]);
        lemma_set_keeps_apart(inner, rest, value, rest_other);
        let set = Json::Object(with_path(inner, rest, value));
        lemma_get_after_insert(members, path[0], set, path[0]);
        assert(path.len() > 1);
        assert(with_path(members, path, value) == obj_insert(members, path[0], set));
        assert(lookup(Json::Object(with_path(members, path, value)), other) == lookup(set, rest_other));
        assert(lookup(Json::Object(Seq::empty()), rest_other) is None);
        match obj_get(members, path[0]) {
            Some(member) => {
                assert(lookup(Json::Object(members), other) == lookup(member, rest_other));
            },
            None => {},
        }
    }
}

/// A path of one key leads to the member with that key.
pub proof fn lemma_lookup_one(members: Seq<(Seq<char>, Json)>, key: Seq<char>)
    ensures
        lookup(Json::Object(members), seq![key]) == obj_get(members, key),
{
    let path = seq![key];
    assert(path.drop_first() =~= Seq::empty());
    match obj_get(members, key) {
        Some(member) => {
            assert(lookup(member, path.drop_first()) == Some(member));
        },
        None => {},
    }
}

/// The field of a value under a key, null where there is none.
pub open spec fn field_in(value: Json, key: Seq<char>) -> Json {
    match value {
        Json::Object(members) => match obj_get(members, key) {
            Some(member) => member,
            None => Json::Null,
        },
        _ => Json::Null,
    }
}

/// A reference leads from field to field: `a.b` is the field `b` of what `a` is, `$` is the value
/// itself, and what leads nowhere is null.
pub proof fn lemma_reference(value: Json, path: Seq<Seq<char>>, key: Seq<char>)
    ensures
        follow(value, Seq::empty()) == value,
        follow(value, path.push("$"@)) == follow(value, path),
        key != "$"@ ==> follow(value, path.push(key)) == field_in(follow(value, path), key),
    decreases path.len(),
{
    let (longer, same) = (path.push(key), path.push("$"@));
    if path.len() == 0 {
        assert(longer.drop_first() =~= Seq::empty());
        assert(same.drop_first() =~= Seq::empty());
        assert(path =~= Seq::empty());
        match value {
            Json::Object(members) => match obj_get(members, key) {
                Some(member) => {
                    assert(follow(member, longer.drop_first()) == member);
                },
                None => {},
            },
            _ => {},
        }
    } else {
        assert(longer.drop_first() =~= path.drop_first().push(key));
        assert(same.drop_first() =~= path.drop_first().push("$"@));
        assert(longer[0] == path[0] && same[0] == path[0]);
        if path[0] == "$"@ {
            lemma_reference(value, path.drop_first(), key);
        } else {
            match value {
                Json::Object(members) => match obj_get(members, path[0]) {
                    Some(member) => lemma_reference(member, path.drop_first(), key),
                    None => {},
                },
                _ => {},
            }
        }
    }
}

/// Evaluating a reference gives what it leads to in the row, and asks for nothing.
pub proof fn lemma_reference_value(path: Seq<Seq<char>>, key: Seq<char>, row: Json, answers: Seq<Json>, used: nat)
    ensures
        eval(Expr::Reference(Seq::empty()), row, answers, used) == Eval::Done(row, used),
        eval(Expr::Reference(path), row, answers, used) matches Eval::Done(value, now_used) && now_used == used && (key != "$"@
            ==> eval(Expr::Reference(path.push(key)), row, answers, used) == Eval::Done(field_in(value, key), used)),
{
    lemma_reference(row, path, key);
}

/// Whether a column names the whole row.
pub open spec fn is_whole(path: Seq<Seq<char>>) -> bool {
    path == seq!["$"@]
}

/// Where the last item of a mapping is a column, the mapped row holds at its path the value that its
/// expression comes to on the input row, whatever the items before it wrote there; places that its
/// path parts ways with are as before. The column `$` makes the value the whole row.
pub proof fn lemma_last_column(
    items: Seq<MapItem>,
    path: Seq<Seq<char>>,
    expr: Expr,
    row: Json,
    answers: Seq<Json>,
    used: nat,
    other: Seq<Seq<char>>,
)
    requires
        path.len() > 0,
    ensures
        match map_row_of(items, row, answers, used) {
            Eval::Ask(question) => map_row_of(items.push(MapItem::Column(path, expr)), row, answers, used) == Eval::Ask(
                question,
            ),
            Eval::Done(before, now_used) => match eval(expr, row, answers, now_used) {
                Eval::Ask(question) => map_row_of(items.push(MapItem::Column(path, expr)), row, answers, used)
                    == Eval::Ask(question),
                Eval::Done(value, then_used) => {
                    &&& map_row_of(items.push(MapItem::Column(path, expr)), row, answers, used) matches Eval::Done(
                        after,
                        end_used,
                    )
                    &&& end_used == then_used
                    &&& is_whole(path) ==> after == value
                    &&& !is_whole(path) ==> {
                        &&& after is Object
                        &&& lookup(after, path) == Some(value)
                        &&& before is Object && part_ways(path, other) ==> lookup(after, other) == lookup(before, other)
                        &&& before !is Object && part_ways(path, other) ==> lookup(after, other) is None
                    }
                },
            },
        },
{
    let all = items.push(MapItem::Column(path, expr));
    assert(all.drop_last() =~= items);
    assert(is_whole(path) <==> crate::paths::names_whole(path)) by {
        if crate::paths::names_whole(path) {
            assert(path =~= seq!["$"@]);
        }
    }
    match map_row_of(items, row, answers, used) {
        Eval::Done(before, now_used) => match eval(expr, row, answers, now_used) {
            Eval::Done(value, _) => {
                if !is_whole(path) {
                    let members = match before {
                        Json::Object(members) => members,
                        _ => Seq::empty(),
                    };
                    lemma_get_after_set(members, path, value);
                    if part_ways(path, other) {
                        lemma_set_keeps_apart(members, path, value, other);
                    }
                }
            },
            _ => {},
        },
        _ => {},
    }
}

/// Whether an item of a mapping writes at a path, or at a place that leads to it or lies behind it.
pub open spec fn writes_at(item: MapItem, path: Seq<Seq<char>>) -> bool {
    match item {
        MapItem::All => true,
        MapItem::Column(column, _) => is_whole(column) || !part_ways(column, path),
    }
}

/// A column of a mapping holds what its expression came to on the input row, where no later item
/// writes there.
pub proof fn lemma_each_column(items: Seq<MapItem>, k: int, row: Json, answers: Seq<Json>, used: nat)
    requires
        0 <= k < items.len(),
        items[k] is Column,
        items[k]->Column_0.len() > 0,
        !is_whole(items[k]->Column_0),
        forall|j: int| k < j < items.len() ==> !writes_at(#[trigger] items[j], items[k]->Column_0),
        map_row_of(items, row, answers, used) is Done,
    ensures
        map_row_of(items.take(k), row, answers, used) is Done,
        eval(items[k]->Column_1, row, answers, map_row_of(items.take(k), row, answers, used)->Done_1) is Done,
        map_row_of(items, row, answers, used)->Done_0 is Object,
        lookup(map_row_of(items, row, answers, used)->Done_0, items[k]->Column_0) == Some(
            eval(items[k]->Column_1, row, answers, map_row_of(items.take(k), row, answers, used)->Done_1)->Done_0,
        ),
    decreases items.len(),
{
    let (path, expr) = (items[k]->Column_0, items[k]->Column_1);
    let rest = items.drop_last();
    if k == items.len() - 1 {
        assert(items.take(k) =~= rest);
        assert(rest.push(MapItem::Column(path, expr)) =~= items);
        lemma_last_column(rest, path, expr, row, answers, used, path);
    } else {
        let last = items[items.len() - 1];
        assert(!writes_at(last, path));
        let (column, value) = (last->Column_0, last->Column_1);
        assert(rest.push(MapItem::Column(column, value)) =~= items);
        assert(rest[k] == items[k]);
        assert forall|j: int| k < j < rest.len() implies !writes_at(#[trigger] rest[j], path) by {
            assert(rest[j] == items[j]);
        }
        assert(rest.take(k) =~= items.take(k));
        lemma_last_column(rest, column, value, row, answers, used, path);
        lemma_each_column(rest, k, row, answers, used);
    }
}

/// After `*` a mapped row has every column of the input row that no later item writes to.
pub proof fn lemma_star_keeps_columns(
    items: Seq<MapItem>,
    members: Seq<(Seq<char>, Json)>,
    answers: Seq<Json>,
    used: nat,
    other: Seq<Seq<char>>,
)
    requires
        items.len() > 0,
        items[0] is All,
        keys_ascending(members),
        other.len() > 0,
        forall|j: int| 0 < j < items.len() ==> (#[trigger] items[j]) is Column && items[j]->Column_0.len() > 0 && !writes_at(
            items[j],
            other,
        ),
        map_row_of(items, Json::Object(members), answers, used) is Done,
    ensures
        map_row_of(items, Json::Object(members), answers, used)->Done_0 is Object,
        lookup(map_row_of(items, Json::Object(members), answers, used)->Done_0, other) == lookup(
            Json::Object(members),
            other,
        ),
    decreases items.len(),
{
    let row = Json::Object(members);
    let rest = items.drop_last();
    if items.len() == 1 {
        assert(rest =~= Seq::empty());
        lemma_later_members_win(Seq::empty(), members, other[0]);
    } else {
        let last = items[items.len() - 1];
        let (column, value) = (last->Column_0, last->Column_1);
        assert(rest.push(MapItem::Column(column, value)) =~= items);
        assert(rest[0] == items[0]);
        assert forall|j: int| 0 < j < rest.len() implies (#[trigger] rest[j]) is Column && rest[j]->Column_0.len() > 0 && !writes_at(
            rest[j],
            other,
        ) by {
            assert(rest[j] == items[j]);
        }
        lemma_last_column(rest, column, value, row, answers, used, other);
        lemma_star_keeps_columns(rest, members, answers, used, other);
    }
}

/// `*` writes all columns of the input row over what was there before, and keeps the others. Of a
/// row that is no object it writes none.
pub proof fn lemma_star(items: Seq<MapItem>, row: Json, answers: Seq<Json>, used: nat, key: Seq<char>)
    requires
        row matches Json::Object(members) ==> keys_ascending(members),
        map_row_of(items, row, answers, used) matches Eval::Done(before, _) && before is Object,
    ensures
        ({
            let before = map_row_of(items, row, answers, used)->Done_0;
            let after = map_row_of(items.push(MapItem::All), row, answers, used);
            &&& after matches Eval::Done(output, end_used)
            &&& end_used == map_row_of(items, row, answers, used)->Done_1
            &&& output is Object
            &&& obj_get(output->Object_0, key) == match row {
                Json::Object(members) => match obj_get(members, key) {
                    Some(value) => Some(value),
                    None => obj_get(before->Object_0, key),
                },
                _ => obj_get(before->Object_0, key),
            }
        }),
{
    assert(items.push(MapItem::All).drop_last() =~= items);
    let before = map_row_of(items, row, answers, used)->Done_0->Object_0;
    match row {
        Json::Object(members) => lemma_later_members_win(before, members, key),
        _ => {},
    }
}

/// A mapping without `*` gives a row with the columns that it names and no others.
pub proof fn lemma_only_named_columns(items: Seq<MapItem>, row: Json, answers: Seq<Json>, used: nat, key: Seq<char>)
    requires
        forall|j: int| 0 <= j < items.len() ==> (#[trigger] items[j]) is Column && items[j]->Column_0.len() > 0 && !is_whole(
            items[j]->Column_0,
        ),
        map_row_of(items, row, answers, used) is Done,
    ensures
        map_row_of(items, row, answers, used)->Done_0 is Object,
        obj_get(map_row_of(items, row, answers, used)->Done_0->Object_0, key) is Some <==> exists|j: int|
            0 <= j < items.len() && (#[trigger] items[j])->Column_0[0] == key,
    decreases items.len(),
{
    if items.len() > 0 {
        let rest = items.drop_last();
        let last = items[items.len() - 1];
        let (path, expr) = (last->Column_0, last->Column_1);
        assert(rest.push(MapItem::Column(path, expr)) =~= items);
        assert forall|j: int| 0 <= j < rest.len() implies (#[trigger] rest[j]) is Column && rest[j]->Column_0.len() > 0 && !is_whole(
            rest[j]->Column_0,
        ) by {
            assert(rest[j] == items[j]);
        }
        let other = seq![key];
        lemma_last_column(rest, path, expr, row, answers, used, other);
        lemma_only_named_columns(rest, row, answers, used, key);
        let (before, after) = (map_row_of(rest, row, answers, used)->Done_0, map_row_of(items, row, answers, used)->Done_0);
        lemma_lookup_one(before->Object_0, key);
        lemma_lookup_one(after->Object_0, key);
        if path[0] == key {
            assert(lookup(after, path) is Some);
            assert(items[items.len() - 1]->Column_0[0] == key);
        } else {
            assert(path[0] != other[0]);
            assert(part_ways(path, other));
            assert(lookup(after, other) == lookup(before, other));
            assert(obj_get(after->Object_0, key) is Some <==> obj_get(before->Object_0, key) is Some);
            if obj_get(before->Object_0, key) is Some {
                let j = choose|j: int| 0 <= j < rest.len() && (#[trigger] rest[j])->Column_0[0] == key;
                assert(items[j]->Column_0[0] == key);
            }
            if exists|j: int| 0 <= j < items.len() && (#[trigger] items[j])->Column_0[0] == key {
                let j = choose|j: int| 0 <= j < items.len() && (#[trigger] items[j])->Column_0[0] == key;
                assert(rest[j]->Column_0[0] == key);
            }
        }
    }
}

/// MAP makes one row of each row, at its place, by the mapping on that row alone; `MAP *` leaves the
/// rows as they are.
pub proof fn lemma_map_step(config: Json, items: Seq<MapItem>, rows: Seq<Json>, results: Seq<Json>, i: int, answers: Seq<Json>)
    requires
        results.len() == task_inputs(Step::MapRows(config, items), rows).len(),
    ensures
        items == seq![MapItem::All] ==> step_rows(Step::MapRows(config, items), rows, results) == Many::Rows(rows),
        items != seq![MapItem::All] ==> {
            &&& results.len() == rows.len()
            &&& step_rows(Step::MapRows(config, items), rows, results) == Many::Rows(results)
            &&& 0 <= i < rows.len() ==> task_eval(Step::MapRows(config, items), rows, i, answers) == map_row_of(
                items,
                rows[i],
                answers,
                0,
            )
        },
{
    if items.len() == 1 && items[0] is All {
        assert(items =~= seq![MapItem::All]);
    }
}

/// The row of a group begins with the group's keys. Where the last item of the group's mapping is a
/// column, the row holds at its path the value that its expression comes to on the group's value,
/// and places that the path parts ways with are as before. `*` adds nothing.
pub proof fn lemma_group_column(
    items: Seq<MapItem>,
    path: Seq<Seq<char>>,
    expr: Expr,
    start: Seq<(Seq<char>, Json)>,
    group: Json,
    answers: Seq<Json>,
    used: nat,
    other: Seq<Seq<char>>,
)
    requires
        path.len() > 0,
    ensures
        group_output_of(Seq::empty(), start, group, answers, used) == Eval::Done(Json::Object(start), used),
        group_output_of(items.push(MapItem::All), start, group, answers, used) == group_output_of(
            items,
            start,
            group,
            answers,
            used,
        ),
        match group_output_of(items, start, group, answers, used) {
            Eval::Ask(question) => group_output_of(
                items.push(MapItem::Column(path, expr)),
                start,
                group,
                answers,
                used,
            ) == Eval::Ask(question),
            Eval::Done(before, now_used) => before is Object && match eval(expr, group, answers, now_used) {
                Eval::Ask(question) => group_output_of(
                    items.push(MapItem::Column(path, expr)),
                    start,
                    group,
                    answers,
                    used,
                ) == Eval::Ask(question),
                Eval::Done(value, then_used) => {
                    &&& group_output_of(items.push(MapItem::Column(path, expr)), start, group, answers, used) matches Eval::Done(
                        after,
                        end_used,
                    )
                    &&& end_used == then_used
                    &&& after is Object
                    &&& lookup(after, path) == Some(value)
                    &&& part_ways(path, other) ==> lookup(after, other) == lookup(before, other)
                },
            },
        },
{
    assert(items.push(MapItem::Column(path, expr)).drop_last() =~= items);
    assert(items.push(MapItem::All).drop_last() =~= items);
    lemma_group_output_is_object(items, start, group, answers, used);
    match group_output_of(items, start, group, answers, used) {
        Eval::Done(before, now_used) => match eval(expr, group, answers, now_used) {
            Eval::Done(value, _) => {
                lemma_get_after_set(before->Object_0, path, value);
                if part_ways(path, other) {
                    lemma_set_keeps_apart(before->Object_0, path, value, other);
                }
            },
            _ => {},
        },
        _ => {},
    }
}

proof fn lemma_group_output_is_object(
    items: Seq<MapItem>,
    start: Seq<(Seq<char>, Json)>,
    group: Json,
    answers: Seq<Json>,
    used: nat,
)
    ensures
        group_output_of(items, start, group, answers, used) matches Eval::Done(output, _) ==> output is Object,
    decreases items.len(),
{
    if items.len() > 0 {
        lemma_group_output_is_object(items.drop_last(), start, group, answers, used);
    }
}

/// A column of a group's mapping holds what its expression came to on the group's value, where no
/// later column writes there.
pub proof fn lemma_each_group_column(
    items: Seq<MapItem>,
    k: int,
    start: Seq<(Seq<char>, Json)>,
    group: Json,
    answers: Seq<Json>,
    used: nat,
)
    requires
        0 <= k < items.len(),
        items[k] is Column,
        items[k]->Column_0.len() > 0,
        forall|j: int| k < j < items.len() ==> (#[trigger] items[j] matches MapItem::Column(column, _) ==> part_ways(
            column,
            items[k]->Column_0,
        )),
        group_output_of(items, start, group, answers, used) is Done,
    ensures
        group_output_of(items.take(k), start, group, answers, used) is Done,
        eval(items[k]->Column_1, group, answers, group_output_of(items.take(k), start, group, answers, used)->Done_1) is Done,
        lookup(group_output_of(items, start, group, answers, used)->Done_0, items[k]->Column_0) == Some(
            eval(items[k]->Column_1, group, answers, group_output_of(items.take(k), start, group, answers, used)->Done_1)->Done_0,
        ),
    decreases items.len(),
{
    let (path, expr) = (items[k]->Column_0, items[k]->Column_1);
    let rest = items.drop_last();
    let last = items[items.len() - 1];
    assert(rest.push(last) =~= items);
    if k == items.len() - 1 {
        assert(items.take(k) =~= rest);
        lemma_group_column(rest, path, expr, start, group, answers, used, path);
    } else {
        assert(rest[k] == items[k]);
        assert forall|j: int| k < j < rest.len() implies (#[trigger] rest[j] matches MapItem::Column(column, _) ==> part_ways(
            column,
            path,
        )) by {
            assert(rest[j] == items[j]);
        }
        assert(rest.take(k) =~= items.take(k));
        match last {
            MapItem::Column(column, value) => {
                lemma_part_ways_long(column, path);
                lemma_group_column(rest, column, value, start, group, answers, used, path);
            },
            MapItem::All => {},
        }
        lemma_each_group_column(rest, k, start, group, answers, used);
    }
}

proof fn lemma_part_ways_long(a: Seq<Seq<char>>, b: Seq<Seq<char>>)
    requires
        part_ways(a, b),
    ensures
        a.len() > 0,
        b.len() > 0,
{
}

/// A path leads from member to member, and nowhere where a value on its way is no object or has no
/// such member; what it then stands for is null.
pub proof fn lemma_lookup(value: Json, path: Seq<Seq<char>>, key: Seq<char>)
    ensures
        lookup(value, Seq::empty()) == Some(value),
        lookup(value, path.push(key)) == (if lookup(value, path) is Some && lookup(value, path)->0 is Object {
            obj_get(lookup(value, path)->0->Object_0, key)
        } else {
            None
        }),
        value_at(value, path) == (if lookup(value, path) is Some {
            lookup(value, path)->0
        } else {
            Json::Null
        }),
    decreases path.len(),
{
    let longer = path.push(key);
    if path.len() == 0 {
        assert(path =~= Seq::empty());
        if let Json::Object(members) = value {
            lemma_lookup_one(members, key);
            assert(longer =~= seq![key]);
        }
    } else {
        assert(longer.drop_first() =~= path.drop_first().push(key));
        assert(longer[0] == path[0]);
        if let Json::Object(members) = value {
            if let Some(member) = obj_get(members, path[0]) {
                lemma_lookup(member, path.drop_first(), key);
            }
        }
    }
}

} // verus!
