//! Laws of the shapes of rows.
use vstd::prelude::*;
use crate::descriptor::{fields_of_rows, merge_fields, merge_shape, shape_members, shape_of};
use crate::laws::grouping::has_field;
use crate::laws::mapping::field_in;
use crate::laws::pages::orderly;
use crate::laws::values::lemma_found_is_member;
use crate::text::{lemma_text_lt_total, text_lt};
use crate::value::{keys_ascending, lemma_get_after_insert, lemma_insert_last, obj_get, Json};

verus! {

/// The values that rows have under a key, in order, without the rows that have none.
pub open spec fn held(rows: Seq<Json>, key: Seq<char>) -> Seq<Json>
    decreases rows.len(),
{
    if rows.len() == 0 {
        Seq::empty()
    } else if has_field(rows.last(), key) {
        held(rows.drop_last(), key).push(field_in(rows.last(), key))
    } else {
        held(rows.drop_last(), key)
    }
}

proof fn lemma_shorter(members: Seq<(Seq<char>, Json)>)
    requires
        keys_ascending(members),
        members.len() > 0,
    ensures
        keys_ascending(members.drop_last()),
        obj_get(members.drop_last(), members.last().0) is None,
        forall|key: Seq<char>| #[trigger]
            obj_get(members, key) == if key == members.last().0 {
                Some(members.last().1)
            } else {
                obj_get(members.drop_last(), key)
            },
{
    let rest = members.drop_last();
    let (last, value) = members.last();
    assert forall|i: int, j: int| 0 <= i < j < rest.len() implies text_lt(#[trigger] rest[i].0, #[trigger] rest[j].0) by {
        assert(rest[i] == members[i] && rest[j] == members[j]);
    }
    assert forall|i: int| 0 <= i < rest.len() implies text_lt(#[trigger] rest[i].0, last) by {
        assert(rest[i] == members[i] && members[members.len() - 1].0 == last);
    }
    lemma_insert_last(rest, last, value);
    assert(rest.push((last, value)) =~= members);
    lemma_text_lt_total(last, last);
    lemma_found_is_member(rest, last, value);
    assert forall|i: int| 0 <= i < rest.len() implies (#[trigger] rest[i]).0 != last by {
        assert(text_lt(rest[i].0, last));
    }
    assert forall|key: Seq<char>| #[trigger] obj_get(members, key) == if key == last {
        Some(value)
    } else {
        obj_get(rest, key)
    } by {
        lemma_get_after_insert(rest, last, value, key);
    }
}

proof fn lemma_merged_field(fields: Seq<(Seq<char>, Json)>, members: Seq<(Seq<char>, Json)>, key: Seq<char>)
    requires
        keys_ascending(members),
    ensures
        obj_get(merge_fields(fields, members), key) == match (obj_get(fields, key), obj_get(members, key)) {
            (Some(shape), Some(value)) => Some(merge_shape(shape, value)),
            (None, Some(value)) => Some(shape_of(value)),
            (found, None) => found,
        },
    decreases members.len(),
{
    if members.len() > 0 {
        let rest = members.drop_last();
        let (last, value) = members.last();
        lemma_shorter(members);
        lemma_merged_field(fields, rest, key);
        lemma_merged_field(fields, rest, last);
        let earlier = merge_fields(fields, rest);
        let set = match obj_get(earlier, last) {
            Some(shape) => merge_shape(shape, value),
            None => shape_of(value),
        };
        lemma_get_after_insert(earlier, last, set, key);
        assert(obj_get(members, key) == if key == last {
            Some(value)
        } else {
            obj_get(rest, key)
        });
    }
}

proof fn lemma_first_shape(members: Seq<(Seq<char>, Json)>)
    requires
        keys_ascending(members),
    ensures
        shape_members(members) == merge_fields(Seq::empty(), members),
    decreases members.len(),
{
    if members.len() > 0 {
        let rest = members.drop_last();
        lemma_shorter(members);
        lemma_first_shape(rest);
        lemma_merged_field(Seq::empty(), rest, members.last().0);
    }
}

/// The shape of rows has a field for every key that some row has. Where all rows that have it hold
/// objects under it, the field has the shape of those; else it has none.
pub proof fn lemma_shape(rows: Seq<Json>, key: Seq<char>)
    requires
        forall|i: int| 0 <= i < rows.len() ==> orderly(#[trigger] rows[i]),
    ensures
        obj_get(fields_of_rows(rows), key) == if held(rows, key).len() == 0 {
            None
        } else if forall|i: int| 0 <= i < held(rows, key).len() ==> (#[trigger] held(rows, key)[i]) is Object {
            Some(Json::Object(fields_of_rows(held(rows, key))))
        } else {
            Some(Json::Null)
        },
    decreases rows.len(),
{
    if rows.len() > 0 {
        let rest = rows.drop_last();
        assert forall|i: int| 0 <= i < rest.len() implies orderly(#[trigger] rest[i]) by {
            assert(rest[i] == rows[i]);
        }
        lemma_shape(rest, key);
        let (before, now) = (held(rest, key), held(rows, key));
        if let Json::Object(members) = rows.last() {
            assert(orderly(rows[rows.len() - 1]));
            let fields = fields_of_rows(rest);
            lemma_merged_field(fields, members, key);
            if let Some(value) = obj_get(members, key) {
                crate::laws::pages::lemma_orderly_member(members, key);
                assert(now == before.push(value));
                assert(now.drop_last() =~= before);
                assert(now.last() == value);
                let all_before = forall|i: int| 0 <= i < before.len() ==> (#[trigger] before[i]) is Object;
                let all_now = forall|i: int| 0 <= i < now.len() ==> (#[trigger] now[i]) is Object;
                assert(all_now <==> all_before && value is Object) by {
                    if all_now {
                        assert forall|i: int| 0 <= i < before.len() implies (#[trigger] before[i]) is Object by {
                            assert(now[i] is Object);
                        }
                        assert(now[now.len() - 1] is Object);
                    }
                    if all_before && value is Object {
                        assert forall|i: int| 0 <= i < now.len() implies (#[trigger] now[i]) is Object by {
                            if i < before.len() {
                                assert(before[i] is Object);
                            }
                        }
                    }
                }
                if let Json::Object(inner) = value {
                    lemma_first_shape(inner);
                    assert(fields_of_rows(now) == merge_fields(fields_of_rows(before), inner));
                    if before.len() == 0 {
                        assert(fields_of_rows(before) =~= Seq::empty());
                    }
                }
            }
        }
    }
}

} // verus!
