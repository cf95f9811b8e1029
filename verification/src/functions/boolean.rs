//! Functions on truth.
use vstd::prelude::*;
use crate::json::{same_json, truthy, value_truthy, values_same};
use crate::value::{jsons, Json, Value};

verus! {

/// Whether two values are equal.
pub fn eq(left: &Value, right: &Value) -> (same: bool)
    ensures
        same == same_json(left@, right@),
{
    values_same(left, right)
}

/// Whether some value counts as true.
pub open spec fn any_truthy(values: Seq<Json>) -> bool {
    exists|i: int| 0 <= i < values.len() && truthy(#[trigger] values[i])
}

/// Whether every value counts as true.
pub open spec fn all_truthy(values: Seq<Json>) -> bool {
    forall|i: int| 0 <= i < values.len() ==> truthy(#[trigger] values[i])
}

/// Whether some value counts as true.
pub fn or(values: &Vec<Value>) -> (answer: bool)
    ensures
        answer == any_truthy(jsons(values@)),
{
    let mut i: usize = 0;
    while i < values.len()
        invariant
            i <= values.len(),
            forall|j: int| 0 <= j < i ==> !truthy(#[trigger] jsons(values@)[j]),
        decreases values.len() - i,
    {
        assert(jsons(values@)[i as int] == values@[i as int]@);
        if value_truthy(&values[i]) {
            return true;
        }
        i = i + 1;
    }
    false
}

/// Whether every value counts as true.
pub fn and(values: &Vec<Value>) -> (answer: bool)
    ensures
        answer == all_truthy(jsons(values@)),
{
    let mut i: usize = 0;
    while i < values.len()
        invariant
            i <= values.len(),
            forall|j: int| 0 <= j < i ==> truthy(#[trigger] jsons(values@)[j]),
        decreases values.len() - i,
    {
        assert(jsons(values@)[i as int] == values@[i as int]@);
        if !value_truthy(&values[i]) {
            return false;
        }
        i = i + 1;
    }
    true
}

} // verus!
