//! JSON values: the executable type, its mathematical view and the basic operations.
use vstd::prelude::*;
use crate::text::{lemma_text_lt_total, lemma_text_lt_transitive, same_text, text_less, text_lt};

verus! {

/// A finite double, kept as its bit pattern together with its JSON text.
#[derive(Debug, PartialEq)]
pub struct Real {
    bits: u64,
    text: String,
}

/// A JSON number: a non-negative integer, a negative integer or a finite double.
#[derive(Debug, PartialEq)]
pub enum Number {
    PosInt(u64),
    NegInt(i64),
    Float(Real),
}

/// A JSON object: its members in ascending key order, each key once.
#[derive(Debug, PartialEq)]
pub struct Object {
    members: Vec<(String, Value)>,
}

/// A JSON value.
#[derive(Debug, PartialEq)]
pub enum Value {
    Null,
    Bool(bool),
    Number(Number),
    String(String),
    Array(Vec<Value>),
    Object(Object),
}

/// What a JSON number is: an integer, or the bit pattern of a finite double.
pub enum Num {
    PosInt(u64),
    NegInt(i64),
    Float(u64),
}

/// What a JSON value is.
#[verifier::ext_equal]
pub enum Json {
    Null,
    Bool(bool),
    Number(Num),
    Text(Seq<char>),
    Array(Seq<Json>),
    Object(Seq<(Seq<char>, Json)>),
}

/// The keys of an object in strictly ascending order.
pub open spec fn keys_ascending(members: Seq<(Seq<char>, Json)>) -> bool {
    forall|i: int, j: int|
        0 <= i < j < members.len() ==> text_lt(#[trigger] members[i].0, #[trigger] members[j].0)
}

/// A double is finite when its exponent is not all ones.
pub open spec fn finite_bits(bits: u64) -> bool {
    bits % 0x8000_0000_0000_0000 < 0x7ff0_0000_0000_0000
}

/// The JSON text that `serde_json` writes for the finite double with these bits.
pub uninterp spec fn double_text(bits: u64) -> Seq<char>;

/// The bits of the double that `str::parse` reads from a text, if it reads one.
/// Infinities and NaN have a reading too.
pub uninterp spec fn double_of_text(text: Seq<char>) -> Option<u64>;

impl View for Real {
    type V = u64;

    closed spec fn view(&self) -> u64 {
        self.bits
    }
}

impl Real {
    /// The JSON text kept beside the bits.
    pub closed spec fn kept_text(&self) -> Seq<char> {
        self.text@
    }

    #[verifier::type_invariant]
    spec fn well_formed(self) -> bool {
        finite_bits(self.bits) && self.text@ == double_text(self.bits)
    }

    /// The bit pattern of the double.
    pub fn bits(&self) -> (bits: u64)
        ensures
            bits == self@,
            finite_bits(bits),
    {
        proof {
            use_type_invariant(self);
        }
        self.bits
    }

    /// The JSON text of the double.
    pub fn json_text(&self) -> (text: String)
        ensures
            text@ == double_text(self@),
    {
        proof {
            use_type_invariant(self);
        }
        self.text.clone()
    }

    /// A copy of the number.
    pub fn copy(&self) -> (copy: Real)
        ensures
            copy@ == self@,
    {
        proof {
            use_type_invariant(self);
        }
        Real { bits: self.bits, text: self.text.clone() }
    }

    /// Reads a finite double. The reading is `str::parse` for doubles; texts that it rejects and
    /// texts that it reads as an infinity or NaN give `None`. The bits and the JSON text of the
    /// result are those of the number that was read.
    #[verifier::external_body]
    pub(crate) fn read(text: &str) -> (read: Option<Real>)
        ensures
            read is Some <==> (double_of_text(text@) is Some && finite_bits(double_of_text(text@)->0)),
            read matches Some(r) ==> r@ == double_of_text(text@)->0 && r.kept_text() == double_text(r@)
                && finite_bits(r@),
    {
        let number = text.parse().ok().and_then(serde_json::Number::from_f64)?;
        let bits = number.as_f64()?.to_bits();
        Some(Real { bits, text: number.to_string() })
    }
}

/// Whether `str::parse` reads a text as a double, be it finite or not.
#[verifier::external_body]
pub(crate) fn reads_as_double(text: &str) -> (answer: bool)
    ensures
        answer == (double_of_text(text@) is Some),
{
    text.parse().ok().map(serde_json::Number::from_f64).is_some()
}

impl View for Number {
    type V = Num;

    open spec fn view(&self) -> Num {
        match self {
            Number::PosInt(n) => Num::PosInt(*n),
            Number::NegInt(n) => Num::NegInt(*n),
            Number::Float(r) => Num::Float(r@),
        }
    }
}

impl Number {
    /// A copy of the number.
    pub fn copy(&self) -> (number: Number)
        ensures
            number@ == self@,
    {
        match self {
            Number::PosInt(n) => Number::PosInt(*n),
            Number::NegInt(n) => Number::NegInt(*n),
            Number::Float(r) => Number::Float(r.copy()),
        }
    }
}

impl View for Object {
    type V = Seq<(Seq<char>, Json)>;

    closed spec fn view(&self) -> Seq<(Seq<char>, Json)>
        decreases self,
    {
        Seq::new(
            self.members@.len(),
            |i: int|
                if 0 <= i < self.members@.len() {
                    (self.members@[i].0@, self.members@[i].1.json())
                } else {
                    arbitrary()
                },
        )
    }
}

impl Value {
    /// The mathematical value.
    pub open spec fn json(self) -> Json
        decreases self,
    {
        match self {
            Value::Null => Json::Null,
            Value::Bool(b) => Json::Bool(b),
            Value::Number(n) => Json::Number(n@),
            Value::String(s) => Json::Text(s@),
            Value::Array(a) => Json::Array(
                Seq::new(
                    a@.len(),
                    |i: int|
                        if 0 <= i < a@.len() {
                            a@[i].json()
                        } else {
                            arbitrary()
                        },
                ),
            ),
            Value::Object(o) => Json::Object(o@),
        }
    }
}

impl View for Value {
    type V = Json;

    open spec fn view(&self) -> Json {
        self.json()
    }
}

/// The mathematical values of a sequence of values.
pub open spec fn jsons(values: Seq<Value>) -> Seq<Json> {
    Seq::new(values.len(), |i: int| values[i]@)
}

/// The value of an array is the array of its elements' values.
pub broadcast proof fn lemma_array_json(values: Vec<Value>)
    ensures
        #[trigger] Value::Array(values).json() == Json::Array(jsons(values@)),
{
    assert(Value::Array(values).json()->Array_0 =~= jsons(values@));
}

/// Appending a value appends its mathematical value.
pub broadcast proof fn lemma_jsons_push(values: Seq<Value>, value: Value)
    ensures
        #[trigger] jsons(values.push(value)) == jsons(values).push(value@),
{
    assert(jsons(values.push(value)) =~= jsons(values).push(value@));
}

/// The member of an object with the given key.
pub open spec fn obj_get(members: Seq<(Seq<char>, Json)>, key: Seq<char>) -> Option<Json>
    decreases members.len(),
{
    if members.len() == 0 {
        None
    } else if members[0].0 == key {
        Some(members[0].1)
    } else {
        obj_get(members.drop_first(), key)
    }
}

/// How many leading keys come before the given key.
pub open spec fn obj_rank(members: Seq<(Seq<char>, Json)>, key: Seq<char>) -> nat
    decreases members.len(),
{
    if members.len() == 0 || !text_lt(members[0].0, key) {
        0
    } else {
        1 + obj_rank(members.drop_first(), key)
    }
}

/// The object with the member of that key replaced, or added at its place in the key order.
pub open spec fn obj_insert(members: Seq<(Seq<char>, Json)>, key: Seq<char>, value: Json) -> Seq<
    (Seq<char>, Json),
> {
    let rank = obj_rank(members, key) as int;
    let rest = if rank < members.len() && members[rank].0 == key {
        members.skip(rank + 1)
    } else {
        members.skip(rank)
    };
    members.take(rank).push((key, value)) + rest
}

/// The object without the member of that key.
pub open spec fn obj_remove(members: Seq<(Seq<char>, Json)>, key: Seq<char>) -> Seq<
    (Seq<char>, Json),
> {
    let rank = obj_rank(members, key) as int;
    if rank < members.len() && members[rank].0 == key {
        members.take(rank) + members.skip(rank + 1)
    } else {
        members
    }
}

/// The rank separates the smaller keys from the others.
pub proof fn lemma_obj_rank(members: Seq<(Seq<char>, Json)>, key: Seq<char>)
    requires
        keys_ascending(members),
    ensures
        obj_rank(members, key) <= members.len(),
        forall|i: int| 0 <= i < obj_rank(members, key) ==> text_lt(#[trigger] members[i].0, key),
        forall|i: int| obj_rank(members, key) <= i < members.len() ==> !text_lt(#[trigger] members[i].0, key),
        forall|i: int| obj_rank(members, key) < i < members.len() ==> text_lt(key, #[trigger] members[i].0),
    decreases members.len(),
{
    if members.len() > 0 {
        let rest = members.drop_first();
        assert forall|i: int, j: int| 0 <= i < j < rest.len() implies text_lt(#[trigger] rest[i].0, #[trigger] rest[j].0) by {
            assert(rest[i] == members[i + 1] && rest[j] == members[j + 1]);
        }
        if text_lt(members[0].0, key) {
            lemma_obj_rank(rest, key);
            assert forall|i: int| 0 <= i < obj_rank(members, key) implies text_lt(#[trigger] members[i].0, key) by {
                if i > 0 {
                    assert(members[i] == rest[i - 1]);
                }
            }
            assert forall|i: int| obj_rank(members, key) <= i < members.len() implies !text_lt(#[trigger] members[i].0, key) by {
                assert(members[i] == rest[i - 1]);
            }
            assert forall|i: int| obj_rank(members, key) < i < members.len() implies text_lt(key, #[trigger] members[i].0) by {
                assert(members[i] == rest[i - 1]);
            }
        } else {
            assert forall|i: int| 0 <= i < members.len() implies !text_lt(#[trigger] members[i].0, key) && (i > 0 ==> text_lt(key, members[i].0)) by {
                if i > 0 {
                    lemma_text_lt_total(members[0].0, key);
                    if key != members[0].0 {
                        lemma_text_lt_transitive(key, members[0].0, members[i].0);
                    }
                    lemma_text_lt_total(key, members[i].0);
                }
            }
        }
    }
}

/// A key is found at its rank or nowhere.
pub proof fn lemma_obj_get_rank(members: Seq<(Seq<char>, Json)>, key: Seq<char>)
    requires
        keys_ascending(members),
    ensures
        obj_get(members, key) == ({
            let rank = obj_rank(members, key) as int;
            if rank < members.len() && members[rank].0 == key {
                Some(members[rank].1)
            } else {
                None
            }
        }),
    decreases members.len(),
{
    lemma_obj_rank(members, key);
    if members.len() > 0 {
        let rest = members.drop_first();
        assert forall|i: int, j: int| 0 <= i < j < rest.len() implies text_lt(#[trigger] rest[i].0, #[trigger] rest[j].0) by {
            assert(rest[i] == members[i + 1] && rest[j] == members[j + 1]);
        }
        lemma_text_lt_total(members[0].0, key);
        lemma_obj_get_rank(rest, key);
        if text_lt(members[0].0, key) {
            assert(obj_rank(members, key) == 1 + obj_rank(rest, key));
        } else if members[0].0 != key {
            lemma_obj_rank(rest, key);
            let rank = obj_rank(rest, key) as int;
            if rank < rest.len() && rest[rank].0 == key {
                assert(rest[rank] == members[rank + 1]);
                assert(text_lt(key, members[rank + 1].0));
            }
        }
    }
}

/// Keys stay in strictly ascending order under insertion.
pub proof fn lemma_insert_ascending(members: Seq<(Seq<char>, Json)>, key: Seq<char>, value: Json)
    requires
        keys_ascending(members),
    ensures
        keys_ascending(obj_insert(members, key, value)),
{
    lemma_obj_rank(members, key);
    let rank = obj_rank(members, key) as int;
    let result = obj_insert(members, key, value);
    if rank < members.len() {
        lemma_text_lt_total(members[rank].0, key);
    }
    let shift: int = if rank < members.len() && members[rank].0 == key { 0 } else { 1 };
    assert forall|i: int, j: int| 0 <= i < j < result.len() implies text_lt(#[trigger] result[i].0, #[trigger] result[j].0) by {
        if i > rank {
            assert(result[i] == members[i - shift]);
        } else if i < rank {
            assert(result[i] == members[i]);
        }
        if j > rank {
            assert(result[j] == members[j - shift]);
        } else if j < rank {
            assert(result[j] == members[j]);
        }
    }
}

/// Keys stay in strictly ascending order under removal.
pub proof fn lemma_remove_ascending(members: Seq<(Seq<char>, Json)>, key: Seq<char>)
    requires
        keys_ascending(members),
    ensures
        keys_ascending(obj_remove(members, key)),
{
    lemma_obj_rank(members, key);
    let rank = obj_rank(members, key) as int;
    let result = obj_remove(members, key);
    if rank < members.len() && members[rank].0 == key {
        assert forall|i: int, j: int| 0 <= i < j < result.len() implies text_lt(#[trigger] result[i].0, #[trigger] result[j].0) by {
            let source_i = if i < rank { i } else { i + 1 };
            let source_j = if j < rank { j } else { j + 1 };
            assert(result[i] == members[source_i] && result[j] == members[source_j]);
        }
    }
}

/// The rank is a position in the object or its end.
pub proof fn lemma_rank_bound(members: Seq<(Seq<char>, Json)>, key: Seq<char>)
    ensures
        obj_rank(members, key) <= members.len(),
    decreases members.len(),
{
    if members.len() > 0 {
        lemma_rank_bound(members.drop_first(), key);
    }
}

/// Inserting into an object with a smaller first key leaves that first member in front.
proof fn lemma_insert_behind(members: Seq<(Seq<char>, Json)>, key: Seq<char>, value: Json)
    requires
        members.len() > 0,
        text_lt(members[0].0, key),
    ensures
        obj_insert(members, key, value) == seq![members[0]] + obj_insert(members.drop_first(), key, value),
{
    let rest = members.drop_first();
    let rank = obj_rank(rest, key) as int;
    lemma_rank_bound(rest, key);
    assert(members.take(rank + 1) =~= seq![members[0]] + rest.take(rank));
    assert(members.skip(rank + 1) =~= rest.skip(rank));
    if rank < rest.len() {
        assert(members[rank + 1] == rest[rank]);
        assert(members.skip(rank + 2) =~= rest.skip(rank + 1));
    }
    assert(obj_insert(members, key, value) =~= seq![members[0]] + obj_insert(rest, key, value));
}

/// What was inserted is read back, and the members with other keys are untouched.
pub proof fn lemma_get_after_insert(members: Seq<(Seq<char>, Json)>, key: Seq<char>, value: Json, other: Seq<char>)
    ensures
        obj_get(obj_insert(members, key, value), key) == Some(value),
        other != key ==> obj_get(obj_insert(members, key, value), other) == obj_get(members, other),
    decreases members.len(),
{
    let result = obj_insert(members, key, value);
    lemma_text_lt_total(key, key);
    if members.len() == 0 {
        assert(result =~= seq![(key, value)]);
        assert(result.drop_first() =~= Seq::empty());
        assert(obj_get(result.drop_first(), other) is None);
    } else {
        let rest = members.drop_first();
        if text_lt(members[0].0, key) {
            lemma_get_after_insert(rest, key, value, other);
            lemma_insert_behind(members, key, value);
            assert(result.drop_first() =~= obj_insert(rest, key, value));
        } else if members[0].0 == key {
            assert(result =~= seq![(key, value)] + rest);
            assert(result.drop_first() =~= rest);
        } else {
            assert(result =~= seq![(key, value)] + members);
            assert(result.drop_first() =~= members);
        }
    }
}

/// A key beyond all others is inserted at the end.
pub proof fn lemma_insert_last(members: Seq<(Seq<char>, Json)>, key: Seq<char>, value: Json)
    requires
        forall|i: int| 0 <= i < members.len() ==> text_lt(#[trigger] members[i].0, key),
    ensures
        obj_insert(members, key, value) == members.push((key, value)),
    decreases members.len(),
{
    if members.len() == 0 {
        assert(obj_insert(members, key, value) =~= members.push((key, value)));
    } else {
        let rest = members.drop_first();
        assert forall|i: int| 0 <= i < rest.len() implies text_lt(#[trigger] rest[i].0, key) by {
            assert(rest[i] == members[i + 1]);
        }
        lemma_insert_last(rest, key, value);
        lemma_insert_behind(members, key, value);
        assert(obj_insert(members, key, value) =~= members.push((key, value)));
    }
}

/// A key is present exactly where the object has a member with it.
pub proof fn lemma_obj_get_at(members: Seq<(Seq<char>, Json)>, i: int)
    requires
        keys_ascending(members),
        0 <= i < members.len(),
    ensures
        obj_get(members, members[i].0) == Some(members[i].1),
{
    let key = members[i].0;
    lemma_obj_rank(members, key);
    lemma_obj_get_rank(members, key);
    lemma_text_lt_total(key, key);
    let rank = obj_rank(members, key) as int;
    if rank < i {
        assert(!text_lt(members[rank].0, key));
    } else if rank > i {
        assert(text_lt(members[i].0, key));
    }
}

impl Object {
    #[verifier::type_invariant]
    spec fn ordered(self) -> bool {
        keys_ascending(self@)
    }

    /// The empty object.
    pub fn new() -> (object: Object)
        ensures
            object@ == Seq::<(Seq<char>, Json)>::empty(),
    {
        let object = Object { members: Vec::new() };
        assert(object@ =~= Seq::<(Seq<char>, Json)>::empty());
        object
    }

    /// The number of members.
    pub fn len(&self) -> (len: usize)
        ensures
            len == self@.len(),
    {
        self.members.len()
    }

    /// Whether the object has no members.
    pub fn is_empty(&self) -> (empty: bool)
        ensures
            empty == (self@.len() == 0),
    {
        self.members.len() == 0
    }

    /// The keys are in ascending order.
    pub fn check_ascending(&self)
        ensures
            keys_ascending(self@),
    {
        proof {
            use_type_invariant(self);
        }
    }

    /// The key of the member at a position.
    pub fn key_at(&self, index: usize) -> (key: &String)
        requires
            index < self@.len(),
        ensures
            key@ == self@[index as int].0,
    {
        &self.members[index].0
    }

    /// The value of the member at a position.
    pub fn value_at(&self, index: usize) -> (value: &Value)
        requires
            index < self@.len(),
        ensures
            value@ == self@[index as int].1,
            decreases_to!(*self => *value),
    {
        &self.members[index].1
    }

    /// The value of the member with the given key.
    pub fn get(&self, key: &str) -> (value: Option<&Value>)
        ensures
            value is Some <==> obj_get(self@, key@) is Some,
            value matches Some(v) ==> v@ == obj_get(self@, key@)->0 && decreases_to!(*self => *v),
    {
        let mut i: usize = 0;
        assert(self@.skip(0) =~= self@);
        while i < self.members.len()
            invariant
                i <= self.members.len(),
                self@.len() == self.members@.len(),
                obj_get(self@, key@) == obj_get(self@.skip(i as int), key@),
            decreases self.members.len() - i,
        {
            assert(self@.skip(i as int)[0] == self@[i as int]);
            if same_text(self.members[i].0.as_str(), key) {
                return Some(&self.members[i].1);
            }
            assert(self@.skip(i as int).drop_first() =~= self@.skip(i + 1));
            i = i + 1;
        }
        None
    }

    fn rank(&self, key: &str) -> (rank: usize)
        ensures
            rank == obj_rank(self@, key@),
            rank <= self.members@.len(),
    {
        let mut i: usize = 0;
        assert(self@.skip(0) =~= self@);
        while i < self.members.len() && text_less(self.members[i].0.as_str(), key)
            invariant
                i <= self.members.len(),
                self@.len() == self.members@.len(),
                obj_rank(self@, key@) == i + obj_rank(self@.skip(i as int), key@),
            decreases self.members.len() - i,
        {
            assert(self@.skip(i as int)[0] == self@[i as int]);
            assert(self@.skip(i as int).drop_first() =~= self@.skip(i + 1));
            i = i + 1;
        }
        assert(i < self.members.len() ==> self@.skip(i as int)[0] == self@[i as int]);
        i
    }

    /// Sets the member with the given key.
    pub fn insert(&mut self, key: String, value: Value)
        ensures
            final(self)@ == obj_insert(old(self)@, key@, value@),
    {
        let ghost before = self@;
        proof {
            use_type_invariant(&*self);
            lemma_insert_ascending(self@, key@, value@);
        }
        let rank: usize = self.rank(key.as_str());
        let mut members: Vec<(String, Value)> = Vec::new();
        std::mem::swap(&mut members, &mut self.members);
        let ghost unsorted = members@;
        if rank < members.len() && members[rank].0 == key {
            members.remove(rank);
        }
        let ghost (k, v) = (key@, value@);
        members.insert(rank, (key, value));
        let ghost updated = Object { members };
        assert(updated@ =~= obj_insert(before, k, v));
        self.members = members;
    }

    /// Adds a member whose key comes after all keys of the object.
    pub fn push(&mut self, key: String, value: Value)
        requires
            forall|i: int| 0 <= i < old(self)@.len() ==> text_lt(#[trigger] old(self)@[i].0, key@),
        ensures
            final(self)@ == old(self)@.push((key@, value@)),
    {
        proof {
            lemma_insert_last(self@, key@, value@);
        }
        self.insert(key, value);
    }

    /// Removes the member with the given key, if there is one.
    pub fn remove(&mut self, key: &str)
        ensures
            final(self)@ == obj_remove(old(self)@, key@),
    {
        let ghost before = self@;
        proof {
            use_type_invariant(&*self);
            lemma_remove_ascending(self@, key@);
        }
        let rank: usize = self.rank(key);
        let mut members: Vec<(String, Value)> = Vec::new();
        std::mem::swap(&mut members, &mut self.members);
        if rank < members.len() && same_text(members[rank].0.as_str(), key) {
            members.remove(rank);
        }
        let ghost updated = Object { members };
        assert(updated@ =~= obj_remove(before, key@));
        self.members = members;
    }

    /// A copy of the object.
    pub fn copy(&self) -> (object: Object)
        ensures
            object@ == self@,
        decreases self,
    {
        proof {
            use_type_invariant(self);
        }
        let mut members: Vec<(String, Value)> = Vec::new();
        let mut i: usize = 0;
        while i < self.members.len()
            invariant
                i <= self.members.len(),
                members@.len() == i,
                forall|j: int| 0 <= j < i ==> (#[trigger] members@[j]).0@ == self.members@[j].0@ && members@[j].1@ == self.members@[j].1@,
            decreases self.members.len() - i,
        {
            let key = self.members[i].0.clone();
            assert(decreases_to!(self => self.members@[i as int].1));
            let value = self.members[i].1.copy();
            members.push((key, value));
            i = i + 1;
        }
        let ghost copied = Object { members };
        assert(copied@ =~= self@);
        Object { members }
    }
}

impl Value {
    /// A copy of the value.
    pub fn copy(&self) -> (value: Value)
        ensures
            value@ == self@,
        decreases self,
    {
        match self {
            Value::Null => Value::Null,
            Value::Bool(b) => Value::Bool(*b),
            Value::Number(n) => Value::Number(n.copy()),
            Value::String(s) => Value::String(s.clone()),
            Value::Array(a) => {
                proof {
                    lemma_array_json(*a);
                }
                let values = copy_values(a);
                proof {
                    lemma_array_json(values);
                }
                Value::Array(values)
            },
            Value::Object(o) => Value::Object(o.copy()),
        }
    }
}

/// A copy of a list of values.
pub fn copy_values(values: &Vec<Value>) -> (copies: Vec<Value>)
    ensures
        jsons(copies@) == jsons(values@),
        copies@.len() == values@.len(),
    decreases values,
{
    let mut copies: Vec<Value> = Vec::new();
    let mut i: usize = 0;
    while i < values.len()
        invariant
            i <= values.len(),
            copies@.len() == i,
            forall|j: int| 0 <= j < i ==> (#[trigger] copies@[j])@ == values@[j]@,
        decreases values.len() - i,
    {
        assert(decreases_to!(values => values@[i as int]));
        copies.push(values[i].copy());
        i = i + 1;
    }
    assert(jsons(copies@) =~= jsons(values@));
    copies
}

impl Clone for Value {
    fn clone(&self) -> (value: Self)
        ensures
            value@ == self@,
    {
        self.copy()
    }
}

} // verus!
