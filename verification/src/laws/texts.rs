//! Laws of the functions on texts and objects, and of those that load a source.
use vstd::prelude::*;
use crate::call::{Loading, Method, Question};
use crate::eval::{eval_call, Eval};
use crate::functions::common::assign_of;
use crate::functions::strings::{base64_of, concatenated, displays, lemma_split_even, lemma_split_whole, parts_of};
use crate::json::{display, flattened, items_of, json_of_text};
use crate::laws::mapping::field_in;
use crate::laws::names::{lemma_assign_name, lemma_base64_name, lemma_concat_name, lemma_get_name, lemma_joinstring_name, lemma_newline_name, lemma_open_name, lemma_parse_name, lemma_parsejson_name, lemma_post_name, lemma_put_name, lemma_split_name};
use crate::laws::values::lemma_items_of_all;
use crate::text::join_on;
use crate::value::{keys_ascending, obj_get, Json, Num};

verus! {

/// The textual forms of values, one list behind the other, are those of the first and then those of
/// the second.
pub proof fn lemma_concatenated(first: Seq<Json>, second: Seq<Json>, value: Json)
    ensures
        concatenated(Seq::empty()) == Seq::<char>::empty(),
        concatenated(seq![value]) == display(value),
        concatenated(first + second) == concatenated(first) + concatenated(second),
    decreases second.len(),
{
    assert(seq![value].drop_last() =~= Seq::empty());
    assert(concatenated(seq![value].drop_last()) + display(value) =~= display(value));
    if second.len() == 0 {
        assert(first + second =~= first);
        assert(concatenated(first) + concatenated(second) =~= concatenated(first));
    } else {
        lemma_concatenated(first, second.drop_last(), value);
        assert((first + second).drop_last() =~= first + second.drop_last());
        assert(concatenated(first + second) =~= concatenated(first) + concatenated(second));
    }
}

/// `CONCAT` of arguments is what `CONCAT` of the first of them gives, followed by what it gives of the
/// others; of one value that is not a list it is its textual form, and of none it is empty.
pub proof fn lemma_concat(first: Seq<Json>, second: Seq<Json>, value: Json, answers: Seq<Json>, used: nat)
    ensures
        eval_call("CONCAT"@, Seq::empty(), answers, used) == Eval::Done(Json::Text(Seq::empty()), used),
        value !is Array ==> eval_call("CONCAT"@, seq![value], answers, used) == Eval::Done(Json::Text(display(value)), used),
        eval_call("CONCAT"@, seq![Json::Array(first)], answers, used) == Eval::Done(
            Json::Text(concatenated(first)),
            used,
        ),
        ({
            let whole = eval_call("CONCAT"@, first + second, answers, used);
            let begin = eval_call("CONCAT"@, first, answers, used);
            let end = eval_call("CONCAT"@, second, answers, used);
            &&& begin matches Eval::Done(Json::Text(a), _)
            &&& end matches Eval::Done(Json::Text(b), _)
            &&& whole == Eval::Done(Json::Text(a + b), used)
        }),
{
    lemma_concat_name(0);
    lemma_concat_name(1);
    lemma_concat_name(first.len() as int);
    lemma_concat_name(second.len() as int);
    lemma_concat_name((first + second).len() as int);
    lemma_items_of_all(first, second);
    lemma_concatenated(flattened(first), flattened(second), value);
}

/// Joining texts: none give nothing, one gives itself, and a further one stands behind the separator.
pub proof fn lemma_joined(pieces: Seq<Seq<char>>, piece: Seq<char>, separator: Seq<char>)
    ensures
        join_on(Seq::empty(), separator) == Seq::<char>::empty(),
        join_on(seq![piece], separator) == piece,
        pieces.len() > 0 ==> join_on(pieces.push(piece), separator) == join_on(pieces, separator) + separator + piece,
{
    assert(pieces.push(piece).drop_last() =~= pieces);
}

proof fn lemma_join_string_call(value: Json, separator: Json, answers: Seq<Json>, used: nat)
    ensures
        eval_call("JOINSTRING"@, seq![value, separator], answers, used) == Eval::Done(
            match separator {
                Json::Text(text) => Json::Text(join_on(displays(items_of(value)), text)),
                _ => Json::Null,
            },
            used,
        ),
{
    lemma_joinstring_name(2);
    let args = seq![value, separator];
    assert(args[0] == value && args[1] == separator && args.len() == 2);
}

/// `JOINSTRING` puts the textual forms of the items of its first argument one behind the other, with
/// the separator between them.
pub proof fn lemma_join_string(items: Seq<Json>, item: Json, separator: Seq<char>, answers: Seq<Json>, used: nat)
    ensures
        eval_call("JOINSTRING"@, seq![Json::Array(Seq::empty()), Json::Text(separator)], answers, used) == Eval::Done(
            Json::Text(Seq::empty()),
            used,
        ),
        eval_call("JOINSTRING"@, seq![Json::Array(seq![item]), Json::Text(separator)], answers, used) == Eval::Done(
            Json::Text(display(item)),
            used,
        ),
        item !is Array ==> eval_call("JOINSTRING"@, seq![item, Json::Text(separator)], answers, used) == Eval::Done(
            Json::Text(display(item)),
            used,
        ),
        items.len() > 0 ==> ({
            let before = eval_call("JOINSTRING"@, seq![Json::Array(items), Json::Text(separator)], answers, used);
            let after = eval_call("JOINSTRING"@, seq![Json::Array(items.push(item)), Json::Text(separator)], answers, used);
            &&& before matches Eval::Done(Json::Text(text), _)
            &&& after == Eval::Done(Json::Text(text + separator + display(item)), used)
        }),
        !(item is Text) ==> eval_call("JOINSTRING"@, seq![Json::Array(items), item], answers, used) == Eval::Done(
            Json::Null,
            used,
        ),
{
    let text = Json::Text(separator);
    lemma_join_string_call(Json::Array(Seq::empty()), text, answers, used);
    lemma_join_string_call(Json::Array(seq![item]), text, answers, used);
    lemma_join_string_call(item, text, answers, used);
    lemma_join_string_call(Json::Array(items), text, answers, used);
    lemma_join_string_call(Json::Array(items.push(item)), text, answers, used);
    lemma_join_string_call(Json::Array(items), item, answers, used);
    let forms = Seq::new(items.len(), |i: int| display(items[i]));
    lemma_joined(forms, display(item), separator);
    assert(displays(items) =~= forms);
    assert(displays(items.push(item)) =~= forms.push(display(item)));
    assert(displays(seq![item]) =~= seq![display(item)]);
    assert(displays(Seq::empty()) =~= Seq::empty());
}

/// `SPLIT` takes a text apart into as few parts as the limit allows, in order and without a gap. No
/// part is longer than the limit or empty, and an earlier part is as long as a later one or longer
/// by one.
pub proof fn lemma_split(text: Seq<char>, limit: usize, i: int, j: int, answers: Seq<Json>, used: nat)
    requires
        text.len() > 0,
    ensures
        ({
            let result = eval_call("SPLIT"@, seq![Json::Text(text), Json::Number(Num::PosInt(limit as u64))], answers, used);
            if limit == 0 {
                result == Eval::Done(Json::Null, used)
            } else {
                &&& result matches Eval::Done(Json::Array(values), now_used)
                &&& now_used == used
                &&& (values.len() - 1) * limit < text.len() <= values.len() * limit
                &&& forall|k: int| 0 <= k < values.len() ==> (#[trigger] values[k]) is Text
                &&& join_on(Seq::new(values.len(), |k: int| values[k]->Text_0), Seq::empty()) == text
                &&& 0 <= i <= j < values.len() ==> 0 < values[j]->Text_0.len() <= values[i]->Text_0.len() <= limit
                    && values[i]->Text_0.len() <= values[j]->Text_0.len() + 1
            }
        }),
{
    lemma_split_name(2);
    if limit > 0 {
        let parts = parts_of(text, limit as int);
        let (length, l) = (text.len() as int, limit as int);
        let count = crate::functions::strings::part_count(length, l);
        assert(1 <= count && (count - 1) * l < length <= count * l && count <= length) by (nonlinear_arith)
            requires
                count == (length + l - 1) / l,
                l > 0,
                length > 0,
        ;
        lemma_split_whole(text, l);
        let values = Seq::new(parts.len(), |k: int| Json::Text(parts[k]));
        assert(Seq::new(values.len(), |k: int| values[k]->Text_0) =~= parts);
        if 0 <= i <= j < parts.len() {
            lemma_split_even(text, l, i, j);
            lemma_split_even(text, l, j, i);
            lemma_part_length(text, l, i);
            lemma_part_length(text, l, j);
        }
    }
}

proof fn lemma_part_length(text: Seq<char>, limit: int, i: int)
    requires
        text.len() > 0,
        limit > 0,
        0 <= i < parts_of(text, limit).len(),
    ensures
        ({
            let count = parts_of(text, limit).len() as int;
            let length = text.len() as int;
            parts_of(text, limit)[i].len() == length / count + (if i < length % count { 1int } else { 0int }) && length / count >= 1
        }),
{
    let length = text.len() as int;
    let count = crate::functions::strings::part_count(length, limit);
    assert(1 <= count <= length) by (nonlinear_arith)
        requires
            count == (length + limit - 1) / limit,
            limit > 0,
            length > 0,
    ;
    let (base, longer) = (length / count, length % count);
    assert(base >= 1 && count * base + longer == length && 0 <= longer < count) by (nonlinear_arith)
        requires
            base == length / count,
            longer == length % count,
            1 <= count <= length,
    ;
    assert((i + 1) * base == i * base + base) by (nonlinear_arith);
    assert(0 <= i * base && (i + 1) * base <= count * base) by (nonlinear_arith)
        requires
            0 <= i < count,
            base >= 1,
    ;
}

/// An empty text has no parts, and what is no text is not split.
pub proof fn lemma_split_nothing(value: Json, limit: usize, answers: Seq<Json>, used: nat)
    requires
        limit > 0,
        !(value is Text) || value->Text_0.len() == 0,
    ensures
        eval_call("SPLIT"@, seq![value, Json::Number(Num::PosInt(limit as u64))], answers, used) == Eval::Done(
            if value is Text {
                Json::Array(Seq::empty())
            } else {
                Json::Null
            },
            used,
        ),
{
    lemma_split_name(2);
}

/// `NEWLINE` is a line feed, and `BASE64` encodes the textual form of its argument.
pub proof fn lemma_new_line_and_base64(value: Json, answers: Seq<Json>, used: nat)
    ensures
        eval_call("NEWLINE"@, Seq::empty(), answers, used) == Eval::Done(Json::Text(seq!['\n']), used),
        eval_call("BASE64"@, seq![value], answers, used) == Eval::Done(Json::Text(base64_of(display(value))), used),
{
    lemma_newline_name(0);
    lemma_base64_name(1);
}

/// `PARSE` and `PARSEJSON` give the value of a JSON text, null where it is none.
pub proof fn lemma_parse(value: Json, answers: Seq<Json>, used: nat)
    ensures
        eval_call("PARSE"@, seq![value], answers, used) == Eval::Done(
            if value is Text && json_of_text(value->Text_0) is Some {
                json_of_text(value->Text_0)->0
            } else {
                Json::Null
            },
            used,
        ),
        eval_call("PARSEJSON"@, seq![value], answers, used) == eval_call("PARSE"@, seq![value], answers, used),
{
    lemma_parse_name(1);
    lemma_parsejson_name(1);
}

/// The member that the last of some objects to have the key has.
pub open spec fn last_member(objects: Seq<Json>, key: Seq<char>) -> Option<Json>
    decreases objects.len(),
{
    if objects.len() == 0 {
        None
    } else {
        match obj_get(objects.last()->Object_0, key) {
            Some(value) => Some(value),
            None => last_member(objects.drop_last(), key),
        }
    }
}

/// `ASSIGN` merges objects: under each key the result has what the last object with that key has,
/// and nothing else. It is null where an argument is no object, and where there is none.
pub proof fn lemma_assign(objects: Seq<Json>, key: Seq<char>, answers: Seq<Json>, used: nat)
    requires
        forall|i: int| 0 <= i < objects.len() && (#[trigger] objects[i]) is Object ==> keys_ascending(objects[i]->Object_0),
    ensures
        ({
            let result = eval_call("ASSIGN"@, objects, answers, used);
            if objects.len() > 0 && forall|i: int| 0 <= i < objects.len() ==> (#[trigger] objects[i]) is Object {
                &&& result matches Eval::Done(Json::Object(members), now_used)
                &&& now_used == used
                &&& obj_get(members, key) == last_member(objects, key)
            } else {
                result == Eval::Done(Json::Null, used)
            }
        }),
{
    lemma_assign_name(objects.len() as int);
    lemma_assigned(objects, key);
}

proof fn lemma_assigned(objects: Seq<Json>, key: Seq<char>)
    requires
        forall|i: int| 0 <= i < objects.len() && (#[trigger] objects[i]) is Object ==> keys_ascending(objects[i]->Object_0),
    ensures
        if objects.len() > 0 && forall|i: int| 0 <= i < objects.len() ==> (#[trigger] objects[i]) is Object {
            assign_of(objects) is Object && obj_get(assign_of(objects)->Object_0, key) == last_member(objects, key)
        } else {
            assign_of(objects) is Null
        },
    decreases objects.len(),
{
    if objects.len() == 1 {
        assert(objects.drop_last() =~= Seq::empty());
        assert(objects.last() == objects[0]);
        assert(last_member(objects.drop_last(), key) is None);
        if objects[0] is Object {
            assert forall|i: int| 0 <= i < objects.len() implies (#[trigger] objects[i]) is Object by {}
        }
    } else if objects.len() > 1 {
        let rest = objects.drop_last();
        assert forall|i: int| 0 <= i < rest.len() && (#[trigger] rest[i]) is Object implies keys_ascending(rest[i]->Object_0) by {
            assert(rest[i] == objects[i]);
        }
        lemma_assigned(rest, key);
        let last = objects[objects.len() - 1];
        if forall|i: int| 0 <= i < objects.len() ==> (#[trigger] objects[i]) is Object {
            assert forall|i: int| 0 <= i < rest.len() implies (#[trigger] rest[i]) is Object by {
                assert(rest[i] == objects[i]);
            }
            assert(last is Object);
            crate::functions::common::lemma_later_members_win(assign_of(rest)->Object_0, last->Object_0, key);
        } else {
            if last is Object && forall|i: int| 0 <= i < rest.len() ==> (#[trigger] rest[i]) is Object {
                assert forall|i: int| 0 <= i < objects.len() implies (#[trigger] objects[i]) is Object by {
                    if i < rest.len() {
                        assert(rest[i] is Object);
                    }
                }
            }
        }
    }
}

/// `GET` with a value and names of fields leads from field to field, as a reference does, and arguments
/// that are no texts do not matter; with more than one argument it loads nothing.
pub proof fn lemma_get_field(value: Json, names: Seq<Json>, name: Seq<char>, other: Json, answers: Seq<Json>, used: nat)
    requires
        names.len() > 0,
        name != "$"@,
        !(other is Text),
    ensures
        eval_call("GET"@, seq![value, Json::Text(name)], answers, used) == Eval::Done(field_in(value, name), used),
        ({
            let before = eval_call("GET"@, seq![value] + names, answers, used);
            let after = eval_call("GET"@, (seq![value] + names).push(Json::Text(name)), answers, used);
            &&& before matches Eval::Done(found, now_used)
            &&& now_used == used
            &&& after == Eval::Done(field_in(found, name), used)
            &&& eval_call("GET"@, (seq![value] + names).push(other), answers, used) == before
        }),
{
    lemma_get_name(2);
    lemma_get_name(1 + names.len() as int);
    lemma_get_name(2 + names.len() as int);
    let one = seq![value, Json::Text(name)];
    let none = Seq::<Json>::empty();
    assert(one.skip(1) =~= seq![Json::Text(name)]);
    assert(seq![Json::Text(name)].drop_last() =~= none);
    assert(crate::call::texts_among(none) =~= Seq::empty());
    assert(crate::call::texts_among(one.skip(1)) =~= Seq::empty().push(name));
    crate::laws::mapping::lemma_reference(value, Seq::empty(), name);
    let args = seq![value] + names;
    assert(args.skip(1) =~= names);
    assert(args.push(Json::Text(name)).skip(1) =~= names.push(Json::Text(name)));
    assert(names.push(Json::Text(name)).drop_last() =~= names);
    assert(args[0] == value && args.push(Json::Text(name))[0] == value && args.push(other)[0] == value);
    assert(args.push(other).skip(1) =~= names.push(other));
    assert(names.push(other).drop_last() =~= names);
    crate::laws::mapping::lemma_reference(value, crate::call::texts_among(names), name);
}

/// The method of a function that loads a source.
pub open spec fn loads_by(name: Seq<char>) -> Method {
    if name == "POST"@ {
        Method::Post
    } else if name == "PUT"@ {
        Method::Put
    } else {
        Method::Get
    }
}

/// `OPEN`, `GET`, `POST` and `PUT` of a text ask for the source of that name, by their own method and
/// with nothing else, and come to the answer.
pub proof fn lemma_load_text(name: Seq<char>, source: Seq<char>, answers: Seq<Json>, used: nat)
    requires
        name == "OPEN"@ || name == "GET"@ || name == "POST"@ || name == "PUT"@,
    ensures
        eval_call(name, seq![Json::Text(source)], answers, used) == if used < answers.len() {
            Eval::Done(answers[used as int], used + 1)
        } else {
            Eval::Ask(
                Question::Load(
                    Loading { source, method: loads_by(name), headers: Seq::empty(), body: None, paging: None },
                ),
            )
        },
{
    lemma_open_name(1);
    lemma_get_name(1);
    lemma_post_name(1);
    lemma_put_name(1);
    reveal_strlit("POST");
    reveal_strlit("PUT");
    reveal_strlit("GET");
    reveal_strlit("OPEN");
    assert("GET"@[0] != "PUT"@[0]);
    assert("OPEN"@[0] != "POST"@[0]);
}

/// A member of a configuration that is present and not null.
pub open spec fn present(members: Seq<(Seq<char>, Json)>, key: Seq<char>) -> Option<Json> {
    match obj_get(members, key) {
        Some(Json::Null) => None,
        found => found,
    }
}

/// `OPEN`, `GET`, `POST` and `PUT` of a configuration whose `src` is a text ask for that source with
/// its headers in order, its body and its paging. Headers that are not all texts, and a missing
/// `src`, make the call null.
pub proof fn lemma_load_config(name: Seq<char>, members: Seq<(Seq<char>, Json)>, answers: Seq<Json>, used: nat)
    requires
        name == "OPEN"@ || name == "GET"@ || name == "POST"@ || name == "PUT"@,
        used == answers.len(),
    ensures
        ({
            let result = eval_call(name, seq![Json::Object(members)], answers, used);
            let headers = present(members, "headers"@);
            let source = obj_get(members, "src"@);
            if source is Some && source->0 is Text && (headers is None || (headers->0 is Object && forall|i: int|
                0 <= i < headers->0->Object_0.len() ==> (#[trigger] headers->0->Object_0[i].1) is Text)) {
                &&& result matches Eval::Ask(Question::Load(load))
                &&& load.source == source->0->Text_0
                &&& load.method == loads_by(name)
                &&& load.body == present(members, "body"@)
                &&& load.paging == present(members, "paging"@)
                &&& headers is None ==> load.headers.len() == 0
                &&& headers is Some ==> load.headers.len() == headers->0->Object_0.len() && forall|i: int|
                    0 <= i < load.headers.len() ==> Json::Text((#[trigger] load.headers[i]).1) == headers->0->Object_0[i].1
                        && load.headers[i].0 == headers->0->Object_0[i].0
            } else {
                result == Eval::Done(Json::Null, used)
            }
        }),
{
    lemma_open_name(1);
    lemma_get_name(1);
    lemma_post_name(1);
    lemma_put_name(1);
    reveal_strlit("POST");
    reveal_strlit("PUT");
    reveal_strlit("GET");
    reveal_strlit("OPEN");
    assert("GET"@[0] != "PUT"@[0]);
    assert("OPEN"@[0] != "POST"@[0]);
    assert(present(members, "headers"@) == crate::call::given(members, "headers"@));
    assert(present(members, "body"@) == crate::call::given(members, "body"@));
    assert(present(members, "paging"@) == crate::call::given(members, "paging"@));
    let args = seq![Json::Object(members)];
    assert(args[0] == Json::Object(members) && args.len() == 1);
}

} // verus!
