//! Calls of the built-in functions: which function a name stands for, what a call gives, and what
//! it asks of the outside.
use vstd::prelude::*;
use crate::functions::array;
use crate::functions::boolean;
use crate::functions::common;
use crate::functions::date;
use crate::functions::ml;
use crate::functions::numbers;
use crate::functions::optics;
use crate::functions::strings;
use crate::json::{flatten, flattened, items_of};
use crate::number::{ceil_of, floor_of, integer_num, integer_number, num_bits, saturated};
use crate::order::stable_sorted;
use crate::paths::{follow, follow_reference};
use crate::text::{join_on, lemma_texts_push, normalized, normalized_function_name, same_text, texts};
use crate::value::{jsons, lemma_array_json, lemma_jsons_push, obj_get, Json, Num, Number, Object, Value};

verus! {

broadcast use {lemma_array_json, lemma_jsons_push};

/// A built-in function.
#[derive(Debug, Clone, Copy, PartialEq, Eq, Structural)]
pub enum Function {
    Field,
    Open,
    Post,
    Put,
    Sum,
    Min,
    ToNumber,
    Ceil,
    Floor,
    Assign,
    Parse,
    Color,
    Eq,
    Or,
    And,
    AddDate,
    IsoDate,
    GetDate,
    MinDate,
    MaxDate,
    Today,
    Softmax,
    Entropy,
    L2,
    Random,
    Subtract,
    Nn,
    Nn2,
    Tsne,
    Optics,
    Umap,
    IndexOf,
    Range,
    At,
    Distinct,
    Sort,
    Count,
    Array,
    CrossJoin,
    ZipRows,
    UnzipRows,
    JoinRows,
    JoinRowsIndex,
    NewLine,
    Concat,
    Base64,
    Len,
    Split,
    JoinString,
    RandomString,
}

/// How many arguments a function takes: at least, and at most where there is a limit.
pub open spec fn takes(function: Function, count: int) -> bool {
    match function {
        Function::Field => count != 1,
        Function::Open => count == 1,
        Function::Post => count == 1,
        Function::Put => count == 1,
        Function::Sum => true,
        Function::Min => true,
        Function::ToNumber => count == 1,
        Function::Ceil => count == 1,
        Function::Floor => count == 1,
        Function::Assign => true,
        Function::Parse => count == 1,
        Function::Color => count == 1,
        Function::Eq => count == 2,
        Function::Or => true,
        Function::And => true,
        Function::AddDate => count == 2,
        Function::IsoDate => count == 1,
        Function::GetDate => count == 1,
        Function::MinDate => true,
        Function::MaxDate => true,
        Function::Today => count == 0,
        Function::Softmax => count == 1,
        Function::Entropy => count == 1,
        Function::L2 => count == 1,
        Function::Random => count == 0,
        Function::Subtract => count == 2,
        Function::Nn => 3 <= count <= 5,
        Function::Nn2 => count == 3,
        Function::Tsne => count == 2,
        Function::Optics => count == 2,
        Function::Umap => 1 <= count <= 2,
        Function::IndexOf => count == 2,
        Function::Range => count == 2,
        Function::At => count == 2,
        Function::Distinct => true,
        Function::Sort => true,
        Function::Count => true,
        Function::Array => true,
        Function::CrossJoin => count == 1,
        Function::ZipRows => count == 1,
        Function::UnzipRows => count == 1,
        Function::JoinRows => count == 2,
        Function::JoinRowsIndex => count == 2,
        Function::NewLine => count == 0,
        Function::Concat => true,
        Function::Base64 => count == 1,
        Function::Len => true,
        Function::Split => count == 2,
        Function::JoinString => count == 2,
        Function::RandomString => count == 1,
    }
}

/// Whether a function takes a number of arguments.
pub fn takes_count(function: Function, count: usize) -> (answer: bool)
    ensures
        answer == takes(function, count as int),
{
    match function {
        Function::Field => count != 1,
        Function::Open => count == 1,
        Function::Post => count == 1,
        Function::Put => count == 1,
        Function::Sum => true,
        Function::Min => true,
        Function::ToNumber => count == 1,
        Function::Ceil => count == 1,
        Function::Floor => count == 1,
        Function::Assign => true,
        Function::Parse => count == 1,
        Function::Color => count == 1,
        Function::Eq => count == 2,
        Function::Or => true,
        Function::And => true,
        Function::AddDate => count == 2,
        Function::IsoDate => count == 1,
        Function::GetDate => count == 1,
        Function::MinDate => true,
        Function::MaxDate => true,
        Function::Today => count == 0,
        Function::Softmax => count == 1,
        Function::Entropy => count == 1,
        Function::L2 => count == 1,
        Function::Random => count == 0,
        Function::Subtract => count == 2,
        Function::Nn => 3 <= count && count <= 5,
        Function::Nn2 => count == 3,
        Function::Tsne => count == 2,
        Function::Optics => count == 2,
        Function::Umap => 1 <= count && count <= 2,
        Function::IndexOf => count == 2,
        Function::Range => count == 2,
        Function::At => count == 2,
        Function::Distinct => true,
        Function::Sort => true,
        Function::Count => true,
        Function::Array => true,
        Function::CrossJoin => count == 1,
        Function::ZipRows => count == 1,
        Function::UnzipRows => count == 1,
        Function::JoinRows => count == 2,
        Function::JoinRowsIndex => count == 2,
        Function::NewLine => count == 0,
        Function::Concat => true,
        Function::Base64 => count == 1,
        Function::Len => true,
        Function::Split => count == 2,
        Function::JoinString => count == 2,
        Function::RandomString => count == 1,
    }
}

/// The function that a name in upper case stands for. `GET` with one argument loads a source,
/// else it reads a field.
pub open spec fn named(name: Seq<char>, count: int) -> Option<Function> {
    if name == "GET"@ {
        if count == 1 {
            Some(Function::Open)
        } else {
            Some(Function::Field)
        }
    } else if name == "OPEN"@ {
        Some(Function::Open)
    } else if name == "POST"@ {
        Some(Function::Post)
    } else if name == "PUT"@ {
        Some(Function::Put)
    } else if name == "SUM"@ {
        Some(Function::Sum)
    } else if name == "MIN"@ {
        Some(Function::Min)
    } else if name == "TONUMBER"@ {
        Some(Function::ToNumber)
    } else if name == "CEIL"@ {
        Some(Function::Ceil)
    } else if name == "FLOOR"@ {
        Some(Function::Floor)
    } else if name == "ASSIGN"@ {
        Some(Function::Assign)
    } else if name == "PARSE"@ || name == "PARSEJSON"@ {
        Some(Function::Parse)
    } else if name == "COLOR"@ {
        Some(Function::Color)
    } else if name == "EQ"@ {
        Some(Function::Eq)
    } else if name == "OR"@ {
        Some(Function::Or)
    } else if name == "AND"@ {
        Some(Function::And)
    } else if name == "ADDDATE"@ {
        Some(Function::AddDate)
    } else if name == "ISODATE"@ {
        Some(Function::IsoDate)
    } else if name == "GETDATE"@ {
        Some(Function::GetDate)
    } else if name == "MINDATE"@ {
        Some(Function::MinDate)
    } else if name == "MAXDATE"@ {
        Some(Function::MaxDate)
    } else if name == "TODAY"@ {
        Some(Function::Today)
    } else if name == "SOFTMAX"@ {
        Some(Function::Softmax)
    } else if name == "ENTROPY"@ {
        Some(Function::Entropy)
    } else if name == "L2"@ {
        Some(Function::L2)
    } else if name == "RANDOM"@ {
        Some(Function::Random)
    } else if name == "SUBTRACT"@ {
        Some(Function::Subtract)
    } else if name == "NN"@ {
        Some(Function::Nn)
    } else if name == "NN2"@ {
        Some(Function::Nn2)
    } else if name == "TSNE"@ {
        Some(Function::Tsne)
    } else if name == "OPTICS"@ {
        Some(Function::Optics)
    } else if name == "UMAP"@ {
        Some(Function::Umap)
    } else if name == "INDEXOF"@ {
        Some(Function::IndexOf)
    } else if name == "RANGE"@ {
        Some(Function::Range)
    } else if name == "AT"@ {
        Some(Function::At)
    } else if name == "DISTINCT"@ {
        Some(Function::Distinct)
    } else if name == "SORT"@ {
        Some(Function::Sort)
    } else if name == "COUNT"@ {
        Some(Function::Count)
    } else if name == "ARRAY"@ {
        Some(Function::Array)
    } else if name == "CROSSJOIN"@ {
        Some(Function::CrossJoin)
    } else if name == "ZIPROWS"@ {
        Some(Function::ZipRows)
    } else if name == "UNZIPROWS"@ {
        Some(Function::UnzipRows)
    } else if name == "JOINROWS"@ {
        Some(Function::JoinRows)
    } else if name == "JOINROWSINDEX"@ {
        Some(Function::JoinRowsIndex)
    } else if name == "NEWLINE"@ {
        Some(Function::NewLine)
    } else if name == "CONCAT"@ {
        Some(Function::Concat)
    } else if name == "BASE64"@ {
        Some(Function::Base64)
    } else if name == "LEN"@ {
        Some(Function::Len)
    } else if name == "SPLIT"@ {
        Some(Function::Split)
    } else if name == "JOINSTRING"@ {
        Some(Function::JoinString)
    } else if name == "RANDOMSTRING"@ {
        Some(Function::RandomString)
    } else {
        None
    }
}

/// The function that a call means: names ignore case and underscores, and a call with a wrong
/// number of arguments means none.
pub open spec fn function_of(name: Seq<char>, count: int) -> Option<Function> {
    match named(normalized(name), count) {
        Some(function) => if takes(function, count) {
            Some(function)
        } else {
            None
        },
        None => None,
    }
}

fn find_named(name: &str, count: usize) -> (function: Option<Function>)
    ensures
        function == named(name@, count as int),
{
    if same_text(name, "GET") {
        if count == 1 {
            Some(Function::Open)
        } else {
            Some(Function::Field)
        }
    } else if same_text(name, "OPEN") {
        Some(Function::Open)
    } else if same_text(name, "POST") {
        Some(Function::Post)
    } else if same_text(name, "PUT") {
        Some(Function::Put)
    } else if same_text(name, "SUM") {
        Some(Function::Sum)
    } else if same_text(name, "MIN") {
        Some(Function::Min)
    } else if same_text(name, "TONUMBER") {
        Some(Function::ToNumber)
    } else if same_text(name, "CEIL") {
        Some(Function::Ceil)
    } else if same_text(name, "FLOOR") {
        Some(Function::Floor)
    } else if same_text(name, "ASSIGN") {
        Some(Function::Assign)
    } else if same_text(name, "PARSE") || same_text(name, "PARSEJSON") {
        Some(Function::Parse)
    } else if same_text(name, "COLOR") {
        Some(Function::Color)
    } else if same_text(name, "EQ") {
        Some(Function::Eq)
    } else if same_text(name, "OR") {
        Some(Function::Or)
    } else if same_text(name, "AND") {
        Some(Function::And)
    } else if same_text(name, "ADDDATE") {
        Some(Function::AddDate)
    } else if same_text(name, "ISODATE") {
        Some(Function::IsoDate)
    } else if same_text(name, "GETDATE") {
        Some(Function::GetDate)
    } else if same_text(name, "MINDATE") {
        Some(Function::MinDate)
    } else if same_text(name, "MAXDATE") {
        Some(Function::MaxDate)
    } else if same_text(name, "TODAY") {
        Some(Function::Today)
    } else if same_text(name, "SOFTMAX") {
        Some(Function::Softmax)
    } else if same_text(name, "ENTROPY") {
        Some(Function::Entropy)
    } else if same_text(name, "L2") {
        Some(Function::L2)
    } else if same_text(name, "RANDOM") {
        Some(Function::Random)
    } else if same_text(name, "SUBTRACT") {
        Some(Function::Subtract)
    } else if same_text(name, "NN") {
        Some(Function::Nn)
    } else if same_text(name, "NN2") {
        Some(Function::Nn2)
    } else if same_text(name, "TSNE") {
        Some(Function::Tsne)
    } else if same_text(name, "OPTICS") {
        Some(Function::Optics)
    } else if same_text(name, "UMAP") {
        Some(Function::Umap)
    } else if same_text(name, "INDEXOF") {
        Some(Function::IndexOf)
    } else if same_text(name, "RANGE") {
        Some(Function::Range)
    } else if same_text(name, "AT") {
        Some(Function::At)
    } else if same_text(name, "DISTINCT") {
        Some(Function::Distinct)
    } else if same_text(name, "SORT") {
        Some(Function::Sort)
    } else if same_text(name, "COUNT") {
        Some(Function::Count)
    } else if same_text(name, "ARRAY") {
        Some(Function::Array)
    } else if same_text(name, "CROSSJOIN") {
        Some(Function::CrossJoin)
    } else if same_text(name, "ZIPROWS") {
        Some(Function::ZipRows)
    } else if same_text(name, "UNZIPROWS") {
        Some(Function::UnzipRows)
    } else if same_text(name, "JOINROWS") {
        Some(Function::JoinRows)
    } else if same_text(name, "JOINROWSINDEX") {
        Some(Function::JoinRowsIndex)
    } else if same_text(name, "NEWLINE") {
        Some(Function::NewLine)
    } else if same_text(name, "CONCAT") {
        Some(Function::Concat)
    } else if same_text(name, "BASE64") {
        Some(Function::Base64)
    } else if same_text(name, "LEN") {
        Some(Function::Len)
    } else if same_text(name, "SPLIT") {
        Some(Function::Split)
    } else if same_text(name, "JOINSTRING") {
        Some(Function::JoinString)
    } else if same_text(name, "RANDOMSTRING") {
        Some(Function::RandomString)
    } else {
        None
    }
}

/// The function that a call means.
pub fn fn_info_for_call(function: &str, count: usize) -> (found: Option<Function>)
    ensures
        found == function_of(function@, count as int),
{
    let name = normalized_function_name(function);
    match find_named(name.as_str(), count) {
        Some(function) => if takes_count(function, count) {
            Some(function)
        } else {
            None
        },
        None => None,
    }
}

/// What is computed outside, on doubles, by chance or by the clock.
#[derive(Debug, Clone, Copy, PartialEq, Eq, Structural)]
pub enum Kernel {
    Sum,
    Softmax,
    Entropy,
    L2,
    Subtract,
    Random,
    RandomString,
    Today,
    NearestL2,
    NearestCosine,
    Distances,
    Tsne,
    Umap,
    Optics,
    Color,
}

/// How a source is requested.
#[derive(Debug, Clone, Copy, PartialEq, Eq, Structural)]
pub enum Method {
    Get,
    Post,
    Put,
}

/// A source to load.
#[derive(Debug, PartialEq)]
pub struct LoadRequest {
    pub source: String,
    pub method: Method,
    pub headers: Vec<(String, String)>,
    pub body: Option<Value>,
    pub paging: Option<Value>,
}

/// What is asked of the outside.
#[derive(Debug, PartialEq)]
pub enum Request {
    Kernel(Kernel, Value),
    Secret(String),
    Load(LoadRequest),
}

/// What a source to load is.
#[verifier::ext_equal]
pub struct Loading {
    pub source: Seq<char>,
    pub method: Method,
    pub headers: Seq<(Seq<char>, Seq<char>)>,
    pub body: Option<Json>,
    pub paging: Option<Json>,
}

/// What is asked of the outside.
#[verifier::ext_equal]
pub enum Question {
    Kernel(Kernel, Json),
    Secret(Seq<char>),
    Load(Loading),
}

/// The mathematical headers.
pub open spec fn headers_of(headers: Seq<(String, String)>) -> Seq<(Seq<char>, Seq<char>)> {
    Seq::new(headers.len(), |i: int| (headers[i].0@, headers[i].1@))
}

/// The mathematical value of an optional value.
pub open spec fn maybe(value: Option<Value>) -> Option<Json> {
    match value {
        Some(v) => Some(v@),
        None => None,
    }
}

impl View for LoadRequest {
    type V = Loading;

    open spec fn view(&self) -> Loading {
        Loading {
            source: self.source@,
            method: self.method,
            headers: headers_of(self.headers@),
            body: maybe(self.body),
            paging: maybe(self.paging),
        }
    }
}

impl View for Request {
    type V = Question;

    open spec fn view(&self) -> Question {
        match self {
            Request::Kernel(kernel, input) => Question::Kernel(*kernel, input@),
            Request::Secret(name) => Question::Secret(name@),
            Request::Load(load) => Question::Load(load@),
        }
    }
}

/// What a call gives: a value, or a question whose answer gives it.
#[derive(Debug, PartialEq)]
pub enum Call {
    Done(Value),
    Ask(Request),
}

/// What a call gives.
#[verifier::ext_equal]
pub enum Called {
    Done(Json),
    Ask(Question),
}

impl View for Call {
    type V = Called;

    open spec fn view(&self) -> Called {
        match self {
            Call::Done(value) => Called::Done(value@),
            Call::Ask(request) => Called::Ask(request@),
        }
    }
}

/// Whether a member is missing or null.
pub open spec fn absent(members: Seq<(Seq<char>, Json)>, key: Seq<char>) -> bool {
    obj_get(members, key) is None || obj_get(members, key) == Some(Json::Null)
}

/// A member that is present and not null.
pub open spec fn given(members: Seq<(Seq<char>, Json)>, key: Seq<char>) -> Option<Json> {
    if absent(members, key) {
        None
    } else {
        obj_get(members, key)
    }
}

/// Whether all members are texts.
pub open spec fn all_texts(members: Seq<(Seq<char>, Json)>) -> bool {
    forall|i: int| 0 <= i < members.len() ==> (#[trigger] members[i].1) is Text
}

/// The headers that an object of texts gives.
pub open spec fn text_headers(members: Seq<(Seq<char>, Json)>) -> Seq<(Seq<char>, Seq<char>)> {
    Seq::new(members.len(), |i: int| (members[i].0, members[i].1->Text_0))
}

/// Whether an object describes a source: its `src` is a text, and its headers, if any, an object
/// of texts.
pub open spec fn is_source_config(members: Seq<(Seq<char>, Json)>) -> bool {
    &&& obj_get(members, "src"@) matches Some(Json::Text(_))
    &&& match given(members, "headers"@) {
        None => true,
        Some(Json::Object(headers)) => all_texts(headers),
        Some(_) => false,
    }
}

/// The source that a text or a configuration describes.
pub open spec fn source_of(value: Json, method: Method) -> Option<Loading> {
    match value {
        Json::Text(source) => Some(
            Loading { source, method, headers: Seq::empty(), body: None, paging: None },
        ),
        Json::Object(members) => if is_source_config(members) {
            Some(
                Loading {
                    source: obj_get(members, "src"@)->0->Text_0,
                    method,
                    headers: match given(members, "headers"@) {
                        Some(Json::Object(headers)) => text_headers(headers),
                        _ => Seq::empty(),
                    },
                    body: given(members, "body"@),
                    paging: given(members, "paging"@),
                },
            )
        } else {
            None
        },
        _ => None,
    }
}

/// What opening a source gives.
pub open spec fn open_of(value: Json, method: Method) -> Called {
    match source_of(value, method) {
        Some(load) => Called::Ask(Question::Load(load)),
        None => Called::Done(Json::Null),
    }
}

fn present(members: &Object, key: &str) -> (value: Option<Value>)
    ensures
        maybe(value) == given(members@, key@),
{
    match members.get(key) {
        Some(Value::Null) => None,
        Some(value) => Some(value.copy()),
        None => None,
    }
}

fn read_headers(members: &Object) -> (headers: Option<Vec<(String, String)>>)
    ensures
        headers is Some <==> all_texts(members@),
        headers matches Some(h) ==> headers_of(h@) == text_headers(members@),
{
    let mut headers: Vec<(String, String)> = Vec::new();
    let mut i: usize = 0;
    while i < members.len()
        invariant
            i <= members@.len(),
            headers@.len() == i,
            forall|j: int| 0 <= j < i ==> (#[trigger] members@[j].1) is Text,
            forall|j: int| 0 <= j < i ==> (#[trigger] headers@[j]).0@ == members@[j].0 && headers@[j].1@ == members@[j].1->Text_0,
        decreases members@.len() - i,
    {
        match members.value_at(i) {
            Value::String(text) => {
                headers.push((members.key_at(i).clone(), text.clone()));
            },
            _ => {
                assert(members@[i as int].1 !is Text);
                return None;
            },
        }
        i = i + 1;
    }
    assert(headers_of(headers@) =~= text_headers(members@));
    Some(headers)
}

fn open_source(value: &Value, method: Method) -> (call: Call)
    ensures
        call@ == open_of(value@, method),
{
    match value {
        Value::String(source) => {
            let headers: Vec<(String, String)> = Vec::new();
            assert(headers_of(headers@) =~= Seq::empty());
            Call::Ask(Request::Load(LoadRequest { source: source.clone(), method, headers, body: None, paging: None }))
        },
        Value::Object(members) => {
            let source = match members.get("src") {
                Some(Value::String(source)) => source.clone(),
                _ => {
                    return Call::Done(Value::Null);
                },
            };
            let headers = match present(members, "headers") {
                None => {
                    let none: Vec<(String, String)> = Vec::new();
                    assert(headers_of(none@) =~= Seq::empty());
                    none
                },
                Some(Value::Object(given)) => match read_headers(&given) {
                    Some(headers) => headers,
                    None => {
                        return Call::Done(Value::Null);
                    },
                },
                Some(_) => {
                    return Call::Done(Value::Null);
                },
            };
            Call::Ask(
                Request::Load(
                    LoadRequest { source, method, headers, body: present(members, "body"), paging: present(members, "paging") },
                ),
            )
        },
        _ => Call::Done(Value::Null),
    }
}

/// The texts among the values.
pub open spec fn texts_among(values: Seq<Json>) -> Seq<Seq<char>>
    decreases values.len(),
{
    if values.len() == 0 {
        Seq::empty()
    } else {
        match values.last() {
            Json::Text(text) => texts_among(values.drop_last()).push(text),
            _ => texts_among(values.drop_last()),
        }
    }
}

/// The field that the texts after the first value lead to in it.
pub open spec fn field_value(args: Seq<Json>) -> Json {
    if args.len() == 0 {
        Json::Null
    } else {
        follow(args[0], texts_among(args.skip(1)))
    }
}

/// The field that the texts after the first value lead to in it.
pub fn get(args: &Vec<Value>) -> (value: Value)
    ensures
        value@ == field_value(jsons(args@)),
{
    if args.len() == 0 {
        return Value::Null;
    }
    let ghost rest = jsons(args@).skip(1);
    let mut path: Vec<String> = Vec::new();
    let mut i: usize = 1;
    assert(rest.take(0) =~= Seq::empty());
    assert(texts(path@) =~= texts_among(rest.take(0)));
    while i < args.len()
        invariant
            1 <= i <= args.len(),
            rest == jsons(args@).skip(1),
            texts(path@) == texts_among(rest.take(i - 1)),
        decreases args.len() - i,
    {
        assert(rest.take(i as int).drop_last() =~= rest.take(i - 1));
        assert(rest.take(i as int).last() == args@[i as int]@);
        match &args[i] {
            Value::String(text) => {
                proof {
                    lemma_texts_push(path@, *text);
                }
                path.push(text.clone());
            },
            _ => {},
        }
        i = i + 1;
    }
    assert(rest.take(i - 1) =~= rest);
    assert(jsons(args@)[0] == args@[0]@);
    follow_reference(&args[0], &path)
}

/// The integer of 64 bits that a value is.
pub open spec fn integer_arg(value: Json) -> Option<i64> {
    match value {
        Json::Number(Num::PosInt(n)) => if n <= i64::MAX {
            Some(n as i64)
        } else {
            None
        },
        Json::Number(Num::NegInt(n)) => Some(n),
        _ => None,
    }
}

/// The size that a value is.
pub open spec fn size_arg(value: Json) -> Option<usize> {
    match value {
        Json::Number(Num::PosInt(n)) => if n <= usize::MAX {
            Some(n as usize)
        } else {
            None
        },
        _ => None,
    }
}

fn integer(value: &Value) -> (n: Option<i64>)
    ensures
        n == integer_arg(value@),
{
    match value {
        Value::Number(Number::PosInt(n)) => if *n <= i64::MAX as u64 {
            Some(*n as i64)
        } else {
            None
        },
        Value::Number(Number::NegInt(n)) => Some(*n),
        _ => None,
    }
}

fn size(value: &Value) -> (n: Option<usize>)
    ensures
        n == size_arg(value@),
{
    match value {
        Value::Number(Number::PosInt(n)) => if *n <= usize::MAX as u64 {
            Some(*n as usize)
        } else {
            None
        },
        _ => None,
    }
}

/// A list of texts as a value.
pub open spec fn text_array(list: Seq<Seq<char>>) -> Json {
    Json::Array(Seq::new(list.len(), |i: int| Json::Text(list[i])))
}

fn text_values(list: Vec<String>) -> (value: Value)
    ensures
        value@ == text_array(texts(list@)),
{
    let ghost whole = Seq::new(texts(list@).len(), |i: int| Json::Text(texts(list@)[i]));
    let mut values: Vec<Value> = Vec::new();
    let mut i: usize = 0;
    assert(jsons(values@) =~= whole.take(0));
    while i < list.len()
        invariant
            i <= list.len(),
            whole == Seq::new(texts(list@).len(), |i: int| Json::Text(texts(list@)[i])),
            jsons(values@) == whole.take(i as int),
        decreases list.len() - i,
    {
        values.push(Value::String(list[i].clone()));
        assert(whole.take(i + 1) =~= whole.take(i as int).push(whole[i as int]));
        i = i + 1;
    }
    assert(whole.take(i as int) =~= whole);
    Value::Array(values)
}

/// The value for a count.
pub open spec fn count_value(n: nat) -> Json {
    Json::Number(Num::PosInt(n as u64))
}

/// The question after a computation, where there is one; else null.
pub open spec fn ask_kernel(kernel: Kernel, input: Option<Json>) -> Called {
    match input {
        Some(input) => Called::Ask(Question::Kernel(kernel, input)),
        None => Called::Done(Json::Null),
    }
}

fn ask(kernel: Kernel, input: Option<Value>) -> (call: Call)
    ensures
        call@ == ask_kernel(kernel, maybe(input)),
{
    match input {
        Some(input) => Call::Ask(Request::Kernel(kernel, input)),
        None => Call::Done(Value::Null),
    }
}

/// The argument at a place, none where there are fewer.
pub open spec fn argument(args: Seq<Json>, i: int) -> Option<Json> {
    if i < args.len() {
        Some(args[i])
    } else {
        None
    }
}

fn argument_at<'a>(args: &'a Vec<Value>, i: usize) -> (value: Option<&'a Value>)
    ensures
        ml::optional(value) == argument(jsons(args@), i as int),
{
    if i < args.len() {
        assert(jsons(args@)[i as int] == args@[i as int]@);
        Some(&args[i])
    } else {
        None
    }
}

/// The position of a value in a list as a number, -1 where it is not there.
pub open spec fn index_value(values: Seq<Json>, needle: Json) -> Json {
    match first_index(values, needle, 0) {
        Some(i) => count_value(i as nat),
        None => Json::Number(Num::NegInt((-1) as i64)),
    }
}

/// The first position, from one on, of a value that equals the needle.
pub open spec fn first_index(values: Seq<Json>, needle: Json, from: int) -> Option<int>
    decreases values.len() - from,
{
    if from >= values.len() {
        None
    } else if crate::json::same_json(values[from], needle) {
        Some(from)
    } else {
        first_index(values, needle, from + 1)
    }
}

proof fn lemma_first_index(values: Seq<Json>, needle: Json, from: int, found: int)
    requires
        0 <= from <= found <= values.len(),
        forall|j: int| from <= j < found ==> !crate::json::same_json(#[trigger] values[j], needle),
        found < values.len() ==> crate::json::same_json(values[found], needle),
    ensures
        first_index(values, needle, from) == (if found < values.len() { Some(found) } else { None }),
    decreases found - from,
{
    if from < found {
        lemma_first_index(values, needle, from + 1, found);
    }
}

fn find_index(values: &Vec<Value>, needle: &Value) -> (index: Value)
    ensures
        index@ == index_value(jsons(values@), needle@),
{
    match array::index_of(values, needle) {
        Some(i) => {
            proof {
                assert(jsons(values@)[i as int] == values@[i as int]@);
                lemma_first_index(jsons(values@), needle@, 0, i as int);
            }
            Value::Number(Number::PosInt(i as u64))
        },
        None => {
            proof {
                lemma_first_index(jsons(values@), needle@, 0, values@.len() as int);
            }
            Value::Number(Number::NegInt(-1))
        },
    }
}

/// What a computation on numbers is given: the numbers.
pub open spec fn vector_question(value: Json) -> Option<Json> {
    if ml::is_vector(value) {
        Some(value)
    } else {
        None
    }
}

fn vector_ask(value: &Value) -> (input: Option<Value>)
    ensures
        maybe(input) == vector_question(value@),
{
    if ml::check_vector(value) {
        Some(value.copy())
    } else {
        None
    }
}

/// What a colour is computed from: the van der Corput fraction of the next index.
pub open spec fn color_question(index: Json) -> Option<Json> {
    match size_arg(index) {
        Some(i) => if i < u64::MAX {
            let (numerator, digits) = ml::mirrored((i + 1) as nat);
            Some(Json::Array(seq![count_value(numerator), count_value(digits)]))
        } else {
            None
        },
        None => None,
    }
}

fn color_ask(index: &Value) -> (input: Option<Value>)
    ensures
        maybe(input) == color_question(index@),
{
    match size(index) {
        Some(i) => {
            let wide: u64 = i as u64;
            if wide < u64::MAX {
                let (numerator, digits) = ml::van_der_corput_base2(wide + 1);
                let parts = vec![Value::Number(Number::PosInt(numerator)), Value::Number(Number::PosInt(digits))];
                assert(jsons(parts@) =~= seq![count_value(numerator as nat), count_value(digits as nat)]);
                Some(Value::Array(parts))
            } else {
                None
            }
        },
        None => None,
    }
}

/// The text of a colour given by its three parts; null for anything else.
pub open spec fn color_result(answer: Json) -> Json {
    match answer {
        Json::Array(parts) => if parts.len() == 3 {
            match (parts[0], parts[1], parts[2]) {
                (Json::Number(Num::PosInt(red)), Json::Number(Num::PosInt(green)), Json::Number(Num::PosInt(blue))) => Json::Text(
                    ml::rgb_text_of(red as nat, green as nat, blue as nat),
                ),
                _ => Json::Null,
            }
        } else {
            Json::Null
        },
        _ => Json::Null,
    }
}

fn color(answer: &Value) -> (text: Value)
    ensures
        text@ == color_result(answer@),
{
    match answer {
        Value::Array(parts) => {
            if parts.len() != 3 {
                return Value::Null;
            }
            assert(jsons(parts@)[0] == parts@[0]@ && jsons(parts@)[1] == parts@[1]@ && jsons(parts@)[2] == parts@[2]@);
            match (&parts[0], &parts[1], &parts[2]) {
                (Value::Number(Number::PosInt(red)), Value::Number(Number::PosInt(green)), Value::Number(Number::PosInt(blue))) => {
                    Value::String(ml::rgb_text(*red, *green, *blue))
                },
                _ => Value::Null,
            }
        },
        _ => Value::Null,
    }
}

/// What a call of a function gives.
pub open spec fn call_of(function: Function, args: Seq<Json>) -> Called {
    match function {
        Function::Field => Called::Done(field_value(args)),
        Function::Open => open_of(args[0], Method::Get),
        Function::Post => open_of(args[0], Method::Post),
        Function::Put => open_of(args[0], Method::Put),
        Function::Sum => ask_kernel(Kernel::Sum, Some(text_array(numbers::addends_of(args)))),
        Function::Min => Called::Done(numbers::min_of(args)),
        Function::ToNumber => Called::Done(match numbers::bits_of_value(args[0]) {
            Some(bits) => Json::Number(Num::Float(bits as u64)),
            None => Json::Null,
        }),
        Function::Ceil => Called::Done(match args[0] {
            Json::Number(n) => Json::Number(integer_num(saturated(ceil_of(num_bits(n) as u64)) as i64)),
            _ => Json::Null,
        }),
        Function::Floor => Called::Done(match args[0] {
            Json::Number(n) => Json::Number(integer_num(saturated(floor_of(num_bits(n) as u64)) as i64)),
            _ => Json::Null,
        }),
        Function::Assign => Called::Done(common::assign_of(args)),
        Function::Parse => Called::Done(match args[0] {
            Json::Text(text) => common::parsed(text),
            _ => Json::Null,
        }),
        Function::Color => ask_kernel(Kernel::Color, color_question(args[0])),
        Function::Eq => Called::Done(Json::Bool(crate::json::same_json(args[0], args[1]))),
        Function::Or => Called::Done(Json::Bool(boolean::any_truthy(args))),
        Function::And => Called::Done(Json::Bool(boolean::all_truthy(args))),
        Function::AddDate => Called::Done(match (args[0], integer_arg(args[1])) {
            (Json::Text(text), Some(days)) => date::add_date_of(text, days as int),
            _ => Json::Null,
        }),
        Function::IsoDate => Called::Done(match args[0] {
            Json::Text(text) => date::iso_date_of(text),
            _ => Json::Null,
        }),
        Function::GetDate => Called::Done(match args[0] {
            Json::Text(text) => date::get_date_of(text),
            _ => Json::Null,
        }),
        Function::MinDate => Called::Done(date::aggregate_of(flattened(args), false)),
        Function::MaxDate => Called::Done(date::aggregate_of(flattened(args), true)),
        Function::Today => ask_kernel(Kernel::Today, Some(Json::Null)),
        Function::Softmax => ask_kernel(Kernel::Softmax, vector_question(args[0])),
        Function::Entropy => ask_kernel(Kernel::Entropy, vector_question(args[0])),
        Function::L2 => ask_kernel(Kernel::L2, vector_question(args[0])),
        Function::Random => ask_kernel(Kernel::Random, Some(Json::Null)),
        Function::Subtract => ask_kernel(Kernel::Subtract, vector_question(Json::Array(args))),
        Function::Nn => match size_arg(args[2]) {
            Some(k) => match ml::nn_question(args[0], args[1], k as nat, argument(args, 3), argument(args, 4)) {
                Some((ml::DistanceMetric::L2, input)) => ask_kernel(Kernel::NearestL2, Some(input)),
                Some((ml::DistanceMetric::Cosine, input)) => ask_kernel(Kernel::NearestCosine, Some(input)),
                None => Called::Done(Json::Null),
            },
            None => Called::Done(Json::Null),
        },
        Function::Nn2 => match size_arg(args[2]) {
            Some(k) => ask_kernel(Kernel::Distances, ml::nn2_question(args[0], args[1], k as nat)),
            None => Called::Done(Json::Null),
        },
        Function::Tsne => ask_kernel(Kernel::Tsne, ml::tsne_question(args[0], args[1])),
        Function::Optics => ask_kernel(Kernel::Optics, optics::optics_question(args[0], args[1])),
        Function::Umap => ask_kernel(Kernel::Umap, ml::umap_question(args[0], argument(args, 1))),
        Function::IndexOf => Called::Done(match args[0] {
            Json::Array(values) => index_value(values, args[1]),
            _ => Json::Null,
        }),
        Function::Range => Called::Done(match (integer_arg(args[0]), integer_arg(args[1])) {
            (Some(start), Some(end)) => Json::Array(array::range_of(start, end)),
            _ => Json::Null,
        }),
        Function::At => Called::Done(match args[0] {
            Json::Array(values) => array::item_at(values, args[1]),
            _ => Json::Null,
        }),
        Function::Distinct => Called::Done(Json::Array(array::distinct_of(flattened(args)))),
        Function::Sort => Called::Done(Json::Array(stable_sorted(flattened(args), |a: Json, b: Json| array::sorts_after(a, b)))),
        Function::Count => Called::Done(count_value(flattened(args).len())),
        Function::Array => Called::Done(Json::Array(flattened(args))),
        Function::CrossJoin => Called::Done(array::cross_join_of(args[0])),
        Function::ZipRows => Called::Done(array::zip_rows_of(args[0])),
        Function::UnzipRows => Called::Done(array::unzip_rows_of(args[0])),
        Function::JoinRows => Called::Done(match args[1] {
            Json::Text(identifier) => array::join_of(args[0], identifier, false),
            _ => Json::Null,
        }),
        Function::JoinRowsIndex => Called::Done(match args[1] {
            Json::Text(identifier) => array::join_of(args[0], identifier, true),
            _ => Json::Null,
        }),
        Function::NewLine => Called::Done(Json::Text(seq!['\n'])),
        Function::Concat => Called::Done(Json::Text(strings::concatenated(flattened(args)))),
        Function::Base64 => Called::Done(Json::Text(strings::base64_of(crate::json::display(args[0])))),
        Function::Len => Called::Done(count_value(args.len())),
        Function::Split => Called::Done(match (args[0], size_arg(args[1])) {
            (Json::Text(text), Some(limit)) => strings::split_of(text, limit as int),
            _ => Json::Null,
        }),
        Function::JoinString => Called::Done(match args[1] {
            Json::Text(separator) => Json::Text(join_on(strings::displays(items_of(args[0])), separator)),
            _ => Json::Null,
        }),
        Function::RandomString => ask_kernel(Kernel::RandomString, match size_arg(args[0]) {
            Some(_) => Some(args[0]),
            None => None,
        }),
    }
}

/// Calls a function.
#[verifier::rlimit(40)]
pub fn call(function: Function, args: &Vec<Value>) -> (called: Call)
    requires
        takes(function, args@.len() as int),
    ensures
        called@ == call_of(function, jsons(args@)),
{
    assert(args@.len() > 0 ==> jsons(args@)[0] == args@[0]@);
    assert(args@.len() > 1 ==> jsons(args@)[1] == args@[1]@);
    assert(args@.len() > 2 ==> jsons(args@)[2] == args@[2]@);
    match function {
        Function::Field => Call::Done(get(args)),
        Function::Open => open_source(&args[0], Method::Get),
        Function::Post => open_source(&args[0], Method::Post),
        Function::Put => open_source(&args[0], Method::Put),
        Function::Sum => ask(Kernel::Sum, Some(text_values(numbers::sum_addends(args)))),
        Function::Min => Call::Done(numbers::min(args)),
        Function::ToNumber => Call::Done(match numbers::to_number(&args[0]) {
            Some(number) => Value::Number(Number::Float(number)),
            None => Value::Null,
        }),
        Function::Ceil => Call::Done(match &args[0] {
            Value::Number(n) => Value::Number(integer_number(numbers::ceil(n))),
            _ => Value::Null,
        }),
        Function::Floor => Call::Done(match &args[0] {
            Value::Number(n) => Value::Number(integer_number(numbers::floor(n))),
            _ => Value::Null,
        }),
        Function::Assign => Call::Done(common::assign(args)),
        Function::Parse => Call::Done(match &args[0] {
            Value::String(text) => common::parse_json(text.as_str()),
            _ => Value::Null,
        }),
        Function::Color => ask(Kernel::Color, color_ask(&args[0])),
        Function::Eq => Call::Done(Value::Bool(boolean::eq(&args[0], &args[1]))),
        Function::Or => Call::Done(Value::Bool(boolean::or(args))),
        Function::And => Call::Done(Value::Bool(boolean::and(args))),
        Function::AddDate => Call::Done(match (&args[0], integer(&args[1])) {
            (Value::String(text), Some(days)) => date::add_date(text.as_str(), days),
            _ => Value::Null,
        }),
        Function::IsoDate => Call::Done(match &args[0] {
            Value::String(text) => date::iso_date(text.as_str()),
            _ => Value::Null,
        }),
        Function::GetDate => Call::Done(match &args[0] {
            Value::String(text) => date::get_date(text.as_str()),
            _ => Value::Null,
        }),
        Function::MinDate => Call::Done(date::min_date(args)),
        Function::MaxDate => Call::Done(date::max_date(args)),
        Function::Today => ask(Kernel::Today, Some(Value::Null)),
        Function::Softmax => ask(Kernel::Softmax, vector_ask(&args[0])),
        Function::Entropy => ask(Kernel::Entropy, vector_ask(&args[0])),
        Function::L2 => ask(Kernel::L2, vector_ask(&args[0])),
        Function::Random => ask(Kernel::Random, Some(Value::Null)),
        Function::Subtract => {
            let both = crate::value::copy_values(args);
            ask(Kernel::Subtract, vector_ask(&Value::Array(both)))
        },
        Function::Nn => match size(&args[2]) {
            Some(k) => match ml::nn_ask(&args[0], &args[1], k, argument_at(args, 3), argument_at(args, 4)) {
                Some((ml::DistanceMetric::L2, input)) => ask(Kernel::NearestL2, Some(input)),
                Some((ml::DistanceMetric::Cosine, input)) => ask(Kernel::NearestCosine, Some(input)),
                None => Call::Done(Value::Null),
            },
            None => Call::Done(Value::Null),
        },
        Function::Nn2 => match size(&args[2]) {
            Some(k) => ask(Kernel::Distances, ml::nn2_ask(&args[0], &args[1], k)),
            None => Call::Done(Value::Null),
        },
        Function::Tsne => ask(Kernel::Tsne, ml::tsne_ask(&args[0], &args[1])),
        Function::Optics => ask(Kernel::Optics, optics::optics_ask(&args[0], &args[1])),
        Function::Umap => ask(Kernel::Umap, ml::umap_ask(&args[0], argument_at(args, 1))),
        Function::IndexOf => Call::Done(match &args[0] {
            Value::Array(values) => find_index(values, &args[1]),
            _ => Value::Null,
        }),
        Function::Range => Call::Done(match (integer(&args[0]), integer(&args[1])) {
            (Some(start), Some(end)) => array::range(start, end),
            _ => Value::Null,
        }),
        Function::At => Call::Done(match &args[0] {
            Value::Array(values) => array::at(values, &args[1]),
            _ => Value::Null,
        }),
        Function::Distinct => Call::Done(Value::Array(array::distinct(args))),
        Function::Sort => Call::Done(Value::Array(array::sort(args))),
        Function::Count => Call::Done(Value::Number(Number::PosInt(array::count(args) as u64))),
        Function::Array => Call::Done(Value::Array(flatten(args))),
        Function::CrossJoin => Call::Done(array::cross_join(&args[0])),
        Function::ZipRows => Call::Done(array::zip_rows(&args[0])),
        Function::UnzipRows => Call::Done(array::unzip_rows(&args[0])),
        Function::JoinRows => Call::Done(match &args[1] {
            Value::String(identifier) => array::join_rows(&args[0], identifier.as_str()),
            _ => Value::Null,
        }),
        Function::JoinRowsIndex => Call::Done(match &args[1] {
            Value::String(identifier) => array::join_rows_index(&args[0], identifier.as_str()),
            _ => Value::Null,
        }),
        Function::NewLine => Call::Done(Value::String(strings::new_line())),
        Function::Concat => Call::Done(Value::String(strings::concat(args))),
        Function::Base64 => Call::Done(Value::String(strings::base64(&args[0]))),
        Function::Len => Call::Done(Value::Number(Number::PosInt(args.len() as u64))),
        Function::Split => Call::Done(match (&args[0], size(&args[1])) {
            (Value::String(text), Some(limit)) => strings::split(text.as_str(), limit),
            _ => Value::Null,
        }),
        Function::JoinString => Call::Done(match &args[1] {
            Value::String(separator) => Value::String(strings::join_string(&args[0], separator.as_str())),
            _ => Value::Null,
        }),
        Function::RandomString => ask(Kernel::RandomString, match size(&args[0]) {
            Some(_) => Some(args[0].copy()),
            None => None,
        }),
    }
}

/// What the answer to a function's question makes of the call.
pub open spec fn finish_of(function: Function, args: Seq<Json>, answer: Json) -> Json {
    match function {
        Function::Sum => numbers::compacted(answer),
        Function::Color => color_result(answer),
        Function::Nn => ml::nn_result(answer, argument(args, 4)),
        Function::Nn2 => match size_arg(args[2]) {
            Some(k) => ml::nn2_result(answer, k as nat),
            None => Json::Null,
        },
        Function::Tsne => ml::tsne_result(answer, ml::width_of(args[0])),
        Function::Optics => optics::optics_of(answer, args[0], args[1]),
        _ => answer,
    }
}

/// Finishes a call with the answer to its question.
pub fn finish(function: Function, args: &Vec<Value>, answer: &Value) -> (value: Value)
    requires
        takes(function, args@.len() as int),
    ensures
        value@ == finish_of(function, jsons(args@), answer@),
{
    assert(args@.len() > 0 ==> jsons(args@)[0] == args@[0]@);
    assert(args@.len() > 1 ==> jsons(args@)[1] == args@[1]@);
    assert(args@.len() > 2 ==> jsons(args@)[2] == args@[2]@);
    match function {
        Function::Sum => numbers::json_number_value(answer),
        Function::Color => color(answer),
        Function::Nn => ml::nn(answer, argument_at(args, 4)),
        Function::Nn2 => match size(&args[2]) {
            Some(k) => ml::nn2(answer, k),
            None => Value::Null,
        },
        Function::Tsne => ml::tsne(answer, ml::width(&args[0])),
        Function::Optics => optics::optics(answer, &args[0], &args[1]),
        _ => answer.copy(),
    }
}

/// `OPEN` and `GET` of one argument are the same.
pub proof fn lemma_get_is_open()
    ensures
        named("GET"@, 1) == named("OPEN"@, 1),
{
    reveal_strlit("GET");
    reveal_strlit("OPEN");
    assert("GET"@.len() != "OPEN"@.len());
}

/// Names that differ only in the case of ASCII letters call the same function.
pub proof fn lemma_calls_ignore_case(a: Seq<char>, b: Seq<char>, count: int)
    requires
        crate::text::ascii_lower_text(a) == crate::text::ascii_lower_text(b),
    ensures
        function_of(a, count) == function_of(b, count),
{
    crate::text::lemma_names_ignore_case(a, b);
}

} // verus!
