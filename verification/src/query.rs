//! Queries: the steps of a pipeline and the expressions in them.
use vstd::prelude::*;
use crate::text::texts;
use crate::value::{Json, Value};

verus! {

/// The direction in which a column is sorted.
#[derive(Debug, Clone, Copy, PartialEq, Eq, Structural)]
pub enum SortDirection {
    Asc,
    Desc,
}

/// A column to sort by.
#[derive(Debug, PartialEq)]
pub struct SortKey {
    pub column: String,
    pub direction: SortDirection,
}

/// A step of a query.
#[derive(Debug, PartialEq)]
pub enum SubQuery {
    Source(Vec<CaluculatedValue>),
    MapRows(MapStep),
    Filter(CaluculatedValue),
    MapMany(MapMany),
    GroupBy { keys: Vec<String>, mapping: Vec<MapExpr> },
    SortBy(Vec<SortKey>),
    Limit(usize),
}

/// A query: steps that run from top to bottom.
#[derive(Debug, PartialEq)]
pub struct Query {
    pub steps: Vec<SubQuery>,
}

/// A step that makes a new row of each row.
#[derive(Debug, PartialEq)]
pub struct MapStep {
    pub config: Value,
    pub mapping: Vec<MapExpr>,
}

/// A step that makes a row of each element of an array field.
#[derive(Debug, PartialEq)]
pub struct MapMany {
    pub field: String,
    pub include_columns: Vec<String>,
}

/// A part of a mapping: all columns of the row, or one column with its value.
#[derive(Debug, PartialEq)]
pub enum MapExpr {
    All,
    Specific { column: Vec<String>, value: CaluculatedValue },
}

/// An expression.
#[derive(Debug, PartialEq)]
pub enum CaluculatedValue {
    Reference(Vec<String>),
    Secret(String),
    Static(Value),
    Object(Vec<(String, CaluculatedValue)>),
    Array(Vec<CaluculatedValue>),
    FunctionCall { function: String, parameters: Vec<CaluculatedValue> },
}

/// What an expression is.
#[verifier::ext_equal]
pub enum Expr {
    Reference(Seq<Seq<char>>),
    Secret(Seq<char>),
    Constant(Json),
    Object(Seq<(Seq<char>, Expr)>),
    Array(Seq<Expr>),
    Call(Seq<char>, Seq<Expr>),
}

/// What a part of a mapping is.
#[verifier::ext_equal]
pub enum MapItem {
    All,
    Column(Seq<Seq<char>>, Expr),
}

/// What a step is.
#[verifier::ext_equal]
pub enum Step {
    Source(Seq<Expr>),
    MapRows(Json, Seq<MapItem>),
    Filter(Expr),
    MapMany(Seq<char>, Seq<Seq<char>>),
    GroupBy(Seq<Seq<char>>, Seq<MapItem>),
    SortBy(Seq<(Seq<char>, SortDirection)>),
    Limit(nat),
}

impl CaluculatedValue {
    /// The mathematical expression.
    pub open spec fn expr(self) -> Expr
        decreases self,
    {
        match self {
            CaluculatedValue::Reference(path) => Expr::Reference(texts(path@)),
            CaluculatedValue::Secret(name) => Expr::Secret(name@),
            CaluculatedValue::Static(value) => Expr::Constant(value@),
            CaluculatedValue::Object(entries) => Expr::Object(
                Seq::new(
                    entries@.len(),
                    |i: int|
                        if 0 <= i < entries@.len() {
                            (entries@[i].0@, entries@[i].1.expr())
                        } else {
                            arbitrary()
                        },
                ),
            ),
            CaluculatedValue::Array(entries) => Expr::Array(
                Seq::new(
                    entries@.len(),
                    |i: int|
                        if 0 <= i < entries@.len() {
                            entries@[i].expr()
                        } else {
                            arbitrary()
                        },
                ),
            ),
            CaluculatedValue::FunctionCall { function, parameters } => Expr::Call(
                function@,
                Seq::new(
                    parameters@.len(),
                    |i: int|
                        if 0 <= i < parameters@.len() {
                            parameters@[i].expr()
                        } else {
                            arbitrary()
                        },
                ),
            ),
        }
    }
}

impl View for CaluculatedValue {
    type V = Expr;

    open spec fn view(&self) -> Expr {
        self.expr()
    }
}

/// The mathematical expressions of a sequence of expressions.
pub open spec fn exprs(values: Seq<CaluculatedValue>) -> Seq<Expr> {
    Seq::new(values.len(), |i: int| values[i]@)
}

/// The mathematical entries of an object expression.
pub open spec fn entries_of(entries: Seq<(String, CaluculatedValue)>) -> Seq<(Seq<char>, Expr)> {
    Seq::new(entries.len(), |i: int| (entries[i].0@, entries[i].1@))
}

/// An array expression by its elements.
pub broadcast proof fn lemma_array_expr(values: Vec<CaluculatedValue>)
    ensures
        #[trigger] CaluculatedValue::Array(values).expr() == Expr::Array(exprs(values@)),
{
    assert(CaluculatedValue::Array(values).expr()->Array_0 =~= exprs(values@));
}

/// An object expression by its entries.
pub broadcast proof fn lemma_object_expr(entries: Vec<(String, CaluculatedValue)>)
    ensures
        #[trigger] CaluculatedValue::Object(entries).expr() == Expr::Object(entries_of(entries@)),
{
    assert(CaluculatedValue::Object(entries).expr()->Object_0 =~= entries_of(entries@));
}

/// A call by its name and its parameters.
pub broadcast proof fn lemma_call_expr(function: String, parameters: Vec<CaluculatedValue>)
    ensures
        #[trigger] (CaluculatedValue::FunctionCall { function, parameters }).expr() == Expr::Call(function@, exprs(parameters@)),
{
    assert((CaluculatedValue::FunctionCall { function, parameters }).expr()->Call_1 =~= exprs(parameters@));
}

impl View for MapExpr {
    type V = MapItem;

    open spec fn view(&self) -> MapItem {
        match self {
            MapExpr::All => MapItem::All,
            MapExpr::Specific { column, value } => MapItem::Column(texts(column@), value@),
        }
    }
}

/// The mathematical parts of a mapping.
pub open spec fn map_items(mapping: Seq<MapExpr>) -> Seq<MapItem> {
    Seq::new(mapping.len(), |i: int| mapping[i]@)
}

/// The mathematical sort keys.
pub open spec fn sort_keys_of(keys: Seq<SortKey>) -> Seq<(Seq<char>, SortDirection)> {
    Seq::new(keys.len(), |i: int| (keys[i].column@, keys[i].direction))
}

impl View for SubQuery {
    type V = Step;

    open spec fn view(&self) -> Step {
        match self {
            SubQuery::Source(sources) => Step::Source(exprs(sources@)),
            SubQuery::MapRows(map) => Step::MapRows(map.config@, map_items(map.mapping@)),
            SubQuery::Filter(filter) => Step::Filter(filter@),
            SubQuery::MapMany(many) => Step::MapMany(many.field@, texts(many.include_columns@)),
            SubQuery::GroupBy { keys, mapping } => Step::GroupBy(texts(keys@), map_items(mapping@)),
            SubQuery::SortBy(keys) => Step::SortBy(sort_keys_of(keys@)),
            SubQuery::Limit(count) => Step::Limit(*count as nat),
        }
    }
}

impl View for Query {
    type V = Seq<Step>;

    open spec fn view(&self) -> Seq<Step> {
        Seq::new(self.steps@.len(), |i: int| self.steps@[i]@)
    }
}

} // verus!
