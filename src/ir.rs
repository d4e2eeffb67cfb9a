use vstd::prelude::*;

verus! {

/// A float as its literal text (sign, digits, point, exponent), kept as written.
#[derive(Debug, PartialEq)]
pub struct FloatLiteral(pub String);

#[derive(Debug, PartialEq)]
pub struct Array(pub Vec<Value>);

#[derive(Debug, PartialEq)]
pub struct InlineTable(pub Vec<Pair>);

#[derive(Debug, PartialEq)]
pub enum Value {
    Integer(i64),
    Float(FloatLiteral),
    Boolean(bool),
    String(String),
    Array(Array),
    InlineTable(InlineTable),
}

/// A key or a table header: ASCII alphanumerics, `-` and `_`.
#[derive(Debug, PartialEq, Eq)]
pub struct Identifier(pub String);

#[derive(Debug, PartialEq)]
pub struct Pair {
    pub key: Identifier,
    pub value: Value,
}

#[derive(Debug, PartialEq)]
pub struct Table {
    pub header: Identifier,
    pub body: InlineTable,
}

#[derive(Debug, PartialEq)]
pub struct Document(pub Vec<Table>);

/// Why text could not be parsed: the part of the input, from the point where
/// parsing stopped, that could not be matched.
#[derive(Debug, PartialEq)]
pub struct ParseError {
    pub rest: String,
}

/// The mathematical model of a value: the tree with plain text and integers.
pub enum Val {
    Integer(int),
    Float(Seq<char>),
    Boolean(bool),
    Str(Seq<char>),
    Array(Seq<Val>),
    Table(Seq<(Seq<char>, Val)>),
}

/// A table of the model: its header and its pairs.
pub type TableVal = (Seq<char>, Seq<(Seq<char>, Val)>);

pub open spec fn value_view(v: Value) -> Val
    decreases v,
{
    match v {
        Value::Integer(i) => Val::Integer(i as int),
        Value::Float(f) => Val::Float(f.0@),
        Value::Boolean(b) => Val::Boolean(b),
        Value::String(s) => Val::Str(s@),
        Value::Array(a) => Val::Array(values_view(a.0@)),
        Value::InlineTable(t) => Val::Table(pairs_view(t.0@)),
    }
}

pub open spec fn values_view(vs: Seq<Value>) -> Seq<Val>
    decreases vs,
{
    if vs.len() == 0 {
        Seq::empty()
    } else {
        values_view(vs.drop_last()).push(value_view(vs.last()))
    }
}

pub open spec fn pairs_view(ps: Seq<Pair>) -> Seq<(Seq<char>, Val)>
    decreases ps,
{
    if ps.len() == 0 {
        Seq::empty()
    } else {
        pairs_view(ps.drop_last()).push((ps.last().key.0@, value_view(ps.last().value)))
    }
}

impl View for FloatLiteral {
    type V = Seq<char>;

    open spec fn view(&self) -> Seq<char> {
        self.0@
    }
}

pub proof fn lemma_values_view_push(vs: Seq<Value>, v: Value)
    ensures
        values_view(vs.push(v)) == values_view(vs).push(v@),
{
    assert(vs.push(v).drop_last() =~= vs);
}

pub proof fn lemma_pairs_view_push(ps: Seq<Pair>, pr: Pair)
    ensures
        pairs_view(ps.push(pr)) == pairs_view(ps).push(pr@),
{
    assert(ps.push(pr).drop_last() =~= ps);
}

pub proof fn lemma_pairs_view_len(ps: Seq<Pair>)
    ensures
        pairs_view(ps).len() == ps.len(),
    decreases ps.len(),
{
    if ps.len() > 0 {
        lemma_pairs_view_len(ps.drop_last());
    }
}

pub proof fn lemma_tables_view_push(ts: Seq<Table>, t: Table)
    ensures
        tables_view(ts.push(t)) == tables_view(ts).push(t@),
{
    assert(ts.push(t).drop_last() =~= ts);
}

impl View for Value {
    type V = Val;

    open spec fn view(&self) -> Val {
        value_view(*self)
    }
}

impl View for Identifier {
    type V = Seq<char>;

    open spec fn view(&self) -> Seq<char> {
        self.0@
    }
}

impl View for Pair {
    type V = (Seq<char>, Val);

    open spec fn view(&self) -> (Seq<char>, Val) {
        (self.key@, self.value@)
    }
}

impl View for InlineTable {
    type V = Seq<(Seq<char>, Val)>;

    open spec fn view(&self) -> Seq<(Seq<char>, Val)> {
        pairs_view(self.0@)
    }
}

impl View for Array {
    type V = Seq<Val>;

    open spec fn view(&self) -> Seq<Val> {
        values_view(self.0@)
    }
}

impl View for Table {
    type V = TableVal;

    open spec fn view(&self) -> TableVal {
        (self.header@, self.body@)
    }
}

pub open spec fn tables_view(ts: Seq<Table>) -> Seq<TableVal>
    decreases ts.len(),
{
    if ts.len() == 0 {
        Seq::empty()
    } else {
        tables_view(ts.drop_last()).push(ts.last()@)
    }
}

impl View for Document {
    type V = Seq<TableVal>;

    open spec fn view(&self) -> Seq<TableVal> {
        tables_view(self.0@)
    }
}

} // verus!
