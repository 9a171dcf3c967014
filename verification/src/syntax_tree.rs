//! The AST model: the tree node types produced by parsing, and their
//! mathematical views. All nodes are immutable once constructed and
//! ownership is strictly tree-shaped.

use vstd::prelude::*;

verus! {

/// The mathematical model of a single flow value.
pub enum ValueM {
    Name(Seq<char>),
    Str(Seq<char>),
    Num(int),
    Flow(Seq<ValueM>),
    Trigger,
}

/// The mathematical model of a nest declaration.
pub enum NestM {
    Green(Seq<Seq<char>>),
}

/// The mathematical model of a whole program: its nest declarations (zero
/// or one) and its main flow.
pub struct IslandM {
    pub nests: Seq<NestM>,
    pub sea_flow: Seq<ValueM>,
}

/// A single value of a flow: a bare identifier reference, a string
/// literal, an integer literal, a trigger marker, or a nested internal
/// flow.
#[derive(Debug, PartialEq, Eq)]
pub enum Value {
    Name(Vec<char>),
    Str(Vec<char>),
    Number(i32),
    InternalFlow(Vec<Value>),
    Trigger,
}

/// The view of a single flow value.
pub open spec fn value_view(v: Value) -> ValueM
    decreases v, 1int,
{
    match v {
        Value::Name(cs) => ValueM::Name(cs@),
        Value::Str(cs) => ValueM::Str(cs@),
        Value::Number(n) => ValueM::Num(n as int),
        Value::InternalFlow(vs) => ValueM::Flow(values_view(vs@)),
        Value::Trigger => ValueM::Trigger,
    }
}

/// The view of a sequence of flow values, element by element.
pub open spec fn values_view(vs: Seq<Value>) -> Seq<ValueM>
    decreases vs, 0int,
{
    if vs.len() == 0 {
        Seq::empty()
    } else {
        values_view(vs.drop_last()).push(value_view(vs.last()))
    }
}

impl View for Value {
    type V = ValueM;

    open spec fn view(&self) -> ValueM {
        value_view(*self)
    }
}

/// A declaration introducing a named collection; the only populated
/// variant binds the fixed species tag to an ordered sequence of declared
/// names.
#[derive(Debug, PartialEq, Eq)]
pub enum Nest {
    Green(Vec<Vec<char>>),
}

/// The view of a sequence of declared names, element by element.
pub open spec fn names_view(ns: Seq<Vec<char>>) -> Seq<Seq<char>> {
    Seq::new(ns.len(), |i: int| ns[i]@)
}

impl View for Nest {
    type V = NestM;

    open spec fn view(&self) -> NestM {
        match self {
            Nest::Green(names) => NestM::Green(names_view(names@)),
        }
    }
}

/// The view of a concatenation of value sequences is the concatenation
/// of their views.
pub proof fn lemma_values_view_concat(a: Seq<Value>, b: Seq<Value>)
    ensures
        values_view(a + b) == values_view(a) + values_view(b),
    decreases b.len(),
{
    if b.len() == 0 {
        assert(a + b =~= a);
        assert(values_view(a) + values_view(b) =~= values_view(a));
    } else {
        lemma_values_view_concat(a, b.drop_last());
        assert((a + b).drop_last() =~= a + b.drop_last());
        assert((a + b).last() == b.last());
        assert(values_view(a + b) == (values_view(a) + values_view(b.drop_last())).push(
            value_view(b.last()),
        ));
        assert((values_view(a) + values_view(b.drop_last())).push(value_view(b.last())) =~= values_view(
            a,
        ) + values_view(b.drop_last()).push(value_view(b.last())));
    }
}

/// The view of a one-value sequence.
pub proof fn lemma_values_view_singleton(v: Value)
    ensures
        values_view(seq![v]) == seq![value_view(v)],
{
    assert(values_view(Seq::<Value>::empty()) =~= Seq::<ValueM>::empty());
    assert(seq![v].drop_last() =~= Seq::<Value>::empty());
    assert(seq![v].last() == v);
    assert(values_view(seq![v]) =~= seq![value_view(v)]);
}

/// The ordered sequence of values between the program's opening and
/// closing markers; order is significant and preserved exactly as written.
#[derive(Debug, PartialEq, Eq)]
pub struct Flow(pub Vec<Value>);

impl View for Flow {
    type V = Seq<ValueM>;

    open spec fn view(&self) -> Seq<ValueM> {
        values_view(self.0@)
    }
}

/// The root of the tree: zero or one nest declarations, appearing before
/// the main flow, and exactly one flow.
#[derive(Debug, PartialEq, Eq)]
pub struct ProgramIsland {
    pub nests: Vec<Nest>,
    pub sea_flow: Flow,
}

impl View for ProgramIsland {
    type V = IslandM;

    open spec fn view(&self) -> IslandM {
        IslandM {
            nests: Seq::new(self.nests@.len(), |i: int| self.nests@[i]@),
            sea_flow: self.sea_flow@,
        }
    }
}

} // verus!
