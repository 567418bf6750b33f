//! Decoded values: the materialized result of a decode, owning all sub-values.

use vstd::prelude::*;

verus! {

/// A fully materialized decoded value.
///
/// Scalars are the leaves the collaborator format supplies; `List` is a
/// homogeneous sequence, `Record` holds the field values of a struct shape in
/// declared field order, and `Case` is one variant of a tagged union: the
/// resolved variant index together with its payload.
#[derive(PartialEq, Eq, Debug)]
pub enum Value {
    Unsigned(u64),
    Signed(i64),
    Text(String),
    List(Vec<Value>),
    Record(Vec<Value>),
    Case(usize, Box<Value>),
}

/// The mathematical model of a [`Value`]: the same tree over `Seq`.
pub enum ValueV {
    Unsigned(u64),
    Signed(i64),
    Text(Seq<char>),
    List(Seq<ValueV>),
    Record(Seq<ValueV>),
    Case(usize, Box<ValueV>),
}

/// The model of an executable value.
pub open spec fn value_v(v: Value) -> ValueV
    decreases v,
{
    match v {
        Value::Unsigned(u) => ValueV::Unsigned(u),
        Value::Signed(i) => ValueV::Signed(i),
        Value::Text(s) => ValueV::Text(s@),
        Value::List(vs) => ValueV::List(values_v(vs@)),
        Value::Record(vs) => ValueV::Record(values_v(vs@)),
        Value::Case(i, v) => ValueV::Case(i, Box::new(value_v(*v))),
    }
}

/// The models of a sequence of executable values, elementwise.
pub open spec fn values_v(s: Seq<Value>) -> Seq<ValueV>
    decreases s,
{
    if s.len() == 0 {
        Seq::empty()
    } else {
        values_v(s.drop_last()).push(value_v(s.last()))
    }
}

/// `values_v` indexes elementwise.
pub proof fn lemma_values_v_index(s: Seq<Value>)
    ensures
        values_v(s).len() == s.len(),
        forall|i: int| 0 <= i < s.len() ==> values_v(s)[i] == value_v(#[trigger] s[i]),
    decreases s.len(),
{
    if s.len() > 0 {
        lemma_values_v_index(s.drop_last());
        assert forall|i: int| 0 <= i < s.len() implies values_v(s)[i] == value_v(#[trigger] s[i]) by {
            if i < s.len() - 1 {
                assert(s.drop_last()[i] == s[i]);
                assert(values_v(s)[i] == values_v(s.drop_last())[i]);
            } else {
                assert(s[i] == s.last());
            }
        }
    }
}

/// Appending one value commutes with taking models.
pub proof fn lemma_values_v_push(s: Seq<Value>, v: Value)
    ensures
        values_v(s.push(v)) == values_v(s).push(value_v(v)),
{
    assert(s.push(v).drop_last() =~= s);
    assert(s.push(v).last() == v);
}

/// The models of a sequence of optional values, elementwise.
pub open spec fn opts_v(s: Seq<Option<Value>>) -> Seq<Option<ValueV>> {
    s.map(
        |i: int, o: Option<Value>|
            match o {
                Some(v) => Some(value_v(v)),
                None => None,
            },
    )
}

} // verus!
