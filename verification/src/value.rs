//! Typed row values and their total order.
//!
//! A tuple is an ordered sequence of `Value`s. The order defined here is the
//! one the byte encoding in `codec` reproduces lexicographically: values of
//! different variants order by variant rank (booleans, then integers, then
//! text, then blobs, then lists); within a variant the natural order applies,
//! text and blobs ordering bytewise and lists elementwise.
use vstd::prelude::*;

verus! {

broadcast use vstd::std_specs::vec::axiom_vec_index_decreases;

/// A typed value of a row. Text holds UTF-8 bytes; comparing those bytes
/// compares the text by code point. Lists nest arbitrarily.
#[derive(Debug, PartialEq)]
pub enum Value {
    Bool(bool),
    Int(i64),
    Text(Vec<u8>),
    Blob(Vec<u8>),
    List(Vec<Value>),
}

/// The mathematical model of a `Value`: integers unbounded, byte vectors as
/// sequences.
#[verifier::ext_equal]
pub ghost enum ValM {
    Bool(bool),
    Int(int),
    Text(Seq<u8>),
    Blob(Seq<u8>),
    List(Seq<ValM>),
}

impl Value {
    pub open spec fn model(self) -> ValM
        decreases self,
    {
        match self {
            Value::Bool(b) => ValM::Bool(b),
            Value::Int(i) => ValM::Int(i as int),
            Value::Text(t) => ValM::Text(t@),
            Value::Blob(t) => ValM::Blob(t@),
            Value::List(l) => ValM::List(
                Seq::new(
                    l@.len(),
                    |i: int|
                        if 0 <= i < l.len() {
                            l[i].model()
                        } else {
                            ValM::Bool(false)
                        },
                ),
            ),
        }
    }
}

impl View for Value {
    type V = ValM;

    open spec fn view(&self) -> ValM {
        self.model()
    }
}

impl DeepView for Value {
    type V = ValM;

    open spec fn deep_view(&self) -> ValM {
        self.model()
    }
}

/// A fresh vector with the same bytes.
pub fn copy_bytes(v: &Vec<u8>) -> (r: Vec<u8>)
    ensures
        r@ == v@,
{
    let mut r: Vec<u8> = Vec::new();
    let n = v.len();
    for i in 0..n
        invariant
            n == v.len(),
            r@ == v@.subrange(0, i as int),
    {
        r.push(v[i]);
        proof {
            assert(r@ =~= v@.subrange(0, i + 1));
        }
    }
    proof {
        assert(v@.subrange(0, n as int) =~= v@);
    }
    r
}

/// A fresh value equal to the given one.
pub fn copy_value(v: &Value) -> (r: Value)
    ensures
        r@ == v@,
    decreases v,
{
    match v {
        Value::Bool(b) => Value::Bool(*b),
        Value::Int(i) => Value::Int(*i),
        Value::Text(t) => Value::Text(copy_bytes(t)),
        Value::Blob(t) => Value::Blob(copy_bytes(t)),
        Value::List(l) => {
            proof {
                assert(decreases_to!(*v => *l));
            }
            let c = copy_values(l);
            let ghost cd = c.deep_view();
            let out = Value::List(c);
            proof {
                assert(out@->List_0 =~= cd);
                assert(v@->List_0 =~= l.deep_view());
            }
            out
        },
    }
}

/// A fresh row equal to the given one.
pub fn copy_values(vals: &Vec<Value>) -> (r: Vec<Value>)
    ensures
        r.deep_view() == vals.deep_view(),
    decreases *vals,
{
    let mut r: Vec<Value> = Vec::new();
    let n = vals.len();
    for i in 0..n
        invariant
            n == vals.len(),
            r.deep_view() == vals.deep_view().subrange(0, i as int),
    {
        proof {
            assert(decreases_to!(*vals => vals[i as int]));
        }
        let c = copy_value(&vals[i]);
        proof {
            assert(c@ == vals.deep_view()[i as int]);
            assert(vals.deep_view().subrange(0, i + 1) =~= vals.deep_view().subrange(
                0,
                i as int,
            ).push(vals.deep_view()[i as int]));
        }
        r.push(c);
        proof {
            assert(r.deep_view() =~= vals.deep_view().subrange(0, i + 1));
        }
    }
    proof {
        assert(vals.deep_view().subrange(0, n as int) =~= vals.deep_view());
    }
    r
}

} // verus!
