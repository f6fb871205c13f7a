//! Generic values stored in tables.

use crate::datatype::{lemma_same_type_model, DataType, TypeM};
use vstd::prelude::*;

verus! {

/// A 64-bit float held as its IEEE 754 bit pattern (the bytes that the
/// encoding stores).
#[derive(Clone, Copy, Debug)]
pub struct F64(pub u64);

/// Generic value.
#[derive(Debug)]
pub enum Value {
    Empty,
    Bool(bool),
    Int(i64),
    Float(F64),
    /// UTF-8 bytes of a string.
    String(Vec<u8>),
    Binary(Vec<u8>),
    List(Vec<Value>),
    Enum(usize, Box<Value>),
    IList(Vec<i64>),
    DataType(DataType),
}

/// Mathematical model of a [Value]: sequences in place of vectors.
#[verifier::ext_equal]
pub enum Val {
    Empty,
    Bool(bool),
    Int(i64),
    Float(u64),
    Str(Seq<u8>),
    Bin(Seq<u8>),
    List(Seq<Val>),
    Enum(nat, Box<Val>),
    IList(Seq<i64>),
    Type(TypeM),
}

impl Value {
    /// The model of this value.
    pub open spec fn model(self) -> Val
        decreases self,
    {
        match self {
            Value::Empty => Val::Empty,
            Value::Bool(b) => Val::Bool(b),
            Value::Int(i) => Val::Int(i),
            Value::Float(f) => Val::Float(f.0),
            Value::String(s) => Val::Str(s@),
            Value::Binary(b) => Val::Bin(b@),
            Value::List(v) => Val::List(
                Seq::new(
                    v@.len(),
                    |i: int|
                        if 0 <= i < v@.len() {
                            v@[i].model()
                        } else {
                            Val::Empty
                        },
                ),
            ),
            Value::Enum(t, b) => Val::Enum(t as nat, Box::new((*b).model())),
            Value::IList(v) => Val::IList(v@),
            Value::DataType(dt) => Val::Type(dt.model()),
        }
    }

    /// Get bool ( Value must be Bool ).
    pub fn bool(&self) -> (r: bool)
        requires
            self is Bool,
        ensures
            r == self->Bool_0,
    {
        match self {
            Value::Bool(x) => *x,
            _ => false,
        }
    }

    /// Get int ( Value must be Int ). Named `int_val` as `int` is a word of Verus.
    pub fn int_val(&self) -> (r: i64)
        requires
            self is Int,
        ensures
            r == self->Int_0,
    {
        match self {
            Value::Int(x) => *x,
            _ => 0,
        }
    }

    /// Get float bits ( Value must be Float ).
    pub fn float(&self) -> (r: u64)
        requires
            self is Float,
        ensures
            r == self->Float_0.0,
    {
        match self {
            Value::Float(x) => x.0,
            _ => 0,
        }
    }

    /// Get reference to the string bytes ( Value must be String ).
    pub fn string(&self) -> (r: &Vec<u8>)
        requires
            self is String,
        ensures
            *r == self->String_0,
    {
        match self {
            Value::String(s) => s,
            _ => vstd::pervasive::unreached(),
        }
    }

    /// Get reference to the binary bytes ( Value must be Binary ).
    pub fn binary(&self) -> (r: &Vec<u8>)
        requires
            self is Binary,
        ensures
            *r == self->Binary_0,
    {
        match self {
            Value::Binary(b) => b,
            _ => vstd::pervasive::unreached(),
        }
    }

    /// Get reference to List items ( Value must be List ).
    pub fn list(&self) -> (r: &Vec<Value>)
        requires
            self is List,
        ensures
            *r == self->List_0,
    {
        match self {
            Value::List(list) => list,
            _ => vstd::pervasive::unreached(),
        }
    }

    /// Get mut reference to List items ( Value must be List ).
    pub fn list_mut(&mut self) -> (r: &mut Vec<Value>)
        requires
            *old(self) is List,
        ensures
            *r == old(self)->List_0,
            *final(self) == Value::List(*final(r)),
    {
        match self {
            Value::List(list) => list,
            _ => vstd::pervasive::unreached(),
        }
    }

    /// Get references to Enum tag and mut reference to its value ( Value
    /// must be Enum ).
    pub fn en_mut(&mut self) -> (r: (&usize, &mut Value))
        requires
            *old(self) is Enum,
        ensures
            *r.0 == old(self)->Enum_0,
            *r.1 == *old(self)->Enum_1,
            *final(self) == Value::Enum(old(self)->Enum_0, Box::new(*final(r.1))),
    {
        match self {
            Value::Enum(tag, bx) => (tag, &mut **bx),
            _ => vstd::pervasive::unreached(),
        }
    }

    /// Get mut reference to IList items ( Value must be IList ).
    pub fn ilist_mut(&mut self) -> (r: &mut Vec<i64>)
        requires
            *old(self) is IList,
        ensures
            *r == old(self)->IList_0,
            *final(self) == Value::IList(*final(r)),
    {
        match self {
            Value::IList(list) => list,
            _ => vstd::pervasive::unreached(),
        }
    }

    /// Get mut reference to DataType ( Value must be DataType ).
    pub fn datatype_mut(&mut self) -> (r: &mut DataType)
        requires
            *old(self) is DataType,
        ensures
            *r == old(self)->DataType_0,
            *final(self) == Value::DataType(*final(r)),
    {
        match self {
            Value::DataType(dt) => dt,
            _ => vstd::pervasive::unreached(),
        }
    }

    /// Get references to Enum tag and value ( Value must be Enum ).
    pub fn en(&self) -> (r: (&usize, &Value))
        requires
            self is Enum,
        ensures
            *r.0 == self->Enum_0,
            *r.1 == *self->Enum_1,
    {
        match self {
            Value::Enum(tag, bx) => (tag, &**bx),
            _ => vstd::pervasive::unreached(),
        }
    }

    /// Get reference to IList items ( Value must be IList ).
    pub fn ilist(&self) -> (r: &Vec<i64>)
        requires
            self is IList,
        ensures
            *r == self->IList_0,
    {
        match self {
            Value::IList(list) => list,
            _ => vstd::pervasive::unreached(),
        }
    }

    /// Get reference to DataType ( Value must be DataType ).
    pub fn datatype(&self) -> (r: &DataType)
        requires
            self is DataType,
        ensures
            *r == self->DataType_0,
    {
        match self {
            Value::DataType(dt) => dt,
            _ => vstd::pervasive::unreached(),
        }
    }

    /// A copy of this value (a deep copy: lists are copied item by item).
    pub fn copy(&self) -> (r: Value)
        ensures
            r.model() == self.model(),
        decreases self,
    {
        match self {
            Value::Empty => Value::Empty,
            Value::Bool(b) => Value::Bool(*b),
            Value::Int(i) => Value::Int(*i),
            Value::Float(f) => Value::Float(F64(f.0)),
            Value::String(s) => Value::String(vstd::slice::slice_to_vec(s.as_slice())),
            Value::Binary(b) => Value::Binary(vstd::slice::slice_to_vec(b.as_slice())),
            Value::List(list) => {
                assert forall|j: int| 0 <= j < list@.len() implies decreases_to!(*self => list@[j]) by {
                    assert(decreases_to!(*self => list@[j]));
                }
                let mut r: Vec<Value> = Vec::new();
                let mut i: usize = 0;
                while i < list.len()
                    invariant
                        *self == Value::List(*list),
                        forall|j: int| 0 <= j < list@.len() ==> decreases_to!(*self => list@[j]),
                        i <= list@.len(),
                        r@.len() == i,
                        forall|j: int| 0 <= j < i ==> #[trigger] r@[j].model() == list@[j].model(),
                    decreases list@.len() - i,
                {
                    let v = list[i].copy();
                    r.push(v);
                    i += 1;
                }
                let result = Value::List(r);
                proof {
                    assert(r@.len() == list@.len());
                    assert forall|j: int| 0 <= j < r@.len() implies result.model()->List_0[j]
                        == self.model()->List_0[j] by {
                        assert(r@[j].model() == list@[j].model());
                    }
                    assert(result.model()->List_0 =~= self.model()->List_0);
                }
                result
            },
            Value::Enum(tag, b) => Value::Enum(*tag, Box::new((**b).copy())),
            Value::IList(list) => Value::IList(vstd::slice::slice_to_vec(list.as_slice())),
            Value::DataType(dt) => {
                let c = dt.copy();
                proof {
                    lemma_same_type_model(*dt, c);
                }
                Value::DataType(c)
            },
        }
    }
}

/// The model of `x` with `y` appended: strings to strings, binary to binary.
pub open spec fn appended(x: Val, y: Val) -> Val {
    match (x, y) {
        (Val::Str(a), Val::Str(b)) => Val::Str(a + b),
        (Val::Bin(a), Val::Bin(b)) => Val::Bin(a + b),
        _ => x,
    }
}

/// Append `y` to `x`, which are both strings or both binary.
pub fn append(x: &mut Value, y: &Value)
    requires
        (*old(x) is String && *y is String) || (*old(x) is Binary && *y is Binary),
    ensures
        final(x).model() == appended(old(x).model(), y.model()),
{
    match x {
        Value::String(a) => {
            if let Value::String(b) = y {
                a.extend_from_slice(b.as_slice());
            }
        },
        Value::Binary(a) => {
            if let Value::Binary(b) = y {
                a.extend_from_slice(b.as_slice());
            }
        },
        _ => {},
    }
}

} // verus!
