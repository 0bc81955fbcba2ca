//! Key strategies that come with the library.

use vstd::prelude::*;
use crate::lisp::{LispObject, SYM_EQ};
use crate::table_model::EqualityStrategy;

verus! {

/// The number that identifies a datum among those of its type.
pub open spec fn payload(a: LispObject) -> u64 {
    match a {
        LispObject::Nil => 0,
        LispObject::True => 1,
        LispObject::Symbol(n) => n as u64,
        LispObject::Fixnum(i) => if i >= 0 {
            i as u64
        } else {
            (-(i + 1)) as u64
        },
        LispObject::Cons(i) => i as u64,
        LispObject::HashTable(i) => i as u64,
        LispObject::Frame(i) => i as u64,
        LispObject::Window(i) => i as u64,
        LispObject::Buffer(i) => i as u64,
        LispObject::Other(n) => n,
    }
}

/// Computes `payload`.
pub fn payload_of(a: LispObject) -> (h: u64)
    ensures
        h == payload(a),
{
    match a {
        LispObject::Nil => 0,
        LispObject::True => 1,
        LispObject::Symbol(n) => n as u64,
        LispObject::Fixnum(i) => if i >= 0 {
            i as u64
        } else {
            (-(i + 1)) as u64
        },
        LispObject::Cons(i) => i as u64,
        LispObject::HashTable(i) => i as u64,
        LispObject::Frame(i) => i as u64,
        LispObject::Window(i) => i as u64,
        LispObject::Buffer(i) => i as u64,
        LispObject::Other(n) => n,
    }
}

/// Keys are the same when they are the same datum. The hash code of a key is
/// its payload.
#[derive(Clone, Copy, Debug, PartialEq, Eq, Structural)]
pub struct EqTest;

impl EqualityStrategy for EqTest {
    open spec fn equal_spec(&self, a: LispObject, b: LispObject) -> bool {
        a == b
    }

    open spec fn hash_spec(&self, a: LispObject) -> u64 {
        payload(a)
    }

    proof fn lemma_reflexive(&self, a: LispObject) {
    }

    proof fn lemma_same_as_third(&self, a: LispObject, b: LispObject, c: LispObject) {
    }

    proof fn lemma_hash_agrees(&self, a: LispObject, b: LispObject) {
    }

    fn equal(&self, a: LispObject, b: LispObject) -> (r: bool) {
        a == b
    }

    fn hash(&self, a: LispObject) -> (h: u64) {
        payload_of(a)
    }

    open spec fn name_spec(&self) -> LispObject {
        LispObject::Symbol(SYM_EQ)
    }

    fn name(&self) -> (r: LispObject) {
        LispObject::Symbol(SYM_EQ)
    }

    fn duplicate(&self) -> (copy: Self) {
        EqTest
    }
}

/// Keys are the same when they are the same datum. The hash code of a key is
/// its payload folded into `range` codes, so that keys collide on purpose.
#[derive(Clone, Copy, Debug, PartialEq, Eq, Structural)]
pub struct FoldedEqTest {
    /// The number of hash codes in use. Zero stands for one.
    pub range: u64,
}

impl EqualityStrategy for FoldedEqTest {
    open spec fn equal_spec(&self, a: LispObject, b: LispObject) -> bool {
        a == b
    }

    open spec fn hash_spec(&self, a: LispObject) -> u64 {
        if self.range == 0 {
            0
        } else {
            payload(a) % self.range
        }
    }

    proof fn lemma_reflexive(&self, a: LispObject) {
    }

    proof fn lemma_same_as_third(&self, a: LispObject, b: LispObject, c: LispObject) {
    }

    proof fn lemma_hash_agrees(&self, a: LispObject, b: LispObject) {
    }

    fn equal(&self, a: LispObject, b: LispObject) -> (r: bool) {
        a == b
    }

    fn hash(&self, a: LispObject) -> (h: u64) {
        if self.range == 0 {
            0
        } else {
            payload_of(a) % self.range
        }
    }

    open spec fn name_spec(&self) -> LispObject {
        LispObject::Symbol(SYM_EQ)
    }

    fn name(&self) -> (r: LispObject) {
        LispObject::Symbol(SYM_EQ)
    }

    fn duplicate(&self) -> (copy: Self) {
        FoldedEqTest { range: self.range }
    }
}

} // verus!
