//! Mathematical models of the values that the library works on.
//!
//! Contracts speak of a value through its model: a whole number or a
//! fixed-point scalar is modelled by an unbounded integer, an array by the
//! sequence of its items' models. A model may lie outside the type, which is
//! how a contract can say that a result would not fit.

use vstd::prelude::*;
use crate::fixed::Fixed;

verus! {

/// A type whose values have a mathematical model.
pub trait Modeled: Sized {
    /// The mathematical value that contracts speak of.
    type Model;

    /// The model of this value.
    spec fn model(&self) -> Self::Model;

    /// Whether `m` is the model of some value of the type.
    spec fn valid(m: Self::Model) -> bool;

    /// The model of every value is valid.
    proof fn lemma_model_valid(&self)
        ensures
            Self::valid(self.model()),
    ;
}

impl Modeled for Fixed {
    type Model = int;

    open spec fn model(&self) -> int {
        self.raw as int
    }

    open spec fn valid(m: int) -> bool {
        i32::MIN <= m <= i32::MAX
    }

    proof fn lemma_model_valid(&self) {
    }
}

impl Modeled for i8 {
    type Model = int;

    open spec fn model(&self) -> int {
        *self as int
    }

    open spec fn valid(m: int) -> bool {
        i8::MIN <= m <= i8::MAX
    }

    proof fn lemma_model_valid(&self) {
    }
}

impl Modeled for i16 {
    type Model = int;

    open spec fn model(&self) -> int {
        *self as int
    }

    open spec fn valid(m: int) -> bool {
        i16::MIN <= m <= i16::MAX
    }

    proof fn lemma_model_valid(&self) {
    }
}

impl Modeled for i32 {
    type Model = int;

    open spec fn model(&self) -> int {
        *self as int
    }

    open spec fn valid(m: int) -> bool {
        i32::MIN <= m <= i32::MAX
    }

    proof fn lemma_model_valid(&self) {
    }
}

impl Modeled for i64 {
    type Model = int;

    open spec fn model(&self) -> int {
        *self as int
    }

    open spec fn valid(m: int) -> bool {
        i64::MIN <= m <= i64::MAX
    }

    proof fn lemma_model_valid(&self) {
    }
}

impl Modeled for u8 {
    type Model = int;

    open spec fn model(&self) -> int {
        *self as int
    }

    open spec fn valid(m: int) -> bool {
        u8::MIN <= m <= u8::MAX
    }

    proof fn lemma_model_valid(&self) {
    }
}

impl Modeled for u16 {
    type Model = int;

    open spec fn model(&self) -> int {
        *self as int
    }

    open spec fn valid(m: int) -> bool {
        u16::MIN <= m <= u16::MAX
    }

    proof fn lemma_model_valid(&self) {
    }
}

impl Modeled for u32 {
    type Model = int;

    open spec fn model(&self) -> int {
        *self as int
    }

    open spec fn valid(m: int) -> bool {
        u32::MIN <= m <= u32::MAX
    }

    proof fn lemma_model_valid(&self) {
    }
}

impl Modeled for u64 {
    type Model = int;

    open spec fn model(&self) -> int {
        *self as int
    }

    open spec fn valid(m: int) -> bool {
        u64::MIN <= m <= u64::MAX
    }

    proof fn lemma_model_valid(&self) {
    }
}

/// Whether `m` holds `n` valid item models.
pub open spec fn valid_seq<T: Modeled>(n: nat, m: Seq<T::Model>) -> bool {
    m.len() == n && forall|i: int| 0 <= i < n ==> T::valid(#[trigger] m[i])
}

impl<T: Modeled, const N: usize> Modeled for [T; N] {
    type Model = Seq<T::Model>;

    open spec fn model(&self) -> Seq<T::Model> {
        Seq::new(N as nat, |i: int| self@[i].model())
    }

    open spec fn valid(m: Seq<T::Model>) -> bool {
        valid_seq::<T>(N as nat, m)
    }

    proof fn lemma_model_valid(&self) {
        assert forall|i: int| 0 <= i < N implies T::valid(#[trigger] self.model()[i]) by {
            self@[i].lemma_model_valid();
        }
    }
}

} // verus!
