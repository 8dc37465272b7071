//! The type grammar: what a value on the wire can be a value of.

use vstd::prelude::*;
use crate::scalar::Scalar;

verus! {

/// The shape of a type. Aggregates are not written out in place: a shape
/// names them by their index in a list of definitions, which is what lets a
/// type hold values of its own type.
#[derive(Debug, PartialEq, Eq)]
pub enum Shape {
    /// A number or a boolean.
    Scalar(Scalar),
    /// A text.
    Text,
    /// A sequence of exactly so many elements of one shape.
    Fixed(usize, Box<Shape>),
    /// A sequence of any number of elements of one shape.
    Growable(Box<Shape>),
    /// An owned indirection to a value of the inner shape.
    Boxed(Box<Shape>),
    /// The aggregate defined at this index.
    Named(usize),
}

/// The definition of an aggregate.
#[derive(Debug, PartialEq, Eq)]
pub enum TypeDef {
    /// All fields at once, in declaration order.
    Product(Vec<Shape>),
    /// One variant out of several, each with its fields in declaration order.
    /// A variant's discriminant is its index.
    Sum(Vec<Vec<Shape>>),
}

impl Shape {
    /// How deeply the shape nests sequences and boxes.
    pub open spec fn height(self) -> nat
        decreases self,
    {
        match self {
            Shape::Fixed(_, element) => 1 + element.height(),
            Shape::Growable(element) => 1 + element.height(),
            Shape::Boxed(inner) => 1 + inner.height(),
            _ => 0,
        }
    }

    /// Whether every aggregate that the shape names is among the first
    /// `count` definitions.
    pub open spec fn resolves(self, count: nat) -> bool
        decreases self,
    {
        match self {
            Shape::Fixed(_, element) => element.resolves(count),
            Shape::Growable(element) => element.resolves(count),
            Shape::Boxed(inner) => inner.resolves(count),
            Shape::Named(index) => index < count,
            _ => true,
        }
    }

    /// Whether every aggregate that a value of this shape can start with,
    /// before a single byte is read, is among the first `level` definitions.
    /// A growable sequence starts with its length, so what it holds does not
    /// count.
    pub open spec fn grounded(self, level: nat) -> bool
        decreases self,
    {
        match self {
            Shape::Fixed(_, element) => element.grounded(level),
            Shape::Boxed(inner) => inner.grounded(level),
            Shape::Named(index) => index < level,
            _ => true,
        }
    }

    /// A shape that resolves starts with nothing beyond the definitions.
    pub proof fn lemma_resolves_grounded(self, count: nat)
        requires
            self.resolves(count),
        ensures
            self.grounded(count),
        decreases self,
    {
        match self {
            Shape::Fixed(_, element) => element.lemma_resolves_grounded(count),
            Shape::Boxed(inner) => inner.lemma_resolves_grounded(count),
            _ => {},
        }
    }

    /// Computes `resolves`.
    pub fn check_resolves(&self, count: usize) -> (answer: bool)
        ensures
            answer == self.resolves(count as nat),
        decreases self,
    {
        match self {
            Shape::Fixed(_, element) => element.check_resolves(count),
            Shape::Growable(element) => element.check_resolves(count),
            Shape::Boxed(inner) => inner.check_resolves(count),
            Shape::Named(index) => *index < count,
            _ => true,
        }
    }

    /// Computes `grounded`.
    pub fn check_grounded(&self, level: usize) -> (answer: bool)
        ensures
            answer == self.grounded(level as nat),
        decreases self,
    {
        match self {
            Shape::Fixed(_, element) => element.check_grounded(level),
            Shape::Boxed(inner) => inner.check_grounded(level),
            Shape::Named(index) => *index < level,
            _ => true,
        }
    }
}

} // verus!
