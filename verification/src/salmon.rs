//! Salmon: the migratory entities that fish ticks move between a node
//! and its parent or children.

use vstd::prelude::*;

verus! {

/// Age of a salmon.
#[derive(Debug, PartialEq, Eq, Structural, Clone, Copy)]
pub enum Age {
    Young,
    Mature,
}

/// Direction a salmon is migrating in: downstream is toward the root of the
/// river tree, upstream is away from it.
#[derive(Debug, PartialEq, Eq, Structural, Clone, Copy)]
pub enum Direction {
    Downstream,
    Upstream,
}

/// A migratory fish entity resident at some node of the river tree.
#[derive(Debug)]
pub struct Salmon {
    pub age: Age,
    pub direction: Direction,
    pub name: String,
}

/// The mathematical value of a salmon: its name as a character sequence.
#[verifier::ext_equal]
pub struct SalmonView {
    pub age: Age,
    pub direction: Direction,
    pub name: Seq<char>,
}

impl View for Salmon {
    type V = SalmonView;

    open spec fn view(&self) -> SalmonView {
        SalmonView { age: self.age, direction: self.direction, name: self.name@ }
    }
}

} // verus!
