//! Tick kinds and their propagation orders.

use vstd::prelude::*;

verus! {

/// A kind of global simulation step. Running a tick applies one full tree
/// traversal, invoking the per-node transition rule of this kind at each node.
#[derive(Clone, Copy, Debug, PartialEq, Eq, Structural)]
pub enum Tick {
    Snow,
    Water,
    Power,
    FishDown,
    FishUp,
    FishHatch,
    Misc,
    Input,
}

/// The traversal discipline of a tick kind. `Any` marks kinds whose rules
/// only read and write local state, so that no order is observable.
#[derive(Clone, Copy, Debug, PartialEq, Eq, Structural)]
pub enum PropagationOrder {
    PreOrder,
    PostOrder,
    Any,
}

impl Tick {
    /// The propagation order of each tick kind. Snow and water climb the
    /// tree one level per tick because a node's rule runs before its
    /// children are visited; upstream fish movement is post-order.
    pub open spec fn spec_propagation_order(self) -> PropagationOrder {
        match self {
            Tick::Snow => PropagationOrder::PreOrder,
            Tick::Water => PropagationOrder::PreOrder,
            Tick::Power => PropagationOrder::Any,
            Tick::FishDown => PropagationOrder::PreOrder,
            Tick::FishUp => PropagationOrder::PostOrder,
            Tick::FishHatch => PropagationOrder::PreOrder,
            Tick::Misc => PropagationOrder::PreOrder,
            Tick::Input => PropagationOrder::Any,
        }
    }

    #[verifier::when_used_as_spec(spec_propagation_order)]
    pub fn propagation_order(self) -> (order: PropagationOrder)
        ensures
            order == self.spec_propagation_order(),
    {
        match self {
            Tick::Snow => PropagationOrder::PreOrder,
            Tick::Water => PropagationOrder::PreOrder,
            Tick::Power => PropagationOrder::Any,
            Tick::FishDown => PropagationOrder::PreOrder,
            Tick::FishUp => PropagationOrder::PostOrder,
            Tick::FishHatch => PropagationOrder::PreOrder,
            Tick::Misc => PropagationOrder::PreOrder,
            Tick::Input => PropagationOrder::Any,
        }
    }
}

} // verus!
