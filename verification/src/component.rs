//! The components that make up the BVGraph compressed format, used when a
//! caller accounts for the space taken by each part of a graph file.

use vstd::prelude::*;

verus! {

/// The number of components in the BVGraph format.
pub const COMPONENTS: usize = 9;

/// An enumeration of the components composing the BVGraph format.
#[derive(Clone, Copy, Debug, PartialEq, Eq, Structural)]
pub enum BvGraphComponent {
    Outdegree,
    ReferenceOffset,
    BlockCount,
    Blocks,
    IntervalCount,
    IntervalStart,
    IntervalLen,
    FirstResidual,
    Residual,
}

impl BvGraphComponent {
    /// The position of the component in the format, a value below
    /// `COMPONENTS`.
    pub open spec fn index_spec(self) -> int {
        match self {
            BvGraphComponent::Outdegree => 0,
            BvGraphComponent::ReferenceOffset => 1,
            BvGraphComponent::BlockCount => 2,
            BvGraphComponent::Blocks => 3,
            BvGraphComponent::IntervalCount => 4,
            BvGraphComponent::IntervalStart => 5,
            BvGraphComponent::IntervalLen => 6,
            BvGraphComponent::FirstResidual => 7,
            BvGraphComponent::Residual => 8,
        }
    }

    /// The position of the component in the format.
    pub fn index(self) -> (i: usize)
        ensures
            i == self.index_spec(),
            i < COMPONENTS,
    {
        match self {
            BvGraphComponent::Outdegree => 0,
            BvGraphComponent::ReferenceOffset => 1,
            BvGraphComponent::BlockCount => 2,
            BvGraphComponent::Blocks => 3,
            BvGraphComponent::IntervalCount => 4,
            BvGraphComponent::IntervalStart => 5,
            BvGraphComponent::IntervalLen => 6,
            BvGraphComponent::FirstResidual => 7,
            BvGraphComponent::Residual => 8,
        }
    }

    /// The component's display name.
    pub open spec fn name_spec(self) -> Seq<char> {
        match self {
            BvGraphComponent::Outdegree => "Outdegree"@,
            BvGraphComponent::ReferenceOffset => "Reference offset"@,
            BvGraphComponent::BlockCount => "Block count"@,
            BvGraphComponent::Blocks => "Blocks"@,
            BvGraphComponent::IntervalCount => "Interval count"@,
            BvGraphComponent::IntervalStart => "Interval start"@,
            BvGraphComponent::IntervalLen => "Interval Length"@,
            BvGraphComponent::FirstResidual => "First residuals"@,
            BvGraphComponent::Residual => "Residual"@,
        }
    }

    /// The component's display name.
    pub fn name(self) -> (s: &'static str)
        ensures
            s@ == self.name_spec(),
    {
        match self {
            BvGraphComponent::Outdegree => "Outdegree",
            BvGraphComponent::ReferenceOffset => "Reference offset",
            BvGraphComponent::BlockCount => "Block count",
            BvGraphComponent::Blocks => "Blocks",
            BvGraphComponent::IntervalCount => "Interval count",
            BvGraphComponent::IntervalStart => "Interval start",
            BvGraphComponent::IntervalLen => "Interval Length",
            BvGraphComponent::FirstResidual => "First residuals",
            BvGraphComponent::Residual => "Residual",
        }
    }
}

} // verus!
