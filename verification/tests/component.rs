use graph_bisection::component::{BvGraphComponent, COMPONENTS};

#[test]
fn component_count_matches_the_format() {
    assert_eq!(COMPONENTS, 9);
}

#[test]
fn component_indices_are_dense() {
    let all = [
        BvGraphComponent::Outdegree,
        BvGraphComponent::ReferenceOffset,
        BvGraphComponent::BlockCount,
        BvGraphComponent::Blocks,
        BvGraphComponent::IntervalCount,
        BvGraphComponent::IntervalStart,
        BvGraphComponent::IntervalLen,
        BvGraphComponent::FirstResidual,
        BvGraphComponent::Residual,
    ];
    for (i, c) in all.iter().enumerate() {
        assert_eq!(c.index(), i);
    }
}

#[test]
fn component_names() {
    assert_eq!(BvGraphComponent::Outdegree.name(), "Outdegree");
    assert_eq!(BvGraphComponent::ReferenceOffset.name(), "Reference offset");
    assert_eq!(BvGraphComponent::IntervalLen.name(), "Interval Length");
    assert_eq!(BvGraphComponent::Residual.name(), "Residual");
}

#[test]
fn components_compare_by_variant() {
    assert_eq!(BvGraphComponent::Blocks, BvGraphComponent::Blocks);
    assert_ne!(BvGraphComponent::Blocks, BvGraphComponent::BlockCount);
}
