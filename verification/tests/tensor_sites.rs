use scientia::requirements::{DerivativeEvaluation, EvaluationSite};
use scientia::scientific::ValueShape;
use scientia::semantic::{DifferentialOperator, DomainId, RegionId, SemanticMeasure, SemanticShape, TraceSide};
use scientia::tensor::{
    derivative_evaluation, semantic_value_shape, side_for_site, site_for_measure, site_for_trace,
    value_shape, TensorAxisId, TensorInputId, TensorSide,
};

#[test]
fn value_shapes_list_extents() {
    assert!(value_shape(&ValueShape::Scalar).is_empty());
    assert_eq!(value_shape(&ValueShape::Vector(3)), vec![3]);
    assert_eq!(value_shape(&ValueShape::Tensor { rows: 2, cols: 3 }), vec![2, 3]);
    assert_eq!(value_shape(&ValueShape::SymmetricTensor(4)), vec![4, 4]);
    assert_eq!(
        semantic_value_shape(&SemanticShape::Numeric(ValueShape::Vector(2))),
        Some(vec![2])
    );
    assert_eq!(semantic_value_shape(&SemanticShape::Deferred), Some(vec![]));
    assert_eq!(semantic_value_shape(&SemanticShape::Boolean), None);
    assert_eq!(semantic_value_shape(&SemanticShape::Region), None);
}

#[test]
fn differential_operators_map_to_evaluations() {
    assert_eq!(
        derivative_evaluation(DifferentialOperator::Gradient),
        DerivativeEvaluation::Gradient
    );
    assert_eq!(
        derivative_evaluation(DifferentialOperator::Divergence),
        DerivativeEvaluation::Divergence
    );
    assert_eq!(derivative_evaluation(DifferentialOperator::Curl), DerivativeEvaluation::Curl);
    assert_eq!(
        derivative_evaluation(DifferentialOperator::RotatedGradient),
        DerivativeEvaluation::RotatedGradient
    );
    assert_eq!(
        derivative_evaluation(DifferentialOperator::SymmetricGradient),
        DerivativeEvaluation::SymmetricGradient
    );
    assert_eq!(
        derivative_evaluation(DifferentialOperator::TimeDerivative),
        DerivativeEvaluation::TimeDerivative
    );
}

#[test]
fn measures_and_traces_map_to_sites_and_sides() {
    assert_eq!(
        site_for_measure(&SemanticMeasure::Cell { domain: DomainId(0) }),
        EvaluationSite::Cell
    );
    assert_eq!(
        site_for_measure(&SemanticMeasure::ExteriorFacet { region: RegionId(1) }),
        EvaluationSite::ExteriorTrace
    );
    assert_eq!(
        site_for_measure(&SemanticMeasure::InteriorFacet { region: RegionId(1) }),
        EvaluationSite::MinusTrace
    );
    assert_eq!(
        site_for_measure(&SemanticMeasure::Interface { region: RegionId(1) }),
        EvaluationSite::MinusTrace
    );
    assert_eq!(
        site_for_measure(&SemanticMeasure::Point { region: RegionId(1) }),
        EvaluationSite::Point
    );
    assert_eq!(site_for_trace(TraceSide::Exterior), EvaluationSite::ExteriorTrace);
    assert_eq!(site_for_trace(TraceSide::Minus), EvaluationSite::MinusTrace);
    assert_eq!(site_for_trace(TraceSide::Plus), EvaluationSite::PlusTrace);
    assert_eq!(side_for_site(EvaluationSite::Cell), TensorSide::Cell);
    assert_eq!(side_for_site(EvaluationSite::ExteriorTrace), TensorSide::Exterior);
    assert_eq!(side_for_site(EvaluationSite::MinusTrace), TensorSide::Minus);
    assert_eq!(side_for_site(EvaluationSite::PlusTrace), TensorSide::Plus);
    assert_eq!(side_for_site(EvaluationSite::Point), TensorSide::Point);
}

#[test]
fn tensor_ids_index() {
    assert_eq!(TensorInputId(7).index(), 7);
    assert_eq!(TensorAxisId(2).index(), 2);
}
