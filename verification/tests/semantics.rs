use scientia::scientific::ValueShape;
use scientia::semantic::{
    advisory, axes, duplicate, error, is_intrinsic_call, is_numeric_or_deferred, merge_frame,
    multiply_shape, require_arity, semantic_axes, validate_shape, Axis, DeclarationId, DomainId,
    ExactLiteral, ExprId, Frame, RegionId, SemanticShape, SymbolId, GENERATED_BASE,
};
use scientia::source::{SourceSeverity, SourceSpan};

fn span() -> SourceSpan {
    SourceSpan::new(5, 8)
}

#[test]
fn region_ids_encode_generated_domains() {
    let region = RegionId::generated_for(DomainId(4));
    assert_eq!(region.0, GENERATED_BASE + 4);
    assert!(region.is_generated());
    assert_eq!(region.generated_domain(), Some(DomainId(4)));
    assert!(!RegionId(4).is_generated());
    assert_eq!(RegionId(4).generated_domain(), None);
    assert_eq!(RegionId::generated_for(DomainId(4)), RegionId::generated_for(DomainId(4)));
    assert_ne!(RegionId::generated_for(DomainId(4)), RegionId::generated_for(DomainId(5)));
}

#[test]
fn symbol_ids_for_distinct_declarations_differ() {
    let a = SymbolId::generated_for(DeclarationId(0));
    let b = SymbolId::generated_for(DeclarationId(1));
    assert!(a.is_generated());
    assert!(b.is_generated());
    assert_ne!(a, b);
    assert!(!SymbolId(12).is_generated());
    assert_eq!(SymbolId(12).index(), 12);
    assert_eq!(ExprId(3).index(), 3);
}

#[test]
fn exact_literals_normalize_trailing_zeros() {
    assert_eq!(ExactLiteral::from_lexeme("0.1"), ExactLiteral::from_lexeme("0.10"));
    assert_eq!(
        ExactLiteral::from_lexeme("0.1"),
        ExactLiteral::Decimal {
            mantissa: 1,
            exponent: -1
        }
    );
    assert_ne!(ExactLiteral::from_lexeme("0.1"), ExactLiteral::from_lexeme("0.11"));
}

#[test]
fn exact_literals_of_integers_and_exponents() {
    assert_eq!(ExactLiteral::from_lexeme("42"), ExactLiteral::Integer(42));
    assert_eq!(ExactLiteral::from_lexeme("100"), ExactLiteral::Integer(100));
    assert_eq!(ExactLiteral::from_lexeme("0"), ExactLiteral::Integer(0));
    assert_eq!(ExactLiteral::from_lexeme("1e3"), ExactLiteral::Integer(1000));
    assert_eq!(ExactLiteral::from_lexeme("2.5E2"), ExactLiteral::Integer(250));
    assert_eq!(ExactLiteral::from_lexeme("3.0"), ExactLiteral::Integer(3));
    assert_eq!(
        ExactLiteral::from_lexeme("1.5e-3"),
        ExactLiteral::Decimal {
            mantissa: 15,
            exponent: -4
        }
    );
    assert_eq!(
        ExactLiteral::from_lexeme(".5"),
        ExactLiteral::Decimal {
            mantissa: 5,
            exponent: -1
        }
    );
    assert_eq!(
        ExactLiteral::from_lexeme("1e40"),
        ExactLiteral::Decimal {
            mantissa: 1,
            exponent: 40
        }
    );
    assert_eq!(
        ExactLiteral::from_lexeme("1e99999"),
        ExactLiteral::Decimal {
            mantissa: 1,
            exponent: i16::MAX
        }
    );
    assert_eq!(ExactLiteral::from_lexeme("1e+2"), ExactLiteral::Integer(100));
    assert_eq!(ExactLiteral::from_lexeme("7e"), ExactLiteral::Integer(7));
}

#[test]
fn exact_literal_of_huge_mantissa_is_zero() {
    let huge = "9".repeat(60);
    assert_eq!(ExactLiteral::from_lexeme(&huge), ExactLiteral::Integer(0));
    // 10^38 scaled by 2 leaves i128; the literal stays a decimal.
    assert_eq!(
        ExactLiteral::from_lexeme("2e38"),
        ExactLiteral::Decimal {
            mantissa: 2,
            exponent: 38
        }
    );
    assert_eq!(
        ExactLiteral::from_lexeme("1e38"),
        ExactLiteral::Integer(10i128.pow(38))
    );
}

#[test]
fn axes_of_shapes() {
    assert!(axes(&ValueShape::Scalar).is_empty());
    assert_eq!(
        axes(&ValueShape::Vector(3)),
        vec![Axis {
            position: 0,
            extent: 3
        }]
    );
    assert_eq!(
        axes(&ValueShape::Tensor { rows: 2, cols: 4 }),
        vec![
            Axis {
                position: 0,
                extent: 2
            },
            Axis {
                position: 1,
                extent: 4
            }
        ]
    );
    assert_eq!(
        axes(&ValueShape::SymmetricTensor(3)),
        vec![
            Axis {
                position: 0,
                extent: 3
            },
            Axis {
                position: 1,
                extent: 3
            }
        ]
    );
    assert!(semantic_axes(&SemanticShape::Boolean).is_empty());
    assert_eq!(
        semantic_axes(&SemanticShape::Numeric(ValueShape::Vector(2))).len(),
        1
    );
}

#[test]
fn empty_axes_are_reported() {
    let mut diagnostics = Vec::new();
    validate_shape(&ValueShape::Vector(3), span(), &mut diagnostics);
    validate_shape(&ValueShape::Scalar, span(), &mut diagnostics);
    assert!(diagnostics.is_empty());
    validate_shape(&ValueShape::Tensor { rows: 2, cols: 0 }, span(), &mut diagnostics);
    validate_shape(&ValueShape::SymmetricTensor(0), span(), &mut diagnostics);
    assert_eq!(diagnostics.len(), 2);
    assert_eq!(diagnostics[0].code, "TYPE_INVALID_AXIS");
    assert_eq!(diagnostics[0].message, "shape axes must have positive extents");
    assert_eq!(diagnostics[0].phase.as_deref(), Some("elaboration"));
}

#[test]
fn arity_errors_name_the_function() {
    let mut diagnostics = Vec::new();
    require_arity("dot", &[ExprId(0), ExprId(1)], 2, span(), &mut diagnostics);
    assert!(diagnostics.is_empty());
    require_arity("grad", &[ExprId(0), ExprId(1)], 1, span(), &mut diagnostics);
    assert_eq!(diagnostics.len(), 1);
    assert_eq!(diagnostics[0].code, "TYPE_ARITY");
    assert_eq!(
        diagnostics[0].message,
        "`grad` expects 1 argument(s), found 2"
    );
    assert_eq!(diagnostics[0].span, span());
}

#[test]
fn product_shapes() {
    let scalar = SemanticShape::Numeric(ValueShape::Scalar);
    let vector = SemanticShape::Numeric(ValueShape::Vector(3));
    let other_vector = SemanticShape::Numeric(ValueShape::Vector(2));
    let mut diagnostics = Vec::new();
    assert_eq!(multiply_shape(&scalar, &vector, span(), &mut diagnostics), vector);
    assert_eq!(multiply_shape(&vector, &scalar, span(), &mut diagnostics), vector);
    assert_eq!(multiply_shape(&vector, &vector, span(), &mut diagnostics), vector);
    assert_eq!(
        multiply_shape(&SemanticShape::Deferred, &SemanticShape::Boolean, span(), &mut diagnostics),
        SemanticShape::Deferred
    );
    assert_eq!(
        multiply_shape(&scalar, &SemanticShape::Deferred, span(), &mut diagnostics),
        SemanticShape::Deferred
    );
    assert!(diagnostics.is_empty());
    assert_eq!(
        multiply_shape(&vector, &other_vector, span(), &mut diagnostics),
        SemanticShape::Deferred
    );
    assert_eq!(
        multiply_shape(&scalar, &SemanticShape::Boolean, span(), &mut diagnostics),
        SemanticShape::Deferred
    );
    assert_eq!(diagnostics.len(), 2);
    assert_eq!(diagnostics[0].code, "TYPE_SHAPE_MISMATCH");
    assert_eq!(
        diagnostics[0].message,
        "multiplication has incompatible operand shapes"
    );
    assert!(is_numeric_or_deferred(&SemanticShape::Deferred));
    assert!(!is_numeric_or_deferred(&SemanticShape::Region));
}

#[test]
fn frame_merging() {
    let mut diagnostics = Vec::new();
    let a = Frame::Domain(DomainId(1));
    let b = Frame::Domain(DomainId(2));
    assert_eq!(merge_frame(&Frame::Neutral, &a, span(), &mut diagnostics), a);
    assert_eq!(merge_frame(&a, &Frame::Neutral, span(), &mut diagnostics), a);
    assert_eq!(merge_frame(&a, &a, span(), &mut diagnostics), a);
    assert_eq!(
        merge_frame(&Frame::Neutral, &Frame::Neutral, span(), &mut diagnostics),
        Frame::Neutral
    );
    assert!(diagnostics.is_empty());
    assert_eq!(merge_frame(&a, &b, span(), &mut diagnostics), a);
    assert_eq!(diagnostics.len(), 1);
    assert_eq!(diagnostics[0].code, "TYPE_FRAME_MISMATCH");
}

#[test]
fn duplicate_points_at_the_first_declaration() {
    let previous = SourceSpan::new(0, 2);
    let diagnostic = duplicate("field", "T", span(), previous);
    assert_eq!(diagnostic.code, "RESOLVE_DUPLICATE_NAME");
    assert_eq!(diagnostic.message, "duplicate field `T`");
    assert_eq!(diagnostic.related.len(), 1);
    assert_eq!(diagnostic.related[0].span, previous);
    assert_eq!(diagnostic.related[0].message, "first declared here");
    assert_eq!(diagnostic.phase.as_deref(), Some("elaboration"));
}

#[test]
fn error_and_advisory_severity() {
    let e = error("TYPE_X", "bad", span());
    assert_eq!(e.severity, SourceSeverity::Error);
    assert_eq!(e.phase.as_deref(), Some("elaboration"));
    let a = advisory("RESOLVE_UNDECLARED_PROVIDER", "unknown provider", span());
    assert_eq!(a.severity, SourceSeverity::Warning);
    assert_eq!(a.phase.as_deref(), Some("elaboration"));
}

#[test]
fn intrinsic_calls() {
    for name in ["boundary", "grad", "dot", "normal_component_plus", "zero_tensor", "time"] {
        assert!(is_intrinsic_call(name), "{name}");
    }
    for name in ["conductivity", "Grad", "", "gradient"] {
        assert!(!is_intrinsic_call(name), "{name}");
    }
}

#[test]
fn exact_literals_agree_exactly_when_values_agree() {
    assert_eq!(ExactLiteral::from_lexeme("1.50e1"), ExactLiteral::Integer(15));
    assert_eq!(ExactLiteral::from_lexeme("1.50e1"), ExactLiteral::from_lexeme("15"));
    assert_eq!(
        ExactLiteral::from_lexeme("150e-2"),
        ExactLiteral::Decimal {
            mantissa: 15,
            exponent: -1
        }
    );
    assert_eq!(ExactLiteral::from_lexeme("150e-2"), ExactLiteral::from_lexeme("1.5"));
    assert_eq!(ExactLiteral::from_lexeme("12.30e-1"), ExactLiteral::from_lexeme("1.23"));
    assert_eq!(ExactLiteral::from_lexeme("0012.5"), ExactLiteral::from_lexeme("12.5"));
    assert_ne!(ExactLiteral::from_lexeme("1.2e1"), ExactLiteral::from_lexeme("1.3e1"));
    assert_ne!(ExactLiteral::from_lexeme("1.2"), ExactLiteral::from_lexeme("12"));
}
