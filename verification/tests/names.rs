use scientia::scientific::{
    binary_binding, binary_name, coordinate_name, field_role_name, provider_differentiability_name,
    provider_locality_name, provider_shape_name, shape_name, space_name, standard_constitutive_laws,
    BinaryOp, CoordinateSystem, DerivativeContract, FieldRole, ModuleDigest, ModuleSource,
    NoImports, PropertyLocality, SpaceFamily, ValueShape,
};
use scientia::text::{decimal_string, text_eq};

#[test]
fn binary_bindings_follow_precedence() {
    assert_eq!(binary_binding("="), Some((1, 2, BinaryOp::Eq)));
    assert_eq!(binary_binding("=="), Some((1, 2, BinaryOp::Eq)));
    assert_eq!(binary_binding("<"), Some((3, 4, BinaryOp::Lt)));
    assert_eq!(binary_binding("<="), Some((3, 4, BinaryOp::Le)));
    assert_eq!(binary_binding(">"), Some((3, 4, BinaryOp::Gt)));
    assert_eq!(binary_binding(">="), Some((3, 4, BinaryOp::Ge)));
    assert_eq!(binary_binding("+"), Some((5, 6, BinaryOp::Add)));
    assert_eq!(binary_binding("-"), Some((5, 6, BinaryOp::Sub)));
    assert_eq!(binary_binding("*"), Some((7, 8, BinaryOp::Mul)));
    assert_eq!(binary_binding("/"), Some((7, 8, BinaryOp::Div)));
    assert_eq!(binary_binding("^"), Some((10, 9, BinaryOp::Pow)));
    assert_eq!(binary_binding("->"), None);
    assert_eq!(binary_binding(""), None);
}

#[test]
fn operator_names_round_trip_through_bindings() {
    for op in [
        BinaryOp::Add,
        BinaryOp::Sub,
        BinaryOp::Mul,
        BinaryOp::Div,
        BinaryOp::Pow,
        BinaryOp::Eq,
        BinaryOp::Lt,
        BinaryOp::Le,
        BinaryOp::Gt,
        BinaryOp::Ge,
    ] {
        let (_, _, parsed) = binary_binding(binary_name(op)).unwrap();
        assert_eq!(parsed, op);
    }
}

#[test]
fn declaration_keywords() {
    assert_eq!(coordinate_name(&CoordinateSystem::Cartesian), "cartesian");
    assert_eq!(coordinate_name(&CoordinateSystem::Cylindrical), "cylindrical");
    assert_eq!(coordinate_name(&CoordinateSystem::Spherical), "spherical");
    assert_eq!(coordinate_name(&CoordinateSystem::Custom("polar".into())), "polar");
    assert_eq!(field_role_name(&FieldRole::State), "state");
    assert_eq!(field_role_name(&FieldRole::Unknown), "unknown");
    assert_eq!(field_role_name(&FieldRole::Coefficient), "coefficient");
    assert_eq!(field_role_name(&FieldRole::Derived), "derived");
    assert_eq!(space_name(&SpaceFamily::H1), "H1");
    assert_eq!(space_name(&SpaceFamily::Dg), "DG");
    assert_eq!(space_name(&SpaceFamily::HCurl), "HCurl");
    assert_eq!(provider_locality_name(&PropertyLocality::Pointwise), "pointwise");
    assert_eq!(provider_locality_name(&PropertyLocality::ElementConstant), "element_constant");
    assert_eq!(provider_locality_name(&PropertyLocality::ExternalProvider), "external");
    assert_eq!(
        provider_differentiability_name(&DerivativeContract::AnalyticProvided),
        "analytic_provided"
    );
    assert_eq!(
        provider_differentiability_name(&DerivativeContract::NoDerivative),
        "none"
    );
}

#[test]
fn shape_names() {
    assert_eq!(shape_name(&ValueShape::Scalar), "scalar");
    assert_eq!(shape_name(&ValueShape::Vector(3)), "vector(3)");
    assert_eq!(shape_name(&ValueShape::Tensor { rows: 2, cols: 10 }), "tensor(2,10)");
    assert_eq!(shape_name(&ValueShape::SymmetricTensor(3)), "tensor(3,3)");
    assert_eq!(provider_shape_name(&ValueShape::SymmetricTensor(3)), "symmetric_tensor(3)");
    assert_eq!(provider_shape_name(&ValueShape::Vector(255)), "vector(255)");
    assert_eq!(provider_shape_name(&ValueShape::Scalar), "scalar");
}

#[test]
fn standard_laws_are_listed_in_order() {
    assert_eq!(
        standard_constitutive_laws(),
        vec![
            "thermal.fourier",
            "diffusion.fick",
            "electrical.ohm",
            "mechanics.hooke_isotropic",
            "fluids.newtonian",
        ]
    );
}

#[test]
fn no_imports_refuses_every_module() {
    assert_eq!(NoImports.load("physics.thermal"), None);
    assert_eq!(NoImports.load(""), None);
}

#[test]
fn module_digest_text() {
    let digest = ModuleDigest("abc123".into());
    assert_eq!(digest.as_str(), "abc123");
}

#[test]
fn decimal_rendering_and_text_comparison() {
    assert_eq!(decimal_string(0), "0");
    assert_eq!(decimal_string(7), "7");
    assert_eq!(decimal_string(10), "10");
    assert_eq!(decimal_string(4096), "4096");
    assert_eq!(decimal_string(u64::MAX), u64::MAX.to_string());
    assert!(text_eq("grad", "grad"));
    assert!(!text_eq("grad", "grid"));
    assert!(!text_eq("grad", "gra"));
    assert!(text_eq("", ""));
}
