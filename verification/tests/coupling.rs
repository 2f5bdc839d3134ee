use scientia::scientific::{
    derive_coupling_graph, BinaryOp, BlockDerivative, BoundaryConditionDecl, BoundaryConditionKind,
    Continuity, CouplingReason, EquationDecl, Expr, FieldDecl, FieldRole, FormDecl, IntegralDecl, Measure,
    PropertyBinding, ScientificModel, SpaceFamily, SpaceSpec, UnknownBlock, ValueDecl, ValueShape,
};
use scientia::source::SourceSpan;

fn span() -> SourceSpan {
    SourceSpan { start: 0, end: 0 }
}

fn name(n: &str) -> Expr {
    Expr::Name { name: n.into(), span: span() }
}

fn field(n: &str, role: FieldRole) -> FieldDecl {
    FieldDecl {
        name: n.into(),
        role,
        shape: ValueShape::Scalar,
        space: SpaceSpec { family: SpaceFamily::H1, order: 1, continuity: Continuity::Continuous },
        domain: "Omega".into(),
        domain_span: span(),
        quantity_kind: None,
        quantity_kind_span: None,
        unit: None,
        unit_span: None,
        nominal: None,
        physical_min: None,
        physical_max: None,
        time_role: None,
        span: span(),
    }
}

fn empty_model() -> ScientificModel {
    ScientificModel {
        name: "m".into(),
        domains: vec![],
        fields: vec![],
        parameters: vec![],
        constants: vec![],
        sources: vec![],
        inputs: vec![],
        providers: vec![],
        properties: vec![],
        constitutive_laws: vec![],
        equations: vec![],
        forms: vec![],
        initial_conditions: vec![],
        boundary_conditions: vec![],
        interface_conditions: vec![],
        observables: vec![],
        invariants: vec![],
        objectives: vec![],
        verifications: vec![],
        span: span(),
    }
}

fn path(p: &[&str]) -> Vec<String> {
    p.iter().map(|s| s.to_string()).collect()
}

fn sample_model() -> ScientificModel {
    let mut m = empty_model();
    m.fields = vec![
        field("v", FieldRole::Unknown),
        field("u", FieldRole::State),
        field("phi", FieldRole::Test),
    ];
    m.parameters = vec![ValueDecl {
        name: "k".into(),
        quantity_kind: None,
        quantity_kind_span: None,
        unit: None,
        unit_span: None,
        value: Some(Expr::Binary {
            op: BinaryOp::Mul,
            lhs: Box::new(name("u")),
            rhs: Box::new(Expr::Number { lexeme: "2".into(), unit: None, span: span() }),
            span: span(),
        }),
        span: span(),
    }];
    m.properties = vec![PropertyBinding { name: "rho".into(), value: name("k"), span: span() }];
    m.equations = vec![EquationDecl {
        name: "mass".into(),
        domain: None,
        domain_span: None,
        lhs: name("rho"),
        rhs: name("v"),
        span: span(),
    }];
    m.forms = vec![FormDecl {
        name: "weak".into(),
        integrals: vec![IntegralDecl {
            measure: Measure::Cell("Omega".into()),
            target_span: span(),
            integrand: Expr::Binary {
                op: BinaryOp::Mul,
                lhs: Box::new(name("u")),
                rhs: Box::new(name("phi")),
                span: span(),
            },
            span: span(),
        }],
        span: span(),
    }];
    m.boundary_conditions = vec![BoundaryConditionDecl {
        name: "left".into(),
        region: Expr::Call {
            function: "boundary".into(),
            args: vec![Expr::String { value: "left".into(), span: span() }],
            span: span(),
        },
        kind: BoundaryConditionKind::Dirichlet,
        target: "u".into(),
        target_span: span(),
        value: name("k"),
        span: span(),
    }];
    m
}

#[test]
fn coupling_is_traced_through_definitions() {
    let g = derive_coupling_graph(&sample_model());
    assert_eq!(
        g.unknowns,
        vec![
            UnknownBlock { name: "u".into(), field: "u".into() },
            UnknownBlock { name: "v".into(), field: "v".into() },
        ]
    );
    assert_eq!(g.residual_blocks, path(&["mass", "weak"]));
    assert_eq!(g.edges.len(), 4);
    assert_eq!((g.edges[0].from.as_str(), g.edges[0].to.as_str()), ("u", "mass"));
    assert_eq!(g.edges[0].reason, CouplingReason::DefinedValueDependency("k".into()));
    assert_eq!(g.edges[0].path, path(&["u", "k", "rho", "mass"]));
    assert_eq!((g.edges[1].from.as_str(), g.edges[1].to.as_str()), ("v", "mass"));
    assert_eq!(g.edges[1].reason, CouplingReason::DirectFieldUse);
    assert_eq!(g.edges[1].path, path(&["v", "mass"]));
    assert_eq!((g.edges[2].from.as_str(), g.edges[2].to.as_str()), ("u", "u"));
    assert_eq!(g.edges[2].reason, CouplingReason::InterfaceTerm);
    assert_eq!(g.edges[2].path, path(&["u", "k", "u"]));
    assert_eq!((g.edges[3].from.as_str(), g.edges[3].to.as_str()), ("u", "weak"));
    assert_eq!(g.edges[3].reason, CouplingReason::DirectFieldUse);
    assert_eq!(g.edges[3].path, path(&["u", "weak"]));
    let grid: Vec<(String, String, bool)> = g
        .derivatives
        .iter()
        .map(|d: &BlockDerivative| (d.residual.clone(), d.unknown.clone(), d.structurally_nonzero))
        .collect();
    assert_eq!(
        grid,
        vec![
            ("mass".into(), "u".into(), true),
            ("mass".into(), "v".into(), true),
            ("weak".into(), "u".into(), true),
            ("weak".into(), "v".into(), false),
        ]
    );
}

#[test]
fn a_definition_cycle_ends_the_trace() {
    let mut m = empty_model();
    m.fields = vec![field("u", FieldRole::State)];
    m.properties = vec![
        PropertyBinding { name: "a".into(), value: name("b"), span: span() },
        PropertyBinding { name: "b".into(), value: name("a"), span: span() },
    ];
    m.equations = vec![EquationDecl {
        name: "r".into(),
        domain: None,
        domain_span: None,
        lhs: name("a"),
        rhs: name("u"),
        span: span(),
    }];
    let g = derive_coupling_graph(&m);
    assert_eq!(g.edges.len(), 1);
    assert_eq!(g.edges[0].path, path(&["u", "r"]));
    assert_eq!(g.derivatives.len(), 1);
    assert!(g.derivatives[0].structurally_nonzero);
}

#[test]
fn repeated_uses_give_one_edge() {
    let mut m = empty_model();
    m.fields = vec![field("u", FieldRole::Unknown)];
    let eq = |n: &str| EquationDecl {
        name: n.into(),
        domain: None,
        domain_span: None,
        lhs: name("u"),
        rhs: name("u"),
        span: span(),
    };
    m.equations = vec![eq("r"), eq("r")];
    let g = derive_coupling_graph(&m);
    assert_eq!(g.residual_blocks, path(&["r"]));
    assert_eq!(g.edges.len(), 1);
    assert_eq!(g.derivatives.len(), 1);
}

#[test]
fn later_value_declarations_win() {
    let mut m = empty_model();
    m.fields = vec![field("u", FieldRole::Unknown), field("w", FieldRole::Unknown)];
    let value = |n: &str, e: Option<Expr>| ValueDecl {
        name: n.into(),
        quantity_kind: None,
        quantity_kind_span: None,
        unit: None,
        unit_span: None,
        value: e,
        span: span(),
    };
    m.parameters = vec![value("c", Some(name("u")))];
    m.constants = vec![value("c", Some(name("w")))];
    m.sources = vec![value("c", None)];
    m.equations = vec![EquationDecl {
        name: "r".into(),
        domain: None,
        domain_span: None,
        lhs: name("c"),
        rhs: name("c"),
        span: span(),
    }];
    let g = derive_coupling_graph(&m);
    assert_eq!(g.edges.len(), 1);
    assert_eq!(g.edges[0].from, "w");
    assert_eq!(g.edges[0].path, path(&["w", "c", "r"]));
}
