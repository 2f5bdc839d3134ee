use scientia::scientific::{
    derive_coupling_graph, parse_expression, parse_expression_checked, parse_scientific_module,
    parse_scientific_module_checked, BinaryOp, CoordinateSystem, DerivativeContract, Expr, InputDeclKind, Measure,
    PropertyLocality, ScientificError, ValueShape,
};

const HEAT: &str = r#"
module examples.nonlinear_heat;
use physics.thermal.fourier;
model NonlinearHeat {
  domain Omega { dimension = 2; coordinates = cartesian; }
  field T: state scalar H1(order=1) on Omega { quantity = ThermodynamicTemperature; unit = K; nominal = 300 K; time_role = differential; };
  property rho = density(T);
  property cp = specific_heat(T);
  property k = thermal_conductivity(T);
  source Q: VolumetricHeatSource;
  equation energy on Omega { rho * cp * dt(T) - div(k * grad(T)) = Q; }
  initial { T = exact_T(0); }
  observable total_energy { integrate(rho * cp * T); }
}
"#;

fn messages(r: Result<scientia::scientific::ScientificModule, Vec<ScientificError>>) -> Vec<String> {
    match r {
        Ok(_) => vec![],
        Err(es) => es
            .into_iter()
            .map(|e| match e {
                ScientificError::Syntax { message, .. } => message,
                _ => String::new(),
            })
            .collect(),
    }
}

#[test]
fn parses_structured_heat_source() {
    // The import is intentionally unresolved here: parsing and module resolution are separate phases.
    let m = parse_scientific_module(HEAT).unwrap();
    assert_eq!(m.name, "examples.nonlinear_heat");
    assert_eq!(m.models[0].properties.len(), 3);
    assert_eq!(m.models[0].equations.len(), 1);
    let graph = derive_coupling_graph(&m.models[0]);
    assert!(graph.edges.iter().any(|e| e.from == "T" && e.to == "energy"));
}

#[test]
fn heat_module_parts_are_read_in_full() {
    let m = parse_scientific_module(HEAT).unwrap();
    assert_eq!(m.schema, "scientia-scientific/1");
    assert_eq!(m.imports.len(), 1);
    assert_eq!(m.imports[0].value, "physics.thermal.fourier");
    let model = &m.models[0];
    assert_eq!(model.name, "NonlinearHeat");
    assert_eq!(model.domains.len(), 1);
    assert_eq!(model.domains[0].dimension, 2);
    assert_eq!(model.domains[0].coordinates, CoordinateSystem::Cartesian);
    assert_eq!(model.fields.len(), 1);
    assert_eq!(model.sources.len(), 1);
    assert_eq!(model.sources[0].quantity_kind.as_deref(), Some("VolumetricHeatSource"));
    assert_eq!(model.initial_conditions.len(), 1);
    assert_eq!(model.initial_conditions[0].target, "T");
    assert_eq!(model.observables.len(), 1);
    assert_eq!(model.equations[0].domain.as_deref(), Some("Omega"));
}

#[test]
fn a_module_without_a_name_is_main() {
    let m = parse_scientific_module("model M { }").unwrap();
    assert_eq!(m.name, "main");
    assert_eq!(m.models.len(), 1);
    assert_eq!(m.span.start, 0);
    assert_eq!(m.span.end, 11);
}

#[test]
fn unknown_declarations_are_reported() {
    assert_eq!(
        messages(parse_scientific_module("model M { bogus; }")),
        vec!["unknown model declaration".to_string()]
    );
    assert_eq!(
        messages(parse_scientific_module("thing;")),
        vec!["expected `model` declaration".to_string()]
    );
}

#[test]
fn lexing_errors_come_alone() {
    let errors = messages(parse_scientific_module("model M { \"open"));
    assert_eq!(errors.len(), 1);
}

#[test]
fn reads_a_provider() {
    let m = parse_scientific_module(
        "model M { provider k(T: ThermodynamicTemperature, mat: selector) -> ThermalConductivity { \
         unit = W/(m*K); shape = tensor(3, 3); locality = element_constant; differentiability = automatic; \
         domain { T in [200 K, 400 K]; } }; }",
    )
    .unwrap();
    let p = &m.models[0].providers[0];
    assert_eq!(p.name, "k");
    assert_eq!(p.inputs.len(), 2);
    assert_eq!(p.inputs[0].kind.as_deref(), Some("ThermodynamicTemperature"));
    assert_eq!(p.inputs[1].kind, None);
    assert_eq!(p.output_kind, "ThermalConductivity");
    assert_eq!(p.unit.as_deref(), Some("W/(m*K)"));
    assert_eq!(p.shape, ValueShape::Tensor { rows: 3, cols: 3 });
    assert_eq!(p.locality, PropertyLocality::ElementConstant);
    assert_eq!(p.differentiability, DerivativeContract::Automatic);
    assert_eq!(p.domain.len(), 1);
    assert_eq!(p.domain[0].input, "T");
    assert_eq!(p.domain[0].min.lexeme, "200");
    assert_eq!(p.domain[0].max.unit, "K");
}

#[test]
fn provider_errors_are_reported() {
    assert_eq!(
        messages(parse_scientific_module("model M { provider k(T: X) K; }")),
        vec!["provider requires `-> QuantityKind`".to_string()]
    );
    assert_eq!(
        messages(parse_scientific_module("model M { provider k() -> K { locality = far; } }")),
        vec!["unknown provider locality `far`".to_string()]
    );
}

#[test]
fn reads_inputs_and_reports_their_mistakes() {
    let m = parse_scientific_module("model M { input field u: Velocity [mps] on Omega; input value g; }").unwrap();
    assert_eq!(m.models[0].inputs.len(), 2);
    assert_eq!(m.models[0].inputs[0].kind, InputDeclKind::Field);
    assert_eq!(m.models[0].inputs[0].domain.as_deref(), Some("Omega"));
    assert_eq!(m.models[0].inputs[1].kind, InputDeclKind::Value);
    assert_eq!(
        messages(parse_scientific_module("model M { input field u; }")),
        vec!["input field `u` must declare `on <domain>`".to_string()]
    );
    assert_eq!(
        messages(parse_scientific_module("model M { input value g = 3; }")),
        vec!["input `g` cannot carry a definition; declare a `source`, `parameter`, or `property` instead".to_string()]
    );
}

#[test]
fn input_without_field_or_value_is_a_name() {
    assert_eq!(messages(parse_scientific_module("model M { input = 3; }")), vec!["unknown model declaration".to_string()]);
}

#[test]
fn reads_forms_and_measures() {
    let m = parse_scientific_module("model M { form a { cell(Omega): u * v; boundary(Gamma): g; } }").unwrap();
    let f = &m.models[0].forms[0];
    assert_eq!(f.integrals.len(), 2);
    assert_eq!(f.integrals[0].measure, Measure::Cell("Omega".to_string()));
    assert_eq!(f.integrals[1].measure, Measure::Boundary("Gamma".to_string()));
    assert_eq!(
        messages(parse_scientific_module("model M { form a { volume(Omega): u; } }")),
        vec!["unknown measure `volume`".to_string()]
    );
}

#[test]
fn annotations_keep_keys_in_order_and_the_last_value() {
    let m = parse_scientific_module("model M { @check(z = 1, a = 2, z = 3); }").unwrap();
    let v = &m.models[0].verifications[0];
    assert_eq!(v.name, "check");
    let keys: Vec<&str> = v.args.iter().map(|(k, _)| k.as_str()).collect();
    assert_eq!(keys, vec!["a", "z"]);
    match &v.args[1].1 {
        Expr::Number { lexeme, .. } => assert_eq!(lexeme, "3"),
        other => panic!("unexpected {:?}", other),
    }
}

#[test]
fn domains_read_custom_coordinates() {
    let m = parse_scientific_module("model M { domain D { dimension = 3; coordinates = toroidal; } }").unwrap();
    assert_eq!(m.models[0].domains[0].dimension, 3);
    assert_eq!(m.models[0].domains[0].coordinates, CoordinateSystem::Custom("toroidal".to_string()));
}

#[test]
fn boundary_and_objective_declarations() {
    let m = parse_scientific_module(
        "model M { boundary wall on Gamma { dirichlet T = 300 K; } interface i on S { continuity T = 0; } \
         objective cost { minimize integrate(T); } }",
    )
    .unwrap();
    assert_eq!(m.models[0].boundary_conditions.len(), 1);
    assert_eq!(m.models[0].interface_conditions.len(), 1);
    assert_eq!(m.models[0].objectives.len(), 1);
    assert_eq!(
        messages(parse_scientific_module("model M { boundary wall on Gamma { sticky T = 0; } }")),
        vec!["unknown boundary condition `sticky`".to_string()]
    );
}

#[test]
fn parses_one_expression() {
    match parse_expression("a + b * c").unwrap() {
        Expr::Binary { op, rhs, .. } => {
            assert_eq!(op, BinaryOp::Add);
            assert!(matches!(*rhs, Expr::Binary { op: BinaryOp::Mul, .. }));
        },
        other => panic!("unexpected {:?}", other),
    }
    match parse_expression("a b") {
        Err(ScientificError::Syntax { message, .. }) => assert_eq!(message, "expected end of expression"),
        other => panic!("unexpected {:?}", other),
    }
    assert!(parse_expression("").is_err());
}

#[test]
fn checked_readers_agree_on_ascii_text() {
    assert!(parse_scientific_module_checked("model M { }").unwrap().is_ok());
    assert!(parse_expression_checked("f(x, 2)").unwrap().is_ok());
}

#[test]
fn syntax_errors_become_parse_diagnostics() {
    match scientia::scientific::parse_scientific_module_diagnostics("model M { bogus; }") {
        Err(ds) => {
            assert_eq!(ds.len(), 1);
            assert_eq!(ds[0].code, "PARSE_SYNTAX");
            assert_eq!(ds[0].message, "unknown model declaration");
            assert_eq!(ds[0].phase.as_deref(), Some("parsing"));
        },
        Ok(_) => panic!("expected diagnostics"),
    }
    assert!(scientia::scientific::parse_scientific_module_diagnostics("model M { }").is_ok());
}

#[test]
fn input_is_a_soft_keyword() {
    let m = parse_scientific_module("model M { provider p(input: Pressure) -> Density; property k = input * 2; }").unwrap();
    assert_eq!(m.models[0].providers[0].inputs[0].name, "input");
    assert_eq!(m.models[0].properties.len(), 1);
    assert!(m.models[0].inputs.is_empty());
}
