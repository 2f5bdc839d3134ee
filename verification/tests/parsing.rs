use scientia::lexer::lex;
use scientia::scientific::parser::Parser;
use scientia::scientific::{
    Continuity, FieldRole, QuantityLiteral, ScientificError, SpaceFamily, SpaceSpec, TimeRole, ValueShape,
};

fn parser(text: &str) -> Parser {
    Parser::new(lex(text).unwrap())
}

fn messages(p: &Parser) -> Vec<String> {
    p.errors
        .iter()
        .map(|e| match e {
            ScientificError::Syntax { message, .. } => message.clone(),
            _ => String::new(),
        })
        .collect()
}

#[test]
fn reads_a_field_with_attributes() {
    let mut p = parser(
        "T: state vector(3) H1(order = 2) on Omega { quantity = Temperature; unit = W/(m*K)^2; \
         nominal = 300 K; min = 0 K; time_role = algebraic; };",
    );
    let f = p.field().unwrap();
    assert!(p.errors.is_empty(), "{:?}", messages(&p));
    assert_eq!(f.name, "T");
    assert_eq!(f.role, FieldRole::State);
    assert_eq!(f.shape, ValueShape::Vector(3));
    assert_eq!(
        f.space,
        SpaceSpec { family: SpaceFamily::H1, order: 2, continuity: Continuity::Continuous }
    );
    assert_eq!(f.domain, "Omega");
    assert_eq!(f.quantity_kind.as_deref(), Some("Temperature"));
    assert_eq!(f.unit.as_deref(), Some("W/(m*K)^2"));
    assert_eq!(
        f.nominal,
        Some(QuantityLiteral { lexeme: "300".into(), unit: "K".into(), kind: "Temperature".into() })
    );
    assert_eq!(
        f.physical_min,
        Some(QuantityLiteral { lexeme: "0".into(), unit: "K".into(), kind: "Temperature".into() })
    );
    assert_eq!(f.time_role, Some(TimeRole::Algebraic));
    assert_eq!(p.i, p.tokens.len() - 1);
}

#[test]
fn reads_a_tensor_field_with_a_bare_order() {
    let mut p = parser("sigma: unknown tensor(2, 3) DG(1) on Plate");
    let f = p.field().unwrap();
    assert!(p.errors.is_empty(), "{:?}", messages(&p));
    assert_eq!(f.shape, ValueShape::Tensor { rows: 2, cols: 3 });
    assert_eq!(
        f.space,
        SpaceSpec { family: SpaceFamily::Dg, order: 1, continuity: Continuity::Discontinuous }
    );
    assert_eq!(f.domain, "Plate");
    assert_eq!(f.quantity_kind, None);
}

#[test]
fn reports_unknown_roles_spaces_and_attributes() {
    let mut p = parser("u: mystery H3(2.5) on Omega { colour = red; time_role = sometimes; }");
    let f = p.field().unwrap();
    assert_eq!(f.role, FieldRole::Unknown);
    assert_eq!(f.space.family, SpaceFamily::H1);
    assert_eq!(f.space.order, 1);
    assert_eq!(f.domain, "Omega");
    assert_eq!(f.time_role, None);
    assert_eq!(
        messages(&p),
        vec![
            "unknown field role `mystery`".to_string(),
            "expected an integer from 0 through 255".to_string(),
            "unsupported function space `H3`".to_string(),
            "unknown field attribute `colour`".to_string(),
            "unknown time role `sometimes`".to_string(),
        ]
    );
}

#[test]
fn a_missing_name_gives_no_field() {
    let mut p = parser("42: state H1(1) on Omega;");
    assert!(p.field().is_none());
    assert_eq!(messages(&p), vec!["expected identifier".to_string()]);
    assert_eq!(p.i, 1);
}

#[test]
fn integer_exponents_and_quantities_need_numbers() {
    let mut p = parser("q: state H1(1) on Omega { unit = m^2.5; nominal = K; }");
    let f = p.field().unwrap();
    assert_eq!(f.unit.as_deref(), Some("m"));
    assert_eq!(f.nominal, None);
    assert_eq!(
        messages(&p),
        vec!["expected an integer unit exponent".to_string(), "expected quantity value".to_string()]
    );
}

#[test]
fn a_missing_domain_takes_the_next_token() {
    let mut p = parser("u: state H1(1) { unit = K; }");
    let f = p.field().unwrap();
    assert_eq!(f.domain, "Omega");
    assert_eq!(f.unit, None);
    assert_eq!(
        messages(&p),
        vec!["field requires `on <domain>`".to_string(), "expected identifier".to_string()]
    );
}
