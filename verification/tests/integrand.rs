use scientia::structure::integrand::{
    collect_active_inputs, degree_of, expr_equivalent, relabel_axes, relabel_inputs, split_sign,
    swap_ids, Degree,
};
use scientia::tensor::{
    depends_on, remap_inputs, TensorAxis, TensorAxisId, TensorAxisRole, TensorBinaryOp,
    TensorInputId, TensorReductionOp, TensorScalarExpr, TensorUnaryOp,
};

fn input(id: u32, axes: &[u32]) -> TensorScalarExpr {
    TensorScalarExpr::Input {
        input: TensorInputId(id),
        indices: axes.iter().map(|a| TensorAxisId(*a)).collect(),
    }
}

fn constant(value: f64) -> TensorScalarExpr {
    TensorScalarExpr::Constant { bits: value.to_bits() }
}

fn bin(op: TensorBinaryOp, lhs: TensorScalarExpr, rhs: TensorScalarExpr) -> TensorScalarExpr {
    TensorScalarExpr::Binary { op, lhs: Box::new(lhs), rhs: Box::new(rhs) }
}

fn mul(lhs: TensorScalarExpr, rhs: TensorScalarExpr) -> TensorScalarExpr {
    bin(TensorBinaryOp::Mul, lhs, rhs)
}

fn un(op: TensorUnaryOp, arg: TensorScalarExpr) -> TensorScalarExpr {
    TensorScalarExpr::Unary { op, arg: Box::new(arg) }
}

fn neg(arg: TensorScalarExpr) -> TensorScalarExpr {
    un(TensorUnaryOp::Neg, arg)
}

fn sum_over(axis: u32, extent: usize, body: TensorScalarExpr) -> TensorScalarExpr {
    TensorScalarExpr::Reduction {
        op: TensorReductionOp::Sum,
        axis: TensorAxis { id: TensorAxisId(axis), extent, role: TensorAxisRole::Reduction },
        expression: Box::new(body),
    }
}

#[test]
fn swapping_test_and_trial_exchanges_their_reads() {
    let form = mul(input(0, &[1]), input(1, &[1]));
    let swapped = swap_ids(&form, TensorInputId(0), TensorInputId(1));
    assert_eq!(swapped, mul(input(1, &[1]), input(0, &[1])));
    assert_eq!(swap_ids(&swapped, TensorInputId(0), TensorInputId(1)), form);
    let other = swap_ids(&form, TensorInputId(0), TensorInputId(7));
    assert_eq!(other, mul(input(7, &[1]), input(1, &[1])));
}

#[test]
fn symmetric_mass_form_is_equivalent_to_its_exchange() {
    let form = sum_over(3, 4, mul(mul(constant(2.0), input(0, &[3])), input(1, &[3])));
    let swapped = swap_ids(&form, TensorInputId(0), TensorInputId(1));
    assert!(expr_equivalent(&form, &swapped));
    let advection = mul(input(0, &[]), bin(TensorBinaryOp::Sub, input(1, &[]), input(2, &[])));
    let swapped = swap_ids(&advection, TensorInputId(0), TensorInputId(1));
    assert!(!expr_equivalent(&advection, &swapped));
}

#[test]
fn products_compare_as_operand_multisets() {
    let k = || input(5, &[]);
    let u = || input(0, &[]);
    let v = || input(1, &[]);
    assert!(expr_equivalent(&mul(mul(k(), u()), v()), &mul(mul(k(), v()), u())));
    assert!(expr_equivalent(
        &bin(TensorBinaryOp::Add, u(), v()),
        &bin(TensorBinaryOp::Add, v(), u())
    ));
    assert!(expr_equivalent(
        &bin(TensorBinaryOp::Min, u(), v()),
        &bin(TensorBinaryOp::Min, v(), u())
    ));
    assert!(!expr_equivalent(
        &bin(TensorBinaryOp::Sub, u(), v()),
        &bin(TensorBinaryOp::Sub, v(), u())
    ));
    assert!(!expr_equivalent(&mul(u(), u()), &mul(u(), v())));
    assert!(!expr_equivalent(&mul(mul(u(), u()), v()), &mul(u(), v())));
    assert!(expr_equivalent(&constant(1.5), &constant(1.5)));
    assert!(!expr_equivalent(&constant(0.0), &constant(-0.0)));
    assert!(!expr_equivalent(&input(0, &[1]), &input(0, &[2])));
}

#[test]
fn overall_sign_is_split_off_products() {
    let a = || input(0, &[]);
    let b = || input(1, &[]);
    assert_eq!(split_sign(&neg(mul(a(), b()))), (-1, mul(a(), b())));
    assert_eq!(split_sign(&mul(neg(a()), b())), (-1, mul(a(), b())));
    assert_eq!(
        split_sign(&mul(a(), mul(constant(-2.0), b()))),
        (-1, mul(a(), mul(constant(2.0), b())))
    );
    assert_eq!(split_sign(&neg(neg(a()))), (1, a()));
    assert_eq!(split_sign(&sum_over(2, 3, neg(a()))), (-1, sum_over(2, 3, a())));
    let difference = bin(TensorBinaryOp::Add, a(), neg(b()));
    assert_eq!(split_sign(&difference), (1, bin(TensorBinaryOp::Add, a(), neg(b()))));
    assert_eq!(split_sign(&constant(-0.0)), (1, constant(-0.0)));
    assert_eq!(split_sign(&constant(f64::NEG_INFINITY)), (-1, constant(f64::INFINITY)));
    let nan = TensorScalarExpr::Constant { bits: f64::NAN.to_bits() | 0x8000_0000_0000_0000 };
    assert!(matches!(split_sign(&nan), (1, _)));
}

#[test]
fn axes_are_renumbered_by_first_appearance() {
    let expr = sum_over(
        9,
        3,
        mul(input(0, &[7, 9]), TensorScalarExpr::IndexEqual { lhs: TensorAxisId(9), rhs: TensorAxisId(4) }),
    );
    let mut seen = Vec::new();
    let relabeled = relabel_axes(&expr, &mut seen);
    assert_eq!(seen, vec![TensorAxisId(9), TensorAxisId(7), TensorAxisId(4)]);
    assert_eq!(
        relabeled,
        sum_over(
            0,
            3,
            mul(input(0, &[1, 0]), TensorScalarExpr::IndexEqual { lhs: TensorAxisId(0), rhs: TensorAxisId(2) }),
        )
    );
    let mut seen = Vec::new();
    let other = sum_over(
        5,
        3,
        mul(input(0, &[2, 5]), TensorScalarExpr::IndexEqual { lhs: TensorAxisId(5), rhs: TensorAxisId(8) }),
    );
    assert_eq!(relabel_axes(&other, &mut seen), relabeled);
}

#[test]
fn inputs_are_relabelled_and_remapped() {
    let expr = mul(input(3, &[0]), input(4, &[0]));
    let relabeled = relabel_inputs(&expr, &[(TensorInputId(3), TensorInputId(0))]);
    assert_eq!(relabeled, mul(input(0, &[0]), input(4, &[0])));
    let map = [(TensorInputId(3), TensorInputId(1)), (TensorInputId(4), TensorInputId(2))];
    assert_eq!(remap_inputs(&expr, &map), Ok(mul(input(1, &[0]), input(2, &[0]))));
    assert_eq!(
        remap_inputs(&expr, &[(TensorInputId(4), TensorInputId(2))]),
        Err(TensorInputId(3))
    );
    assert!(depends_on(&expr, TensorInputId(4)));
    assert!(!depends_on(&expr, TensorInputId(5)));
    assert!(depends_on(&sum_over(0, 2, neg(input(9, &[0]))), TensorInputId(9)));
}

#[test]
fn degree_in_active_inputs() {
    let active = vec![TensorInputId(1), TensorInputId(0)];
    let u = || input(0, &[]);
    let v = || input(1, &[]);
    let k = || input(5, &[]);
    let mut offending = Vec::new();
    assert_eq!(degree_of(&constant(3.0), &active, &mut offending), Degree::Zero);
    assert_eq!(degree_of(&mul(k(), u()), &active, &mut offending), Degree::One);
    assert_eq!(degree_of(&bin(TensorBinaryOp::Div, u(), k()), &active, &mut offending), Degree::One);
    assert_eq!(degree_of(&bin(TensorBinaryOp::Add, u(), k()), &active, &mut offending), Degree::One);
    assert_eq!(degree_of(&neg(u()), &active, &mut offending), Degree::One);
    assert!(offending.is_empty());
    assert_eq!(degree_of(&mul(v(), u()), &active, &mut offending), Degree::Unknown);
    assert_eq!(offending, vec![TensorInputId(0), TensorInputId(1)]);
    let mut offending = Vec::new();
    assert_eq!(
        degree_of(&bin(TensorBinaryOp::Div, k(), u()), &active, &mut offending),
        Degree::Unknown
    );
    assert_eq!(offending, vec![TensorInputId(0)]);
    let mut offending = Vec::new();
    assert_eq!(
        degree_of(&un(TensorUnaryOp::Sin, mul(k(), v())), &active, &mut offending),
        Degree::Unknown
    );
    assert_eq!(offending, vec![TensorInputId(1)]);
    let mut out = vec![TensorInputId(4)];
    collect_active_inputs(&mul(v(), mul(k(), u())), &active, &mut out);
    assert_eq!(out, vec![TensorInputId(0), TensorInputId(1), TensorInputId(4)]);
}
