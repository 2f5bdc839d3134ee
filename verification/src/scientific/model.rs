//! The declarations of a scientific model and the expressions they hold.

use vstd::prelude::*;
use crate::source::SourceSpan;
use crate::scientific::{
    BinaryOp, BoundaryConditionKind, DomainDecl, FieldRole, InputDeclKind, Measure, ProviderInputDecl,
    SpaceSpec, TimeRole, UnaryOp, ValueShape, PropertyLocality, DerivativeContract,
};

verus! {

/// A quantity literal: its number as spelled in the source, and the names of its unit and of
/// its quantity kind.
#[derive(Clone, Debug, PartialEq)]
pub struct QuantityLiteral {
    pub lexeme: String,
    pub unit: String,
    pub kind: String,
}

/// An expression of a scientific module. A number keeps its exact source spelling; its value
/// is that spelling read as a double.
#[derive(Debug)]
pub enum Expr {
    Number { lexeme: String, unit: Option<String>, span: SourceSpan },
    String { value: String, span: SourceSpan },
    Name { name: String, span: SourceSpan },
    Unary { op: UnaryOp, arg: Box<Expr>, span: SourceSpan },
    Binary { op: BinaryOp, lhs: Box<Expr>, rhs: Box<Expr>, span: SourceSpan },
    Call { function: String, args: Vec<Expr>, span: SourceSpan },
    Index { value: Box<Expr>, indices: Vec<Expr>, span: SourceSpan },
    Vector { elements: Vec<Expr>, span: SourceSpan },
}

/// `field NAME: role shape space on DOMAIN { ... };` Quantity kinds and units are held by
/// their names.
#[derive(Clone, Debug, PartialEq)]
pub struct FieldDecl {
    pub name: String,
    pub role: FieldRole,
    pub shape: ValueShape,
    pub space: SpaceSpec,
    pub domain: String,
    pub domain_span: SourceSpan,
    pub quantity_kind: Option<String>,
    pub quantity_kind_span: Option<SourceSpan>,
    pub unit: Option<String>,
    pub unit_span: Option<SourceSpan>,
    pub nominal: Option<QuantityLiteral>,
    pub physical_min: Option<QuantityLiteral>,
    pub physical_max: Option<QuantityLiteral>,
    pub time_role: Option<TimeRole>,
    pub span: SourceSpan,
}

/// A `parameter`, `constant` or `source` declaration, with its defining expression if any.
#[derive(Debug)]
pub struct ValueDecl {
    pub name: String,
    pub quantity_kind: Option<String>,
    pub quantity_kind_span: Option<SourceSpan>,
    pub unit: Option<String>,
    pub unit_span: Option<SourceSpan>,
    pub value: Option<Expr>,
    pub span: SourceSpan,
}

/// `input field` / `input value` declarations.
#[derive(Clone, Debug, PartialEq)]
pub struct InputDecl {
    pub name: String,
    pub kind: InputDeclKind,
    pub quantity_kind: Option<String>,
    pub quantity_kind_span: Option<SourceSpan>,
    pub unit: Option<String>,
    pub unit_span: Option<SourceSpan>,
    pub domain: Option<String>,
    pub domain_span: Option<SourceSpan>,
    pub span: SourceSpan,
}

/// `property NAME = EXPR;`
#[derive(Debug)]
pub struct PropertyBinding {
    pub name: String,
    pub value: Expr,
    pub span: SourceSpan,
}

/// `constitutive NAME = EXPR;`
#[derive(Debug)]
pub struct ConstitutiveBinding {
    pub name: String,
    pub law: Expr,
    pub span: SourceSpan,
}

/// The validity range of one provider input.
#[derive(Clone, Debug, PartialEq)]
pub struct ProviderDomainBound {
    pub input: String,
    pub input_span: SourceSpan,
    pub min: QuantityLiteral,
    pub max: QuantityLiteral,
    pub span: SourceSpan,
}

/// A property provider signature.
#[derive(Clone, Debug, PartialEq)]
pub struct ProviderDecl {
    pub name: String,
    pub inputs: Vec<ProviderInputDecl>,
    pub output_kind: String,
    pub output_kind_span: SourceSpan,
    pub unit: Option<String>,
    pub unit_span: Option<SourceSpan>,
    pub shape: ValueShape,
    pub locality: PropertyLocality,
    pub differentiability: DerivativeContract,
    pub domain: Vec<ProviderDomainBound>,
    pub span: SourceSpan,
}

/// `equation NAME [on DOMAIN]: LHS = RHS;`
#[derive(Debug)]
pub struct EquationDecl {
    pub name: String,
    pub domain: Option<String>,
    pub domain_span: Option<SourceSpan>,
    pub lhs: Expr,
    pub rhs: Expr,
    pub span: SourceSpan,
}

/// `form NAME { integral ...; }`
#[derive(Debug)]
pub struct FormDecl {
    pub name: String,
    pub integrals: Vec<IntegralDecl>,
    pub span: SourceSpan,
}

/// One integral of a form.
#[derive(Debug)]
pub struct IntegralDecl {
    pub measure: Measure,
    pub target_span: SourceSpan,
    pub integrand: Expr,
    pub span: SourceSpan,
}

/// `initial TARGET = EXPR;`
#[derive(Debug)]
pub struct ConditionDecl {
    pub target: String,
    pub value: Expr,
    pub span: SourceSpan,
}

/// A boundary or interface condition on a field.
#[derive(Debug)]
pub struct BoundaryConditionDecl {
    pub name: String,
    pub region: Expr,
    pub kind: BoundaryConditionKind,
    pub target: String,
    pub target_span: SourceSpan,
    pub value: Expr,
    pub span: SourceSpan,
}

/// `observable NAME = EXPR;` and `invariant NAME = EXPR;`
#[derive(Debug)]
pub struct ObservableDecl {
    pub name: String,
    pub value: Expr,
    pub span: SourceSpan,
}

/// What an objective asks of its expression.
#[derive(Clone, Copy, Debug, PartialEq, Eq, Structural)]
pub enum ObjectiveSense {
    Minimize,
    Maximize,
    Measure,
}

/// `objective NAME { minimize|maximize|measure EXPR; }`
#[derive(Debug)]
pub struct ObjectiveDecl {
    pub name: String,
    pub sense: ObjectiveSense,
    pub value: Expr,
    pub span: SourceSpan,
}

/// A verification annotation: a name and its arguments, by increasing argument name.
#[derive(Debug)]
pub struct VerificationAnnotation {
    pub name: String,
    pub args: Vec<(String, Expr)>,
    pub span: SourceSpan,
}

/// A value with the span it was read from.
#[derive(Clone, Debug, PartialEq)]
pub struct Spanned<T> {
    pub value: T,
    pub span: SourceSpan,
}

/// A scientific module: its name, the modules it uses, and its models.
#[derive(Debug)]
pub struct ScientificModule {
    pub schema: String,
    pub name: String,
    pub imports: Vec<Spanned<String>>,
    pub models: Vec<ScientificModel>,
    pub span: SourceSpan,
}

/// A scientific model: the declarations of a module.
#[derive(Debug)]
pub struct ScientificModel {
    pub name: String,
    pub domains: Vec<DomainDecl>,
    pub fields: Vec<FieldDecl>,
    pub parameters: Vec<ValueDecl>,
    pub constants: Vec<ValueDecl>,
    pub sources: Vec<ValueDecl>,
    pub inputs: Vec<InputDecl>,
    pub providers: Vec<ProviderDecl>,
    pub properties: Vec<PropertyBinding>,
    pub constitutive_laws: Vec<ConstitutiveBinding>,
    pub equations: Vec<EquationDecl>,
    pub forms: Vec<FormDecl>,
    pub initial_conditions: Vec<ConditionDecl>,
    pub boundary_conditions: Vec<BoundaryConditionDecl>,
    pub interface_conditions: Vec<BoundaryConditionDecl>,
    pub observables: Vec<ObservableDecl>,
    pub invariants: Vec<ObservableDecl>,
    pub objectives: Vec<ObjectiveDecl>,
    pub verifications: Vec<VerificationAnnotation>,
    pub span: SourceSpan,
}

} // verus!
