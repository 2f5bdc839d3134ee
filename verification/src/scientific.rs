//! The authored scientific vocabulary: declarations, shapes, spaces, operators, property and
//! coupling semantics, and the errors of reading a scientific module.

use vstd::prelude::*;
use crate::source::{SourceDiagnostic, SourceSpan, is_fresh_diagnostic};
use crate::text::{decimal, push_decimal, text_eq};

pub mod model;
pub mod coupling;
pub mod parser;

pub use model::{
    BoundaryConditionDecl, ConditionDecl, ConstitutiveBinding, EquationDecl, Expr, FieldDecl, FormDecl,
    InputDecl, IntegralDecl, ObjectiveDecl, ObjectiveSense, ObservableDecl, PropertyBinding, ProviderDecl,
    ProviderDomainBound, QuantityLiteral, ScientificModel, ScientificModule, Spanned, ValueDecl,
    VerificationAnnotation,
};
pub use coupling::derive_coupling_graph;
pub use parser::{
    parse_expression, parse_expression_checked, parse_scientific_module, parse_scientific_module_checked,
    parse_scientific_module_diagnostics,
};


verus! {

pub const SCIENTIFIC_SCHEMA: &'static str = "scientia-scientific/1";

/// `domain NAME(dimension) coordinates ...;`
#[derive(Clone, Debug, PartialEq)]
pub struct DomainDecl {
    pub name: String,
    pub dimension: u8,
    pub coordinates: CoordinateSystem,
    pub coordinates_span: SourceSpan,
    pub span: SourceSpan,
}

#[derive(Clone, Debug, PartialEq, Eq)]
pub enum CoordinateSystem {
    Cartesian,
    Cylindrical,
    Spherical,
    Custom(String),
}

#[derive(Clone, Copy, Debug, PartialEq, Eq, Structural)]
pub enum FieldRole {
    State,
    Unknown,
    Test,
    Trial,
    Coefficient,
    Parameter,
    Derived,
}

#[derive(Clone, Copy, Debug, PartialEq, Eq, Structural)]
pub enum ValueShape {
    Scalar,
    Vector(u8),
    Tensor { rows: u8, cols: u8 },
    SymmetricTensor(u8),
}

#[derive(Clone, Debug, PartialEq, Eq, Structural)]
pub struct SpaceSpec {
    pub family: SpaceFamily,
    pub order: u8,
    pub continuity: Continuity,
}

#[derive(Clone, Debug, PartialEq, Eq, PartialOrd, Ord, Structural)]
pub enum SpaceFamily {
    H1,
    L2,
    HCurl,
    HDiv,
    Dg,
}

#[derive(Clone, Debug, PartialEq, Eq, Structural)]
pub enum Continuity {
    Continuous,
    Discontinuous,
    Tangential,
    Normal,
}

/// Whether an `input` declaration supplies field data on a domain or one constant value.
#[derive(Clone, Copy, Debug, PartialEq, Eq, Structural)]
pub enum InputDeclKind {
    Field,
    Value,
}

/// One input of a `provider` signature. `kind` is `None` for the `selector` pseudo-kind, a
/// non-physical integer catalog selector, and otherwise names a quantity kind.
#[derive(Clone, Debug, PartialEq)]
pub struct ProviderInputDecl {
    pub name: String,
    pub kind: Option<String>,
    pub kind_span: SourceSpan,
    pub span: SourceSpan,
}

/// Where an integral is taken.
#[derive(Clone, Debug, PartialEq, Eq)]
pub enum Measure {
    Cell(String),
    Boundary(String),
    InteriorFacet(String),
    Interface(String),
    Point(String),
}

#[derive(Clone, Debug, PartialEq, Eq, Structural)]
pub enum BoundaryConditionKind {
    Dirichlet,
    Neumann,
    Robin,
    Interface,
}

#[derive(Clone, Copy, Debug, PartialEq, Eq, Structural)]
pub enum UnaryOp {
    Neg,
}

#[derive(Clone, Copy, Debug, PartialEq, Eq, Structural)]
pub enum BinaryOp {
    Add,
    Sub,
    Mul,
    Div,
    Pow,
    Eq,
    Lt,
    Le,
    Gt,
    Ge,
}

/// An error of reading, resolving or evaluating a scientific module.
#[derive(Clone, Debug, PartialEq)]
pub enum ScientificError {
    Syntax { message: String, span: SourceSpan },
    Duplicate(String),
    UnknownName(String),
    ImportCycle { name: String, span: SourceSpan },
    MissingModule { name: String, span: SourceSpan },
    Quantity(String),
    Property(String),
}

/// `` `name` `` quoted in backticks after a leading text.
pub open spec fn quoted(lead: Seq<char>, name: Seq<char>) -> Seq<char> {
    lead + seq!['`'] + name + seq!['`']
}

/// The text of a span as its `Debug` form shows it.
pub open spec fn span_text(span: SourceSpan) -> Seq<char> {
    "SourceSpan { start: "@ + decimal(span.start as nat) + ", end: "@ + decimal(span.end as nat) + " }"@
}

/// The message that describes an error.
pub open spec fn error_message(e: ScientificError) -> Seq<char> {
    match e {
        ScientificError::Syntax { message, span } => "syntax error at "@ + span_text(span) + ": "@
            + message@,
        ScientificError::Duplicate(name) => quoted("duplicate declaration "@, name@),
        ScientificError::UnknownName(name) => quoted("unknown name "@, name@),
        ScientificError::ImportCycle { name, .. } => quoted("import cycle through "@, name@),
        ScientificError::MissingModule { name, .. } => quoted("missing imported module "@, name@),
        ScientificError::Quantity(message) => "quantity error: "@ + message@,
        ScientificError::Property(message) => "property evaluation failed: "@ + message@,
    }
}

/// The code, message, span and phase of the diagnostic that reports an error.
pub open spec fn error_diagnostic_parts(e: ScientificError) -> (Seq<char>, Seq<char>, SourceSpan, Seq<char>) {
    let none = SourceSpan { start: 0, end: 0 };
    match e {
        ScientificError::Syntax { message, span } => ("PARSE_SYNTAX"@, message@, span, "parsing"@),
        ScientificError::Duplicate(name) => (
            "RESOLVE_DUPLICATE_NAME"@,
            quoted("duplicate declaration "@, name@),
            none,
            "resolution"@,
        ),
        ScientificError::UnknownName(name) => (
            "RESOLVE_UNKNOWN_NAME"@,
            quoted("unknown name "@, name@),
            none,
            "resolution"@,
        ),
        ScientificError::ImportCycle { name, span } => (
            "RESOLVE_IMPORT_CYCLE"@,
            quoted("import cycle through "@, name@),
            span,
            "resolution"@,
        ),
        ScientificError::MissingModule { name, span } => (
            "RESOLVE_MISSING_MODULE"@,
            quoted("missing imported module "@, name@),
            span,
            "resolution"@,
        ),
        ScientificError::Quantity(message) => ("TYPE_QUANTITY"@, message@, none, "elaboration"@),
        ScientificError::Property(message) => ("PROPERTY_EVALUATION"@, message@, none, "evaluation"@),
    }
}

fn quote(lead: &str, name: &String) -> (s: String)
    ensures
        s@ == quoted(lead@, name@),
{
    let mut s = lead.to_owned();
    s.append("`");
    s.append(name.as_str());
    s.append("`");
    proof {
        reveal_strlit("`");
    }
    s
}

impl ScientificError {
    /// The human-readable message of the error.
    pub fn describe(&self) -> (s: String)
        ensures
            s@ == error_message(*self),
    {
        match self {
            ScientificError::Syntax { message, span } => {
                let mut s = "syntax error at ".to_owned();
                s.append("SourceSpan { start: ");
                push_decimal(&mut s, span.start as u64);
                s.append(", end: ");
                push_decimal(&mut s, span.end as u64);
                s.append(" }");
                s.append(": ");
                s.append(message.as_str());
                proof {
                    reveal_strlit("SourceSpan { start: ");
                    reveal_strlit(", end: ");
                    reveal_strlit(" }");
                    assert(s@ =~= error_message(*self));
                }
                s
            },
            ScientificError::Duplicate(name) => quote("duplicate declaration ", name),
            ScientificError::UnknownName(name) => quote("unknown name ", name),
            ScientificError::ImportCycle { name, .. } => quote("import cycle through ", name),
            ScientificError::MissingModule { name, .. } => quote("missing imported module ", name),
            ScientificError::Quantity(message) => {
                let mut s = "quantity error: ".to_owned();
                s.append(message.as_str());
                s
            },
            ScientificError::Property(message) => {
                let mut s = "property evaluation failed: ".to_owned();
                s.append(message.as_str());
                s
            },
        }
    }

    /// The structured diagnostic that reports this error: a fixed code per kind of error, the
    /// compiler phase that raises it, and the span where one is known.
    pub fn diagnostic(&self) -> (d: SourceDiagnostic)
        ensures
            ({
                let (code, message, span, phase) = error_diagnostic_parts(*self);
                &&& d.code@ == code
                &&& d.severity == crate::source::SourceSeverity::Error
                &&& d.message@ == message
                &&& d.span == span
                &&& d.related@.len() == 0
                &&& d.hints@.len() == 0
                &&& d.phase == Some(d.phase->Some_0)
                &&& d.phase->Some_0@ == phase
            }),
    {
        match self {
            ScientificError::Syntax { message, span } => {
                SourceDiagnostic::error("PARSE_SYNTAX", message.as_str(), *span).phase("parsing")
            },
            ScientificError::Duplicate(name) => {
                let message = quote("duplicate declaration ", name);
                SourceDiagnostic::error("RESOLVE_DUPLICATE_NAME", message.as_str(), SourceSpan::default()).phase(
                    "resolution",
                )
            },
            ScientificError::UnknownName(name) => {
                let message = quote("unknown name ", name);
                SourceDiagnostic::error("RESOLVE_UNKNOWN_NAME", message.as_str(), SourceSpan::default()).phase(
                    "resolution",
                )
            },
            ScientificError::ImportCycle { name, span } => {
                let message = quote("import cycle through ", name);
                SourceDiagnostic::error("RESOLVE_IMPORT_CYCLE", message.as_str(), *span).phase("resolution")
            },
            ScientificError::MissingModule { name, span } => {
                let message = quote("missing imported module ", name);
                SourceDiagnostic::error("RESOLVE_MISSING_MODULE", message.as_str(), *span).phase("resolution")
            },
            ScientificError::Quantity(message) => {
                SourceDiagnostic::error("TYPE_QUANTITY", message.as_str(), SourceSpan::default()).phase(
                    "elaboration",
                )
            },
            ScientificError::Property(message) => {
                SourceDiagnostic::error("PROPERTY_EVALUATION", message.as_str(), SourceSpan::default()).phase(
                    "evaluation",
                )
            },
        }
    }
}

/// The binding powers (left, right) and the operator of a binary operator token; `None` for a
/// token that is not a binary operator. Higher binds tighter; `^` is right-associative.
pub open spec fn binding_of(op: Seq<char>) -> Option<(u8, u8, BinaryOp)> {
    if op == "="@ || op == "=="@ {
        Some((1, 2, BinaryOp::Eq))
    } else if op == "<"@ {
        Some((3, 4, BinaryOp::Lt))
    } else if op == "<="@ {
        Some((3, 4, BinaryOp::Le))
    } else if op == ">"@ {
        Some((3, 4, BinaryOp::Gt))
    } else if op == ">="@ {
        Some((3, 4, BinaryOp::Ge))
    } else if op == "+"@ {
        Some((5, 6, BinaryOp::Add))
    } else if op == "-"@ {
        Some((5, 6, BinaryOp::Sub))
    } else if op == "*"@ {
        Some((7, 8, BinaryOp::Mul))
    } else if op == "/"@ {
        Some((7, 8, BinaryOp::Div))
    } else if op == "^"@ {
        Some((10, 9, BinaryOp::Pow))
    } else {
        None
    }
}

pub fn binary_binding(op: &str) -> (r: Option<(u8, u8, BinaryOp)>)
    ensures
        r == binding_of(op@),
{
    if text_eq(op, "=") || text_eq(op, "==") {
        Some((1, 2, BinaryOp::Eq))
    } else if text_eq(op, "<") {
        Some((3, 4, BinaryOp::Lt))
    } else if text_eq(op, "<=") {
        Some((3, 4, BinaryOp::Le))
    } else if text_eq(op, ">") {
        Some((3, 4, BinaryOp::Gt))
    } else if text_eq(op, ">=") {
        Some((3, 4, BinaryOp::Ge))
    } else if text_eq(op, "+") {
        Some((5, 6, BinaryOp::Add))
    } else if text_eq(op, "-") {
        Some((5, 6, BinaryOp::Sub))
    } else if text_eq(op, "*") {
        Some((7, 8, BinaryOp::Mul))
    } else if text_eq(op, "/") {
        Some((7, 8, BinaryOp::Div))
    } else if text_eq(op, "^") {
        Some((10, 9, BinaryOp::Pow))
    } else {
        None
    }
}

/// The keyword that spells a coordinate system.
pub open spec fn coordinate_text(c: CoordinateSystem) -> Seq<char> {
    match c {
        CoordinateSystem::Cartesian => "cartesian"@,
        CoordinateSystem::Cylindrical => "cylindrical"@,
        CoordinateSystem::Spherical => "spherical"@,
        CoordinateSystem::Custom(x) => x@,
    }
}

pub fn coordinate_name(c: &CoordinateSystem) -> (s: &str)
    ensures
        s@ == coordinate_text(*c),
{
    match c {
        CoordinateSystem::Cartesian => "cartesian",
        CoordinateSystem::Cylindrical => "cylindrical",
        CoordinateSystem::Spherical => "spherical",
        CoordinateSystem::Custom(x) => x.as_str(),
    }
}

/// The keyword that spells a field role.
pub open spec fn field_role_text(r: FieldRole) -> Seq<char> {
    match r {
        FieldRole::State => "state"@,
        FieldRole::Unknown => "unknown"@,
        FieldRole::Test => "test"@,
        FieldRole::Trial => "trial"@,
        FieldRole::Coefficient => "coefficient"@,
        FieldRole::Parameter => "parameter"@,
        FieldRole::Derived => "derived"@,
    }
}

pub fn field_role_name(r: &FieldRole) -> (s: &'static str)
    ensures
        s@ == field_role_text(*r),
{
    match r {
        FieldRole::State => "state",
        FieldRole::Unknown => "unknown",
        FieldRole::Test => "test",
        FieldRole::Trial => "trial",
        FieldRole::Coefficient => "coefficient",
        FieldRole::Parameter => "parameter",
        FieldRole::Derived => "derived",
    }
}

/// How a field shape is written: `scalar`, `vector(n)`, `tensor(r,c)`; a symmetric tensor is
/// written as the square tensor it is.
pub open spec fn shape_text(s: ValueShape) -> Seq<char> {
    match s {
        ValueShape::Scalar => "scalar"@,
        ValueShape::Vector(n) => "vector("@ + decimal(n as nat) + ")"@,
        ValueShape::Tensor { rows, cols } => "tensor("@ + decimal(rows as nat) + ","@ + decimal(cols as nat)
            + ")"@,
        ValueShape::SymmetricTensor(n) => "tensor("@ + decimal(n as nat) + ","@ + decimal(n as nat) + ")"@,
    }
}

pub fn shape_name(s: &ValueShape) -> (t: String)
    ensures
        t@ == shape_text(*s),
{
    match s {
        ValueShape::Scalar => "scalar".to_owned(),
        ValueShape::Vector(n) => {
            let mut t = "vector(".to_owned();
            push_decimal(&mut t, *n as u64);
            t.append(")");
            t
        },
        ValueShape::Tensor { rows, cols } => {
            let mut t = "tensor(".to_owned();
            push_decimal(&mut t, *rows as u64);
            t.append(",");
            push_decimal(&mut t, *cols as u64);
            t.append(")");
            t
        },
        ValueShape::SymmetricTensor(n) => {
            let mut t = "tensor(".to_owned();
            push_decimal(&mut t, *n as u64);
            t.append(",");
            push_decimal(&mut t, *n as u64);
            t.append(")");
            t
        },
    }
}

/// How a provider shape is written: as a field shape, except that a symmetric tensor keeps its
/// own spelling `symmetric_tensor(n)`, so that reading back what was written gives the same
/// shape.
pub open spec fn provider_shape_text(s: ValueShape) -> Seq<char> {
    match s {
        ValueShape::SymmetricTensor(n) => "symmetric_tensor("@ + decimal(n as nat) + ")"@,
        other => shape_text(other),
    }
}

pub fn provider_shape_name(s: &ValueShape) -> (t: String)
    ensures
        t@ == provider_shape_text(*s),
{
    match s {
        ValueShape::SymmetricTensor(n) => {
            let mut t = "symmetric_tensor(".to_owned();
            push_decimal(&mut t, *n as u64);
            t.append(")");
            t
        },
        other => shape_name(other),
    }
}

/// The keyword that spells a property locality in a provider declaration.
pub open spec fn provider_locality_text(l: PropertyLocality) -> Seq<char> {
    match l {
        PropertyLocality::Pointwise => "pointwise"@,
        PropertyLocality::ElementConstant => "element_constant"@,
        PropertyLocality::ExternalProvider => "external"@,
    }
}

pub fn provider_locality_name(l: &PropertyLocality) -> (s: &'static str)
    ensures
        s@ == provider_locality_text(*l),
{
    match l {
        PropertyLocality::Pointwise => "pointwise",
        PropertyLocality::ElementConstant => "element_constant",
        PropertyLocality::ExternalProvider => "external",
    }
}

/// The keyword that spells a derivative contract in a provider declaration.
pub open spec fn provider_differentiability_text(d: DerivativeContract) -> Seq<char> {
    match d {
        DerivativeContract::Symbolic => "symbolic"@,
        DerivativeContract::AnalyticProvided => "analytic_provided"@,
        DerivativeContract::Automatic => "automatic"@,
        DerivativeContract::Piecewise => "piecewise"@,
        DerivativeContract::NumericalAllowed => "numerical_allowed"@,
        DerivativeContract::NoDerivative => "none"@,
    }
}

pub fn provider_differentiability_name(d: &DerivativeContract) -> (s: &'static str)
    ensures
        s@ == provider_differentiability_text(*d),
{
    match d {
        DerivativeContract::Symbolic => "symbolic",
        DerivativeContract::AnalyticProvided => "analytic_provided",
        DerivativeContract::Automatic => "automatic",
        DerivativeContract::Piecewise => "piecewise",
        DerivativeContract::NumericalAllowed => "numerical_allowed",
        DerivativeContract::NoDerivative => "none",
    }
}

/// The name of a function space family.
pub open spec fn space_text(s: SpaceFamily) -> Seq<char> {
    match s {
        SpaceFamily::H1 => "H1"@,
        SpaceFamily::L2 => "L2"@,
        SpaceFamily::HCurl => "HCurl"@,
        SpaceFamily::HDiv => "HDiv"@,
        SpaceFamily::Dg => "DG"@,
    }
}

pub fn space_name(s: &SpaceFamily) -> (t: &'static str)
    ensures
        t@ == space_text(*s),
{
    match s {
        SpaceFamily::H1 => "H1",
        SpaceFamily::L2 => "L2",
        SpaceFamily::HCurl => "HCurl",
        SpaceFamily::HDiv => "HDiv",
        SpaceFamily::Dg => "DG",
    }
}

/// The symbol that spells a binary operator.
pub open spec fn binary_text(op: BinaryOp) -> Seq<char> {
    match op {
        BinaryOp::Add => "+"@,
        BinaryOp::Sub => "-"@,
        BinaryOp::Mul => "*"@,
        BinaryOp::Div => "/"@,
        BinaryOp::Pow => "^"@,
        BinaryOp::Eq => "="@,
        BinaryOp::Lt => "<"@,
        BinaryOp::Le => "<="@,
        BinaryOp::Gt => ">"@,
        BinaryOp::Ge => ">="@,
    }
}

pub fn binary_name(op: BinaryOp) -> (s: &'static str)
    ensures
        s@ == binary_text(op),
{
    match op {
        BinaryOp::Add => "+",
        BinaryOp::Sub => "-",
        BinaryOp::Mul => "*",
        BinaryOp::Div => "/",
        BinaryOp::Pow => "^",
        BinaryOp::Eq => "=",
        BinaryOp::Lt => "<",
        BinaryOp::Le => "<=",
        BinaryOp::Gt => ">",
        BinaryOp::Ge => ">=",
    }
}

/// Where `use` imports are read from. A source answers the text of a module by its dotted
/// name, or `None` when it has no such module.
pub trait ModuleSource {
    fn load(&self, name: &str) -> Option<String>;
}

/// A module source that refuses every import: `load` always answers `None`, so a model that
/// declares an import reports a missing module, and a model without imports is unaffected.
pub struct NoImports;

impl ModuleSource for NoImports {
    fn load(&self, name: &str) -> (r: Option<String>)
        ensures
            r is None,
    {
        None
    }
}

/// The digest of a module's span-independent parse: carried as a type of its own so that
/// declaration identities cannot be confused with artifact digests.
#[derive(Clone, Debug, PartialEq, Eq, PartialOrd, Ord, Hash)]
pub struct ModuleDigest(pub String);

impl ModuleDigest {
    /// The digest's text.
    pub fn as_str(&self) -> (s: &str)
        ensures
            s@ == self.0@,
    {
        self.0.as_str()
    }
}

// Properties and materials.

#[derive(Clone, Debug, PartialEq, Eq, Structural)]
pub enum TensorSymmetry {
    /// No symmetry.
    NoSymmetry,
    Symmetric,
    MajorMinor,
}

#[derive(Clone, Debug, PartialEq, Eq, Structural)]
pub enum FrameSemantics {
    Scalar,
    Material,
    Reference,
    Spatial,
}

#[derive(Clone, Debug, PartialEq, Eq, Structural)]
pub enum PropertyLocality {
    Pointwise,
    ElementConstant,
    ExternalProvider,
}

#[derive(Clone, Debug, PartialEq, Eq, Structural)]
pub enum DerivativeContract {
    Symbolic,
    AnalyticProvided,
    Automatic,
    Piecewise,
    NumericalAllowed,
    /// No derivative is available.
    NoDerivative,
}

#[derive(Clone, Debug, PartialEq)]
pub struct PropertyProviderRef {
    pub provider: String,
    pub property: String,
}

#[derive(Clone, Copy, Debug, PartialEq, Eq, Structural)]
pub enum CompareOp {
    Lt,
    Le,
    Gt,
    Ge,
}

#[derive(Clone, Debug, PartialEq, Eq, Structural)]
pub enum Interpolation {
    Linear,
    Multilinear,
    MonotoneCubic,
}

#[derive(Clone, Debug, PartialEq, Eq, Structural)]
pub enum TableDerivativePolicy {
    PiecewiseConstantSlope,
    Numerical,
    Unavailable,
}

#[derive(Clone, Debug, PartialEq, Eq)]
pub enum OutOfValidityPolicy {
    Error,
    Warn,
    ExplicitExtrapolation(String),
}

#[derive(Clone, Debug, PartialEq, Eq, Structural)]
pub enum TangentContract {
    Symbolic,
    Automatic,
    AnalyticProvided,
    NumericalAllowed,
    /// No tangent is available.
    NoTangent,
}

#[derive(Clone, Debug, PartialEq, Eq, Structural)]
pub enum UpdateContract {
    Stateless,
    TransactionalLocal { may_request_step_reduction: bool },
}

/// The constitutive laws every model can name without declaring them.
pub fn standard_constitutive_laws() -> (laws: Vec<&'static str>)
    ensures
        laws@.len() == 5,
        laws@[0]@ == "thermal.fourier"@,
        laws@[1]@ == "diffusion.fick"@,
        laws@[2]@ == "electrical.ohm"@,
        laws@[3]@ == "mechanics.hooke_isotropic"@,
        laws@[4]@ == "fluids.newtonian"@,
{
    let mut laws: Vec<&'static str> = Vec::new();
    laws.push("thermal.fourier");
    laws.push("diffusion.fick");
    laws.push("electrical.ohm");
    laws.push("mechanics.hooke_isotropic");
    laws.push("fluids.newtonian");
    laws
}

// Coupling.

#[derive(Clone, Debug, PartialEq, Eq)]
pub struct UnknownBlock {
    pub name: String,
    pub field: String,
}

/// Why one block of unknowns is coupled to another.
#[derive(Clone, Debug, PartialEq, Eq)]
pub enum CouplingReason {
    DirectFieldUse,
    DefinedValueDependency(String),
    PropertyDependency(String),
    ConstitutiveDependency(String),
    InterfaceTerm,
    HistoryState,
}

#[derive(Clone, Debug, PartialEq, Eq)]
pub struct CouplingEdge {
    pub from: String,
    pub to: String,
    pub reason: CouplingReason,
    pub path: Vec<String>,
}

#[derive(Clone, Debug, PartialEq, Eq)]
pub struct BlockDerivative {
    pub residual: String,
    pub unknown: String,
    pub structurally_nonzero: bool,
}

#[derive(Clone, Debug, PartialEq, Eq)]
pub struct CouplingGraph {
    pub unknowns: Vec<UnknownBlock>,
    pub residual_blocks: Vec<String>,
    pub edges: Vec<CouplingEdge>,
    pub derivatives: Vec<BlockDerivative>,
}

// Time and state.

#[derive(Clone, Copy, Debug, PartialEq, Eq, Structural)]
pub enum TimeRole {
    Differential,
    Algebraic,
}

#[derive(Clone, Copy, Debug, PartialEq, Eq, Structural)]
pub enum EventDirection {
    Any,
    Rising,
    Falling,
}

} // verus!
