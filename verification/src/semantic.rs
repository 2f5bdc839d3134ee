//! The semantic model: arena identities, types of expressions, declarations and measures, and
//! the typing rules that elaboration applies to shapes and frames.

use vstd::prelude::*;
use crate::scientific::{BinaryOp, BoundaryConditionKind, CoordinateSystem, FieldRole, UnaryOp, ValueShape};
use crate::source::{RelatedSpan, SourceDiagnostic, SourceSeverity, SourceSpan, is_fresh_diagnostic};
use crate::text::{
    decimal, push_decimal, text_eq, parse_int, parse_signed, utf8_len, utf8_width, char_utf8_width,
    chars_of, all_digits, digits_value, digit_value, is_digit,
};

verus! {

pub const SEMANTIC_SCHEMA: &'static str = "scientia-semantic/5";

/// The arena index of a domain.
#[derive(Clone, Copy, Debug, PartialEq, Eq, PartialOrd, Ord, Hash, Structural)]
pub struct DomainId(pub u32);

/// The arena index of a region, or a compiler-generated region id.
#[derive(Clone, Copy, Debug, PartialEq, Eq, PartialOrd, Ord, Hash, Structural)]
pub struct RegionId(pub u32);

/// The arena index of a symbol, or a compiler-generated symbol id.
#[derive(Clone, Copy, Debug, PartialEq, Eq, PartialOrd, Ord, Hash, Structural)]
pub struct SymbolId(pub u32);

/// The arena index of an expression.
#[derive(Clone, Copy, Debug, PartialEq, Eq, PartialOrd, Ord, Hash, Structural)]
pub struct ExprId(pub u32);

/// The arena index of a declaration.
#[derive(Clone, Copy, Debug, PartialEq, Eq, PartialOrd, Ord, Hash, Structural)]
pub struct DeclarationId(pub u32);

/// The arena index of a provider.
#[derive(Clone, Copy, Debug, PartialEq, Eq, PartialOrd, Ord, Hash, Structural)]
pub struct ProviderId(pub u32);

impl DomainId {
    pub fn index(self) -> (i: usize)
        ensures
            i == self.0,
    {
        self.0 as usize
    }
}

impl RegionId {
    pub fn index(self) -> (i: usize)
        ensures
            i == self.0,
    {
        self.0 as usize
    }
}

impl SymbolId {
    pub fn index(self) -> (i: usize)
        ensures
            i == self.0,
    {
        self.0 as usize
    }
}

impl ExprId {
    pub fn index(self) -> (i: usize)
        ensures
            i == self.0,
    {
        self.0 as usize
    }
}

impl DeclarationId {
    pub fn index(self) -> (i: usize)
        ensures
            i == self.0,
    {
        self.0 as usize
    }
}

impl ProviderId {
    pub fn index(self) -> (i: usize)
        ensures
            i == self.0,
    {
        self.0 as usize
    }
}

/// Ids at or above this value are generated by the compiler, never allocated for an authored
/// declaration: arena indices are dense from zero and no model reaches this magnitude.
pub const GENERATED_BASE: u32 = 0x8000_0000;

impl RegionId {
    /// True for a compiler-synthesized region id (the implicit whole-boundary region of a
    /// domain).
    pub fn is_generated(self) -> (b: bool)
        ensures
            b == (self.0 >= GENERATED_BASE),
    {
        self.0 >= GENERATED_BASE
    }

    /// The implicit-boundary region id of `domain`: the same domain always gives the same id.
    pub fn generated_for(domain: DomainId) -> (r: Self)
        requires
            domain.0 < GENERATED_BASE,
        ensures
            r.0 == GENERATED_BASE + domain.0,
    {
        RegionId(GENERATED_BASE + domain.0)
    }

    /// The domain a generated region id was built for, or `None` for an arena region id.
    pub fn generated_domain(self) -> (d: Option<DomainId>)
        ensures
            d == (if self.0 >= GENERATED_BASE {
                Some(DomainId((self.0 - GENERATED_BASE) as u32))
            } else {
                None
            }),
    {
        if self.is_generated() {
            Some(DomainId(self.0 - GENERATED_BASE))
        } else {
            None
        }
    }
}

impl SymbolId {
    /// True for a compiler-synthesized symbol id (such as a derived form's generated test
    /// argument), which names no arena symbol.
    pub fn is_generated(self) -> (b: bool)
        ensures
            b == (self.0 >= GENERATED_BASE),
    {
        self.0 >= GENERATED_BASE
    }

    /// The generated symbol id for an argument derived from `declaration`: distinct
    /// declarations get distinct ids.
    pub fn generated_for(declaration: DeclarationId) -> (s: Self)
        requires
            declaration.0 < GENERATED_BASE,
        ensures
            s.0 == GENERATED_BASE + declaration.0,
    {
        SymbolId(GENERATED_BASE + declaration.0)
    }
}

/// A generated region id decodes to the domain it was built for, is recognized as generated,
/// and distinct domains give distinct region ids; an arena region id decodes to no domain.
pub proof fn lemma_generated_region_round_trip(d: DomainId, d2: DomainId, r: RegionId)
    requires
        d.0 < GENERATED_BASE,
        d2.0 < GENERATED_BASE,
    ensures
        ({
            let g = RegionId((GENERATED_BASE + d.0) as u32);
            &&& g.0 >= GENERATED_BASE
            &&& DomainId((g.0 - GENERATED_BASE) as u32) == d
            &&& (d != d2 ==> g != RegionId((GENERATED_BASE + d2.0) as u32))
        }),
        r.0 < GENERATED_BASE ==> !(r.0 >= GENERATED_BASE),
{
}

/// Generated symbol ids are recognized as generated and never collide for distinct
/// declarations; no arena index below the reserved base is generated.
pub proof fn lemma_generated_symbol_distinct(a: DeclarationId, b: DeclarationId)
    requires
        a.0 < GENERATED_BASE,
        b.0 < GENERATED_BASE,
    ensures
        (GENERATED_BASE + a.0) as u32 >= GENERATED_BASE,
        a != b ==> SymbolId((GENERATED_BASE + a.0) as u32) != SymbolId((GENERATED_BASE + b.0) as u32),
{
}

/// A domain of the semantic model.
#[derive(Clone, Debug, PartialEq, Eq)]
pub struct SemanticDomain {
    pub id: DomainId,
    pub name: String,
    pub spatial_dimension: u8,
    pub coordinates: CoordinateSystem,
    pub span: SourceSpan,
}

#[derive(Clone, Debug, PartialEq, Eq, PartialOrd, Ord, Structural)]
pub enum RegionKind {
    ExteriorFacet,
    InteriorFacet,
    Interface,
    Point,
}

#[derive(Clone, Debug, PartialEq, Eq)]
pub struct SemanticRegion {
    pub id: RegionId,
    pub name: String,
    pub kind: RegionKind,
    pub domain: Option<DomainId>,
    pub span: SourceSpan,
}

/// What a symbol or an expression stands for.
#[derive(Clone, Copy, Debug, PartialEq, Eq, Structural)]
pub enum SemanticRole {
    PhysicalField(FieldRole),
    Parameter,
    Constant,
    Source,
    Property,
    ConstitutiveLaw,
    Equation,
    Form,
    InitialCondition,
    BoundaryCondition,
    InterfaceCondition,
    Observable,
    Invariant,
    Verification,
    Literal,
    Intrinsic,
    /// The type role of a provider call, whose type comes from a declared provider signature.
    Provider,
}

/// The shape of a value in the semantic model.
#[derive(Clone, Copy, Debug, PartialEq, Eq, Structural)]
pub enum SemanticShape {
    Numeric(ValueShape),
    Boolean,
    String,
    Region,
    /// A declared scientific function whose output contract has not been supplied yet.
    Deferred,
}

/// One axis of a tensor value: its position and extent.
#[derive(Clone, Copy, Debug, PartialEq, Eq, Structural)]
pub struct Axis {
    pub position: u8,
    pub extent: u8,
}

/// The frame a value is expressed in.
#[derive(Clone, Copy, Debug, PartialEq, Eq, Structural)]
pub enum Frame {
    Neutral,
    Domain(DomainId),
}

/// The exact rational identity of a numeric literal, computed from its source lexeme rather
/// than from a rounded floating-point value.
#[derive(Clone, Copy, Debug, PartialEq, Eq, Structural)]
pub enum ExactLiteral {
    Integer(i128),
    /// `mantissa * 10^exponent`.
    Decimal { mantissa: i128, exponent: i16 },
}

#[derive(Clone, Copy, Debug, PartialEq, Eq, Structural)]
pub enum DifferentialOperator {
    Gradient,
    Divergence,
    Curl,
    RotatedGradient,
    SymmetricGradient,
    TimeDerivative,
}

/// A contraction of axis `lhs` of one operand with axis `rhs` of the other.
#[derive(Clone, Copy, Debug, PartialEq, Eq, Structural)]
pub struct AxisContraction {
    pub lhs: u8,
    pub rhs: u8,
}

#[derive(Clone, Copy, Debug, PartialEq, Eq, PartialOrd, Ord, Structural)]
pub enum TraceSide {
    Exterior,
    Minus,
    Plus,
}

/// Where an integral of the semantic model is taken.
#[derive(Clone, Copy, Debug, PartialEq, Eq, Structural)]
pub enum SemanticMeasure {
    Cell { domain: DomainId },
    ExteriorFacet { region: RegionId },
    InteriorFacet { region: RegionId },
    Interface { region: RegionId },
    Point { region: RegionId },
}

/// A declaration of the semantic model.
#[derive(Clone, Debug, PartialEq)]
pub struct SemanticDeclaration {
    pub id: DeclarationId,
    pub name: String,
    pub role: SemanticRole,
    pub symbol: Option<SymbolId>,
    pub domain: Option<DomainId>,
    pub kind: SemanticDeclarationKind,
    pub span: SourceSpan,
}

/// What a declaration declares, with the expressions it refers to.
#[derive(Clone, Debug, PartialEq)]
pub enum SemanticDeclarationKind {
    Value { value: Option<ExprId> },
    Property { value: ExprId },
    ConstitutiveLaw { value: ExprId },
    Equation { lhs: ExprId, rhs: ExprId },
    Form { integrals: Vec<SemanticIntegral> },
    InitialCondition { target: Option<SymbolId>, value: ExprId },
    BoundaryCondition {
        region: RegionId,
        selector: ExprId,
        target: Option<SymbolId>,
        condition: BoundaryConditionKind,
        value: ExprId,
    },
    Observable { value: ExprId },
    Invariant { value: ExprId },
    Verification { arguments: std::collections::BTreeMap<String, ExprId> },
}

#[derive(Clone, Debug, PartialEq)]
pub struct SemanticIntegral {
    pub measure: SemanticMeasure,
    pub integrand: ExprId,
    pub span: SourceSpan,
}

// ---------------------------------------------------------------------------------------
// Typing rules.
// ---------------------------------------------------------------------------------------

/// The axes of a value shape: none for a scalar, one for a vector, two for a tensor.
pub open spec fn shape_axes(shape: ValueShape) -> Seq<Axis> {
    match shape {
        ValueShape::Scalar => seq![],
        ValueShape::Vector(extent) => seq![Axis { position: 0, extent }],
        ValueShape::Tensor { rows, cols } => seq![
            Axis { position: 0, extent: rows },
            Axis { position: 1, extent: cols },
        ],
        ValueShape::SymmetricTensor(extent) => seq![
            Axis { position: 0, extent },
            Axis { position: 1, extent },
        ],
    }
}

pub fn axes(shape: &ValueShape) -> (r: Vec<Axis>)
    ensures
        r@ == shape_axes(*shape),
{
    let mut r: Vec<Axis> = Vec::new();
    match shape {
        ValueShape::Scalar => {},
        ValueShape::Vector(extent) => {
            r.push(Axis { position: 0, extent: *extent });
        },
        ValueShape::Tensor { rows, cols } => {
            r.push(Axis { position: 0, extent: *rows });
            r.push(Axis { position: 1, extent: *cols });
        },
        ValueShape::SymmetricTensor(extent) => {
            r.push(Axis { position: 0, extent: *extent });
            r.push(Axis { position: 1, extent: *extent });
        },
    }
    proof {
        assert(r@ =~= shape_axes(*shape));
    }
    r
}

/// The axes of a semantic shape: those of a numeric shape, none otherwise.
pub open spec fn semantic_shape_axes(shape: SemanticShape) -> Seq<Axis> {
    match shape {
        SemanticShape::Numeric(s) => shape_axes(s),
        _ => seq![],
    }
}

pub fn semantic_axes(shape: &SemanticShape) -> (r: Vec<Axis>)
    ensures
        r@ == semantic_shape_axes(*shape),
{
    match shape {
        SemanticShape::Numeric(s) => axes(s),
        _ => Vec::new(),
    }
}

/// An elaboration error: an error diagnostic attributed to the elaboration phase.
pub open spec fn is_elaboration_diagnostic(
    d: SourceDiagnostic,
    severity: SourceSeverity,
    code: Seq<char>,
    message: Seq<char>,
    span: SourceSpan,
) -> bool {
    &&& d.code@ == code
    &&& d.severity == severity
    &&& d.message@ == message
    &&& d.span == span
    &&& d.related@.len() == 0
    &&& d.hints@.len() == 0
    &&& d.phase is Some
    &&& d.phase->Some_0@ == "elaboration"@
}

pub fn error(code: &str, message: &str, span: SourceSpan) -> (d: SourceDiagnostic)
    ensures
        is_elaboration_diagnostic(d, SourceSeverity::Error, code@, message@, span),
{
    SourceDiagnostic::error(code, message, span).phase("elaboration")
}

/// A non-fatal diagnostic: it never makes elaboration fail.
pub fn advisory(code: &str, message: &str, span: SourceSpan) -> (d: SourceDiagnostic)
    ensures
        is_elaboration_diagnostic(d, SourceSeverity::Warning, code@, message@, span),
{
    SourceDiagnostic::warning(code, message, span).phase("elaboration")
}

/// A shape some axis of which has extent zero.
pub open spec fn has_empty_axis(shape: ValueShape) -> bool {
    match shape {
        ValueShape::Scalar => false,
        ValueShape::Vector(extent) => extent == 0,
        ValueShape::SymmetricTensor(extent) => extent == 0,
        ValueShape::Tensor { rows, cols } => rows == 0 || cols == 0,
    }
}

/// Report a shape with an axis of extent zero.
pub fn validate_shape(shape: &ValueShape, span: SourceSpan, diagnostics: &mut Vec<SourceDiagnostic>)
    ensures
        !has_empty_axis(*shape) ==> final(diagnostics)@ == old(diagnostics)@,
        has_empty_axis(*shape) ==> {
            &&& final(diagnostics)@.len() == old(diagnostics)@.len() + 1
            &&& final(diagnostics)@.drop_last() == old(diagnostics)@
            &&& is_elaboration_diagnostic(
                final(diagnostics)@.last(),
                SourceSeverity::Error,
                "TYPE_INVALID_AXIS"@,
                "shape axes must have positive extents"@,
                span,
            )
        },
{
    let invalid = match shape {
        ValueShape::Scalar => false,
        ValueShape::Vector(extent) => *extent == 0,
        ValueShape::SymmetricTensor(extent) => *extent == 0,
        ValueShape::Tensor { rows, cols } => *rows == 0 || *cols == 0,
    };
    if invalid {
        diagnostics.push(error("TYPE_INVALID_AXIS", "shape axes must have positive extents", span));
        proof {
            assert(diagnostics@.drop_last() =~= old(diagnostics)@);
        }
    }
}

/// The message of an arity error.
pub open spec fn arity_message(function: Seq<char>, expected: nat, found: nat) -> Seq<char> {
    seq!['`'] + function + "` expects "@ + decimal(expected) + " argument(s), found "@ + decimal(found)
}

/// Report a call with the wrong number of arguments.
pub fn require_arity(
    function: &str,
    args: &[ExprId],
    expected: usize,
    span: SourceSpan,
    diagnostics: &mut Vec<SourceDiagnostic>,
)
    ensures
        args@.len() == expected ==> final(diagnostics)@ == old(diagnostics)@,
        args@.len() != expected ==> {
            &&& final(diagnostics)@.len() == old(diagnostics)@.len() + 1
            &&& final(diagnostics)@.drop_last() == old(diagnostics)@
            &&& is_elaboration_diagnostic(
                final(diagnostics)@.last(),
                SourceSeverity::Error,
                "TYPE_ARITY"@,
                arity_message(function@, expected as nat, args@.len()),
                span,
            )
        },
{
    if args.len() != expected {
        let mut message = "`".to_owned();
        message.append(function);
        message.append("` expects ");
        push_decimal(&mut message, expected as u64);
        message.append(" argument(s), found ");
        push_decimal(&mut message, args.len() as u64);
        proof {
            reveal_strlit("`");
            assert(message@ =~= arity_message(function@, expected as nat, args@.len()));
        }
        diagnostics.push(error("TYPE_ARITY", message.as_str(), span));
        proof {
            assert(diagnostics@.drop_last() =~= old(diagnostics)@);
        }
    }
}

pub open spec fn numeric_or_deferred(shape: SemanticShape) -> bool {
    shape is Numeric || shape is Deferred
}

pub fn is_numeric_or_deferred(shape: &SemanticShape) -> (b: bool)
    ensures
        b == numeric_or_deferred(*shape),
{
    match shape {
        SemanticShape::Numeric(_) => true,
        SemanticShape::Deferred => true,
        _ => false,
    }
}

/// The shape of a product, or `None` when the operand shapes are incompatible: a deferred
/// operand defers the product; a scalar scales any numeric (or deferred) operand; equal
/// numeric shapes multiply elementwise.
pub open spec fn product_shape(left: SemanticShape, right: SemanticShape) -> Option<SemanticShape> {
    if left is Deferred || right is Deferred {
        Some(SemanticShape::Deferred)
    } else if left == SemanticShape::Numeric(ValueShape::Scalar) && numeric_or_deferred(right) {
        Some(right)
    } else if right == SemanticShape::Numeric(ValueShape::Scalar) && numeric_or_deferred(left) {
        Some(left)
    } else if left is Numeric && right is Numeric && left == right {
        Some(left)
    } else {
        None
    }
}

/// The shape of a product; an incompatible pair is reported and gives a deferred shape.
pub fn multiply_shape(
    left: &SemanticShape,
    right: &SemanticShape,
    span: SourceSpan,
    diagnostics: &mut Vec<SourceDiagnostic>,
) -> (r: SemanticShape)
    ensures
        match product_shape(*left, *right) {
            Some(s) => r == s && final(diagnostics)@ == old(diagnostics)@,
            None => {
                &&& r == SemanticShape::Deferred
                &&& final(diagnostics)@.len() == old(diagnostics)@.len() + 1
                &&& final(diagnostics)@.drop_last() == old(diagnostics)@
                &&& is_elaboration_diagnostic(
                    final(diagnostics)@.last(),
                    SourceSeverity::Error,
                    "TYPE_SHAPE_MISMATCH"@,
                    "multiplication has incompatible operand shapes"@,
                    span,
                )
            },
        },
{
    match (left, right) {
        (SemanticShape::Deferred, _) => SemanticShape::Deferred,
        (_, SemanticShape::Deferred) => SemanticShape::Deferred,
        (SemanticShape::Numeric(ValueShape::Scalar), other) if is_numeric_or_deferred(other) => other.clone(),
        (other, SemanticShape::Numeric(ValueShape::Scalar)) if is_numeric_or_deferred(other) => other.clone(),
        (SemanticShape::Numeric(l), SemanticShape::Numeric(r)) if *l == *r => SemanticShape::Numeric(l.clone()),
        _ => {
            diagnostics.push(
                error("TYPE_SHAPE_MISMATCH", "multiplication has incompatible operand shapes", span),
            );
            proof {
                assert(diagnostics@.drop_last() =~= old(diagnostics)@);
            }
            SemanticShape::Deferred
        },
    }
}

/// The shape of a product does not depend on the order of the operands.
pub proof fn lemma_product_shape_commutes(left: SemanticShape, right: SemanticShape)
    ensures
        product_shape(left, right) == product_shape(right, left),
{
}

/// The frame of a combination of two operands, or `None` when they belong to different
/// domain frames: a neutral operand takes the other's frame.
pub open spec fn merged_frame(left: Frame, right: Frame) -> Option<Frame> {
    if left is Neutral {
        Some(right)
    } else if right is Neutral {
        Some(left)
    } else if left == right {
        Some(left)
    } else {
        None
    }
}

/// The frame of a combination of two operands; operands in different domain frames are
/// reported and keep the left frame.
pub fn merge_frame(
    left: &Frame,
    right: &Frame,
    span: SourceSpan,
    diagnostics: &mut Vec<SourceDiagnostic>,
) -> (r: Frame)
    ensures
        match merged_frame(*left, *right) {
            Some(f) => r == f && final(diagnostics)@ == old(diagnostics)@,
            None => {
                &&& r == *left
                &&& final(diagnostics)@.len() == old(diagnostics)@.len() + 1
                &&& final(diagnostics)@.drop_last() == old(diagnostics)@
                &&& is_elaboration_diagnostic(
                    final(diagnostics)@.last(),
                    SourceSeverity::Error,
                    "TYPE_FRAME_MISMATCH"@,
                    "operands belong to different domain frames"@,
                    span,
                )
            },
        },
{
    match (left, right) {
        (Frame::Neutral, frame) => frame.clone(),
        (frame, Frame::Neutral) => frame.clone(),
        (Frame::Domain(l), Frame::Domain(r)) if *l == *r => Frame::Domain(*l),
        _ => {
            diagnostics.push(error("TYPE_FRAME_MISMATCH", "operands belong to different domain frames", span));
            proof {
                assert(diagnostics@.drop_last() =~= old(diagnostics)@);
            }
            left.clone()
        },
    }
}

/// Merging frames does not depend on the order of the operands, and a neutral operand is an
/// identity.
pub proof fn lemma_merged_frame_commutes(left: Frame, right: Frame)
    ensures
        merged_frame(left, right) == merged_frame(right, left),
        merged_frame(Frame::Neutral, right) == Some(right),
{
}

/// The message of a duplicate declaration.
pub open spec fn duplicate_message(kind: Seq<char>, name: Seq<char>) -> Seq<char> {
    "duplicate "@ + kind + " `"@ + name + seq!['`']
}

/// A duplicate declaration, with the first declaration as related span.
pub fn duplicate(kind: &str, name: &str, span: SourceSpan, previous: SourceSpan) -> (d: SourceDiagnostic)
    ensures
        d.code@ == "RESOLVE_DUPLICATE_NAME"@,
        d.severity == SourceSeverity::Error,
        d.message@ == duplicate_message(kind@, name@),
        d.span == span,
        d.related@.len() == 1,
        d.related@[0].span == previous,
        d.related@[0].message@ == "first declared here"@,
        d.hints@.len() == 0,
        d.phase is Some,
        d.phase->Some_0@ == "elaboration"@,
{
    let mut message = "duplicate ".to_owned();
    message.append(kind);
    message.append(" `");
    message.append(name);
    message.append("`");
    proof {
        reveal_strlit("`");
        assert(message@ =~= duplicate_message(kind@, name@));
    }
    let mut diagnostic = error("RESOLVE_DUPLICATE_NAME", message.as_str(), span);
    diagnostic.related.push(RelatedSpan { span: previous, message: "first declared here".to_owned() });
    diagnostic
}

/// The function names with a fixed intrinsic meaning. A provider may not reuse one of them,
/// and a call to one of them is never looked up as a provider.
pub open spec fn intrinsic_call_names() -> Seq<Seq<char>> {
    seq![
        "boundary"@, "interface"@, "interface_region"@, "time"@, "dt"@, "grad"@, "rotated_grad"@,
        "sym_grad"@, "div"@, "curl"@, "dot"@, "inner"@, "sin"@, "cos"@, "exp"@, "log"@, "ln"@,
        "sqrt"@, "abs"@, "min"@, "max"@, "integrate"@, "trace"@, "trace_minus"@, "trace_plus"@,
        "jump"@, "average"@, "conj"@, "normal_component"@, "normal_component_minus"@,
        "normal_component_plus"@, "zero_vector"@, "zero_tensor"@,
    ]
}

fn intrinsic_names() -> (names: Vec<&'static str>)
    ensures
        names@.len() == intrinsic_call_names().len(),
        forall|i: int| 0 <= i < names@.len() ==> #[trigger] names@[i]@ == intrinsic_call_names()[i],
{
    let names: Vec<&'static str> = vec![
        "boundary", "interface", "interface_region", "time", "dt", "grad", "rotated_grad",
        "sym_grad", "div", "curl", "dot", "inner", "sin", "cos", "exp", "log", "ln",
        "sqrt", "abs", "min", "max", "integrate", "trace", "trace_minus", "trace_plus",
        "jump", "average", "conj", "normal_component", "normal_component_minus",
        "normal_component_plus", "zero_vector", "zero_tensor",
    ];
    names
}

pub fn is_intrinsic_call(name: &str) -> (b: bool)
    ensures
        b == intrinsic_call_names().contains(name@),
{
    let names = intrinsic_names();
    let mut i: usize = 0;
    while i < names.len()
        invariant
            names@.len() == intrinsic_call_names().len(),
            forall|j: int| 0 <= j < names@.len() ==> #[trigger] names@[j]@ == intrinsic_call_names()[j],
            i <= names@.len(),
            forall|j: int| 0 <= j < i ==> intrinsic_call_names()[j] != name@,
        decreases names@.len() - i,
    {
        if text_eq(names[i], name) {
            proof {
                assert(intrinsic_call_names()[i as int] == name@);
            }
            return true;
        }
        i = i + 1;
    }
    false
}

// ---------------------------------------------------------------------------------------
// Exact literals.
// ---------------------------------------------------------------------------------------

/// The index of the first `a` or `b` in `s`, or `s.len()` when there is none.
pub open spec fn first_of(s: Seq<char>, a: char, b: char) -> int
    decreases s.len(),
{
    if s.len() == 0 {
        0
    } else if s[0] == a || s[0] == b {
        0
    } else {
        1 + first_of(s.drop_first(), a, b)
    }
}

pub proof fn lemma_first_of(s: Seq<char>, a: char, b: char, i: int)
    requires
        0 <= i <= s.len(),
        forall|j: int| 0 <= j < i ==> s[j] != a && s[j] != b,
        i == s.len() || s[i] == a || s[i] == b,
    ensures
        first_of(s, a, b) == i,
    decreases i,
{
    if s.len() > 0 && i > 0 {
        assert forall|j: int| 0 <= j < i - 1 implies s.drop_first()[j] != a && s.drop_first()[j] != b by {
            assert(s.drop_first()[j] == s[j + 1]);
        }
        if i < s.len() {
            assert(s.drop_first()[i - 1] == s[i]);
        }
        lemma_first_of(s.drop_first(), a, b, i - 1);
    }
}

/// The part of a lexeme before its exponent marker.
pub open spec fn mantissa_text(s: Seq<char>) -> Seq<char> {
    s.take(first_of(s, 'e', 'E'))
}

/// The part of a lexeme after its exponent marker; empty when there is none.
pub open spec fn exponent_text(s: Seq<char>) -> Seq<char> {
    let p = first_of(s, 'e', 'E');
    if p < s.len() {
        s.skip(p + 1)
    } else {
        seq![]
    }
}

/// The written exponent: the exponent text read as an `i64`, or zero when it does not read.
pub open spec fn exponent_bias(s: Seq<char>) -> int {
    match parse_int(exponent_text(s), i64::MIN as int, i64::MAX as int) {
        Some(v) => v,
        None => 0,
    }
}

/// The part of a mantissa before its decimal point.
pub open spec fn integer_text(m: Seq<char>) -> Seq<char> {
    m.take(first_of(m, '.', '.'))
}

/// The part of a mantissa after its decimal point; empty when there is none.
pub open spec fn fraction_text(m: Seq<char>) -> Seq<char> {
    let p = first_of(m, '.', '.');
    if p < m.len() {
        m.skip(p + 1)
    } else {
        seq![]
    }
}

/// The significant digits of a lexeme, integer part then fraction; `0` when both are empty.
pub open spec fn lexeme_digits(s: Seq<char>) -> Seq<char> {
    let m = mantissa_text(s);
    let d = integer_text(m) + fraction_text(m);
    if d.len() == 0 {
        seq!['0']
    } else {
        d
    }
}

/// The power of ten of the digits: the written exponent less the fraction's length in bytes.
pub open spec fn lexeme_exponent(s: Seq<char>) -> int {
    exponent_bias(s) - utf8_len(fraction_text(mantissa_text(s)))
}

/// Trailing zeros of the digits moved into the exponent, keeping at least one digit.
pub open spec fn strip_zeros(d: Seq<char>, e: int) -> (Seq<char>, int)
    decreases d.len(),
{
    if d.len() > 1 && d.last() == '0' {
        strip_zeros(d.drop_last(), e + 1)
    } else {
        (d, e)
    }
}

pub open spec fn pow10(k: nat) -> int
    decreases k,
{
    if k == 0 {
        1
    } else {
        10 * pow10((k - 1) as nat)
    }
}

pub open spec fn clamp_i16(e: int) -> int {
    if e < i16::MIN {
        i16::MIN as int
    } else if e > i16::MAX {
        i16::MAX as int
    } else {
        e
    }
}

/// The exact value of a numeric lexeme: normalized digits and exponent; an integer when the
/// exponent is between 0 and 38 and the scaled digits fit an `i128`, and otherwise a decimal
/// whose exponent is clamped to `i16`. Digits that do not read as an `i128` count as zero.
pub open spec fn exact_literal_of(s: Seq<char>) -> ExactLiteral {
    let (d, e) = strip_zeros(lexeme_digits(s), lexeme_exponent(s));
    let m = match parse_int(d, i128::MIN as int, i128::MAX as int) {
        Some(v) => v,
        None => 0,
    };
    if 0 <= e <= 38 && i128::MIN <= m * pow10(e as nat) <= i128::MAX {
        ExactLiteral::Integer((m * pow10(e as nat)) as i128)
    } else {
        ExactLiteral::Decimal { mantissa: m as i128, exponent: clamp_i16(e) as i16 }
    }
}

/// The exponent of a lexeme stays within `i64` while it is normalized.
pub open spec fn lexeme_exponent_fits(s: Seq<char>) -> bool {
    &&& i64::MIN <= lexeme_exponent(s)
    &&& strip_zeros(lexeme_digits(s), lexeme_exponent(s)).1 <= i64::MAX
}

proof fn lemma_strip_zeros_bound(d: Seq<char>, e: int)
    ensures
        strip_zeros(d, e).1 >= e,
    decreases d.len(),
{
    if d.len() > 1 && d.last() == '0' {
        lemma_strip_zeros_bound(d.drop_last(), e + 1);
    }
}

impl ExactLiteral {
    /// Parse a lexer-produced numeric lexeme (ASCII digits, an optional `.`, and an optional
    /// `e`/`E` exponent) into its exact decimal identity. Trailing zeros of the digits are
    /// normalized away, so `0.10` and `0.1` give the same literal, while a spelling that
    /// changes the significant digits does not.
    pub fn from_lexeme(lexeme: &str) -> (r: Self)
        requires
            lexeme_exponent_fits(lexeme@),
        ensures
            r == exact_literal_of(lexeme@),
            digit_lexeme(lexeme@) && literal_fits(lexeme@) ==> literal_is_value(
                r,
                lexeme@,
                value_base(lexeme@),
            ),
    {
        let r = Self::checked_from_lexeme(lexeme).unwrap();
        proof {
            if digit_lexeme(lexeme@) && literal_fits(lexeme@) {
                lemma_exact_literal_value(lexeme@, value_base(lexeme@));
            }
        }
        r
    }

    /// The exact literal of a lexeme, or `None` when its exponent leaves `i64` while it is
    /// normalized.
    #[verifier::spinoff_prover]
    #[verifier::rlimit(50)]
    pub fn checked_from_lexeme(lexeme: &str) -> (r: Option<Self>)
        ensures
            r is Some <==> lexeme_exponent_fits(lexeme@),
            r matches Some(x) ==> x == exact_literal_of(lexeme@),
    {
        let ghost s = lexeme@;
        let chars = chars_of(lexeme);
        let n = chars.len();
        let mut p: usize = 0;
        while p < n && chars[p] != 'e' && chars[p] != 'E'
            invariant
                chars@ == s,
                n == s.len(),
                p <= n,
                forall|j: int| 0 <= j < p ==> s[j] != 'e' && s[j] != 'E',
            decreases n - p,
        {
            p = p + 1;
        }
        proof {
            lemma_first_of(s, 'e', 'E', p as int);
        }
        let bias: i64 = if p < n {
            match parse_signed(&chars, p + 1, n, 9223372036854775807u128, 9223372036854775808u128) {
                Some((neg, mag)) => {
                    if neg {
                        if mag == 9223372036854775808u128 {
                            i64::MIN
                        } else {
                            -(mag as i64)
                        }
                    } else {
                        mag as i64
                    }
                },
                None => 0,
            }
        } else {
            0
        };
        proof {
            if p < n {
                assert(chars@.subrange(p + 1, n as int) =~= exponent_text(s));
            } else {
                assert(exponent_text(s) =~= Seq::<char>::empty());
            }
            assert(bias as int == exponent_bias(s));
        }
        let ghost m = mantissa_text(s);
        proof {
            assert(m =~= s.take(p as int));
        }
        let mut q: usize = 0;
        while q < p && chars[q] != '.'
            invariant
                chars@ == s,
                n == s.len(),
                p <= n,
                m == s.take(p as int),
                q <= p,
                forall|j: int| 0 <= j < q ==> m[j] != '.',
            decreases p - q,
        {
            q = q + 1;
        }
        proof {
            lemma_first_of(m, '.', '.', q as int);
            assert(integer_text(m) =~= s.subrange(0, q as int));
            if q < p {
                assert(fraction_text(m) =~= s.subrange(q + 1, p as int));
            } else {
                assert(fraction_text(m) =~= Seq::<char>::empty());
            }
        }
        let frac_start: usize = if q < p { q + 1 } else { p };
        let mut digits: Vec<char> = Vec::new();
        let mut i: usize = 0;
        while i < q
            invariant
                chars@ == s,
                n == s.len(),
                q <= p <= n,
                i <= q,
                digits@ == s.subrange(0, i as int),
            decreases q - i,
        {
            digits.push(chars[i]);
            proof {
                assert(s.subrange(0, i + 1) =~= s.subrange(0, i as int).push(s[i as int]));
            }
            i = i + 1;
        }
        let mut frac_bytes: u128 = 0;
        let mut j: usize = frac_start;
        while j < p
            invariant
                chars@ == s,
                n == s.len(),
                q <= p <= n,
                frac_start <= j <= p,
                digits@ == s.subrange(0, q as int) + s.subrange(frac_start as int, j as int),
                frac_bytes == utf8_len(s.subrange(frac_start as int, j as int)),
                frac_bytes <= 4 * (j - frac_start),
            decreases p - j,
        {
            let c = chars[j];
            digits.push(c);
            let w = char_utf8_width(c);
            proof {
                assert(s.subrange(frac_start as int, j + 1).drop_last() =~= s.subrange(frac_start as int, j as int));
                assert(s.subrange(frac_start as int, j + 1).last() == c);
                assert(digits@ =~= s.subrange(0, q as int) + s.subrange(frac_start as int, j + 1));
            }
            frac_bytes = frac_bytes + w as u128;
            j = j + 1;
        }
        proof {
            assert(s.subrange(frac_start as int, p as int) =~= fraction_text(m));
            assert(digits@ =~= integer_text(m) + fraction_text(m));
        }
        if digits.len() == 0 {
            digits.push('0');
            proof {
                assert(digits@ =~= seq!['0']);
            }
        }
        let ghost d0 = digits@;
        let ghost e0 = lexeme_exponent(s);
        proof {
            assert(d0 == lexeme_digits(s));
            lemma_strip_zeros_bound(d0, e0);
        }
        let e128: i128 = bias as i128 - frac_bytes as i128;
        if e128 < -9223372036854775808i128 {
            return None;
        }
        let mut exponent: i64 = e128 as i64;
        while digits.len() > 1 && digits[digits.len() - 1] == '0'
            invariant
                strip_zeros(digits@, exponent as int) == strip_zeros(d0, e0),
                exponent as int == e128 || e128 < exponent,
                i64::MIN <= e0,
                d0 == lexeme_digits(lexeme@),
                e0 == lexeme_exponent(lexeme@),
            decreases digits@.len(),
        {
            proof {
                lemma_strip_zeros_bound(digits@.drop_last(), exponent + 1);
                assert(digits@.last() == '0');
                assert(strip_zeros(digits@, exponent as int) == strip_zeros(digits@.drop_last(), exponent + 1));
            }
            if exponent == 9223372036854775807i64 {
                proof {
                    assert(strip_zeros(d0, e0).1 > i64::MAX);
                    assert(d0 == lexeme_digits(lexeme@) && e0 == lexeme_exponent(lexeme@));
                    assert(!lexeme_exponent_fits(lexeme@));
                }
                return None;
            }
            digits.pop();
            exponent = exponent + 1;
        }
        let ghost d = digits@;
        let ghost e = exponent as int;
        proof {
            assert(strip_zeros(d, e) == (d, e));
        }
        let mantissa: i128 = match parse_signed(
            &digits,
            0,
            digits.len(),
            170141183460469231731687303715884105727u128,
            170141183460469231731687303715884105728u128,
        ) {
            Some((neg, mag)) => {
                if neg {
                    if mag == 170141183460469231731687303715884105728u128 {
                        i128::MIN
                    } else {
                        -(mag as i128)
                    }
                } else {
                    mag as i128
                }
            },
            None => 0,
        };
        proof {
            assert(digits@.subrange(0, digits@.len() as int) =~= d);
        }
        if 0 <= exponent && exponent <= 38 {
            let mut scale: i128 = 1;
            let mut t: i64 = 0;
            while t < exponent
                invariant
                    0 <= t <= exponent <= 38,
                    scale as int == pow10(t as nat),
                    scale <= 100000000000000000000000000000000000000i128,
                decreases exponent - t,
            {
                proof {
                    assert(pow10((t + 1) as nat) == 10 * pow10(t as nat));
                    lemma_pow10_bound((t + 1) as nat);
                }
                scale = scale * 10;
                t = t + 1;
            }
            match mantissa.checked_mul(scale) {
                Some(v) => {
                    return Some(ExactLiteral::Integer(v));
                },
                None => {},
            }
        }
        let clamped: i16 = if exponent < -32768 {
            -32768
        } else if exponent > 32767 {
            32767
        } else {
            exponent as i16
        };
        Some(ExactLiteral::Decimal { mantissa, exponent: clamped })
    }
}

/// Appending a zero to the fraction of a lexeme without an exponent does not change its exact
/// value: `0.1` and `0.10` are the same literal. (A lexeme must hold a digit besides its point.)
pub proof fn lemma_trailing_fraction_zero(s: Seq<char>)
    requires
        first_of(s, 'e', 'E') == s.len(),
        first_of(s, '.', '.') < s.len(),
        s.len() >= 2,
    ensures
        exact_literal_of(s.push('0')) == exact_literal_of(s),
        lexeme_exponent_fits(s) && lexeme_exponent(s) > i64::MIN ==> lexeme_exponent_fits(s.push('0')),
{
    let t = s.push('0');
    let p = first_of(s, '.', '.');
    assert forall|j: int| 0 <= j < s.len() implies t[j] != 'e' && t[j] != 'E' by {
        lemma_first_of_none(s, 'e', 'E', j);
    }
    lemma_first_of(t, 'e', 'E', t.len() as int);
    lemma_first_of_hit(s, '.', '.');
    assert forall|j: int| 0 <= j < p implies t[j] != '.' && t[j] != '.' by {
        lemma_first_of_none(s, '.', '.', j);
    }
    assert(mantissa_text(t) =~= t);
    assert(mantissa_text(s) =~= s);
    lemma_first_of(t, '.', '.', p);
    assert(integer_text(t) =~= integer_text(s));
    assert(fraction_text(t) =~= fraction_text(s).push('0'));
    assert(exponent_text(t) =~= exponent_text(s));
    assert(fraction_text(t).drop_last() =~= fraction_text(s));
    assert(utf8_len(fraction_text(t)) == utf8_len(fraction_text(s)) + 1);
    let d = integer_text(s) + fraction_text(s);
    assert(integer_text(t) + fraction_text(t) =~= d.push('0'));
    assert(lexeme_exponent(t) == lexeme_exponent(s) - 1);
    assert(d.len() == s.len() - 1) by {
        assert(integer_text(s).len() == p);
        assert(fraction_text(s).len() == s.len() - p - 1);
    }
    {
        assert(lexeme_digits(t) == lexeme_digits(s).push('0'));
        assert(lexeme_digits(t).last() == '0');
        assert(lexeme_digits(t).drop_last() =~= lexeme_digits(s));
        assert(strip_zeros(lexeme_digits(t), lexeme_exponent(t)) == strip_zeros(
            lexeme_digits(s),
            lexeme_exponent(s),
        ));
    }
}

/// The mantissa of a lexeme is decimal digits with at most one point.
pub open spec fn digit_lexeme(s: Seq<char>) -> bool {
    &&& all_digits(integer_text(mantissa_text(s)))
    &&& all_digits(fraction_text(mantissa_text(s)))
}

/// The value of a lexeme divided by `10^t`: its digits read in decimal, shifted left by its
/// exponent less `t` (for `t` no greater than that exponent).
pub open spec fn scaled_value(s: Seq<char>, t: int) -> int {
    digits_value(lexeme_digits(s)) * pow10((lexeme_exponent(s) - t) as nat)
}

/// The significant digits of a lexeme fit an `i128` and their exponent an `i16`.
pub open spec fn literal_fits(s: Seq<char>) -> bool {
    let (d, e) = strip_zeros(lexeme_digits(s), lexeme_exponent(s));
    &&& digits_value(d) <= i128::MAX
    &&& i16::MIN <= e <= i16::MAX
}

proof fn lemma_pow10_add(a: nat, b: nat)
    ensures
        pow10(a + b) == pow10(a) * pow10(b),
        pow10(a) >= 1,
    decreases a,
{
    if a > 0 {
        lemma_pow10_add((a - 1) as nat, b);
        assert(pow10(a + b) == 10 * pow10((a - 1 + b) as nat));
        assert(10 * (pow10((a - 1) as nat) * pow10(b)) == (10 * pow10((a - 1) as nat)) * pow10(b)) by (nonlinear_arith);
    }
}

proof fn lemma_digits_value_nonneg(d: Seq<char>)
    requires
        all_digits(d),
    ensures
        digits_value(d) >= 0,
        d.len() >= 1 ==> digits_value(d) % 10 == digit_value(d.last()),
    decreases d.len(),
{
    if d.len() > 0 {
        assert(all_digits(d.drop_last())) by {
            assert forall|i: int| 0 <= i < d.drop_last().len() implies is_digit(#[trigger] d.drop_last()[i]) by {
                assert(d.drop_last()[i] == d[i]);
            }
        }
        lemma_digits_value_nonneg(d.drop_last());
        let a = digits_value(d.drop_last());
        let r = digit_value(d.last());
        assert(is_digit(d[d.len() - 1]));
        assert(0 <= r < 10);
        assert((a * 10 + r) % 10 == r) by (nonlinear_arith)
            requires
                0 <= r < 10,
                a >= 0,
        ;
    }
}

/// Moving trailing zeros into the exponent keeps the value, and leaves digits whose value is
/// zero or not a multiple of ten.
proof fn lemma_strip_zeros_value(d: Seq<char>, e: int)
    requires
        all_digits(d),
        d.len() >= 1,
    ensures
        all_digits(strip_zeros(d, e).0),
        strip_zeros(d, e).0.len() >= 1,
        strip_zeros(d, e).1 >= e,
        digits_value(d) == digits_value(strip_zeros(d, e).0) * pow10((strip_zeros(d, e).1 - e) as nat),
        digits_value(strip_zeros(d, e).0) == 0 || digits_value(strip_zeros(d, e).0) % 10 != 0,
    decreases d.len(),
{
    if d.len() > 1 && d.last() == '0' {
        let d1 = d.drop_last();
        assert(all_digits(d1)) by {
            assert forall|i: int| 0 <= i < d1.len() implies is_digit(#[trigger] d1[i]) by {
                assert(d1[i] == d[i]);
            }
        }
        lemma_strip_zeros_value(d1, e + 1);
        let (d2, e2) = strip_zeros(d1, e + 1);
        let k = (e2 - e - 1) as nat;
        assert(digits_value(d) == digits_value(d1) * 10);
        assert((e2 - e) as nat == k + 1);
        assert(pow10(k + 1) == 10 * pow10(k));
        let m = digits_value(d2);
        assert(digits_value(d1) == m * pow10(k));
        assert(m * pow10(k) * 10 == m * (10 * pow10(k))) by (nonlinear_arith);
    } else {
        lemma_digits_value_nonneg(d);
        assert(pow10(0) == 1);
        if d.last() == '0' {
            assert(d.drop_last().len() == 0);
            assert(digits_value(d.drop_last()) == 0);
            assert(digits_value(d) == digits_value(d.drop_last()) * 10 + digit_value(d.last()));
        }
    }
}

/// Digits at a smaller exponent that equal others at a larger one are a multiple of ten.
proof fn lemma_normal_lower(ma: int, xa: int, mb: int, xb: int, t: int)
    requires
        t <= xa < xb,
        ma * pow10((xa - t) as nat) == mb * pow10((xb - t) as nat),
    ensures
        ma % 10 == 0,
{
    let d = (xb - xa) as nat;
    lemma_pow10_add((xa - t) as nat, d);
    assert(((xa - t) as nat) + d == (xb - t) as nat);
    let pa = pow10((xa - t) as nat);
    let pd = pow10(d);
    assert(pow10(d) == 10 * pow10((d - 1) as nat));
    let q = pow10((d - 1) as nat);
    assert(ma * pa == mb * (pa * pd));
    assert(ma == mb * pd) by (nonlinear_arith)
        requires
            ma * pa == mb * (pa * pd),
            pa >= 1,
    ;
    assert(ma == (mb * q) * 10) by (nonlinear_arith)
        requires
            ma == mb * pd,
            pd == 10 * q,
    ;
    assert(ma % 10 == 0) by (nonlinear_arith)
        requires
            ma == (mb * q) * 10,
    ;
}

/// Digits with their exponent scaled to a common base `t`: two such values agree only when
/// the digits and exponents agree, if neither is zero nor a multiple of ten.
proof fn lemma_normal_unique(ma: int, xa: int, mb: int, xb: int, t: int)
    requires
        ma > 0,
        mb > 0,
        ma % 10 != 0,
        mb % 10 != 0,
        t <= xa,
        t <= xb,
        ma * pow10((xa - t) as nat) == mb * pow10((xb - t) as nat),
    ensures
        xa == xb,
        ma == mb,
{
    if xa < xb {
        lemma_normal_lower(ma, xa, mb, xb, t);
    } else if xb < xa {
        lemma_normal_lower(mb, xb, ma, xa, t);
    } else {
        lemma_pow10_add((xa - t) as nat, 0);
        let pa = pow10((xa - t) as nat);
        assert(ma == mb) by (nonlinear_arith)
            requires
                ma * pa == mb * pa,
                pa >= 1,
        ;
    }
}

/// A digit lexeme's normalized digits and exponent, and what `exact_literal_of` reads from them.
proof fn lemma_lexeme_normal(s: Seq<char>, t: int)
    requires
        digit_lexeme(s),
        t <= lexeme_exponent(s),
    ensures
        ({
            let (d, x) = strip_zeros(lexeme_digits(s), lexeme_exponent(s));
            &&& x >= lexeme_exponent(s)
            &&& digits_value(d) >= 0
            &&& (digits_value(d) == 0 || digits_value(d) % 10 != 0)
            &&& scaled_value(s, t) == digits_value(d) * pow10((x - t) as nat)
            &&& parse_int(d, i128::MIN as int, i128::MAX as int) == if digits_value(d) <= i128::MAX {
                Some(digits_value(d))
            } else {
                None::<int>
            }
        }),
{
    let m = mantissa_text(s);
    let d0 = integer_text(m) + fraction_text(m);
    assert(all_digits(lexeme_digits(s))) by {
        if d0.len() > 0 {
            assert forall|i: int| 0 <= i < d0.len() implies is_digit(#[trigger] d0[i]) by {
                if i < integer_text(m).len() {
                    assert(d0[i] == integer_text(m)[i]);
                } else {
                    assert(d0[i] == fraction_text(m)[i - integer_text(m).len()]);
                }
            }
        } else {
            assert(lexeme_digits(s) == seq!['0']);
            assert(is_digit(seq!['0'][0]));
        }
    }
    let e = lexeme_exponent(s);
    lemma_strip_zeros_value(lexeme_digits(s), e);
    let (d, x) = strip_zeros(lexeme_digits(s), e);
    lemma_digits_value_nonneg(d);
    lemma_pow10_add((x - e) as nat, (e - t) as nat);
    assert(((x - e) as nat) + ((e - t) as nat) == (x - t) as nat);
    let n = digits_value(lexeme_digits(s));
    let mv = digits_value(d);
    let p1 = pow10((x - e) as nat);
    let p2 = pow10((e - t) as nat);
    assert(n * p2 == mv * (p1 * p2)) by (nonlinear_arith)
        requires
            n == mv * p1,
    ;
    assert(is_digit(d[0]));
    assert(d[0] != '-' && d[0] != '+');
}

/// `r` is the value of lexeme `s`, compared at the power `10^t`: an `Integer(v)` is the value
/// itself, and a `Decimal { mantissa, exponent }` is `mantissa · 10^exponent` with no trailing
/// zero in the mantissa of a nonzero value.
pub open spec fn literal_is_value(r: ExactLiteral, s: Seq<char>, t: int) -> bool {
    match r {
        ExactLiteral::Integer(v) => v * pow10((-t) as nat) == scaled_value(s, t),
        ExactLiteral::Decimal { mantissa, exponent } => {
            &&& t <= exponent
            &&& mantissa * pow10((exponent - t) as nat) == scaled_value(s, t)
            &&& (scaled_value(s, t) != 0 ==> mantissa % 10 != 0)
        },
    }
}

/// The power of ten at which a lexeme's value is an integer: its exponent, or zero when that
/// is positive.
pub open spec fn value_base(s: Seq<char>) -> int {
    if lexeme_exponent(s) < 0 {
        lexeme_exponent(s)
    } else {
        0
    }
}

/// The value law of exact literals: an `Integer(v)` is the lexeme's value, and a
/// `Decimal { mantissa, exponent }` is `mantissa · 10^exponent`, with no trailing zero in
/// the mantissa of a nonzero value. Here the value is compared at a common power `10^t`.
pub proof fn lemma_exact_literal_value(s: Seq<char>, t: int)
    requires
        digit_lexeme(s),
        literal_fits(s),
        t <= lexeme_exponent(s),
        t <= 0,
    ensures
        literal_is_value(exact_literal_of(s), s, t),
{
    lemma_lexeme_normal(s, t);
    let (d, x) = strip_zeros(lexeme_digits(s), lexeme_exponent(s));
    let mv = digits_value(d);
    if 0 <= x <= 38 && i128::MIN <= mv * pow10(x as nat) <= i128::MAX {
        lemma_pow10_add(x as nat, (-t) as nat);
        assert((x as nat) + ((-t) as nat) == (x - t) as nat);
        let px = pow10(x as nat);
        let pt = pow10((-t) as nat);
        assert((mv * px) * pt == mv * (px * pt)) by (nonlinear_arith);
    } else {
        assert(clamp_i16(x) == x);
        if scaled_value(s, t) != 0 {
            assert(mv != 0);
        }
    }
}

/// Two digit lexemes give the same exact literal exactly when their values agree, provided
/// one of them is nonzero and both fit: trailing fractional zeros never matter, changed
/// digits always do.
pub proof fn lemma_exact_literal_identity(a: Seq<char>, b: Seq<char>, t: int)
    requires
        digit_lexeme(a),
        digit_lexeme(b),
        literal_fits(a),
        literal_fits(b),
        t <= lexeme_exponent(a),
        t <= lexeme_exponent(b),
        t <= 0,
        scaled_value(a, t) != 0 || scaled_value(b, t) != 0,
    ensures
        exact_literal_of(a) == exact_literal_of(b) <==> scaled_value(a, t) == scaled_value(b, t),
{
    lemma_exact_literal_value(a, t);
    lemma_exact_literal_value(b, t);
    if scaled_value(a, t) == scaled_value(b, t) {
        lemma_lexeme_normal(a, t);
        lemma_lexeme_normal(b, t);
        let (da, xa) = strip_zeros(lexeme_digits(a), lexeme_exponent(a));
        let (db, xb) = strip_zeros(lexeme_digits(b), lexeme_exponent(b));
        let ma = digits_value(da);
        let mb = digits_value(db);
        assert(ma != 0) by {
            if ma == 0 {
                assert(0 * pow10((xa - t) as nat) == 0);
            }
        }
        assert(mb != 0) by {
            if mb == 0 {
                assert(0 * pow10((xb - t) as nat) == 0);
            }
        }
        lemma_normal_unique(ma, xa, mb, xb, t);
    }
}

/// `first_of` finds no hit before it.
proof fn lemma_first_of_none(s: Seq<char>, a: char, b: char, j: int)
    requires
        0 <= j < first_of(s, a, b),
    ensures
        0 <= j < s.len(),
        s[j] != a && s[j] != b,
    decreases s.len(),
{
    lemma_first_of_hit(s, a, b);
    if j > 0 {
        assert(s[0] != a && s[0] != b);
        lemma_first_of_none(s.drop_first(), a, b, j - 1);
        assert(s.drop_first()[j - 1] == s[j]);
    }
}

/// `first_of` is a position of the string or its end, and a hit when it is a position.
proof fn lemma_first_of_hit(s: Seq<char>, a: char, b: char)
    ensures
        0 <= first_of(s, a, b) <= s.len(),
        first_of(s, a, b) < s.len() ==> s[first_of(s, a, b)] == a || s[first_of(s, a, b)] == b,
    decreases s.len(),
{
    if s.len() > 0 && s[0] != a && s[0] != b {
        lemma_first_of_hit(s.drop_first(), a, b);
    }
}

proof fn lemma_pow10_bound(k: nat)
    requires
        k <= 38,
    ensures
        1 <= pow10(k) <= 100000000000000000000000000000000000000,
    decreases k,
{
    if k > 0 {
        lemma_pow10_bound((k - 1) as nat);
        if k <= 37 {
            lemma_pow10_small((k - 1) as nat);
        }
    }
    reveal_with_fuel(pow10, 39);
}

proof fn lemma_pow10_small(k: nat)
    requires
        k <= 36,
    ensures
        pow10(k) <= 1000000000000000000000000000000000000,
    decreases k,
{
    reveal_with_fuel(pow10, 37);
}

} // verus!
