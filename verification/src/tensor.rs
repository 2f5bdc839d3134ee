//! Indexed tensor programs: identities, axes, operators, scalar expressions, receipts'
//! vocabulary, and the shapes and evaluation sites of tensor inputs.

use vstd::prelude::*;
use crate::requirements::{DerivativeEvaluation, EvaluationSite};
use crate::scientific::ValueShape;
use crate::semantic::{DifferentialOperator, SemanticMeasure, SemanticShape, TraceSide};
use crate::structure::integrand::{map_inputs, relabel_from, relabelling};

verus! {

pub const QFUNCTION_SCHEMA: &'static str = "scientia-qfunction/1";
pub const TENSOR_PROGRAM_SCHEMA: &'static str = "scientia-tensor-program/1";
pub const OPERATOR_FACTORIZATION_SCHEMA: &'static str = "scientia-operator-factorization/1";

/// The index of an input of a tensor program.
#[derive(Clone, Copy, Debug, PartialEq, Eq, PartialOrd, Ord, Hash, Structural)]
pub struct TensorInputId(pub u32);

/// The index of an axis of a tensor program.
#[derive(Clone, Copy, Debug, PartialEq, Eq, PartialOrd, Ord, Hash, Structural)]
pub struct TensorAxisId(pub u32);

impl TensorInputId {
    pub fn index(self) -> (i: usize)
        ensures
            i == self.0,
    {
        self.0 as usize
    }
}

impl TensorAxisId {
    pub fn index(self) -> (i: usize)
        ensures
            i == self.0,
    {
        self.0 as usize
    }
}

#[derive(Clone, Copy, Debug, PartialEq, Eq, Structural)]
pub enum TensorScalarSemantics {
    Real64,
}

#[derive(Clone, Copy, Debug, PartialEq, Eq, Structural)]
pub enum TensorAxisRole {
    Free,
    Reduction,
}

#[derive(Clone, Copy, Debug, PartialEq, Eq, Structural)]
pub struct TensorAxis {
    pub id: TensorAxisId,
    pub extent: usize,
    pub role: TensorAxisRole,
}

/// A scalar expression of a tensor program, over indexed inputs and axis deltas. A constant
/// holds the IEEE 754 binary64 bit pattern of its value: the logic of this library compares
/// constants by their bits and flips their sign, and never computes with them.
#[derive(Debug, PartialEq, Eq)]
pub enum TensorScalarExpr {
    Constant { bits: u64 },
    Input { input: TensorInputId, indices: Vec<TensorAxisId> },
    Unary { op: TensorUnaryOp, arg: Box<TensorScalarExpr> },
    Binary { op: TensorBinaryOp, lhs: Box<TensorScalarExpr>, rhs: Box<TensorScalarExpr> },
    IndexEqual { lhs: TensorAxisId, rhs: TensorAxisId },
    Reduction { op: TensorReductionOp, axis: TensorAxis, expression: Box<TensorScalarExpr> },
}

/// The value of a scalar expression: the same tree, with the axes of an access as a sequence.
pub enum ScalarTerm {
    Constant { bits: u64 },
    Input { input: TensorInputId, indices: Seq<TensorAxisId> },
    Unary { op: TensorUnaryOp, arg: Box<ScalarTerm> },
    Binary { op: TensorBinaryOp, lhs: Box<ScalarTerm>, rhs: Box<ScalarTerm> },
    IndexEqual { lhs: TensorAxisId, rhs: TensorAxisId },
    Reduction { op: TensorReductionOp, axis: TensorAxis, expression: Box<ScalarTerm> },
}

pub open spec fn term_of(e: TensorScalarExpr) -> ScalarTerm
    decreases e,
{
    match e {
        TensorScalarExpr::Constant { bits } => ScalarTerm::Constant { bits },
        TensorScalarExpr::Input { input, indices } => ScalarTerm::Input { input, indices: indices@ },
        TensorScalarExpr::Unary { op, arg } => ScalarTerm::Unary { op, arg: Box::new(term_of(*arg)) },
        TensorScalarExpr::Binary { op, lhs, rhs } => ScalarTerm::Binary {
            op,
            lhs: Box::new(term_of(*lhs)),
            rhs: Box::new(term_of(*rhs)),
        },
        TensorScalarExpr::IndexEqual { lhs, rhs } => ScalarTerm::IndexEqual { lhs, rhs },
        TensorScalarExpr::Reduction { op, axis, expression } => ScalarTerm::Reduction {
            op,
            axis,
            expression: Box::new(term_of(*expression)),
        },
    }
}

impl View for TensorScalarExpr {
    type V = ScalarTerm;

    open spec fn view(&self) -> ScalarTerm {
        term_of(*self)
    }
}

/// Whether a term reads the given input anywhere.
pub open spec fn mentions(e: ScalarTerm, input: TensorInputId) -> bool
    decreases e,
{
    match e {
        ScalarTerm::Input { input: read, .. } => read == input,
        ScalarTerm::Unary { arg, .. } => mentions(*arg, input),
        ScalarTerm::Binary { lhs, rhs, .. } => mentions(*lhs, input) || mentions(*rhs, input),
        ScalarTerm::Reduction { expression, .. } => mentions(*expression, input),
        _ => false,
    }
}

impl Clone for TensorScalarExpr {
    fn clone(&self) -> (r: Self)
        ensures
            r@ == self@,
    {
        copy_expr(self)
    }
}

fn copy_expr(e: &TensorScalarExpr) -> (r: TensorScalarExpr)
    ensures
        r@ == e@,
    decreases e,
{
    match e {
        TensorScalarExpr::Constant { bits } => TensorScalarExpr::Constant { bits: *bits },
        TensorScalarExpr::Input { input, indices } => TensorScalarExpr::Input {
            input: *input,
            indices: copy_axes(indices),
        },
        TensorScalarExpr::Unary { op, arg } => TensorScalarExpr::Unary {
            op: *op,
            arg: Box::new(copy_expr(arg)),
        },
        TensorScalarExpr::Binary { op, lhs, rhs } => TensorScalarExpr::Binary {
            op: *op,
            lhs: Box::new(copy_expr(lhs)),
            rhs: Box::new(copy_expr(rhs)),
        },
        TensorScalarExpr::IndexEqual { lhs, rhs } => TensorScalarExpr::IndexEqual { lhs: *lhs, rhs: *rhs },
        TensorScalarExpr::Reduction { op, axis, expression } => TensorScalarExpr::Reduction {
            op: *op,
            axis: *axis,
            expression: Box::new(copy_expr(expression)),
        },
    }
}

/// Whether `expression` reads `input` anywhere.
pub fn depends_on(expression: &TensorScalarExpr, input: TensorInputId) -> (r: bool)
    ensures
        r == mentions(expression@, input),
    decreases expression,
{
    match expression {
        TensorScalarExpr::Input { input: candidate, .. } => *candidate == input,
        TensorScalarExpr::Unary { arg, .. } => depends_on(arg, input),
        TensorScalarExpr::Binary { lhs, rhs, .. } => depends_on(lhs, input) || depends_on(rhs, input),
        TensorScalarExpr::Reduction { expression, .. } => depends_on(expression, input),
        TensorScalarExpr::Constant { .. } | TensorScalarExpr::IndexEqual { .. } => false,
    }
}

/// A copy of the axes of an indexed access.
pub fn copy_axes(axes: &Vec<TensorAxisId>) -> (r: Vec<TensorAxisId>)
    ensures
        r@ == axes@,
{
    let mut r: Vec<TensorAxisId> = Vec::new();
    let mut i: usize = 0;
    while i < axes.len()
        invariant
            i <= axes.len(),
            r@ == axes@.subrange(0, i as int),
        decreases axes.len() - i,
    {
        r.push(axes[i]);
        i = i + 1;
    }
    proof {
        assert(r@ =~= axes@);
    }
    r
}

/// The side of a facet (or the cell, or a point) a tensor input is evaluated on.
#[derive(Clone, Copy, Debug, PartialEq, Eq, PartialOrd, Ord, Structural)]
pub enum TensorSide {
    Cell,
    Exterior,
    Minus,
    Plus,
    Point,
}

#[derive(Clone, Copy, Debug, PartialEq, Eq, Structural)]
pub enum TensorInputRole {
    Active,
    Passive,
    External,
    Direction { primal: TensorInputId },
    /// An externally supplied tangent value `d[property]/d[wrt]`, which a directional
    /// derivative multiplies against `wrt`'s own direction to form a chain-rule term.
    PropertyTangent { property: TensorInputId, wrt: TensorInputId },
}

#[derive(Clone, Copy, Debug, PartialEq, Eq, Structural)]
pub enum TensorProgramInputRole {
    Test,
    Active,
    Passive,
    External,
}

#[derive(Clone, Copy, Debug, PartialEq, Eq, Structural)]
pub enum TensorUnaryOp {
    Neg,
    Abs,
    Sqrt,
    Exp,
    Ln,
    Sin,
    Cos,
    Tan,
    Floor,
    Ceil,
}

#[derive(Clone, Copy, Debug, PartialEq, Eq, Structural)]
pub enum TensorBinaryOp {
    Add,
    Sub,
    Mul,
    Div,
    Pow,
    Min,
    Max,
    Atan2,
}

#[derive(Clone, Copy, Debug, PartialEq, Eq, Structural)]
pub enum TensorReductionOp {
    Sum,
}

#[derive(Clone, Copy, Debug, PartialEq, Eq, Structural)]
pub enum QFunctionOutputRole {
    TestDual,
}

#[derive(Clone, Copy, Debug, PartialEq, Eq, Structural)]
pub enum BasisAdjoint {
    Transpose,
    ConjugateTranspose,
}

#[derive(Clone, Copy, Debug, PartialEq, Eq, Structural)]
pub enum QFunctionConstruction {
    TestDirectionalDerivative,
    SymbolicJvp,
}

#[derive(Clone, Copy, Debug, PartialEq, Eq, Structural)]
pub enum TensorProgramConstruction {
    TypedFormIntegrand,
}

#[derive(Clone, Copy, Debug, PartialEq, Eq, Structural)]
pub enum DerivativeMode {
    Jvp,
}

#[derive(Clone, Copy, Debug, PartialEq, Eq, Structural)]
pub enum DerivativeEvaluationPoint {
    RuntimeBindings,
}

#[derive(Clone, Copy, Debug, PartialEq, Eq, Structural)]
pub enum DerivativeStateSemantics {
    Stateless,
}

#[derive(Clone, Copy, Debug, PartialEq, Eq, Structural)]
pub enum DerivativeConstructionMethod {
    SymbolicDirectionalDifferentiation,
}

#[derive(Clone, Copy, Debug, PartialEq, Eq, Structural)]
pub enum DerivativeEvidence {
    IndexedAlgebraIdentity,
}

#[derive(Clone, Copy, Debug, PartialEq, Eq, Structural)]
pub enum RestrictionDirection {
    Gather,
    Scatter,
}

#[derive(Clone, Copy, Debug, PartialEq, Eq, Structural)]
pub enum OperatorFactorizationMethod {
    TypedIndexedFc4,
}

/// The extents of a value shape's axes.
pub open spec fn value_extents(shape: ValueShape) -> Seq<usize> {
    match shape {
        ValueShape::Scalar => seq![],
        ValueShape::Vector(extent) => seq![extent as usize],
        ValueShape::Tensor { rows, cols } => seq![rows as usize, cols as usize],
        ValueShape::SymmetricTensor(extent) => seq![extent as usize, extent as usize],
    }
}

pub fn value_shape(shape: &ValueShape) -> (r: Vec<usize>)
    ensures
        r@ == value_extents(*shape),
{
    let mut r: Vec<usize> = Vec::new();
    match shape {
        ValueShape::Scalar => {},
        ValueShape::Vector(extent) => {
            r.push(*extent as usize);
        },
        ValueShape::Tensor { rows, cols } => {
            r.push(*rows as usize);
            r.push(*cols as usize);
        },
        ValueShape::SymmetricTensor(extent) => {
            r.push(*extent as usize);
            r.push(*extent as usize);
        },
    }
    proof {
        assert(r@ =~= value_extents(*shape));
    }
    r
}

/// The extents of a semantic shape: those of a numeric shape, none for a deferred one, and
/// `None` for a shape that is not a value.
pub fn semantic_value_shape(shape: &SemanticShape) -> (r: Option<Vec<usize>>)
    ensures
        match *shape {
            SemanticShape::Numeric(s) => r is Some && r->Some_0@ == value_extents(s),
            SemanticShape::Deferred => r is Some && r->Some_0@.len() == 0,
            _ => r is None,
        },
{
    match shape {
        SemanticShape::Numeric(s) => Some(value_shape(s)),
        SemanticShape::Deferred => Some(Vec::new()),
        _ => None,
    }
}

/// The derivative evaluation that a differential operator asks of its argument.
pub open spec fn evaluation_of(operator: DifferentialOperator) -> DerivativeEvaluation {
    match operator {
        DifferentialOperator::Gradient => DerivativeEvaluation::Gradient,
        DifferentialOperator::Divergence => DerivativeEvaluation::Divergence,
        DifferentialOperator::Curl => DerivativeEvaluation::Curl,
        DifferentialOperator::RotatedGradient => DerivativeEvaluation::RotatedGradient,
        DifferentialOperator::SymmetricGradient => DerivativeEvaluation::SymmetricGradient,
        DifferentialOperator::TimeDerivative => DerivativeEvaluation::TimeDerivative,
    }
}

pub fn derivative_evaluation(operator: DifferentialOperator) -> (d: DerivativeEvaluation)
    ensures
        d == evaluation_of(operator),
{
    match operator {
        DifferentialOperator::Gradient => DerivativeEvaluation::Gradient,
        DifferentialOperator::Divergence => DerivativeEvaluation::Divergence,
        DifferentialOperator::Curl => DerivativeEvaluation::Curl,
        DifferentialOperator::RotatedGradient => DerivativeEvaluation::RotatedGradient,
        DifferentialOperator::SymmetricGradient => DerivativeEvaluation::SymmetricGradient,
        DifferentialOperator::TimeDerivative => DerivativeEvaluation::TimeDerivative,
    }
}

/// The evaluation site of an integral's measure: facets of an interior or interface region
/// are evaluated from the minus side.
pub open spec fn measure_site(measure: SemanticMeasure) -> EvaluationSite {
    match measure {
        SemanticMeasure::Cell { .. } => EvaluationSite::Cell,
        SemanticMeasure::ExteriorFacet { .. } => EvaluationSite::ExteriorTrace,
        SemanticMeasure::InteriorFacet { .. } => EvaluationSite::MinusTrace,
        SemanticMeasure::Interface { .. } => EvaluationSite::MinusTrace,
        SemanticMeasure::Point { .. } => EvaluationSite::Point,
    }
}

pub fn site_for_measure(measure: &SemanticMeasure) -> (s: EvaluationSite)
    ensures
        s == measure_site(*measure),
{
    match measure {
        SemanticMeasure::Cell { .. } => EvaluationSite::Cell,
        SemanticMeasure::ExteriorFacet { .. } => EvaluationSite::ExteriorTrace,
        SemanticMeasure::InteriorFacet { .. } => EvaluationSite::MinusTrace,
        SemanticMeasure::Interface { .. } => EvaluationSite::MinusTrace,
        SemanticMeasure::Point { .. } => EvaluationSite::Point,
    }
}

/// The evaluation site of a trace taken from one side.
pub open spec fn trace_site(side: TraceSide) -> EvaluationSite {
    match side {
        TraceSide::Exterior => EvaluationSite::ExteriorTrace,
        TraceSide::Minus => EvaluationSite::MinusTrace,
        TraceSide::Plus => EvaluationSite::PlusTrace,
    }
}

pub fn site_for_trace(side: TraceSide) -> (s: EvaluationSite)
    ensures
        s == trace_site(side),
{
    match side {
        TraceSide::Exterior => EvaluationSite::ExteriorTrace,
        TraceSide::Minus => EvaluationSite::MinusTrace,
        TraceSide::Plus => EvaluationSite::PlusTrace,
    }
}

/// The tensor side that an evaluation site is read on.
pub open spec fn site_side(site: EvaluationSite) -> TensorSide {
    match site {
        EvaluationSite::Cell => TensorSide::Cell,
        EvaluationSite::ExteriorTrace => TensorSide::Exterior,
        EvaluationSite::MinusTrace => TensorSide::Minus,
        EvaluationSite::PlusTrace => TensorSide::Plus,
        EvaluationSite::Point => TensorSide::Point,
    }
}

pub fn side_for_site(site: EvaluationSite) -> (s: TensorSide)
    ensures
        s == site_side(site),
{
    match site {
        EvaluationSite::Cell => TensorSide::Cell,
        EvaluationSite::ExteriorTrace => TensorSide::Exterior,
        EvaluationSite::MinusTrace => TensorSide::Minus,
        EvaluationSite::PlusTrace => TensorSide::Plus,
        EvaluationSite::Point => TensorSide::Point,
    }
}

/// Reading a trace's site back as a tensor side gives the side the trace was taken from: no
/// two trace sides share a site or a tensor side.
pub proof fn lemma_trace_sides_distinct(a: TraceSide, b: TraceSide)
    ensures
        trace_site(a) == trace_site(b) ==> a == b,
        site_side(trace_site(a)) == site_side(trace_site(b)) ==> a == b,
        site_side(trace_site(a)) != TensorSide::Cell,
        site_side(trace_site(a)) != TensorSide::Point,
{
}

/// Whether a list of (from, to) entries names the input `i`.
pub open spec fn names_input(map: Seq<(TensorInputId, TensorInputId)>, i: TensorInputId) -> bool {
    exists|k: int| 0 <= k < map.len() && (#[trigger] map[k]).0 == i
}

/// The first input, in a left-to-right walk, that a list of (from, to) entries does not name.
pub open spec fn first_unmapped(e: ScalarTerm, map: Seq<(TensorInputId, TensorInputId)>) -> Option<TensorInputId>
    decreases e,
{
    match e {
        ScalarTerm::Input { input, .. } => if names_input(map, input) { None } else { Some(input) },
        ScalarTerm::Unary { arg, .. } => first_unmapped(*arg, map),
        ScalarTerm::Binary { lhs, rhs, .. } => if first_unmapped(*lhs, map) is Some {
            first_unmapped(*lhs, map)
        } else {
            first_unmapped(*rhs, map)
        },
        ScalarTerm::Reduction { expression, .. } => first_unmapped(*expression, map),
        _ => None,
    }
}

fn lookup_input(map: &[(TensorInputId, TensorInputId)], i: TensorInputId) -> (r: Option<TensorInputId>)
    ensures
        match r {
            Some(to) => names_input(map@, i) && to == relabel_from(map@, 0, i),
            None => !names_input(map@, i),
        },
{
    let mut k: usize = 0;
    while k < map.len()
        invariant
            k <= map@.len(),
            relabel_from(map@, 0, i) == relabel_from(map@, k as int, i),
            forall|j: int| 0 <= j < k ==> (#[trigger] map@[j]).0 != i,
        decreases map@.len() - k,
    {
        if map[k].0 == i {
            return Some(map[k].1);
        }
        k = k + 1;
    }
    None
}

/// The expression with every input renamed through `remap`, a list of (from, to) entries of
/// which the first that names an input decides; the first input (left to right) that no entry
/// names is the error.
pub fn remap_inputs(expression: &TensorScalarExpr, remap: &[(TensorInputId, TensorInputId)]) -> (r: Result<TensorScalarExpr, TensorInputId>)
    ensures
        match r {
            Ok(e) => first_unmapped(expression@, remap@) is None && e@ == map_inputs(expression@, relabelling(remap@)),
            Err(i) => first_unmapped(expression@, remap@) == Some(i),
        },
    decreases expression,
{
    match expression {
        TensorScalarExpr::Constant { bits } => Ok(TensorScalarExpr::Constant { bits: *bits }),
        TensorScalarExpr::Input { input, indices } => match lookup_input(remap, *input) {
            Some(to) => Ok(TensorScalarExpr::Input { input: to, indices: copy_axes(indices) }),
            None => Err(*input),
        },
        TensorScalarExpr::Unary { op, arg } => match remap_inputs(arg, remap) {
            Ok(a) => Ok(TensorScalarExpr::Unary { op: *op, arg: Box::new(a) }),
            Err(i) => Err(i),
        },
        TensorScalarExpr::Binary { op, lhs, rhs } => match remap_inputs(lhs, remap) {
            Ok(l) => match remap_inputs(rhs, remap) {
                Ok(r) => Ok(TensorScalarExpr::Binary { op: *op, lhs: Box::new(l), rhs: Box::new(r) }),
                Err(i) => Err(i),
            },
            Err(i) => Err(i),
        },
        TensorScalarExpr::IndexEqual { lhs, rhs } => Ok(TensorScalarExpr::IndexEqual { lhs: *lhs, rhs: *rhs }),
        TensorScalarExpr::Reduction { op, axis, expression } => match remap_inputs(expression, remap) {
            Ok(e) => Ok(TensorScalarExpr::Reduction { op: *op, axis: *axis, expression: Box::new(e) }),
            Err(i) => Err(i),
        },
    }
}

} // verus!
