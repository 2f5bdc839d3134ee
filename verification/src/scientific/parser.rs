//! Reading declarations from the tokens of a scientific module: a cursor over the tokens with
//! the errors met so far, and the declarations read with it.

use vstd::prelude::*;
use crate::lexer::{
    Token, TokenKind, TokenView, tokens_view, errors_view, error_view, kind_view, lex, lex_checked, lex_from, lex_safe,
    lex_step, lexed, step_next,
};
use crate::scientific::{
    binary_binding, binding_of, error_diagnostic_parts, BinaryOp, SCIENTIFIC_SCHEMA, Continuity, FieldRole, ScientificError, SpaceFamily, SpaceSpec, TimeRole,
    UnaryOp, ValueShape,
};
use crate::scientific::model::{
    BoundaryConditionDecl, ConditionDecl, ConstitutiveBinding, EquationDecl, Expr, FieldDecl, FormDecl, InputDecl,
    IntegralDecl, ObjectiveDecl, ObjectiveSense, ObservableDecl, PropertyBinding, ProviderDecl, ProviderDomainBound,
    QuantityLiteral, ScientificModel, ScientificModule, Spanned, ValueDecl, VerificationAnnotation,
};
use crate::scientific::{
    BoundaryConditionKind, CoordinateSystem, DerivativeContract, DomainDecl, InputDeclKind, Measure, PropertyLocality,
    ProviderInputDecl,
};
use crate::scientific::coupling::{text_before, text_lt};
use crate::semantic::{ExactLiteral, exact_literal_of, lexeme_exponent_fits};
use crate::source::{SourceDiagnostic, SourceSeverity, SourceSpan};
use crate::text::{text_eq, signed_decimal, push_signed_decimal};

verus! {

// ---------------------------------------------------------------------------------------
// The cursor.
// ---------------------------------------------------------------------------------------

/// Where reading stands: the position of the current token and the errors reported so far.
pub struct PState {
    pub pos: int,
    pub errs: Seq<(Seq<char>, SourceSpan)>,
}

/// Tokens that end with `Eof`, the only `Eof`.
pub open spec fn tokens_ok(t: Seq<(TokenView, SourceSpan)>) -> bool {
    &&& t.len() > 0
    &&& t.last().0 is Eof
}

/// The state is inside the tokens.
pub open spec fn inside(t: Seq<(TokenView, SourceSpan)>, s: PState) -> bool {
    0 <= s.pos < t.len()
}

pub open spec fn cur(t: Seq<(TokenView, SourceSpan)>, s: PState) -> (TokenView, SourceSpan) {
    t[s.pos]
}

/// Past the current token, unless it is the end.
pub open spec fn advance(t: Seq<(TokenView, SourceSpan)>, s: PState) -> PState {
    PState { pos: if cur(t, s).0 is Eof { s.pos } else { s.pos + 1 }, errs: s.errs }
}

/// The state with one more error.
pub open spec fn report(s: PState, message: Seq<char>, span: SourceSpan) -> PState {
    PState { pos: s.pos, errs: s.errs.push((message, span)) }
}

/// An error at the current token.
pub open spec fn error_here(t: Seq<(TokenView, SourceSpan)>, s: PState, message: Seq<char>) -> PState {
    report(s, message, cur(t, s).1)
}

pub open spec fn at_ident(t: Seq<(TokenView, SourceSpan)>, s: PState, x: Seq<char>) -> bool {
    cur(t, s).0 == TokenView::Ident(x)
}

pub open spec fn at_punct(t: Seq<(TokenView, SourceSpan)>, s: PState, c: char) -> bool {
    cur(t, s).0 == TokenView::Punct(c)
}

pub open spec fn at_op(t: Seq<(TokenView, SourceSpan)>, s: PState, op: Seq<char>) -> bool {
    cur(t, s).0 == TokenView::Op(op)
}

/// Take the identifier `x` if it is current.
pub open spec fn eat_ident_s(t: Seq<(TokenView, SourceSpan)>, s: PState, x: Seq<char>) -> (bool, PState) {
    if at_ident(t, s, x) {
        (true, advance(t, s))
    } else {
        (false, s)
    }
}

/// Take the punctuation `c` if it is current.
pub open spec fn eat_punct_s(t: Seq<(TokenView, SourceSpan)>, s: PState, c: char) -> (bool, PState) {
    if at_punct(t, s, c) {
        (true, advance(t, s))
    } else {
        (false, s)
    }
}

/// Take the operator `op` if it is current.
pub open spec fn eat_op_s(t: Seq<(TokenView, SourceSpan)>, s: PState, op: Seq<char>) -> (bool, PState) {
    if at_op(t, s, op) {
        (true, advance(t, s))
    } else {
        (false, s)
    }
}

pub open spec fn expected_text(c: char) -> Seq<char> {
    "expected `"@ + seq![c] + "`"@
}

/// Take the punctuation `c`, or report that it was expected.
pub open spec fn expect_punct_s(t: Seq<(TokenView, SourceSpan)>, s: PState, c: char) -> (bool, PState) {
    if at_punct(t, s, c) {
        (true, advance(t, s))
    } else {
        (false, error_here(t, s, expected_text(c)))
    }
}

/// Take the current token; give its name when it is an identifier, else report that one was
/// expected.
pub open spec fn ident_value_s(t: Seq<(TokenView, SourceSpan)>, s: PState) -> (
    Option<(Seq<char>, SourceSpan)>,
    PState,
) {
    match cur(t, s).0 {
        TokenView::Ident(x) => (Some((x, cur(t, s).1)), advance(t, s)),
        _ => (None, report(advance(t, s), "expected identifier"@, cur(t, s).1)),
    }
}

/// Skip to past the next `;`, or to the next `}` or the end.
pub open spec fn sync_s(t: Seq<(TokenView, SourceSpan)>, s: PState) -> PState
    decreases t.len() - s.pos,
{
    if !inside(t, s) || cur(t, s).0 is Eof || at_punct(t, s, '}') {
        s
    } else if at_punct(t, s, ';') {
        advance(t, s)
    } else {
        sync_s(t, advance(t, s))
    }
}

/// The exact integer a number lexeme denotes, if it is one.
pub open spec fn lexeme_integer(x: Seq<char>) -> Option<int> {
    if lexeme_exponent_fits(x) {
        match exact_literal_of(x) {
            ExactLiteral::Integer(v) => Some(v as int),
            _ => None,
        }
    } else {
        None
    }
}

/// Take a number token that denotes an integer from 0 through 255, else report it and give
/// `default`.
pub open spec fn number_u8_s(t: Seq<(TokenView, SourceSpan)>, s: PState, default: u8) -> (u8, PState) {
    let s1 = advance(t, s);
    match cur(t, s).0 {
        TokenView::Number(x) => match lexeme_integer(x) {
            Some(v) => if 0 <= v <= 255 {
                (v as u8, s1)
            } else {
                (default, report(s1, "expected an integer from 0 through 255"@, cur(t, s).1))
            },
            None => (default, report(s1, "expected an integer from 0 through 255"@, cur(t, s).1)),
        },
        _ => (default, report(s1, "expected an integer from 0 through 255"@, cur(t, s).1)),
    }
}


/// A text and a span, with the text as characters.
pub open spec fn text_opt(r: Option<(String, SourceSpan)>) -> Option<(Seq<char>, SourceSpan)> {
    match r {
        Some((x, sp)) => Some((x@, sp)),
        None => None,
    }
}

/// An integer as an `i64` would hold it, saturating.
pub open spec fn saturate_i64(v: int) -> int {
    if v > i64::MAX {
        i64::MAX as int
    } else if v < i64::MIN {
        i64::MIN as int
    } else {
        v
    }
}

/// A unit atom: a unit name, or a parenthesized unit expression.
pub open spec fn unit_atom_s(t: Seq<(TokenView, SourceSpan)>, s: PState) -> (Option<(Seq<char>, SourceSpan)>, PState)
    decreases t.len() - s.pos, 0nat,
{
    if !inside(t, s) {
        (None, s)
    } else if at_punct(t, s, '(') {
        let start = cur(t, s).1.start;
        let s1 = advance(t, s);
        match unit_expr_s(t, s1) {
            (Some((inner, _)), s2) => {
                let end = if inside(t, s2) { cur(t, s2).1.end } else { 0 };
                let s3 = expect_punct_s(t, s2, ')').1;
                (Some(("("@ + inner + ")"@, SourceSpan { start, end })), s3)
            },
            (None, s2) => (None, s2),
        }
    } else {
        ident_value_s(t, s)
    }
}

/// A unit atom with an optional integer exponent, as `m^2` or `s^-1`.
pub open spec fn unit_term_s(t: Seq<(TokenView, SourceSpan)>, s: PState) -> (Option<(Seq<char>, SourceSpan)>, PState)
    decreases t.len() - s.pos, 1nat,
{
    match unit_atom_s(t, s) {
        (None, s1) => (None, s1),
        (Some((text, span)), s1) => if inside(t, s1) && at_op(t, s1, "^"@) {
            let s2 = advance(t, s1);
            let (neg, s3) = eat_op_s(t, s2, "-"@);
            let tok = cur(t, s3);
            let s4 = advance(t, s3);
            let failed = (Some((text, span)), report(s4, "expected an integer unit exponent"@, tok.1));
            match tok.0 {
                TokenView::Number(x) => match lexeme_integer(x) {
                    Some(v) => (
                        Some((
                            text + "^"@ + (if neg { "-"@ } else { seq![] }) + signed_decimal(saturate_i64(v)),
                            SourceSpan { start: span.start, end: tok.1.end },
                        )),
                        s4,
                    ),
                    None => failed,
                },
                _ => failed,
            }
        } else {
            (Some((text, span)), s1)
        },
    }
}

/// The rest of a unit expression after `text`: `*` or `/` and a unit term, repeatedly.
pub open spec fn unit_rest_s(
    t: Seq<(TokenView, SourceSpan)>,
    s: PState,
    text: Seq<char>,
    span: SourceSpan,
) -> (Option<(Seq<char>, SourceSpan)>, PState)
    decreases t.len() - s.pos, 2nat,
{
    if inside(t, s) && (at_op(t, s, "*"@) || at_op(t, s, "/"@)) {
        let sep = if at_op(t, s, "*"@) { '*' } else { '/' };
        let s1 = advance(t, s);
        match unit_term_s(t, s1) {
            (None, s2) => (None, s2),
            (Some((rhs, rspan)), s2) => {
                let text2 = text.push(sep) + rhs;
                let span2 = SourceSpan { start: span.start, end: rspan.end };
                if s.pos < s2.pos <= t.len() {
                    unit_rest_s(t, s2, text2, span2)
                } else {
                    (Some((text2, span2)), s2)
                }
            },
        }
    } else {
        (Some((text, span)), s)
    }
}

/// A unit expression: unit terms joined by `*` and `/`, as `W/(m*K)`. (Reading always moves
/// forward, so the guards on positions always hold.)
pub open spec fn unit_expr_s(t: Seq<(TokenView, SourceSpan)>, s: PState) -> (Option<(Seq<char>, SourceSpan)>, PState)
    decreases t.len() - s.pos, 3nat,
{
    if !inside(t, s) {
        (None, s)
    } else {
        match unit_term_s(t, s) {
            (None, s1) => (None, s1),
            (Some((text, span)), s1) => if s.pos <= s1.pos && s1.pos <= t.len() {
                unit_rest_s(t, s1, text, span)
            } else {
                (Some((text, span)), s1)
            },
        }
    }
}


// ---------------------------------------------------------------------------------------
// Field declarations.
// ---------------------------------------------------------------------------------------

/// A quantity literal with its texts as characters.
pub struct QuantityView {
    pub lexeme: Seq<char>,
    pub unit: Seq<char>,
    pub kind: Seq<char>,
}

pub open spec fn quantity_view(q: QuantityLiteral) -> QuantityView {
    QuantityView { lexeme: q.lexeme@, unit: q.unit@, kind: q.kind@ }
}

pub open spec fn quantity_opt_view(q: Option<QuantityLiteral>) -> Option<QuantityView> {
    match q {
        Some(x) => Some(quantity_view(x)),
        None => None,
    }
}

pub open spec fn string_opt(o: Option<String>) -> Option<Seq<char>> {
    match o {
        Some(x) => Some(x@),
        None => None,
    }
}

/// A number and the unit after it; the kind is the given one, or `scientia:Unspecified`.
pub open spec fn quantity_s(t: Seq<(TokenView, SourceSpan)>, s: PState, kind: Option<Seq<char>>) -> (
    Option<QuantityView>,
    PState,
) {
    let s1 = advance(t, s);
    match cur(t, s).0 {
        TokenView::Number(x) => match ident_value_s(t, s1) {
            (None, s2) => (None, s2),
            (Some((u, _)), s2) => (
                Some(
                    QuantityView {
                        lexeme: x,
                        unit: u,
                        kind: match kind {
                            Some(k) => k,
                            None => "scientia:Unspecified"@,
                        },
                    },
                ),
                s2,
            ),
        },
        _ => (None, error_here(t, s1, "expected quantity value"@)),
    }
}

/// The attributes of a field declaration's block.
pub struct FieldAttrs {
    pub quantity_kind: Option<Seq<char>>,
    pub quantity_kind_span: Option<SourceSpan>,
    pub unit: Option<Seq<char>>,
    pub unit_span: Option<SourceSpan>,
    pub nominal: Option<QuantityView>,
    pub physical_min: Option<QuantityView>,
    pub physical_max: Option<QuantityView>,
    pub time_role: Option<TimeRole>,
}

pub open spec fn no_attrs() -> FieldAttrs {
    FieldAttrs {
        quantity_kind: None,
        quantity_kind_span: None,
        unit: None,
        unit_span: None,
        nominal: None,
        physical_min: None,
        physical_max: None,
        time_role: None,
    }
}

/// The value of attribute `key`, read after its `=`; an unknown key is reported and skipped.
pub open spec fn attr_value_s(t: Seq<(TokenView, SourceSpan)>, s: PState, key: Seq<char>, a: FieldAttrs) -> (
    FieldAttrs,
    PState,
) {
    if key == "quantity"@ {
        match ident_value_s(t, s) {
            (Some((k, sp)), s1) => (FieldAttrs { quantity_kind: Some(k), quantity_kind_span: Some(sp), ..a }, s1),
            (None, s1) => (a, s1),
        }
    } else if key == "unit"@ {
        match unit_expr_s(t, s) {
            (Some((u, sp)), s1) => (FieldAttrs { unit: Some(u), unit_span: Some(sp), ..a }, s1),
            (None, s1) => (a, s1),
        }
    } else if key == "nominal"@ {
        let (q, s1) = quantity_s(t, s, a.quantity_kind);
        (FieldAttrs { nominal: q, ..a }, s1)
    } else if key == "min"@ {
        let (q, s1) = quantity_s(t, s, a.quantity_kind);
        (FieldAttrs { physical_min: q, ..a }, s1)
    } else if key == "max"@ {
        let (q, s1) = quantity_s(t, s, a.quantity_kind);
        (FieldAttrs { physical_max: q, ..a }, s1)
    } else if key == "time_role"@ {
        match ident_value_s(t, s) {
            (Some((name, sp)), s1) => if name == "algebraic"@ {
                (FieldAttrs { time_role: Some(TimeRole::Algebraic), ..a }, s1)
            } else if name == "differential"@ {
                (FieldAttrs { time_role: Some(TimeRole::Differential), ..a }, s1)
            } else {
                (FieldAttrs { time_role: None, ..a }, report(s1, "unknown time role `"@ + name + "`"@, sp))
            },
            (None, s1) => (a, s1),
        }
    } else {
        (a, sync_s(t, error_here(t, s, "unknown field attribute `"@ + key + "`"@)))
    }
}

/// The attributes up to the closing `}` or the end: `key [=] value [;]`, repeatedly; `None`
/// when a key is not an identifier.
pub open spec fn attrs_s(t: Seq<(TokenView, SourceSpan)>, s: PState, a: FieldAttrs) -> (Option<FieldAttrs>, PState)
    decreases t.len() - s.pos,
{
    if !inside(t, s) || cur(t, s).0 is Eof || at_punct(t, s, '}') {
        (Some(a), s)
    } else {
        match ident_value_s(t, s) {
            (None, s1) => (None, s1),
            (Some((key, _)), s1) => {
                let s2 = eat_op_s(t, s1, "="@).1;
                let (a2, s3) = attr_value_s(t, s2, key, a);
                let s4 = eat_punct_s(t, s3, ';').1;
                if s.pos < s4.pos <= t.len() {
                    attrs_s(t, s4, a2)
                } else {
                    (Some(a2), s4)
                }
            },
        }
    }
}

/// The value shape: `scalar`, `vector(n)`, `tensor(a[,] b)`, or scalar when none is written.
pub open spec fn shape_s(t: Seq<(TokenView, SourceSpan)>, s: PState) -> (ValueShape, PState) {
    if at_ident(t, s, "scalar"@) {
        (ValueShape::Scalar, advance(t, s))
    } else if at_ident(t, s, "vector"@) {
        let s2 = expect_punct_s(t, advance(t, s), '(').1;
        let (n, s3) = number_u8_s(t, s2, 3);
        (ValueShape::Vector(n), expect_punct_s(t, s3, ')').1)
    } else if at_ident(t, s, "tensor"@) {
        let s2 = expect_punct_s(t, advance(t, s), '(').1;
        let (r, s3) = number_u8_s(t, s2, 3);
        let s4 = eat_punct_s(t, s3, ',').1;
        let (c, s5) = number_u8_s(t, s4, r);
        (ValueShape::Tensor { rows: r, cols: c }, expect_punct_s(t, s5, ')').1)
    } else {
        (ValueShape::Scalar, s)
    }
}

/// The order of a space: `order [=] n`, or a bare number, or 1.
pub open spec fn order_s(t: Seq<(TokenView, SourceSpan)>, s: PState) -> (u8, PState) {
    if at_ident(t, s, "order"@) {
        number_u8_s(t, eat_op_s(t, advance(t, s), "="@).1, 1)
    } else if cur(t, s).0 is Number {
        number_u8_s(t, s, 1)
    } else {
        (1, s)
    }
}

pub open spec fn role_of(name: Seq<char>) -> Option<FieldRole> {
    if name == "state"@ {
        Some(FieldRole::State)
    } else if name == "unknown"@ {
        Some(FieldRole::Unknown)
    } else if name == "test"@ {
        Some(FieldRole::Test)
    } else if name == "trial"@ {
        Some(FieldRole::Trial)
    } else if name == "coefficient"@ {
        Some(FieldRole::Coefficient)
    } else if name == "parameter"@ {
        Some(FieldRole::Parameter)
    } else if name == "derived"@ {
        Some(FieldRole::Derived)
    } else {
        None
    }
}

pub open spec fn space_of(family: Seq<char>, order: u8) -> Option<SpaceSpec> {
    if family == "H1"@ {
        Some(SpaceSpec { family: SpaceFamily::H1, order, continuity: Continuity::Continuous })
    } else if family == "L2"@ {
        Some(SpaceSpec { family: SpaceFamily::L2, order, continuity: Continuity::Discontinuous })
    } else if family == "HCurl"@ || family == "Hcurl"@ {
        Some(SpaceSpec { family: SpaceFamily::HCurl, order, continuity: Continuity::Tangential })
    } else if family == "HDiv"@ || family == "Hdiv"@ {
        Some(SpaceSpec { family: SpaceFamily::HDiv, order, continuity: Continuity::Normal })
    } else if family == "DG"@ {
        Some(SpaceSpec { family: SpaceFamily::Dg, order, continuity: Continuity::Discontinuous })
    } else {
        None
    }
}

/// A field declaration with its texts as characters.
pub struct FieldView {
    pub name: Seq<char>,
    pub role: FieldRole,
    pub shape: ValueShape,
    pub space: SpaceSpec,
    pub domain: Seq<char>,
    pub domain_span: SourceSpan,
    pub attrs: FieldAttrs,
    pub span: SourceSpan,
}

pub open spec fn field_view(f: FieldDecl) -> FieldView {
    FieldView {
        name: f.name@,
        role: f.role,
        shape: f.shape,
        space: f.space,
        domain: f.domain@,
        domain_span: f.domain_span,
        attrs: FieldAttrs {
            quantity_kind: string_opt(f.quantity_kind),
            quantity_kind_span: f.quantity_kind_span,
            unit: string_opt(f.unit),
            unit_span: f.unit_span,
            nominal: quantity_opt_view(f.nominal),
            physical_min: quantity_opt_view(f.physical_min),
            physical_max: quantity_opt_view(f.physical_max),
            time_role: f.time_role,
        },
        span: f.span,
    }
}

/// An optional attribute block: `{`, the attributes, and `}`.
pub open spec fn field_block_s(t: Seq<(TokenView, SourceSpan)>, s: PState) -> (Option<FieldAttrs>, PState) {
    let (brace, s1) = eat_punct_s(t, s, '{');
    if brace {
        match attrs_s(t, s1, no_attrs()) {
            (None, s2) => (None, s2),
            (Some(a), s2) => (Some(a), expect_punct_s(t, s2, '}').1),
        }
    } else {
        (Some(no_attrs()), s1)
    }
}

/// The tail of a field declaration from its domain on: `on DOMAIN`, an optional attribute
/// block, and an optional `;`.
pub open spec fn field_tail_s(
    t: Seq<(TokenView, SourceSpan)>,
    s: PState,
    name: Seq<char>,
    span: SourceSpan,
    role: FieldRole,
    shape: ValueShape,
    space: SpaceSpec,
) -> (Option<FieldView>, PState) {
    let (on, s1) = eat_ident_s(t, s, "on"@);
    let s2 = if on { s1 } else { error_here(t, s, "field requires `on <domain>`"@) };
    let (dom, s3) = ident_value_s(t, s2);
    let (domain, domain_span) = match dom {
        Some(d) => d,
        None => ("Omega"@, cur(t, s3).1),
    };
    match field_block_s(t, s3) {
        (None, s6) => (None, s6),
        (Some(a), s6) => (
            Some(FieldView { name, role, shape, space, domain, domain_span, attrs: a, span }),
            eat_punct_s(t, s6, ';').1,
        ),
    }
}

/// A field declaration, after the `field` keyword:
/// `NAME : ROLE [SHAPE] FAMILY ( [order [=] n | n] ) on DOMAIN [{ attributes }] [;]`.
/// `None` when an identifier is missing where the name, the role, the family or an attribute
/// key must stand; unknown roles, families, time roles and attributes are reported.
pub open spec fn field_s(t: Seq<(TokenView, SourceSpan)>, s: PState) -> (Option<FieldView>, PState) {
    match ident_value_s(t, s) {
        (None, s1) => (None, s1),
        (Some((name, span)), s1) => {
            let s2 = expect_punct_s(t, s1, ':').1;
            match ident_value_s(t, s2) {
                (None, s3) => (None, s3),
                (Some((role_name, role_span)), s3) => {
                    let (role, s4) = match role_of(role_name) {
                        Some(r) => (r, s3),
                        None => (FieldRole::Unknown, report(s3, "unknown field role `"@ + role_name + "`"@, role_span)),
                    };
                    let (shape, s5) = shape_s(t, s4);
                    match ident_value_s(t, s5) {
                        (None, s6) => (None, s6),
                        (Some((family, family_span)), s6) => {
                            let s7 = expect_punct_s(t, s6, '(').1;
                            let (order, s8) = order_s(t, s7);
                            let s9 = expect_punct_s(t, s8, ')').1;
                            let (space, s10) = match space_of(family, order) {
                                Some(sp) => (sp, s9),
                                None => (
                                    SpaceSpec { family: SpaceFamily::H1, order, continuity: Continuity::Continuous },
                                    report(s9, "unsupported function space `"@ + family + "`"@, family_span),
                                ),
                            };
                            field_tail_s(t, s10, name, span, role, shape, space)
                        },
                    }
                },
            }
        },
    }
}


// ---------------------------------------------------------------------------------------
// Expressions.
// ---------------------------------------------------------------------------------------

/// An expression with its texts as characters.
pub enum ExprView {
    Number { lexeme: Seq<char>, unit: Option<Seq<char>>, span: SourceSpan },
    Text { value: Seq<char>, span: SourceSpan },
    Name { name: Seq<char>, span: SourceSpan },
    Unary { op: UnaryOp, arg: Box<ExprView>, span: SourceSpan },
    Binary { op: BinaryOp, lhs: Box<ExprView>, rhs: Box<ExprView>, span: SourceSpan },
    Call { function: Seq<char>, args: Seq<ExprView>, span: SourceSpan },
    Index { value: Box<ExprView>, indices: Seq<ExprView>, span: SourceSpan },
    Vector { elements: Seq<ExprView>, span: SourceSpan },
}

pub open spec fn expr_view(e: Expr) -> ExprView
    decreases e, 0int,
{
    match e {
        Expr::Number { lexeme, unit, span } => ExprView::Number { lexeme: lexeme@, unit: string_opt(unit), span },
        Expr::String { value, span } => ExprView::Text { value: value@, span },
        Expr::Name { name, span } => ExprView::Name { name: name@, span },
        Expr::Unary { op, arg, span } => ExprView::Unary { op, arg: Box::new(expr_view(*arg)), span },
        Expr::Binary { op, lhs, rhs, span } => ExprView::Binary {
            op,
            lhs: Box::new(expr_view(*lhs)),
            rhs: Box::new(expr_view(*rhs)),
            span,
        },
        Expr::Call { function, args, span } => ExprView::Call {
            function: function@,
            args: exprs_view(args@, args@.len() as int),
            span,
        },
        Expr::Index { value, indices, span } => ExprView::Index {
            value: Box::new(expr_view(*value)),
            indices: exprs_view(indices@, indices@.len() as int),
            span,
        },
        Expr::Vector { elements, span } => ExprView::Vector {
            elements: exprs_view(elements@, elements@.len() as int),
            span,
        },
    }
}

/// The views of the first `n` expressions.
pub open spec fn exprs_view(es: Seq<Expr>, n: int) -> Seq<ExprView>
    decreases es, n,
{
    if 0 < n <= es.len() {
        exprs_view(es, n - 1).push(expr_view(es[n - 1]))
    } else {
        seq![]
    }
}

proof fn lemma_exprs_view_prefix(es: Seq<Expr>, x: Expr, n: int)
    requires
        0 <= n <= es.len(),
    ensures
        exprs_view(es.push(x), n) == exprs_view(es, n),
    decreases n,
{
    if n > 0 {
        lemma_exprs_view_prefix(es, x, n - 1);
        assert(es.push(x)[n - 1] == es[n - 1]);
    }
}

proof fn lemma_exprs_view_push(es: Seq<Expr>, x: Expr)
    ensures
        exprs_view(es.push(x), es.len() + 1int) == exprs_view(es, es.len() as int).push(expr_view(x)),
{
    lemma_exprs_view_prefix(es, x, es.len() as int);
    assert(es.push(x)[es.len() as int] == x);
}

pub open spec fn expr_span(e: ExprView) -> SourceSpan {
    match e {
        ExprView::Number { span, .. } => span,
        ExprView::Text { span, .. } => span,
        ExprView::Name { span, .. } => span,
        ExprView::Unary { span, .. } => span,
        ExprView::Binary { span, .. } => span,
        ExprView::Call { span, .. } => span,
        ExprView::Index { span, .. } => span,
        ExprView::Vector { span, .. } => span,
    }
}

pub open spec fn expr_opt_view(e: Option<Expr>) -> Option<ExprView> {
    match e {
        Some(x) => Some(expr_view(x)),
        None => None,
    }
}

/// The end of the token before the current one (of the first, at the start).
pub open spec fn prev_end(t: Seq<(TokenView, SourceSpan)>, s: PState) -> usize {
    if s.pos >= 1 {
        t[s.pos - 1].1.end
    } else {
        t[0].1.end
    }
}

/// The state is at most the end of the tokens.
pub open spec fn within(t: Seq<(TokenView, SourceSpan)>, s: PState) -> bool {
    0 <= s.pos <= t.len()
}

/// The unit of a number literal goes on through `*` or `/` only when a unit atom (a name or
/// `(`) follows the operator; otherwise the operator is left to the expression.
pub open spec fn chain_s(t: Seq<(TokenView, SourceSpan)>, s: PState, text: Seq<char>, end: usize) -> (
    Seq<char>,
    usize,
    PState,
)
    decreases t.len() - s.pos,
{
    if inside(t, s) && (at_op(t, s, "*"@) || at_op(t, s, "/"@)) && s.pos + 1 < t.len() && (t[s.pos + 1].0 is Ident
        || t[s.pos + 1].0 == TokenView::Punct('(')) {
        let op: Seq<char> = if at_op(t, s, "*"@) { "*"@ } else { "/"@ };
        let s1 = advance(t, s);
        match unit_term_s(t, s1) {
            (None, s2) => (text, end, s2),
            (Some((atom, sp)), s2) => {
                let text2 = text + op + atom;
                if s.pos < s2.pos <= t.len() {
                    chain_s(t, s2, text2, sp.end)
                } else {
                    (text2, sp.end, s2)
                }
            },
        }
    } else {
        (text, end, s)
    }
}

/// A primary expression: a number with its unit, a string, a name or a call, a negation, a
/// parenthesized expression, or a vector.
pub open spec fn primary_s(t: Seq<(TokenView, SourceSpan)>, s: PState) -> (Option<ExprView>, PState)
    decreases t.len() - s.pos, 0int,
{
    if !inside(t, s) {
        (None, s)
    } else {
        let tok = cur(t, s);
        let s1 = advance(t, s);
        match tok.0 {
            TokenView::Number(x) => if inside(t, s1) && cur(t, s1).0 is Ident {
                match unit_term_s(t, s1) {
                    (Some((text0, sp0)), s2) => {
                        let (text, end, s3) = chain_s(t, s2, text0, sp0.end);
                        (Some(ExprView::Number { lexeme: x, unit: Some(text), span: SourceSpan { start: tok.1.start, end } }), s3)
                    },
                    (None, s2) => (
                        Some(ExprView::Number { lexeme: x, unit: None, span: SourceSpan { start: tok.1.start, end: tok.1.end } }),
                        s2,
                    ),
                }
            } else {
                (Some(ExprView::Number { lexeme: x, unit: None, span: SourceSpan { start: tok.1.start, end: tok.1.end } }), s1)
            },
            TokenView::Text(x) => (Some(ExprView::Text { value: x, span: tok.1 }), s1),
            TokenView::Ident(name) => {
                let (open, s2) = eat_punct_s(t, s1, '(');
                if open {
                    if within(t, s2) {
                        match list_s(t, s2, ')') {
                            (None, s3) => (None, s3),
                            (Some(args), s3) => (
                                Some(ExprView::Call { function: name, args, span: SourceSpan { start: tok.1.start, end: prev_end(t, s3) } }),
                                s3,
                            ),
                        }
                    } else {
                        (None, s2)
                    }
                } else {
                    (Some(ExprView::Name { name, span: tok.1 }), s1)
                }
            },
            TokenView::Op(o) => if o == "-"@ {
                match expr_s(t, s1, 11) {
                    (None, s2) => (None, s2),
                    (Some(arg), s2) => (
                        Some(ExprView::Unary { op: UnaryOp::Neg, arg: Box::new(arg), span: SourceSpan { start: tok.1.start, end: expr_span(arg).end } }),
                        s2,
                    ),
                }
            } else {
                (None, report(s1, "expected expression"@, tok.1))
            },
            TokenView::Punct(c) => if c == '(' {
                match expr_s(t, s1, 0) {
                    (None, s2) => (None, s2),
                    (Some(x), s2) => (Some(x), expect_punct_s(t, s2, ')').1),
                }
            } else if c == '[' {
                match list_s(t, s1, ']') {
                    (None, s2) => (None, s2),
                    (Some(xs), s2) => (
                        Some(ExprView::Vector { elements: xs, span: SourceSpan { start: tok.1.start, end: prev_end(t, s2) } }),
                        s2,
                    ),
                }
            } else {
                (None, report(s1, "expected expression"@, tok.1))
            },
            _ => (None, report(s1, "expected expression"@, tok.1)),
        }
    }
}

/// An expression whose operators bind at least as tightly as `min_bp`.
pub open spec fn expr_s(t: Seq<(TokenView, SourceSpan)>, s: PState, min_bp: u8) -> (Option<ExprView>, PState)
    decreases t.len() - s.pos, 1int,
{
    if !inside(t, s) {
        (None, s)
    } else {
        match primary_s(t, s) {
            (None, s1) => (None, s1),
            (Some(lhs), s1) => if s.pos < s1.pos <= t.len() {
                postfix_s(t, s1, lhs, min_bp)
            } else {
                (Some(lhs), s1)
            },
        }
    }
}

/// The items of a list up to `close`, each followed by `close` or a `,`.
pub open spec fn items_s(t: Seq<(TokenView, SourceSpan)>, s: PState, close: char, acc: Seq<ExprView>) -> (
    Option<Seq<ExprView>>,
    PState,
)
    decreases t.len() - s.pos, 2int,
{
    if !inside(t, s) {
        (None, s)
    } else {
        match expr_s(t, s, 0) {
            (None, s1) => (None, s1),
            (Some(x), s1) => {
                let acc2 = acc.push(x);
                let (closed, s2) = eat_punct_s(t, s1, close);
                if closed {
                    (Some(acc2), s2)
                } else {
                    let s3 = expect_punct_s(t, s2, ',').1;
                    if s.pos < s3.pos <= t.len() {
                        items_s(t, s3, close, acc2)
                    } else {
                        (Some(acc2), s3)
                    }
                }
            },
        }
    }
}

/// A list after its opening bracket: empty when `close` comes at once, else its items.
pub open spec fn list_s(t: Seq<(TokenView, SourceSpan)>, s: PState, close: char) -> (Option<Seq<ExprView>>, PState)
    decreases t.len() - s.pos, 3int,
{
    if !inside(t, s) {
        (None, s)
    } else if at_punct(t, s, close) {
        (Some(seq![]), advance(t, s))
    } else {
        items_s(t, s, close, seq![])
    }
}

/// After `lhs`: indexing with `[...]`, and binary operators that bind at least as tightly as
/// `min_bp`, repeatedly.
pub open spec fn postfix_s(t: Seq<(TokenView, SourceSpan)>, s: PState, lhs: ExprView, min_bp: u8) -> (
    Option<ExprView>,
    PState,
)
    decreases t.len() - s.pos, 4int,
{
    if !inside(t, s) {
        (Some(lhs), s)
    } else if at_punct(t, s, '[') {
        let s1 = advance(t, s);
        match list_s(t, s1, ']') {
            (None, s2) => (None, s2),
            (Some(ix), s2) => {
                let l2 = ExprView::Index {
                    value: Box::new(lhs),
                    indices: ix,
                    span: SourceSpan { start: expr_span(lhs).start, end: prev_end(t, s2) },
                };
                if s.pos < s2.pos <= t.len() {
                    postfix_s(t, s2, l2, min_bp)
                } else {
                    (Some(l2), s2)
                }
            },
        }
    } else {
        match cur(t, s).0 {
            TokenView::Op(o) => match binding_of(o) {
                Some((lbp, rbp, op)) => if lbp < min_bp {
                    (Some(lhs), s)
                } else {
                    let s1 = advance(t, s);
                    match expr_s(t, s1, rbp) {
                        (None, s2) => (None, s2),
                        (Some(rhs), s2) => {
                            let l2 = ExprView::Binary {
                                op,
                                lhs: Box::new(lhs),
                                rhs: Box::new(rhs),
                                span: SourceSpan { start: expr_span(lhs).start, end: expr_span(rhs).end },
                            };
                            if s.pos < s2.pos <= t.len() {
                                postfix_s(t, s2, l2, min_bp)
                            } else {
                                (Some(l2), s2)
                            }
                        },
                    }
                },
                None => (Some(lhs), s),
            },
            _ => (Some(lhs), s),
        }
    }
}


// ---------------------------------------------------------------------------------------
// Declarations with expressions.
// ---------------------------------------------------------------------------------------

/// A named expression: a property, a constitutive law, an observable or an invariant.
pub struct NamedView {
    pub name: Seq<char>,
    pub value: ExprView,
    pub span: SourceSpan,
}

/// `NAME = EXPR ;` of a property; a missing `=` is reported.
pub open spec fn property_s(t: Seq<(TokenView, SourceSpan)>, s: PState) -> (Option<NamedView>, PState) {
    match ident_value_s(t, s) {
        (None, s1) => (None, s1),
        (Some((name, span)), s1) => {
            let (eq, s2) = eat_op_s(t, s1, "="@);
            let s3 = if eq { s2 } else { error_here(t, s2, "property requires `="@ + "`"@) };
            match expr_s(t, s3, 0) {
                (None, s4) => (None, s4),
                (Some(v), s4) => (Some(NamedView { name, value: v, span }), expect_punct_s(t, s4, ';').1),
            }
        },
    }
}

/// `NAME [=] EXPR ;` of a constitutive law.
pub open spec fn constitutive_s(t: Seq<(TokenView, SourceSpan)>, s: PState) -> (Option<NamedView>, PState) {
    match ident_value_s(t, s) {
        (None, s1) => (None, s1),
        (Some((name, span)), s1) => match expr_s(t, eat_op_s(t, s1, "="@).1, 0) {
            (None, s2) => (None, s2),
            (Some(v), s2) => (Some(NamedView { name, value: v, span }), expect_punct_s(t, s2, ';').1),
        },
    }
}

/// `NAME { EXPR [;] } [;]` of an observable or an invariant.
pub open spec fn observable_s(t: Seq<(TokenView, SourceSpan)>, s: PState) -> (Option<NamedView>, PState) {
    match ident_value_s(t, s) {
        (None, s1) => (None, s1),
        (Some((name, span)), s1) => match expr_s(t, expect_punct_s(t, s1, '{').1, 0) {
            (None, s2) => (None, s2),
            (Some(v), s2) => (
                Some(NamedView { name, value: v, span }),
                eat_punct_s(t, expect_punct_s(t, eat_punct_s(t, s2, ';').1, '}').1, ';').1,
            ),
        },
    }
}

/// A value declaration with its texts as characters.
pub struct ValueView {
    pub name: Seq<char>,
    pub quantity_kind: Option<Seq<char>>,
    pub quantity_kind_span: Option<SourceSpan>,
    pub unit: Option<Seq<char>>,
    pub unit_span: Option<SourceSpan>,
    pub value: Option<ExprView>,
    pub span: SourceSpan,
}

/// An optional `: KIND` and an optional `[ UNIT ]`.
pub open spec fn kind_unit_s(t: Seq<(TokenView, SourceSpan)>, s: PState) -> (
    Option<(Seq<char>, SourceSpan)>,
    Option<(Seq<char>, SourceSpan)>,
    PState,
) {
    let (colon, s1) = eat_punct_s(t, s, ':');
    let (kind, s2) = if colon { ident_value_s(t, s1) } else { (None, s1) };
    let (bracket, s3) = eat_punct_s(t, s2, '[');
    if bracket {
        let (unit, s4) = ident_value_s(t, s3);
        (kind, unit, expect_punct_s(t, s4, ']').1)
    } else {
        (kind, None, s3)
    }
}

pub open spec fn first_opt(o: Option<(Seq<char>, SourceSpan)>) -> Option<Seq<char>> {
    match o {
        Some((x, _)) => Some(x),
        None => None,
    }
}

pub open spec fn second_opt(o: Option<(Seq<char>, SourceSpan)>) -> Option<SourceSpan> {
    match o {
        Some((_, sp)) => Some(sp),
        None => None,
    }
}

/// `NAME [: KIND] [[UNIT]] [= EXPR] ;` of a parameter, a constant or a source.
pub open spec fn value_decl_s(t: Seq<(TokenView, SourceSpan)>, s: PState) -> (Option<ValueView>, PState) {
    match ident_value_s(t, s) {
        (None, s1) => (None, s1),
        (Some((name, span)), s1) => {
            let (kind, unit, s2) = kind_unit_s(t, s1);
            let (eq, s3) = eat_op_s(t, s2, "="@);
            let (value, s4) = if eq { expr_s(t, s3, 0) } else { (None, s3) };
            if eq && value is None {
                (None, s4)
            } else {
                (
                    Some(ValueView {
                        name,
                        quantity_kind: first_opt(kind),
                        quantity_kind_span: second_opt(kind),
                        unit: first_opt(unit),
                        unit_span: second_opt(unit),
                        value,
                        span,
                    }),
                    expect_punct_s(t, s4, ';').1,
                )
            }
        },
    }
}

/// An objective with its texts as characters.
pub struct ObjectiveView {
    pub name: Seq<char>,
    pub sense: ObjectiveSense,
    pub value: ExprView,
    pub span: SourceSpan,
}

/// `NAME { minimize|maximize|measure EXPR [;] } [;]`.
pub open spec fn objective_s(t: Seq<(TokenView, SourceSpan)>, s: PState) -> (Option<ObjectiveView>, PState) {
    match ident_value_s(t, s) {
        (None, s1) => (None, s1),
        (Some((name, span)), s1) => {
            let s2 = expect_punct_s(t, s1, '{').1;
            let sense = if at_ident(t, s2, "minimize"@) {
                Some(ObjectiveSense::Minimize)
            } else if at_ident(t, s2, "maximize"@) {
                Some(ObjectiveSense::Maximize)
            } else if at_ident(t, s2, "measure"@) {
                Some(ObjectiveSense::Measure)
            } else {
                None
            };
            match sense {
                None => (
                    None,
                    error_here(
                        t,
                        s2,
                        "objective `"@ + name + "` must open with `minimize`, `maximize`, or `measure`"@,
                    ),
                ),
                Some(sense) => match expr_s(t, advance(t, s2), 0) {
                    (None, s3) => (None, s3),
                    (Some(v), s3) => (
                        Some(ObjectiveView { name, sense, value: v, span }),
                        eat_punct_s(t, expect_punct_s(t, eat_punct_s(t, s3, ';').1, '}').1, ';').1,
                    ),
                },
            }
        },
    }
}

/// An equation with its texts as characters.
pub struct EquationView {
    pub name: Seq<char>,
    pub domain: Option<Seq<char>>,
    pub domain_span: Option<SourceSpan>,
    pub lhs: ExprView,
    pub rhs: ExprView,
    pub span: SourceSpan,
}

/// `NAME [on DOMAIN] { LHS = RHS [;] } [;]`: the left side is read above equality, so that
/// the declaration's `=` is not part of it.
pub open spec fn equation_s(t: Seq<(TokenView, SourceSpan)>, s: PState) -> (Option<EquationView>, PState) {
    match ident_value_s(t, s) {
        (None, s1) => (None, s1),
        (Some((name, span)), s1) => {
            let (on, s2) = eat_ident_s(t, s1, "on"@);
            let (dom, s3) = if on { ident_value_s(t, s2) } else { (None, s2) };
            match expr_s(t, expect_punct_s(t, s3, '{').1, 2) {
                (None, s4) => (None, s4),
                (Some(lhs), s4) => {
                    let (eq, s5) = eat_op_s(t, s4, "="@);
                    let s6 = if eq { s5 } else { error_here(t, s5, "equation requires `="@ + "`"@) };
                    match expr_s(t, s6, 0) {
                        (None, s7) => (None, s7),
                        (Some(rhs), s7) => (
                            Some(EquationView {
                                name,
                                domain: first_opt(dom),
                                domain_span: second_opt(dom),
                                lhs,
                                rhs,
                                span,
                            }),
                            eat_punct_s(t, expect_punct_s(t, eat_punct_s(t, s7, ';').1, '}').1, ';').1,
                        ),
                    }
                },
            }
        },
    }
}

/// A boundary or interface condition with its texts as characters.
pub struct ConditionView {
    pub name: Seq<char>,
    pub region: ExprView,
    pub kind: BoundaryConditionKind,
    pub target: Seq<char>,
    pub target_span: SourceSpan,
    pub value: ExprView,
    pub span: SourceSpan,
}

pub open spec fn boundary_kind_of(name: Seq<char>) -> Option<BoundaryConditionKind> {
    if name == "dirichlet"@ {
        Some(BoundaryConditionKind::Dirichlet)
    } else if name == "neumann"@ {
        Some(BoundaryConditionKind::Neumann)
    } else if name == "robin"@ {
        Some(BoundaryConditionKind::Robin)
    } else {
        None
    }
}

/// `NAME on REGION { KIND TARGET [=] VALUE [;] } [;]`; an interface condition's kind is
/// always `Interface`.
pub open spec fn boundary_s(t: Seq<(TokenView, SourceSpan)>, s: PState, interface: bool) -> (
    Option<ConditionView>,
    PState,
) {
    match ident_value_s(t, s) {
        (None, s1) => (None, s1),
        (Some((name, span)), s1) => {
            let (on, s2) = eat_ident_s(t, s1, "on"@);
            let s3 = if on { s2 } else { error_here(t, s2, "boundary/interface requires `on`"@) };
            match expr_s(t, s3, 0) {
                (None, s4) => (None, s4),
                (Some(region), s4) => match ident_value_s(t, expect_punct_s(t, s4, '{').1) {
                    (None, s5) => (None, s5),
                    (Some((kind_name, _)), s5) => {
                        let (kind, s6) = if interface {
                            (BoundaryConditionKind::Interface, s5)
                        } else {
                            match boundary_kind_of(kind_name) {
                                Some(k) => (k, s5),
                                None => (
                                    BoundaryConditionKind::Dirichlet,
                                    error_here(t, s5, "unknown boundary condition `"@ + kind_name + "`"@),
                                ),
                            }
                        };
                        match ident_value_s(t, s6) {
                            (None, s7) => (None, s7),
                            (Some((target, target_span)), s7) => match expr_s(t, eat_op_s(t, s7, "="@).1, 0) {
                                (None, s8) => (None, s8),
                                (Some(value), s8) => (
                                    Some(ConditionView { name, region, kind, target, target_span, value, span }),
                                    eat_punct_s(t, expect_punct_s(t, eat_punct_s(t, s8, ';').1, '}').1, ';').1,
                                ),
                            },
                        }
                    },
                },
            }
        },
    }
}

// ---------------------------------------------------------------------------------------
// Domains, inputs, providers, forms, assignments and annotations.
// ---------------------------------------------------------------------------------------

/// A coordinate system with its name as characters.
pub enum CoordView {
    Cartesian,
    Cylindrical,
    Spherical,
    Custom(Seq<char>),
}

pub open spec fn coord_of(name: Seq<char>) -> CoordView {
    if name == "cartesian"@ {
        CoordView::Cartesian
    } else if name == "cylindrical"@ {
        CoordView::Cylindrical
    } else if name == "spherical"@ {
        CoordView::Spherical
    } else {
        CoordView::Custom(name)
    }
}

/// A domain declaration with its texts as characters.
pub struct DomainView {
    pub name: Seq<char>,
    pub dimension: u8,
    pub coordinates: CoordView,
    pub coordinates_span: SourceSpan,
    pub span: SourceSpan,
}

/// The entries of a domain block from `s` to its `}`: `KEY [=] VALUE [;]`, where `dimension`
/// takes an integer, `coordinates` a name, and any other key one token.
pub open spec fn domain_body_s(
    t: Seq<(TokenView, SourceSpan)>,
    s: PState,
    dim: u8,
    coords: CoordView,
    cspan: SourceSpan,
) -> (Option<(u8, CoordView, SourceSpan)>, PState)
    decreases t.len() - s.pos,
{
    if !inside(t, s) || cur(t, s).0 is Eof || at_punct(t, s, '}') {
        (Some((dim, coords, cspan)), s)
    } else {
        match ident_value_s(t, s) {
            (None, s1) => (None, s1),
            (Some((key, _)), s1) => {
                let s2 = eat_op_s(t, s1, "="@).1;
                let (dim2, coords2, cspan2, s3) = if key == "dimension"@ {
                    let (d, s3) = number_u8_s(t, s2, 2);
                    (d, coords, cspan, s3)
                } else if key == "coordinates"@ {
                    match ident_value_s(t, s2) {
                        (Some((v, vspan)), s3) => (dim, coord_of(v), vspan, s3),
                        (None, s3) => (dim, coords, cspan, s3),
                    }
                } else {
                    (dim, coords, cspan, advance(t, s2))
                };
                let s4 = eat_punct_s(t, s3, ';').1;
                if s.pos < s4.pos <= t.len() {
                    domain_body_s(t, s4, dim2, coords2, cspan2)
                } else {
                    (Some((dim2, coords2, cspan2)), s4)
                }
            },
        }
    }
}

/// `NAME { ENTRIES } [;]`; the dimension is 2 and the coordinates cartesian unless given.
pub open spec fn domain_s(t: Seq<(TokenView, SourceSpan)>, s: PState) -> (Option<DomainView>, PState) {
    match ident_value_s(t, s) {
        (None, s1) => (None, s1),
        (Some((name, span)), s1) => match domain_body_s(t, expect_punct_s(t, s1, '{').1, 2, CoordView::Cartesian, span) {
            (None, s2) => (None, s2),
            (Some((dimension, coordinates, coordinates_span)), s2) => (
                Some(DomainView { name, dimension, coordinates, coordinates_span, span }),
                eat_punct_s(t, expect_punct_s(t, s2, '}').1, ';').1,
            ),
        },
    }
}

/// An input declaration with its texts as characters.
pub struct InputView {
    pub name: Seq<char>,
    pub kind: InputDeclKind,
    pub quantity_kind: Option<Seq<char>>,
    pub quantity_kind_span: Option<SourceSpan>,
    pub unit: Option<Seq<char>>,
    pub unit_span: Option<SourceSpan>,
    pub domain: Option<Seq<char>>,
    pub domain_span: Option<SourceSpan>,
    pub span: SourceSpan,
}

/// `field|value NAME [: KIND] [[UNIT]] [on DOMAIN] [= EXPR] ;` after `input`: a field input
/// must name its domain, a value input must not, and a definition is reported.
pub open spec fn input_decl_s(t: Seq<(TokenView, SourceSpan)>, s: PState) -> (Option<InputView>, PState) {
    let (is_field, s1) = eat_ident_s(t, s, "field"@);
    let s2 = if is_field {
        s1
    } else if at_ident(t, s1, "value"@) {
        advance(t, s1)
    } else {
        error_here(t, s1, "expected `value`"@)
    };
    let kind = if is_field { InputDeclKind::Field } else { InputDeclKind::Value };
    match ident_value_s(t, s2) {
        (None, s3) => (None, s3),
        (Some((name, span)), s3) => {
            let (qk, unit, s4) = kind_unit_s(t, s3);
            let (dom, s5) = if is_field {
                let (on, s5) = eat_ident_s(t, s4, "on"@);
                if on {
                    ident_value_s(t, s5)
                } else {
                    (None, report(s5, "input field `"@ + name + "` must declare `on <domain>`"@, span))
                }
            } else if at_ident(t, s4, "on"@) {
                (None, report(s4, "input value `"@ + name + "` has no domain; use `input field`"@, span))
            } else {
                (None, s4)
            };
            let (eq, s6) = eat_op_s(t, s5, "="@);
            let view = InputView {
                name,
                kind,
                quantity_kind: first_opt(qk),
                quantity_kind_span: second_opt(qk),
                unit: first_opt(unit),
                unit_span: second_opt(unit),
                domain: first_opt(dom),
                domain_span: second_opt(dom),
                span,
            };
            if eq {
                match expr_s(t, s6, 0) {
                    (None, s7) => (None, s7),
                    (Some(v), s7) => (
                        Some(view),
                        expect_punct_s(
                            t,
                            report(
                                s7,
                                "input `"@ + name
                                    + "` cannot carry a definition; declare a `source`, `parameter`, or `property` instead"@,
                                expr_span(v),
                            ),
                            ';',
                        ).1,
                    ),
                }
            } else {
                (Some(view), expect_punct_s(t, s6, ';').1)
            }
        },
    }
}

/// A shape after `shape =` in a provider block.
pub open spec fn provider_shape_s(t: Seq<(TokenView, SourceSpan)>, s: PState) -> (ValueShape, PState) {
    if at_ident(t, s, "scalar"@) {
        (ValueShape::Scalar, advance(t, s))
    } else if at_ident(t, s, "vector"@) {
        let (n, s1) = number_u8_s(t, expect_punct_s(t, advance(t, s), '(').1, 3);
        (ValueShape::Vector(n), expect_punct_s(t, s1, ')').1)
    } else if at_ident(t, s, "tensor"@) {
        let (a, s1) = number_u8_s(t, expect_punct_s(t, advance(t, s), '(').1, 3);
        let (b, s2) = number_u8_s(t, eat_punct_s(t, s1, ',').1, a);
        (ValueShape::Tensor { rows: a, cols: b }, expect_punct_s(t, s2, ')').1)
    } else if at_ident(t, s, "symmetric_tensor"@) {
        let (n, s1) = number_u8_s(t, expect_punct_s(t, advance(t, s), '(').1, 3);
        (ValueShape::SymmetricTensor(n), expect_punct_s(t, s1, ')').1)
    } else {
        (ValueShape::Scalar, error_here(t, s, "unknown provider shape"@))
    }
}

/// One input of a provider signature with its texts as characters.
pub struct ProviderInputView {
    pub name: Seq<char>,
    pub kind: Option<Seq<char>>,
    pub kind_span: SourceSpan,
    pub span: SourceSpan,
}

/// The inputs of a provider signature from `s` to its `)`: `NAME : KIND` separated by `,`;
/// the kind `selector` stands for no quantity kind.
pub open spec fn provider_inputs_s(
    t: Seq<(TokenView, SourceSpan)>,
    s: PState,
    acc: Seq<ProviderInputView>,
) -> (Option<Seq<ProviderInputView>>, PState)
    decreases t.len() - s.pos,
{
    if !inside(t, s) || cur(t, s).0 is Eof || at_punct(t, s, ')') {
        (Some(acc), s)
    } else {
        match ident_value_s(t, s) {
            (None, s1) => (None, s1),
            (Some((name, span)), s1) => match ident_value_s(t, expect_punct_s(t, s1, ':').1) {
                (None, s2) => (None, s2),
                (Some((kind_name, kind_span)), s2) => {
                    let x = ProviderInputView {
                        name,
                        kind: if kind_name == "selector"@ { None } else { Some(kind_name) },
                        kind_span,
                        span,
                    };
                    let (comma, s3) = eat_punct_s(t, s2, ',');
                    if comma && s.pos < s3.pos <= t.len() {
                        provider_inputs_s(t, s3, acc.push(x))
                    } else {
                        (Some(acc.push(x)), s3)
                    }
                },
            },
        }
    }
}

/// A domain bound of a provider with its texts as characters.
pub struct BoundView {
    pub input: Seq<char>,
    pub input_span: SourceSpan,
    pub min: QuantityView,
    pub max: QuantityView,
    pub span: SourceSpan,
}

/// The bounds of a provider's `domain { ... }` from `s` to its `}`:
/// `INPUT in [MIN, MAX] [;]`; a bound with a bad quantity is left out.
pub open spec fn provider_bounds_s(t: Seq<(TokenView, SourceSpan)>, s: PState, acc: Seq<BoundView>) -> (
    Seq<BoundView>,
    PState,
)
    decreases t.len() - s.pos,
{
    if !inside(t, s) || cur(t, s).0 is Eof || at_punct(t, s, '}') {
        (acc, s)
    } else {
        let (acc2, s9) = match ident_value_s(t, s) {
            (None, s1) => (acc, sync_s(t, s1)),
            (Some((input, input_span)), s1) => {
                let (has_in, s2) = eat_ident_s(t, s1, "in"@);
                let s3 = if has_in { s2 } else { error_here(t, s2, "provider domain bound requires `in`"@) };
                let (min, s4) = quantity_s(t, expect_punct_s(t, s3, '[').1, None);
                let (max, s5) = quantity_s(t, eat_punct_s(t, s4, ',').1, None);
                let s6 = eat_punct_s(t, expect_punct_s(t, s5, ']').1, ';').1;
                match (min, max) {
                    (Some(lo), Some(hi)) => (
                        acc.push(BoundView { input, input_span, min: lo, max: hi, span: input_span }),
                        s6,
                    ),
                    _ => (acc, s6),
                }
            },
        };
        if s.pos < s9.pos <= t.len() {
            provider_bounds_s(t, s9, acc2)
        } else {
            (acc2, s9)
        }
    }
}

pub open spec fn locality_of(name: Seq<char>) -> Option<PropertyLocality> {
    if name == "pointwise"@ {
        Some(PropertyLocality::Pointwise)
    } else if name == "element_constant"@ {
        Some(PropertyLocality::ElementConstant)
    } else if name == "external"@ {
        Some(PropertyLocality::ExternalProvider)
    } else {
        None
    }
}

pub open spec fn differentiability_of(name: Seq<char>) -> Option<DerivativeContract> {
    if name == "symbolic"@ {
        Some(DerivativeContract::Symbolic)
    } else if name == "analytic_provided"@ {
        Some(DerivativeContract::AnalyticProvided)
    } else if name == "automatic"@ {
        Some(DerivativeContract::Automatic)
    } else if name == "piecewise"@ {
        Some(DerivativeContract::Piecewise)
    } else if name == "numerical_allowed"@ {
        Some(DerivativeContract::NumericalAllowed)
    } else if name == "none"@ {
        Some(DerivativeContract::NoDerivative)
    } else {
        None
    }
}

/// What a provider block sets.
pub struct ProviderAttrs {
    pub unit: Option<(Seq<char>, SourceSpan)>,
    pub shape: ValueShape,
    pub locality: PropertyLocality,
    pub differentiability: DerivativeContract,
    pub domain: Seq<BoundView>,
}

/// One entry of a provider block at `s`: a `domain { ... }` block, or
/// `unit|shape|locality|differentiability [=] VALUE [;]`.
pub open spec fn provider_entry_s(t: Seq<(TokenView, SourceSpan)>, s: PState, a: ProviderAttrs) -> (
    ProviderAttrs,
    PState,
) {
    if at_ident(t, s, "domain"@) {
        let (bounds, s1) = provider_bounds_s(t, expect_punct_s(t, advance(t, s), '{').1, a.domain);
        (ProviderAttrs { domain: bounds, ..a }, eat_punct_s(t, expect_punct_s(t, s1, '}').1, ';').1)
    } else {
        match ident_value_s(t, s) {
            (None, s1) => (a, sync_s(t, s1)),
            (Some((key, _)), s1) => {
                let s2 = eat_op_s(t, s1, "="@).1;
                if key == "unit"@ {
                    match unit_expr_s(t, s2) {
                        (Some(u), s3) => (ProviderAttrs { unit: Some(u), ..a }, eat_punct_s(t, s3, ';').1),
                        (None, s3) => (a, eat_punct_s(t, s3, ';').1),
                    }
                } else if key == "shape"@ {
                    let (shape, s3) = provider_shape_s(t, s2);
                    (ProviderAttrs { shape, ..a }, eat_punct_s(t, s3, ';').1)
                } else if key == "locality"@ {
                    match ident_value_s(t, s2) {
                        (Some((name, name_span)), s3) => match locality_of(name) {
                            Some(l) => (ProviderAttrs { locality: l, ..a }, eat_punct_s(t, s3, ';').1),
                            None => (
                                ProviderAttrs { locality: PropertyLocality::Pointwise, ..a },
                                eat_punct_s(t, report(s3, "unknown provider locality `"@ + name + "`"@, name_span), ';').1,
                            ),
                        },
                        (None, s3) => (a, eat_punct_s(t, s3, ';').1),
                    }
                } else if key == "differentiability"@ {
                    match ident_value_s(t, s2) {
                        (Some((name, name_span)), s3) => match differentiability_of(name) {
                            Some(d) => (ProviderAttrs { differentiability: d, ..a }, eat_punct_s(t, s3, ';').1),
                            None => (
                                ProviderAttrs { differentiability: DerivativeContract::Symbolic, ..a },
                                eat_punct_s(
                                    t,
                                    report(s3, "unknown provider differentiability `"@ + name + "`"@, name_span),
                                    ';',
                                ).1,
                            ),
                        },
                        (None, s3) => (a, eat_punct_s(t, s3, ';').1),
                    }
                } else {
                    (
                        a,
                        eat_punct_s(
                            t,
                            sync_s(t, error_here(t, s2, "unknown provider attribute `"@ + key + "`"@)),
                            ';',
                        ).1,
                    )
                }
            },
        }
    }
}

/// The entries of a provider block from `s` to its `}`.
pub open spec fn provider_body_s(t: Seq<(TokenView, SourceSpan)>, s: PState, a: ProviderAttrs) -> (
    ProviderAttrs,
    PState,
)
    decreases t.len() - s.pos,
{
    if !inside(t, s) || cur(t, s).0 is Eof || at_punct(t, s, '}') {
        (a, s)
    } else {
        let (a2, s1) = provider_entry_s(t, s, a);
        if s.pos < s1.pos <= t.len() {
            provider_body_s(t, s1, a2)
        } else {
            (a2, s1)
        }
    }
}

/// A provider declaration with its texts as characters.
pub struct ProviderView {
    pub name: Seq<char>,
    pub inputs: Seq<ProviderInputView>,
    pub output_kind: Seq<char>,
    pub output_kind_span: SourceSpan,
    pub unit: Option<Seq<char>>,
    pub unit_span: Option<SourceSpan>,
    pub shape: ValueShape,
    pub locality: PropertyLocality,
    pub differentiability: DerivativeContract,
    pub domain: Seq<BoundView>,
    pub span: SourceSpan,
}

pub open spec fn default_provider_attrs() -> ProviderAttrs {
    ProviderAttrs {
        unit: None,
        shape: ValueShape::Scalar,
        locality: PropertyLocality::Pointwise,
        differentiability: DerivativeContract::Symbolic,
        domain: seq![],
    }
}

/// `NAME ( INPUTS ) -> KIND [{ ENTRIES }] [;]`; a missing kind reads as
/// `scientia:Unspecified`.
pub open spec fn provider_s(t: Seq<(TokenView, SourceSpan)>, s: PState) -> (Option<ProviderView>, PState) {
    match ident_value_s(t, s) {
        (None, s1) => (None, s1),
        (Some((name, span)), s1) => match provider_inputs_s(t, expect_punct_s(t, s1, '(').1, seq![]) {
            (None, s2) => (None, s2),
            (Some(inputs), s2) => {
                let s3 = expect_punct_s(t, s2, ')').1;
                let (arrow, s4) = eat_op_s(t, s3, "->"@);
                let s5 = if arrow { s4 } else { error_here(t, s4, "provider requires `-> QuantityKind`"@) };
                let (out, s6) = ident_value_s(t, s5);
                let (output_kind, output_kind_span) = match out {
                    Some(x) => x,
                    None => ("scientia:Unspecified"@, cur(t, s6).1),
                };
                let (open, s7) = eat_punct_s(t, s6, '{');
                let (a, s8) = if open {
                    let (a, s8) = provider_body_s(t, s7, default_provider_attrs());
                    (a, expect_punct_s(t, s8, '}').1)
                } else {
                    (default_provider_attrs(), s7)
                };
                (
                    Some(ProviderView {
                        name,
                        inputs,
                        output_kind,
                        output_kind_span,
                        unit: first_opt(a.unit),
                        unit_span: second_opt(a.unit),
                        shape: a.shape,
                        locality: a.locality,
                        differentiability: a.differentiability,
                        domain: a.domain,
                        span,
                    }),
                    eat_punct_s(t, s8, ';').1,
                )
            },
        },
    }
}

/// A measure with its target as characters.
pub enum MeasureView {
    Cell(Seq<char>),
    Boundary(Seq<char>),
    InteriorFacet(Seq<char>),
    Interface(Seq<char>),
    Point(Seq<char>),
}

pub open spec fn measure_of(name: Seq<char>, target: Seq<char>) -> Option<MeasureView> {
    if name == "cell"@ {
        Some(MeasureView::Cell(target))
    } else if name == "boundary"@ {
        Some(MeasureView::Boundary(target))
    } else if name == "interior_facet"@ {
        Some(MeasureView::InteriorFacet(target))
    } else if name == "interface"@ {
        Some(MeasureView::Interface(target))
    } else if name == "point"@ {
        Some(MeasureView::Point(target))
    } else {
        None
    }
}

/// An integral of a form with its texts as characters.
pub struct IntegralView {
    pub measure: MeasureView,
    pub target_span: SourceSpan,
    pub integrand: ExprView,
    pub span: SourceSpan,
}

/// The integrals of a form from `s` to its `}`: `MEASURE ( TARGET ) [:] EXPR ;`; an unknown
/// measure is reported and read as a cell integral.
pub open spec fn integrals_s(t: Seq<(TokenView, SourceSpan)>, s: PState, acc: Seq<IntegralView>) -> (
    Option<Seq<IntegralView>>,
    PState,
)
    decreases t.len() - s.pos,
{
    if !inside(t, s) || cur(t, s).0 is Eof || at_punct(t, s, '}') {
        (Some(acc), s)
    } else {
        let measure_span = cur(t, s).1;
        match ident_value_s(t, s) {
            (None, s1) => (None, s1),
            (Some((mname, _)), s1) => match ident_value_s(t, expect_punct_s(t, s1, '(').1) {
                (None, s2) => (None, s2),
                (Some((target, target_span)), s2) => {
                    let s3 = eat_punct_s(t, expect_punct_s(t, s2, ')').1, ':').1;
                    match expr_s(t, s3, 0) {
                        (None, s4) => (None, s4),
                        (Some(integrand), s4) => {
                            let s5 = expect_punct_s(t, s4, ';').1;
                            let (measure, s6) = match measure_of(mname, target) {
                                Some(m) => (m, s5),
                                None => (
                                    MeasureView::Cell(target),
                                    report(s5, "unknown measure `"@ + mname + "`"@, measure_span),
                                ),
                            };
                            let x = IntegralView { measure, target_span, integrand, span: measure_span };
                            if s.pos < s6.pos <= t.len() {
                                integrals_s(t, s6, acc.push(x))
                            } else {
                                (Some(acc.push(x)), s6)
                            }
                        },
                    }
                },
            },
        }
    }
}

/// A form declaration with its texts as characters.
pub struct FormView {
    pub name: Seq<char>,
    pub integrals: Seq<IntegralView>,
    pub span: SourceSpan,
}

/// `NAME { INTEGRALS } [;]`.
pub open spec fn form_decl_s(t: Seq<(TokenView, SourceSpan)>, s: PState) -> (Option<FormView>, PState) {
    match ident_value_s(t, s) {
        (None, s1) => (None, s1),
        (Some((name, span)), s1) => match integrals_s(t, expect_punct_s(t, s1, '{').1, seq![]) {
            (None, s2) => (None, s2),
            (Some(integrals), s2) => (
                Some(FormView { name, integrals, span }),
                eat_punct_s(t, expect_punct_s(t, s2, '}').1, ';').1,
            ),
        },
    }
}

/// An initial condition with its texts as characters.
pub struct AssignView {
    pub target: Seq<char>,
    pub value: ExprView,
    pub span: SourceSpan,
}

/// The assignments of a block from `s` to its `}`: `TARGET [=] EXPR [;]`; an assignment
/// whose expression cannot be read is left out.
pub open spec fn assignments_s(t: Seq<(TokenView, SourceSpan)>, s: PState, acc: Seq<AssignView>) -> (
    Seq<AssignView>,
    PState,
)
    decreases t.len() - s.pos,
{
    if !inside(t, s) || cur(t, s).0 is Eof || at_punct(t, s, '}') {
        (acc, s)
    } else {
        let (acc2, s9) = match ident_value_s(t, s) {
            (None, s1) => (acc, sync_s(t, s1)),
            (Some((target, span)), s1) => match expr_s(t, eat_op_s(t, s1, "="@).1, 0) {
                (None, s2) => (acc, eat_punct_s(t, s2, ';').1),
                (Some(value), s2) => (acc.push(AssignView { target, value, span }), eat_punct_s(t, s2, ';').1),
            },
        };
        if s.pos < s9.pos <= t.len() {
            assignments_s(t, s9, acc2)
        } else {
            (acc2, s9)
        }
    }
}

/// `{ ASSIGNMENTS } [;]`, or nothing when the `{` is missing.
pub open spec fn assignment_block_s(t: Seq<(TokenView, SourceSpan)>, s: PState) -> (Seq<AssignView>, PState) {
    let (open, s1) = expect_punct_s(t, s, '{');
    if open {
        let (xs, s2) = assignments_s(t, s1, seq![]);
        (xs, eat_punct_s(t, expect_punct_s(t, s2, '}').1, ';').1)
    } else {
        (seq![], s1)
    }
}

/// The position in `a`, from `j` on, of the first key not before `k`.
pub open spec fn arg_pos(a: Seq<(Seq<char>, ExprView)>, k: Seq<char>, j: int) -> int
    decreases a.len() - j,
{
    if j < 0 || j >= a.len() || !text_lt(a[j].0, k) {
        j
    } else {
        arg_pos(a, k, j + 1)
    }
}

/// Arguments kept in key order, where a key given again replaces its value.
pub open spec fn arg_insert(a: Seq<(Seq<char>, ExprView)>, k: Seq<char>, v: ExprView) -> Seq<(Seq<char>, ExprView)> {
    let p = arg_pos(a, k, 0);
    if p < a.len() && a[p].0 == k {
        a.update(p, (k, v))
    } else {
        a.insert(p, (k, v))
    }
}

/// The arguments of an annotation from `s`: `KEY [=] EXPR` separated by `,` up to `)`.
pub open spec fn args_s(t: Seq<(TokenView, SourceSpan)>, s: PState, acc: Seq<(Seq<char>, ExprView)>) -> (
    Option<Seq<(Seq<char>, ExprView)>>,
    PState,
)
    decreases t.len() - s.pos,
{
    let (closed, s1) = eat_punct_s(t, s, ')');
    if closed || !inside(t, s1) || cur(t, s1).0 is Eof {
        (Some(acc), s1)
    } else {
        match ident_value_s(t, s1) {
            (None, s2) => (None, s2),
            (Some((key, _)), s2) => match expr_s(t, eat_op_s(t, s2, "="@).1, 0) {
                (None, s3) => (None, s3),
                (Some(v), s3) => {
                    let acc2 = arg_insert(acc, key, v);
                    let (comma, s4) = eat_punct_s(t, s3, ',');
                    if !comma {
                        (Some(acc2), expect_punct_s(t, s4, ')').1)
                    } else if s.pos < s4.pos <= t.len() {
                        args_s(t, s4, acc2)
                    } else {
                        (Some(acc2), s4)
                    }
                },
            },
        }
    }
}

/// An annotation with its texts as characters.
pub struct AnnotationView {
    pub name: Seq<char>,
    pub args: Seq<(Seq<char>, ExprView)>,
    pub span: SourceSpan,
}

/// `NAME [( ARGS )] [;]` after `@`.
pub open spec fn verification_s(t: Seq<(TokenView, SourceSpan)>, s: PState) -> (Option<AnnotationView>, PState) {
    match ident_value_s(t, s) {
        (None, s1) => (None, s1),
        (Some((name, span)), s1) => {
            let (open, s2) = eat_punct_s(t, s1, '(');
            let (args, s3) = if open { args_s(t, s2, seq![]) } else { (Some(seq![]), s2) };
            match args {
                None => (None, s3),
                Some(args) => (Some(AnnotationView { name, args, span }), eat_punct_s(t, s3, ';').1),
            }
        },
    }
}

/// Sync from a token that is neither the end nor `}` moves forward.
proof fn lemma_sync_moves(t: Seq<(TokenView, SourceSpan)>, s: PState)
    requires
        tokens_ok(t),
        inside(t, s),
    ensures
        s.pos <= sync_s(t, s).pos <= t.len(),
        !(cur(t, s).0 is Eof) && !at_punct(t, s, '}') ==> s.pos < sync_s(t, s).pos,
    decreases t.len() - s.pos,
{
    if !(cur(t, s).0 is Eof) && !at_punct(t, s, '}') && !at_punct(t, s, ';') {
        if s.pos == t.len() - 1 {
            assert(t.last() == t[s.pos]);
        }
        lemma_sync_moves(t, advance(t, s));
    }
}

/// An entry of a provider block at a token that is neither the end nor `}` moves forward.
proof fn lemma_entry_moves(t: Seq<(TokenView, SourceSpan)>, s: PState, a: ProviderAttrs)
    requires
        inside(t, s),
        !(cur(t, s).0 is Eof),
        !at_punct(t, s, '}'),
        s.pos < provider_entry_s(t, s, a).1.pos <= t.len(),
    ensures
        provider_body_s(t, s, a) == provider_body_s(t, provider_entry_s(t, s, a).1, provider_entry_s(t, s, a).0),
{
}

// ---------------------------------------------------------------------------------------
// Models and modules.
// ---------------------------------------------------------------------------------------

/// A model with its texts as characters.
pub struct ModelView {
    pub name: Seq<char>,
    pub domains: Seq<DomainView>,
    pub fields: Seq<FieldView>,
    pub parameters: Seq<ValueView>,
    pub constants: Seq<ValueView>,
    pub sources: Seq<ValueView>,
    pub inputs: Seq<InputView>,
    pub providers: Seq<ProviderView>,
    pub properties: Seq<NamedView>,
    pub constitutive_laws: Seq<NamedView>,
    pub equations: Seq<EquationView>,
    pub forms: Seq<FormView>,
    pub initial_conditions: Seq<AssignView>,
    pub boundary_conditions: Seq<ConditionView>,
    pub interface_conditions: Seq<ConditionView>,
    pub observables: Seq<NamedView>,
    pub invariants: Seq<NamedView>,
    pub objectives: Seq<ObjectiveView>,
    pub verifications: Seq<AnnotationView>,
    pub span: SourceSpan,
}

pub open spec fn empty_model(name: Seq<char>, span: SourceSpan) -> ModelView {
    ModelView {
        name,
        domains: seq![],
        fields: seq![],
        parameters: seq![],
        constants: seq![],
        sources: seq![],
        inputs: seq![],
        providers: seq![],
        properties: seq![],
        constitutive_laws: seq![],
        equations: seq![],
        forms: seq![],
        initial_conditions: seq![],
        boundary_conditions: seq![],
        interface_conditions: seq![],
        observables: seq![],
        invariants: seq![],
        objectives: seq![],
        verifications: seq![],
        span,
    }
}

/// The token after the current one is `field` or `value`: then `input` opens a declaration.
pub open spec fn input_follows(t: Seq<(TokenView, SourceSpan)>, s: PState) -> bool {
    &&& s.pos + 1 < t.len()
    &&& (t[s.pos + 1].0 == TokenView::Ident("field"@) || t[s.pos + 1].0 == TokenView::Ident("value"@))
}

/// The current token opens a domain, field, parameter, constant or source.
pub open spec fn first_keywords(t: Seq<(TokenView, SourceSpan)>, s: PState) -> bool {
    at_ident(t, s, "domain"@) || at_ident(t, s, "field"@) || at_ident(t, s, "parameter"@) || at_ident(t, s, "constant"@)
        || at_ident(t, s, "source"@)
}

/// The current token opens an input, provider, property, constitutive law or equation.
pub open spec fn second_keywords(t: Seq<(TokenView, SourceSpan)>, s: PState) -> bool {
    (at_ident(t, s, "input"@) && input_follows(t, s)) || at_ident(t, s, "provider"@) || at_ident(t, s, "property"@)
        || at_ident(t, s, "constitutive"@) || at_ident(t, s, "equation"@)
}

/// The current token opens a form, initial conditions, or a boundary or interface condition.
pub open spec fn third_keywords(t: Seq<(TokenView, SourceSpan)>, s: PState) -> bool {
    at_ident(t, s, "form"@) || at_ident(t, s, "initial"@) || at_ident(t, s, "boundary"@) || at_ident(t, s, "interface"@)
}

/// One declaration of a model at `s`, chosen by its keyword; an unknown one is reported and
/// skipped.
pub open spec fn model_decl_s(t: Seq<(TokenView, SourceSpan)>, s: PState, m: ModelView) -> (ModelView, PState) {
    let s1 = advance(t, s);
    if at_ident(t, s, "domain"@) {
        match domain_s(t, s1) {
            (Some(x), s2) => (ModelView { domains: m.domains.push(x), ..m }, s2),
            (None, s2) => (m, s2),
        }
    } else if at_ident(t, s, "field"@) {
        match field_s(t, s1) {
            (Some(x), s2) => (ModelView { fields: m.fields.push(x), ..m }, s2),
            (None, s2) => (m, s2),
        }
    } else if at_ident(t, s, "parameter"@) {
        match value_decl_s(t, s1) {
            (Some(x), s2) => (ModelView { parameters: m.parameters.push(x), ..m }, s2),
            (None, s2) => (m, s2),
        }
    } else if at_ident(t, s, "constant"@) {
        match value_decl_s(t, s1) {
            (Some(x), s2) => (ModelView { constants: m.constants.push(x), ..m }, s2),
            (None, s2) => (m, s2),
        }
    } else if at_ident(t, s, "source"@) {
        match value_decl_s(t, s1) {
            (Some(x), s2) => (ModelView { sources: m.sources.push(x), ..m }, s2),
            (None, s2) => (m, s2),
        }
    } else if at_ident(t, s, "input"@) && input_follows(t, s) {
        match input_decl_s(t, s1) {
            (Some(x), s2) => (ModelView { inputs: m.inputs.push(x), ..m }, s2),
            (None, s2) => (m, s2),
        }
    } else if at_ident(t, s, "provider"@) {
        match provider_s(t, s1) {
            (Some(x), s2) => (ModelView { providers: m.providers.push(x), ..m }, s2),
            (None, s2) => (m, s2),
        }
    } else if at_ident(t, s, "property"@) {
        match property_s(t, s1) {
            (Some(x), s2) => (ModelView { properties: m.properties.push(x), ..m }, s2),
            (None, s2) => (m, s2),
        }
    } else if at_ident(t, s, "constitutive"@) {
        match constitutive_s(t, s1) {
            (Some(x), s2) => (ModelView { constitutive_laws: m.constitutive_laws.push(x), ..m }, s2),
            (None, s2) => (m, s2),
        }
    } else if at_ident(t, s, "equation"@) {
        match equation_s(t, s1) {
            (Some(x), s2) => (ModelView { equations: m.equations.push(x), ..m }, s2),
            (None, s2) => (m, s2),
        }
    } else if at_ident(t, s, "form"@) {
        match form_decl_s(t, s1) {
            (Some(x), s2) => (ModelView { forms: m.forms.push(x), ..m }, s2),
            (None, s2) => (m, s2),
        }
    } else if at_ident(t, s, "initial"@) {
        let (xs, s2) = assignment_block_s(t, s1);
        (ModelView { initial_conditions: m.initial_conditions + xs, ..m }, s2)
    } else if at_ident(t, s, "boundary"@) {
        match boundary_s(t, s1, false) {
            (Some(x), s2) => (ModelView { boundary_conditions: m.boundary_conditions.push(x), ..m }, s2),
            (None, s2) => (m, s2),
        }
    } else if at_ident(t, s, "interface"@) {
        match boundary_s(t, s1, true) {
            (Some(x), s2) => (ModelView { interface_conditions: m.interface_conditions.push(x), ..m }, s2),
            (None, s2) => (m, s2),
        }
    } else if at_ident(t, s, "observable"@) {
        match observable_s(t, s1) {
            (Some(x), s2) => (ModelView { observables: m.observables.push(x), ..m }, s2),
            (None, s2) => (m, s2),
        }
    } else if at_ident(t, s, "invariant"@) {
        match observable_s(t, s1) {
            (Some(x), s2) => (ModelView { invariants: m.invariants.push(x), ..m }, s2),
            (None, s2) => (m, s2),
        }
    } else if at_ident(t, s, "objective"@) {
        match objective_s(t, s1) {
            (Some(x), s2) => (ModelView { objectives: m.objectives.push(x), ..m }, s2),
            (None, s2) => (m, s2),
        }
    } else if at_punct(t, s, '@') {
        match verification_s(t, s1) {
            (Some(x), s2) => (ModelView { verifications: m.verifications.push(x), ..m }, s2),
            (None, s2) => (m, s2),
        }
    } else {
        (m, sync_s(t, error_here(t, s, "unknown model declaration"@)))
    }
}

/// The declarations of a model from `s` to its `}`.
pub open spec fn model_decls_s(t: Seq<(TokenView, SourceSpan)>, s: PState, m: ModelView) -> (ModelView, PState)
    decreases t.len() - s.pos,
{
    if !inside(t, s) || cur(t, s).0 is Eof || at_punct(t, s, '}') {
        (m, s)
    } else {
        let (m2, s2) = model_decl_s(t, s, m);
        if s.pos < s2.pos <= t.len() {
            model_decls_s(t, s2, m2)
        } else {
            (m2, s2)
        }
    }
}

/// `NAME { DECLARATIONS }` after `model`.
pub open spec fn model_s(t: Seq<(TokenView, SourceSpan)>, s: PState) -> (Option<ModelView>, PState) {
    match ident_value_s(t, s) {
        (None, s1) => (None, s1),
        (Some((name, span)), s1) => {
            let (m, s2) = model_decls_s(t, expect_punct_s(t, s1, '{').1, empty_model(name, span));
            (Some(m), expect_punct_s(t, s2, '}').1)
        },
    }
}

/// `use NAME ;` lines from `s`.
pub open spec fn imports_s(t: Seq<(TokenView, SourceSpan)>, s: PState, acc: Seq<(Seq<char>, SourceSpan)>) -> (
    Seq<(Seq<char>, SourceSpan)>,
    PState,
)
    decreases t.len() - s.pos,
{
    if inside(t, s) && at_ident(t, s, "use"@) {
        let (v, s2) = ident_value_s(t, advance(t, s));
        let acc2 = match v {
            Some(x) => acc.push(x),
            None => acc,
        };
        let s3 = expect_punct_s(t, s2, ';').1;
        if s.pos < s3.pos <= t.len() {
            imports_s(t, s3, acc2)
        } else {
            (acc2, s3)
        }
    } else {
        (acc, s)
    }
}

/// `model` declarations from `s` to the end; anything else is reported and skipped.
pub open spec fn models_s(t: Seq<(TokenView, SourceSpan)>, s: PState, acc: Seq<ModelView>) -> (Seq<ModelView>, PState)
    decreases t.len() - s.pos,
{
    if !inside(t, s) || cur(t, s).0 is Eof {
        (acc, s)
    } else {
        let (acc2, s9) = if at_ident(t, s, "model"@) {
            match model_s(t, advance(t, s)) {
                (Some(x), s1) => (acc.push(x), s1),
                (None, s1) => (acc, s1),
            }
        } else {
            let s1 = sync_s(t, error_here(t, s, "expected `model` declaration"@));
            (acc, if inside(t, s1) && at_punct(t, s1, '}') { advance(t, s1) } else { s1 })
        };
        if s.pos < s9.pos <= t.len() {
            models_s(t, s9, acc2)
        } else {
            (acc2, s9)
        }
    }
}

/// A module with its texts as characters.
pub struct ModuleView {
    pub schema: Seq<char>,
    pub name: Seq<char>,
    pub imports: Seq<(Seq<char>, SourceSpan)>,
    pub models: Seq<ModelView>,
    pub span: SourceSpan,
}

/// `[module NAME ;] [use NAME ;]* MODELS`; a module without a name is `main`.
pub open spec fn module_s(t: Seq<(TokenView, SourceSpan)>, s: PState) -> (ModuleView, PState) {
    let start = cur(t, s).1.start;
    let (has, s1) = eat_ident_s(t, s, "module"@);
    let (name, s2) = if has {
        match ident_value_s(t, s1) {
            (Some((n, _)), s2) => (n, expect_punct_s(t, s2, ';').1),
            (None, s2) => ("invalid"@, expect_punct_s(t, s2, ';').1),
        }
    } else {
        ("main"@, s1)
    };
    let (imports, s3) = imports_s(t, s2, seq![]);
    let (models, s4) = models_s(t, s3, seq![]);
    (
        ModuleView {
            schema: SCIENTIFIC_SCHEMA@,
            name,
            imports,
            models,
            span: SourceSpan { start, end: cur(t, s4).1.end },
        },
        s4,
    )
}

/// Every error is a syntax error.
pub open spec fn all_syntax(es: Seq<ScientificError>) -> bool {
    forall|j: int| 0 <= j < es.len() ==> (#[trigger] es[j]) is Syntax
}

/// What reading the text `s` as a module gives: the lexer's errors if it has any, else the
/// errors met reading the tokens if there are any, else the module read.
pub open spec fn module_read(s: Seq<char>, r: Result<ScientificModule, Vec<ScientificError>>) -> bool {
    let (ts, les) = lex_from(s, 0);
    let (mv, st) = module_s(ts, PState { pos: 0, errs: seq![] });
    match r {
        Ok(m) => les.len() == 0 && st.errs.len() == 0 && module_view(m) == mv,
        Err(es) => {
            &&& all_syntax(es@)
            &&& if les.len() > 0 {
                errors_view(es@) == les
            } else {
                st.errs.len() > 0 && errors_view(es@) == st.errs
            }
        },
    }
}

/// What reading the text `s` as one expression gives: the lexer's first error, else the
/// first error met reading an expression and then the end, else the expression.
pub open spec fn expression_read(s: Seq<char>, r: Result<Expr, ScientificError>) -> bool {
    let (ts, les) = lex_from(s, 0);
    let (e, st) = expr_s(ts, PState { pos: 0, errs: seq![] }, 0);
    let st2 = if e is Some && !(cur(ts, st).0 is Eof) { error_here(ts, st, "expected end of expression"@) } else { st };
    match r {
        Ok(x) => les.len() == 0 && st2.errs.len() == 0 && e == Some(expr_view(x)),
        Err(err) => {
            &&& err is Syntax
            &&& if les.len() > 0 {
                error_view(err) == les[0]
            } else if st2.errs.len() > 0 {
                error_view(err) == st2.errs[0]
            } else {
                e is None && error_view(err) == ("expected an expression"@, SourceSpan { start: 0, end: 0 })
            }
        },
    }
}

/// The tokens of any text end with `Eof`.
pub proof fn lemma_lexed_tokens_end(s: Seq<char>, k: int)
    ensures
        tokens_ok(lex_from(s, k).0),
    decreases s.len() - k,
{
    if 0 <= k < s.len() {
        let st = lex_step(s, k);
        let n = step_next(st);
        if !(st is Stop) && k < n <= s.len() {
            lemma_lexed_tokens_end(s, n);
            let rest = lex_from(s, n);
            if st is Emit {
                let x = seq![(st->Emit_0, st->Emit_1)];
                assert((x + rest.0).last() == rest.0.last());
            }
        }
    }
}

// ---------------------------------------------------------------------------------------
// Laws of operator binding.
// ---------------------------------------------------------------------------------------

/// The binary operator that an operator token spells.
pub open spec fn op_spelled(o: Seq<char>) -> BinaryOp {
    if o == "="@ {
        BinaryOp::Eq
    } else if o == "=="@ {
        BinaryOp::Eq
    } else if o == "<"@ {
        BinaryOp::Lt
    } else if o == "<="@ {
        BinaryOp::Le
    } else if o == ">"@ {
        BinaryOp::Gt
    } else if o == ">="@ {
        BinaryOp::Ge
    } else if o == "+"@ {
        BinaryOp::Add
    } else if o == "-"@ {
        BinaryOp::Sub
    } else if o == "*"@ {
        BinaryOp::Mul
    } else if o == "/"@ {
        BinaryOp::Div
    } else {
        BinaryOp::Pow
    }
}

/// How tightly an operator token binds: equality, then comparisons, then `+` and `-`, then
/// `*` and `/`, then `^`; zero for anything else.
pub open spec fn level(o: Seq<char>) -> int {
    if o == "="@ {
        1
    } else if o == "=="@ {
        1
    } else if o == "<"@ {
        2
    } else if o == "<="@ {
        2
    } else if o == ">"@ {
        2
    } else if o == ">="@ {
        2
    } else if o == "+"@ {
        3
    } else if o == "-"@ {
        3
    } else if o == "*"@ {
        4
    } else if o == "/"@ {
        4
    } else if o == "^"@ {
        5
    } else {
        0
    }
}

/// The tokens of `a o1 b o2 c`, then the end.
pub open spec fn three_names(
    a: (Seq<char>, SourceSpan),
    o1: (Seq<char>, SourceSpan),
    b: (Seq<char>, SourceSpan),
    o2: (Seq<char>, SourceSpan),
    c: (Seq<char>, SourceSpan),
    end: SourceSpan,
) -> Seq<(TokenView, SourceSpan)> {
    seq![
        (TokenView::Ident(a.0), a.1),
        (TokenView::Op(o1.0), o1.1),
        (TokenView::Ident(b.0), b.1),
        (TokenView::Op(o2.0), o2.1),
        (TokenView::Ident(c.0), c.1),
        (TokenView::Eof, end),
    ]
}

pub open spec fn name_view(x: (Seq<char>, SourceSpan)) -> ExprView {
    ExprView::Name { name: x.0, span: x.1 }
}

/// `x o y` as read, spanning from the start of `x` to the end of `y`.
pub open spec fn applied(o: Seq<char>, x: ExprView, y: ExprView) -> ExprView {
    ExprView::Binary {
        op: op_spelled(o),
        lhs: Box::new(x),
        rhs: Box::new(y),
        span: SourceSpan { start: expr_span(x).start, end: expr_span(y).end },
    }
}

proof fn lemma_binding_table()
    ensures
        binding_of("="@) == Some((1u8, 2u8, BinaryOp::Eq)),
        binding_of("=="@) == Some((1u8, 2u8, BinaryOp::Eq)),
        binding_of("<"@) == Some((3u8, 4u8, BinaryOp::Lt)),
        binding_of("<="@) == Some((3u8, 4u8, BinaryOp::Le)),
        binding_of(">"@) == Some((3u8, 4u8, BinaryOp::Gt)),
        binding_of(">="@) == Some((3u8, 4u8, BinaryOp::Ge)),
        binding_of("+"@) == Some((5u8, 6u8, BinaryOp::Add)),
        binding_of("-"@) == Some((5u8, 6u8, BinaryOp::Sub)),
        binding_of("*"@) == Some((7u8, 8u8, BinaryOp::Mul)),
        binding_of("/"@) == Some((7u8, 8u8, BinaryOp::Div)),
        binding_of("^"@) == Some((10u8, 9u8, BinaryOp::Pow)),
        op_spelled("="@) == BinaryOp::Eq,
        level("="@) == 1,
        op_spelled("=="@) == BinaryOp::Eq,
        level("=="@) == 1,
        op_spelled("<"@) == BinaryOp::Lt,
        level("<"@) == 2,
        op_spelled("<="@) == BinaryOp::Le,
        level("<="@) == 2,
        op_spelled(">"@) == BinaryOp::Gt,
        level(">"@) == 2,
        op_spelled(">="@) == BinaryOp::Ge,
        level(">="@) == 2,
        op_spelled("+"@) == BinaryOp::Add,
        level("+"@) == 3,
        op_spelled("-"@) == BinaryOp::Sub,
        level("-"@) == 3,
        op_spelled("*"@) == BinaryOp::Mul,
        level("*"@) == 4,
        op_spelled("/"@) == BinaryOp::Div,
        level("/"@) == 4,
        op_spelled("^"@) == BinaryOp::Pow,
        level("^"@) == 5,
{
    reveal_strlit("=");
    reveal_strlit("==");
    reveal_strlit("<");
    reveal_strlit("<=");
    reveal_strlit(">");
    reveal_strlit(">=");
    reveal_strlit("+");
    reveal_strlit("-");
    reveal_strlit("*");
    reveal_strlit("/");
    reveal_strlit("^");
    assert("=="@.len() != "="@.len());
    assert("<"@[0] != "="@[0]);
    assert("<"@[0] != "=="@[0]);
    assert("<="@[0] != "="@[0]);
    assert("<="@[0] != "=="@[0]);
    assert("<="@.len() != "<"@.len());
    assert(">"@[0] != "="@[0]);
    assert(">"@[0] != "=="@[0]);
    assert(">"@[0] != "<"@[0]);
    assert(">"@[0] != "<="@[0]);
    assert(">="@[0] != "="@[0]);
    assert(">="@[0] != "=="@[0]);
    assert(">="@[0] != "<"@[0]);
    assert(">="@[0] != "<="@[0]);
    assert(">="@.len() != ">"@.len());
    assert("+"@[0] != "="@[0]);
    assert("+"@[0] != "=="@[0]);
    assert("+"@[0] != "<"@[0]);
    assert("+"@[0] != "<="@[0]);
    assert("+"@[0] != ">"@[0]);
    assert("+"@[0] != ">="@[0]);
    assert("-"@[0] != "="@[0]);
    assert("-"@[0] != "=="@[0]);
    assert("-"@[0] != "<"@[0]);
    assert("-"@[0] != "<="@[0]);
    assert("-"@[0] != ">"@[0]);
    assert("-"@[0] != ">="@[0]);
    assert("-"@[0] != "+"@[0]);
    assert("*"@[0] != "="@[0]);
    assert("*"@[0] != "=="@[0]);
    assert("*"@[0] != "<"@[0]);
    assert("*"@[0] != "<="@[0]);
    assert("*"@[0] != ">"@[0]);
    assert("*"@[0] != ">="@[0]);
    assert("*"@[0] != "+"@[0]);
    assert("*"@[0] != "-"@[0]);
    assert("/"@[0] != "="@[0]);
    assert("/"@[0] != "=="@[0]);
    assert("/"@[0] != "<"@[0]);
    assert("/"@[0] != "<="@[0]);
    assert("/"@[0] != ">"@[0]);
    assert("/"@[0] != ">="@[0]);
    assert("/"@[0] != "+"@[0]);
    assert("/"@[0] != "-"@[0]);
    assert("/"@[0] != "*"@[0]);
    assert("^"@[0] != "="@[0]);
    assert("^"@[0] != "=="@[0]);
    assert("^"@[0] != "<"@[0]);
    assert("^"@[0] != "<="@[0]);
    assert("^"@[0] != ">"@[0]);
    assert("^"@[0] != ">="@[0]);
    assert("^"@[0] != "+"@[0]);
    assert("^"@[0] != "-"@[0]);
    assert("^"@[0] != "*"@[0]);
    assert("^"@[0] != "/"@[0]);
}

/// How `a o1 b o2 c` groups, for any two binary operators: the tighter-binding one takes its
/// operands first, and of two operators at one level the left one does, except that `^`
/// groups to the right. So `a - b - c` and `a / b / c` read as `(a - b) - c` and `(a / b) / c`,
/// `a + b * c` as `a + (b * c)`, `a * b = c` as `(a * b) = c`, and `a ^ b ^ c` as
/// `a ^ (b ^ c)`. The whole text is read, with no error.
pub proof fn lemma_operator_grouping(
    a: (Seq<char>, SourceSpan),
    o1: (Seq<char>, SourceSpan),
    b: (Seq<char>, SourceSpan),
    o2: (Seq<char>, SourceSpan),
    c: (Seq<char>, SourceSpan),
    end: SourceSpan,
    errs: Seq<(Seq<char>, SourceSpan)>,
)
    requires
        level(o1.0) > 0,
        level(o2.0) > 0,
    ensures
        ({
            let t = three_names(a, o1, b, o2, c, end);
            let (x, y, z) = (name_view(a), name_view(b), name_view(c));
            let r = expr_s(t, PState { pos: 0, errs }, 0);
            &&& r.1 == PState { pos: 5, errs }
            &&& r.0 == Some(if level(o1.0) > level(o2.0) || (level(o1.0) == level(o2.0) && o1.0 != "^"@) {
                applied(o2.0, applied(o1.0, x, y), z)
            } else {
                applied(o1.0, x, applied(o2.0, y, z))
            })
        }),
{
    lemma_binding_table();
    let t = three_names(a, o1, b, o2, c, end);
    let s0 = PState { pos: 0, errs };
    let s1 = PState { pos: 1, errs };
    let s2 = PState { pos: 2, errs };
    let s3 = PState { pos: 3, errs };
    let s4 = PState { pos: 4, errs };
    let s5 = PState { pos: 5, errs };
    let (x, y, z) = (name_view(a), name_view(b), name_view(c));
    let (l1, r1, p1) = binding_of(o1.0)->Some_0;
    let (l2, r2, p2) = binding_of(o2.0)->Some_0;
    assert(p1 == op_spelled(o1.0) && p2 == op_spelled(o2.0));
    assert(primary_s(t, s0) == (Some(x), s1));
    assert(primary_s(t, s2) == (Some(y), s3));
    assert(primary_s(t, s4) == (Some(z), s5));
    assert(postfix_s(t, s5, z, r2) == (Some(z), s5));
    assert(expr_s(t, s4, r2) == (Some(z), s5));
    let yz = applied(o2.0, y, z);
    let xy = applied(o1.0, x, y);
    if l2 < r1 {
        assert(postfix_s(t, s3, y, r1) == (Some(y), s3));
        assert(expr_s(t, s2, r1) == (Some(y), s3));
        assert(postfix_s(t, s5, applied(o2.0, xy, z), 0) == (Some(applied(o2.0, xy, z)), s5));
        assert(postfix_s(t, s3, xy, 0) == (Some(applied(o2.0, xy, z)), s5));
        assert(postfix_s(t, s1, x, 0) == (Some(applied(o2.0, xy, z)), s5));
    } else {
        assert(postfix_s(t, s5, yz, r1) == (Some(yz), s5));
        assert(postfix_s(t, s3, y, r1) == (Some(yz), s5));
        assert(expr_s(t, s2, r1) == (Some(yz), s5));
        let xyz = applied(o1.0, x, yz);
        assert(postfix_s(t, s5, xyz, 0) == (Some(xyz), s5));
        assert(postfix_s(t, s1, x, 0) == (Some(xyz), s5));
    }
}

/// The tokens of `- a o b`, then the end.
pub open spec fn negated_pair(
    minus: SourceSpan,
    a: (Seq<char>, SourceSpan),
    o: (Seq<char>, SourceSpan),
    b: (Seq<char>, SourceSpan),
    end: SourceSpan,
) -> Seq<(TokenView, SourceSpan)> {
    seq![
        (TokenView::Op("-"@), minus),
        (TokenView::Ident(a.0), a.1),
        (TokenView::Op(o.0), o.1),
        (TokenView::Ident(b.0), b.1),
        (TokenView::Eof, end),
    ]
}

/// A leading minus binds tighter than every binary operator: `- a o b` reads as `(-a) o b`.
pub proof fn lemma_negation_binds_tightest(
    minus: SourceSpan,
    a: (Seq<char>, SourceSpan),
    o: (Seq<char>, SourceSpan),
    b: (Seq<char>, SourceSpan),
    end: SourceSpan,
    errs: Seq<(Seq<char>, SourceSpan)>,
)
    requires
        level(o.0) > 0,
    ensures
        ({
            let t = negated_pair(minus, a, o, b, end);
            let neg = ExprView::Unary {
                op: UnaryOp::Neg,
                arg: Box::new(name_view(a)),
                span: SourceSpan { start: minus.start, end: a.1.end },
            };
            expr_s(t, PState { pos: 0, errs }, 0) == (Some(applied(o.0, neg, name_view(b))), PState { pos: 4, errs })
        }),
{
    lemma_binding_table();
    let t = negated_pair(minus, a, o, b, end);
    let s0 = PState { pos: 0, errs };
    let s1 = PState { pos: 1, errs };
    let s2 = PState { pos: 2, errs };
    let s3 = PState { pos: 3, errs };
    let s4 = PState { pos: 4, errs };
    let (x, y) = (name_view(a), name_view(b));
    let (l, r, p) = binding_of(o.0)->Some_0;
    assert(p == op_spelled(o.0));
    assert(primary_s(t, s1) == (Some(x), s2));
    assert(postfix_s(t, s2, x, 11) == (Some(x), s2));
    assert(expr_s(t, s1, 11) == (Some(x), s2));
    let neg = ExprView::Unary { op: UnaryOp::Neg, arg: Box::new(x), span: SourceSpan { start: minus.start, end: a.1.end } };
    assert(primary_s(t, s0) == (Some(neg), s2));
    assert(primary_s(t, s3) == (Some(y), s4));
    assert(postfix_s(t, s4, y, r) == (Some(y), s4));
    assert(expr_s(t, s3, r) == (Some(y), s4));
    assert(postfix_s(t, s4, applied(o.0, neg, y), 0) == (Some(applied(o.0, neg, y)), s4));
    assert(postfix_s(t, s2, neg, 0) == (Some(applied(o.0, neg, y)), s4));
}

/// A punctuation character of the lexer.
pub open spec fn is_punct(c: char) -> bool {
    c == '{' || c == '}' || c == '(' || c == ')' || c == ';' || c == ':' || c == ',' || c == '[' || c == ']'
        || c == '@'
}

fn punct_text(c: char) -> (s: &'static str)
    requires
        is_punct(c),
    ensures
        s@ == seq![c],
{
    proof {
        reveal_strlit("{");
        reveal_strlit("}");
        reveal_strlit("(");
        reveal_strlit(")");
        reveal_strlit(";");
        reveal_strlit(":");
        reveal_strlit(",");
        reveal_strlit("[");
        reveal_strlit("]");
        reveal_strlit("@");
    }
    if c == '{' {
        "{"
    } else if c == '}' {
        "}"
    } else if c == '(' {
        "("
    } else if c == ')' {
        ")"
    } else if c == ';' {
        ";"
    } else if c == ':' {
        ":"
    } else if c == ',' {
        ","
    } else if c == '[' {
        "["
    } else if c == ']' {
        "]"
    } else {
        "@"
    }
}

/// The attributes of a field block as they are read.
struct Attrs {
    quantity_kind: Option<String>,
    quantity_kind_span: Option<SourceSpan>,
    unit: Option<String>,
    unit_span: Option<SourceSpan>,
    nominal: Option<QuantityLiteral>,
    physical_min: Option<QuantityLiteral>,
    physical_max: Option<QuantityLiteral>,
    time_role: Option<TimeRole>,
}

spec fn attrs_view(a: Attrs) -> FieldAttrs {
    FieldAttrs {
        quantity_kind: string_opt(a.quantity_kind),
        quantity_kind_span: a.quantity_kind_span,
        unit: string_opt(a.unit),
        unit_span: a.unit_span,
        nominal: quantity_opt_view(a.nominal),
        physical_min: quantity_opt_view(a.physical_min),
        physical_max: quantity_opt_view(a.physical_max),
        time_role: a.time_role,
    }
}

pub open spec fn field_opt_view(f: Option<FieldDecl>) -> Option<FieldView> {
    match f {
        Some(x) => Some(field_view(x)),
        None => None,
    }
}

fn role_named(name: &String) -> (r: Option<FieldRole>)
    ensures
        r == role_of(name@),
{
    if text_eq(name.as_str(), "state") {
        Some(FieldRole::State)
    } else if text_eq(name.as_str(), "unknown") {
        Some(FieldRole::Unknown)
    } else if text_eq(name.as_str(), "test") {
        Some(FieldRole::Test)
    } else if text_eq(name.as_str(), "trial") {
        Some(FieldRole::Trial)
    } else if text_eq(name.as_str(), "coefficient") {
        Some(FieldRole::Coefficient)
    } else if text_eq(name.as_str(), "parameter") {
        Some(FieldRole::Parameter)
    } else if text_eq(name.as_str(), "derived") {
        Some(FieldRole::Derived)
    } else {
        None
    }
}

fn space_named(family: &String, order: u8) -> (r: Option<SpaceSpec>)
    ensures
        r == space_of(family@, order),
{
    if text_eq(family.as_str(), "H1") {
        Some(SpaceSpec { family: SpaceFamily::H1, order, continuity: Continuity::Continuous })
    } else if text_eq(family.as_str(), "L2") {
        Some(SpaceSpec { family: SpaceFamily::L2, order, continuity: Continuity::Discontinuous })
    } else if text_eq(family.as_str(), "HCurl") || text_eq(family.as_str(), "Hcurl") {
        Some(SpaceSpec { family: SpaceFamily::HCurl, order, continuity: Continuity::Tangential })
    } else if text_eq(family.as_str(), "HDiv") || text_eq(family.as_str(), "Hdiv") {
        Some(SpaceSpec { family: SpaceFamily::HDiv, order, continuity: Continuity::Normal })
    } else if text_eq(family.as_str(), "DG") {
        Some(SpaceSpec { family: SpaceFamily::Dg, order, continuity: Continuity::Discontinuous })
    } else {
        None
    }
}

fn copy_text(x: &Option<String>) -> (r: Option<String>)
    ensures
        string_opt(r) == string_opt(*x),
{
    match x {
        Some(k) => Some(k.clone()),
        None => None,
    }
}

/// `lead`, then `x`, then a closing backquote.
fn quoted_message(lead: &str, x: &String) -> (m: String)
    ensures
        m@ == lead@ + x@ + "`"@,
{
    let mut m = lead.to_owned();
    m.append(x.as_str());
    m.append("`");
    m
}

fn copy_kind(k: &TokenKind) -> (c: TokenKind)
    ensures
        kind_view(c) == kind_view(*k),
{
    match k {
        TokenKind::Ident(x) => TokenKind::Ident(x.clone()),
        TokenKind::Number(x) => TokenKind::Number(x.clone()),
        TokenKind::String(x) => TokenKind::String(x.clone()),
        TokenKind::Punct(c) => TokenKind::Punct(*c),
        TokenKind::Op(x) => TokenKind::Op(x.clone()),
        TokenKind::Eof => TokenKind::Eof,
    }
}

fn span_of(e: &Expr) -> (s: SourceSpan)
    ensures
        s == expr_span(expr_view(*e)),
{
    match e {
        Expr::Number { span, .. } => *span,
        Expr::String { span, .. } => *span,
        Expr::Name { span, .. } => *span,
        Expr::Unary { span, .. } => *span,
        Expr::Binary { span, .. } => *span,
        Expr::Call { span, .. } => *span,
        Expr::Index { span, .. } => *span,
        Expr::Vector { span, .. } => *span,
    }
}

/// A text and its span taken apart.
fn split_text(x: Option<(String, SourceSpan)>) -> (r: (Option<String>, Option<SourceSpan>))
    ensures
        string_opt(r.0) == first_opt(text_opt(x)),
        r.1 == second_opt(text_opt(x)),
{
    match x {
        Some((a, b)) => (Some(a), Some(b)),
        None => (None, None),
    }
}

fn boundary_kind_named(name: &String) -> (r: Option<BoundaryConditionKind>)
    ensures
        r == boundary_kind_of(name@),
{
    if text_eq(name.as_str(), "dirichlet") {
        Some(BoundaryConditionKind::Dirichlet)
    } else if text_eq(name.as_str(), "neumann") {
        Some(BoundaryConditionKind::Neumann)
    } else if text_eq(name.as_str(), "robin") {
        Some(BoundaryConditionKind::Robin)
    } else {
        None
    }
}

pub open spec fn value_view(x: ValueDecl) -> ValueView {
    ValueView {
        name: x.name@,
        quantity_kind: string_opt(x.quantity_kind),
        quantity_kind_span: x.quantity_kind_span,
        unit: string_opt(x.unit),
        unit_span: x.unit_span,
        value: expr_opt_view(x.value),
        span: x.span,
    }
}

pub open spec fn equation_view(x: EquationDecl) -> EquationView {
    EquationView {
        name: x.name@,
        domain: string_opt(x.domain),
        domain_span: x.domain_span,
        lhs: expr_view(x.lhs),
        rhs: expr_view(x.rhs),
        span: x.span,
    }
}

pub open spec fn condition_view(x: BoundaryConditionDecl) -> ConditionView {
    ConditionView {
        name: x.name@,
        region: expr_view(x.region),
        kind: x.kind,
        target: x.target@,
        target_span: x.target_span,
        value: expr_view(x.value),
        span: x.span,
    }
}

pub open spec fn coord_view(c: CoordinateSystem) -> CoordView {
    match c {
        CoordinateSystem::Cartesian => CoordView::Cartesian,
        CoordinateSystem::Cylindrical => CoordView::Cylindrical,
        CoordinateSystem::Spherical => CoordView::Spherical,
        CoordinateSystem::Custom(x) => CoordView::Custom(x@),
    }
}

pub open spec fn domain_view(d: DomainDecl) -> DomainView {
    DomainView {
        name: d.name@,
        dimension: d.dimension,
        coordinates: coord_view(d.coordinates),
        coordinates_span: d.coordinates_span,
        span: d.span,
    }
}

pub open spec fn input_view(x: InputDecl) -> InputView {
    InputView {
        name: x.name@,
        kind: x.kind,
        quantity_kind: string_opt(x.quantity_kind),
        quantity_kind_span: x.quantity_kind_span,
        unit: string_opt(x.unit),
        unit_span: x.unit_span,
        domain: string_opt(x.domain),
        domain_span: x.domain_span,
        span: x.span,
    }
}

pub open spec fn provider_input_view(x: ProviderInputDecl) -> ProviderInputView {
    ProviderInputView { name: x.name@, kind: string_opt(x.kind), kind_span: x.kind_span, span: x.span }
}

pub open spec fn provider_inputs_view(v: Seq<ProviderInputDecl>) -> Seq<ProviderInputView> {
    v.map_values(|x: ProviderInputDecl| provider_input_view(x))
}

pub open spec fn bound_view(b: ProviderDomainBound) -> BoundView {
    BoundView {
        input: b.input@,
        input_span: b.input_span,
        min: quantity_view(b.min),
        max: quantity_view(b.max),
        span: b.span,
    }
}

pub open spec fn bounds_view(v: Seq<ProviderDomainBound>) -> Seq<BoundView> {
    v.map_values(|b: ProviderDomainBound| bound_view(b))
}

pub open spec fn provider_view(p: ProviderDecl) -> ProviderView {
    ProviderView {
        name: p.name@,
        inputs: provider_inputs_view(p.inputs@),
        output_kind: p.output_kind@,
        output_kind_span: p.output_kind_span,
        unit: string_opt(p.unit),
        unit_span: p.unit_span,
        shape: p.shape,
        locality: p.locality,
        differentiability: p.differentiability,
        domain: bounds_view(p.domain@),
        span: p.span,
    }
}

/// What a provider block has set so far.
struct ProviderParts {
    unit: Option<(String, SourceSpan)>,
    shape: ValueShape,
    locality: PropertyLocality,
    differentiability: DerivativeContract,
    domain: Vec<ProviderDomainBound>,
}

spec fn parts_view(a: ProviderParts) -> ProviderAttrs {
    ProviderAttrs {
        unit: text_opt(a.unit),
        shape: a.shape,
        locality: a.locality,
        differentiability: a.differentiability,
        domain: bounds_view(a.domain@),
    }
}

pub open spec fn measure_view(m: Measure) -> MeasureView {
    match m {
        Measure::Cell(x) => MeasureView::Cell(x@),
        Measure::Boundary(x) => MeasureView::Boundary(x@),
        Measure::InteriorFacet(x) => MeasureView::InteriorFacet(x@),
        Measure::Interface(x) => MeasureView::Interface(x@),
        Measure::Point(x) => MeasureView::Point(x@),
    }
}

pub open spec fn integral_view(x: IntegralDecl) -> IntegralView {
    IntegralView {
        measure: measure_view(x.measure),
        target_span: x.target_span,
        integrand: expr_view(x.integrand),
        span: x.span,
    }
}

pub open spec fn integrals_view(v: Seq<IntegralDecl>) -> Seq<IntegralView> {
    v.map_values(|x: IntegralDecl| integral_view(x))
}

pub open spec fn form_view(f: FormDecl) -> FormView {
    FormView { name: f.name@, integrals: integrals_view(f.integrals@), span: f.span }
}

pub open spec fn assign_view(x: ConditionDecl) -> AssignView {
    AssignView { target: x.target@, value: expr_view(x.value), span: x.span }
}

pub open spec fn assigns_view(v: Seq<ConditionDecl>) -> Seq<AssignView> {
    v.map_values(|x: ConditionDecl| assign_view(x))
}

pub open spec fn args_view(v: Seq<(String, Expr)>) -> Seq<(Seq<char>, ExprView)> {
    v.map_values(|x: (String, Expr)| (x.0@, expr_view(x.1)))
}

pub open spec fn annotation_view(a: VerificationAnnotation) -> AnnotationView {
    AnnotationView { name: a.name@, args: args_view(a.args@), span: a.span }
}

fn coordinate_named(v: String) -> (r: CoordinateSystem)
    ensures
        coord_view(r) == coord_of(v@),
{
    if text_eq(v.as_str(), "cartesian") {
        CoordinateSystem::Cartesian
    } else if text_eq(v.as_str(), "cylindrical") {
        CoordinateSystem::Cylindrical
    } else if text_eq(v.as_str(), "spherical") {
        CoordinateSystem::Spherical
    } else {
        CoordinateSystem::Custom(v)
    }
}

fn locality_named(name: &String) -> (r: Option<PropertyLocality>)
    ensures
        r == locality_of(name@),
{
    if text_eq(name.as_str(), "pointwise") {
        Some(PropertyLocality::Pointwise)
    } else if text_eq(name.as_str(), "element_constant") {
        Some(PropertyLocality::ElementConstant)
    } else if text_eq(name.as_str(), "external") {
        Some(PropertyLocality::ExternalProvider)
    } else {
        None
    }
}

fn differentiability_named(name: &String) -> (r: Option<DerivativeContract>)
    ensures
        r == differentiability_of(name@),
{
    if text_eq(name.as_str(), "symbolic") {
        Some(DerivativeContract::Symbolic)
    } else if text_eq(name.as_str(), "analytic_provided") {
        Some(DerivativeContract::AnalyticProvided)
    } else if text_eq(name.as_str(), "automatic") {
        Some(DerivativeContract::Automatic)
    } else if text_eq(name.as_str(), "piecewise") {
        Some(DerivativeContract::Piecewise)
    } else if text_eq(name.as_str(), "numerical_allowed") {
        Some(DerivativeContract::NumericalAllowed)
    } else if text_eq(name.as_str(), "none") {
        Some(DerivativeContract::NoDerivative)
    } else {
        None
    }
}

/// The measure named `name` over `target`, and whether the name is known; an unknown name
/// gives a cell measure.
fn measure_named(name: &String, target: String) -> (r: (Measure, bool))
    ensures
        match measure_of(name@, target@) {
            Some(m) => r.1 && measure_view(r.0) == m,
            None => !r.1 && measure_view(r.0) == MeasureView::Cell(target@),
        },
{
    if text_eq(name.as_str(), "cell") {
        (Measure::Cell(target), true)
    } else if text_eq(name.as_str(), "boundary") {
        (Measure::Boundary(target), true)
    } else if text_eq(name.as_str(), "interior_facet") {
        (Measure::InteriorFacet(target), true)
    } else if text_eq(name.as_str(), "interface") {
        (Measure::Interface(target), true)
    } else if text_eq(name.as_str(), "point") {
        (Measure::Point(target), true)
    } else {
        (Measure::Cell(target), false)
    }
}

/// Put `value` under `key`, keeping the keys in order; a key given again gets the new value.
fn insert_arg(args: &mut Vec<(String, Expr)>, key: String, value: Expr)
    ensures
        args_view(final(args)@) == arg_insert(args_view(old(args)@), key@, expr_view(value)),
{
    let ghost av = args_view(args@);
    let mut j: usize = 0;
    while j < args.len() && text_before(&args[j].0, &key)
        invariant
            j <= args.len(),
            av == args_view(args@),
            arg_pos(av, key@, 0) == arg_pos(av, key@, j as int),
        decreases args.len() - j,
    {
        proof {
            assert(av[j as int].0 == args@[j as int].0@);
        }
        j = j + 1;
    }
    proof {
        if j < args.len() {
            assert(av[j as int].0 == args@[j as int].0@);
        }
        assert(arg_pos(av, key@, j as int) == j);
    }
    let ghost v0 = args@;
    let ghost kv = key@;
    let ghost ev = expr_view(value);
    if j < args.len() && text_eq(args[j].0.as_str(), key.as_str()) {
        args.set(j, (key, value));
        proof {
            assert(args_view(args@) =~= av.update(j as int, (kv, ev)));
        }
    } else {
        args.insert(j, (key, value));
        proof {
            assert(args_view(args@) =~= av.insert(j as int, (kv, ev)));
        }
    }
}

pub open spec fn domains_view(v: Seq<DomainDecl>) -> Seq<DomainView> {
    v.map_values(|x: DomainDecl| domain_view(x))
}

pub open spec fn fields_view(v: Seq<FieldDecl>) -> Seq<FieldView> {
    v.map_values(|x: FieldDecl| field_view(x))
}

pub open spec fn values_view(v: Seq<ValueDecl>) -> Seq<ValueView> {
    v.map_values(|x: ValueDecl| value_view(x))
}

pub open spec fn inputs_view(v: Seq<InputDecl>) -> Seq<InputView> {
    v.map_values(|x: InputDecl| input_view(x))
}

pub open spec fn providers_view(v: Seq<ProviderDecl>) -> Seq<ProviderView> {
    v.map_values(|x: ProviderDecl| provider_view(x))
}

pub open spec fn properties_view(v: Seq<PropertyBinding>) -> Seq<NamedView> {
    v.map_values(|x: PropertyBinding| NamedView { name: x.name@, value: expr_view(x.value), span: x.span })
}

pub open spec fn laws_view(v: Seq<ConstitutiveBinding>) -> Seq<NamedView> {
    v.map_values(|x: ConstitutiveBinding| NamedView { name: x.name@, value: expr_view(x.law), span: x.span })
}

pub open spec fn equations_view(v: Seq<EquationDecl>) -> Seq<EquationView> {
    v.map_values(|x: EquationDecl| equation_view(x))
}

pub open spec fn forms_view(v: Seq<FormDecl>) -> Seq<FormView> {
    v.map_values(|x: FormDecl| form_view(x))
}

pub open spec fn conditions_view(v: Seq<BoundaryConditionDecl>) -> Seq<ConditionView> {
    v.map_values(|x: BoundaryConditionDecl| condition_view(x))
}

pub open spec fn observables_view(v: Seq<ObservableDecl>) -> Seq<NamedView> {
    v.map_values(|x: ObservableDecl| NamedView { name: x.name@, value: expr_view(x.value), span: x.span })
}

pub open spec fn objectives_view(v: Seq<ObjectiveDecl>) -> Seq<ObjectiveView> {
    v.map_values(
        |x: ObjectiveDecl| ObjectiveView { name: x.name@, sense: x.sense, value: expr_view(x.value), span: x.span },
    )
}

pub open spec fn annotations_view(v: Seq<VerificationAnnotation>) -> Seq<AnnotationView> {
    v.map_values(|x: VerificationAnnotation| annotation_view(x))
}

pub open spec fn model_view(m: ScientificModel) -> ModelView {
    ModelView {
        name: m.name@,
        domains: domains_view(m.domains@),
        fields: fields_view(m.fields@),
        parameters: values_view(m.parameters@),
        constants: values_view(m.constants@),
        sources: values_view(m.sources@),
        inputs: inputs_view(m.inputs@),
        providers: providers_view(m.providers@),
        properties: properties_view(m.properties@),
        constitutive_laws: laws_view(m.constitutive_laws@),
        equations: equations_view(m.equations@),
        forms: forms_view(m.forms@),
        initial_conditions: assigns_view(m.initial_conditions@),
        boundary_conditions: conditions_view(m.boundary_conditions@),
        interface_conditions: conditions_view(m.interface_conditions@),
        observables: observables_view(m.observables@),
        invariants: observables_view(m.invariants@),
        objectives: objectives_view(m.objectives@),
        verifications: annotations_view(m.verifications@),
        span: m.span,
    }
}

pub open spec fn models_view(v: Seq<ScientificModel>) -> Seq<ModelView> {
    v.map_values(|x: ScientificModel| model_view(x))
}

pub open spec fn imports_view(v: Seq<Spanned<String>>) -> Seq<(Seq<char>, SourceSpan)> {
    v.map_values(|x: Spanned<String>| (x.value@, x.span))
}

pub open spec fn module_view(m: ScientificModule) -> ModuleView {
    ModuleView {
        schema: m.schema@,
        name: m.name@,
        imports: imports_view(m.imports@),
        models: models_view(m.models@),
        span: m.span,
    }
}

/// A reader of declarations over tokens that end with `Eof`.
pub struct Parser {
    pub tokens: Vec<Token>,
    pub i: usize,
    pub errors: Vec<ScientificError>,
}

impl Parser {
    pub open spec fn toks(&self) -> Seq<(TokenView, SourceSpan)> {
        tokens_view(self.tokens@)
    }

    pub open spec fn state(&self) -> PState {
        PState { pos: self.i as int, errs: errors_view(self.errors@) }
    }

    /// The tokens end with `Eof`, the position is a token, and every error is a syntax error.
    pub open spec fn wf(&self) -> bool {
        &&& tokens_ok(self.toks())
        &&& (self.i as int) < self.tokens@.len()
        &&& all_syntax(self.errors@)
    }

    /// A parser at the first token, with no errors.
    pub fn new(tokens: Vec<Token>) -> (p: Parser)
        requires
            tokens_ok(tokens_view(tokens@)),
        ensures
            p.wf(),
            p.tokens@ == tokens@,
            p.state() == (PState { pos: 0, errs: seq![] }),
    {
        let p = Parser { tokens, i: 0, errors: Vec::new() };
        proof {
            assert(errors_view(p.errors@) =~= Seq::<(Seq<char>, SourceSpan)>::empty());
        }
        p
    }

    fn span_here(&self) -> (s: SourceSpan)
        requires
            self.wf(),
        ensures
            s == cur(self.toks(), self.state()).1,
    {
        self.tokens[self.i].span
    }

    fn advance(&mut self)
        requires
            old(self).wf(),
        ensures
            final(self).wf(),
            final(self).tokens == old(self).tokens,
            old(self).i <= final(self).i,
            final(self).state() == advance(old(self).toks(), old(self).state()),
    {
        if !matches!(self.tokens[self.i].kind, TokenKind::Eof) {
            proof {
                if self.i as int == self.tokens@.len() - 1 {
                    assert(self.toks().last() == self.toks()[self.i as int]);
                }
            }
            assert(self.i < self.tokens.len());
            self.i = self.i + 1;
        }
    }

    fn push_error(&mut self, message: String, span: SourceSpan)
        requires
            old(self).wf(),
        ensures
            final(self).wf(),
            final(self).tokens == old(self).tokens,
            final(self).i == old(self).i,
            final(self).state() == report(old(self).state(), message@, span),
    {
        let ghost e0 = self.errors@;
        self.errors.push(ScientificError::Syntax { message, span });
        proof {
            assert(errors_view(self.errors@) =~= errors_view(e0).push((message@, span)));
        }
    }

    fn ident_is(&self, x: &str) -> (b: bool)
        requires
            self.wf(),
        ensures
            b == at_ident(self.toks(), self.state(), x@),
    {
        match &self.tokens[self.i].kind {
            TokenKind::Ident(y) => text_eq(y.as_str(), x),
            _ => false,
        }
    }

    fn punct_is(&self, c: char) -> (b: bool)
        requires
            self.wf(),
        ensures
            b == at_punct(self.toks(), self.state(), c),
    {
        match &self.tokens[self.i].kind {
            TokenKind::Punct(d) => *d == c,
            _ => false,
        }
    }

    fn op_is(&self, op: &str) -> (b: bool)
        requires
            self.wf(),
        ensures
            b == at_op(self.toks(), self.state(), op@),
    {
        match &self.tokens[self.i].kind {
            TokenKind::Op(y) => text_eq(y.as_str(), op),
            _ => false,
        }
    }

    fn at_end(&self) -> (b: bool)
        requires
            self.wf(),
        ensures
            b == cur(self.toks(), self.state()).0 is Eof,
    {
        matches!(self.tokens[self.i].kind, TokenKind::Eof)
    }

    fn eat_ident(&mut self, x: &str) -> (b: bool)
        requires
            old(self).wf(),
        ensures
            final(self).wf(),
            final(self).tokens == old(self).tokens,
            old(self).i <= final(self).i,
            (b, final(self).state()) == eat_ident_s(old(self).toks(), old(self).state(), x@),
    {
        if self.ident_is(x) {
            self.advance();
            true
        } else {
            false
        }
    }

    fn eat_punct(&mut self, c: char) -> (b: bool)
        requires
            old(self).wf(),
        ensures
            final(self).wf(),
            final(self).tokens == old(self).tokens,
            old(self).i <= final(self).i,
            (b, final(self).state()) == eat_punct_s(old(self).toks(), old(self).state(), c),
    {
        if self.punct_is(c) {
            self.advance();
            true
        } else {
            false
        }
    }

    fn eat_op(&mut self, op: &str) -> (b: bool)
        requires
            old(self).wf(),
        ensures
            final(self).wf(),
            final(self).tokens == old(self).tokens,
            old(self).i <= final(self).i,
            (b, final(self).state()) == eat_op_s(old(self).toks(), old(self).state(), op@),
    {
        if self.op_is(op) {
            self.advance();
            true
        } else {
            false
        }
    }

    fn error(&mut self, message: String)
        requires
            old(self).wf(),
        ensures
            final(self).wf(),
            final(self).tokens == old(self).tokens,
            old(self).i <= final(self).i,
            final(self).state() == error_here(old(self).toks(), old(self).state(), message@),
    {
        let span = self.span_here();
        self.push_error(message, span);
    }

    fn expect_punct(&mut self, c: char) -> (b: bool)
        requires
            old(self).wf(),
            is_punct(c),
        ensures
            final(self).wf(),
            final(self).tokens == old(self).tokens,
            old(self).i <= final(self).i,
            (b, final(self).state()) == expect_punct_s(old(self).toks(), old(self).state(), c),
    {
        if self.eat_punct(c) {
            true
        } else {
            let mut m = "expected `".to_owned();
            m.append(punct_text(c));
            m.append("`");
            proof {
                assert(m@ =~= expected_text(c));
            }
            self.error(m);
            false
        }
    }

    fn expect_ident_value(&mut self) -> (r: Option<(String, SourceSpan)>)
        requires
            old(self).wf(),
        ensures
            final(self).wf(),
            final(self).tokens == old(self).tokens,
            old(self).i <= final(self).i,
            (match r {
                Some((x, sp)) => Some((x@, sp)),
                None => None,
            }, final(self).state()) == ident_value_s(old(self).toks(), old(self).state()),
    {
        let span = self.span_here();
        let name = match &self.tokens[self.i].kind {
            TokenKind::Ident(x) => Some(x.clone()),
            _ => None,
        };
        self.advance();
        match name {
            Some(x) => Some((x, span)),
            None => {
                self.push_error("expected identifier".to_owned(), span);
                None
            },
        }
    }

    fn sync(&mut self)
        requires
            old(self).wf(),
        ensures
            final(self).wf(),
            final(self).tokens == old(self).tokens,
            old(self).i <= final(self).i,
            final(self).state() == sync_s(old(self).toks(), old(self).state()),
    {
        let ghost t = self.toks();
        let ghost s0 = self.state();
        let ghost tk = self.tokens;
        while !self.at_end()
            invariant
                self.wf(),
                tk == self.tokens,
                tk == old(self).tokens,
                t == old(self).toks(),
                s0 == old(self).state(),
                t == self.toks(),
                s0.pos <= self.i,
                sync_s(t, s0) == sync_s(t, self.state()),
            decreases self.tokens@.len() - self.i,
        {
            let ghost st = self.state();
            if self.punct_is(';') {
                self.advance();
                proof {
                    assert(sync_s(t, st) == advance(t, st));
                }
                return;
            }
            if self.punct_is('}') {
                proof {
                    assert(sync_s(t, st) == st);
                }
                return;
            }
            self.advance();
            proof {
                assert(sync_s(t, st) == sync_s(t, advance(t, st)));
            }
        }
        proof {
            assert(sync_s(t, self.state()) == self.state());
        }
    }

    fn unit_atom(&mut self) -> (r: Option<(String, SourceSpan)>)
        requires
            old(self).wf(),
        ensures
            final(self).wf(),
            final(self).tokens == old(self).tokens,
            (text_opt(r), final(self).state()) == unit_atom_s(old(self).toks(), old(self).state()),
            old(self).i <= final(self).i,
            r is Some ==> old(self).i < final(self).i,
        decreases old(self).tokens@.len() - old(self).i, 0nat,
    {
        let ghost t = self.toks();
        let ghost s0 = self.state();
        if self.punct_is('(') {
            let start = self.span_here().start;
            self.advance();
            match self.unit_expr() {
                Some((inner, _)) => {
                    let end = self.span_here().end;
                    self.expect_punct(')');
                    let mut text = "(".to_owned();
                    text.append(inner.as_str());
                    text.append(")");
                    proof {
                        assert(text@ =~= "("@ + inner@ + ")"@);
                    }
                    Some((text, SourceSpan { start, end }))
                },
                None => None,
            }
        } else {
            self.expect_ident_value()
        }
    }

    fn unit_term(&mut self) -> (r: Option<(String, SourceSpan)>)
        requires
            old(self).wf(),
        ensures
            final(self).wf(),
            final(self).tokens == old(self).tokens,
            (text_opt(r), final(self).state()) == unit_term_s(old(self).toks(), old(self).state()),
            old(self).i <= final(self).i,
            r is Some ==> old(self).i < final(self).i,
        decreases old(self).tokens@.len() - old(self).i, 1nat,
    {
        let ghost t = self.toks();
        let ghost s0 = self.state();
        match self.unit_atom() {
            None => None,
            Some((text, span)) => {
                if self.op_is("^") {
                    self.advance();
                    let neg = self.eat_op("-");
                    let tok_span = self.span_here();
                    let value: Option<i64> = match &self.tokens[self.i].kind {
                        TokenKind::Number(x) => match ExactLiteral::checked_from_lexeme(x.as_str()) {
                            Some(ExactLiteral::Integer(v)) => if v > 9223372036854775807i128 {
                                Some(9223372036854775807i64)
                            } else if v < -9223372036854775808i128 {
                                Some(-9223372036854775808i64)
                            } else {
                                Some(v as i64)
                            },
                            _ => None,
                        },
                        _ => None,
                    };
                    self.advance();
                    match value {
                        Some(v) => {
                            let mut out = text;
                            out.append("^");
                            if neg {
                                out.append("-");
                            }
                            push_signed_decimal(&mut out, v);
                            proof {
                                assert(out@ =~= text@ + "^"@ + (if neg { "-"@ } else { seq![] }) + signed_decimal(v as int));
                            }
                            Some((out, SourceSpan { start: span.start, end: tok_span.end }))
                        },
                        None => {
                            self.push_error("expected an integer unit exponent".to_owned(), tok_span);
                            Some((text, span))
                        },
                    }
                } else {
                    Some((text, span))
                }
            },
        }
    }

    fn unit_expr(&mut self) -> (r: Option<(String, SourceSpan)>)
        requires
            old(self).wf(),
        ensures
            final(self).wf(),
            final(self).tokens == old(self).tokens,
            (text_opt(r), final(self).state()) == unit_expr_s(old(self).toks(), old(self).state()),
            old(self).i <= final(self).i,
            r is Some ==> old(self).i < final(self).i,
        decreases old(self).tokens@.len() - old(self).i, 3nat,
    {
        let ghost t = self.toks();
        let ghost s0 = self.state();
        let ghost i0 = self.i;
        let ghost tk = self.tokens;
        let (mut text, mut span) = match self.unit_term() {
            Some(x) => x,
            None => {
                return None;
            },
        };
        while self.op_is("*") || self.op_is("/")
            invariant
                self.wf(),
                self.tokens == tk,
                tk == old(self).tokens,
                t == old(self).toks(),
                s0 == old(self).state(),
                i0 == old(self).i,
                t == self.toks(),
                i0 < self.i,
                unit_expr_s(t, s0) == unit_rest_s(t, self.state(), text@, span),
            decreases self.tokens@.len() - self.i,
        {
            let ghost st = self.state();
            let star = self.op_is("*");
            self.advance();
            match self.unit_term() {
                None => {
                    return None;
                },
                Some((rhs, rspan)) => {
                    let ghost text0 = text@;
                    if star {
                        text.append("*");
                    } else {
                        text.append("/");
                    }
                    text.append(rhs.as_str());
                    proof {
                        reveal_strlit("*");
                        reveal_strlit("/");
                        assert(text@ =~= text0.push(if star { '*' } else { '/' }) + rhs@);
                    }
                    span = SourceSpan { start: span.start, end: rspan.end };
                },
            }
        }
        Some((text, span))
    }

    fn prev_end(&self) -> (e: usize)
        requires
            self.wf(),
        ensures
            e == prev_end(self.toks(), self.state()),
    {
        let j = if self.i >= 1 {
            self.i - 1
        } else {
            0
        };
        self.tokens[j].span.end
    }

    fn chain(&mut self, text0: String, end0: usize) -> (r: (String, usize))
        requires
            old(self).wf(),
        ensures
            final(self).wf(),
            final(self).tokens == old(self).tokens,
            old(self).i <= final(self).i,
            (r.0@, r.1, final(self).state()) == chain_s(old(self).toks(), old(self).state(), text0@, end0),
    {
        let ghost t = self.toks();
        let ghost tk = self.tokens;
        let ghost s0 = self.state();
        let ghost text_in = text0@;
        let ghost end_in = end0;
        let mut text = text0;
        let mut end = end0;
        while (self.op_is("*") || self.op_is("/")) && self.i < self.tokens.len() - 1 && (matches!(
            self.tokens[self.i + 1].kind,
            TokenKind::Ident(_)
        ) || matches!(self.tokens[self.i + 1].kind, TokenKind::Punct('(')))
            invariant
                self.wf(),
                self.tokens == tk,
                tk == old(self).tokens,
                t == self.toks(),
                t == old(self).toks(),
                s0 == old(self).state(),
                s0.pos <= self.i,
                text_in == text0@,
                end_in == end0,
                chain_s(t, s0, text_in, end_in) == chain_s(t, self.state(), text@, end),
            decreases self.tokens@.len() - self.i,
        {
            let ghost st = self.state();
            let ghost text0 = text@;
            let star = self.op_is("*");
            proof {
                assert(t[self.i + 1] == (kind_view(self.tokens@[self.i + 1].kind), self.tokens@[self.i + 1].span));
            }
            self.advance();
            match self.unit_term() {
                None => {
                    return (text, end);
                },
                Some((atom, sp)) => {
                    if star {
                        text.append("*");
                    } else {
                        text.append("/");
                    }
                    text.append(atom.as_str());
                    proof {
                        assert(text@ =~= text0 + (if star { "*"@ } else { "/"@ }) + atom@);
                    }
                    end = sp.end;
                },
            }
        }
        (text, end)
    }

    #[verifier::spinoff_prover]
    #[verifier::rlimit(50)]
    fn primary(&mut self) -> (r: Option<Expr>)
        requires
            old(self).wf(),
        ensures
            final(self).wf(),
            final(self).tokens == old(self).tokens,
            old(self).i <= final(self).i,
            r is Some ==> old(self).i < final(self).i,
            (expr_opt_view(r), final(self).state()) == primary_s(old(self).toks(), old(self).state()),
        decreases old(self).tokens@.len() - old(self).i, 0int,
    {
        let ghost t = self.toks();
        let tok_span = self.span_here();
        let k = copy_kind(&self.tokens[self.i].kind);
        self.advance();
        match k {
            TokenKind::Number(x) => {
                if matches!(self.tokens[self.i].kind, TokenKind::Ident(_)) {
                    match self.unit_term() {
                        Some((text0, sp0)) => {
                            let (text, end) = self.chain(text0, sp0.end);
                            Some(Expr::Number { lexeme: x, unit: Some(text), span: SourceSpan { start: tok_span.start, end } })
                        },
                        None => Some(
                            Expr::Number {
                                lexeme: x,
                                unit: None,
                                span: SourceSpan { start: tok_span.start, end: tok_span.end },
                            },
                        ),
                    }
                } else {
                    Some(
                        Expr::Number { lexeme: x, unit: None, span: SourceSpan { start: tok_span.start, end: tok_span.end } },
                    )
                }
            },
            TokenKind::String(x) => Some(Expr::String { value: x, span: tok_span }),
            TokenKind::Ident(name) => {
                if self.eat_punct('(') {
                    match self.list(')') {
                        None => None,
                        Some(args) => {
                            let end = self.prev_end();
                            Some(Expr::Call { function: name, args, span: SourceSpan { start: tok_span.start, end } })
                        },
                    }
                } else {
                    Some(Expr::Name { name, span: tok_span })
                }
            },
            TokenKind::Op(o) => {
                if text_eq(o.as_str(), "-") {
                    match self.expr(11) {
                        None => None,
                        Some(arg) => {
                            let end = span_of(&arg).end;
                            Some(Expr::Unary { op: UnaryOp::Neg, arg: Box::new(arg), span: SourceSpan { start: tok_span.start, end } })
                        },
                    }
                } else {
                    self.push_error("expected expression".to_owned(), tok_span);
                    None
                }
            },
            TokenKind::Punct(c) => {
                if c == '(' {
                    match self.expr(0) {
                        None => None,
                        Some(x) => {
                            self.expect_punct(')');
                            Some(x)
                        },
                    }
                } else if c == '[' {
                    match self.list(']') {
                        None => None,
                        Some(xs) => {
                            let end = self.prev_end();
                            Some(Expr::Vector { elements: xs, span: SourceSpan { start: tok_span.start, end } })
                        },
                    }
                } else {
                    self.push_error("expected expression".to_owned(), tok_span);
                    None
                }
            },
            TokenKind::Eof => {
                self.push_error("expected expression".to_owned(), tok_span);
                None
            },
        }
    }

    fn list(&mut self, close: char) -> (r: Option<Vec<Expr>>)
        requires
            old(self).wf(),
            is_punct(close),
        ensures
            final(self).wf(),
            final(self).tokens == old(self).tokens,
            old(self).i <= final(self).i,
            (match r {
                Some(v) => Some(exprs_view(v@, v@.len() as int)),
                None => None,
            }, final(self).state()) == list_s(old(self).toks(), old(self).state(), close),
        decreases old(self).tokens@.len() - old(self).i, 3int,
    {
        let ghost t = self.toks();
        let ghost tk = self.tokens;
        let ghost s0 = self.state();
        let ghost i0 = self.i;
        let mut items: Vec<Expr> = Vec::new();
        if self.eat_punct(close) {
            return Some(items);
        }
        let mut done = false;
        while !done
            invariant
                self.wf(),
                is_punct(close),
                self.tokens == tk,
                tk == old(self).tokens,
                t == self.toks(),
                t == old(self).toks(),
                s0 == old(self).state(),
                i0 == old(self).i,
                i0 <= self.i,
                list_s(t, s0, close) == (if done {
                    (Some(exprs_view(items@, items@.len() as int)), self.state())
                } else {
                    items_s(t, self.state(), close, exprs_view(items@, items@.len() as int))
                }),
            decreases self.tokens@.len() - self.i, if done { 0int } else { 1int },
        {
            let ghost st = self.state();
            let ghost acc = exprs_view(items@, items@.len() as int);
            let x = match self.expr(0) {
                None => {
                    return None;
                },
                Some(x) => x,
            };
            let ghost items0 = items@;
            items.push(x);
            proof {
                lemma_exprs_view_push(items0, x);
                assert(items@ == items0.push(x));
            }
            if self.eat_punct(close) {
                done = true;
            } else {
                self.expect_punct(',');
            }
        }
        Some(items)
    }

    /// Read an expression whose operators bind at least as tightly as `min_bp`.
    pub fn expr(&mut self, min_bp: u8) -> (r: Option<Expr>)
        requires
            old(self).wf(),
        ensures
            final(self).wf(),
            final(self).tokens == old(self).tokens,
            old(self).i <= final(self).i,
            r is Some ==> old(self).i < final(self).i,
            (expr_opt_view(r), final(self).state()) == expr_s(old(self).toks(), old(self).state(), min_bp),
        decreases old(self).tokens@.len() - old(self).i, 1int,
    {
        let ghost t = self.toks();
        let ghost tk = self.tokens;
        let ghost s0 = self.state();
        let ghost i0 = self.i;
        let mut lhs = match self.primary() {
            None => {
                return None;
            },
            Some(x) => x,
        };
        let mut done = false;
        while !done
            invariant
                self.wf(),
                self.tokens == tk,
                tk == old(self).tokens,
                t == self.toks(),
                t == old(self).toks(),
                s0 == old(self).state(),
                i0 == old(self).i,
                i0 < self.i,
                expr_s(t, s0, min_bp) == (if done {
                    (Some(expr_view(lhs)), self.state())
                } else {
                    postfix_s(t, self.state(), expr_view(lhs), min_bp)
                }),
            decreases self.tokens@.len() - self.i, if done { 0int } else { 1int },
        {
            let ghost st = self.state();
            if self.punct_is('[') {
                self.advance();
                match self.list(']') {
                    None => {
                        return None;
                    },
                    Some(ix) => {
                        let start = span_of(&lhs).start;
                        let end = self.prev_end();
                        lhs = Expr::Index { value: Box::new(lhs), indices: ix, span: SourceSpan { start, end } };
                    },
                }
            } else {
                let binding = match &self.tokens[self.i].kind {
                    TokenKind::Op(o) => binary_binding(o.as_str()),
                    _ => None,
                };
                match binding {
                    None => {
                        done = true;
                    },
                    Some((lbp, rbp, op)) => {
                        if lbp < min_bp {
                            done = true;
                        } else {
                            self.advance();
                            match self.expr(rbp) {
                                None => {
                                    return None;
                                },
                                Some(rhs) => {
                                    let start = span_of(&lhs).start;
                                    let end = span_of(&rhs).end;
                                    lhs = Expr::Binary {
                                        op,
                                        lhs: Box::new(lhs),
                                        rhs: Box::new(rhs),
                                        span: SourceSpan { start, end },
                                    };
                                },
                            }
                        }
                    },
                }
            }
        }
        Some(lhs)
    }

    fn quantity_literal(&mut self, kind: &Option<String>) -> (r: Option<QuantityLiteral>)
        requires
            old(self).wf(),
        ensures
            final(self).wf(),
            final(self).tokens == old(self).tokens,
            old(self).i <= final(self).i,
            (quantity_opt_view(r), final(self).state()) == quantity_s(old(self).toks(), old(self).state(), string_opt(*kind)),
    {
        let number: Option<String> = match &self.tokens[self.i].kind {
            TokenKind::Number(x) => Some(x.clone()),
            _ => None,
        };
        self.advance();
        match number {
            None => {
                self.error("expected quantity value".to_owned());
                None
            },
            Some(x) => match self.expect_ident_value() {
                None => None,
                Some((u, _)) => {
                    let k = match kind {
                        Some(k) => k.clone(),
                        None => "scientia:Unspecified".to_owned(),
                    };
                    Some(QuantityLiteral { lexeme: x, unit: u, kind: k })
                },
            },
        }
    }

    fn attr_value(&mut self, key: &String, a: Attrs) -> (r: Attrs)
        requires
            old(self).wf(),
        ensures
            final(self).wf(),
            final(self).tokens == old(self).tokens,
            old(self).i <= final(self).i,
            (attrs_view(r), final(self).state()) == attr_value_s(old(self).toks(), old(self).state(), key@, attrs_view(a)),
    {
        let mut a = a;
        if text_eq(key.as_str(), "quantity") {
            match self.expect_ident_value() {
                Some((k, sp)) => {
                    a.quantity_kind = Some(k);
                    a.quantity_kind_span = Some(sp);
                },
                None => {},
            }
        } else if text_eq(key.as_str(), "unit") {
            match self.unit_expr() {
                Some((u, sp)) => {
                    a.unit = Some(u);
                    a.unit_span = Some(sp);
                },
                None => {},
            }
        } else if text_eq(key.as_str(), "nominal") {
            let kind = copy_text(&a.quantity_kind);
            a.nominal = self.quantity_literal(&kind);
        } else if text_eq(key.as_str(), "min") {
            let kind = copy_text(&a.quantity_kind);
            a.physical_min = self.quantity_literal(&kind);
        } else if text_eq(key.as_str(), "max") {
            let kind = copy_text(&a.quantity_kind);
            a.physical_max = self.quantity_literal(&kind);
        } else if text_eq(key.as_str(), "time_role") {
            match self.expect_ident_value() {
                Some((name, sp)) => {
                    if text_eq(name.as_str(), "algebraic") {
                        a.time_role = Some(TimeRole::Algebraic);
                    } else if text_eq(name.as_str(), "differential") {
                        a.time_role = Some(TimeRole::Differential);
                    } else {
                        a.time_role = None;
                        let m = quoted_message("unknown time role `", &name);
                        self.push_error(m, sp);
                    }
                },
                None => {},
            }
        } else {
            let m = quoted_message("unknown field attribute `", key);
            self.error(m);
            self.sync();
        }
        a
    }

    fn field_block(&mut self) -> (r: Option<Attrs>)
        requires
            old(self).wf(),
        ensures
            final(self).wf(),
            final(self).tokens == old(self).tokens,
            old(self).i <= final(self).i,
            (match r {
                Some(a) => Some(attrs_view(a)),
                None => None,
            }, final(self).state()) == field_block_s(old(self).toks(), old(self).state()),
    {
        let ghost t = self.toks();
        let ghost tk = self.tokens;
        let mut a = Attrs {
            quantity_kind: None,
            quantity_kind_span: None,
            unit: None,
            unit_span: None,
            nominal: None,
            physical_min: None,
            physical_max: None,
            time_role: None,
        };
        proof {
            assert(attrs_view(a) == no_attrs());
        }
        if !self.eat_punct('{') {
            return Some(a);
        }
        let ghost s1 = self.state();
        while !self.at_end() && !self.punct_is('}')
            invariant
                self.wf(),
                self.tokens == tk,
                tk == old(self).tokens,
                old(self).i <= self.i,
                t == self.toks(),
                t == old(self).toks(),
                field_block_s(t, old(self).state()) == (match attrs_s(t, s1, no_attrs()) {
                    (None, s2) => (None, s2),
                    (Some(b), s2) => (Some(b), expect_punct_s(t, s2, '}').1),
                }),
                attrs_s(t, s1, no_attrs()) == attrs_s(t, self.state(), attrs_view(a)),
            decreases self.tokens@.len() - self.i,
        {
            let ghost st = self.state();
            let key = match self.expect_ident_value() {
                Some((k, _)) => k,
                None => {
                    return None;
                },
            };
            self.eat_op("=");
            a = self.attr_value(&key, a);
            self.eat_punct(';');
            proof {
                assert(st.pos < self.state().pos);
            }
        }
        self.expect_punct('}');
        Some(a)
    }

    fn field_tail(
        &mut self,
        name: String,
        span: SourceSpan,
        role: FieldRole,
        shape: ValueShape,
        space: SpaceSpec,
    ) -> (r: Option<FieldDecl>)
        requires
            old(self).wf(),
        ensures
            final(self).wf(),
            final(self).tokens == old(self).tokens,
            old(self).i <= final(self).i,
            (field_opt_view(r), final(self).state()) == field_tail_s(
                old(self).toks(),
                old(self).state(),
                name@,
                span,
                role,
                shape,
                space,
            ),
    {
        let ghost t = self.toks();
        let ghost tk = self.tokens;
        if !self.eat_ident("on") {
            self.error("field requires `on <domain>`".to_owned());
        }
        let (domain, domain_span) = match self.expect_ident_value() {
            Some(d) => d,
            None => ("Omega".to_owned(), self.span_here()),
        };
        let a = match self.field_block() {
            Some(a) => a,
            None => {
                return None;
            },
        };
        self.eat_punct(';');
        Some(
            FieldDecl {
                name,
                role,
                shape,
                space,
                domain,
                domain_span,
                quantity_kind: a.quantity_kind,
                quantity_kind_span: a.quantity_kind_span,
                unit: a.unit,
                unit_span: a.unit_span,
                nominal: a.nominal,
                physical_min: a.physical_min,
                physical_max: a.physical_max,
                time_role: a.time_role,
                span,
            },
        )
    }

    /// Read a field declaration, the `field` keyword already taken.
    #[verifier::spinoff_prover]
    pub fn field(&mut self) -> (r: Option<FieldDecl>)
        requires
            old(self).wf(),
        ensures
            final(self).wf(),
            final(self).tokens == old(self).tokens,
            old(self).i <= final(self).i,
            (field_opt_view(r), final(self).state()) == field_s(old(self).toks(), old(self).state()),
    {
        let (name, span) = match self.expect_ident_value() {
            Some(x) => x,
            None => {
                return None;
            },
        };
        self.expect_punct(':');
        let (role_name, role_span) = match self.expect_ident_value() {
            Some(x) => x,
            None => {
                return None;
            },
        };
        let role = match role_named(&role_name) {
            Some(r) => r,
            None => {
                let m = quoted_message("unknown field role `", &role_name);
                self.push_error(m, role_span);
                FieldRole::Unknown
            },
        };
        let mut shape = ValueShape::Scalar;
        if self.ident_is("scalar") {
            self.advance();
        } else if self.eat_ident("vector") {
            self.expect_punct('(');
            let n = self.number_u8(3);
            self.expect_punct(')');
            shape = ValueShape::Vector(n);
        } else if self.eat_ident("tensor") {
            self.expect_punct('(');
            let r = self.number_u8(3);
            self.eat_punct(',');
            let c = self.number_u8(r);
            self.expect_punct(')');
            shape = ValueShape::Tensor { rows: r, cols: c };
        }
        let (family, family_span) = match self.expect_ident_value() {
            Some(x) => x,
            None => {
                return None;
            },
        };
        self.expect_punct('(');
        let mut order: u8 = 1;
        if self.eat_ident("order") {
            self.eat_op("=");
            order = self.number_u8(1);
        } else if matches!(self.tokens[self.i].kind, TokenKind::Number(_)) {
            order = self.number_u8(1);
        }
        self.expect_punct(')');
        let space = match space_named(&family, order) {
            Some(sp) => sp,
            None => {
                let m = quoted_message("unsupported function space `", &family);
                self.push_error(m, family_span);
                SpaceSpec { family: SpaceFamily::H1, order, continuity: Continuity::Continuous }
            },
        };
        self.field_tail(name, span, role, shape, space)
    }

    fn number_u8(&mut self, default: u8) -> (v: u8)
        requires
            old(self).wf(),
        ensures
            final(self).wf(),
            final(self).tokens == old(self).tokens,
            old(self).i <= final(self).i,
            (v, final(self).state()) == number_u8_s(old(self).toks(), old(self).state(), default),
    {
        let span = self.span_here();
        let value: Option<u8> = match &self.tokens[self.i].kind {
            TokenKind::Number(x) => match ExactLiteral::checked_from_lexeme(x.as_str()) {
                Some(ExactLiteral::Integer(v)) => if 0 <= v && v <= 255 {
                    Some(v as u8)
                } else {
                    None
                },
                _ => None,
            },
            _ => None,
        };
        self.advance();
        match value {
            Some(v) => v,
            None => {
                self.push_error("expected an integer from 0 through 255".to_owned(), span);
                default
            },
        }
    }

    /// `NAME = EXPR ;` of a property.
    pub fn property(&mut self) -> (r: Option<PropertyBinding>)
        requires
            old(self).wf(),
        ensures
            final(self).wf(),
            final(self).tokens == old(self).tokens,
            old(self).i <= final(self).i,
            (match r {
                Some(x) => Some(NamedView { name: x.name@, value: expr_view(x.value), span: x.span }),
                None => None,
            }, final(self).state()) == property_s(old(self).toks(), old(self).state()),
    {
        let (name, span) = match self.expect_ident_value() {
            Some(x) => x,
            None => {
                return None;
            },
        };
        if !self.eat_op("=") {
            let mut m = "property requires `=".to_owned();
            m.append("`");
            self.error(m);
        }
        let value = match self.expr(0) {
            Some(x) => x,
            None => {
                return None;
            },
        };
        self.expect_punct(';');
        Some(PropertyBinding { name, value, span })
    }

    /// `NAME [=] EXPR ;` of a constitutive law.
    pub fn constitutive(&mut self) -> (r: Option<ConstitutiveBinding>)
        requires
            old(self).wf(),
        ensures
            final(self).wf(),
            final(self).tokens == old(self).tokens,
            old(self).i <= final(self).i,
            (match r {
                Some(x) => Some(NamedView { name: x.name@, value: expr_view(x.law), span: x.span }),
                None => None,
            }, final(self).state()) == constitutive_s(old(self).toks(), old(self).state()),
    {
        let (name, span) = match self.expect_ident_value() {
            Some(x) => x,
            None => {
                return None;
            },
        };
        self.eat_op("=");
        let law = match self.expr(0) {
            Some(x) => x,
            None => {
                return None;
            },
        };
        self.expect_punct(';');
        Some(ConstitutiveBinding { name, law, span })
    }

    /// `NAME { EXPR [;] } [;]` of an observable or an invariant.
    pub fn observable(&mut self) -> (r: Option<ObservableDecl>)
        requires
            old(self).wf(),
        ensures
            final(self).wf(),
            final(self).tokens == old(self).tokens,
            old(self).i <= final(self).i,
            (match r {
                Some(x) => Some(NamedView { name: x.name@, value: expr_view(x.value), span: x.span }),
                None => None,
            }, final(self).state()) == observable_s(old(self).toks(), old(self).state()),
    {
        let (name, span) = match self.expect_ident_value() {
            Some(x) => x,
            None => {
                return None;
            },
        };
        self.expect_punct('{');
        let value = match self.expr(0) {
            Some(x) => x,
            None => {
                return None;
            },
        };
        self.eat_punct(';');
        self.expect_punct('}');
        self.eat_punct(';');
        Some(ObservableDecl { name, value, span })
    }

    /// An optional `: KIND` and an optional `[ UNIT ]`.
    fn kind_unit(&mut self) -> (r: (Option<(String, SourceSpan)>, Option<(String, SourceSpan)>))
        requires
            old(self).wf(),
        ensures
            final(self).wf(),
            final(self).tokens == old(self).tokens,
            old(self).i <= final(self).i,
            (text_opt(r.0), text_opt(r.1), final(self).state()) == kind_unit_s(old(self).toks(), old(self).state()),
    {
        let kind = if self.eat_punct(':') {
            self.expect_ident_value()
        } else {
            None
        };
        if self.eat_punct('[') {
            let unit = self.expect_ident_value();
            self.expect_punct(']');
            (kind, unit)
        } else {
            (kind, None)
        }
    }

    /// `NAME [: KIND] [[UNIT]] [= EXPR] ;` of a parameter, a constant or a source.
    pub fn value_decl(&mut self) -> (r: Option<ValueDecl>)
        requires
            old(self).wf(),
        ensures
            final(self).wf(),
            final(self).tokens == old(self).tokens,
            old(self).i <= final(self).i,
            (match r {
                Some(x) => Some(value_view(x)),
                None => None,
            }, final(self).state()) == value_decl_s(old(self).toks(), old(self).state()),
    {
        let (name, span) = match self.expect_ident_value() {
            Some(x) => x,
            None => {
                return None;
            },
        };
        let (kind, unit) = self.kind_unit();
        let value = if self.eat_op("=") {
            match self.expr(0) {
                Some(x) => Some(x),
                None => {
                    return None;
                },
            }
        } else {
            None
        };
        self.expect_punct(';');
        let (quantity_kind, quantity_kind_span) = split_text(kind);
        let (unit, unit_span) = split_text(unit);
        Some(ValueDecl { name, quantity_kind, quantity_kind_span, unit, unit_span, value, span })
    }

    /// `NAME { minimize|maximize|measure EXPR [;] } [;]`.
    pub fn objective(&mut self) -> (r: Option<ObjectiveDecl>)
        requires
            old(self).wf(),
        ensures
            final(self).wf(),
            final(self).tokens == old(self).tokens,
            old(self).i <= final(self).i,
            (match r {
                Some(x) => Some(ObjectiveView { name: x.name@, sense: x.sense, value: expr_view(x.value), span: x.span }),
                None => None,
            }, final(self).state()) == objective_s(old(self).toks(), old(self).state()),
    {
        let (name, span) = match self.expect_ident_value() {
            Some(x) => x,
            None => {
                return None;
            },
        };
        self.expect_punct('{');
        let sense = if self.ident_is("minimize") {
            ObjectiveSense::Minimize
        } else if self.ident_is("maximize") {
            ObjectiveSense::Maximize
        } else if self.ident_is("measure") {
            ObjectiveSense::Measure
        } else {
            let mut m = quoted_message("objective `", &name);
            m.append(" must open with `minimize`, `maximize`, or `measure`");
            proof {
                reveal_strlit("`");
                reveal_strlit("` must open with `minimize`, `maximize`, or `measure`");
                reveal_strlit(" must open with `minimize`, `maximize`, or `measure`");
                assert(m@ =~= "objective `"@ + name@ + "` must open with `minimize`, `maximize`, or `measure`"@);
            }
            self.error(m);
            return None;
        };
        self.advance();
        let value = match self.expr(0) {
            Some(x) => x,
            None => {
                return None;
            },
        };
        self.eat_punct(';');
        self.expect_punct('}');
        self.eat_punct(';');
        Some(ObjectiveDecl { name, sense, value, span })
    }

    /// `NAME [on DOMAIN] { LHS = RHS [;] } [;]`.
    pub fn equation(&mut self) -> (r: Option<EquationDecl>)
        requires
            old(self).wf(),
        ensures
            final(self).wf(),
            final(self).tokens == old(self).tokens,
            old(self).i <= final(self).i,
            (match r {
                Some(x) => Some(equation_view(x)),
                None => None,
            }, final(self).state()) == equation_s(old(self).toks(), old(self).state()),
    {
        let (name, span) = match self.expect_ident_value() {
            Some(x) => x,
            None => {
                return None;
            },
        };
        let dom = if self.eat_ident("on") {
            self.expect_ident_value()
        } else {
            None
        };
        self.expect_punct('{');
        let lhs = match self.expr(2) {
            Some(x) => x,
            None => {
                return None;
            },
        };
        if !self.eat_op("=") {
            let mut m = "equation requires `=".to_owned();
            m.append("`");
            self.error(m);
        }
        let rhs = match self.expr(0) {
            Some(x) => x,
            None => {
                return None;
            },
        };
        self.eat_punct(';');
        self.expect_punct('}');
        self.eat_punct(';');
        let (domain, domain_span) = split_text(dom);
        Some(EquationDecl { name, domain, domain_span, lhs, rhs, span })
    }

    /// `NAME on REGION { KIND TARGET [=] VALUE [;] } [;]`.
    #[verifier::spinoff_prover]
    #[verifier::rlimit(40)]
    pub fn boundary(&mut self, interface: bool) -> (r: Option<BoundaryConditionDecl>)
        requires
            old(self).wf(),
        ensures
            final(self).wf(),
            final(self).tokens == old(self).tokens,
            old(self).i <= final(self).i,
            (match r {
                Some(x) => Some(condition_view(x)),
                None => None,
            }, final(self).state()) == boundary_s(old(self).toks(), old(self).state(), interface),
    {
        let (name, span) = match self.expect_ident_value() {
            Some(x) => x,
            None => {
                return None;
            },
        };
        if !self.eat_ident("on") {
            self.error("boundary/interface requires `on`".to_owned());
        }
        let region = match self.expr(0) {
            Some(x) => x,
            None => {
                return None;
            },
        };
        self.expect_punct('{');
        let (kind_name, _) = match self.expect_ident_value() {
            Some(x) => x,
            None => {
                return None;
            },
        };
        let kind = if interface {
            BoundaryConditionKind::Interface
        } else {
            match boundary_kind_named(&kind_name) {
                Some(k) => k,
                None => {
                    let m = quoted_message("unknown boundary condition `", &kind_name);
                    self.error(m);
                    BoundaryConditionKind::Dirichlet
                },
            }
        };
        let (target, target_span) = match self.expect_ident_value() {
            Some(x) => x,
            None => {
                return None;
            },
        };
        self.eat_op("=");
        let value = match self.expr(0) {
            Some(x) => x,
            None => {
                return None;
            },
        };
        self.eat_punct(';');
        self.expect_punct('}');
        self.eat_punct(';');
        Some(BoundaryConditionDecl { name, region, kind, target, target_span, value, span })
    }


    /// `NAME { ENTRIES } [;]` of a domain.
    #[verifier::loop_isolation(false)]
    pub fn domain(&mut self) -> (r: Option<DomainDecl>)
        requires
            old(self).wf(),
        ensures
            final(self).wf(),
            final(self).tokens == old(self).tokens,
            old(self).i <= final(self).i,
            (match r {
                Some(x) => Some(domain_view(x)),
                None => None,
            }, final(self).state()) == domain_s(old(self).toks(), old(self).state()),
    {
        let ghost t = self.toks();
        let ghost tk = self.tokens;
        let (name, span) = match self.expect_ident_value() {
            Some(x) => x,
            None => {
                return None;
            },
        };
        self.expect_punct('{');
        let ghost s1 = self.state();
        let mut dimension: u8 = 2;
        let mut coordinates = CoordinateSystem::Cartesian;
        let mut coordinates_span = span;
        while !(self.at_end() || self.punct_is('}'))
            invariant
                self.wf(),
                self.tokens == tk,
                tk == old(self).tokens,
                old(self).i <= self.i,
                t == self.toks(),
                s1.pos <= self.i,
                domain_body_s(t, s1, 2, CoordView::Cartesian, span) == domain_body_s(
                    t,
                    self.state(),
                    dimension,
                    coord_view(coordinates),
                    coordinates_span,
                ),
            decreases self.tokens@.len() - self.i,
        {
            let ghost st = self.state();
            let ghost d0 = dimension;
            let ghost c0 = coord_view(coordinates);
            let ghost sp0 = coordinates_span;
            let key = match self.expect_ident_value() {
                Some((k, _)) => k,
                None => {
                    return None;
                },
            };
            self.eat_op("=");
            if text_eq(key.as_str(), "dimension") {
                dimension = self.number_u8(2);
            } else if text_eq(key.as_str(), "coordinates") {
                match self.expect_ident_value() {
                    Some((v, value_span)) => {
                        coordinates_span = value_span;
                        coordinates = coordinate_named(v);
                    },
                    None => {},
                }
            } else {
                self.advance();
            }
            self.eat_punct(';');
            proof {
                assert(st.pos < self.i);
                assert(domain_body_s(t, st, d0, c0, sp0) == domain_body_s(
                    t,
                    self.state(),
                    dimension,
                    coord_view(coordinates),
                    coordinates_span,
                ));
            }
        }
        self.expect_punct('}');
        self.eat_punct(';');
        Some(DomainDecl { name, dimension, coordinates, coordinates_span, span })
    }

    /// `field|value NAME [: KIND] [[UNIT]] [on DOMAIN] [= EXPR] ;` after `input`.
    #[verifier::spinoff_prover]
    #[verifier::rlimit(40)]
    pub fn input_decl(&mut self) -> (r: Option<InputDecl>)
        requires
            old(self).wf(),
        ensures
            final(self).wf(),
            final(self).tokens == old(self).tokens,
            old(self).i <= final(self).i,
            (match r {
                Some(x) => Some(input_view(x)),
                None => None,
            }, final(self).state()) == input_decl_s(old(self).toks(), old(self).state()),
    {
        let is_field = self.eat_ident("field");
        if !is_field {
            if !self.eat_ident("value") {
                self.error("expected `value`".to_owned());
            }
        }
        let kind = if is_field { InputDeclKind::Field } else { InputDeclKind::Value };
        let (name, span) = match self.expect_ident_value() {
            Some(x) => x,
            None => {
                return None;
            },
        };
        let (qk, unit) = self.kind_unit();
        let mut dom: Option<(String, SourceSpan)> = None;
        if is_field {
            if self.eat_ident("on") {
                dom = self.expect_ident_value();
            } else {
                let mut m = "input field `".to_owned();
                m.append(name.as_str());
                m.append("` must declare `on <domain>`");
                self.push_error(m, span);
            }
        } else if self.ident_is("on") {
            let mut m = "input value `".to_owned();
            m.append(name.as_str());
            m.append("` has no domain; use `input field`");
            self.push_error(m, span);
        }
        if self.eat_op("=") {
            let value = match self.expr(0) {
                Some(x) => x,
                None => {
                    return None;
                },
            };
            let mut m = "input `".to_owned();
            m.append(name.as_str());
            m.append("` cannot carry a definition; declare a `source`, `parameter`, or `property` instead");
            let vspan = span_of(&value);
            self.push_error(m, vspan);
        }
        self.expect_punct(';');
        let (quantity_kind, quantity_kind_span) = split_text(qk);
        let (unit, unit_span) = split_text(unit);
        let (domain, domain_span) = split_text(dom);
        Some(InputDecl { name, kind, quantity_kind, quantity_kind_span, unit, unit_span, domain, domain_span, span })
    }

    /// The shape after `shape =` in a provider block.
    fn provider_shape(&mut self) -> (r: ValueShape)
        requires
            old(self).wf(),
        ensures
            final(self).wf(),
            final(self).tokens == old(self).tokens,
            old(self).i <= final(self).i,
            (r, final(self).state()) == provider_shape_s(old(self).toks(), old(self).state()),
    {
        if self.eat_ident("scalar") {
            ValueShape::Scalar
        } else if self.eat_ident("vector") {
            self.expect_punct('(');
            let n = self.number_u8(3);
            self.expect_punct(')');
            ValueShape::Vector(n)
        } else if self.eat_ident("tensor") {
            self.expect_punct('(');
            let a = self.number_u8(3);
            self.eat_punct(',');
            let b = self.number_u8(a);
            self.expect_punct(')');
            ValueShape::Tensor { rows: a, cols: b }
        } else if self.eat_ident("symmetric_tensor") {
            self.expect_punct('(');
            let n = self.number_u8(3);
            self.expect_punct(')');
            ValueShape::SymmetricTensor(n)
        } else {
            self.error("unknown provider shape".to_owned());
            ValueShape::Scalar
        }
    }

    /// The inputs of a provider signature up to its `)`.
    #[verifier::loop_isolation(false)]
    fn provider_inputs(&mut self) -> (r: Option<Vec<ProviderInputDecl>>)
        requires
            old(self).wf(),
        ensures
            final(self).wf(),
            final(self).tokens == old(self).tokens,
            old(self).i <= final(self).i,
            (match r {
                Some(v) => Some(provider_inputs_view(v@)),
                None => None,
            }, final(self).state()) == provider_inputs_s(old(self).toks(), old(self).state(), seq![]),
    {
        let ghost t = self.toks();
        let ghost tk = self.tokens;
        let ghost s0 = self.state();
        let mut inputs: Vec<ProviderInputDecl> = Vec::new();
        proof {
            assert(provider_inputs_view(inputs@) =~= Seq::<ProviderInputView>::empty());
        }
        let mut done = false;
        while !done
            invariant
                self.wf(),
                self.tokens == tk,
                tk == old(self).tokens,
                old(self).i <= self.i,
                t == self.toks(),
                s0.pos <= self.i,
                provider_inputs_s(t, s0, seq![]) == (if done {
                    (Some(provider_inputs_view(inputs@)), self.state())
                } else {
                    provider_inputs_s(t, self.state(), provider_inputs_view(inputs@))
                }),
            decreases self.tokens@.len() - self.i, if done { 0int } else { 1int },
        {
            if self.at_end() || self.punct_is(')') {
                done = true;
            } else {
                let ghost st = self.state();
                let ghost acc = provider_inputs_view(inputs@);
                let (name, input_span) = match self.expect_ident_value() {
                    Some(x) => x,
                    None => {
                        return None;
                    },
                };
                self.expect_punct(':');
                let (kind_name, kind_span) = match self.expect_ident_value() {
                    Some(x) => x,
                    None => {
                        return None;
                    },
                };
                let kind = if text_eq(kind_name.as_str(), "selector") { None } else { Some(kind_name) };
                let x = ProviderInputDecl { name, kind, kind_span, span: input_span };
                let ghost v0 = inputs@;
                inputs.push(x);
                proof {
                    assert(provider_inputs_view(inputs@) =~= acc.push(provider_input_view(x)));
                }
                if !self.eat_punct(',') {
                    done = true;
                }
                proof {
                    assert(st.pos < self.i);
                }
            }
        }
        Some(inputs)
    }

    /// The bounds of a provider's `domain { ... }` up to its `}`.
    fn provider_bounds(&mut self, domain: &mut Vec<ProviderDomainBound>)
        requires
            old(self).wf(),
        ensures
            final(self).wf(),
            final(self).tokens == old(self).tokens,
            old(self).i <= final(self).i,
            (bounds_view(final(domain)@), final(self).state()) == provider_bounds_s(
                old(self).toks(),
                old(self).state(),
                bounds_view(old(domain)@),
            ),
    {
        let ghost t = self.toks();
        let ghost tk = self.tokens;
        let ghost s0 = self.state();
        let ghost a0 = bounds_view(domain@);
        while !(self.at_end() || self.punct_is('}'))
            invariant
                self.wf(),
                self.tokens == tk,
                tk == old(self).tokens,
                old(self).i <= self.i,
                t == self.toks(),
                s0.pos <= self.i,
                provider_bounds_s(t, s0, a0) == provider_bounds_s(t, self.state(), bounds_view(domain@)),
            decreases self.tokens@.len() - self.i,
        {
            let ghost st = self.state();
            let ghost acc = bounds_view(domain@);
            match self.expect_ident_value() {
                None => {
                    self.sync();
                },
                Some((input, input_span)) => {
                    if !self.eat_ident("in") {
                        self.error("provider domain bound requires `in`".to_owned());
                    }
                    self.expect_punct('[');
                    let min = self.quantity_literal(&None);
                    self.eat_punct(',');
                    let max = self.quantity_literal(&None);
                    self.expect_punct(']');
                    self.eat_punct(';');
                    match (min, max) {
                        (Some(lo), Some(hi)) => {
                            let b = ProviderDomainBound { input, input_span, min: lo, max: hi, span: input_span };
                            domain.push(b);
                            proof {
                                assert(bounds_view(domain@) =~= acc.push(bound_view(b)));
                            }
                        },
                        _ => {},
                    }
                },
            }
            proof {
                assert(st.pos < self.i);
            }
        }
    }

    /// One entry of a provider block.
    #[verifier::spinoff_prover]
    #[verifier::rlimit(60)]
    fn provider_entry(&mut self, a: &mut ProviderParts)
        requires
            old(self).wf(),
        ensures
            final(self).wf(),
            final(self).tokens == old(self).tokens,
            old(self).i <= final(self).i,
            (parts_view(*final(a)), final(self).state()) == provider_entry_s(
                old(self).toks(),
                old(self).state(),
                parts_view(*old(a)),
            ),
            !(cur(old(self).toks(), old(self).state()).0 is Eof) ==> old(self).i < final(self).i,
    {
        if self.eat_ident("domain") {
            self.expect_punct('{');
            self.provider_bounds(&mut a.domain);
            self.expect_punct('}');
            self.eat_punct(';');
            return;
        }
        let key = match self.expect_ident_value() {
            None => {
                self.sync();
                return;
            },
            Some((k, _)) => k,
        };
        self.eat_op("=");
        if text_eq(key.as_str(), "unit") {
            match self.unit_expr() {
                Some(u) => {
                    a.unit = Some(u);
                },
                None => {},
            }
        } else if text_eq(key.as_str(), "shape") {
            a.shape = self.provider_shape();
        } else if text_eq(key.as_str(), "locality") {
            match self.expect_ident_value() {
                Some((name, name_span)) => match locality_named(&name) {
                    Some(l) => {
                        a.locality = l;
                    },
                    None => {
                        let m = quoted_message("unknown provider locality `", &name);
                        self.push_error(m, name_span);
                        a.locality = PropertyLocality::Pointwise;
                    },
                },
                None => {},
            }
        } else if text_eq(key.as_str(), "differentiability") {
            match self.expect_ident_value() {
                Some((name, name_span)) => match differentiability_named(&name) {
                    Some(d) => {
                        a.differentiability = d;
                    },
                    None => {
                        let m = quoted_message("unknown provider differentiability `", &name);
                        self.push_error(m, name_span);
                        a.differentiability = DerivativeContract::Symbolic;
                    },
                },
                None => {},
            }
        } else {
            let m = quoted_message("unknown provider attribute `", &key);
            self.error(m);
            self.sync();
        }
        self.eat_punct(';');
    }

    /// `NAME ( INPUTS ) -> KIND [{ ENTRIES }] [;]` of a provider.
    pub fn provider(&mut self) -> (r: Option<ProviderDecl>)
        requires
            old(self).wf(),
        ensures
            final(self).wf(),
            final(self).tokens == old(self).tokens,
            old(self).i <= final(self).i,
            (match r {
                Some(x) => Some(provider_view(x)),
                None => None,
            }, final(self).state()) == provider_s(old(self).toks(), old(self).state()),
    {
        let ghost t = self.toks();
        let ghost tk = self.tokens;
        let (name, span) = match self.expect_ident_value() {
            Some(x) => x,
            None => {
                return None;
            },
        };
        self.expect_punct('(');
        let inputs = match self.provider_inputs() {
            Some(x) => x,
            None => {
                return None;
            },
        };
        self.expect_punct(')');
        if !self.eat_op("->") {
            self.error("provider requires `-> QuantityKind`".to_owned());
        }
        let (output_kind, output_kind_span) = match self.expect_ident_value() {
            Some(x) => x,
            None => ("scientia:Unspecified".to_owned(), self.span_here()),
        };
        let mut a = ProviderParts {
            unit: None,
            shape: ValueShape::Scalar,
            locality: PropertyLocality::Pointwise,
            differentiability: DerivativeContract::Symbolic,
            domain: Vec::new(),
        };
        proof {
            assert(parts_view(a) == default_provider_attrs()) by {
                assert(bounds_view(a.domain@) =~= Seq::<BoundView>::empty());
            }
        }
        if self.eat_punct('{') {
            let ghost s1 = self.state();
            while !(self.at_end() || self.punct_is('}'))
                invariant
                    self.wf(),
                    self.tokens == tk,
                    tk == old(self).tokens,
                    old(self).i <= self.i,
                    t == self.toks(),
                    s1.pos <= self.i,
                    provider_body_s(t, s1, default_provider_attrs()) == provider_body_s(t, self.state(), parts_view(a)),
                decreases self.tokens@.len() - self.i,
            {
                let ghost st = self.state();
                let ghost a0 = parts_view(a);
                self.provider_entry(&mut a);
                proof {
                    lemma_entry_moves(t, st, a0);
                }
            }
            self.expect_punct('}');
        }
        self.eat_punct(';');
        let (unit, unit_span) = split_text(a.unit);
        Some(ProviderDecl {
            name,
            inputs,
            output_kind,
            output_kind_span,
            unit,
            unit_span,
            shape: a.shape,
            locality: a.locality,
            differentiability: a.differentiability,
            domain: a.domain,
            span,
        })
    }

    /// `NAME { INTEGRALS } [;]` of a form.
    #[verifier::loop_isolation(false)]
    #[verifier::spinoff_prover]
    #[verifier::rlimit(100)]
    pub fn form_decl(&mut self) -> (r: Option<FormDecl>)
        requires
            old(self).wf(),
        ensures
            final(self).wf(),
            final(self).tokens == old(self).tokens,
            old(self).i <= final(self).i,
            (match r {
                Some(x) => Some(form_view(x)),
                None => None,
            }, final(self).state()) == form_decl_s(old(self).toks(), old(self).state()),
    {
        let ghost t = self.toks();
        let ghost tk = self.tokens;
        let (name, span) = match self.expect_ident_value() {
            Some(x) => x,
            None => {
                return None;
            },
        };
        self.expect_punct('{');
        let ghost s1 = self.state();
        let mut integrals: Vec<IntegralDecl> = Vec::new();
        proof {
            assert(integrals_view(integrals@) =~= Seq::<IntegralView>::empty());
        }
        while !(self.at_end() || self.punct_is('}'))
            invariant
                self.wf(),
                self.tokens == tk,
                tk == old(self).tokens,
                old(self).i <= self.i,
                t == self.toks(),
                s1.pos <= self.i,
                integrals_s(t, s1, seq![]) == integrals_s(t, self.state(), integrals_view(integrals@)),
            decreases self.tokens@.len() - self.i,
        {
            let ghost st = self.state();
            let ghost acc = integrals_view(integrals@);
            let measure_span = self.span_here();
            let (measure_name, _) = match self.expect_ident_value() {
                Some(x) => x,
                None => {
                    return None;
                },
            };
            self.expect_punct('(');
            let (target, target_span) = match self.expect_ident_value() {
                Some(x) => x,
                None => {
                    return None;
                },
            };
            self.expect_punct(')');
            self.eat_punct(':');
            let integrand = match self.expr(0) {
                Some(x) => x,
                None => {
                    return None;
                },
            };
            self.expect_punct(';');
            let (measure, known) = measure_named(&measure_name, target);
            if !known {
                let m = quoted_message("unknown measure `", &measure_name);
                self.push_error(m, measure_span);
            }
            let x = IntegralDecl { measure, target_span, integrand, span: measure_span };
            integrals.push(x);
            proof {
                assert(integrals_view(integrals@) =~= acc.push(integral_view(x)));
                assert(st.pos < self.i);
            }
        }
        self.expect_punct('}');
        self.eat_punct(';');
        Some(FormDecl { name, integrals, span })
    }

    /// `{ TARGET [=] EXPR [;] ... } [;]` of initial conditions.
    #[verifier::spinoff_prover]
    #[verifier::rlimit(60)]
    pub fn assignment_block(&mut self) -> (r: Vec<ConditionDecl>)
        requires
            old(self).wf(),
        ensures
            final(self).wf(),
            final(self).tokens == old(self).tokens,
            old(self).i <= final(self).i,
            (assigns_view(r@), final(self).state()) == assignment_block_s(old(self).toks(), old(self).state()),
    {
        let ghost t = self.toks();
        let ghost tk = self.tokens;
        let mut out: Vec<ConditionDecl> = Vec::new();
        proof {
            assert(assigns_view(out@) =~= Seq::<AssignView>::empty());
        }
        if !self.expect_punct('{') {
            return out;
        }
        let ghost s1 = self.state();
        while !(self.at_end() || self.punct_is('}'))
            invariant
                self.wf(),
                self.tokens == tk,
                tk == old(self).tokens,
                old(self).i <= self.i,
                t == self.toks(),
                s1.pos <= self.i,
                assignments_s(t, s1, seq![]) == assignments_s(t, self.state(), assigns_view(out@)),
            decreases self.tokens@.len() - self.i,
        {
            let ghost st = self.state();
            let ghost acc = assigns_view(out@);
            match self.expect_ident_value() {
                None => {
                    self.sync();
                },
                Some((target, span)) => {
                    self.eat_op("=");
                    match self.expr(0) {
                        Some(value) => {
                            let x = ConditionDecl { target, value, span };
                            out.push(x);
                            proof {
                                assert(assigns_view(out@) =~= acc.push(assign_view(x)));
                            }
                        },
                        None => {},
                    }
                    self.eat_punct(';');
                },
            }
            proof {
                assert(st.pos < self.i);
            }
        }
        self.expect_punct('}');
        self.eat_punct(';');
        out
    }

    /// `NAME [( KEY [=] EXPR, ... )] [;]` after `@`.
    #[verifier::loop_isolation(false)]
    pub fn verification(&mut self) -> (r: Option<VerificationAnnotation>)
        requires
            old(self).wf(),
        ensures
            final(self).wf(),
            final(self).tokens == old(self).tokens,
            old(self).i <= final(self).i,
            (match r {
                Some(x) => Some(annotation_view(x)),
                None => None,
            }, final(self).state()) == verification_s(old(self).toks(), old(self).state()),
    {
        let ghost t = self.toks();
        let ghost tk = self.tokens;
        let (name, span) = match self.expect_ident_value() {
            Some(x) => x,
            None => {
                return None;
            },
        };
        let mut args: Vec<(String, Expr)> = Vec::new();
        proof {
            assert(args_view(args@) =~= Seq::<(Seq<char>, ExprView)>::empty());
        }
        if self.eat_punct('(') {
            let ghost s1 = self.state();
            let mut done = false;
            while !done
                invariant
                    self.wf(),
                    self.tokens == tk,
                    tk == old(self).tokens,
                    old(self).i <= self.i,
                    t == self.toks(),
                    s1.pos <= self.i,
                    args_s(t, s1, seq![]) == (if done {
                        (Some(args_view(args@)), self.state())
                    } else {
                        args_s(t, self.state(), args_view(args@))
                    }),
                decreases self.tokens@.len() - self.i, if done { 0int } else { 1int },
            {
                let ghost st = self.state();
                let ghost acc = args_view(args@);
                if self.eat_punct(')') {
                    done = true;
                } else if self.at_end() {
                    done = true;
                } else {
                    let (key, _) = match self.expect_ident_value() {
                        Some(x) => x,
                        None => {
                            return None;
                        },
                    };
                    self.eat_op("=");
                    let value = match self.expr(0) {
                        Some(x) => x,
                        None => {
                            return None;
                        },
                    };
                    insert_arg(&mut args, key, value);
                    if !self.eat_punct(',') {
                        self.expect_punct(')');
                        done = true;
                    }
                    proof {
                        assert(st.pos < self.i);
                    }
                }
            }
        }
        self.eat_punct(';');
        Some(VerificationAnnotation { name, args, span })
    }


    /// Whether the token after the current one is `field` or `value`.
    fn input_follows(&self) -> (b: bool)
        requires
            self.wf(),
        ensures
            b == input_follows(self.toks(), self.state()),
    {
        let n = self.tokens.len();
        if self.i < n - 1 {
            match &self.tokens[self.i + 1].kind {
                TokenKind::Ident(x) => text_eq(x.as_str(), "field") || text_eq(x.as_str(), "value"),
                _ => false,
            }
        } else {
            false
        }
    }

    /// One declaration of a model, chosen by its keyword.
    #[verifier::spinoff_prover]
    #[verifier::rlimit(100)]
    fn model_decl(&mut self, m: &mut ScientificModel)
        requires
            old(self).wf(),
            !(cur(old(self).toks(), old(self).state()).0 is Eof),
            !at_punct(old(self).toks(), old(self).state(), '}'),
        ensures
            final(self).wf(),
            final(self).tokens == old(self).tokens,
            old(self).i < final(self).i,
            (model_view(*final(m)), final(self).state()) == model_decl_s(
                old(self).toks(),
                old(self).state(),
                model_view(*old(m)),
            ),
    {
        let ghost t = self.toks();
        if self.eat_ident("domain") {
            match self.domain() {
                Some(x) => {
                    let ghost v = domains_view(m.domains@);
                    m.domains.push(x);
                    proof { assert(domains_view(m.domains@) =~= v.push(domain_view(x))); }
                },
                None => {},
            }
        } else if self.eat_ident("field") {
            match self.field() {
                Some(x) => {
                    let ghost v = fields_view(m.fields@);
                    m.fields.push(x);
                    proof { assert(fields_view(m.fields@) =~= v.push(field_view(x))); }
                },
                None => {},
            }
        } else {
            self.model_decl_values(m);
        }
    }

    /// A parameter, constant or source declaration, or one of a later keyword.
    #[verifier::spinoff_prover]
    #[verifier::rlimit(100)]
    fn model_decl_values(&mut self, m: &mut ScientificModel)
        requires
            old(self).wf(),
            !(cur(old(self).toks(), old(self).state()).0 is Eof),
            !at_punct(old(self).toks(), old(self).state(), '}'),
            !at_ident(old(self).toks(), old(self).state(), "domain"@),
            !at_ident(old(self).toks(), old(self).state(), "field"@),
        ensures
            final(self).wf(),
            final(self).tokens == old(self).tokens,
            old(self).i < final(self).i,
            (model_view(*final(m)), final(self).state()) == model_decl_s(
                old(self).toks(),
                old(self).state(),
                model_view(*old(m)),
            ),
    {
        let ghost t = self.toks();
        if self.eat_ident("parameter") {
            match self.value_decl() {
                Some(x) => {
                    let ghost v = values_view(m.parameters@);
                    m.parameters.push(x);
                    proof { assert(values_view(m.parameters@) =~= v.push(value_view(x))); }
                },
                None => {},
            }
        } else if self.eat_ident("constant") {
            match self.value_decl() {
                Some(x) => {
                    let ghost v = values_view(m.constants@);
                    m.constants.push(x);
                    proof { assert(values_view(m.constants@) =~= v.push(value_view(x))); }
                },
                None => {},
            }
        } else if self.eat_ident("source") {
            match self.value_decl() {
                Some(x) => {
                    let ghost v = values_view(m.sources@);
                    m.sources.push(x);
                    proof { assert(values_view(m.sources@) =~= v.push(value_view(x))); }
                },
                None => {},
            }
        } else {
            self.model_decl_b(m);
        }
    }

    /// A declaration of a model that opens with none of the first five keywords.
    #[verifier::spinoff_prover]
    #[verifier::rlimit(100)]
    fn model_decl_b(&mut self, m: &mut ScientificModel)
        requires
            old(self).wf(),
            !(cur(old(self).toks(), old(self).state()).0 is Eof),
            !at_punct(old(self).toks(), old(self).state(), '}'),
            !first_keywords(old(self).toks(), old(self).state()),
        ensures
            final(self).wf(),
            final(self).tokens == old(self).tokens,
            old(self).i < final(self).i,
            (model_view(*final(m)), final(self).state()) == model_decl_s(
                old(self).toks(),
                old(self).state(),
                model_view(*old(m)),
            ),
    {
        let ghost t = self.toks();
        if self.ident_is("input") && self.input_follows() {
            self.advance();
            match self.input_decl() {
                Some(x) => {
                    let ghost v = inputs_view(m.inputs@);
                    m.inputs.push(x);
                    proof { assert(inputs_view(m.inputs@) =~= v.push(input_view(x))); }
                },
                None => {},
            }
        } else if self.eat_ident("provider") {
            match self.provider() {
                Some(x) => {
                    let ghost v = providers_view(m.providers@);
                    m.providers.push(x);
                    proof { assert(providers_view(m.providers@) =~= v.push(provider_view(x))); }
                },
                None => {},
            }
        } else if self.eat_ident("property") {
            match self.property() {
                Some(x) => {
                    let ghost v = properties_view(m.properties@);
                    m.properties.push(x);
                    proof {
                        assert(properties_view(m.properties@) =~= v.push(
                            NamedView { name: x.name@, value: expr_view(x.value), span: x.span },
                        ));
                    }
                },
                None => {},
            }
        } else if self.eat_ident("constitutive") {
            match self.constitutive() {
                Some(x) => {
                    let ghost v = laws_view(m.constitutive_laws@);
                    m.constitutive_laws.push(x);
                    proof {
                        assert(laws_view(m.constitutive_laws@) =~= v.push(
                            NamedView { name: x.name@, value: expr_view(x.law), span: x.span },
                        ));
                    }
                },
                None => {},
            }
        } else if self.eat_ident("equation") {
            match self.equation() {
                Some(x) => {
                    let ghost v = equations_view(m.equations@);
                    m.equations.push(x);
                    proof { assert(equations_view(m.equations@) =~= v.push(equation_view(x))); }
                },
                None => {},
            }
        } else {
            self.model_decl_c(m);
        }
    }

    /// A declaration of a model that opens with none of the first ten keywords.
    #[verifier::spinoff_prover]
    #[verifier::rlimit(100)]
    fn model_decl_c(&mut self, m: &mut ScientificModel)
        requires
            old(self).wf(),
            !(cur(old(self).toks(), old(self).state()).0 is Eof),
            !at_punct(old(self).toks(), old(self).state(), '}'),
            !first_keywords(old(self).toks(), old(self).state()),
            !second_keywords(old(self).toks(), old(self).state()),
        ensures
            final(self).wf(),
            final(self).tokens == old(self).tokens,
            old(self).i < final(self).i,
            (model_view(*final(m)), final(self).state()) == model_decl_s(
                old(self).toks(),
                old(self).state(),
                model_view(*old(m)),
            ),
    {
        let ghost t = self.toks();
        if self.eat_ident("form") {
            match self.form_decl() {
                Some(x) => {
                    let ghost v = forms_view(m.forms@);
                    m.forms.push(x);
                    proof { assert(forms_view(m.forms@) =~= v.push(form_view(x))); }
                },
                None => {},
            }
        } else if self.eat_ident("initial") {
            let mut xs = self.assignment_block();
            let ghost v = assigns_view(m.initial_conditions@);
            let ghost w = assigns_view(xs@);
            m.initial_conditions.append(&mut xs);
            proof { assert(assigns_view(m.initial_conditions@) =~= v + w); }
        } else if self.eat_ident("boundary") {
            match self.boundary(false) {
                Some(x) => {
                    let ghost v = conditions_view(m.boundary_conditions@);
                    m.boundary_conditions.push(x);
                    proof { assert(conditions_view(m.boundary_conditions@) =~= v.push(condition_view(x))); }
                },
                None => {},
            }
        } else if self.eat_ident("interface") {
            match self.boundary(true) {
                Some(x) => {
                    let ghost v = conditions_view(m.interface_conditions@);
                    m.interface_conditions.push(x);
                    proof { assert(conditions_view(m.interface_conditions@) =~= v.push(condition_view(x))); }
                },
                None => {},
            }
        } else {
            self.model_decl_d(m);
        }
    }

    /// A declaration of a model that opens with none of the first fourteen keywords.
    #[verifier::spinoff_prover]
    #[verifier::rlimit(100)]
    fn model_decl_d(&mut self, m: &mut ScientificModel)
        requires
            old(self).wf(),
            !(cur(old(self).toks(), old(self).state()).0 is Eof),
            !at_punct(old(self).toks(), old(self).state(), '}'),
            !first_keywords(old(self).toks(), old(self).state()),
            !second_keywords(old(self).toks(), old(self).state()),
            !third_keywords(old(self).toks(), old(self).state()),
        ensures
            final(self).wf(),
            final(self).tokens == old(self).tokens,
            old(self).i < final(self).i,
            (model_view(*final(m)), final(self).state()) == model_decl_s(
                old(self).toks(),
                old(self).state(),
                model_view(*old(m)),
            ),
    {
        let ghost t = self.toks();
        if self.eat_ident("observable") {
            match self.observable() {
                Some(x) => {
                    let ghost v = observables_view(m.observables@);
                    m.observables.push(x);
                    proof {
                        assert(observables_view(m.observables@) =~= v.push(
                            NamedView { name: x.name@, value: expr_view(x.value), span: x.span },
                        ));
                    }
                },
                None => {},
            }
        } else if self.eat_ident("invariant") {
            match self.observable() {
                Some(x) => {
                    let ghost v = observables_view(m.invariants@);
                    m.invariants.push(x);
                    proof {
                        assert(observables_view(m.invariants@) =~= v.push(
                            NamedView { name: x.name@, value: expr_view(x.value), span: x.span },
                        ));
                    }
                },
                None => {},
            }
        } else if self.eat_ident("objective") {
            match self.objective() {
                Some(x) => {
                    let ghost v = objectives_view(m.objectives@);
                    m.objectives.push(x);
                    proof {
                        assert(objectives_view(m.objectives@) =~= v.push(
                            ObjectiveView { name: x.name@, sense: x.sense, value: expr_view(x.value), span: x.span },
                        ));
                    }
                },
                None => {},
            }
        } else if self.eat_punct('@') {
            match self.verification() {
                Some(x) => {
                    let ghost v = annotations_view(m.verifications@);
                    m.verifications.push(x);
                    proof { assert(annotations_view(m.verifications@) =~= v.push(annotation_view(x))); }
                },
                None => {},
            }
        } else {
            self.error("unknown model declaration".to_owned());
            let ghost s1 = self.state();
            self.sync();
            proof {
                lemma_sync_moves(t, s1);
            }
        }
    }

    /// `NAME { DECLARATIONS }` after `model`.
    #[verifier::loop_isolation(false)]
    #[verifier::spinoff_prover]
    #[verifier::rlimit(60)]
    pub fn model(&mut self) -> (r: Option<ScientificModel>)
        requires
            old(self).wf(),
        ensures
            final(self).wf(),
            final(self).tokens == old(self).tokens,
            old(self).i <= final(self).i,
            (match r {
                Some(x) => Some(model_view(x)),
                None => None,
            }, final(self).state()) == model_s(old(self).toks(), old(self).state()),
    {
        let ghost t = self.toks();
        let ghost tk = self.tokens;
        let (name, span) = match self.expect_ident_value() {
            Some(x) => x,
            None => {
                return None;
            },
        };
        self.expect_punct('{');
        let ghost s1 = self.state();
        let ghost nv = name@;
        let mut m = ScientificModel {
            name,
            domains: Vec::new(),
            fields: Vec::new(),
            parameters: Vec::new(),
            constants: Vec::new(),
            sources: Vec::new(),
            inputs: Vec::new(),
            providers: Vec::new(),
            properties: Vec::new(),
            constitutive_laws: Vec::new(),
            equations: Vec::new(),
            forms: Vec::new(),
            initial_conditions: Vec::new(),
            boundary_conditions: Vec::new(),
            interface_conditions: Vec::new(),
            observables: Vec::new(),
            invariants: Vec::new(),
            objectives: Vec::new(),
            verifications: Vec::new(),
            span,
        };
        proof {
            assert(model_view(m) =~= empty_model(nv, span)) by {
                assert(domains_view(m.domains@) =~= seq![]);
                assert(fields_view(m.fields@) =~= seq![]);
                assert(values_view(m.parameters@) =~= seq![]);
                assert(values_view(m.constants@) =~= seq![]);
                assert(values_view(m.sources@) =~= seq![]);
                assert(inputs_view(m.inputs@) =~= seq![]);
                assert(providers_view(m.providers@) =~= seq![]);
                assert(properties_view(m.properties@) =~= seq![]);
                assert(laws_view(m.constitutive_laws@) =~= seq![]);
                assert(equations_view(m.equations@) =~= seq![]);
                assert(forms_view(m.forms@) =~= seq![]);
                assert(assigns_view(m.initial_conditions@) =~= seq![]);
                assert(conditions_view(m.boundary_conditions@) =~= seq![]);
                assert(conditions_view(m.interface_conditions@) =~= seq![]);
                assert(observables_view(m.observables@) =~= seq![]);
                assert(observables_view(m.invariants@) =~= seq![]);
                assert(objectives_view(m.objectives@) =~= seq![]);
                assert(annotations_view(m.verifications@) =~= seq![]);
            }
        }
        while !(self.at_end() || self.punct_is('}'))
            invariant
                self.wf(),
                self.tokens == tk,
                t == self.toks(),
                s1.pos <= self.i,
                model_decls_s(t, s1, empty_model(nv, span)) == model_decls_s(t, self.state(), model_view(m)),
            decreases self.tokens@.len() - self.i,
        {
            self.model_decl(&mut m);
        }
        self.expect_punct('}');
        Some(m)
    }

    /// A whole module: `[module NAME ;] [use NAME ;]* MODELS`.
    #[verifier::loop_isolation(false)]
    #[verifier::spinoff_prover]
    #[verifier::rlimit(60)]
    pub fn module(&mut self) -> (r: ScientificModule)
        requires
            old(self).wf(),
        ensures
            final(self).wf(),
            final(self).tokens == old(self).tokens,
            (module_view(r), final(self).state()) == module_s(old(self).toks(), old(self).state()),
    {
        let ghost t = self.toks();
        let ghost tk = self.tokens;
        let start = self.span_here().start;
        let name = if self.eat_ident("module") {
            let n = match self.expect_ident_value() {
                Some((n, _)) => n,
                None => "invalid".to_owned(),
            };
            self.expect_punct(';');
            n
        } else {
            "main".to_owned()
        };
        let ghost s2 = self.state();
        let mut imports: Vec<Spanned<String>> = Vec::new();
        proof {
            assert(imports_view(imports@) =~= seq![]);
        }
        while self.ident_is("use")
            invariant
                self.wf(),
                self.tokens == tk,
                t == self.toks(),
                s2.pos <= self.i,
                imports_s(t, s2, seq![]) == imports_s(t, self.state(), imports_view(imports@)),
            decreases self.tokens@.len() - self.i,
        {
            let ghost st = self.state();
            let ghost acc = imports_view(imports@);
            self.advance();
            match self.expect_ident_value() {
                Some((value, span)) => {
                    let x = Spanned { value, span };
                    imports.push(x);
                    proof { assert(imports_view(imports@) =~= acc.push((x.value@, x.span))); }
                },
                None => {},
            }
            self.expect_punct(';');
            proof {
                assert(st.pos < self.i);
            }
        }
        let ghost s3 = self.state();
        let mut models: Vec<ScientificModel> = Vec::new();
        proof {
            assert(models_view(models@) =~= seq![]);
        }
        while !self.at_end()
            invariant
                self.wf(),
                self.tokens == tk,
                t == self.toks(),
                s3.pos <= self.i,
                models_s(t, s3, seq![]) == models_s(t, self.state(), models_view(models@)),
            decreases self.tokens@.len() - self.i,
        {
            let ghost st = self.state();
            let ghost acc = models_view(models@);
            if self.eat_ident("model") {
                match self.model() {
                    Some(x) => {
                        models.push(x);
                        proof { assert(models_view(models@) =~= acc.push(model_view(x))); }
                    },
                    None => {},
                }
            } else {
                self.error("expected `model` declaration".to_owned());
                let ghost s1 = self.state();
                self.sync();
                proof {
                    lemma_sync_moves(t, s1);
                }
                if self.punct_is('}') {
                    self.advance();
                }
            }
            proof {
                assert(st.pos < self.i);
            }
        }
        let end = self.span_here().end;
        ScientificModule {
            schema: SCIENTIFIC_SCHEMA.to_owned(),
            name,
            imports,
            models,
            span: SourceSpan::new(start, end),
        }
    }
}

/// Read a module from the outcome of lexing `input`.
fn module_of_lexed(input: &str, lexed_input: Result<Vec<Token>, Vec<ScientificError>>) -> (r: Result<
    ScientificModule,
    Vec<ScientificError>,
>)
    requires
        lexed(input@, lexed_input),
    ensures
        module_read(input@, r),
{
    let tokens = match lexed_input {
        Ok(tokens) => tokens,
        Err(errors) => {
            return Err(errors);
        },
    };
    proof {
        lemma_lexed_tokens_end(input@, 0);
    }
    let mut parser = Parser::new(tokens);
    let module = parser.module();
    if parser.errors.len() == 0 {
        Ok(module)
    } else {
        Err(parser.errors)
    }
}

/// Read the text of a scientific module: its declarations as typed data, or every error met.
/// Lexing errors come alone; otherwise every syntax error of the declarations is reported.
pub fn parse_scientific_module(input: &str) -> (r: Result<ScientificModule, Vec<ScientificError>>)
    requires
        lex_safe(input@, 0),
    ensures
        module_read(input@, r),
{
    let lexed_input = lex(input);
    module_of_lexed(input, lexed_input)
}

/// Read a module when the text can be lexed safely (`lex_safe`), and give `None` otherwise.
pub fn parse_scientific_module_checked(input: &str) -> (r: Option<Result<ScientificModule, Vec<ScientificError>>>)
    ensures
        r is Some <==> lex_safe(input@, 0),
        r matches Some(x) ==> module_read(input@, x),
{
    match lex_checked(input) {
        None => None,
        Some(lexed_input) => Some(module_of_lexed(input, lexed_input)),
    }
}

/// Read one expression from the outcome of lexing `input`.
fn expression_of_lexed(input: &str, lexed_input: Result<Vec<Token>, Vec<ScientificError>>) -> (r: Result<
    Expr,
    ScientificError,
>)
    requires
        lexed(input@, lexed_input),
    ensures
        expression_read(input@, r),
{
    let tokens = match lexed_input {
        Ok(tokens) => tokens,
        Err(mut errors) => {
            return Err(errors.remove(0));
        },
    };
    proof {
        lemma_lexed_tokens_end(input@, 0);
    }
    let mut parser = Parser::new(tokens);
    let e = parser.expr(0);
    match e {
        None => {
            if parser.errors.len() > 0 {
                Err(parser.errors.remove(0))
            } else {
                Err(ScientificError::Syntax { message: "expected an expression".to_owned(), span: SourceSpan::new(0, 0) })
            }
        },
        Some(x) => {
            if !parser.at_end() {
                parser.error("expected end of expression".to_owned());
            }
            if parser.errors.len() > 0 {
                Err(parser.errors.remove(0))
            } else {
                Ok(x)
            }
        },
    }
}

/// Read one standalone expression with the grammar of any expression position in a model.
pub fn parse_expression(text: &str) -> (r: Result<Expr, ScientificError>)
    requires
        lex_safe(text@, 0),
    ensures
        expression_read(text@, r),
{
    let lexed_input = lex(text);
    expression_of_lexed(text, lexed_input)
}

/// Read one expression when the text can be lexed safely (`lex_safe`), and give `None`
/// otherwise.
pub fn parse_expression_checked(text: &str) -> (r: Option<Result<Expr, ScientificError>>)
    ensures
        r is Some <==> lex_safe(text@, 0),
        r matches Some(x) ==> expression_read(text@, x),
{
    match lex_checked(text) {
        None => None,
        Some(lexed_input) => Some(expression_of_lexed(text, lexed_input)),
    }
}

/// `d` is the structured diagnostic of the error `e`, as `ScientificError::diagnostic` makes it.
pub open spec fn diagnostic_reports(d: SourceDiagnostic, e: ScientificError) -> bool {
    let (code, message, span, phase) = error_diagnostic_parts(e);
    &&& d.code@ == code
    &&& d.severity == SourceSeverity::Error
    &&& d.message@ == message
    &&& d.span == span
    &&& d.related@.len() == 0
    &&& d.hints@.len() == 0
    &&& d.phase == Some(d.phase->Some_0)
    &&& d.phase->Some_0@ == phase
}

/// Read the text of a scientific module, reporting its errors as structured diagnostics.
pub fn parse_scientific_module_diagnostics(input: &str) -> (r: Result<ScientificModule, Vec<SourceDiagnostic>>)
    requires
        lex_safe(input@, 0),
    ensures
        match r {
            Ok(m) => module_read(input@, Ok(m)),
            Err(ds) => exists|es: Vec<ScientificError>|
                {
                    &&& module_read(input@, Err(es))
                    &&& ds@.len() == es@.len()
                    &&& forall|j: int| 0 <= j < ds@.len() ==> diagnostic_reports(#[trigger] ds@[j], es@[j])
                },
        },
{
    match parse_scientific_module(input) {
        Ok(m) => Ok(m),
        Err(es) => {
            let mut ds: Vec<SourceDiagnostic> = Vec::new();
            let mut j: usize = 0;
            while j < es.len()
                invariant
                    j <= es.len(),
                    ds@.len() == j,
                    forall|k: int| 0 <= k < j ==> diagnostic_reports(#[trigger] ds@[k], es@[k]),
                decreases es.len() - j,
            {
                let d = es[j].diagnostic();
                ds.push(d);
                j = j + 1;
            }
            proof {
                assert(module_read(input@, Err(es)));
            }
            Err(ds)
        },
    }
}

} // verus!
