//! Coupling derived from use: which unknown fields each residual block depends on, through
//! which chain of definitions, and the block derivatives that are structurally nonzero.

use vstd::prelude::*;
use crate::scientific::model::{
    BoundaryConditionDecl, ConstitutiveBinding, EquationDecl, Expr, FieldDecl, FormDecl, PropertyBinding,
    ScientificModel, ValueDecl,
};
use crate::scientific::{BlockDerivative, CouplingEdge, CouplingGraph, CouplingReason, FieldRole, UnknownBlock};
use crate::text::chars_of;

verus! {

// ---------------------------------------------------------------------------------------
// Names in character order.
// ---------------------------------------------------------------------------------------

/// `a` comes strictly before `b` in the order of their characters, a prefix first.
pub open spec fn text_lt(a: Seq<char>, b: Seq<char>) -> bool
    decreases a.len(),
{
    if a.len() == 0 {
        b.len() > 0
    } else if b.len() == 0 {
        false
    } else if a[0] != b[0] {
        a[0] < b[0]
    } else {
        text_lt(a.drop_first(), b.drop_first())
    }
}

/// Whether `a` comes strictly before `b`.
pub fn text_before(a: &String, b: &String) -> (r: bool)
    ensures
        r == text_lt(a@, b@),
{
    let x = chars_of(a.as_str());
    let y = chars_of(b.as_str());
    let mut i: usize = 0;
    proof {
        assert(a@.skip(0) =~= a@);
        assert(b@.skip(0) =~= b@);
    }
    while i < x.len() && i < y.len() && x[i] == y[i]
        invariant
            x@ == a@,
            y@ == b@,
            i <= x@.len(),
            i <= y@.len(),
            text_lt(a@, b@) == text_lt(a@.skip(i as int), b@.skip(i as int)),
        decreases x@.len() - i,
    {
        proof {
            assert(a@.skip(i as int).drop_first() =~= a@.skip(i + 1));
            assert(b@.skip(i as int).drop_first() =~= b@.skip(i + 1));
        }
        i = i + 1;
    }
    if i == x.len() {
        proof {
            assert(a@.skip(i as int).len() == 0);
        }
        i < y.len()
    } else if i == y.len() {
        proof {
            assert(b@.skip(i as int).len() == 0);
        }
        false
    } else {
        x[i] < y[i]
    }
}

/// The texts of a sequence of strings.
pub open spec fn texts(v: Seq<String>) -> Seq<Seq<char>> {
    v.map_values(|s: String| s@)
}

/// `x` added to the increasing list `l` of distinct names, unless it is there already.
pub open spec fn insert_name(l: Seq<Seq<char>>, x: Seq<char>) -> Seq<Seq<char>>
    decreases l.len(),
{
    if l.len() == 0 {
        seq![x]
    } else if text_lt(l[0], x) {
        seq![l[0]] + insert_name(l.drop_first(), x)
    } else if l[0] == x {
        l
    } else {
        seq![x] + l
    }
}

/// Add `x` to the increasing list of distinct names `v`, unless it is there already.
pub fn insert_text(v: &mut Vec<String>, x: String)
    ensures
        texts(final(v)@) == insert_name(texts(old(v)@), x@),
{
    let ghost t = texts(v@);
    let mut p: usize = 0;
    proof {
        assert(t.skip(0) =~= t);
        assert(t.take(0) + t =~= t);
    }
    while p < v.len() && text_before(&v[p], &x)
        invariant
            t == texts(v@),
            p <= v@.len(),
            insert_name(t, x@) == t.take(p as int) + insert_name(t.skip(p as int), x@),
        decreases v@.len() - p,
    {
        proof {
            let r = t.skip(p as int);
            assert(r[0] == t[p as int]);
            assert(r.drop_first() =~= t.skip(p + 1));
            assert(t.take(p + 1) =~= t.take(p as int).push(t[p as int]));
            assert(t.take(p as int) + (seq![t[p as int]] + insert_name(t.skip(p + 1), x@)) =~= t.take(p + 1)
                + insert_name(t.skip(p + 1), x@));
        }
        p = p + 1;
    }
    if p < v.len() && v[p] == x {
        proof {
            assert(t.skip(p as int)[0] == t[p as int]);
            assert(t.take(p as int) + t.skip(p as int) =~= t);
        }
    } else {
        let ghost v0 = v@;
        v.insert(p, x);
        proof {
            if p < v0.len() {
                assert(t.skip(p as int)[0] == t[p as int]);
            } else {
                assert(t.skip(p as int) =~= Seq::<Seq<char>>::empty());
            }
            assert(texts(v@) =~= t.take(p as int) + (seq![x@] + t.skip(p as int)));
        }
    }
}

// ---------------------------------------------------------------------------------------
// The names an expression uses.
// ---------------------------------------------------------------------------------------

/// The names that `e` uses, added to the increasing list `acc`.
pub open spec fn names_into(e: Expr, acc: Seq<Seq<char>>) -> Seq<Seq<char>>
    decreases e, 0nat,
{
    match e {
        Expr::Name { name, .. } => insert_name(acc, name@),
        Expr::Unary { arg, .. } => names_into(*arg, acc),
        Expr::Binary { lhs, rhs, .. } => names_into(*rhs, names_into(*lhs, acc)),
        Expr::Call { args, .. } => names_into_all(args@, 0, acc),
        Expr::Vector { elements, .. } => names_into_all(elements@, 0, acc),
        Expr::Index { value, indices, .. } => names_into_all(indices@, 0, names_into(*value, acc)),
        Expr::Number { .. } => acc,
        Expr::String { .. } => acc,
    }
}

/// The names that the expressions of `es` from position `i` on use, added to `acc`.
pub open spec fn names_into_all(es: Seq<Expr>, i: int, acc: Seq<Seq<char>>) -> Seq<Seq<char>>
    decreases es, (es.len() - i) as nat,
{
    if 0 <= i < es.len() {
        names_into_all(es, i + 1, names_into(es[i], acc))
    } else {
        acc
    }
}

/// The names an expression uses, in increasing order.
pub open spec fn expr_names(e: Expr) -> Seq<Seq<char>> {
    names_into(e, seq![])
}

impl Expr {
    /// Add the names this expression uses to the increasing list of distinct names `out`.
    pub fn names(&self, out: &mut Vec<String>)
        ensures
            texts(final(out)@) == names_into(*self, texts(old(out)@)),
        decreases self,
    {
        match self {
            Expr::Name { name, .. } => {
                insert_text(out, name.clone());
            },
            Expr::Unary { arg, .. } => {
                arg.names(out);
            },
            Expr::Binary { lhs, rhs, .. } => {
                lhs.names(out);
                rhs.names(out);
            },
            Expr::Call { args, .. } => {
                names_of_all(args, out);
            },
            Expr::Vector { elements, .. } => {
                names_of_all(elements, out);
            },
            Expr::Index { value, indices, .. } => {
                value.names(out);
                names_of_all(indices, out);
            },
            Expr::Number { .. } => {},
            Expr::String { .. } => {},
        }
    }
}

fn names_of_all(es: &Vec<Expr>, out: &mut Vec<String>)
    ensures
        texts(final(out)@) == names_into_all(es@, 0, texts(old(out)@)),
    decreases es, 1nat,
{
    let ghost acc0 = texts(out@);
    let mut i: usize = 0;
    while i < es.len()
        invariant
            i <= es@.len(),
            names_into_all(es@, 0, acc0) == names_into_all(es@, i as int, texts(out@)),
        decreases es@.len() - i,
    {
        es[i].names(out);
        i = i + 1;
    }
}

// ---------------------------------------------------------------------------------------
// Tracing a name to the unknown fields it depends on.
// ---------------------------------------------------------------------------------------

/// Why an edge couples a field to a residual, with names as texts.
pub enum ReasonView {
    DirectFieldUse,
    DefinedValueDependency(Seq<char>),
    PropertyDependency(Seq<char>),
    ConstitutiveDependency(Seq<char>),
    InterfaceTerm,
    HistoryState,
}

pub open spec fn reason_view(r: CouplingReason) -> ReasonView {
    match r {
        CouplingReason::DirectFieldUse => ReasonView::DirectFieldUse,
        CouplingReason::DefinedValueDependency(s) => ReasonView::DefinedValueDependency(s@),
        CouplingReason::PropertyDependency(s) => ReasonView::PropertyDependency(s@),
        CouplingReason::ConstitutiveDependency(s) => ReasonView::ConstitutiveDependency(s@),
        CouplingReason::InterfaceTerm => ReasonView::InterfaceTerm,
        CouplingReason::HistoryState => ReasonView::HistoryState,
    }
}

pub open spec fn reason_opt_view(r: Option<CouplingReason>) -> Option<ReasonView> {
    match r {
        Some(x) => Some(reason_view(x)),
        None => None,
    }
}

/// A coupling edge with names as texts.
pub struct EdgeView {
    pub from: Seq<char>,
    pub to: Seq<char>,
    pub reason: ReasonView,
    pub path: Seq<Seq<char>>,
}

pub open spec fn edge_view(e: CouplingEdge) -> EdgeView {
    EdgeView { from: e.from@, to: e.to@, reason: reason_view(e.reason), path: texts(e.path@) }
}

pub open spec fn edges_view(v: Seq<CouplingEdge>) -> Seq<EdgeView> {
    v.map_values(|e: CouplingEdge| edge_view(e))
}

/// The roles of the fields that are unknowns of the coupling graph.
pub open spec fn unknown_role(r: FieldRole) -> bool {
    r == FieldRole::State || r == FieldRole::Unknown
}

/// `x` names a state or unknown field of the model.
pub open spec fn coupled_field(m: ScientificModel, x: Seq<char>) -> bool {
    exists|i: int| 0 <= i < m.fields@.len() && (#[trigger] m.fields@[i]).name@ == x && unknown_role(m.fields@[i].role)
}

/// The value declarations of a model: parameters, constants, then sources.
pub open spec fn value_decls(m: ScientificModel) -> Seq<ValueDecl> {
    m.parameters@ + m.constants@ + m.sources@
}

/// The value of the last declaration that names `x` and has a value.
pub open spec fn value_definition(decls: Seq<ValueDecl>, x: Seq<char>) -> Option<Expr>
    decreases decls.len(),
{
    if decls.len() == 0 {
        None
    } else if decls.last().name@ == x && decls.last().value is Some {
        decls.last().value
    } else {
        value_definition(decls.drop_last(), x)
    }
}

/// The value of the last property binding of `x`.
pub open spec fn property_definition(props: Seq<PropertyBinding>, x: Seq<char>) -> Option<Expr>
    decreases props.len(),
{
    if props.len() == 0 {
        None
    } else if props.last().name@ == x {
        Some(props.last().value)
    } else {
        property_definition(props.drop_last(), x)
    }
}

/// The law of the last constitutive binding of `x`.
pub open spec fn law_definition(laws: Seq<ConstitutiveBinding>, x: Seq<char>) -> Option<Expr>
    decreases laws.len(),
{
    if laws.len() == 0 {
        None
    } else if laws.last().name@ == x {
        Some(laws.last().law)
    } else {
        law_definition(laws.drop_last(), x)
    }
}

/// What defines `x`, and the reason that a dependency through it gives: a value declaration
/// first, then a property, then a constitutive law.
pub open spec fn definition(m: ScientificModel, x: Seq<char>) -> Option<(ReasonView, Expr)> {
    match value_definition(value_decls(m), x) {
        Some(e) => Some((ReasonView::DefinedValueDependency(x), e)),
        None => match property_definition(m.properties@, x) {
            Some(e) => Some((ReasonView::PropertyDependency(x), e)),
            None => match law_definition(m.constitutive_laws@, x) {
                Some(e) => Some((ReasonView::ConstitutiveDependency(x), e)),
                None => None,
            },
        },
    }
}

/// The names that some declaration of a value, property or law carries.
pub open spec fn defined_names(m: ScientificModel) -> Set<Seq<char>> {
    value_decls(m).map_values(|d: ValueDecl| d.name@).to_set() + m.properties@.map_values(
        |p: PropertyBinding| p.name@,
    ).to_set() + m.constitutive_laws@.map_values(|l: ConstitutiveBinding| l.name@).to_set()
}

proof fn lemma_value_definition_named(decls: Seq<ValueDecl>, x: Seq<char>)
    requires
        value_definition(decls, x) is Some,
    ensures
        decls.map_values(|d: ValueDecl| d.name@).contains(x),
    decreases decls.len(),
{
    let n = decls.map_values(|d: ValueDecl| d.name@);
    if decls.last().name@ == x && decls.last().value is Some {
        assert(n[decls.len() - 1] == x);
    } else {
        lemma_value_definition_named(decls.drop_last(), x);
        let dn = decls.drop_last().map_values(|d: ValueDecl| d.name@);
        let k = choose|k: int| 0 <= k < dn.len() && #[trigger] dn[k] == x;
        assert(n[k] == dn[k]);
    }
}

proof fn lemma_property_definition_named(props: Seq<PropertyBinding>, x: Seq<char>)
    requires
        property_definition(props, x) is Some,
    ensures
        props.map_values(|p: PropertyBinding| p.name@).contains(x),
    decreases props.len(),
{
    let n = props.map_values(|p: PropertyBinding| p.name@);
    if props.last().name@ == x {
        assert(n[props.len() - 1] == x);
    } else {
        lemma_property_definition_named(props.drop_last(), x);
        let dn = props.drop_last().map_values(|p: PropertyBinding| p.name@);
        let k = choose|k: int| 0 <= k < dn.len() && #[trigger] dn[k] == x;
        assert(n[k] == dn[k]);
    }
}

proof fn lemma_law_definition_named(laws: Seq<ConstitutiveBinding>, x: Seq<char>)
    requires
        law_definition(laws, x) is Some,
    ensures
        laws.map_values(|l: ConstitutiveBinding| l.name@).contains(x),
    decreases laws.len(),
{
    let n = laws.map_values(|l: ConstitutiveBinding| l.name@);
    if laws.last().name@ == x {
        assert(n[laws.len() - 1] == x);
    } else {
        lemma_law_definition_named(laws.drop_last(), x);
        let dn = laws.drop_last().map_values(|l: ConstitutiveBinding| l.name@);
        let k = choose|k: int| 0 <= k < dn.len() && #[trigger] dn[k] == x;
        assert(n[k] == dn[k]);
    }
}

/// A defined name is one of the declared names, and the declared names are finitely many.
pub proof fn lemma_definition_named(m: ScientificModel, x: Seq<char>)
    ensures
        defined_names(m).finite(),
        definition(m, x) is Some ==> defined_names(m).contains(x),
{
    if value_definition(value_decls(m), x) is Some {
        lemma_value_definition_named(value_decls(m), x);
    } else if property_definition(m.properties@, x) is Some {
        lemma_property_definition_named(m.properties@, x);
    } else if law_definition(m.constitutive_laws@, x) is Some {
        lemma_law_definition_named(m.constitutive_laws@, x);
    }
}

/// Marking a defined, unmarked name as seen leaves fewer defined names unseen.
pub proof fn lemma_unseen_shrinks(a: Set<Seq<char>>, seen: Set<Seq<char>>, x: Seq<char>)
    requires
        a.finite(),
        a.contains(x),
        !seen.contains(x),
    ensures
        a.difference(seen.insert(x)).len() < a.difference(seen).len(),
{
    assert(a.difference(seen.insert(x)) =~= a.difference(seen).remove(x));
    vstd::set_lib::lemma_len_subset(a.difference(seen), a);
}

/// The edges that tracing `x` toward residual `res` finds: `x` itself when it is an unknown
/// field, with the path of definitions that led to it; otherwise, unless it was seen on the
/// way, the edges of the names its definition uses.
pub open spec fn trace_symbol(
    m: ScientificModel,
    x: Seq<char>,
    res: Seq<char>,
    path: Seq<Seq<char>>,
    seen: Set<Seq<char>>,
    reason: Option<ReasonView>,
) -> Seq<EdgeView>
    decreases defined_names(m).difference(seen).len(), 0nat, 0nat,
{
    if coupled_field(m, x) {
        seq![
            EdgeView {
                from: x,
                to: res,
                reason: match reason {
                    Some(r) => r,
                    None => ReasonView::DirectFieldUse,
                },
                path: seq![x] + path + seq![res],
            },
        ]
    } else if seen.contains(x) {
        seq![]
    } else {
        match definition(m, x) {
            Some((r, e)) => {
                proof {
                    lemma_definition_named(m, x);
                    lemma_unseen_shrinks(defined_names(m), seen, x);
                }
                trace_names(m, expr_names(e), 0, res, seq![x] + path, seen.insert(x), Some(r))
            },
            None => seq![],
        }
    }
}

/// The edges of tracing the names of `names` from position `i` on.
pub open spec fn trace_names(
    m: ScientificModel,
    names: Seq<Seq<char>>,
    i: int,
    res: Seq<char>,
    path: Seq<Seq<char>>,
    seen: Set<Seq<char>>,
    reason: Option<ReasonView>,
) -> Seq<EdgeView>
    decreases defined_names(m).difference(seen).len(), 1nat, (names.len() - i) as nat,
{
    if 0 <= i < names.len() {
        trace_symbol(m, names[i], res, path, seen, reason) + trace_names(m, names, i + 1, res, path, seen, reason)
    } else {
        seq![]
    }
}


// ---------------------------------------------------------------------------------------
// Executable tracing.
// ---------------------------------------------------------------------------------------

fn copy_reason(r: &CouplingReason) -> (c: CouplingReason)
    ensures
        c == *r,
{
    match r {
        CouplingReason::DirectFieldUse => CouplingReason::DirectFieldUse,
        CouplingReason::DefinedValueDependency(s) => CouplingReason::DefinedValueDependency(s.clone()),
        CouplingReason::PropertyDependency(s) => CouplingReason::PropertyDependency(s.clone()),
        CouplingReason::ConstitutiveDependency(s) => CouplingReason::ConstitutiveDependency(s.clone()),
        CouplingReason::InterfaceTerm => CouplingReason::InterfaceTerm,
        CouplingReason::HistoryState => CouplingReason::HistoryState,
    }
}

/// Append copies of the strings of `v` to `out`.
fn append_copies(out: &mut Vec<String>, v: &Vec<String>)
    ensures
        final(out)@ == old(out)@ + v@,
{
    let ghost o = out@;
    let mut i: usize = 0;
    while i < v.len()
        invariant
            i <= v@.len(),
            out@ == o + v@.take(i as int),
        decreases v@.len() - i,
    {
        out.push(v[i].clone());
        proof {
            assert(v@.take(i + 1) =~= v@.take(i as int).push(v@[i as int]));
        }
        i = i + 1;
    }
    proof {
        assert(v@.take(i as int) =~= v@);
    }
}

fn contains_text(v: &Vec<String>, x: &String) -> (r: bool)
    ensures
        r == texts(v@).contains(x@),
{
    let mut i: usize = 0;
    while i < v.len()
        invariant
            i <= v@.len(),
            forall|j: int| 0 <= j < i ==> v@[j]@ != x@,
        decreases v@.len() - i,
    {
        if v[i] == *x {
            proof {
                assert(texts(v@)[i as int] == x@);
            }
            return true;
        }
        i = i + 1;
    }
    proof {
        if texts(v@).contains(x@) {
            let j = choose|j: int| 0 <= j < texts(v@).len() && texts(v@)[j] == x@;
            assert(v@[j]@ == x@);
        }
    }
    false
}

fn is_coupled_field(model: &ScientificModel, x: &String) -> (r: bool)
    ensures
        r == coupled_field(*model, x@),
{
    let mut i: usize = 0;
    while i < model.fields.len()
        invariant
            i <= model.fields@.len(),
            forall|j: int| 0 <= j < i ==> !((#[trigger] model.fields@[j]).name@ == x@ && unknown_role(model.fields@[j].role)),
        decreases model.fields@.len() - i,
    {
        let f = &model.fields[i];
        if f.name == *x && (matches!(f.role, FieldRole::State) || matches!(f.role, FieldRole::Unknown)) {
            proof {
                assert(model.fields@[i as int].name@ == x@ && unknown_role(model.fields@[i as int].role));
            }
            return true;
        }
        i = i + 1;
    }
    false
}

proof fn lemma_value_definition_append(a: Seq<ValueDecl>, b: Seq<ValueDecl>, x: Seq<char>)
    ensures
        value_definition(a + b, x) == match value_definition(b, x) {
            Some(e) => Some(e),
            None => value_definition(a, x),
        },
    decreases b.len(),
{
    if b.len() > 0 {
        assert((a + b).drop_last() =~= a + b.drop_last());
        assert((a + b).last() == b.last());
        lemma_value_definition_append(a, b.drop_last(), x);
    } else {
        assert(a + b =~= a);
    }
}

/// Some value declaration of `decls` names `x` and has a value.
pub open spec fn valued_name(decls: Seq<ValueDecl>, x: Seq<char>) -> bool {
    exists|k: int| 0 <= k < decls.len() && (#[trigger] decls[k]).name@ == x && decls[k].value is Some
}

/// Some property binding names `x`.
pub open spec fn property_named(props: Seq<PropertyBinding>, x: Seq<char>) -> bool {
    exists|k: int| 0 <= k < props.len() && (#[trigger] props[k]).name@ == x
}

/// Some constitutive binding names `x`.
pub open spec fn law_named(laws: Seq<ConstitutiveBinding>, x: Seq<char>) -> bool {
    exists|k: int| 0 <= k < laws.len() && (#[trigger] laws[k]).name@ == x
}

proof fn lemma_value_definition_found(decls: Seq<ValueDecl>, x: Seq<char>)
    ensures
        value_definition(decls, x) is Some <==> valued_name(decls, x),
        value_definition(decls, x) matches Some(e) ==> exists|k: int|
            0 <= k < decls.len() && (#[trigger] decls[k]).name@ == x && decls[k].value == Some(e),
    decreases decls.len(),
{
    if decls.len() > 0 {
        let d = decls.drop_last();
        lemma_value_definition_found(d, x);
        if valued_name(d, x) {
            let k = choose|k: int| 0 <= k < d.len() && (#[trigger] d[k]).name@ == x && d[k].value is Some;
            assert(decls[k] == d[k]);
        }
        if valued_name(decls, x) && !(decls.last().name@ == x && decls.last().value is Some) {
            let k = choose|k: int| 0 <= k < decls.len() && (#[trigger] decls[k]).name@ == x && decls[k].value is Some;
            assert(k != decls.len() - 1);
            assert(d[k] == decls[k]);
        }
        if value_definition(d, x) is Some && !(decls.last().name@ == x && decls.last().value is Some) {
            let k = choose|k: int| 0 <= k < d.len() && (#[trigger] d[k]).name@ == x && d[k].value == value_definition(d, x);
            assert(decls[k] == d[k]);
        }
        if decls.last().name@ == x && decls.last().value is Some {
            assert(decls[decls.len() - 1] == decls.last());
        }
    }
}

proof fn lemma_property_definition_found(props: Seq<PropertyBinding>, x: Seq<char>)
    ensures
        property_definition(props, x) is Some <==> property_named(props, x),
        property_definition(props, x) matches Some(e) ==> exists|k: int|
            0 <= k < props.len() && (#[trigger] props[k]).name@ == x && props[k].value == e,
    decreases props.len(),
{
    if props.len() > 0 {
        let d = props.drop_last();
        lemma_property_definition_found(d, x);
        if property_named(d, x) {
            let k = choose|k: int| 0 <= k < d.len() && (#[trigger] d[k]).name@ == x;
            assert(props[k] == d[k]);
        }
        if property_named(props, x) && props.last().name@ != x {
            let k = choose|k: int| 0 <= k < props.len() && (#[trigger] props[k]).name@ == x;
            assert(k != props.len() - 1);
            assert(d[k] == props[k]);
        }
        if property_definition(d, x) is Some && props.last().name@ != x {
            let k = choose|k: int| 0 <= k < d.len() && (#[trigger] d[k]).name@ == x && Some(d[k].value) == property_definition(d, x);
            assert(props[k] == d[k]);
        }
        if props.last().name@ == x {
            assert(props[props.len() - 1] == props.last());
        }
    }
}

proof fn lemma_law_definition_found(laws: Seq<ConstitutiveBinding>, x: Seq<char>)
    ensures
        law_definition(laws, x) is Some <==> law_named(laws, x),
        law_definition(laws, x) matches Some(e) ==> exists|k: int|
            0 <= k < laws.len() && (#[trigger] laws[k]).name@ == x && laws[k].law == e,
    decreases laws.len(),
{
    if laws.len() > 0 {
        let d = laws.drop_last();
        lemma_law_definition_found(d, x);
        if law_named(d, x) {
            let k = choose|k: int| 0 <= k < d.len() && (#[trigger] d[k]).name@ == x;
            assert(laws[k] == d[k]);
        }
        if law_named(laws, x) && laws.last().name@ != x {
            let k = choose|k: int| 0 <= k < laws.len() && (#[trigger] laws[k]).name@ == x;
            assert(k != laws.len() - 1);
            assert(d[k] == laws[k]);
        }
        if law_definition(d, x) is Some && laws.last().name@ != x {
            let k = choose|k: int| 0 <= k < d.len() && (#[trigger] d[k]).name@ == x && Some(d[k].law) == law_definition(d, x);
            assert(laws[k] == d[k]);
        }
        if laws.last().name@ == x {
            assert(laws[laws.len() - 1] == laws.last());
        }
    }
}

/// The reason a dependency through `x` gives names the kind of declaration that defines `x`,
/// and the expression is that declaration's: a value declaration that names `x` with a value
/// comes first (`DefinedValueDependency`), then a property that names `x`
/// (`PropertyDependency`), then a constitutive law that names `x` (`ConstitutiveDependency`);
/// a name that none of them defines has no definition.
pub proof fn lemma_definition_reason(m: ScientificModel, x: Seq<char>)
    ensures
        match definition(m, x) {
            Some((ReasonView::DefinedValueDependency(y), e)) => y == x && exists|k: int|
                0 <= k < value_decls(m).len() && (#[trigger] value_decls(m)[k]).name@ == x && value_decls(m)[k].value
                    == Some(e),
            Some((ReasonView::PropertyDependency(y), e)) => {
                &&& y == x
                &&& !valued_name(value_decls(m), x)
                &&& exists|k: int| 0 <= k < m.properties@.len() && (#[trigger] m.properties@[k]).name@ == x
                    && m.properties@[k].value == e
            },
            Some((ReasonView::ConstitutiveDependency(y), e)) => {
                &&& y == x
                &&& !valued_name(value_decls(m), x)
                &&& !property_named(m.properties@, x)
                &&& exists|k: int| 0 <= k < m.constitutive_laws@.len() && (#[trigger] m.constitutive_laws@[k]).name@
                    == x && m.constitutive_laws@[k].law == e
            },
            Some(_) => false,
            None => !valued_name(value_decls(m), x) && !property_named(m.properties@, x) && !law_named(
                m.constitutive_laws@,
                x,
            ),
        },
        valued_name(value_decls(m), x) ==> definition(m, x) matches Some((ReasonView::DefinedValueDependency(_), _)),
        !valued_name(value_decls(m), x) && property_named(m.properties@, x) ==> definition(m, x) matches Some(
            (ReasonView::PropertyDependency(_), _),
        ),
        !valued_name(value_decls(m), x) && !property_named(m.properties@, x) && law_named(m.constitutive_laws@, x)
            ==> definition(m, x) matches Some((ReasonView::ConstitutiveDependency(_), _)),
{
    lemma_value_definition_found(value_decls(m), x);
    lemma_property_definition_found(m.properties@, x);
    lemma_law_definition_found(m.constitutive_laws@, x);
}

fn find_value<'a>(decls: &'a Vec<ValueDecl>, x: &String) -> (r: Option<&'a Expr>)
    ensures
        match r {
            Some(e) => value_definition(decls@, x@) == Some(*e),
            None => value_definition(decls@, x@) is None,
        },
{
    let mut i: usize = decls.len();
    proof {
        assert(decls@.take(i as int) =~= decls@);
    }
    while i > 0
        invariant
            i <= decls@.len(),
            value_definition(decls@, x@) == value_definition(decls@.take(i as int), x@),
        decreases i,
    {
        let d = &decls[i - 1];
        proof {
            assert(decls@.take(i as int).last() == decls@[i - 1]);
            assert(decls@.take(i as int).drop_last() =~= decls@.take(i - 1));
        }
        if d.name == *x {
            match &d.value {
                Some(e) => {
                    return Some(e);
                },
                None => {},
            }
        }
        i = i - 1;
    }
    None
}

fn find_property<'a>(props: &'a Vec<PropertyBinding>, x: &String) -> (r: Option<&'a Expr>)
    ensures
        match r {
            Some(e) => property_definition(props@, x@) == Some(*e),
            None => property_definition(props@, x@) is None,
        },
{
    let mut i: usize = props.len();
    proof {
        assert(props@.take(i as int) =~= props@);
    }
    while i > 0
        invariant
            i <= props@.len(),
            property_definition(props@, x@) == property_definition(props@.take(i as int), x@),
        decreases i,
    {
        let p = &props[i - 1];
        proof {
            assert(props@.take(i as int).last() == props@[i - 1]);
            assert(props@.take(i as int).drop_last() =~= props@.take(i - 1));
        }
        if p.name == *x {
            return Some(&p.value);
        }
        i = i - 1;
    }
    None
}

fn find_law<'a>(laws: &'a Vec<ConstitutiveBinding>, x: &String) -> (r: Option<&'a Expr>)
    ensures
        match r {
            Some(e) => law_definition(laws@, x@) == Some(*e),
            None => law_definition(laws@, x@) is None,
        },
{
    let mut i: usize = laws.len();
    proof {
        assert(laws@.take(i as int) =~= laws@);
    }
    while i > 0
        invariant
            i <= laws@.len(),
            law_definition(laws@, x@) == law_definition(laws@.take(i as int), x@),
        decreases i,
    {
        let l = &laws[i - 1];
        proof {
            assert(laws@.take(i as int).last() == laws@[i - 1]);
            assert(laws@.take(i as int).drop_last() =~= laws@.take(i - 1));
        }
        if l.name == *x {
            return Some(&l.law);
        }
        i = i - 1;
    }
    None
}

fn definition_of<'a>(model: &'a ScientificModel, x: &String) -> (r: Option<(CouplingReason, &'a Expr)>)
    ensures
        match r {
            Some((c, e)) => definition(*model, x@) == Some((reason_view(c), *e)),
            None => definition(*model, x@) is None,
        },
{
    proof {
        lemma_value_definition_append(model.parameters@ + model.constants@, model.sources@, x@);
        lemma_value_definition_append(model.parameters@, model.constants@, x@);
    }
    match find_value(&model.sources, x) {
        Some(e) => {
            return Some((CouplingReason::DefinedValueDependency(x.clone()), e));
        },
        None => {},
    }
    match find_value(&model.constants, x) {
        Some(e) => {
            return Some((CouplingReason::DefinedValueDependency(x.clone()), e));
        },
        None => {},
    }
    match find_value(&model.parameters, x) {
        Some(e) => {
            return Some((CouplingReason::DefinedValueDependency(x.clone()), e));
        },
        None => {},
    }
    match find_property(&model.properties, x) {
        Some(e) => {
            return Some((CouplingReason::PropertyDependency(x.clone()), e));
        },
        None => {},
    }
    match find_law(&model.constitutive_laws, x) {
        Some(e) => {
            return Some((CouplingReason::ConstitutiveDependency(x.clone()), e));
        },
        None => {},
    }
    None
}

/// Trace `symbol` toward `residual`, appending the edges found to `out`; `path` holds the
/// definitions passed through, nearest first, and `seen` those on the way.
fn trace(
    model: &ScientificModel,
    symbol: &String,
    residual: &String,
    path: &Vec<String>,
    seen: &Vec<String>,
    reason: &Option<CouplingReason>,
    out: &mut Vec<CouplingEdge>,
)
    ensures
        edges_view(final(out)@) == edges_view(old(out)@) + trace_symbol(
            *model,
            symbol@,
            residual@,
            texts(path@),
            texts(seen@).to_set(),
            reason_opt_view(*reason),
        ),
    decreases defined_names(*model).difference(texts(seen@).to_set()).len(), 0nat, 0nat,
{
    let ghost out0 = out@;
    if is_coupled_field(model, symbol) {
        let mut full: Vec<String> = Vec::new();
        full.push(symbol.clone());
        append_copies(&mut full, path);
        full.push(residual.clone());
        let r = match reason {
            Some(r) => copy_reason(r),
            None => CouplingReason::DirectFieldUse,
        };
        let edge = CouplingEdge { from: symbol.clone(), to: residual.clone(), reason: r, path: full };
        out.push(edge);
        proof {
            assert(texts(full@) =~= seq![symbol@] + texts(path@) + seq![residual@]);
            assert(edges_view(out@) =~= edges_view(out0).push(edge_view(edge)));
        }
        return;
    }
    if contains_text(seen, symbol) {
        proof {
            assert(edges_view(out@) =~= edges_view(out0) + Seq::<EdgeView>::empty());
        }
        return;
    }
    match definition_of(model, symbol) {
        None => {
            proof {
                assert(edges_view(out@) =~= edges_view(out0) + Seq::<EdgeView>::empty());
            }
        },
        Some((r, e)) => {
            let mut names: Vec<String> = Vec::new();
            e.names(&mut names);
            proof {
                assert(texts(Seq::<String>::empty()) =~= Seq::<Seq<char>>::empty());
            }
            let mut new_path: Vec<String> = Vec::new();
            new_path.push(symbol.clone());
            append_copies(&mut new_path, path);
            let mut new_seen: Vec<String> = Vec::new();
            append_copies(&mut new_seen, seen);
            new_seen.push(symbol.clone());
            let next = Some(r);
            let ghost m = *model;
            let ghost nt = texts(names@);
            let ghost pt = texts(new_path@);
            let ghost st = texts(new_seen@).to_set();
            proof {
                assert(pt =~= seq![symbol@] + texts(path@));
                assert(texts(new_seen@) =~= texts(seen@).push(symbol@));
                let ts = texts(seen@);
                let tp = ts.push(symbol@);
                assert forall|y: Seq<char>| #[trigger] tp.contains(y) <==> ts.contains(y) || y == symbol@ by {
                    if tp.contains(y) && y != symbol@ {
                        let k = choose|k: int| 0 <= k < tp.len() && tp[k] == y;
                        assert(k < ts.len());
                        assert(ts[k] == y);
                    }
                    if ts.contains(y) {
                        let k = choose|k: int| 0 <= k < ts.len() && ts[k] == y;
                        assert(tp[k] == y);
                    }
                    if y == symbol@ {
                        assert(tp[ts.len() as int] == y);
                    }
                }
                assert(st =~= ts.to_set().insert(symbol@));
                lemma_definition_named(m, symbol@);
                lemma_unseen_shrinks(defined_names(m), texts(seen@).to_set(), symbol@);
                assert(edges_view(out@) + trace_names(m, nt, 0, residual@, pt, st, reason_opt_view(next))
                    =~= edges_view(out0) + trace_names(m, nt, 0, residual@, pt, st, reason_opt_view(next)));
            }
            let mut j: usize = 0;
            while j < names.len()
                invariant
                    m == *model,
                    nt == texts(names@),
                    pt == texts(new_path@),
                    st == texts(new_seen@).to_set(),
                    defined_names(m).difference(st).len() < defined_names(m).difference(texts(seen@).to_set()).len(),
                    j <= names@.len(),
                    edges_view(out@) + trace_names(m, nt, j as int, residual@, pt, st, reason_opt_view(next))
                        == edges_view(out0) + trace_names(m, nt, 0, residual@, pt, st, reason_opt_view(next)),
                decreases names@.len() - j,
            {
                let ghost before = out@;
                trace(model, &names[j], residual, &new_path, &new_seen, &next, out);
                proof {
                    let a = edges_view(before);
                    let b = trace_symbol(m, nt[j as int], residual@, pt, st, reason_opt_view(next));
                    let c = trace_names(m, nt, j + 1, residual@, pt, st, reason_opt_view(next));
                    assert(nt[j as int] == names@[j as int]@);
                    assert(trace_names(m, nt, j as int, residual@, pt, st, reason_opt_view(next)) == b + c);
                    assert(a + (b + c) =~= (a + b) + c);
                }
                j = j + 1;
            }
            proof {
                assert(trace_names(m, nt, j as int, residual@, pt, st, reason_opt_view(next)) =~= Seq::<EdgeView>::empty());
                assert(edges_view(out@) + Seq::<EdgeView>::empty() =~= edges_view(out@));
            }
        },
    }
}

/// The edges of tracing each name of `names` from an empty path.
pub open spec fn root_trace(
    m: ScientificModel,
    names: Seq<Seq<char>>,
    res: Seq<char>,
    reason: Option<ReasonView>,
) -> Seq<EdgeView> {
    trace_names(m, names, 0, res, seq![], Set::empty(), reason)
}

fn trace_all(
    model: &ScientificModel,
    names: &Vec<String>,
    residual: &String,
    reason: &Option<CouplingReason>,
    out: &mut Vec<CouplingEdge>,
)
    ensures
        edges_view(final(out)@) == edges_view(old(out)@) + root_trace(
            *model,
            texts(names@),
            residual@,
            reason_opt_view(*reason),
        ),
{
    let ghost out0 = out@;
    let ghost m = *model;
    let ghost nt = texts(names@);
    let ghost rv = reason_opt_view(*reason);
    let path: Vec<String> = Vec::new();
    let seen: Vec<String> = Vec::new();
    proof {
        assert(texts(path@) =~= Seq::<Seq<char>>::empty());
        assert(texts(seen@).to_set() =~= Set::<Seq<char>>::empty());
        assert(edges_view(out@) + trace_names(m, nt, 0, residual@, seq![], Set::empty(), rv) =~= edges_view(out0)
            + trace_names(m, nt, 0, residual@, seq![], Set::empty(), rv));
    }
    let mut j: usize = 0;
    while j < names.len()
        invariant
            m == *model,
            nt == texts(names@),
            rv == reason_opt_view(*reason),
            texts(path@) == Seq::<Seq<char>>::empty(),
            texts(seen@).to_set() == Set::<Seq<char>>::empty(),
            j <= names@.len(),
            edges_view(out@) + trace_names(m, nt, j as int, residual@, seq![], Set::empty(), rv) == edges_view(out0)
                + trace_names(m, nt, 0, residual@, seq![], Set::empty(), rv),
        decreases names@.len() - j,
    {
        let ghost before = out@;
        trace(model, &names[j], residual, &path, &seen, reason, out);
        proof {
            let a = edges_view(before);
            let b = trace_symbol(m, nt[j as int], residual@, seq![], Set::empty(), rv);
            let c = trace_names(m, nt, j + 1, residual@, seq![], Set::empty(), rv);
            assert(nt[j as int] == names@[j as int]@);
            assert(a + (b + c) =~= (a + b) + c);
        }
        j = j + 1;
    }
    proof {
        assert(edges_view(out@) + Seq::<EdgeView>::empty() =~= edges_view(out@));
    }
}

/// The names of both sides of an equation, in increasing order.
pub open spec fn equation_names(eq: EquationDecl) -> Seq<Seq<char>> {
    names_into(eq.rhs, names_into(eq.lhs, seq![]))
}

/// The names of the region and the value of a condition, in increasing order.
pub open spec fn condition_names(c: BoundaryConditionDecl) -> Seq<Seq<char>> {
    names_into(c.value, names_into(c.region, seq![]))
}

/// The edges of the first `j` equations, each traced toward its own residual.
pub open spec fn equation_edges(m: ScientificModel, j: int) -> Seq<EdgeView>
    decreases j,
{
    if j <= 0 {
        seq![]
    } else {
        equation_edges(m, j - 1) + root_trace(
            m,
            equation_names(m.equations@[j - 1]),
            m.equations@[j - 1].name@,
            None,
        )
    }
}

/// The edges of the first `k` integrals of a form, traced toward the form.
pub open spec fn integral_edges(m: ScientificModel, f: FormDecl, k: int) -> Seq<EdgeView>
    decreases k,
{
    if k <= 0 {
        seq![]
    } else {
        integral_edges(m, f, k - 1) + root_trace(m, expr_names(f.integrals@[k - 1].integrand), f.name@, None)
    }
}

/// The edges of the first `j` forms.
pub open spec fn form_edges(m: ScientificModel, j: int) -> Seq<EdgeView>
    decreases j,
{
    if j <= 0 {
        seq![]
    } else {
        form_edges(m, j - 1) + integral_edges(m, m.forms@[j - 1], m.forms@[j - 1].integrals@.len() as int)
    }
}

/// The edges with their reason made an interface term.
pub open spec fn as_interface(v: Seq<EdgeView>) -> Seq<EdgeView> {
    v.map_values(|e: EdgeView| EdgeView { from: e.from, to: e.to, reason: ReasonView::InterfaceTerm, path: e.path })
}

/// The boundary conditions, then the interface conditions.
pub open spec fn conditions(m: ScientificModel) -> Seq<BoundaryConditionDecl> {
    m.boundary_conditions@ + m.interface_conditions@
}

/// The edges of the first `j` conditions, traced toward their target field, all interface
/// terms.
pub open spec fn condition_edges(m: ScientificModel, cs: Seq<BoundaryConditionDecl>, j: int) -> Seq<EdgeView>
    decreases j,
{
    if j <= 0 {
        seq![]
    } else {
        condition_edges(m, cs, j - 1) + as_interface(
            root_trace(m, condition_names(cs[j - 1]), cs[j - 1].target@, Some(ReasonView::InterfaceTerm)),
        )
    }
}

/// Every edge found, before sorting: equations, forms, then conditions.
pub open spec fn traced_edges(m: ScientificModel) -> Seq<EdgeView> {
    equation_edges(m, m.equations@.len() as int) + form_edges(m, m.forms@.len() as int) + condition_edges(
        m,
        conditions(m),
        conditions(m).len() as int,
    )
}

fn append_as_interface(out: &mut Vec<CouplingEdge>, v: &Vec<CouplingEdge>)
    ensures
        edges_view(final(out)@) == edges_view(old(out)@) + as_interface(edges_view(v@)),
{
    let ghost o = edges_view(out@);
    let mut i: usize = 0;
    while i < v.len()
        invariant
            i <= v@.len(),
            edges_view(out@) == o + as_interface(edges_view(v@)).take(i as int),
        decreases v@.len() - i,
    {
        let e = &v[i];
        let mut path: Vec<String> = Vec::new();
        append_copies(&mut path, &e.path);
        let c = CouplingEdge { from: e.from.clone(), to: e.to.clone(), reason: CouplingReason::InterfaceTerm, path };
        let ghost before = out@;
        out.push(c);
        proof {
            assert(edges_view(out@) =~= edges_view(before).push(edge_view(c)));
            assert(as_interface(edges_view(v@)).take(i + 1) =~= as_interface(edges_view(v@)).take(i as int).push(
                as_interface(edges_view(v@))[i as int],
            ));
            assert(texts(path@) =~= texts(e.path@));
        }
        i = i + 1;
    }
    proof {
        assert(as_interface(edges_view(v@)).take(i as int) =~= as_interface(edges_view(v@)));
    }
}

fn trace_uses(model: &ScientificModel) -> (out: Vec<CouplingEdge>)
    ensures
        edges_view(out@) == traced_edges(*model),
{
    let ghost m = *model;
    let mut out: Vec<CouplingEdge> = Vec::new();
    let mut i: usize = 0;
    proof {
        assert(edges_view(out@) =~= equation_edges(m, 0));
    }
    while i < model.equations.len()
        invariant
            m == *model,
            i <= m.equations@.len(),
            edges_view(out@) == equation_edges(m, i as int),
        decreases m.equations@.len() - i,
    {
        let eq = &model.equations[i];
        let mut names: Vec<String> = Vec::new();
        proof {
            assert(texts(names@) =~= Seq::<Seq<char>>::empty());
        }
        eq.lhs.names(&mut names);
        eq.rhs.names(&mut names);
        trace_all(model, &names, &eq.name, &None, &mut out);
        i = i + 1;
    }
    let ghost eqs = edges_view(out@);
    let mut f: usize = 0;
    proof {
        assert(edges_view(out@) =~= eqs + form_edges(m, 0));
    }
    while f < model.forms.len()
        invariant
            m == *model,
            f <= m.forms@.len(),
            edges_view(out@) == eqs + form_edges(m, f as int),
        decreases m.forms@.len() - f,
    {
        let form = &model.forms[f];
        let ghost before = edges_view(out@);
        let mut k: usize = 0;
        proof {
            assert(edges_view(out@) =~= before + integral_edges(m, *form, 0));
        }
        while k < form.integrals.len()
            invariant
                m == *model,
                *form == m.forms@[f as int],
                k <= form.integrals@.len(),
                edges_view(out@) == before + integral_edges(m, *form, k as int),
            decreases form.integrals@.len() - k,
        {
            let mut names: Vec<String> = Vec::new();
            proof {
                assert(texts(names@) =~= Seq::<Seq<char>>::empty());
            }
            form.integrals[k].integrand.names(&mut names);
            let ghost mid = edges_view(out@);
            trace_all(model, &names, &form.name, &None, &mut out);
            proof {
                assert(mid + root_trace(m, texts(names@), form.name@, None) =~= before + (integral_edges(m, *form, k as int)
                    + root_trace(m, texts(names@), form.name@, None)));
            }
            k = k + 1;
        }
        proof {
            assert(eqs + form_edges(m, f + 1) =~= eqs + form_edges(m, f as int) + integral_edges(m, *form, k as int));
        }
        f = f + 1;
    }
    let ghost pre = edges_view(out@);
    let ghost cs = conditions(m);
    let nb = model.boundary_conditions.len();
    let ni = model.interface_conditions.len();
    let mut j: usize = 0;
    proof {
        assert(edges_view(out@) =~= pre + condition_edges(m, cs, 0));
    }
    while j < nb
        invariant
            m == *model,
            cs == conditions(m),
            nb == m.boundary_conditions@.len(),
            j <= nb,
            edges_view(out@) == pre + condition_edges(m, cs, j as int),
        decreases nb - j,
    {
        proof {
            assert(model.boundary_conditions@[j as int] == cs[j as int]);
        }
        let ghost before = edges_view(out@);
        trace_condition(model, &model.boundary_conditions[j], &mut out);
        proof {
            assert(before + as_interface(
                root_trace(m, condition_names(cs[j as int]), cs[j as int].target@, Some(ReasonView::InterfaceTerm)),
            ) =~= pre + condition_edges(m, cs, j + 1));
        }
        j = j + 1;
    }
    let mut q: usize = 0;
    while q < ni
        invariant
            m == *model,
            cs == conditions(m),
            nb == m.boundary_conditions@.len(),
            ni == m.interface_conditions@.len(),
            q <= ni,
            edges_view(out@) == pre + condition_edges(m, cs, nb + q),
        decreases ni - q,
    {
        proof {
            assert(model.interface_conditions@[q as int] == cs[nb + q]);
        }
        let ghost before = edges_view(out@);
        trace_condition(model, &model.interface_conditions[q], &mut out);
        proof {
            assert(before + as_interface(
                root_trace(m, condition_names(cs[nb + q]), cs[nb + q].target@, Some(ReasonView::InterfaceTerm)),
            ) =~= pre + condition_edges(m, cs, nb + q + 1));
        }
        q = q + 1;
    }
    proof {
        assert(pre + condition_edges(m, cs, (nb + q) as int) =~= traced_edges(m));
    }
    out
}

fn trace_condition(model: &ScientificModel, c: &BoundaryConditionDecl, out: &mut Vec<CouplingEdge>)
    ensures
        edges_view(final(out)@) == edges_view(old(out)@) + as_interface(
            root_trace(*model, condition_names(*c), c.target@, Some(ReasonView::InterfaceTerm)),
        ),
{
    let mut names: Vec<String> = Vec::new();
    proof {
        assert(texts(names@) =~= Seq::<Seq<char>>::empty());
    }
    c.region.names(&mut names);
    c.value.names(&mut names);
    let mut found: Vec<CouplingEdge> = Vec::new();
    proof {
        assert(edges_view(found@) =~= Seq::<EdgeView>::empty());
    }
    let interface = Some(CouplingReason::InterfaceTerm);
    trace_all(model, &names, &c.target, &interface, &mut found);
    append_as_interface(out, &found);
    proof {
        assert(edges_view(found@) =~= root_trace(*model, condition_names(*c), c.target@, Some(ReasonView::InterfaceTerm)));
    }
}

// ---------------------------------------------------------------------------------------
// Ordering the edges, and the graph.
// ---------------------------------------------------------------------------------------

/// `p` comes strictly before `q`, name by name, a prefix first.
pub open spec fn path_lt(p: Seq<Seq<char>>, q: Seq<Seq<char>>) -> bool
    decreases p.len(),
{
    if p.len() == 0 {
        q.len() > 0
    } else if q.len() == 0 {
        false
    } else if p[0] != q[0] {
        text_lt(p[0], q[0])
    } else {
        path_lt(p.drop_first(), q.drop_first())
    }
}

/// `a` comes strictly before `b` by residual, then field, then path.
pub open spec fn edge_lt(a: EdgeView, b: EdgeView) -> bool {
    ||| text_lt(a.to, b.to)
    ||| (a.to == b.to && text_lt(a.from, b.from))
    ||| (a.to == b.to && a.from == b.from && path_lt(a.path, b.path))
}

/// `e` placed into `l` after every edge that it does not come strictly before.
pub open spec fn insert_edge(l: Seq<EdgeView>, e: EdgeView) -> Seq<EdgeView>
    decreases l.len(),
{
    if l.len() == 0 {
        seq![e]
    } else if edge_lt(e, l[0]) {
        seq![e] + l
    } else {
        seq![l[0]] + insert_edge(l.drop_first(), e)
    }
}

/// The edges in order, equal edges keeping the order they were found in.
pub open spec fn sort_edges(l: Seq<EdgeView>) -> Seq<EdgeView>
    decreases l.len(),
{
    if l.len() == 0 {
        l
    } else {
        insert_edge(sort_edges(l.drop_last()), l.last())
    }
}

/// The same field, residual and path.
pub open spec fn same_edge(a: EdgeView, b: EdgeView) -> bool {
    a.from == b.from && a.to == b.to && a.path == b.path
}

/// Each run of consecutive same edges kept as its first.
pub open spec fn dedup_edges(l: Seq<EdgeView>) -> Seq<EdgeView>
    decreases l.len(),
{
    if l.len() == 0 {
        l
    } else {
        let d = dedup_edges(l.drop_last());
        if d.len() > 0 && same_edge(d.last(), l.last()) {
            d
        } else {
            d.push(l.last())
        }
    }
}

fn path_before(p: &Vec<String>, q: &Vec<String>) -> (r: bool)
    ensures
        r == path_lt(texts(p@), texts(q@)),
{
    let ghost a = texts(p@);
    let ghost b = texts(q@);
    let mut i: usize = 0;
    proof {
        assert(a.skip(0) =~= a);
        assert(b.skip(0) =~= b);
    }
    while i < p.len() && i < q.len() && p[i] == q[i]
        invariant
            a == texts(p@),
            b == texts(q@),
            i <= p@.len(),
            i <= q@.len(),
            path_lt(a, b) == path_lt(a.skip(i as int), b.skip(i as int)),
        decreases p@.len() - i,
    {
        proof {
            assert(a.skip(i as int).drop_first() =~= a.skip(i + 1));
            assert(b.skip(i as int).drop_first() =~= b.skip(i + 1));
            assert(a.skip(i as int)[0] == a[i as int]);
            assert(b.skip(i as int)[0] == b[i as int]);
        }
        i = i + 1;
    }
    if i == p.len() {
        proof {
            assert(a.skip(i as int).len() == 0);
        }
        i < q.len()
    } else if i == q.len() {
        proof {
            assert(b.skip(i as int).len() == 0);
        }
        false
    } else {
        proof {
            assert(a.skip(i as int)[0] == a[i as int]);
            assert(b.skip(i as int)[0] == b[i as int]);
        }
        text_before(&p[i], &q[i])
    }
}

fn paths_equal(p: &Vec<String>, q: &Vec<String>) -> (r: bool)
    ensures
        r == (texts(p@) == texts(q@)),
{
    if p.len() != q.len() {
        return false;
    }
    let mut i: usize = 0;
    while i < p.len()
        invariant
            p@.len() == q@.len(),
            i <= p@.len(),
            forall|j: int| 0 <= j < i ==> p@[j]@ == q@[j]@,
        decreases p@.len() - i,
    {
        if p[i] != q[i] {
            proof {
                assert(texts(p@)[i as int] != texts(q@)[i as int]);
            }
            return false;
        }
        i = i + 1;
    }
    proof {
        assert(texts(p@) =~= texts(q@));
    }
    true
}

fn edge_before(a: &CouplingEdge, b: &CouplingEdge) -> (r: bool)
    ensures
        r == edge_lt(edge_view(*a), edge_view(*b)),
{
    if text_before(&a.to, &b.to) {
        return true;
    }
    if a.to != b.to {
        return false;
    }
    if text_before(&a.from, &b.from) {
        return true;
    }
    if a.from != b.from {
        return false;
    }
    path_before(&a.path, &b.path)
}

fn copy_edge(e: &CouplingEdge) -> (c: CouplingEdge)
    ensures
        edge_view(c) == edge_view(*e),
{
    let mut path: Vec<String> = Vec::new();
    append_copies(&mut path, &e.path);
    proof {
        assert(texts(path@) =~= texts(e.path@));
    }
    CouplingEdge { from: e.from.clone(), to: e.to.clone(), reason: copy_reason(&e.reason), path }
}

fn insert_edge_into(v: &mut Vec<CouplingEdge>, e: CouplingEdge)
    ensures
        edges_view(final(v)@) == insert_edge(edges_view(old(v)@), edge_view(e)),
{
    let ghost t = edges_view(v@);
    let ghost x = edge_view(e);
    let mut p: usize = 0;
    proof {
        assert(t.skip(0) =~= t);
        assert(t.take(0) + t =~= t);
    }
    while p < v.len() && !edge_before(&e, &v[p])
        invariant
            t == edges_view(v@),
            x == edge_view(e),
            p <= v@.len(),
            insert_edge(t, x) == t.take(p as int) + insert_edge(t.skip(p as int), x),
        decreases v@.len() - p,
    {
        proof {
            let r = t.skip(p as int);
            assert(r[0] == t[p as int]);
            assert(r.drop_first() =~= t.skip(p + 1));
            assert(t.take(p + 1) =~= t.take(p as int).push(t[p as int]));
            assert(t.take(p as int) + (seq![t[p as int]] + insert_edge(t.skip(p + 1), x)) =~= t.take(p + 1)
                + insert_edge(t.skip(p + 1), x));
        }
        p = p + 1;
    }
    let ghost v0 = v@;
    v.insert(p, e);
    proof {
        if p < v0.len() {
            assert(t.skip(p as int)[0] == t[p as int]);
        } else {
            assert(t.skip(p as int) =~= Seq::<EdgeView>::empty());
        }
        assert(edges_view(v@) =~= t.take(p as int) + (seq![x] + t.skip(p as int)));
    }
}

fn sorted_edges(l: &Vec<CouplingEdge>) -> (r: Vec<CouplingEdge>)
    ensures
        edges_view(r@) == sort_edges(edges_view(l@)),
{
    let mut r: Vec<CouplingEdge> = Vec::new();
    let mut i: usize = 0;
    proof {
        assert(edges_view(l@).take(0) =~= Seq::<EdgeView>::empty());
        assert(edges_view(r@) =~= Seq::<EdgeView>::empty());
    }
    while i < l.len()
        invariant
            i <= l@.len(),
            edges_view(r@) == sort_edges(edges_view(l@).take(i as int)),
        decreases l@.len() - i,
    {
        let e = copy_edge(&l[i]);
        insert_edge_into(&mut r, e);
        proof {
            let t = edges_view(l@).take(i + 1);
            assert(t.drop_last() =~= edges_view(l@).take(i as int));
            assert(t.last() == edge_view(l@[i as int]));
        }
        i = i + 1;
    }
    proof {
        assert(edges_view(l@).take(i as int) =~= edges_view(l@));
    }
    r
}

fn deduplicated(l: Vec<CouplingEdge>) -> (r: Vec<CouplingEdge>)
    ensures
        edges_view(r@) == dedup_edges(edges_view(l@)),
{
    let mut r: Vec<CouplingEdge> = Vec::new();
    let mut i: usize = 0;
    proof {
        assert(edges_view(l@).take(0) =~= Seq::<EdgeView>::empty());
        assert(edges_view(r@) =~= Seq::<EdgeView>::empty());
    }
    while i < l.len()
        invariant
            i <= l@.len(),
            edges_view(r@) == dedup_edges(edges_view(l@).take(i as int)),
        decreases l@.len() - i,
    {
        let e = &l[i];
        let keep = if r.len() == 0 {
            true
        } else {
            let last = &r[r.len() - 1];
            !(last.from == e.from && last.to == e.to && paths_equal(&last.path, &e.path))
        };
        let ghost before = r@;
        if keep {
            let c = copy_edge(e);
            r.push(c);
            proof {
                assert(edges_view(r@) =~= edges_view(before).push(edge_view(*e)));
            }
        }
        proof {
            let t = edges_view(l@).take(i + 1);
            assert(t.drop_last() =~= edges_view(l@).take(i as int));
            assert(t.last() == edge_view(l@[i as int]));
            if before.len() > 0 {
                assert(edges_view(before).last() == edge_view(before.last()));
            }
        }
        i = i + 1;
    }
    proof {
        assert(edges_view(l@).take(i as int) =~= edges_view(l@));
    }
    r
}

/// `x` added, in order, to the increasing list `acc`, for each name of `l` in turn.
pub open spec fn insert_all(acc: Seq<Seq<char>>, l: Seq<Seq<char>>) -> Seq<Seq<char>>
    decreases l.len(),
{
    if l.len() == 0 {
        acc
    } else {
        insert_name(insert_all(acc, l.drop_last()), l.last())
    }
}

/// The names of the state and unknown fields, in increasing order, each once.
pub open spec fn unknown_names(fields: Seq<FieldDecl>) -> Seq<Seq<char>>
    decreases fields.len(),
{
    if fields.len() == 0 {
        seq![]
    } else if unknown_role(fields.last().role) {
        insert_name(unknown_names(fields.drop_last()), fields.last().name@)
    } else {
        unknown_names(fields.drop_last())
    }
}

/// The residual blocks: the names of the equations and of the forms, in increasing order,
/// each once.
pub open spec fn residual_names(m: ScientificModel) -> Seq<Seq<char>> {
    insert_all(
        seq![],
        m.equations@.map_values(|e: EquationDecl| e.name@) + m.forms@.map_values(|f: FormDecl| f.name@),
    )
}

/// Some edge runs from field `u` to residual `r`.
pub open spec fn has_edge(edges: Seq<EdgeView>, r: Seq<char>, u: Seq<char>) -> bool {
    exists|k: int| 0 <= k < edges.len() && (#[trigger] edges[k]).to == r && edges[k].from == u
}

/// For each residual, then each unknown: whether the block derivative is structurally
/// nonzero.
pub open spec fn derivative_grid(
    rs: Seq<Seq<char>>,
    us: Seq<Seq<char>>,
    edges: Seq<EdgeView>,
) -> Seq<(Seq<char>, Seq<char>, bool)>
    decreases rs.len(),
{
    if rs.len() == 0 {
        seq![]
    } else {
        derivative_grid(rs.drop_last(), us, edges) + us.map_values(
            |u: Seq<char>| (rs.last(), u, has_edge(edges, rs.last(), u)),
        )
    }
}

/// A coupling graph with names as texts.
pub struct CouplingView {
    pub unknowns: Seq<(Seq<char>, Seq<char>)>,
    pub residual_blocks: Seq<Seq<char>>,
    pub edges: Seq<EdgeView>,
    pub derivatives: Seq<(Seq<char>, Seq<char>, bool)>,
}

pub open spec fn graph_view(g: CouplingGraph) -> CouplingView {
    CouplingView {
        unknowns: g.unknowns@.map_values(|u: UnknownBlock| (u.name@, u.field@)),
        residual_blocks: texts(g.residual_blocks@),
        edges: edges_view(g.edges@),
        derivatives: g.derivatives@.map_values(
            |d: BlockDerivative| (d.residual@, d.unknown@, d.structurally_nonzero),
        ),
    }
}

/// The coupling graph of a model: its unknown fields, its residual blocks, the edges found by
/// tracing every name each residual uses through definitions down to unknown fields, ordered
/// and without repeats, and the block derivatives they make nonzero.
pub open spec fn coupling_graph_of(m: ScientificModel) -> CouplingView {
    let us = unknown_names(m.fields@);
    let rs = residual_names(m);
    let es = dedup_edges(sort_edges(traced_edges(m)));
    CouplingView {
        unknowns: us.map_values(|u: Seq<char>| (u, u)),
        residual_blocks: rs,
        edges: es,
        derivatives: derivative_grid(rs, us, es),
    }
}

// ---------------------------------------------------------------------------------------
// The reasons of the coupling graph.
// ---------------------------------------------------------------------------------------

/// A reason fits the model when the name it carries is defined by the kind of declaration it
/// names, and by no declaration that takes precedence: a valued value declaration for
/// `DefinedValueDependency`; a property, and no valued value declaration, for
/// `PropertyDependency`; a constitutive law, and neither of the others, for
/// `ConstitutiveDependency`. Tracing never gives `HistoryState`.
pub open spec fn reason_fits(m: ScientificModel, r: ReasonView) -> bool {
    match r {
        ReasonView::DefinedValueDependency(y) => valued_name(value_decls(m), y),
        ReasonView::PropertyDependency(y) => !valued_name(value_decls(m), y) && property_named(m.properties@, y),
        ReasonView::ConstitutiveDependency(y) => !valued_name(value_decls(m), y) && !property_named(m.properties@, y)
            && law_named(m.constitutive_laws@, y),
        ReasonView::HistoryState => false,
        _ => true,
    }
}

pub open spec fn edges_fit(m: ScientificModel, l: Seq<EdgeView>) -> bool {
    forall|k: int| 0 <= k < l.len() ==> reason_fits(m, (#[trigger] l[k]).reason)
}

pub open spec fn reason_opt_fits(m: ScientificModel, r: Option<ReasonView>) -> bool {
    match r {
        Some(x) => reason_fits(m, x),
        None => true,
    }
}

proof fn lemma_fit_concat(m: ScientificModel, a: Seq<EdgeView>, b: Seq<EdgeView>)
    requires
        edges_fit(m, a),
        edges_fit(m, b),
    ensures
        edges_fit(m, a + b),
{
    assert forall|k: int| 0 <= k < (a + b).len() implies reason_fits(m, (#[trigger] (a + b)[k]).reason) by {
        if k < a.len() {
            assert((a + b)[k] == a[k]);
        } else {
            assert((a + b)[k] == b[k - a.len()]);
        }
    }
}

proof fn lemma_trace_symbol_fits(
    m: ScientificModel,
    x: Seq<char>,
    res: Seq<char>,
    path: Seq<Seq<char>>,
    seen: Set<Seq<char>>,
    reason: Option<ReasonView>,
)
    requires
        reason_opt_fits(m, reason),
    ensures
        edges_fit(m, trace_symbol(m, x, res, path, seen, reason)),
    decreases defined_names(m).difference(seen).len(), 0nat, 0nat,
{
    if coupled_field(m, x) {
        let l = trace_symbol(m, x, res, path, seen, reason);
        assert(l.len() == 1);
        assert(reason_fits(m, l[0].reason));
    } else if !seen.contains(x) {
        match definition(m, x) {
            Some((r, e)) => {
                lemma_definition_reason(m, x);
                lemma_definition_named(m, x);
                lemma_unseen_shrinks(defined_names(m), seen, x);
                lemma_trace_names_fits(m, expr_names(e), 0, res, seq![x] + path, seen.insert(x), Some(r));
            },
            None => {},
        }
    }
}

proof fn lemma_trace_names_fits(
    m: ScientificModel,
    names: Seq<Seq<char>>,
    i: int,
    res: Seq<char>,
    path: Seq<Seq<char>>,
    seen: Set<Seq<char>>,
    reason: Option<ReasonView>,
)
    requires
        reason_opt_fits(m, reason),
    ensures
        edges_fit(m, trace_names(m, names, i, res, path, seen, reason)),
    decreases defined_names(m).difference(seen).len(), 1nat, (names.len() - i) as nat,
{
    if 0 <= i < names.len() {
        lemma_trace_symbol_fits(m, names[i], res, path, seen, reason);
        lemma_trace_names_fits(m, names, i + 1, res, path, seen, reason);
        lemma_fit_concat(
            m,
            trace_symbol(m, names[i], res, path, seen, reason),
            trace_names(m, names, i + 1, res, path, seen, reason),
        );
    }
}

proof fn lemma_equation_edges_fit(m: ScientificModel, j: int)
    ensures
        edges_fit(m, equation_edges(m, j)),
    decreases j,
{
    if j > 0 {
        lemma_equation_edges_fit(m, j - 1);
        let n = equation_names(m.equations@[j - 1]);
        lemma_trace_names_fits(m, n, 0, m.equations@[j - 1].name@, seq![], Set::empty(), None);
        lemma_fit_concat(m, equation_edges(m, j - 1), root_trace(m, n, m.equations@[j - 1].name@, None));
    }
}

proof fn lemma_integral_edges_fit(m: ScientificModel, f: FormDecl, k: int)
    ensures
        edges_fit(m, integral_edges(m, f, k)),
    decreases k,
{
    if k > 0 {
        lemma_integral_edges_fit(m, f, k - 1);
        let n = expr_names(f.integrals@[k - 1].integrand);
        lemma_trace_names_fits(m, n, 0, f.name@, seq![], Set::empty(), None);
        lemma_fit_concat(m, integral_edges(m, f, k - 1), root_trace(m, n, f.name@, None));
    }
}

proof fn lemma_form_edges_fit(m: ScientificModel, j: int)
    ensures
        edges_fit(m, form_edges(m, j)),
    decreases j,
{
    if j > 0 {
        lemma_form_edges_fit(m, j - 1);
        let f = m.forms@[j - 1];
        lemma_integral_edges_fit(m, f, f.integrals@.len() as int);
        lemma_fit_concat(m, form_edges(m, j - 1), integral_edges(m, f, f.integrals@.len() as int));
    }
}

proof fn lemma_condition_edges_fit(m: ScientificModel, cs: Seq<BoundaryConditionDecl>, j: int)
    ensures
        edges_fit(m, condition_edges(m, cs, j)),
    decreases j,
{
    if j > 0 {
        lemma_condition_edges_fit(m, cs, j - 1);
        let v = as_interface(
            root_trace(m, condition_names(cs[j - 1]), cs[j - 1].target@, Some(ReasonView::InterfaceTerm)),
        );
        assert(edges_fit(m, v)) by {
            assert forall|k: int| 0 <= k < v.len() implies reason_fits(m, (#[trigger] v[k]).reason) by {
                assert(v[k].reason == ReasonView::InterfaceTerm);
            }
        }
        lemma_fit_concat(m, condition_edges(m, cs, j - 1), v);
    }
}

proof fn lemma_insert_edge_fits(m: ScientificModel, l: Seq<EdgeView>, e: EdgeView)
    requires
        edges_fit(m, l),
        reason_fits(m, e.reason),
    ensures
        edges_fit(m, insert_edge(l, e)),
    decreases l.len(),
{
    if l.len() > 0 && !edge_lt(e, l[0]) {
        assert(edges_fit(m, l.drop_first())) by {
            assert forall|k: int| 0 <= k < l.drop_first().len() implies reason_fits(
                m,
                (#[trigger] l.drop_first()[k]).reason,
            ) by {
                assert(l.drop_first()[k] == l[k + 1]);
            }
        }
        lemma_insert_edge_fits(m, l.drop_first(), e);
        assert(edges_fit(m, seq![l[0]])) by {
            assert forall|k: int| 0 <= k < seq![l[0]].len() implies reason_fits(m, (#[trigger] seq![l[0]][k]).reason) by {
                assert(seq![l[0]][k] == l[0]);
            }
        }
        lemma_fit_concat(m, seq![l[0]], insert_edge(l.drop_first(), e));
    } else {
        assert(edges_fit(m, seq![e])) by {
            assert forall|k: int| 0 <= k < seq![e].len() implies reason_fits(m, (#[trigger] seq![e][k]).reason) by {
                assert(seq![e][k] == e);
            }
        }
        lemma_fit_concat(m, seq![e], l);
    }
}

proof fn lemma_sort_edges_fit(m: ScientificModel, l: Seq<EdgeView>)
    requires
        edges_fit(m, l),
    ensures
        edges_fit(m, sort_edges(l)),
    decreases l.len(),
{
    if l.len() > 0 {
        assert(edges_fit(m, l.drop_last())) by {
            assert forall|k: int| 0 <= k < l.drop_last().len() implies reason_fits(m, (#[trigger] l.drop_last()[k]).reason) by {
                assert(l.drop_last()[k] == l[k]);
            }
        }
        lemma_sort_edges_fit(m, l.drop_last());
        assert(reason_fits(m, l[l.len() - 1].reason));
        lemma_insert_edge_fits(m, sort_edges(l.drop_last()), l.last());
    }
}

proof fn lemma_dedup_edges_fit(m: ScientificModel, l: Seq<EdgeView>)
    requires
        edges_fit(m, l),
    ensures
        edges_fit(m, dedup_edges(l)),
    decreases l.len(),
{
    if l.len() > 0 {
        assert(edges_fit(m, l.drop_last())) by {
            assert forall|k: int| 0 <= k < l.drop_last().len() implies reason_fits(m, (#[trigger] l.drop_last()[k]).reason) by {
                assert(l.drop_last()[k] == l[k]);
            }
        }
        lemma_dedup_edges_fit(m, l.drop_last());
        let d = dedup_edges(l.drop_last());
        assert(reason_fits(m, l[l.len() - 1].reason));
        assert forall|k: int| 0 <= k < d.push(l.last()).len() implies reason_fits(m, (#[trigger] d.push(l.last())[k]).reason) by {
            if k < d.len() {
                assert(d.push(l.last())[k] == d[k]);
            }
        }
    }
}

/// Every edge of a model's coupling graph gives a reason that names the kind of declaration
/// through which the name was traced: `DefinedValueDependency(x)` only for a name that a
/// value declaration defines with a value; `PropertyDependency(x)` only for a name that a
/// property binds and no valued value declaration defines; `ConstitutiveDependency(x)` only
/// for a constitutive law's name that neither of those defines. The other reasons are a
/// direct use of a field or an interface term.
pub proof fn lemma_coupling_reasons(m: ScientificModel)
    ensures
        forall|k: int|
            0 <= k < coupling_graph_of(m).edges.len() ==> reason_fits(m, (#[trigger] coupling_graph_of(m).edges[k]).reason),
{
    lemma_equation_edges_fit(m, m.equations@.len() as int);
    lemma_form_edges_fit(m, m.forms@.len() as int);
    lemma_condition_edges_fit(m, conditions(m), conditions(m).len() as int);
    lemma_fit_concat(m, equation_edges(m, m.equations@.len() as int), form_edges(m, m.forms@.len() as int));
    lemma_fit_concat(
        m,
        equation_edges(m, m.equations@.len() as int) + form_edges(m, m.forms@.len() as int),
        condition_edges(m, conditions(m), conditions(m).len() as int),
    );
    lemma_sort_edges_fit(m, traced_edges(m));
    lemma_dedup_edges_fit(m, sort_edges(traced_edges(m)));
}

fn has_edge_exec(edges: &Vec<CouplingEdge>, r: &String, u: &String) -> (b: bool)
    ensures
        b == has_edge(edges_view(edges@), r@, u@),
{
    let mut k: usize = 0;
    while k < edges.len()
        invariant
            k <= edges@.len(),
            forall|j: int| 0 <= j < k ==> !((#[trigger] edges@[j]).to@ == r@ && edges@[j].from@ == u@),
        decreases edges@.len() - k,
    {
        if edges[k].to == *r && edges[k].from == *u {
            proof {
                assert(edges_view(edges@)[k as int].to == r@);
            }
            return true;
        }
        k = k + 1;
    }
    proof {
        if has_edge(edges_view(edges@), r@, u@) {
            let j = choose|j: int| 0 <= j < edges_view(edges@).len() && (#[trigger] edges_view(edges@)[j]).to == r@
                && edges_view(edges@)[j].from == u@;
            assert(edges@[j].to@ == r@);
        }
    }
    false
}

/// Derive the coupling graph of a model from the names its residuals use.
pub fn derive_coupling_graph(model: &ScientificModel) -> (g: CouplingGraph)
    ensures
        graph_view(g) == coupling_graph_of(*model),
{
    let ghost m = *model;
    // The unknown fields.
    let mut field_names: Vec<String> = Vec::new();
    let mut i: usize = 0;
    proof {
        assert(texts(field_names@) =~= Seq::<Seq<char>>::empty());
        assert(m.fields@.take(0) =~= Seq::<FieldDecl>::empty());
    }
    while i < model.fields.len()
        invariant
            m == *model,
            i <= m.fields@.len(),
            texts(field_names@) == unknown_names(m.fields@.take(i as int)),
        decreases m.fields@.len() - i,
    {
        let f = &model.fields[i];
        proof {
            assert(m.fields@.take(i + 1).drop_last() =~= m.fields@.take(i as int));
            assert(m.fields@.take(i + 1).last() == m.fields@[i as int]);
        }
        if matches!(f.role, FieldRole::State) || matches!(f.role, FieldRole::Unknown) {
            insert_text(&mut field_names, f.name.clone());
        }
        i = i + 1;
    }
    proof {
        assert(m.fields@.take(i as int) =~= m.fields@);
    }
    let mut unknowns: Vec<UnknownBlock> = Vec::new();
    let mut k: usize = 0;
    while k < field_names.len()
        invariant
            k <= field_names@.len(),
            unknowns@.len() == k,
            forall|j: int| 0 <= j < k ==> (#[trigger] unknowns@[j]).name@ == field_names@[j]@ && unknowns@[j].field@
                == field_names@[j]@,
        decreases field_names@.len() - k,
    {
        unknowns.push(UnknownBlock { name: field_names[k].clone(), field: field_names[k].clone() });
        k = k + 1;
    }
    // The residual blocks.
    let ghost all = m.equations@.map_values(|e: EquationDecl| e.name@) + m.forms@.map_values(|f: FormDecl| f.name@);
    let ghost ne = m.equations@.len();
    let mut residual_blocks: Vec<String> = Vec::new();
    let mut e: usize = 0;
    proof {
        assert(texts(residual_blocks@) =~= Seq::<Seq<char>>::empty());
        assert(all.take(0) =~= Seq::<Seq<char>>::empty());
    }
    while e < model.equations.len()
        invariant
            m == *model,
            ne == m.equations@.len(),
            all == m.equations@.map_values(|e: EquationDecl| e.name@) + m.forms@.map_values(|f: FormDecl| f.name@),
            e <= ne,
            texts(residual_blocks@) == insert_all(seq![], all.take(e as int)),
        decreases ne - e,
    {
        proof {
            assert(all.take(e + 1).drop_last() =~= all.take(e as int));
            assert(all.take(e + 1).last() == model.equations@[e as int].name@);
        }
        insert_text(&mut residual_blocks, model.equations[e].name.clone());
        e = e + 1;
    }
    let mut f: usize = 0;
    while f < model.forms.len()
        invariant
            m == *model,
            ne == m.equations@.len(),
            all == m.equations@.map_values(|e: EquationDecl| e.name@) + m.forms@.map_values(|f: FormDecl| f.name@),
            f <= m.forms@.len(),
            texts(residual_blocks@) == insert_all(seq![], all.take(ne + f)),
        decreases m.forms@.len() - f,
    {
        proof {
            assert(all.take(ne + f + 1).drop_last() =~= all.take(ne + f));
            assert(all.take(ne + f + 1).last() == model.forms@[f as int].name@);
        }
        insert_text(&mut residual_blocks, model.forms[f].name.clone());
        f = f + 1;
    }
    proof {
        assert(all.take(ne + f) =~= all);
    }
    // The edges.
    let traced = trace_uses(model);
    let edges = deduplicated(sorted_edges(&traced));
    // The derivatives.
    let ghost us = texts(field_names@);
    let ghost es = edges_view(edges@);
    let mut derivatives: Vec<BlockDerivative> = Vec::new();
    let mut r: usize = 0;
    proof {
        assert(texts(residual_blocks@).take(0) =~= Seq::<Seq<char>>::empty());
        assert(derivatives@.map_values(|d: BlockDerivative| (d.residual@, d.unknown@, d.structurally_nonzero))
            =~= derivative_grid(texts(residual_blocks@).take(0), us, es));
    }
    while r < residual_blocks.len()
        invariant
            us == texts(field_names@),
            es == edges_view(edges@),
            r <= residual_blocks@.len(),
            derivatives@.map_values(|d: BlockDerivative| (d.residual@, d.unknown@, d.structurally_nonzero))
                == derivative_grid(texts(residual_blocks@).take(r as int), us, es),
        decreases residual_blocks@.len() - r,
    {
        let ghost d0 = derivatives@.map_values(|d: BlockDerivative| (d.residual@, d.unknown@, d.structurally_nonzero));
        let ghost rr = residual_blocks@[r as int]@;
        let ghost row = us.map_values(|u: Seq<char>| (rr, u, has_edge(es, rr, u)));
        let mut u: usize = 0;
        proof {
            assert(derivatives@.map_values(|d: BlockDerivative| (d.residual@, d.unknown@, d.structurally_nonzero))
                =~= d0 + row.take(0));
        }
        while u < field_names.len()
            invariant
                us == texts(field_names@),
                es == edges_view(edges@),
                r < residual_blocks@.len(),
                rr == residual_blocks@[r as int]@,
                row == us.map_values(|u: Seq<char>| (rr, u, has_edge(es, rr, u))),
                u <= field_names@.len(),
                derivatives@.map_values(|d: BlockDerivative| (d.residual@, d.unknown@, d.structurally_nonzero))
                    == d0 + row.take(u as int),
            decreases field_names@.len() - u,
        {
            let nonzero = has_edge_exec(&edges, &residual_blocks[r], &field_names[u]);
            let d = BlockDerivative {
                residual: residual_blocks[r].clone(),
                unknown: field_names[u].clone(),
                structurally_nonzero: nonzero,
            };
            let ghost before = derivatives@;
            derivatives.push(d);
            proof {
                assert(derivatives@.map_values(|d: BlockDerivative| (d.residual@, d.unknown@, d.structurally_nonzero))
                    =~= before.map_values(|d: BlockDerivative| (d.residual@, d.unknown@, d.structurally_nonzero)).push(
                    (d.residual@, d.unknown@, d.structurally_nonzero),
                ));
                assert(row.take(u + 1) =~= row.take(u as int).push(row[u as int]));
                assert(d0 + row.take(u + 1) =~= (d0 + row.take(u as int)).push(row[u as int]));
            }
            u = u + 1;
        }
        proof {
            let t = texts(residual_blocks@).take(r + 1);
            assert(t.drop_last() =~= texts(residual_blocks@).take(r as int));
            assert(t.last() == rr);
            assert(row.take(u as int) =~= row);
        }
        r = r + 1;
    }
    proof {
        assert(texts(residual_blocks@).take(r as int) =~= texts(residual_blocks@));
        assert(unknowns@.map_values(|u: UnknownBlock| (u.name@, u.field@)) =~= us.map_values(|u: Seq<char>| (u, u)));
    }
    CouplingGraph { unknowns, residual_blocks, edges, derivatives }
}

} // verus!
