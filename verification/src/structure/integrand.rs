//! Integrand expressions as the structure analysis reads them: relabelling inputs and axes,
//! splitting off an overall sign, equivalence up to commutativity, and polynomial degree in
//! the active inputs.

use vstd::prelude::*;
use crate::{lemma_injection_onto, reached};
use crate::tensor::{
    ScalarTerm, TensorAxis, TensorAxisId, TensorBinaryOp, TensorInputId, TensorScalarExpr,
    TensorUnaryOp, copy_axes,
};

verus! {

/// A term with every input read through `f`.
pub open spec fn map_inputs(e: ScalarTerm, f: spec_fn(TensorInputId) -> TensorInputId) -> ScalarTerm
    decreases e,
{
    match e {
        ScalarTerm::Input { input, indices } => ScalarTerm::Input { input: f(input), indices },
        ScalarTerm::Unary { op, arg } => ScalarTerm::Unary { op, arg: Box::new(map_inputs(*arg, f)) },
        ScalarTerm::Binary { op, lhs, rhs } => ScalarTerm::Binary {
            op,
            lhs: Box::new(map_inputs(*lhs, f)),
            rhs: Box::new(map_inputs(*rhs, f)),
        },
        ScalarTerm::Reduction { op, axis, expression } => ScalarTerm::Reduction {
            op,
            axis,
            expression: Box::new(map_inputs(*expression, f)),
        },
        _ => e,
    }
}

/// The exchange of two inputs, every other input kept.
pub open spec fn exchange(a: TensorInputId, b: TensorInputId) -> spec_fn(TensorInputId) -> TensorInputId {
    |i: TensorInputId| if i == a { b } else if i == b { a } else { i }
}

/// The expression with inputs `a` and `b` exchanged.
pub fn swap_ids(expr: &TensorScalarExpr, a: TensorInputId, b: TensorInputId) -> (r: TensorScalarExpr)
    ensures
        r@ == map_inputs(expr@, exchange(a, b)),
    decreases expr,
{
    match expr {
        TensorScalarExpr::Constant { bits } => TensorScalarExpr::Constant { bits: *bits },
        TensorScalarExpr::Input { input, indices } => TensorScalarExpr::Input {
            input: if *input == a {
                b
            } else if *input == b {
                a
            } else {
                *input
            },
            indices: copy_axes(indices),
        },
        TensorScalarExpr::Unary { op, arg } => TensorScalarExpr::Unary {
            op: *op,
            arg: Box::new(swap_ids(arg, a, b)),
        },
        TensorScalarExpr::Binary { op, lhs, rhs } => TensorScalarExpr::Binary {
            op: *op,
            lhs: Box::new(swap_ids(lhs, a, b)),
            rhs: Box::new(swap_ids(rhs, a, b)),
        },
        TensorScalarExpr::IndexEqual { lhs, rhs } => TensorScalarExpr::IndexEqual { lhs: *lhs, rhs: *rhs },
        TensorScalarExpr::Reduction { op, axis, expression } => TensorScalarExpr::Reduction {
            op: *op,
            axis: *axis,
            expression: Box::new(swap_ids(expression, a, b)),
        },
    }
}

/// Relabelling inputs through `f` and then through `g` is relabelling through `g` after `f`.
pub proof fn lemma_map_inputs_compose(
    e: ScalarTerm,
    f: spec_fn(TensorInputId) -> TensorInputId,
    g: spec_fn(TensorInputId) -> TensorInputId,
)
    ensures
        map_inputs(map_inputs(e, f), g) == map_inputs(e, |i: TensorInputId| g(f(i))),
    decreases e,
{
    match e {
        ScalarTerm::Unary { arg, .. } => lemma_map_inputs_compose(*arg, f, g),
        ScalarTerm::Binary { lhs, rhs, .. } => {
            lemma_map_inputs_compose(*lhs, f, g);
            lemma_map_inputs_compose(*rhs, f, g);
        },
        ScalarTerm::Reduction { expression, .. } => lemma_map_inputs_compose(*expression, f, g),
        _ => {},
    }
}

/// Relabelling every input to itself leaves a term unchanged.
pub proof fn lemma_map_inputs_identity(e: ScalarTerm, f: spec_fn(TensorInputId) -> TensorInputId)
    requires
        forall|i: TensorInputId| #[trigger] f(i) == i,
    ensures
        map_inputs(e, f) == e,
    decreases e,
{
    match e {
        ScalarTerm::Unary { arg, .. } => lemma_map_inputs_identity(*arg, f),
        ScalarTerm::Binary { lhs, rhs, .. } => {
            lemma_map_inputs_identity(*lhs, f);
            lemma_map_inputs_identity(*rhs, f);
        },
        ScalarTerm::Reduction { expression, .. } => lemma_map_inputs_identity(*expression, f),
        _ => {},
    }
}

/// Exchanging the same two inputs twice gives the term back.
pub proof fn lemma_swap_ids_involution(e: ScalarTerm, a: TensorInputId, b: TensorInputId)
    ensures
        map_inputs(map_inputs(e, exchange(a, b)), exchange(a, b)) == e,
{
    let g = |i: TensorInputId| exchange(a, b)(exchange(a, b)(i));
    lemma_map_inputs_compose(e, exchange(a, b), exchange(a, b));
    lemma_map_inputs_identity(e, g);
}

/// The relabelling that a list of (from, to) entries gives an input: that of the first entry
/// from `k` on that names it, or the input itself when none does.
pub open spec fn relabel_from(map: Seq<(TensorInputId, TensorInputId)>, k: int, i: TensorInputId) -> TensorInputId
    decreases map.len() - k,
{
    if k < 0 || k >= map.len() {
        i
    } else if map[k].0 == i {
        map[k].1
    } else {
        relabel_from(map, k + 1, i)
    }
}

/// The relabelling of a whole list of entries.
pub open spec fn relabelling(map: Seq<(TensorInputId, TensorInputId)>) -> spec_fn(TensorInputId) -> TensorInputId {
    |i: TensorInputId| relabel_from(map, 0, i)
}

fn relabel_one(map: &[(TensorInputId, TensorInputId)], i: TensorInputId) -> (r: TensorInputId)
    ensures
        r == relabel_from(map@, 0, i),
{
    let mut k: usize = 0;
    while k < map.len()
        invariant
            k <= map@.len(),
            relabel_from(map@, 0, i) == relabel_from(map@, k as int, i),
        decreases map@.len() - k,
    {
        if map[k].0 == i {
            return map[k].1;
        }
        k = k + 1;
    }
    i
}

/// The expression with every input relabelled through `map`, a list of (from, to) entries of
/// which the first that names an input decides; an input that no entry names is kept.
pub fn relabel_inputs(expr: &TensorScalarExpr, map: &[(TensorInputId, TensorInputId)]) -> (r: TensorScalarExpr)
    ensures
        r@ == map_inputs(expr@, relabelling(map@)),
    decreases expr,
{
    match expr {
        TensorScalarExpr::Constant { bits } => TensorScalarExpr::Constant { bits: *bits },
        TensorScalarExpr::Input { input, indices } => TensorScalarExpr::Input {
            input: relabel_one(map, *input),
            indices: copy_axes(indices),
        },
        TensorScalarExpr::Unary { op, arg } => TensorScalarExpr::Unary {
            op: *op,
            arg: Box::new(relabel_inputs(arg, map)),
        },
        TensorScalarExpr::Binary { op, lhs, rhs } => TensorScalarExpr::Binary {
            op: *op,
            lhs: Box::new(relabel_inputs(lhs, map)),
            rhs: Box::new(relabel_inputs(rhs, map)),
        },
        TensorScalarExpr::IndexEqual { lhs, rhs } => TensorScalarExpr::IndexEqual { lhs: *lhs, rhs: *rhs },
        TensorScalarExpr::Reduction { op, axis, expression } => TensorScalarExpr::Reduction {
            op: *op,
            axis: *axis,
            expression: Box::new(relabel_inputs(expression, map)),
        },
    }
}

/// The axes of a term in the order a pre-order walk meets them, with repetitions.
pub open spec fn axis_order(e: ScalarTerm) -> Seq<TensorAxisId>
    decreases e,
{
    match e {
        ScalarTerm::Input { indices, .. } => indices,
        ScalarTerm::IndexEqual { lhs, rhs } => seq![lhs, rhs],
        ScalarTerm::Unary { arg, .. } => axis_order(*arg),
        ScalarTerm::Binary { lhs, rhs, .. } => axis_order(*lhs) + axis_order(*rhs),
        ScalarTerm::Reduction { axis, expression, .. } => seq![axis.id] + axis_order(*expression),
        ScalarTerm::Constant { .. } => seq![],
    }
}

/// `seen` followed by the axes of `s` that it does not hold yet, each once, in the order of
/// their first appearance in `s`.
pub open spec fn first_seen(seen: Seq<TensorAxisId>, s: Seq<TensorAxisId>) -> Seq<TensorAxisId>
    decreases s.len(),
{
    if s.len() == 0 {
        seen
    } else {
        first_seen(if seen.contains(s[0]) { seen } else { seen.push(s[0]) }, s.drop_first())
    }
}

/// The canonical id of an axis: the position at which `seen` holds it.
pub open spec fn canonical_axis(seen: Seq<TensorAxisId>) -> spec_fn(TensorAxisId) -> TensorAxisId {
    |a: TensorAxisId| TensorAxisId(seen.index_of(a) as u32)
}

/// A term with every axis renamed through `f`.
pub open spec fn map_axes(e: ScalarTerm, f: spec_fn(TensorAxisId) -> TensorAxisId) -> ScalarTerm
    decreases e,
{
    match e {
        ScalarTerm::Input { input, indices } => ScalarTerm::Input { input, indices: indices.map_values(f) },
        ScalarTerm::IndexEqual { lhs, rhs } => ScalarTerm::IndexEqual { lhs: f(lhs), rhs: f(rhs) },
        ScalarTerm::Unary { op, arg } => ScalarTerm::Unary { op, arg: Box::new(map_axes(*arg, f)) },
        ScalarTerm::Binary { op, lhs, rhs } => ScalarTerm::Binary {
            op,
            lhs: Box::new(map_axes(*lhs, f)),
            rhs: Box::new(map_axes(*rhs, f)),
        },
        ScalarTerm::Reduction { op, axis, expression } => ScalarTerm::Reduction {
            op,
            axis: TensorAxis { id: f(axis.id), ..axis },
            expression: Box::new(map_axes(*expression, f)),
        },
        ScalarTerm::Constant { .. } => e,
    }
}

proof fn lemma_first_seen(seen: Seq<TensorAxisId>, s: Seq<TensorAxisId>)
    ensures
        seen.len() <= first_seen(seen, s).len(),
        first_seen(seen, s).subrange(0, seen.len() as int) == seen,
        seen.no_duplicates() ==> first_seen(seen, s).no_duplicates(),
        forall|x: TensorAxisId| #[trigger] first_seen(seen, s).contains(x) <==> (seen.contains(x) || s.contains(x)),
    decreases s.len(),
{
    if s.len() > 0 {
        let next = if seen.contains(s[0]) { seen } else { seen.push(s[0]) };
        lemma_first_seen(next, s.drop_first());
        assert(next.subrange(0, seen.len() as int) =~= seen);
        let r = first_seen(seen, s);
        assert(r.subrange(0, seen.len() as int) =~= next.subrange(0, next.len() as int).subrange(0, seen.len() as int));
        assert forall|x: TensorAxisId| #[trigger] r.contains(x) <==> (seen.contains(x) || s.contains(x)) by {
            if s.contains(x) && !s.drop_first().contains(x) {
                let j = choose|j: int| 0 <= j < s.len() && s[j] == x;
                if j > 0 {
                    assert(s.drop_first()[j - 1] == x);
                }
                assert(next.contains(s[0])) by {
                    if !seen.contains(s[0]) {
                        assert(next[seen.len() as int] == s[0]);
                    }
                }
            }
            if s.drop_first().contains(x) {
                let j = choose|j: int| 0 <= j < s.drop_first().len() && s.drop_first()[j] == x;
                assert(s[j + 1] == x);
            }
            if next.contains(x) && !seen.contains(x) {
                let j = choose|j: int| 0 <= j < next.len() && next[j] == x;
                assert(s[0] == x);
            }
            if seen.contains(x) {
                let j = choose|j: int| 0 <= j < seen.len() && seen[j] == x;
                assert(next[j] == x);
            }
        }
    } else {
        assert(seen.subrange(0, seen.len() as int) =~= seen);
    }
}

proof fn lemma_first_seen_append(seen: Seq<TensorAxisId>, s1: Seq<TensorAxisId>, s2: Seq<TensorAxisId>)
    ensures
        first_seen(seen, s1 + s2) == first_seen(first_seen(seen, s1), s2),
    decreases s1.len(),
{
    if s1.len() == 0 {
        assert(s1 + s2 =~= s2);
    } else {
        let next = if seen.contains(s1[0]) { seen } else { seen.push(s1[0]) };
        assert((s1 + s2)[0] == s1[0]);
        assert((s1 + s2).drop_first() =~= s1.drop_first() + s2);
        lemma_first_seen_append(next, s1.drop_first(), s2);
    }
}

proof fn lemma_index_in_prefix(short: Seq<TensorAxisId>, long: Seq<TensorAxisId>, x: TensorAxisId)
    requires
        short.len() <= long.len(),
        long.subrange(0, short.len() as int) == short,
        long.no_duplicates(),
        short.contains(x),
    ensures
        long.index_of(x) == short.index_of(x),
        0 <= short.index_of(x) < short.len(),
        short[short.index_of(x)] == x,
{
    let i = short.index_of(x);
    assert(long.subrange(0, short.len() as int)[i] == long[i]);
    assert(long.contains(x));
    let j = long.index_of(x);
}

proof fn lemma_map_axes_agree(e: ScalarTerm, f: spec_fn(TensorAxisId) -> TensorAxisId, g: spec_fn(TensorAxisId) -> TensorAxisId)
    requires
        forall|a: TensorAxisId| axis_order(e).contains(a) ==> #[trigger] f(a) == g(a),
    ensures
        map_axes(e, f) == map_axes(e, g),
    decreases e,
{
    match e {
        ScalarTerm::Input { indices, .. } => {
            assert forall|k: int| 0 <= k < indices.len() implies #[trigger] f(indices[k]) == g(indices[k]) by {
                assert(axis_order(e).contains(indices[k]));
            }
            assert(indices.map_values(f) =~= indices.map_values(g));
        },
        ScalarTerm::IndexEqual { lhs, rhs } => {
            assert(axis_order(e)[0] == lhs);
            assert(axis_order(e)[1] == rhs);
        },
        ScalarTerm::Unary { arg, .. } => lemma_map_axes_agree(*arg, f, g),
        ScalarTerm::Binary { lhs, rhs, .. } => {
            assert forall|a: TensorAxisId| axis_order(*lhs).contains(a) implies #[trigger] f(a) == g(a) by {
                let j = choose|j: int| 0 <= j < axis_order(*lhs).len() && axis_order(*lhs)[j] == a;
                assert(axis_order(e)[j] == a);
            }
            assert forall|a: TensorAxisId| axis_order(*rhs).contains(a) implies #[trigger] f(a) == g(a) by {
                let j = choose|j: int| 0 <= j < axis_order(*rhs).len() && axis_order(*rhs)[j] == a;
                assert(axis_order(e)[axis_order(*lhs).len() + j] == a);
            }
            lemma_map_axes_agree(*lhs, f, g);
            lemma_map_axes_agree(*rhs, f, g);
        },
        ScalarTerm::Reduction { axis, expression, .. } => {
            assert(axis_order(e)[0] == axis.id);
            assert forall|a: TensorAxisId| axis_order(*expression).contains(a) implies #[trigger] f(a) == g(a) by {
                let j = choose|j: int| 0 <= j < axis_order(*expression).len() && axis_order(*expression)[j] == a;
                assert(axis_order(e)[1 + j] == a);
            }
            lemma_map_axes_agree(*expression, f, g);
        },
        ScalarTerm::Constant { .. } => {},
    }
}

/// The canonical id of `axis`, entering it into `seen` at the next position when it is new.
fn canonical(axis: TensorAxisId, seen: &mut Vec<TensorAxisId>) -> (id: TensorAxisId)
    requires
        old(seen)@.no_duplicates(),
    ensures
        final(seen)@ == first_seen(old(seen)@, seq![axis]),
        final(seen)@.no_duplicates(),
        final(seen)@.contains(axis),
        id == canonical_axis(final(seen)@)(axis),
{
    proof {
        lemma_first_seen(old(seen)@, seq![axis]);
        assert(seq![axis].drop_first() =~= Seq::<TensorAxisId>::empty());
        assert(seq![axis].contains(axis));
        let next = if old(seen)@.contains(axis) { old(seen)@ } else { old(seen)@.push(axis) };
        assert(first_seen(next, Seq::<TensorAxisId>::empty()) == next);
        assert(first_seen(old(seen)@, seq![axis]) == next);
    }
    let mut k: usize = 0;
    while k < seen.len()
        invariant
            k <= seen@.len(),
            seen@ == old(seen)@,
            seen@.no_duplicates(),
            forall|j: int| 0 <= j < k ==> seen@[j] != axis,
            first_seen(old(seen)@, seq![axis])
                == (if old(seen)@.contains(axis) { old(seen)@ } else { old(seen)@.push(axis) }),
        decreases seen@.len() - k,
    {
        if seen[k] == axis {
            proof {
                assert(seen@.contains(axis));
                let j = seen@.index_of(axis);
                assert(j == k);
            }
            return TensorAxisId(#[verifier::truncate] (k as u32));
        }
        k = k + 1;
    }
    let next = seen.len();
    seen.push(axis);
    proof {
        assert(!old(seen)@.contains(axis));
        assert(seen@[next as int] == axis);
        let j = seen@.index_of(axis);
        assert(j == next);
    }
    TensorAxisId(#[verifier::truncate] (next as u32))
}

/// The expression with its axes renumbered by first appearance in a pre-order walk: the axis
/// that `seen` holds at position `i` becomes axis `i`, and an axis met for the first time is
/// entered at the next position. Two programs that allocated their axes in different orders
/// then read alike wherever their index structure agrees.
pub fn relabel_axes(expr: &TensorScalarExpr, seen: &mut Vec<TensorAxisId>) -> (r: TensorScalarExpr)
    requires
        old(seen)@.no_duplicates(),
    ensures
        final(seen)@ == first_seen(old(seen)@, axis_order(expr@)),
        final(seen)@.no_duplicates(),
        r@ == map_axes(expr@, canonical_axis(final(seen)@)),
    decreases expr,
{
    let ghost before = seen@;
    proof {
        lemma_first_seen(before, axis_order(expr@));
    }
    match expr {
        TensorScalarExpr::Constant { bits } => TensorScalarExpr::Constant { bits: *bits },
        TensorScalarExpr::Input { input, indices } => {
            let mut out: Vec<TensorAxisId> = Vec::new();
            let mut k: usize = 0;
            while k < indices.len()
                invariant
                    k <= indices@.len(),
                    seen@ == first_seen(before, indices@.take(k as int)),
                    seen@.no_duplicates(),
                    out@ == indices@.take(k as int).map_values(canonical_axis(seen@)),
                    before.no_duplicates(),
                decreases indices@.len() - k,
            {
                let ghost mid = seen@;
                let id = canonical(indices[k], seen);
                proof {
                    lemma_first_seen(before, indices@.take(k as int));
                    lemma_first_seen(mid, seq![indices@[k as int]]);
                    lemma_first_seen_append(before, indices@.take(k as int), seq![indices@[k as int]]);
                    assert(indices@.take(k as int) + seq![indices@[k as int]] =~= indices@.take(k + 1));
                    assert forall|j: int| 0 <= j < k implies #[trigger] canonical_axis(mid)(indices@[j])
                        == canonical_axis(seen@)(indices@[j]) by {
                        assert(indices@.take(k as int).contains(indices@[j])) by {
                            assert(indices@.take(k as int)[j] == indices@[j]);
                        }
                        lemma_index_in_prefix(mid, seen@, indices@[j]);
                    }
                }
                out.push(id);
                k = k + 1;
                proof {
                    assert(out@ =~= indices@.take(k as int).map_values(canonical_axis(seen@)));
                }
            }
            proof {
                assert(indices@.take(indices@.len() as int) =~= indices@);
            }
            TensorScalarExpr::Input { input: *input, indices: out }
        },
        TensorScalarExpr::Unary { op, arg } => TensorScalarExpr::Unary {
            op: *op,
            arg: Box::new(relabel_axes(arg, seen)),
        },
        TensorScalarExpr::Binary { op, lhs, rhs } => {
            let l = relabel_axes(lhs, seen);
            let ghost mid = seen@;
            let r = relabel_axes(rhs, seen);
            proof {
                lemma_first_seen_append(before, axis_order(lhs@), axis_order(rhs@));
                lemma_first_seen(before, axis_order(lhs@));
                lemma_first_seen(mid, axis_order(rhs@));
                assert forall|a: TensorAxisId| axis_order(lhs@).contains(a) implies
                    #[trigger] canonical_axis(mid)(a) == canonical_axis(seen@)(a) by {
                    lemma_index_in_prefix(mid, seen@, a);
                }
                lemma_map_axes_agree(lhs@, canonical_axis(mid), canonical_axis(seen@));
            }
            TensorScalarExpr::Binary { op: *op, lhs: Box::new(l), rhs: Box::new(r) }
        },
        TensorScalarExpr::IndexEqual { lhs, rhs } => {
            let l = canonical(*lhs, seen);
            let ghost mid = seen@;
            let r = canonical(*rhs, seen);
            proof {
                lemma_first_seen_append(before, seq![*lhs], seq![*rhs]);
                assert(seq![*lhs] + seq![*rhs] =~= seq![*lhs, *rhs]);
                lemma_first_seen(mid, seq![*rhs]);
                lemma_index_in_prefix(mid, seen@, *lhs);
            }
            TensorScalarExpr::IndexEqual { lhs: l, rhs: r }
        },
        TensorScalarExpr::Reduction { op, axis, expression } => {
            let id = canonical(axis.id, seen);
            let ghost mid = seen@;
            let inner = relabel_axes(expression, seen);
            proof {
                lemma_first_seen_append(before, seq![axis.id], axis_order(expression@));
                lemma_first_seen(mid, axis_order(expression@));
                lemma_index_in_prefix(mid, seen@, axis.id);
            }
            TensorScalarExpr::Reduction {
                op: *op,
                axis: TensorAxis { id, ..*axis },
                expression: Box::new(inner),
            }
        },
    }
}

/// An axis renaming that sends no two axes to one.
pub open spec fn injective_axes(f: spec_fn(TensorAxisId) -> TensorAxisId) -> bool {
    forall|a: TensorAxisId, b: TensorAxisId| #[trigger] f(a) == #[trigger] f(b) ==> a == b
}

proof fn lemma_axis_order_map(e: ScalarTerm, f: spec_fn(TensorAxisId) -> TensorAxisId)
    ensures
        axis_order(map_axes(e, f)) == axis_order(e).map_values(f),
    decreases e,
{
    match e {
        ScalarTerm::Input { indices, .. } => {},
        ScalarTerm::IndexEqual { lhs, rhs } => {
            assert(seq![lhs, rhs].map_values(f) =~= seq![f(lhs), f(rhs)]);
        },
        ScalarTerm::Unary { arg, .. } => lemma_axis_order_map(*arg, f),
        ScalarTerm::Binary { lhs, rhs, .. } => {
            lemma_axis_order_map(*lhs, f);
            lemma_axis_order_map(*rhs, f);
            assert((axis_order(*lhs) + axis_order(*rhs)).map_values(f) =~= axis_order(*lhs).map_values(f)
                + axis_order(*rhs).map_values(f));
        },
        ScalarTerm::Reduction { axis, expression, .. } => {
            lemma_axis_order_map(*expression, f);
            assert((seq![axis.id] + axis_order(*expression)).map_values(f) =~= seq![f(axis.id)] + axis_order(
                *expression,
            ).map_values(f));
        },
        ScalarTerm::Constant { .. } => {
            assert(Seq::<TensorAxisId>::empty().map_values(f) =~= Seq::<TensorAxisId>::empty());
        },
    }
}

proof fn lemma_first_seen_map(seen: Seq<TensorAxisId>, s: Seq<TensorAxisId>, f: spec_fn(TensorAxisId) -> TensorAxisId)
    requires
        injective_axes(f),
    ensures
        first_seen(seen.map_values(f), s.map_values(f)) == first_seen(seen, s).map_values(f),
    decreases s.len(),
{
    if s.len() > 0 {
        let x = s[0];
        let next = if seen.contains(x) { seen } else { seen.push(x) };
        assert(seen.map_values(f).contains(f(x)) <==> seen.contains(x)) by {
            if seen.map_values(f).contains(f(x)) {
                let i = choose|i: int| 0 <= i < seen.len() && seen.map_values(f)[i] == f(x);
                assert(f(seen[i]) == f(x));
            }
            if seen.contains(x) {
                let i = choose|i: int| 0 <= i < seen.len() && seen[i] == x;
                assert(seen.map_values(f)[i] == f(x));
            }
        }
        assert(seen.push(x).map_values(f) =~= seen.map_values(f).push(f(x)));
        assert(s.map_values(f)[0] == f(x));
        assert(s.map_values(f).drop_first() =~= s.drop_first().map_values(f));
        lemma_first_seen_map(next, s.drop_first(), f);
    }
}

proof fn lemma_map_axes_compose(e: ScalarTerm, f: spec_fn(TensorAxisId) -> TensorAxisId, g: spec_fn(TensorAxisId) -> TensorAxisId)
    ensures
        map_axes(map_axes(e, f), g) == map_axes(e, |a: TensorAxisId| g(f(a))),
    decreases e,
{
    match e {
        ScalarTerm::Input { indices, .. } => {
            assert(indices.map_values(f).map_values(g) =~= indices.map_values(|a: TensorAxisId| g(f(a))));
        },
        ScalarTerm::Unary { arg, .. } => lemma_map_axes_compose(*arg, f, g),
        ScalarTerm::Binary { lhs, rhs, .. } => {
            lemma_map_axes_compose(*lhs, f, g);
            lemma_map_axes_compose(*rhs, f, g);
        },
        ScalarTerm::Reduction { expression, .. } => lemma_map_axes_compose(*expression, f, g),
        _ => {},
    }
}

/// Renumbering axes by first appearance forgets how they were allocated: a term whose axes
/// were renamed one-to-one renumbers to the same term as before the renaming, starting from an empty
/// table.
pub proof fn lemma_relabel_axes_forgets_allocation(e: ScalarTerm, f: spec_fn(TensorAxisId) -> TensorAxisId)
    requires
        injective_axes(f),
    ensures
        map_axes(
            map_axes(e, f),
            canonical_axis(first_seen(Seq::empty(), axis_order(map_axes(e, f)))),
        ) == map_axes(e, canonical_axis(first_seen(Seq::empty(), axis_order(e)))),
{
    let s1 = first_seen(Seq::empty(), axis_order(e));
    let s2 = first_seen(Seq::empty(), axis_order(map_axes(e, f)));
    lemma_axis_order_map(e, f);
    assert(Seq::<TensorAxisId>::empty().map_values(f) =~= Seq::<TensorAxisId>::empty());
    lemma_first_seen_map(Seq::empty(), axis_order(e), f);
    assert(s2 == s1.map_values(f));
    lemma_first_seen(Seq::empty(), axis_order(e));
    lemma_map_axes_compose(e, f, canonical_axis(s2));
    let h = |a: TensorAxisId| canonical_axis(s2)(f(a));
    assert forall|a: TensorAxisId| axis_order(e).contains(a) implies #[trigger] h(a) == canonical_axis(s1)(a) by {
        assert(s1.contains(a));
        let i = s1.index_of(a);
        assert(s1[i] == a);
        assert(s2[i] == f(a));
        assert(s2.contains(f(a)));
        let j = s2.index_of(f(a));
        assert(f(s1[j]) == f(a));
    }
    lemma_map_axes_agree(e, h, canonical_axis(s1));
}

/// Whether an IEEE 754 binary64 bit pattern holds a value below zero: its sign is set, and it
/// is neither negative zero nor a NaN (negative infinity is below zero).
pub open spec fn below_zero(bits: u64) -> bool {
    0x8000_0000_0000_0000 < bits <= 0xFFF0_0000_0000_0000
}

/// The overall sign of a product or negation tree and the sign-free core that remains: a
/// negative constant and a negation contribute `-1`, products and quotients multiply the signs
/// of their operands, a reduction passes its body's sign through, and anything else (a sum,
/// for one) carries sign `+1` unchanged.
pub open spec fn sign_split(e: ScalarTerm) -> (int, ScalarTerm)
    decreases e,
{
    match e {
        ScalarTerm::Constant { bits } => if below_zero(bits) {
            (-1, ScalarTerm::Constant { bits: (bits - 0x8000_0000_0000_0000) as u64 })
        } else {
            (1, e)
        },
        ScalarTerm::Unary { op, arg } => if op == TensorUnaryOp::Neg {
            (-sign_split(*arg).0, sign_split(*arg).1)
        } else {
            (1, e)
        },
        ScalarTerm::Binary { op, lhs, rhs } => if op == TensorBinaryOp::Mul || op == TensorBinaryOp::Div {
            (
                sign_split(*lhs).0 * sign_split(*rhs).0,
                ScalarTerm::Binary {
                    op,
                    lhs: Box::new(sign_split(*lhs).1),
                    rhs: Box::new(sign_split(*rhs).1),
                },
            )
        } else {
            (1, e)
        },
        ScalarTerm::Reduction { op, axis, expression } => (
            sign_split(*expression).0,
            ScalarTerm::Reduction { op, axis, expression: Box::new(sign_split(*expression).1) },
        ),
        _ => (1, e),
    }
}

/// Split an overall `±1` factor off a product or negation tree: `-(a*b)`, `(-a)*b` and
/// `a*(-2*b)` all give `-1` and a sign-free core. Sums are left alone.
pub fn split_sign(expr: &TensorScalarExpr) -> (r: (i8, TensorScalarExpr))
    ensures
        r.0 == 1 || r.0 == -1,
        r.0 as int == sign_split(expr@).0,
        r.1@ == sign_split(expr@).1,
    decreases expr,
{
    match expr {
        TensorScalarExpr::Constant { bits } => {
            if 0x8000_0000_0000_0000u64 < *bits && *bits <= 0xFFF0_0000_0000_0000u64 {
                (-1, TensorScalarExpr::Constant { bits: *bits - 0x8000_0000_0000_0000u64 })
            } else {
                (1, TensorScalarExpr::Constant { bits: *bits })
            }
        },
        TensorScalarExpr::Unary { op: TensorUnaryOp::Neg, arg } => {
            let (sign, core) = split_sign(arg);
            (-sign, core)
        },
        TensorScalarExpr::Binary { op, lhs, rhs } => {
            if *op == TensorBinaryOp::Mul || *op == TensorBinaryOp::Div {
                let (left, l) = split_sign(lhs);
                let (right, r) = split_sign(rhs);
                (left * right, TensorScalarExpr::Binary { op: *op, lhs: Box::new(l), rhs: Box::new(r) })
            } else {
                (1, expr.clone())
            }
        },
        TensorScalarExpr::Reduction { op, axis, expression } => {
            let (sign, core) = split_sign(expression);
            (sign, TensorScalarExpr::Reduction { op: *op, axis: *axis, expression: Box::new(core) })
        },
        _ => (1, expr.clone()),
    }
}

/// The number of nodes of a term.
pub open spec fn size(e: ScalarTerm) -> nat
    decreases e,
{
    match e {
        ScalarTerm::Unary { arg, .. } => 1 + size(*arg),
        ScalarTerm::Binary { lhs, rhs, .. } => 1 + size(*lhs) + size(*rhs),
        ScalarTerm::Reduction { expression, .. } => 1 + size(*expression),
        _ => 1,
    }
}

/// Whether a term is an application of the binary operator `op`.
pub open spec fn applies(e: ScalarTerm, op: TensorBinaryOp) -> bool {
    e matches ScalarTerm::Binary { op: inner, .. } && inner == op
}

/// The operands of the maximal chain of `op` at the root of a term, left to right: the
/// subterms reached through nested applications of `op` that are not themselves such an
/// application. A term that is not an application of `op` is its own single operand.
pub open spec fn chain(e: ScalarTerm, op: TensorBinaryOp) -> Seq<ScalarTerm>
    decreases e,
{
    match e {
        ScalarTerm::Binary { op: inner, lhs, rhs } => if inner == op {
            chain(*lhs, op) + chain(*rhs, op)
        } else {
            seq![e]
        },
        _ => seq![e],
    }
}

/// Every operand of a chain is no larger than the term, and smaller when the term applies the
/// chain's operator.
pub proof fn lemma_chain_size(e: ScalarTerm, op: TensorBinaryOp)
    ensures
        chain(e, op).len() >= 1,
        forall|k: int| 0 <= k < chain(e, op).len() ==> size(#[trigger] chain(e, op)[k]) <= size(e),
        applies(e, op) ==> forall|k: int| 0 <= k < chain(e, op).len() ==> size(#[trigger] chain(e, op)[k]) < size(e),
    decreases e,
{
    match e {
        ScalarTerm::Binary { op: inner, lhs, rhs } => {
            if inner == op {
                lemma_chain_size(*lhs, op);
                lemma_chain_size(*rhs, op);
                let l = chain(*lhs, op);
                let r = chain(*rhs, op);
                assert forall|k: int| 0 <= k < chain(e, op).len() implies size(#[trigger] chain(e, op)[k]) < size(e) by {
                    if k < l.len() {
                        assert(chain(e, op)[k] == l[k]);
                    } else {
                        assert(chain(e, op)[k] == r[k - l.len()]);
                    }
                }
            }
        },
        _ => {},
    }
}

/// Structural equality up to commutativity: the operands of a chain of `Add` or of `Mul` are
/// compared as multisets, so that `(k*u)*v` and `(k*v)*u` agree; `Min` and `Max` may swap
/// their operands; `Sub`, `Div`, `Pow` and `Atan2` are order-sensitive. Constants agree when
/// their bit patterns do. The multiset comparison gives each operand of the left chain, in
/// turn, the first unclaimed operand of the right chain that is equivalent to it.
pub open spec fn equivalent(a: ScalarTerm, b: ScalarTerm) -> bool
    decreases size(a) + size(b), 1nat, 0nat, 0nat,
{
    match a {
        ScalarTerm::Constant { bits: x } => b matches ScalarTerm::Constant { bits: y } && x == y,
        ScalarTerm::Input { input: i1, indices: x1 } => b matches ScalarTerm::Input { input: i2, indices: x2 }
            && i1 == i2 && x1 == x2,
        ScalarTerm::Unary { op: o1, arg: a1 } => match b {
            ScalarTerm::Unary { op: o2, arg: a2 } => o1 == o2 && equivalent(*a1, *a2),
            _ => false,
        },
        ScalarTerm::Binary { op: o1, lhs: l1, rhs: r1 } => match b {
            ScalarTerm::Binary { op: o2, lhs: l2, rhs: r2 } => o1 == o2 && if o1 == TensorBinaryOp::Add
                || o1 == TensorBinaryOp::Mul {
                chain(a, o1).len() == chain(b, o1).len() && covers(
                    a,
                    b,
                    o1,
                    0,
                    unclaimed(chain(b, o1).len()),
                )
            } else if o1 == TensorBinaryOp::Min || o1 == TensorBinaryOp::Max {
                (equivalent(*l1, *l2) && equivalent(*r1, *r2)) || (equivalent(*l1, *r2) && equivalent(*r1, *l2))
            } else {
                equivalent(*l1, *l2) && equivalent(*r1, *r2)
            },
            _ => false,
        },
        ScalarTerm::IndexEqual { lhs: l1, rhs: r1 } => b matches ScalarTerm::IndexEqual { lhs: l2, rhs: r2 }
            && l1 == l2 && r1 == r2,
        ScalarTerm::Reduction { op: o1, axis: x1, expression: e1 } => match b {
            ScalarTerm::Reduction { op: o2, axis: x2, expression: e2 } => o1 == o2 && x1 == x2 && equivalent(
                *e1,
                *e2,
            ),
            _ => false,
        },
    }
}

/// `n` operands, none of them claimed.
pub open spec fn unclaimed(n: nat) -> Seq<bool> {
    Seq::new(n, |j: int| false)
}

/// Whether the operands of the `op` chain of `a` from position `i` on each claim, in turn, the
/// first operand of the chain of `b` that `used` leaves unclaimed and that is equivalent to it.
pub open spec fn covers(a: ScalarTerm, b: ScalarTerm, op: TensorBinaryOp, i: int, used: Seq<bool>) -> bool
    decreases size(a) + size(b), 0nat, chain(a, op).len() - i, chain(b, op).len() + 1,
{
    if !applies(a, op) || !applies(b, op) || i < 0 {
        false
    } else if i >= chain(a, op).len() {
        true
    } else {
        claims(a, b, op, i, 0, used)
    }
}

/// Whether operand `i` of the chain of `a` finds an unclaimed equivalent operand of the chain
/// of `b` at position `j` or later, the first such is claimed, and the rest of the chain of `a`
/// is then covered.
pub open spec fn claims(a: ScalarTerm, b: ScalarTerm, op: TensorBinaryOp, i: int, j: int, used: Seq<bool>) -> bool
    decreases size(a) + size(b), 0nat, chain(a, op).len() - i, chain(b, op).len() - j,
{
    if !applies(a, op) || !applies(b, op) || i < 0 || i >= chain(a, op).len() || j < 0 || j
        >= chain(b, op).len() {
        false
    } else {
        proof {
            lemma_chain_size(a, op);
            lemma_chain_size(b, op);
            assert(size(chain(a, op)[i]) < size(a));
            assert(size(chain(b, op)[j]) < size(b));
        }
        if !used[j] && equivalent(chain(a, op)[i], chain(b, op)[j]) {
            covers(a, b, op, i + 1, used.update(j, true))
        } else {
            claims(a, b, op, i, j + 1, used)
        }
    }
}

/// The terms of a list of expressions.
pub open spec fn terms(s: Seq<&TensorScalarExpr>) -> Seq<ScalarTerm> {
    s.map_values(|e: &TensorScalarExpr| e@)
}

/// Append to `out` the operands of the chain of `op` at the root of `expr`, left to right.
fn flatten_chain<'a>(expr: &'a TensorScalarExpr, op: TensorBinaryOp, out: &mut Vec<&'a TensorScalarExpr>)
    ensures
        terms(final(out)@) == terms(old(out)@) + chain(expr@, op),
    decreases expr,
{
    if let TensorScalarExpr::Binary { op: inner, lhs, rhs } = expr {
        if *inner == op {
            let ghost start = out@;
            flatten_chain(lhs, op, out);
            let ghost mid = out@;
            flatten_chain(rhs, op, out);
            proof {
                assert(terms(out@) =~= terms(start) + chain(expr@, op));
            }
            return;
        }
    }
    let ghost start = out@;
    out.push(expr);
    proof {
        assert(chain(expr@, op) == seq![expr@]);
        assert(terms(out@) =~= terms(start) + chain(expr@, op));
    }
}

fn same_axes(x: &Vec<TensorAxisId>, y: &Vec<TensorAxisId>) -> (r: bool)
    ensures
        r == (x@ == y@),
{
    if x.len() != y.len() {
        return false;
    }
    let mut k: usize = 0;
    while k < x.len()
        invariant
            k <= x@.len(),
            x@.len() == y@.len(),
            forall|j: int| 0 <= j < k ==> x@[j] == y@[j],
        decreases x@.len() - k,
    {
        if x[k] != y[k] {
            return false;
        }
        k = k + 1;
    }
    proof {
        assert(x@ =~= y@);
    }
    true
}

/// Whether two operand lists, the chains of `op` at the roots of `a` and of `b`, agree as
/// multisets: each operand on the left claims, in turn, the first unclaimed equivalent operand
/// on the right.
fn multiset_equivalent(
    left: &Vec<&TensorScalarExpr>,
    right: &Vec<&TensorScalarExpr>,
    Ghost(a): Ghost<ScalarTerm>,
    Ghost(b): Ghost<ScalarTerm>,
    Ghost(op): Ghost<TensorBinaryOp>,
) -> (r: bool)
    requires
        terms(left@) == chain(a, op),
        terms(right@) == chain(b, op),
        applies(a, op),
        applies(b, op),
    ensures
        r == (chain(a, op).len() == chain(b, op).len() && covers(
            a,
            b,
            op,
            0,
            unclaimed(chain(b, op).len()),
        )),
    decreases size(a) + size(b), 0nat,
{
    proof {
        lemma_chain_size(a, op);
        lemma_chain_size(b, op);
        assert(terms(left@).len() == left@.len());
        assert(terms(right@).len() == right@.len());
    }
    if left.len() != right.len() {
        return false;
    }
    let n = right.len();
    let ghost none = unclaimed(chain(b, op).len());
    let mut used: Vec<bool> = Vec::new();
    while used.len() < n
        invariant
            used@.len() <= n,
            forall|j: int| 0 <= j < used@.len() ==> !used@[j],
        decreases n - used@.len(),
    {
        used.push(false);
    }
    proof {
        assert(used@ =~= none);
    }
    let mut i: usize = 0;
    while i < left.len()
        invariant
            left@.len() == n,
            right@.len() == n,
            used@.len() == n,
            i <= n,
            terms(left@) == chain(a, op),
            terms(right@) == chain(b, op),
            chain(a, op).len() == n,
            chain(b, op).len() == n,
            applies(a, op),
            applies(b, op),
            forall|k: int| 0 <= k < n ==> size(#[trigger] chain(a, op)[k]) < size(a),
            forall|k: int| 0 <= k < n ==> size(#[trigger] chain(b, op)[k]) < size(b),
            none == unclaimed(chain(b, op).len()),
            covers(a, b, op, 0, none) == covers(a, b, op, i as int, used@),
        decreases n - i,
    {
        let ghost before = used@;
        let mut j: usize = 0;
        let mut found = false;
        while j < n && !found
            invariant
                left@.len() == n,
                right@.len() == n,
                used@.len() == n,
                i < n,
                j <= n,
                terms(left@) == chain(a, op),
                terms(right@) == chain(b, op),
                chain(a, op).len() == n,
                chain(b, op).len() == n,
                applies(a, op),
                applies(b, op),
                forall|k: int| 0 <= k < n ==> size(#[trigger] chain(a, op)[k]) < size(a),
                forall|k: int| 0 <= k < n ==> size(#[trigger] chain(b, op)[k]) < size(b),
                !found ==> used@ == before && claims(a, b, op, i as int, 0, before) == claims(
                    a,
                    b,
                    op,
                    i as int,
                    j as int,
                    before,
                ),
                found ==> claims(a, b, op, i as int, 0, before) == covers(a, b, op, i + 1, used@),
            decreases n - j, if found { 0int } else { 1int },
        {
            proof {
                assert(terms(left@)[i as int] == left@[i as int]@);
                assert(terms(right@)[j as int] == right@[j as int]@);
            }
            if !used[j] && expr_equivalent(left[i], right[j]) {
                used.set(j, true);
                found = true;
            } else {
                j = j + 1;
            }
        }
        if !found {
            proof {
                assert(!claims(a, b, op, i as int, j as int, before));
                assert(covers(a, b, op, i as int, before) == claims(a, b, op, i as int, 0, before));
            }
            return false;
        }
        proof {
            assert(covers(a, b, op, i as int, before) == claims(a, b, op, i as int, 0, before));
        }
        i = i + 1;
    }
    true
}

/// Whether two expressions are structurally equal up to the commutativity of `Add`, `Mul`,
/// `Min` and `Max` (see `equivalent`).
pub fn expr_equivalent(a: &TensorScalarExpr, b: &TensorScalarExpr) -> (r: bool)
    ensures
        r == equivalent(a@, b@),
    decreases size(a@) + size(b@), 1nat,
{
    match a {
        TensorScalarExpr::Constant { bits: x } => match b {
            TensorScalarExpr::Constant { bits: y } => *x == *y,
            _ => false,
        },
        TensorScalarExpr::Input { input: i1, indices: x1 } => match b {
            TensorScalarExpr::Input { input: i2, indices: x2 } => *i1 == *i2 && same_axes(x1, x2),
            _ => false,
        },
        TensorScalarExpr::Unary { op: o1, arg: a1 } => match b {
            TensorScalarExpr::Unary { op: o2, arg: a2 } => *o1 == *o2 && expr_equivalent(a1, a2),
            _ => false,
        },
        TensorScalarExpr::Binary { op: o1, lhs: l1, rhs: r1 } => match b {
            TensorScalarExpr::Binary { op: o2, lhs: l2, rhs: r2 } => {
                if *o1 != *o2 {
                    return false;
                }
                if *o1 == TensorBinaryOp::Add || *o1 == TensorBinaryOp::Mul {
                    let mut left: Vec<&TensorScalarExpr> = Vec::new();
                    let mut right: Vec<&TensorScalarExpr> = Vec::new();
                    flatten_chain(a, *o1, &mut left);
                    flatten_chain(b, *o1, &mut right);
                    proof {
                        assert(terms(left@) =~= chain(a@, *o1));
                        assert(terms(right@) =~= chain(b@, *o1));
                    }
                    multiset_equivalent(&left, &right, Ghost(a@), Ghost(b@), Ghost(*o1))
                } else if *o1 == TensorBinaryOp::Min || *o1 == TensorBinaryOp::Max {
                    (expr_equivalent(l1, l2) && expr_equivalent(r1, r2)) || (expr_equivalent(l1, r2)
                        && expr_equivalent(r1, l2))
                } else {
                    expr_equivalent(l1, l2) && expr_equivalent(r1, r2)
                }
            },
            _ => false,
        },
        TensorScalarExpr::IndexEqual { lhs: l1, rhs: r1 } => match b {
            TensorScalarExpr::IndexEqual { lhs: l2, rhs: r2 } => *l1 == *l2 && *r1 == *r2,
            _ => false,
        },
        TensorScalarExpr::Reduction { op: o1, axis: x1, expression: e1 } => match b {
            TensorScalarExpr::Reduction { op: o2, axis: x2, expression: e2 } => *o1 == *o2 && *x1 == *x2
                && expr_equivalent(e1, e2),
            _ => false,
        },
    }
}

/// `n` operands of which the first `i` are claimed.
spec fn claimed_prefix(n: nat, i: int) -> Seq<bool> {
    Seq::new(n, |j: int| j < i)
}

proof fn lemma_claims_self(e: ScalarTerm, op: TensorBinaryOp, i: int, j: int)
    requires
        applies(e, op),
        0 <= j <= i < chain(e, op).len(),
        equivalent(chain(e, op)[i], chain(e, op)[i]),
    ensures
        claims(e, e, op, i, j, claimed_prefix(chain(e, op).len(), i)) == covers(
            e,
            e,
            op,
            i + 1,
            claimed_prefix(chain(e, op).len(), i + 1),
        ),
    decreases i - j,
{
    let n = chain(e, op).len();
    let used = claimed_prefix(n, i);
    if j < i {
        lemma_claims_self(e, op, i, j + 1);
    } else {
        assert(used.update(i, true) =~= claimed_prefix(n, i + 1));
    }
}

proof fn lemma_covers_self(e: ScalarTerm, op: TensorBinaryOp, i: int)
    requires
        applies(e, op),
        0 <= i <= chain(e, op).len(),
        forall|k: int| 0 <= k < chain(e, op).len() ==> equivalent(#[trigger] chain(e, op)[k], chain(e, op)[k]),
    ensures
        covers(e, e, op, i, claimed_prefix(chain(e, op).len(), i)),
    decreases chain(e, op).len() - i,
{
    if i < chain(e, op).len() {
        lemma_claims_self(e, op, i, 0);
        lemma_covers_self(e, op, i + 1);
    }
}

/// Every expression is equivalent to itself.
pub proof fn lemma_equivalent_reflexive(e: ScalarTerm)
    ensures
        equivalent(e, e),
    decreases size(e),
{
    match e {
        ScalarTerm::Unary { arg, .. } => lemma_equivalent_reflexive(*arg),
        ScalarTerm::Binary { op, lhs, rhs } => {
            lemma_equivalent_reflexive(*lhs);
            lemma_equivalent_reflexive(*rhs);
            if op == TensorBinaryOp::Add || op == TensorBinaryOp::Mul {
                lemma_chain_size(e, op);
                let n = chain(e, op).len();
                assert forall|k: int| 0 <= k < n implies equivalent(#[trigger] chain(e, op)[k], chain(e, op)[k]) by {
                    lemma_equivalent_reflexive(chain(e, op)[k]);
                }
                lemma_covers_self(e, op, 0);
                assert(claimed_prefix(n, 0) =~= unclaimed(n));
            }
        },
        ScalarTerm::Reduction { expression, .. } => lemma_equivalent_reflexive(*expression),
        _ => {},
    }
}

/// `sigma` sends each operand of the chain of `a` from position `i` on to a distinct operand
/// of the chain of `b` that `used` leaves unclaimed and that is equivalent to it.
spec fn assigns(a: ScalarTerm, b: ScalarTerm, op: TensorBinaryOp, i: int, used: Seq<bool>, sigma: Seq<int>) -> bool {
    let l = chain(a, op);
    let r = chain(b, op);
    &&& sigma.len() == l.len()
    &&& forall|k: int|
        i <= k < l.len() ==> 0 <= #[trigger] sigma[k] < r.len() && !used[sigma[k]] && equivalent(l[k], r[sigma[k]])
    &&& forall|k1: int, k2: int|
        i <= k1 < l.len() && i <= k2 < l.len() && k1 != k2 ==> #[trigger] sigma[k1] != #[trigger] sigma[k2]
}

/// Equivalence is symmetric and transitive among the terms of `s`.
spec fn equiv_on(s: Seq<ScalarTerm>) -> bool {
    &&& forall|x: ScalarTerm, y: ScalarTerm|
        s.contains(x) && s.contains(y) && #[trigger] equivalent(x, y) ==> equivalent(y, x)
    &&& forall|x: ScalarTerm, y: ScalarTerm, z: ScalarTerm|
        s.contains(x) && s.contains(y) && s.contains(z) && #[trigger] equivalent(x, y) && #[trigger] equivalent(y, z)
            ==> equivalent(x, z)
}

proof fn lemma_cover_sound(a: ScalarTerm, b: ScalarTerm, op: TensorBinaryOp, i: int, used: Seq<bool>) -> (sigma: Seq<int>)
    requires
        covers(a, b, op, i, used),
        used.len() == chain(b, op).len(),
    ensures
        assigns(a, b, op, i, used, sigma),
    decreases chain(a, op).len() - i, 1nat, 0int,
{
    if i >= chain(a, op).len() {
        Seq::new(chain(a, op).len(), |k: int| 0)
    } else {
        lemma_claims_sound(a, b, op, i, 0, used)
    }
}

proof fn lemma_claims_sound(a: ScalarTerm, b: ScalarTerm, op: TensorBinaryOp, i: int, j: int, used: Seq<bool>) -> (sigma: Seq<int>)
    requires
        claims(a, b, op, i, j, used),
        used.len() == chain(b, op).len(),
    ensures
        assigns(a, b, op, i, used, sigma),
    decreases chain(a, op).len() - i, 0nat, chain(b, op).len() - j,
{
    let l = chain(a, op);
    let r = chain(b, op);
    if !used[j] && equivalent(l[i], r[j]) {
        let used2 = used.update(j, true);
        let rest = lemma_cover_sound(a, b, op, i + 1, used2);
        let sigma = rest.update(i, j);
        assert forall|k: int| i <= k < l.len() implies 0 <= #[trigger] sigma[k] < r.len() && !used[sigma[k]]
            && equivalent(l[k], r[sigma[k]]) by {
            if k > i {
                assert(!used2[rest[k]]);
            }
        }
        assert forall|k1: int, k2: int| i <= k1 < l.len() && i <= k2 < l.len() && k1 != k2 implies #[trigger] sigma[k1]
            != #[trigger] sigma[k2] by {
            if k1 > i {
                assert(!used2[rest[k1]]);
            }
            if k2 > i {
                assert(!used2[rest[k2]]);
            }
        }
        sigma
    } else {
        lemma_claims_sound(a, b, op, i, j + 1, used)
    }
}

proof fn lemma_cover_complete(a: ScalarTerm, b: ScalarTerm, op: TensorBinaryOp, i: int, used: Seq<bool>, sigma: Seq<int>)
    requires
        applies(a, op),
        applies(b, op),
        used.len() == chain(b, op).len(),
        0 <= i <= chain(a, op).len(),
        assigns(a, b, op, i, used, sigma),
        equiv_on(chain(a, op) + chain(b, op)),
    ensures
        covers(a, b, op, i, used),
    decreases chain(a, op).len() - i, 1nat, 0int,
{
    if i < chain(a, op).len() {
        lemma_claims_complete(a, b, op, i, 0, used, sigma);
    }
}

proof fn lemma_claims_complete(
    a: ScalarTerm,
    b: ScalarTerm,
    op: TensorBinaryOp,
    i: int,
    j: int,
    used: Seq<bool>,
    sigma: Seq<int>,
)
    requires
        applies(a, op),
        applies(b, op),
        used.len() == chain(b, op).len(),
        0 <= i < chain(a, op).len(),
        0 <= j <= sigma[i],
        assigns(a, b, op, i, used, sigma),
        equiv_on(chain(a, op) + chain(b, op)),
    ensures
        claims(a, b, op, i, j, used),
    decreases chain(a, op).len() - i, 0nat, sigma[i] - j,
{
    let l = chain(a, op);
    let r = chain(b, op);
    let both = l + r;
    assert(0 <= sigma[i] < r.len());
    if !used[j] && equivalent(l[i], r[j]) {
        let used2 = used.update(j, true);
        // the operand that `sigma` sent to `j`, if any, takes the one `sigma` sent `i` to
        let sigma2 = if exists|k: int| i < k < l.len() && sigma[k] == j {
            let k = choose|k: int| i < k < l.len() && sigma[k] == j;
            sigma.update(k, sigma[i])
        } else {
            sigma
        };
        assert forall|k: int| i + 1 <= k < l.len() implies 0 <= #[trigger] sigma2[k] < r.len() && !used2[sigma2[k]]
            && equivalent(l[k], r[sigma2[k]]) by {
            if exists|k0: int| i < k0 < l.len() && sigma[k0] == j {
                let k0 = choose|k0: int| i < k0 < l.len() && sigma[k0] == j;
                if k == k0 {
                    // l[k0] ~ r[j] ~ l[i] ~ r[sigma[i]]
                    assert(both.contains(l[k0])) by { assert(both[k0] == l[k0]); }
                    assert(both.contains(l[i])) by { assert(both[i] == l[i]); }
                    assert(both.contains(r[j])) by { assert(both[l.len() + j] == r[j]); }
                    assert(both.contains(r[sigma[i]])) by { assert(both[l.len() + sigma[i]] == r[sigma[i]]); }
                    assert(equivalent(r[j], l[i]));
                    assert(equivalent(l[k0], l[i]));
                    assert(equivalent(l[k0], r[sigma[i]]));
                    assert(sigma[i] != j);
                } else {
                    assert(sigma[k] != j);
                }
            } else {
                assert(sigma[k] != j);
            }
        }
        assert forall|k1: int, k2: int| i + 1 <= k1 < l.len() && i + 1 <= k2 < l.len() && k1 != k2 implies #[trigger] sigma2[k1]
            != #[trigger] sigma2[k2] by {
            if exists|k0: int| i < k0 < l.len() && sigma[k0] == j {
                let k0 = choose|k0: int| i < k0 < l.len() && sigma[k0] == j;
                assert(sigma[k1] != sigma[i] || k1 == i);
                assert(sigma[k2] != sigma[i] || k2 == i);
            }
        }
        assert(sigma2.len() == l.len());
        lemma_cover_complete(a, b, op, i + 1, used2, sigma2);
    } else {
        assert(j != sigma[i]);
        lemma_claims_complete(a, b, op, i, j + 1, used, sigma);
    }
}

proof fn lemma_equiv_on_small(n: nat, s: Seq<ScalarTerm>)
    requires
        n > 0,
        forall|k: int| 0 <= k < s.len() ==> size(#[trigger] s[k]) < n,
    ensures
        equiv_on(s),
    decreases n, 0nat,
{
    assert forall|x: ScalarTerm, y: ScalarTerm| s.contains(x) && s.contains(y) && #[trigger] equivalent(x, y) implies equivalent(y, x) by {
        let kx = choose|k: int| 0 <= k < s.len() && s[k] == x;
        let ky = choose|k: int| 0 <= k < s.len() && s[k] == y;
        lemma_symmetric_at((n - 1) as nat, x, y);
    }
    assert forall|x: ScalarTerm, y: ScalarTerm, z: ScalarTerm|
        s.contains(x) && s.contains(y) && s.contains(z) && #[trigger] equivalent(x, y) && #[trigger] equivalent(y, z)
        implies equivalent(x, z) by {
        let kx = choose|k: int| 0 <= k < s.len() && s[k] == x;
        let ky = choose|k: int| 0 <= k < s.len() && s[k] == y;
        let kz = choose|k: int| 0 <= k < s.len() && s[k] == z;
        lemma_transitive_at((n - 1) as nat, x, y, z);
    }
}

proof fn lemma_symmetric_at(n: nat, a: ScalarTerm, b: ScalarTerm)
    requires
        size(a) <= n,
        size(b) <= n,
        equivalent(a, b),
    ensures
        equivalent(b, a),
    decreases n, 1nat,
{
    match a {
        ScalarTerm::Unary { arg: a1, .. } => {
            if let ScalarTerm::Unary { arg: a2, .. } = b {
                lemma_symmetric_at((n - 1) as nat, *a1, *a2);
            }
        },
        ScalarTerm::Reduction { expression: a1, .. } => {
            if let ScalarTerm::Reduction { expression: a2, .. } = b {
                lemma_symmetric_at((n - 1) as nat, *a1, *a2);
            }
        },
        ScalarTerm::Binary { op, lhs: l1, rhs: r1 } => {
            if let ScalarTerm::Binary { lhs: l2, rhs: r2, .. } = b {
                let m = (n - 1) as nat;
                if op == TensorBinaryOp::Add || op == TensorBinaryOp::Mul {
                    let la = chain(a, op);
                    let lb = chain(b, op);
                    let na = la.len() as int;
                    lemma_chain_size(a, op);
                    lemma_chain_size(b, op);
                    let sigma = lemma_cover_sound(a, b, op, 0, unclaimed(lb.len()));
                    lemma_injection_onto(sigma, na);
                    let tau = Seq::new(na as nat, |r: int| choose|k: int| 0 <= k < na && sigma[k] == r);
                    assert forall|r: int| 0 <= r < na implies 0 <= #[trigger] tau[r] < na && sigma[tau[r]] == r by {
                        assert(reached(sigma, na, r));
                    }
                    assert forall|r: int| 0 <= r < lb.len() implies 0 <= #[trigger] tau[r] < la.len() && !unclaimed(
                        la.len(),
                    )[tau[r]] && equivalent(lb[r], la[tau[r]]) by {
                        let k = tau[r];
                        assert(equivalent(la[k], lb[sigma[k]]));
                        lemma_symmetric_at(m, la[k], lb[r]);
                    }
                    assert forall|r1: int, r2: int| 0 <= r1 < lb.len() && 0 <= r2 < lb.len() && r1 != r2 implies #[trigger] tau[r1]
                        != #[trigger] tau[r2] by {
                        assert(sigma[tau[r1]] == r1);
                        assert(sigma[tau[r2]] == r2);
                    }
                    assert(assigns(b, a, op, 0, unclaimed(la.len()), tau));
                    lemma_equiv_on_small(n, lb + la);
                    lemma_cover_complete(b, a, op, 0, unclaimed(la.len()), tau);
                } else if op == TensorBinaryOp::Min || op == TensorBinaryOp::Max {
                    if equivalent(*l1, *l2) && equivalent(*r1, *r2) {
                        lemma_symmetric_at(m, *l1, *l2);
                        lemma_symmetric_at(m, *r1, *r2);
                    } else {
                        lemma_symmetric_at(m, *l1, *r2);
                        lemma_symmetric_at(m, *r1, *l2);
                    }
                } else {
                    lemma_symmetric_at(m, *l1, *l2);
                    lemma_symmetric_at(m, *r1, *r2);
                }
            }
        },
        _ => {},
    }
}

proof fn lemma_transitive_at(n: nat, a: ScalarTerm, b: ScalarTerm, c: ScalarTerm)
    requires
        size(a) <= n,
        size(b) <= n,
        size(c) <= n,
        equivalent(a, b),
        equivalent(b, c),
    ensures
        equivalent(a, c),
    decreases n, 1nat,
{
    match a {
        ScalarTerm::Unary { arg: a1, .. } => {
            if let ScalarTerm::Unary { arg: b1, .. } = b {
                if let ScalarTerm::Unary { arg: c1, .. } = c {
                    lemma_transitive_at((n - 1) as nat, *a1, *b1, *c1);
                }
            }
        },
        ScalarTerm::Reduction { expression: a1, .. } => {
            if let ScalarTerm::Reduction { expression: b1, .. } = b {
                if let ScalarTerm::Reduction { expression: c1, .. } = c {
                    lemma_transitive_at((n - 1) as nat, *a1, *b1, *c1);
                }
            }
        },
        ScalarTerm::Binary { op, lhs: l1, rhs: r1 } => {
            if let ScalarTerm::Binary { lhs: l2, rhs: r2, .. } = b {
                if let ScalarTerm::Binary { lhs: l3, rhs: r3, .. } = c {
                    let m = (n - 1) as nat;
                    if op == TensorBinaryOp::Add || op == TensorBinaryOp::Mul {
                        let la = chain(a, op);
                        let lb = chain(b, op);
                        let lc = chain(c, op);
                        lemma_chain_size(a, op);
                        lemma_chain_size(b, op);
                        lemma_chain_size(c, op);
                        let s1 = lemma_cover_sound(a, b, op, 0, unclaimed(lb.len()));
                        let s2 = lemma_cover_sound(b, c, op, 0, unclaimed(lc.len()));
                        let rho = Seq::new(la.len(), |k: int| s2[s1[k]]);
                        assert forall|k: int| 0 <= k < la.len() implies 0 <= #[trigger] rho[k] < lc.len() && !unclaimed(
                            lc.len(),
                        )[rho[k]] && equivalent(la[k], lc[rho[k]]) by {
                            assert(equivalent(la[k], lb[s1[k]]));
                            assert(equivalent(lb[s1[k]], lc[s2[s1[k]]]));
                            lemma_transitive_at(m, la[k], lb[s1[k]], lc[rho[k]]);
                        }
                        assert forall|k1: int, k2: int| 0 <= k1 < la.len() && 0 <= k2 < la.len() && k1 != k2 implies #[trigger] rho[k1]
                            != #[trigger] rho[k2] by {
                            assert(s1[k1] != s1[k2]);
                        }
                        assert(assigns(a, c, op, 0, unclaimed(lc.len()), rho));
                        lemma_equiv_on_small(n, la + lc);
                        lemma_cover_complete(a, c, op, 0, unclaimed(lc.len()), rho);
                    } else if op == TensorBinaryOp::Min || op == TensorBinaryOp::Max {
                        let ab_straight = equivalent(*l1, *l2) && equivalent(*r1, *r2);
                        let bc_straight = equivalent(*l2, *l3) && equivalent(*r2, *r3);
                        if ab_straight && bc_straight {
                            lemma_transitive_at(m, *l1, *l2, *l3);
                            lemma_transitive_at(m, *r1, *r2, *r3);
                        } else if ab_straight {
                            lemma_transitive_at(m, *l1, *l2, *r3);
                            lemma_transitive_at(m, *r1, *r2, *l3);
                        } else if bc_straight {
                            lemma_transitive_at(m, *l1, *r2, *r3);
                            lemma_transitive_at(m, *r1, *l2, *l3);
                        } else {
                            lemma_transitive_at(m, *l1, *r2, *l3);
                            lemma_transitive_at(m, *r1, *l2, *r3);
                        }
                    } else {
                        lemma_transitive_at(m, *l1, *l2, *l3);
                        lemma_transitive_at(m, *r1, *r2, *r3);
                    }
                }
            }
        },
        _ => {},
    }
}

/// Equivalence of integrands is an equivalence relation: reflexive, symmetric and transitive.
pub proof fn lemma_equivalent_is_equivalence(a: ScalarTerm, b: ScalarTerm, c: ScalarTerm)
    ensures
        equivalent(a, a),
        equivalent(a, b) ==> equivalent(b, a),
        equivalent(a, b) && equivalent(b, c) ==> equivalent(a, c),
{
    lemma_equivalent_reflexive(a);
    let n = size(a) + size(b) + size(c);
    if equivalent(a, b) {
        lemma_symmetric_at(n, a, b);
        if equivalent(b, c) {
            lemma_transitive_at(n, a, b, c);
        }
    }
}

/// `Add` and `Mul` may exchange their operands: `a + b` is equivalent to `b + a`.
pub proof fn lemma_add_mul_commute(op: TensorBinaryOp, a: ScalarTerm, b: ScalarTerm)
    requires
        op == TensorBinaryOp::Add || op == TensorBinaryOp::Mul,
    ensures
        equivalent(
            ScalarTerm::Binary { op, lhs: Box::new(a), rhs: Box::new(b) },
            ScalarTerm::Binary { op, lhs: Box::new(b), rhs: Box::new(a) },
        ),
{
    let x = ScalarTerm::Binary { op, lhs: Box::new(a), rhs: Box::new(b) };
    let y = ScalarTerm::Binary { op, lhs: Box::new(b), rhs: Box::new(a) };
    let ca = chain(a, op);
    let cb = chain(b, op);
    let lx = chain(x, op);
    let ly = chain(y, op);
    assert(lx == ca + cb);
    assert(ly == cb + ca);
    lemma_chain_size(x, op);
    lemma_chain_size(y, op);
    let sigma = Seq::new(lx.len(), |k: int| if k < ca.len() { cb.len() + k } else { k - ca.len() });
    assert forall|k: int| 0 <= k < lx.len() implies 0 <= #[trigger] sigma[k] < ly.len() && !unclaimed(ly.len())[sigma[k]]
        && equivalent(lx[k], ly[sigma[k]]) by {
        assert(lx[k] == ly[sigma[k]]);
        lemma_equivalent_reflexive(lx[k]);
    }
    assert(assigns(x, y, op, 0, unclaimed(ly.len()), sigma));
    assert forall|k: int| 0 <= k < (lx + ly).len() implies size(#[trigger] (lx + ly)[k]) < size(x) by {
        if k >= lx.len() {
            assert((lx + ly)[k] == ly[k - lx.len()]);
            assert(size(ly[k - lx.len()]) < size(y));
        }
    }
    lemma_equiv_on_small(size(x), lx + ly);
    lemma_cover_complete(x, y, op, 0, unclaimed(ly.len()), sigma);
}

/// `Min` and `Max` may exchange their operands: `min(a, b)` is equivalent to `min(b, a)`.
pub proof fn lemma_min_max_commute(op: TensorBinaryOp, a: ScalarTerm, b: ScalarTerm)
    requires
        op == TensorBinaryOp::Min || op == TensorBinaryOp::Max,
    ensures
        equivalent(
            ScalarTerm::Binary { op, lhs: Box::new(a), rhs: Box::new(b) },
            ScalarTerm::Binary { op, lhs: Box::new(b), rhs: Box::new(a) },
        ),
{
    lemma_equivalent_reflexive(a);
    lemma_equivalent_reflexive(b);
}

/// The polynomial degree of an integrand in its active inputs, as far as the structure
/// analysis tells it apart.
#[derive(Clone, Copy, Debug, PartialEq, Eq, Structural)]
pub enum Degree {
    Zero,
    One,
    Unknown,
}

pub open spec fn degree_rank(d: Degree) -> int {
    match d {
        Degree::Zero => 0,
        Degree::One => 1,
        Degree::Unknown => 2,
    }
}

/// The higher of two degrees.
pub open spec fn higher(a: Degree, b: Degree) -> Degree {
    if degree_rank(a) >= degree_rank(b) { a } else { b }
}

/// Whether a binary operator, applied to operands of the given degrees, gives an unknown
/// degree: a product of two non-constant operands, a quotient by a non-constant, or a power,
/// minimum, maximum or `atan2` of anything non-constant.
pub open spec fn loses_degree(op: TensorBinaryOp, l: Degree, r: Degree) -> bool {
    match op {
        TensorBinaryOp::Add | TensorBinaryOp::Sub => false,
        TensorBinaryOp::Mul => l != Degree::Zero && r != Degree::Zero,
        TensorBinaryOp::Div => r != Degree::Zero,
        _ => l != Degree::Zero || r != Degree::Zero,
    }
}

/// The degree of a term in the inputs of `active`: constants and axis deltas are of degree
/// zero, an active input of degree one; negation, sums and reductions keep the degree,
/// products add it as far as one factor is constant and a quotient as far as its divisor is;
/// any other function of a non-constant argument has unknown degree.
pub open spec fn degree(e: ScalarTerm, active: Set<TensorInputId>) -> Degree
    decreases e,
{
    match e {
        ScalarTerm::Input { input, .. } => if active.contains(input) { Degree::One } else { Degree::Zero },
        ScalarTerm::Unary { op, arg } => if op == TensorUnaryOp::Neg {
            degree(*arg, active)
        } else if degree(*arg, active) != Degree::Zero {
            Degree::Unknown
        } else {
            Degree::Zero
        },
        ScalarTerm::Binary { op, lhs, rhs } => {
            let l = degree(*lhs, active);
            let r = degree(*rhs, active);
            if loses_degree(op, l, r) {
                Degree::Unknown
            } else if op == TensorBinaryOp::Add || op == TensorBinaryOp::Sub {
                higher(l, r)
            } else if op == TensorBinaryOp::Mul {
                if l == Degree::Zero { r } else { l }
            } else if op == TensorBinaryOp::Div {
                l
            } else {
                Degree::Zero
            }
        },
        ScalarTerm::Reduction { expression, .. } => degree(*expression, active),
        _ => Degree::Zero,
    }
}

/// The inputs of `active` that a term reads.
pub open spec fn active_inputs(e: ScalarTerm, active: Set<TensorInputId>) -> Set<TensorInputId> {
    Set::new(|i: TensorInputId| active.contains(i) && crate::tensor::mentions(e, i))
}

/// The active inputs that take part in a loss of degree anywhere in a term: those read by the
/// operands of each node whose degree becomes unknown.
pub open spec fn offending(e: ScalarTerm, active: Set<TensorInputId>) -> Set<TensorInputId>
    decreases e,
{
    match e {
        ScalarTerm::Unary { op, arg } => offending(*arg, active) + if op != TensorUnaryOp::Neg && degree(
            *arg,
            active,
        ) != Degree::Zero {
            active_inputs(*arg, active)
        } else {
            Set::empty()
        },
        ScalarTerm::Binary { op, lhs, rhs } => offending(*lhs, active) + offending(*rhs, active) + if loses_degree(
            op,
            degree(*lhs, active),
            degree(*rhs, active),
        ) {
            active_inputs(*lhs, active) + active_inputs(*rhs, active)
        } else {
            Set::empty()
        },
        ScalarTerm::Reduction { expression, .. } => offending(*expression, active),
        _ => Set::empty(),
    }
}

/// Input ids in strictly increasing order: a set of inputs in the order a `BTreeSet` keeps.
pub open spec fn increasing_inputs(s: Seq<TensorInputId>) -> bool {
    forall|i: int, j: int| 0 <= i < j < s.len() ==> (#[trigger] s[i]).0 < (#[trigger] s[j]).0
}

fn holds(set: &Vec<TensorInputId>, x: TensorInputId) -> (r: bool)
    ensures
        r == set@.contains(x),
{
    let mut k: usize = 0;
    while k < set.len()
        invariant
            k <= set@.len(),
            forall|j: int| 0 <= j < k ==> set@[j] != x,
        decreases set@.len() - k,
    {
        if set[k] == x {
            return true;
        }
        k = k + 1;
    }
    false
}

/// Enter `x` into an increasing set of inputs at its place, unless it is there already.
fn insert_input(set: &mut Vec<TensorInputId>, x: TensorInputId)
    requires
        increasing_inputs(old(set)@),
    ensures
        increasing_inputs(final(set)@),
        forall|y: TensorInputId| #[trigger] final(set)@.contains(y) <==> (old(set)@.contains(y) || y == x),
{
    let mut p: usize = 0;
    while p < set.len() && set[p].0 < x.0
        invariant
            p <= set@.len(),
            set@ == old(set)@,
            increasing_inputs(set@),
            forall|j: int| 0 <= j < p ==> (#[trigger] set@[j]).0 < x.0,
        decreases set@.len() - p,
    {
        p = p + 1;
    }
    if p < set.len() && set[p].0 == x.0 {
        proof {
            assert(set@[p as int] == x);
        }
        return;
    }
    let ghost before = set@;
    set.insert(p, x);
    proof {
        assert forall|i: int, j: int| 0 <= i < j < set@.len() implies (#[trigger] set@[i]).0 < (#[trigger] set@[j]).0 by {
            if j < p {
            } else if j == p {
            } else if i < p {
                assert(set@[j] == before[j - 1]);
            } else if i == p {
                assert(set@[j] == before[j - 1]);
                if p < before.len() {
                    assert(before[p as int].0 > x.0);
                    if j - 1 > p {
                        assert(before[p as int].0 < before[j - 1].0);
                    }
                }
            } else {
                assert(set@[i] == before[i - 1]);
                assert(set@[j] == before[j - 1]);
            }
        }
        assert forall|y: TensorInputId| #[trigger] set@.contains(y) <==> (before.contains(y) || y == x) by {
            if set@.contains(y) {
                let k = choose|k: int| 0 <= k < set@.len() && set@[k] == y;
                if k < p {
                    assert(before[k] == y);
                } else if k > p {
                    assert(before[k - 1] == y);
                }
            }
            if before.contains(y) {
                let k = choose|k: int| 0 <= k < before.len() && before[k] == y;
                if k < p {
                    assert(set@[k] == y);
                } else {
                    assert(set@[k + 1] == y);
                }
            }
            if y == x {
                assert(set@[p as int] == x);
            }
        }
    }
}

/// Enter into `out` every input of `active` that `expr` reads.
pub fn collect_active_inputs(expr: &TensorScalarExpr, active: &Vec<TensorInputId>, out: &mut Vec<TensorInputId>)
    requires
        increasing_inputs(old(out)@),
    ensures
        increasing_inputs(final(out)@),
        forall|y: TensorInputId| #[trigger] final(out)@.contains(y) <==> (old(out)@.contains(y)
            || active_inputs(expr@, active@.to_set()).contains(y)),
    decreases expr,
{
    match expr {
        TensorScalarExpr::Constant { .. } | TensorScalarExpr::IndexEqual { .. } => {},
        TensorScalarExpr::Input { input, .. } => {
            if holds(active, *input) {
                insert_input(out, *input);
            }
        },
        TensorScalarExpr::Unary { arg, .. } => collect_active_inputs(arg, active, out),
        TensorScalarExpr::Binary { lhs, rhs, .. } => {
            collect_active_inputs(lhs, active, out);
            collect_active_inputs(rhs, active, out);
        },
        TensorScalarExpr::Reduction { expression, .. } => collect_active_inputs(expression, active, out),
    }
}

fn higher_of(a: Degree, b: Degree) -> (d: Degree)
    ensures
        d == higher(a, b),
{
    match (a, b) {
        (Degree::Unknown, _) | (_, Degree::Zero) => a,
        (Degree::One, Degree::One) => a,
        _ => b,
    }
}

/// The degree of `expr` in the inputs of `active`; every active input that takes part in a
/// loss of degree is entered into `offending`.
pub fn degree_of(expr: &TensorScalarExpr, active: &Vec<TensorInputId>, offending: &mut Vec<TensorInputId>) -> (d: Degree)
    requires
        increasing_inputs(old(offending)@),
    ensures
        d == degree(expr@, active@.to_set()),
        increasing_inputs(final(offending)@),
        forall|y: TensorInputId| #[trigger] final(offending)@.contains(y) <==> (old(offending)@.contains(y)
            || crate::structure::integrand::offending(expr@, active@.to_set()).contains(y)),
    decreases expr,
{
    let ghost act = active@.to_set();
    match expr {
        TensorScalarExpr::Constant { .. } => Degree::Zero,
        TensorScalarExpr::IndexEqual { .. } => Degree::Zero,
        TensorScalarExpr::Input { input, .. } => {
            if holds(active, *input) {
                Degree::One
            } else {
                Degree::Zero
            }
        },
        TensorScalarExpr::Unary { op, arg } => {
            let inner = degree_of(arg, active, offending);
            match op {
                TensorUnaryOp::Neg => inner,
                _ => {
                    if inner != Degree::Zero {
                        collect_active_inputs(arg, active, offending);
                        Degree::Unknown
                    } else {
                        Degree::Zero
                    }
                },
            }
        },
        TensorScalarExpr::Binary { op, lhs, rhs } => {
            let left = degree_of(lhs, active, offending);
            let right = degree_of(rhs, active, offending);
            match op {
                TensorBinaryOp::Add | TensorBinaryOp::Sub => higher_of(left, right),
                TensorBinaryOp::Mul => match (left, right) {
                    (Degree::Zero, other) | (other, Degree::Zero) => other,
                    _ => {
                        collect_active_inputs(lhs, active, offending);
                        collect_active_inputs(rhs, active, offending);
                        Degree::Unknown
                    },
                },
                TensorBinaryOp::Div => match right {
                    Degree::Zero => left,
                    _ => {
                        collect_active_inputs(lhs, active, offending);
                        collect_active_inputs(rhs, active, offending);
                        Degree::Unknown
                    },
                },
                TensorBinaryOp::Pow | TensorBinaryOp::Min | TensorBinaryOp::Max | TensorBinaryOp::Atan2 => {
                    if left == Degree::Zero && right == Degree::Zero {
                        Degree::Zero
                    } else {
                        collect_active_inputs(lhs, active, offending);
                        collect_active_inputs(rhs, active, offending);
                        Degree::Unknown
                    }
                },
            }
        },
        TensorScalarExpr::Reduction { expression, .. } => degree_of(expression, active, offending),
    }
}

/// A term that reads no active input is of degree zero, and only active inputs that a term
/// reads are ever reported as offending.
pub proof fn lemma_degree_without_active(e: ScalarTerm, active: Set<TensorInputId>)
    ensures
        offending(e, active).subset_of(active_inputs(e, active)),
        active_inputs(e, active).is_empty() ==> degree(e, active) == Degree::Zero,
    decreases e,
{
    match e {
        ScalarTerm::Unary { arg, .. } => {
            lemma_degree_without_active(*arg, active);
            assert(active_inputs(*arg, active) =~= active_inputs(e, active));
        },
        ScalarTerm::Binary { lhs, rhs, .. } => {
            lemma_degree_without_active(*lhs, active);
            lemma_degree_without_active(*rhs, active);
            assert(active_inputs(*lhs, active).subset_of(active_inputs(e, active)));
            assert(active_inputs(*rhs, active).subset_of(active_inputs(e, active)));
            if active_inputs(e, active).is_empty() {
                assert(active_inputs(*lhs, active) =~= Set::empty());
                assert(active_inputs(*rhs, active) =~= Set::empty());
            }
        },
        ScalarTerm::Reduction { expression, .. } => {
            lemma_degree_without_active(*expression, active);
            assert(active_inputs(*expression, active) =~= active_inputs(e, active));
        },
        ScalarTerm::Input { input, .. } => {
            if active.contains(input) {
                assert(active_inputs(e, active).contains(input));
            }
        },
        _ => {},
    }
}

// ---------------------------------------------------------------------------------------
// Laws of degree, equivalence and sign.
// ---------------------------------------------------------------------------------------

pub open spec fn bin(op: TensorBinaryOp, a: ScalarTerm, b: ScalarTerm) -> ScalarTerm {
    ScalarTerm::Binary { op, lhs: Box::new(a), rhs: Box::new(b) }
}

pub open spec fn un(op: TensorUnaryOp, a: ScalarTerm) -> ScalarTerm {
    ScalarTerm::Unary { op, arg: Box::new(a) }
}

/// An input has degree one exactly when it is active, and zero otherwise.
pub proof fn lemma_degree_of_input(i: TensorInputId, ix: Seq<TensorAxisId>, active: Set<TensorInputId>)
    ensures
        degree(ScalarTerm::Input { input: i, indices: ix }, active) == (if active.contains(i) {
            Degree::One
        } else {
            Degree::Zero
        }),
        offending(ScalarTerm::Input { input: i, indices: ix }, active).is_empty(),
{
    assert(offending(ScalarTerm::Input { input: i, indices: ix }, active) =~= Set::empty());
}

/// Sums and differences never lose degree: `a + b` and `a - b` have the higher of the degrees
/// of `a` and `b`, report no offending input of their own, and `a - b` reads like `a + (-b)`.
/// In particular the difference of two active inputs has degree one.
pub proof fn lemma_degree_sum(a: ScalarTerm, b: ScalarTerm, active: Set<TensorInputId>)
    ensures
        degree_rank(degree(bin(TensorBinaryOp::Add, a, b), active)) == (if degree_rank(degree(a, active))
            >= degree_rank(degree(b, active)) {
            degree_rank(degree(a, active))
        } else {
            degree_rank(degree(b, active))
        }),
        degree(bin(TensorBinaryOp::Sub, a, b), active) == degree(bin(TensorBinaryOp::Add, a, b), active),
        degree(bin(TensorBinaryOp::Sub, a, b), active) == degree(
            bin(TensorBinaryOp::Add, a, un(TensorUnaryOp::Neg, b)),
            active,
        ),
        offending(bin(TensorBinaryOp::Add, a, b), active) == offending(a, active) + offending(b, active),
        offending(bin(TensorBinaryOp::Sub, a, b), active) == offending(a, active) + offending(b, active),
        offending(bin(TensorBinaryOp::Sub, a, b), active) == offending(
            bin(TensorBinaryOp::Add, a, un(TensorUnaryOp::Neg, b)),
            active,
        ),
{
    assert(offending(bin(TensorBinaryOp::Add, a, b), active) =~= offending(a, active) + offending(b, active));
    assert(offending(bin(TensorBinaryOp::Sub, a, b), active) =~= offending(a, active) + offending(b, active));
    assert(offending(un(TensorUnaryOp::Neg, b), active) =~= offending(b, active));
    assert(offending(bin(TensorBinaryOp::Add, a, un(TensorUnaryOp::Neg, b)), active) =~= offending(a, active)
        + offending(b, active));
}

/// Negation keeps the degree and the offending inputs.
pub proof fn lemma_degree_negation(a: ScalarTerm, active: Set<TensorInputId>)
    ensures
        degree(un(TensorUnaryOp::Neg, a), active) == degree(a, active),
        offending(un(TensorUnaryOp::Neg, a), active) == offending(a, active),
{
    assert(offending(un(TensorUnaryOp::Neg, a), active) =~= offending(a, active));
}

/// Scaling by a term of degree zero keeps the degree: `c*a`, `a*c` and `a/c` have the degree
/// of `a` and report no offending input of their own.
pub proof fn lemma_degree_scaling(c: ScalarTerm, a: ScalarTerm, active: Set<TensorInputId>)
    requires
        degree(c, active) == Degree::Zero,
    ensures
        degree(bin(TensorBinaryOp::Mul, c, a), active) == degree(a, active),
        degree(bin(TensorBinaryOp::Mul, a, c), active) == degree(a, active),
        degree(bin(TensorBinaryOp::Div, a, c), active) == degree(a, active),
        offending(bin(TensorBinaryOp::Mul, c, a), active) == offending(c, active) + offending(a, active),
        offending(bin(TensorBinaryOp::Div, a, c), active) == offending(a, active) + offending(c, active),
{
    assert(offending(bin(TensorBinaryOp::Mul, c, a), active) =~= offending(c, active) + offending(a, active));
    assert(offending(bin(TensorBinaryOp::Div, a, c), active) =~= offending(a, active) + offending(c, active));
}

/// A product of two non-constant terms, or a quotient by a non-constant term, has unknown
/// degree, and every active input of both operands is offending.
pub proof fn lemma_degree_nonlinear(a: ScalarTerm, b: ScalarTerm, active: Set<TensorInputId>)
    requires
        degree(b, active) != Degree::Zero,
    ensures
        degree(bin(TensorBinaryOp::Div, a, b), active) == Degree::Unknown,
        (active_inputs(a, active) + active_inputs(b, active)).subset_of(
            offending(bin(TensorBinaryOp::Div, a, b), active),
        ),
        degree(a, active) != Degree::Zero ==> degree(bin(TensorBinaryOp::Mul, a, b), active) == Degree::Unknown,
        degree(a, active) != Degree::Zero ==> (active_inputs(a, active) + active_inputs(b, active)).subset_of(
            offending(bin(TensorBinaryOp::Mul, a, b), active),
        ),
{
}

/// The operator and leaf data at the root of two terms agree.
pub open spec fn same_root(a: ScalarTerm, b: ScalarTerm) -> bool {
    match (a, b) {
        (ScalarTerm::Constant { bits: x }, ScalarTerm::Constant { bits: y }) => x == y,
        (ScalarTerm::Input { input: i, indices: x }, ScalarTerm::Input { input: j, indices: y }) => i == j && x == y,
        (ScalarTerm::Unary { op: o1, .. }, ScalarTerm::Unary { op: o2, .. }) => o1 == o2,
        (ScalarTerm::Binary { op: o1, .. }, ScalarTerm::Binary { op: o2, .. }) => o1 == o2,
        (ScalarTerm::IndexEqual { lhs: l1, rhs: r1 }, ScalarTerm::IndexEqual { lhs: l2, rhs: r2 }) => l1 == l2 && r1
            == r2,
        (ScalarTerm::Reduction { op: o1, axis: x1, .. }, ScalarTerm::Reduction { op: o2, axis: x2, .. }) => o1 == o2
            && x1 == x2,
        _ => false,
    }
}

/// Equivalent terms have the same constructor and operator at the root (so `sin u` and `cos u`
/// are never equivalent), and below a unary function, a reduction, or an order-sensitive
/// binary operator (`-`, `/`, `^`, `atan2`) their operands are equivalent in place.
pub proof fn lemma_equivalent_root(a: ScalarTerm, b: ScalarTerm)
    requires
        equivalent(a, b),
    ensures
        same_root(a, b),
        match (a, b) {
            (ScalarTerm::Unary { arg: x, .. }, ScalarTerm::Unary { arg: y, .. }) => equivalent(*x, *y),
            (ScalarTerm::Reduction { expression: x, .. }, ScalarTerm::Reduction { expression: y, .. }) => equivalent(
                *x,
                *y,
            ),
            (ScalarTerm::Binary { op, lhs: l1, rhs: r1 }, ScalarTerm::Binary { lhs: l2, rhs: r2, .. }) => (op
                == TensorBinaryOp::Sub || op == TensorBinaryOp::Div || op == TensorBinaryOp::Pow || op
                == TensorBinaryOp::Atan2) ==> equivalent(*l1, *l2) && equivalent(*r1, *r2),
            _ => true,
        },
{
}

/// Equivalence is a congruence for the order-sensitive constructors: equivalent operands under
/// the same operator give equivalent terms.
pub proof fn lemma_equivalent_congruence(op: TensorUnaryOp, x: ScalarTerm, y: ScalarTerm)
    requires
        equivalent(x, y),
    ensures
        equivalent(un(op, x), un(op, y)),
{
}

/// Negating a term flips its sign and keeps its core.
pub proof fn lemma_sign_negation(e: ScalarTerm)
    ensures
        sign_split(un(TensorUnaryOp::Neg, e)) == (-sign_split(e).0, sign_split(e).1),
{
}

/// Products and quotients split alike: negating either operand of `a * b` or `a / b` flips the
/// sign that is split off and leaves the core unchanged, so `(-a)/b` gives `-1` and `a/b`.
pub proof fn lemma_sign_operand_negation(op: TensorBinaryOp, a: ScalarTerm, b: ScalarTerm)
    requires
        op == TensorBinaryOp::Mul || op == TensorBinaryOp::Div,
    ensures
        sign_split(bin(op, un(TensorUnaryOp::Neg, a), b)) == (-sign_split(bin(op, a, b)).0, sign_split(bin(op, a, b)).1),
        sign_split(bin(op, a, un(TensorUnaryOp::Neg, b))) == (-sign_split(bin(op, a, b)).0, sign_split(bin(op, a, b)).1),
        sign_split(bin(op, a, b)).1 == bin(op, sign_split(a).1, sign_split(b).1),
{
    let sa = sign_split(a).0;
    let sb = sign_split(b).0;
    assert((-sa) * sb == -(sa * sb)) by (nonlinear_arith);
    assert(sa * (-sb) == -(sa * sb)) by (nonlinear_arith);
    assert(sign_split(un(TensorUnaryOp::Neg, a)) == (-sa, sign_split(a).1));
    assert(sign_split(un(TensorUnaryOp::Neg, b)) == (-sb, sign_split(b).1));
    assert(sign_split(bin(op, un(TensorUnaryOp::Neg, a), b)).0 == (-sa) * sb);
    assert(sign_split(bin(op, a, un(TensorUnaryOp::Neg, b))).0 == sa * (-sb));
}

/// Sums and differences carry no sign of their own: they are their own core.
pub proof fn lemma_sign_of_sum(op: TensorBinaryOp, a: ScalarTerm, b: ScalarTerm)
    requires
        op == TensorBinaryOp::Add || op == TensorBinaryOp::Sub,
    ensures
        sign_split(bin(op, a, b)) == (1int, bin(op, a, b)),
{
}

/// The sign is `±1`, and the core carries no further sign: splitting it again gives `+1` and
/// the core itself.
pub proof fn lemma_sign_core_clean(e: ScalarTerm)
    ensures
        sign_split(e).0 == 1 || sign_split(e).0 == -1,
        sign_split(sign_split(e).1) == (1int, sign_split(e).1),
    decreases e,
{
    match e {
        ScalarTerm::Constant { bits } => {
            if below_zero(bits) {
                let c = (bits - 0x8000_0000_0000_0000u64) as u64;
                assert(!below_zero(c));
            }
        },
        ScalarTerm::Unary { op, arg } => {
            lemma_sign_core_clean(*arg);
        },
        ScalarTerm::Binary { op, lhs, rhs } => {
            lemma_sign_core_clean(*lhs);
            lemma_sign_core_clean(*rhs);
        },
        ScalarTerm::Reduction { op, axis, expression } => {
            lemma_sign_core_clean(*expression);
        },
        _ => {},
    }
}

/// Any function other than negation, and `^`, `min`, `max` and `atan2`, of non-constant
/// arguments has unknown degree and makes the active inputs of its arguments offending; of
/// constant arguments it is constant. A reduction keeps the degree of its body.
pub proof fn lemma_degree_functions(
    f: TensorUnaryOp,
    op: TensorBinaryOp,
    a: ScalarTerm,
    b: ScalarTerm,
    active: Set<TensorInputId>,
)
    requires
        f != TensorUnaryOp::Neg,
        op == TensorBinaryOp::Pow || op == TensorBinaryOp::Min || op == TensorBinaryOp::Max || op
            == TensorBinaryOp::Atan2,
    ensures
        degree(un(f, a), active) == (if degree(a, active) == Degree::Zero { Degree::Zero } else { Degree::Unknown }),
        degree(a, active) != Degree::Zero ==> active_inputs(a, active).subset_of(offending(un(f, a), active)),
        degree(bin(op, a, b), active) == (if degree(a, active) == Degree::Zero && degree(b, active) == Degree::Zero {
            Degree::Zero
        } else {
            Degree::Unknown
        }),
        !(degree(a, active) == Degree::Zero && degree(b, active) == Degree::Zero) ==> (active_inputs(a, active)
            + active_inputs(b, active)).subset_of(offending(bin(op, a, b), active)),
{
}

/// A reduction has the degree and the offending inputs of its body.
pub proof fn lemma_degree_reduction(
    op: crate::tensor::TensorReductionOp,
    axis: TensorAxis,
    e: ScalarTerm,
    active: Set<TensorInputId>,
)
    ensures
        degree(ScalarTerm::Reduction { op, axis, expression: Box::new(e) }, active) == degree(e, active),
        offending(ScalarTerm::Reduction { op, axis, expression: Box::new(e) }, active) == offending(e, active),
{
}

/// Setting the sign bit of a positive constant flips its sign and leaves the positive constant
/// as the core; a positive constant is its own core.
pub proof fn lemma_sign_of_constant(bits: u64)
    requires
        0 < bits <= 0x7FF0_0000_0000_0000,
    ensures
        sign_split(ScalarTerm::Constant { bits }) == (1int, ScalarTerm::Constant { bits }),
        sign_split(ScalarTerm::Constant { bits: (bits + 0x8000_0000_0000_0000) as u64 }) == (
            -1int,
            ScalarTerm::Constant { bits },
        ),
{
}

/// A reduction passes its body's sign and core through.
pub proof fn lemma_sign_reduction(op: crate::tensor::TensorReductionOp, axis: TensorAxis, e: ScalarTerm)
    ensures
        sign_split(ScalarTerm::Reduction { op, axis, expression: Box::new(e) }) == (
            sign_split(e).0,
            ScalarTerm::Reduction { op, axis, expression: Box::new(sign_split(e).1) },
        ),
{
}

} // verus!
