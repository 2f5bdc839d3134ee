//! Causalization of an incidence system: a perfect matching, the dependency graph between
//! equations that it induces, its strongly connected components in dependency order (the
//! block lower triangular form), and a deterministic greedy tearing of each coupled block.

use vstd::prelude::*;
use vstd::set_lib::*;
use vstd::relations::injective_on;
use super::{
    IncidenceSystem, Matching, maximum_matching, is_matching, matched_set, consistent_except,
    has_perfect_matching, unmatched_indices, lemma_matched_set_bound,
};
use crate::text::{decimal, list_text, push_decimal, push_list};
use super::components::{
    adj_edge, adj_wf, mutual, is_condensation_order, strictly_increasing,
    strongly_connected_order, path, reaches, lemma_reaches_refl, lemma_reaches_trans,
    lemma_reaches_step,
};
use crate::{lemma_injection_onto, reached};

verus! {

// ---------------------------------------------------------------------------------------
// Sequences of indices.
// ---------------------------------------------------------------------------------------

/// Non-decreasing.
pub open spec fn sorted(s: Seq<usize>) -> bool {
    forall|i: int, j: int| 0 <= i <= j < s.len() ==> #[trigger] s[i] <= #[trigger] s[j]
}

/// `s` is sorted and holds exactly the elements of `v`, with their multiplicities.
pub open spec fn sorted_permutation_of(s: Seq<usize>, v: Seq<usize>) -> bool {
    sorted(s) && s.to_multiset() == v.to_multiset()
}

/// Insertion sort.
fn sort_ascending(v: Vec<usize>) -> (r: Vec<usize>)
    ensures
        sorted_permutation_of(r@, v@),
{
    broadcast use vstd::seq_lib::group_to_multiset_ensures;

    let mut r: Vec<usize> = Vec::new();
    let mut i: usize = 0;
    while i < v.len()
        invariant
            i <= v@.len(),
            sorted(r@),
            r@.to_multiset() == v@.take(i as int).to_multiset(),
        decreases v@.len() - i,
    {
        let x = v[i];
        let mut pos: usize = 0;
        while pos < r.len() && r[pos] <= x
            invariant
                pos <= r@.len(),
                forall|j: int| 0 <= j < pos ==> #[trigger] r@[j] <= x,
            decreases r@.len() - pos,
        {
            pos = pos + 1;
        }
        let ghost r0 = r@;
        r.insert(pos, x);
        proof {
            assert(r@ == r0.insert(pos as int, x));
            assert forall|a: int, b: int| 0 <= a <= b < r@.len() implies #[trigger] r@[a] <= #[trigger] r@[b] by {
                if a < pos && b > pos {
                    assert(r@[b] == r0[b - 1]);
                    assert(r0[a] <= r0[b - 1]);
                } else if a == pos && b > pos {
                    assert(r@[b] == r0[b - 1]);
                    assert(r0[pos as int] > x);
                    assert(r0[pos as int] <= r0[b - 1]);
                } else if a > pos {
                    assert(r0[a - 1] <= r0[b - 1]);
                }
            }
            assert(v@.take(i + 1) =~= v@.take(i as int).push(x));
            vstd::seq_lib::to_multiset_insert(r0, pos as int, x);
            vstd::seq_lib::to_multiset_build(v@.take(i as int), x);
        }
        i = i + 1;
    }
    assert(v@.take(i as int) =~= v@);
    r
}

/// A sequence without duplicates, sorted, is strictly increasing.
proof fn lemma_sorted_no_dup_increasing(s: Seq<usize>)
    requires
        sorted(s),
        s.no_duplicates(),
    ensures
        strictly_increasing(s),
{
    assert forall|i: int, j: int| 0 <= i < j < s.len() implies #[trigger] s[i] < #[trigger] s[j] by {
        assert(s[i] <= s[j]);
    }
}

/// Two sequences with equal multisets agree on membership and length, and one has duplicates
/// exactly when the other has.
proof fn lemma_same_multiset(a: Seq<usize>, b: Seq<usize>)
    requires
        a.to_multiset() == b.to_multiset(),
    ensures
        a.len() == b.len(),
        forall|x: usize| a.contains(x) <==> b.contains(x),
        a.no_duplicates() ==> b.no_duplicates(),
{
    broadcast use vstd::seq_lib::group_to_multiset_ensures;

    vstd::seq_lib::to_multiset_len(a);
    vstd::seq_lib::to_multiset_len(b);
    assert forall|x: usize| a.contains(x) <==> b.contains(x) by {
        vstd::seq_lib::to_multiset_contains(a, x);
        vstd::seq_lib::to_multiset_contains(b, x);
    }
    if a.no_duplicates() {
        a.lemma_multiset_has_no_duplicates();
        assert forall|x: usize| b.to_multiset().contains(x) implies b.to_multiset().count(x) == 1 by {
            assert(a.to_multiset().contains(x));
        }
        b.lemma_multiset_has_no_duplicates_conv();
    }
}

/// Two sequences without duplicates that hold the same elements have equal multisets.
proof fn lemma_same_elements_same_multiset(a: Seq<usize>, b: Seq<usize>)
    requires
        a.no_duplicates(),
        b.no_duplicates(),
        forall|x: usize| a.contains(x) <==> b.contains(x),
    ensures
        a.to_multiset() == b.to_multiset(),
{
    broadcast use vstd::seq_lib::group_to_multiset_ensures;

    a.lemma_multiset_has_no_duplicates();
    b.lemma_multiset_has_no_duplicates();
    assert forall|x: usize| a.to_multiset().count(x) == b.to_multiset().count(x) by {
        if a.contains(x) {
            assert(a.to_multiset().contains(x));
            assert(b.to_multiset().contains(x));
        } else {
            assert(a.to_multiset().count(x) == 0);
            assert(b.to_multiset().count(x) == 0);
        }
    }
    assert(a.to_multiset() =~= b.to_multiset());
}

/// A sequence without duplicates whose elements all lie in `b` (also without duplicates), and
/// which misses an element `x` of `b`, is strictly shorter than `b`.
proof fn lemma_strict_subseq_shorter(k: Seq<usize>, b: Seq<usize>, x: usize)
    requires
        k.no_duplicates(),
        b.no_duplicates(),
        forall|y: usize| k.contains(y) ==> b.contains(y),
        b.contains(x),
        !k.contains(x),
    ensures
        k.len() < b.len(),
{
    k.unique_seq_to_set();
    b.unique_seq_to_set();
    assert(k.to_set().subset_of(b.to_set()));
    k.to_set().lemma_subset_not_in_lt(b.to_set(), x);
}

// ---------------------------------------------------------------------------------------
// Perfect matchings and the dependency graph they induce.
// ---------------------------------------------------------------------------------------

/// `mu` (equation to variable) and `mv` (variable to equation) are the two sides of a matching
/// of the square system that matches every equation and every variable.
pub open spec fn perfect_sides(
    rows: Seq<Vec<usize>>,
    n_var: nat,
    mu: Seq<Option<usize>>,
    mv: Seq<Option<usize>>,
) -> bool {
    &&& rows.len() == n_var
    &&& mv.len() == n_var
    &&& is_matching(rows, n_var, mu)
    &&& consistent_except(mu, mv, None)
    &&& forall|e: int| 0 <= e < mu.len() ==> #[trigger] mu[e] is Some
    &&& forall|v: int| 0 <= v < mv.len() ==> #[trigger] mv[v] is Some
}

/// Equation `e` mentions the variable that the matching `mu` assigns to another equation `s`:
/// `e` can only be solved once `s` has been.
pub open spec fn depends_on(rows: Seq<Vec<usize>>, mu: Seq<Option<usize>>, e: int, s: int) -> bool {
    &&& 0 <= e < rows.len()
    &&& 0 <= s < mu.len()
    &&& e != s
    &&& mu[s] is Some
    &&& rows[e]@.contains(mu[s].unwrap())
}

/// The dependency relation as a graph on equations.
pub open spec fn dependency_edge(rows: Seq<Vec<usize>>, mu: Seq<Option<usize>>) -> spec_fn(int, int) -> bool {
    |e: int, s: int| depends_on(rows, mu, e, s)
}

/// A maximum matching that matches as many equations as there are, of a square system, has
/// both sides total.
proof fn lemma_perfect_total(rows: Seq<Vec<usize>>, n_var: nat, mu: Seq<Option<usize>>, mv: Seq<Option<usize>>)
    requires
        rows.len() == n_var,
        mv.len() == n_var,
        is_matching(rows, n_var, mu),
        consistent_except(mu, mv, None),
        matched_set(mu).len() == mu.len(),
    ensures
        perfect_sides(rows, n_var, mu, mv),
{
    let n = mu.len() as int;
    lemma_matched_set_bound(mu);
    lemma_int_range(0, n);
    assert(matched_set(mu).subset_of(set_int_range(0, n)));
    assert forall|e: int| 0 <= e < mu.len() implies #[trigger] mu[e] is Some by {
        if mu[e] is None {
            matched_set(mu).lemma_subset_not_in_lt(set_int_range(0, n), e);
        }
    }
    let f = |e: int| mu[e].unwrap() as int;
    let all = set_int_range(0, n);
    assert(injective_on(f, all)) by {
        assert forall|a: int, b: int| all.contains(a) && all.contains(b) && #[trigger] f(a) == #[trigger] f(b) implies a == b by {
            if a != b {
                assert(mu[a] != mu[b]);
            }
        }
    }
    let img = all.map(f);
    lemma_map_size(all, img, f);
    assert(img.subset_of(all)) by {
        assert forall|v: int| img.contains(v) implies all.contains(v) by {
            let e = choose|e: int| all.contains(e) && f(e) == v;
            assert(mu[e] is Some);
        }
    }
    assert forall|v: int| 0 <= v < mv.len() implies #[trigger] mv[v] is Some by {
        if !img.contains(v) {
            img.lemma_subset_not_in_lt(all, v);
        }
        let e = choose|e: int| all.contains(e) && f(e) == v;
        assert(mu[e] is Some);
        assert(mv[mu[e].unwrap() as int] == Some(e as usize));
    }
}

/// The dependency graph of the matching, as adjacency lists.
fn dependency_digraph(system: &IncidenceSystem, matching: &Matching) -> (adj: Vec<Vec<usize>>)
    requires
        system.wf(),
        perfect_sides(
            system.rows@,
            system.variables@.len(),
            matching.equation_to_variable@,
            matching.variable_to_equation@,
        ),
    ensures
        adj@.len() == system.rows@.len(),
        adj_wf(adj@),
        forall|e: int, s: int|
            #[trigger] adj_edge(adj@)(e, s) == depends_on(system.rows@, matching.equation_to_variable@, e, s),
{
    let ghost rows = system.rows@;
    let ghost mu = matching.equation_to_variable@;
    let ghost mv = matching.variable_to_equation@;
    let n = system.n_equations();
    let mut adj: Vec<Vec<usize>> = Vec::new();
    let mut equation: usize = 0;
    while equation < n
        invariant
            rows == system.rows@,
            mu == matching.equation_to_variable@,
            mv == matching.variable_to_equation@,
            system.wf(),
            perfect_sides(rows, system.variables@.len(), mu, mv),
            n == rows.len(),
            equation <= n,
            adj@.len() == equation,
            forall|x: int, k: int|
                0 <= x < equation && 0 <= k < adj@[x]@.len() ==> (#[trigger] adj@[x]@[k] as int) < n,
            forall|x: int, s: int|
                0 <= x < equation && 0 <= s < n ==> (#[trigger] adj@[x]@.contains(s as usize)
                    == depends_on(rows, mu, x, s)),
        decreases n - equation,
    {
        let own = matching.equation_to_variable[equation];
        let row = &system.rows[equation];
        let mut out: Vec<usize> = Vec::new();
        let mut k: usize = 0;
        while k < row.len()
            invariant
                rows == system.rows@,
                mu == matching.equation_to_variable@,
                mv == matching.variable_to_equation@,
                system.wf(),
                perfect_sides(rows, system.variables@.len(), mu, mv),
                n == rows.len(),
                equation < n,
                row@ == rows[equation as int]@,
                own == mu[equation as int],
                k <= row@.len(),
                forall|j: int| 0 <= j < out@.len() ==> (#[trigger] out@[j] as int) < n
                    && depends_on(rows, mu, equation as int, out@[j] as int),
                forall|j: int|
                    0 <= j < k && (row@[j] as int) < mv.len() && #[trigger] mv[row@[j] as int] is Some
                        && mv[row@[j] as int].unwrap() != equation ==> out@.contains(
                        mv[row@[j] as int].unwrap(),
                    ),
            decreases row@.len() - k,
        {
            let variable = row[k];
            proof {
                assert((rows[equation as int]@[k as int] as int) < system.variables@.len());
            }
            let is_own = match own {
                Some(o) => o == variable,
                None => false,
            };
            if is_own {
                proof {
                    assert(mv[variable as int] == Some(equation));
                }
            } else {
                match matching.variable_to_equation[variable] {
                    Some(solver) => {
                        if solver != equation {
                            proof {
                                assert(mu[solver as int] == Some(variable));
                                assert(rows[equation as int]@[k as int] == variable);
                            }
                            let ghost out0 = out@;
                            out.push(solver);
                            proof {
                                assert(out@[out0.len() as int] == solver);
                                assert forall|j: int|
                                    0 <= j < k && (row@[j] as int) < mv.len() && #[trigger] mv[row@[j] as int] is Some
                                        && mv[row@[j] as int].unwrap() != equation implies out@.contains(
                                        mv[row@[j] as int].unwrap(),
                                    ) by {
                                    let w = mv[row@[j] as int].unwrap();
                                    assert(out0.contains(w));
                                    let i0 = choose|i0: int| 0 <= i0 < out0.len() && out0[i0] == w;
                                    assert(out@[i0] == w);
                                }
                            }
                        }
                    },
                    None => {},
                }
            }
            k = k + 1;
        }
        proof {
            assert forall|s: int| 0 <= s < n implies #[trigger] out@.contains(s as usize) == depends_on(
                rows,
                mu,
                equation as int,
                s,
            ) by {
                if depends_on(rows, mu, equation as int, s) {
                    let v = mu[s].unwrap();
                    let j = choose|j: int| 0 <= j < row@.len() && row@[j] == v;
                    assert(mv[v as int] == Some(s as usize));
                    assert(mv[row@[j] as int] is Some);
                }
                if out@.contains(s as usize) {
                    let j = choose|j: int| 0 <= j < out@.len() && out@[j] == s as usize;
                    assert(depends_on(rows, mu, equation as int, out@[j] as int));
                }
            }
        }
        adj.push(out);
        equation = equation + 1;
    }
    proof {
        assert forall|e: int, s: int|
            #[trigger] adj_edge(adj@)(e, s) == depends_on(rows, mu, e, s) by {
            if 0 <= e < n && 0 <= s < n {
                assert(adj@[e]@.contains(s as usize) == depends_on(rows, mu, e, s));
            }
        }
    }
    adj
}

// ---------------------------------------------------------------------------------------
// Block lower triangular order.
// ---------------------------------------------------------------------------------------

/// A strongly connected component of the dependency graph, with the variables that the
/// matching assigns to its equations.
struct SccBlock {
    equations: Vec<usize>,
    variables: Vec<usize>,
}

impl SccBlock {
    fn size(&self) -> (n: usize)
        ensures
            n == self.equations@.len(),
    {
        self.equations.len()
    }
}

/// `b` is component `c` of the condensation: its equations are those of the component, and its
/// variables, in increasing order, are those matched to them.
spec fn is_component_block(
    b: SccBlock,
    c: int,
    mv: Seq<Option<usize>>,
    comps: Seq<Vec<usize>>,
    index: Seq<usize>,
) -> bool {
    &&& b.equations@ == comps[c]@
    &&& strictly_increasing(b.variables@)
    &&& b.variables@.len() == b.equations@.len()
    &&& forall|v: usize|
        #[trigger] b.variables@.contains(v) <==> ((v as int) < mv.len() && mv[v as int] is Some
            && index[mv[v as int].unwrap() as int] == c)
}

/// The strongly connected components of the dependency graph, each with its matched
/// variables, in an order where every dependency points to the same or an earlier block.
fn blt_order(system: &IncidenceSystem, matching: &Matching) -> (r: (
    Vec<SccBlock>,
    Ghost<(Seq<Vec<usize>>, Seq<usize>)>,
))
    requires
        system.wf(),
        perfect_sides(
            system.rows@,
            system.variables@.len(),
            matching.equation_to_variable@,
            matching.variable_to_equation@,
        ),
    ensures
        is_condensation_order(
            dependency_edge(system.rows@, matching.equation_to_variable@),
            system.rows@.len(),
            r.1@.0,
            r.1@.1,
        ),
        r.0@.len() == r.1@.0.len(),
        forall|c: int|
            0 <= c < r.0@.len() ==> is_component_block(
                #[trigger] r.0@[c],
                c,
                matching.variable_to_equation@,
                r.1@.0,
                r.1@.1,
            ),
{
    let ghost rows = system.rows@;
    let ghost mu = matching.equation_to_variable@;
    let ghost mv = matching.variable_to_equation@;
    let ghost n = rows.len();
    let adj = dependency_digraph(system, matching);
    let (comps, index) = strongly_connected_order(&adj);
    let ghost edge = dependency_edge(rows, mu);
    proof {
        assert(adj_edge(adj@) =~= edge);
    }
    let mut blocks: Vec<SccBlock> = Vec::new();
    let mut c: usize = 0;
    while c < comps.len()
        invariant
            rows == system.rows@,
            mu == matching.equation_to_variable@,
            mv == matching.variable_to_equation@,
            n == rows.len(),
            system.wf(),
            perfect_sides(rows, system.variables@.len(), mu, mv),
            is_condensation_order(edge, n, comps@, index@),
            c <= comps@.len(),
            blocks@.len() == c,
            forall|c2: int| 0 <= c2 < c ==> is_component_block(#[trigger] blocks@[c2], c2, mv, comps@, index@),
        decreases comps@.len() - c,
    {
        let component = &comps[c];
        let equations = component.clone();
        proof {
            assert(equations@ =~= component@);
        }
        let mut vars: Vec<usize> = Vec::new();
        let mut k: usize = 0;
        while k < component.len()
            invariant
                mu == matching.equation_to_variable@,
                n == rows.len(),
                perfect_sides(rows, system.variables@.len(), mu, mv),
                is_condensation_order(edge, n, comps@, index@),
                c < comps@.len(),
                component@ == comps@[c as int]@,
                k <= component@.len(),
                vars@.len() == k,
                forall|j: int| 0 <= j < k ==> Some(#[trigger] vars@[j]) == mu[component@[j] as int],
            decreases component@.len() - k,
        {
            let e = component[k];
            proof {
                assert((comps@[c as int]@[k as int] as int) < n);
            }
            match matching.equation_to_variable[e] {
                Some(v) => {
                    vars.push(v);
                },
                None => {
                    proof {
                        assert(mu[e as int] is Some);
                    }
                },
            }
            k = k + 1;
        }
        let ghost raw = vars@;
        let variables = sort_ascending(vars);
        proof {
            let comp = comps@[c as int]@;
            assert(raw.no_duplicates()) by {
                assert forall|i: int, j: int| 0 <= i < raw.len() && 0 <= j < raw.len() && i != j implies raw[i] != raw[j] by {
                    assert(strictly_increasing(comp));
                    if i < j {
                        assert(comp[i] < comp[j]);
                    } else {
                        assert(comp[j] < comp[i]);
                    }
                    assert(Some(raw[i]) == mu[comp[i] as int]);
                    assert(Some(raw[j]) == mu[comp[j] as int]);
                }
            }
            lemma_same_multiset(raw, variables@);
            lemma_sorted_no_dup_increasing(variables@);
            assert forall|v: usize|
                #[trigger] variables@.contains(v) <==> ((v as int) < mv.len() && mv[v as int] is Some
                    && index@[mv[v as int].unwrap() as int] == c) by {
                if raw.contains(v) {
                    let j = choose|j: int| 0 <= j < raw.len() && raw[j] == v;
                    assert(Some(raw[j]) == mu[comp[j] as int]);
                    assert(index@[comp[j] as int] == c);
                    assert(mv[v as int] == Some(comp[j]));
                }
                if (v as int) < mv.len() && mv[v as int] is Some && index@[mv[v as int].unwrap() as int] == c {
                    let e = mv[v as int].unwrap();
                    assert(mu[e as int] == Some(v));
                    assert(comp.contains(e));
                    let j = choose|j: int| 0 <= j < comp.len() && comp[j] == e;
                    assert(Some(raw[j]) == mu[comp[j] as int]);
                    assert(raw.contains(v));
                }
            }
        }
        blocks.push(SccBlock { equations, variables });
        c = c + 1;
    }
    (blocks, Ghost((comps@, index@)))
}

// ---------------------------------------------------------------------------------------
// Tearing of a coupled block.
// ---------------------------------------------------------------------------------------

/// A block split into assignment equations, solved in order each for its assignment variable,
/// and residual equations that close the iteration on the tearing variables.
struct TornBlock {
    tearing_vars: Vec<usize>,
    assignment_eqs: Vec<usize>,
    assignment_vars: Vec<usize>,
    residual_eqs: Vec<usize>,
}

/// Given the tearing variables, the assignment equations can be solved one after the other:
/// the `k`-th mentions its assignment variable, and every other block variable it mentions is
/// a tearing variable or was assigned by an earlier assignment equation.
pub open spec fn assignments_causal(
    rows: Seq<Vec<usize>>,
    block_vars: Seq<usize>,
    a_eqs: Seq<usize>,
    a_vars: Seq<usize>,
    tearing: Seq<usize>,
) -> bool {
    forall|k: int|
        0 <= k < a_eqs.len() ==> {
            &&& rows[#[trigger] a_eqs[k] as int]@.contains(a_vars[k])
            &&& forall|v: usize|
                #[trigger] rows[a_eqs[k] as int]@.contains(v) && block_vars.contains(v) ==> tearing.contains(v)
                    || a_vars.take(k + 1).contains(v)
        }
}

/// `t` tears the block with equations `eqs` and variables `vars`.
spec fn is_tearing_of(t: TornBlock, rows: Seq<Vec<usize>>, eqs: Seq<usize>, vars: Seq<usize>) -> bool {
    &&& (t.assignment_eqs@ + t.residual_eqs@).to_multiset() == eqs.to_multiset()
    &&& (t.assignment_vars@ + t.tearing_vars@).to_multiset() == vars.to_multiset()
    &&& t.assignment_eqs@.len() == t.assignment_vars@.len()
    &&& assignments_causal(rows, vars, t.assignment_eqs@, t.assignment_vars@, t.tearing_vars@)
}

fn contains_value(row: &Vec<usize>, x: usize) -> (b: bool)
    ensures
        b == row@.contains(x),
{
    let mut j: usize = 0;
    while j < row.len()
        invariant
            j <= row@.len(),
            forall|i: int| 0 <= i < j ==> row@[i] != x,
        decreases row@.len() - j,
    {
        if row[j] == x {
            return true;
        }
        j = j + 1;
    }
    false
}

/// How many of the first `l` equations are still unused and mention `v`.
spec fn count_incident(restricted: Seq<Vec<usize>>, used: Seq<bool>, v: usize, l: int) -> nat
    decreases l,
{
    if l <= 0 {
        0
    } else {
        count_incident(restricted, used, v, l - 1) + if !used[l - 1] && restricted[l - 1]@.contains(v) {
            1nat
        } else {
            0nat
        }
    }
}

/// The number of unused equations of the block that mention `v`.
fn incidence(restricted: &Vec<Vec<usize>>, used: &Vec<bool>, v: usize) -> (c: usize)
    requires
        used@.len() == restricted@.len(),
    ensures
        c == count_incident(restricted@, used@, v, restricted@.len() as int),
{
    let mut c: usize = 0;
    let mut l: usize = 0;
    while l < restricted.len()
        invariant
            used@.len() == restricted@.len(),
            l <= restricted@.len(),
            c == count_incident(restricted@, used@, v, l as int),
            c <= l,
        decreases restricted@.len() - l,
    {
        if !used[l] && contains_value(&restricted[l], v) {
            c = c + 1;
        }
        l = l + 1;
    }
    c
}

/// The one variable of `row` not yet known, if there is exactly one.
fn sole_unknown(row: &Vec<usize>, known: &Vec<bool>) -> (r: Option<usize>)
    requires
        forall|j: int| 0 <= j < row@.len() ==> (#[trigger] row@[j] as int) < known@.len(),
    ensures
        match r {
            Some(v) => row@.contains(v) && !known@[v as int] && forall|w: usize|
                #[trigger] row@.contains(w) && w != v ==> known@[w as int],
            None => forall|v: usize|
                #[trigger] row@.contains(v) && !known@[v as int] ==> exists|w: usize|
                    #[trigger] row@.contains(w) && !known@[w as int] && w != v,
        },
{
    let mut sole: Option<usize> = None;
    let mut multiple = false;
    let mut j: usize = 0;
    while j < row.len() && !multiple
        invariant
            forall|i: int| 0 <= i < row@.len() ==> (#[trigger] row@[i] as int) < known@.len(),
            j <= row@.len(),
            multiple ==> exists|a: int, b: int|
                0 <= a < row@.len() && 0 <= b < row@.len() && !known@[row@[a] as int] && !known@[row@[b] as int]
                    && #[trigger] row@[a] != #[trigger] row@[b],
            !multiple ==> match sole {
                Some(v) => row@.subrange(0, j as int).contains(v) && !known@[v as int] && forall|i: int|
                    0 <= i < j && #[trigger] row@[i] != v ==> known@[row@[i] as int],
                None => forall|i: int| 0 <= i < j ==> known@[#[trigger] row@[i] as int],
            },
        decreases row@.len() - j,
    {
        let variable = row[j];
        if !known[variable] {
            match sole {
                Some(w) => {
                    if w != variable {
                        proof {
                            let a = choose|a: int| 0 <= a < j && row@[a] == w;
                            assert(row@[a] != row@[j as int]);
                        }
                        multiple = true;
                    }
                },
                None => {
                    sole = Some(variable);
                },
            }
        }
        proof {
            if !multiple {
                if let Some(v) = sole {
                    assert(row@.subrange(0, j + 1).contains(v)) by {
                        let a = choose|a: int| 0 <= a < j + 1 && (row@[a] == v || (a == j && variable == v));
                        if row@.subrange(0, j as int).contains(v) {
                            let b = choose|b: int| 0 <= b < j && row@.subrange(0, j as int)[b] == v;
                            assert(row@.subrange(0, j + 1)[b] == v);
                        } else {
                            assert(row@.subrange(0, j + 1)[j as int] == v);
                        }
                    }
                }
            }
        }
        j = j + 1;
    }
    if multiple {
        proof {
            let (a, b) = choose|a: int, b: int|
                0 <= a < row@.len() && 0 <= b < row@.len() && !known@[row@[a] as int] && !known@[row@[b] as int]
                    && #[trigger] row@[a] != #[trigger] row@[b];
            assert forall|v: usize| #[trigger] row@.contains(v) && !known@[v as int] implies exists|w: usize|
                #[trigger] row@.contains(w) && !known@[w as int] && w != v by {
                if row@[a] != v {
                    assert(row@.contains(row@[a]));
                } else {
                    assert(row@.contains(row@[b]));
                }
            }
        }
        None
    } else {
        proof {
            match sole {
                Some(v) => {
                    assert(row@.subrange(0, j as int) =~= row@);
                },
                None => {},
            }
        }
        sole
    }
}

/// `restricted[i]` holds the block variables that equation `eqs[i]` mentions.
spec fn restricted_rows(
    rows: Seq<Vec<usize>>,
    eqs: Seq<usize>,
    bv: Seq<usize>,
    restricted: Seq<Vec<usize>>,
    n_var: nat,
) -> bool {
    &&& restricted.len() == eqs.len()
    &&& forall|i: int, j: int|
        0 <= i < restricted.len() && 0 <= j < restricted[i]@.len() ==> (#[trigger] restricted[i]@[j] as int)
            < n_var
    &&& forall|i: int, v: usize|
        0 <= i < restricted.len() ==> (#[trigger] restricted[i]@.contains(v) <==> (rows[eqs[i] as int]@.contains(v)
            && bv.contains(v)))
}

/// Each equation's row, cut down to the block's variables.
fn restrict_rows(system: &IncidenceSystem, equations: &Vec<usize>, is_block_variable: &Vec<bool>, Ghost(bv): Ghost<Seq<usize>>) -> (restricted: Vec<Vec<usize>>)
    requires
        system.wf(),
        is_block_variable@.len() == system.variables@.len(),
        forall|v: int| 0 <= v < is_block_variable@.len() ==> (#[trigger] is_block_variable@[v] <==> bv.contains(v as usize)),
        forall|k: int| 0 <= k < equations@.len() ==> (#[trigger] equations@[k] as int) < system.rows@.len(),
    ensures
        restricted_rows(system.rows@, equations@, bv, restricted@, system.variables@.len()),
{
    let ghost rows = system.rows@;
    let ghost n_var = system.variables@.len();
    let mut restricted: Vec<Vec<usize>> = Vec::new();
    let mut i: usize = 0;
    while i < equations.len()
        invariant
            rows == system.rows@,
            n_var == system.variables@.len(),
            system.wf(),
            is_block_variable@.len() == n_var,
            forall|v: int| 0 <= v < is_block_variable@.len() ==> (#[trigger] is_block_variable@[v] <==> bv.contains(v as usize)),
            forall|k: int| 0 <= k < equations@.len() ==> (#[trigger] equations@[k] as int) < rows.len(),
            i <= equations@.len(),
            restricted@.len() == i,
            forall|a: int, j: int|
                0 <= a < i && 0 <= j < restricted@[a]@.len() ==> (#[trigger] restricted@[a]@[j] as int) < n_var,
            forall|a: int, v: usize|
                0 <= a < i ==> (#[trigger] restricted@[a]@.contains(v) <==> (rows[equations@[a] as int]@.contains(v)
                    && bv.contains(v))),
        decreases equations@.len() - i,
    {
        let row = &system.rows[equations[i]];
        let mut out: Vec<usize> = Vec::new();
        let mut j: usize = 0;
        while j < row.len()
            invariant
                system.wf(),
                rows == system.rows@,
                n_var == system.variables@.len(),
                is_block_variable@.len() == n_var,
                forall|v: int| 0 <= v < is_block_variable@.len() ==> (#[trigger] is_block_variable@[v] <==> bv.contains(v as usize)),
                i < equations@.len(),
                (equations@[i as int] as int) < rows.len(),
                row@ == rows[equations@[i as int] as int]@,
                j <= row@.len(),
                forall|a: int| 0 <= a < out@.len() ==> (#[trigger] out@[a] as int) < n_var,
                forall|v: usize| #[trigger] out@.contains(v) <==> (row@.subrange(0, j as int).contains(v) && bv.contains(v)),
            decreases row@.len() - j,
        {
            let variable = row[j];
            proof {
                assert((rows[equations@[i as int] as int]@[j as int] as int) < n_var);
            }
            let ghost out0 = out@;
            if is_block_variable[variable] {
                out.push(variable);
            }
            proof {
                assert(row@.subrange(0, j + 1) =~= row@.subrange(0, j as int).push(variable));
                assert forall|v: usize| #[trigger] out@.contains(v) <==> (row@.subrange(0, j + 1).contains(v) && bv.contains(v)) by {
                    assert(out0.contains(v) <==> (row@.subrange(0, j as int).contains(v) && bv.contains(v)));
                    assert(row@.subrange(0, j + 1).contains(v) <==> (row@.subrange(0, j as int).contains(v) || v == variable)) by {
                        let s0 = row@.subrange(0, j as int);
                        let s1 = row@.subrange(0, j + 1);
                        if s1.contains(v) {
                            let a = choose|a: int| 0 <= a < s1.len() && s1[a] == v;
                            if a < j {
                                assert(s0[a] == v);
                            }
                        }
                        if s0.contains(v) {
                            let a = choose|a: int| 0 <= a < s0.len() && s0[a] == v;
                            assert(s1[a] == v);
                        }
                        if v == variable {
                            assert(s1[j as int] == v);
                        }
                    }
                    if out@.contains(v) {
                        let a = choose|a: int| 0 <= a < out@.len() && out@[a] == v;
                        if a < out0.len() {
                            assert(out0[a] == v);
                        }
                    }
                    if out0.contains(v) {
                        let a = choose|a: int| 0 <= a < out0.len() && out0[a] == v;
                        assert(out@[a] == v);
                    }
                    if v == variable && bv.contains(v) {
                        assert(out@[out@.len() - 1] == v);
                    }
                }
            }
            j = j + 1;
        }
        proof {
            assert(row@.subrange(0, j as int) =~= row@);
        }
        restricted.push(out);
        i = i + 1;
    }
    restricted
}

/// The state of the tearing loop: the known variables are the tearing variables and the
/// assignment variables so far, all distinct block variables; the used equations are the
/// assignment equations so far; and the assignments are causal.
spec fn tear_inv(
    rows: Seq<Vec<usize>>,
    eqs: Seq<usize>,
    bv: Seq<usize>,
    known: Seq<bool>,
    used: Seq<bool>,
    remaining: int,
    t: Seq<usize>,
    ae: Seq<usize>,
    av: Seq<usize>,
    ai: Seq<int>,
) -> bool {
    &&& used.len() == eqs.len()
    &&& forall|k: int| 0 <= k < bv.len() ==> (#[trigger] bv[k] as int) < known.len()
    &&& forall|v: usize|
        (v as int) < known.len() ==> (#[trigger] known[v as int] <==> (t.contains(v) || av.contains(v)))
    &&& t.no_duplicates()
    &&& av.no_duplicates()
    &&& forall|i: int, j: int| 0 <= i < t.len() && 0 <= j < av.len() ==> #[trigger] t[i] != #[trigger] av[j]
    &&& forall|x: usize| #[trigger] t.contains(x) ==> bv.contains(x)
    &&& forall|x: usize| #[trigger] av.contains(x) ==> bv.contains(x)
    &&& remaining == bv.len() - t.len() - av.len()
    &&& ai.len() == ae.len()
    &&& ae.len() == av.len()
    &&& ai.no_duplicates()
    &&& forall|k: int| 0 <= k < ai.len() ==> 0 <= #[trigger] ai[k] < eqs.len() && ae[k] == eqs[ai[k]]
    &&& forall|i: int| 0 <= i < eqs.len() ==> (#[trigger] used[i] <==> ai.contains(i))
    &&& assignments_causal(rows, bv, ae, av, t)
}

/// An unknown block variable leaves at least one unit of work.
proof fn lemma_unknown_remaining(
    rows: Seq<Vec<usize>>,
    eqs: Seq<usize>,
    bv: Seq<usize>,
    known: Seq<bool>,
    used: Seq<bool>,
    remaining: int,
    t: Seq<usize>,
    ae: Seq<usize>,
    av: Seq<usize>,
    ai: Seq<int>,
    v: usize,
)
    requires
        tear_inv(rows, eqs, bv, known, used, remaining, t, ae, av, ai),
        bv.no_duplicates(),
        bv.contains(v),
        !known[v as int],
    ensures
        remaining > 0,
{
    let k = t + av;
    vstd::seq_lib::lemma_no_dup_in_concat(t, av);
    let i = choose|i: int| 0 <= i < bv.len() && bv[i] == v;
    assert((bv[i] as int) < known.len());
    assert forall|y: usize| k.contains(y) implies bv.contains(y) by {
        let j = choose|j: int| 0 <= j < k.len() && k[j] == y;
        if j < t.len() {
            assert(t.contains(y));
        } else {
            assert(av[j - t.len()] == y);
            assert(av.contains(y));
        }
    }
    assert(!k.contains(v)) by {
        if k.contains(v) {
            let j = choose|j: int| 0 <= j < k.len() && k[j] == v;
            if j < t.len() {
                assert(t.contains(v));
            } else {
                assert(av[j - t.len()] == v);
                assert(av.contains(v));
            }
        }
    }
    lemma_strict_subseq_shorter(k, bv, v);
}

/// Solving the sole unknown block variable `v` of unused equation `l` keeps the invariant.
proof fn lemma_assign_step(
    rows: Seq<Vec<usize>>,
    eqs: Seq<usize>,
    bv: Seq<usize>,
    restricted: Seq<Vec<usize>>,
    n_var: nat,
    known: Seq<bool>,
    used: Seq<bool>,
    remaining: int,
    t: Seq<usize>,
    ae: Seq<usize>,
    av: Seq<usize>,
    ai: Seq<int>,
    l: int,
    v: usize,
)
    requires
        tear_inv(rows, eqs, bv, known, used, remaining, t, ae, av, ai),
        restricted_rows(rows, eqs, bv, restricted, n_var),
        known.len() == n_var,
        0 <= l < eqs.len(),
        !used[l],
        restricted[l]@.contains(v),
        !known[v as int],
        forall|w: usize| #[trigger] restricted[l]@.contains(w) && w != v ==> known[w as int],
    ensures
        tear_inv(
            rows,
            eqs,
            bv,
            known.update(v as int, true),
            used.update(l, true),
            remaining - 1,
            t,
            ae.push(eqs[l]),
            av.push(v),
            ai.push(l),
        ),
{
    let known2 = known.update(v as int, true);
    let used2 = used.update(l, true);
    let ae2 = ae.push(eqs[l]);
    let av2 = av.push(v);
    let ai2 = ai.push(l);
    let j0 = choose|j: int| 0 <= j < restricted[l]@.len() && restricted[l]@[j] == v;
    assert((restricted[l]@[j0] as int) < n_var);
    assert(bv.contains(v));
    assert(!t.contains(v));
    assert(!av.contains(v));
    assert forall|x: usize| (x as int) < known2.len() implies (#[trigger] known2[x as int] <==> (t.contains(x) || av2.contains(x))) by {
        if x != v {
            assert(known2[x as int] == known[x as int]);
            if av2.contains(x) {
                let j = choose|j: int| 0 <= j < av2.len() && av2[j] == x;
                assert(av[j] == x);
            }
            if av.contains(x) {
                let j = choose|j: int| 0 <= j < av.len() && av[j] == x;
                assert(av2[j] == x);
            }
        } else {
            assert(av2[av.len() as int] == v);
        }
    }
    assert forall|i: int, j: int| 0 <= i < t.len() && 0 <= j < av2.len() implies #[trigger] t[i] != #[trigger] av2[j] by {
        if j == av.len() {
            assert(t.contains(t[i]));
        }
    }
    assert forall|x: usize| #[trigger] av2.contains(x) implies bv.contains(x) by {
        let j = choose|j: int| 0 <= j < av2.len() && av2[j] == x;
        if j < av.len() {
            assert(av.contains(av[j]));
        }
    }
    assert(!ai.contains(l));
    assert forall|i: int| 0 <= i < eqs.len() implies (#[trigger] used2[i] <==> ai2.contains(i)) by {
        if i != l {
            if ai2.contains(i) {
                let j = choose|j: int| 0 <= j < ai2.len() && ai2[j] == i;
                assert(ai[j] == i);
            }
            if ai.contains(i) {
                let j = choose|j: int| 0 <= j < ai.len() && ai[j] == i;
                assert(ai2[j] == i);
            }
        } else {
            assert(ai2[ai.len() as int] == l);
        }
    }
    assert forall|k: int| 0 <= k < ai2.len() implies 0 <= #[trigger] ai2[k] < eqs.len() && ae2[k] == eqs[ai2[k]] by {
        if k < ai.len() {
            assert(ai2[k] == ai[k]);
        }
    }
    assert(assignments_causal(rows, bv, ae2, av2, t)) by {
        assert forall|k: int| 0 <= k < ae2.len() implies {
            &&& rows[#[trigger] ae2[k] as int]@.contains(av2[k])
            &&& forall|w: usize|
                #[trigger] rows[ae2[k] as int]@.contains(w) && bv.contains(w) ==> t.contains(w)
                    || av2.take(k + 1).contains(w)
        } by {
            if k < ae.len() {
                assert(ae2[k] == ae[k]);
                assert(av2.take(k + 1) =~= av.take(k + 1));
                assert(rows[ae[k] as int]@.contains(av[k]));
            } else {
                assert(av2.take(k + 1) =~= av2);
                assert(restricted[l]@.contains(v));
                assert(rows[eqs[l] as int]@.contains(v));
                assert forall|w: usize| #[trigger] rows[ae2[k] as int]@.contains(w) && bv.contains(w) implies t.contains(w)
                    || av2.take(k + 1).contains(w) by {
                    assert(restricted[l]@.contains(w));
                    if w == v {
                        assert(av2[av.len() as int] == v);
                    } else {
                        let j = choose|j: int| 0 <= j < restricted[l]@.len() && restricted[l]@[j] == w;
                        assert((restricted[l]@[j] as int) < n_var);
                        assert(known[w as int]);
                        if av.contains(w) {
                            let j2 = choose|j2: int| 0 <= j2 < av.len() && av[j2] == w;
                            assert(av2[j2] == w);
                        }
                    }
                }
            }
        }
    }
}

/// Choosing the unknown block variable `v` as a tearing variable keeps the invariant.
proof fn lemma_tear_step(
    rows: Seq<Vec<usize>>,
    eqs: Seq<usize>,
    bv: Seq<usize>,
    known: Seq<bool>,
    used: Seq<bool>,
    remaining: int,
    t: Seq<usize>,
    ae: Seq<usize>,
    av: Seq<usize>,
    ai: Seq<int>,
    v: usize,
)
    requires
        tear_inv(rows, eqs, bv, known, used, remaining, t, ae, av, ai),
        bv.contains(v),
        !known[v as int],
    ensures
        tear_inv(rows, eqs, bv, known.update(v as int, true), used, remaining - 1, t.push(v), ae, av, ai),
{
    let known2 = known.update(v as int, true);
    let t2 = t.push(v);
    let i0 = choose|i: int| 0 <= i < bv.len() && bv[i] == v;
    assert((bv[i0] as int) < known.len());
    assert(!t.contains(v));
    assert(!av.contains(v));
    assert forall|x: usize| (x as int) < known2.len() implies (#[trigger] known2[x as int] <==> (t2.contains(x) || av.contains(x))) by {
        if x != v {
            assert(known2[x as int] == known[x as int]);
            if t2.contains(x) {
                let j = choose|j: int| 0 <= j < t2.len() && t2[j] == x;
                assert(t[j] == x);
            }
            if t.contains(x) {
                let j = choose|j: int| 0 <= j < t.len() && t[j] == x;
                assert(t2[j] == x);
            }
        } else {
            assert(t2[t.len() as int] == v);
        }
    }
    assert forall|i: int, j: int| 0 <= i < t2.len() && 0 <= j < av.len() implies #[trigger] t2[i] != #[trigger] av[j] by {
        if i == t.len() {
            assert(av.contains(av[j]));
        }
    }
    assert forall|x: usize| #[trigger] t2.contains(x) implies bv.contains(x) by {
        let j = choose|j: int| 0 <= j < t2.len() && t2[j] == x;
        if j < t.len() {
            assert(t.contains(t[j]));
        }
    }
    assert(assignments_causal(rows, bv, ae, av, t2)) by {
        assert forall|k: int| 0 <= k < ae.len() implies {
            &&& rows[#[trigger] ae[k] as int]@.contains(av[k])
            &&& forall|w: usize|
                #[trigger] rows[ae[k] as int]@.contains(w) && bv.contains(w) ==> t2.contains(w)
                    || av.take(k + 1).contains(w)
        } by {
            assert forall|w: usize| #[trigger] rows[ae[k] as int]@.contains(w) && bv.contains(w) implies t2.contains(w)
                || av.take(k + 1).contains(w) by {
                if t.contains(w) {
                    let j = choose|j: int| 0 <= j < t.len() && t[j] == w;
                    assert(t2[j] == w);
                }
            }
        }
    }
}

/// Membership in a concatenation.
proof fn lemma_concat_contains(a: Seq<usize>, b: Seq<usize>, x: usize)
    ensures
        (a + b).contains(x) <==> (a.contains(x) || b.contains(x)),
{
    let s = a + b;
    if s.contains(x) {
        let j = choose|j: int| 0 <= j < s.len() && s[j] == x;
        if j < a.len() {
            assert(a[j] == x);
        } else {
            assert(b[j - a.len()] == x);
        }
    }
    if a.contains(x) {
        let j = choose|j: int| 0 <= j < a.len() && a[j] == x;
        assert(s[j] == x);
    }
    if b.contains(x) {
        let j = choose|j: int| 0 <= j < b.len() && b[j] == x;
        assert(s[j + a.len()] == x);
    }
}

/// When every block variable is known and the unused equations have been collected, the
/// assignment and residual equations rearrange the block's equations, and the assignment and
/// tearing variables rearrange its variables.
proof fn lemma_tear_done(
    rows: Seq<Vec<usize>>,
    eqs: Seq<usize>,
    bv: Seq<usize>,
    known: Seq<bool>,
    used: Seq<bool>,
    remaining: int,
    t: Seq<usize>,
    ae: Seq<usize>,
    av: Seq<usize>,
    ai: Seq<int>,
    r: Seq<usize>,
    ri: Seq<int>,
)
    requires
        tear_inv(rows, eqs, bv, known, used, remaining, t, ae, av, ai),
        eqs.no_duplicates(),
        bv.no_duplicates(),
        forall|x: usize| #[trigger] bv.contains(x) ==> known[x as int],
        ri.len() == r.len(),
        forall|k: int|
            0 <= k < ri.len() ==> 0 <= #[trigger] ri[k] < eqs.len() && r[k] == eqs[ri[k]] && !used[ri[k]],
        forall|a: int, b: int| 0 <= a < b < ri.len() ==> #[trigger] ri[a] < #[trigger] ri[b],
        forall|i: int| 0 <= i < eqs.len() && !#[trigger] used[i] ==> ri.contains(i),
    ensures
        (ae + r).to_multiset() == eqs.to_multiset(),
        (av + t).to_multiset() == bv.to_multiset(),
{
    assert(ae.no_duplicates()) by {
        assert forall|a: int, b: int| 0 <= a < ae.len() && 0 <= b < ae.len() && a != b implies ae[a] != ae[b] by {
            assert(ai[a] != ai[b]);
            assert(ae[a] == eqs[ai[a]]);
            assert(ae[b] == eqs[ai[b]]);
        }
    }
    assert(r.no_duplicates()) by {
        assert forall|a: int, b: int| 0 <= a < r.len() && 0 <= b < r.len() && a != b implies r[a] != r[b] by {
            if a < b {
                assert(ri[a] < ri[b]);
            } else {
                assert(ri[b] < ri[a]);
            }
        }
    }
    assert forall|a: int, b: int| 0 <= a < ae.len() && 0 <= b < r.len() implies ae[a] != r[b] by {
        assert(ai.contains(ai[a]));
        assert(used[ai[a]]);
        assert(!used[ri[b]]);
        assert(ae[a] == eqs[ai[a]]);
    }
    vstd::seq_lib::lemma_no_dup_in_concat(ae, r);
    assert forall|x: usize| (ae + r).contains(x) <==> eqs.contains(x) by {
        lemma_concat_contains(ae, r, x);
        if ae.contains(x) {
            let k = choose|k: int| 0 <= k < ae.len() && ae[k] == x;
            assert(eqs[ai[k]] == x);
        }
        if r.contains(x) {
            let k = choose|k: int| 0 <= k < r.len() && r[k] == x;
            assert(eqs[ri[k]] == x);
        }
        if eqs.contains(x) {
            let i = choose|i: int| 0 <= i < eqs.len() && eqs[i] == x;
            if used[i] {
                assert(ai.contains(i));
                let k = choose|k: int| 0 <= k < ai.len() && ai[k] == i;
                assert(ae[k] == x);
            } else {
                assert(ri.contains(i));
                let k = choose|k: int| 0 <= k < ri.len() && ri[k] == i;
                assert(r[k] == x);
            }
        }
    }
    lemma_same_elements_same_multiset(ae + r, eqs);
    assert forall|a: int, b: int| 0 <= a < av.len() && 0 <= b < t.len() implies av[a] != t[b] by {
        assert(t[b] != av[a]);
    }
    vstd::seq_lib::lemma_no_dup_in_concat(av, t);
    assert forall|x: usize| (av + t).contains(x) <==> bv.contains(x) by {
        lemma_concat_contains(av, t, x);
        if bv.contains(x) {
            let i = choose|i: int| 0 <= i < bv.len() && bv[i] == x;
            assert((bv[i] as int) < known.len());
            assert(known[x as int]);
        }
    }
    lemma_same_elements_same_multiset(av + t, bv);
}

/// Variable `v` is known once the first `k` tearing variables and the first `p` assignment
/// variables are.
spec fn known_then(t: Seq<usize>, av: Seq<usize>, k: int, p: int, v: usize) -> bool {
    t.take(k).contains(v) || av.take(p).contains(v)
}

/// How many of the first `l` block equations, other than the first `p` assigned ones (given by
/// their positions `ai` among the block's equations), mention `v`.
spec fn open_incidence(rows: Seq<Vec<usize>>, eqs: Seq<usize>, ai: Seq<int>, p: int, v: usize, l: int) -> nat
    decreases l,
{
    if l <= 0 {
        0
    } else {
        open_incidence(rows, eqs, ai, p, v, l - 1) + if !ai.take(p).contains(l - 1) && rows[eqs[l - 1] as int]@.contains(
            v,
        ) {
            1nat
        } else {
            0nat
        }
    }
}

/// Once `k` tearing variables and `p` assignments are made, no unused equation of the block has
/// exactly one unknown block variable: causalization has stalled.
spec fn stalled_then(
    rows: Seq<Vec<usize>>,
    eqs: Seq<usize>,
    bv: Seq<usize>,
    t: Seq<usize>,
    av: Seq<usize>,
    ai: Seq<int>,
    k: int,
    p: int,
) -> bool {
    forall|l: int, v: usize|
        0 <= l < eqs.len() && !ai.take(p).contains(l) && #[trigger] rows[eqs[l] as int]@.contains(v) && bv.contains(v)
            && !known_then(t, av, k, p, v) ==> exists|w: usize|
            #[trigger] rows[eqs[l] as int]@.contains(w) && bv.contains(w) && !known_then(t, av, k, p, w) && w != v
}

/// The `k`-th tearing variable, chosen after `p` assignments, was then an unknown block
/// variable that the most unused equations mention, the smallest on ties.
spec fn best_then(
    rows: Seq<Vec<usize>>,
    eqs: Seq<usize>,
    bv: Seq<usize>,
    t: Seq<usize>,
    av: Seq<usize>,
    ai: Seq<int>,
    k: int,
    p: int,
) -> bool {
    let n = eqs.len() as int;
    &&& bv.contains(t[k])
    &&& !known_then(t, av, k, p, t[k])
    &&& forall|u: usize|
        #[trigger] bv.contains(u) && !known_then(t, av, k, p, u) ==> open_incidence(rows, eqs, ai, p, u, n)
            < open_incidence(rows, eqs, ai, p, t[k], n) || (open_incidence(rows, eqs, ai, p, u, n) == open_incidence(
            rows,
            eqs,
            ai,
            p,
            t[k],
            n,
        ) && t[k] <= u)
}

/// Every tearing variable was chosen by the greedy rule: the `k`-th after the first `ps[k]`
/// assignments, when causalization had stalled.
spec fn greedy_choices(
    rows: Seq<Vec<usize>>,
    eqs: Seq<usize>,
    bv: Seq<usize>,
    t: Seq<usize>,
    av: Seq<usize>,
    ai: Seq<int>,
    ps: Seq<int>,
) -> bool {
    &&& ps.len() == t.len()
    &&& forall|k: int| 0 <= k < ps.len() ==> 0 <= #[trigger] ps[k] <= av.len() && ps[k] <= ai.len()
    &&& forall|k: int| 0 <= k < ps.len() ==> stalled_then(rows, eqs, bv, t, av, ai, k, #[trigger] ps[k])
    &&& forall|k: int| 0 <= k < ps.len() ==> best_then(rows, eqs, bv, t, av, ai, k, #[trigger] ps[k])
}

proof fn lemma_open_incidence_ext(
    rows: Seq<Vec<usize>>,
    eqs: Seq<usize>,
    ai: Seq<int>,
    ai2: Seq<int>,
    p: int,
    v: usize,
    l: int,
)
    requires
        ai.take(p) == ai2.take(p),
    ensures
        open_incidence(rows, eqs, ai, p, v, l) == open_incidence(rows, eqs, ai2, p, v, l),
    decreases l,
{
    if l > 0 {
        lemma_open_incidence_ext(rows, eqs, ai, ai2, p, v, l - 1);
    }
}

/// Recording one more assignment leaves every earlier greedy choice as it was.
proof fn lemma_greedy_assign(
    rows: Seq<Vec<usize>>,
    eqs: Seq<usize>,
    bv: Seq<usize>,
    t: Seq<usize>,
    av: Seq<usize>,
    ai: Seq<int>,
    ps: Seq<int>,
    x: usize,
    l: int,
)
    requires
        greedy_choices(rows, eqs, bv, t, av, ai, ps),
    ensures
        greedy_choices(rows, eqs, bv, t, av.push(x), ai.push(l), ps),
{
    assert forall|k: int| 0 <= k < ps.len() implies stalled_then(rows, eqs, bv, t, av.push(x), ai.push(l), k, #[trigger] ps[k])
        && best_then(rows, eqs, bv, t, av.push(x), ai.push(l), k, ps[k]) by {
        let p = ps[k];
        assert(av.push(x).take(p) =~= av.take(p));
        assert(ai.push(l).take(p) =~= ai.take(p));
        assert(stalled_then(rows, eqs, bv, t, av, ai, k, p));
        assert(best_then(rows, eqs, bv, t, av, ai, k, p));
        assert forall|u: usize| open_incidence(rows, eqs, ai.push(l), p, u, eqs.len() as int) == open_incidence(
            rows,
            eqs,
            ai,
            p,
            u,
            eqs.len() as int,
        ) by {
            lemma_open_incidence_ext(rows, eqs, ai.push(l), ai, p, u, eqs.len() as int);
        }
    }
}

/// Recording one more tearing variable leaves every earlier greedy choice as it was.
proof fn lemma_greedy_tear(
    rows: Seq<Vec<usize>>,
    eqs: Seq<usize>,
    bv: Seq<usize>,
    t: Seq<usize>,
    av: Seq<usize>,
    ai: Seq<int>,
    ps: Seq<int>,
    x: usize,
)
    requires
        greedy_choices(rows, eqs, bv, t, av, ai, ps),
        av.len() <= ai.len(),
        stalled_then(rows, eqs, bv, t.push(x), av, ai, t.len() as int, av.len() as int),
        best_then(rows, eqs, bv, t.push(x), av, ai, t.len() as int, av.len() as int),
    ensures
        greedy_choices(rows, eqs, bv, t.push(x), av, ai, ps.push(av.len() as int)),
{
    let ps2 = ps.push(av.len() as int);
    let t2 = t.push(x);
    assert forall|k: int| 0 <= k < ps2.len() implies stalled_then(rows, eqs, bv, t2, av, ai, k, #[trigger] ps2[k])
        && best_then(rows, eqs, bv, t2, av, ai, k, ps2[k]) by {
        if k < ps.len() {
            assert(t2.take(k) =~= t.take(k));
            assert(t2[k] == t[k]);
            assert(ps2[k] == ps[k]);
            assert(stalled_then(rows, eqs, bv, t, av, ai, k, ps[k]));
            assert(best_then(rows, eqs, bv, t, av, ai, k, ps[k]));
        }
    }
}

/// None of the first `m` equations is unused with exactly one unknown block variable.
spec fn stalled_upto(
    rows: Seq<Vec<usize>>,
    eqs: Seq<usize>,
    bv: Seq<usize>,
    known: Seq<bool>,
    used: Seq<bool>,
    m: int,
) -> bool {
    forall|l: int, v: usize|
        0 <= l < m && !used[l] && #[trigger] rows[eqs[l] as int]@.contains(v) && bv.contains(v) && !known[v as int]
            ==> exists|w: usize|
            #[trigger] rows[eqs[l] as int]@.contains(w) && bv.contains(w) && !known[w as int] && w != v
}

proof fn lemma_incidence_bridge(
    rows: Seq<Vec<usize>>,
    eqs: Seq<usize>,
    bv: Seq<usize>,
    restricted: Seq<Vec<usize>>,
    n_var: nat,
    used: Seq<bool>,
    ai: Seq<int>,
    p: int,
    v: usize,
    l: int,
)
    requires
        restricted_rows(rows, eqs, bv, restricted, n_var),
        used.len() == eqs.len(),
        forall|i: int| 0 <= i < eqs.len() ==> (#[trigger] used[i] <==> ai.take(p).contains(i)),
        bv.contains(v),
        0 <= l <= eqs.len(),
    ensures
        count_incident(restricted, used, v, l) == open_incidence(rows, eqs, ai, p, v, l),
    decreases l,
{
    if l > 0 {
        lemma_incidence_bridge(rows, eqs, bv, restricted, n_var, used, ai, p, v, l - 1);
        assert(restricted[l - 1]@.contains(v) <==> rows[eqs[l - 1] as int]@.contains(v));
        assert(used[l - 1] <==> ai.take(p).contains(l - 1));
    }
}

/// Choosing, at a stall, the unknown block variable of maximum incidence (smallest on ties)
/// extends the greedy choices.
proof fn lemma_greedy_choice(
    rows: Seq<Vec<usize>>,
    eqs: Seq<usize>,
    bv: Seq<usize>,
    restricted: Seq<Vec<usize>>,
    n_var: nat,
    known: Seq<bool>,
    used: Seq<bool>,
    remaining: int,
    t: Seq<usize>,
    ae: Seq<usize>,
    av: Seq<usize>,
    ai: Seq<int>,
    ps: Seq<int>,
    x: usize,
)
    requires
        tear_inv(rows, eqs, bv, known, used, remaining, t, ae, av, ai),
        restricted_rows(rows, eqs, bv, restricted, n_var),
        known.len() == n_var,
        greedy_choices(rows, eqs, bv, t, av, ai, ps),
        stalled_upto(rows, eqs, bv, known, used, eqs.len() as int),
        bv.contains(x),
        !known[x as int],
        forall|u: usize|
            #[trigger] bv.contains(u) && !known[u as int] ==> count_incident(restricted, used, u, restricted.len() as int)
                < count_incident(restricted, used, x, restricted.len() as int) || (count_incident(
                restricted,
                used,
                u,
                restricted.len() as int,
            ) == count_incident(restricted, used, x, restricted.len() as int) && x <= u),
    ensures
        greedy_choices(rows, eqs, bv, t.push(x), av, ai, ps.push(av.len() as int)),
{
    let k = t.len() as int;
    let p = av.len() as int;
    let t2 = t.push(x);
    let n = eqs.len() as int;
    assert(t2.take(k) =~= t);
    assert(av.take(p) =~= av);
    assert(ai.take(p) =~= ai);
    assert forall|v: usize| (v as int) < known.len() implies (known_then(t2, av, k, p, v) <==> known[v as int]) by {}
    assert forall|i: int| 0 <= i < eqs.len() implies (#[trigger] used[i] <==> ai.take(p).contains(i)) by {}
    assert(stalled_then(rows, eqs, bv, t2, av, ai, k, p)) by {
        assert forall|l: int, v: usize|
            0 <= l < eqs.len() && !ai.take(p).contains(l) && #[trigger] rows[eqs[l] as int]@.contains(v) && bv.contains(v)
                && !known_then(t2, av, k, p, v) implies exists|w: usize|
            #[trigger] rows[eqs[l] as int]@.contains(w) && bv.contains(w) && !known_then(t2, av, k, p, w) && w != v by {
            let j = choose|j: int| 0 <= j < bv.len() && bv[j] == v;
            assert(!known[v as int]);
            let w = choose|w: usize|
                #[trigger] rows[eqs[l] as int]@.contains(w) && bv.contains(w) && !known[w as int] && w != v;
            let jw = choose|j: int| 0 <= j < bv.len() && bv[j] == w;
            assert(!known_then(t2, av, k, p, w));
        }
    }
    lemma_incidence_bridge(rows, eqs, bv, restricted, n_var, used, ai, p, x, n);
    assert(t2[k] == x);
    assert(best_then(rows, eqs, bv, t2, av, ai, k, p)) by {
        let jx = choose|j: int| 0 <= j < bv.len() && bv[j] == x;
        assert(!known_then(t2, av, k, p, x));
        assert forall|u: usize| #[trigger] bv.contains(u) && !known_then(t2, av, k, p, u) implies open_incidence(
            rows,
            eqs,
            ai,
            p,
            u,
            n,
        ) < open_incidence(rows, eqs, ai, p, t2[k], n) || (open_incidence(rows, eqs, ai, p, u, n) == open_incidence(
            rows,
            eqs,
            ai,
            p,
            t2[k],
            n,
        ) && t2[k] <= u) by {
            let j = choose|j: int| 0 <= j < bv.len() && bv[j] == u;
            assert(!known[u as int]);
            lemma_incidence_bridge(rows, eqs, bv, restricted, n_var, used, ai, p, u, n);
        }
    }
    lemma_greedy_tear(rows, eqs, bv, t, av, ai, ps, x);
}

/// The positions `ai` of the assignment equations `ae` among the distinct equations `eqs`.
spec fn positions_of(eqs: Seq<usize>, ai: Seq<int>, ae: Seq<usize>) -> bool {
    &&& eqs.no_duplicates()
    &&& ai.len() == ae.len()
    &&& forall|j: int| 0 <= j < ai.len() ==> 0 <= #[trigger] ai[j] < eqs.len() && ae[j] == eqs[ai[j]]
}

proof fn lemma_position_vs_value(eqs: Seq<usize>, ai: Seq<int>, ae: Seq<usize>, p: int, l: int)
    requires
        positions_of(eqs, ai, ae),
        0 <= p <= ai.len(),
        0 <= l < eqs.len(),
    ensures
        ai.take(p).contains(l) <==> ae.take(p).contains(eqs[l]),
{
    if ai.take(p).contains(l) {
        let j = choose|j: int| 0 <= j < p && ai.take(p)[j] == l;
        assert(ae.take(p)[j] == eqs[l]);
    }
    if ae.take(p).contains(eqs[l]) {
        let j = choose|j: int| 0 <= j < p && ae.take(p)[j] == eqs[l];
        assert(eqs[ai[j]] == eqs[l]);
        assert(ai[j] == l);
        assert(ai.take(p)[j] == l);
    }
}

/// The equations among the first `l` of the block, other than the first `p` assigned, that
/// mention `v`.
spec fn open_set(rows: Seq<Vec<usize>>, eqs: Seq<usize>, ae: Seq<usize>, p: int, v: usize, l: int) -> Set<usize> {
    Set::new(|e: usize| eqs.take(l).contains(e) && !ae.take(p).contains(e) && rows[e as int]@.contains(v))
}

proof fn lemma_open_incidence_counts(
    rows: Seq<Vec<usize>>,
    eqs: Seq<usize>,
    ai: Seq<int>,
    ae: Seq<usize>,
    p: int,
    v: usize,
    l: int,
)
    requires
        positions_of(eqs, ai, ae),
        0 <= p <= ai.len(),
        0 <= l <= eqs.len(),
    ensures
        open_set(rows, eqs, ae, p, v, l).finite(),
        open_incidence(rows, eqs, ai, p, v, l) == open_set(rows, eqs, ae, p, v, l).len(),
    decreases l,
{
    let s = open_set(rows, eqs, ae, p, v, l);
    if l == 0 {
        assert(s =~= Set::empty());
    } else {
        let m = l - 1;
        lemma_open_incidence_counts(rows, eqs, ai, ae, p, v, m);
        lemma_position_vs_value(eqs, ai, ae, p, m);
        let prev = open_set(rows, eqs, ae, p, v, m);
        let e = eqs[m];
        assert(eqs.take(l) =~= eqs.take(m).push(e));
        assert forall|x: usize| eqs.take(l).contains(x) <==> (eqs.take(m).contains(x) || x == e) by {
            if eqs.take(l).contains(x) {
                let j = choose|j: int| 0 <= j < l && eqs.take(l)[j] == x;
                if j < m {
                    assert(eqs.take(m)[j] == x);
                }
            }
            if eqs.take(m).contains(x) {
                let j = choose|j: int| 0 <= j < m && eqs.take(m)[j] == x;
                assert(eqs.take(l)[j] == x);
            }
            if x == e {
                assert(eqs.take(l)[m] == x);
            }
        }
        assert(!eqs.take(m).contains(e)) by {
            if eqs.take(m).contains(e) {
                let j = choose|j: int| 0 <= j < m && eqs.take(m)[j] == e;
                assert(eqs[j] == eqs[m]);
            }
        }
        if !ae.take(p).contains(e) && rows[e as int]@.contains(v) {
            assert(s =~= prev.insert(e));
        } else {
            assert(s =~= prev);
        }
    }
}

/// The greedy choices of a torn block, read on the block's own equations and variables.
#[verifier::spinoff_prover]
#[verifier::rlimit(40)]
proof fn lemma_torn_greedily(
    rows: Seq<Vec<usize>>,
    eqs: Seq<usize>,
    bv: Seq<usize>,
    ai: Seq<int>,
    ps: Seq<int>,
    b: Block,
    r: Seq<usize>,
)
    requires
        positions_of(eqs, ai, b.equations@.take(b.solved_vars@.len() as int)),
        b.equations@ == b.equations@.take(b.solved_vars@.len() as int) + r,
        b.equations@.to_multiset() == eqs.to_multiset(),
        block_vars(b).to_multiset() == bv.to_multiset(),
        b.solved_vars@.len() <= b.equations@.len(),
        greedy_choices(rows, eqs, bv, b.tearing_vars@, b.solved_vars@, ai, ps),
    ensures
        torn_greedily(b, rows),
{
    let ae = b.equations@.take(b.solved_vars@.len() as int);
    let all = b.equations@;
    let t = b.tearing_vars@;
    let av = b.solved_vars@;
    let n = eqs.len() as int;
    lemma_same_multiset(eqs, all);
    lemma_same_multiset(bv, block_vars(b));
    assert forall|k: int| 0 <= k < ps.len() implies 0 <= #[trigger] ps[k] <= b.solved_vars@.len() && greedy_choice_in(
        b,
        rows,
        k,
        ps[k],
    ) by {
        let p = ps[k];
        assert(stalled_then(rows, eqs, bv, t, av, ai, k, p));
        assert(best_then(rows, eqs, bv, t, av, ai, k, p));
        assert(all.take(p) =~= ae.take(p));
        // an equation past the first `p` is an equation of the block not among the first `p` assigned
        assert forall|e: usize| #[trigger] all.skip(p).contains(e) <==> (eqs.contains(e) && !ae.take(p).contains(e)) by {
            if all.skip(p).contains(e) {
                let i = choose|i: int| 0 <= i < all.skip(p).len() && all.skip(p)[i] == e;
                assert(all[p + i] == e);
                assert(all.contains(e));
                if ae.take(p).contains(e) {
                    let j = choose|j: int| 0 <= j < p && ae.take(p)[j] == e;
                    assert(all[j] == e);
                }
            }
            if eqs.contains(e) && !ae.take(p).contains(e) {
                assert(all.contains(e));
                let i = choose|i: int| 0 <= i < all.len() && all[i] == e;
                if i < p {
                    assert(ae.take(p)[i] == e);
                }
                assert(all.skip(p)[i - p] == e);
            }
        }
        assert forall|e: usize, v: usize|
            all.skip(p).contains(e) && #[trigger] rows[e as int]@.contains(v) && block_vars(b).contains(v)
                && !known_in(b, k, p, v) implies exists|w: usize|
            #[trigger] rows[e as int]@.contains(w) && block_vars(b).contains(w) && !known_in(b, k, p, w) && w != v by {
            assert(eqs.contains(e) && !ae.take(p).contains(e));
            let l = choose|l: int| 0 <= l < eqs.len() && eqs[l] == e;
            lemma_position_vs_value(eqs, ai, ae, p, l);
            assert(!ai.take(p).contains(l));
            assert(rows[eqs[l] as int]@.contains(v));
            let w = choose|w: usize|
                #[trigger] rows[eqs[l] as int]@.contains(w) && bv.contains(w) && !known_then(t, av, k, p, w) && w != v;
            assert(rows[e as int]@.contains(w));
        }
        let x = t[k];
        assert forall|u: usize| #[trigger] open_equations(b, rows, p, u) == open_set(rows, eqs, ae, p, u, n) by {
            assert(eqs.take(n) =~= eqs);
            assert(open_equations(b, rows, p, u) =~= open_set(rows, eqs, ae, p, u, n));
        }
        assert forall|u: usize| #[trigger] block_vars(b).contains(u) && !known_in(b, k, p, u) implies open_equations(
            b,
            rows,
            p,
            u,
        ).len() < open_equations(b, rows, p, x).len() || (open_equations(b, rows, p, u).len() == open_equations(
            b,
            rows,
            p,
            x,
        ).len() && x <= u) by {
            lemma_open_incidence_counts(rows, eqs, ai, ae, p, u, n);
            lemma_open_incidence_counts(rows, eqs, ai, ae, p, x, n);
            assert(bv.contains(u));
        }
    }
    assert(greedy_sequence(b, rows, ps));
}

/// `v` is the one unknown block variable of equation `l` once `k` tearing variables and `j`
/// assignments are made.
spec fn sole_then(
    rows: Seq<Vec<usize>>,
    eqs: Seq<usize>,
    bv: Seq<usize>,
    t: Seq<usize>,
    av: Seq<usize>,
    k: int,
    j: int,
    l: int,
    v: usize,
) -> bool {
    &&& rows[eqs[l] as int]@.contains(v)
    &&& bv.contains(v)
    &&& !known_then(t, av, k, j, v)
    &&& forall|w: usize|
        #[trigger] rows[eqs[l] as int]@.contains(w) && bv.contains(w) && !known_then(t, av, k, j, w) ==> w == v
}

/// Equation `l` is unused and has exactly one unknown block variable once `k` tearing
/// variables and `j` assignments are made.
spec fn solvable_then(
    rows: Seq<Vec<usize>>,
    eqs: Seq<usize>,
    bv: Seq<usize>,
    t: Seq<usize>,
    av: Seq<usize>,
    ai: Seq<int>,
    k: int,
    j: int,
    l: int,
) -> bool {
    &&& 0 <= l < eqs.len()
    &&& !ai.take(j).contains(l)
    &&& exists|v: usize| #[trigger] sole_then(rows, eqs, bv, t, av, k, j, l, v)
}

/// Where the scan for assignment `j` starts: just past the previous assignment, unless a
/// tearing variable was chosen since (`k` tearing variables known then, `tc[j - 1]` at the
/// previous assignment) or there is none, when it starts from the first equation.
spec fn scan_start(ai: Seq<int>, tc: Seq<int>, k: int, j: int) -> int {
    if j == 0 || k != tc[j - 1] {
        0
    } else {
        ai[j - 1] + 1
    }
}

/// Assignment `j` solves the first solvable equation from where its scan starts, wrapping
/// round to the first equation when none is left past that point.
spec fn sweep_step(
    rows: Seq<Vec<usize>>,
    eqs: Seq<usize>,
    bv: Seq<usize>,
    t: Seq<usize>,
    av: Seq<usize>,
    ai: Seq<int>,
    tc: Seq<int>,
    j: int,
) -> bool {
    let k = tc[j];
    let st = scan_start(ai, tc, k, j);
    let l = ai[j];
    &&& sole_then(rows, eqs, bv, t, av, k, j, l, av[j])
    &&& ((st <= l && forall|l2: int| st <= l2 < l ==> !#[trigger] solvable_then(rows, eqs, bv, t, av, ai, k, j, l2))
        || (l < st && (forall|l2: int|
        st <= l2 < eqs.len() ==> !#[trigger] solvable_then(rows, eqs, bv, t, av, ai, k, j, l2)) && (forall|l2: int|
        0 <= l2 < l ==> !#[trigger] solvable_then(rows, eqs, bv, t, av, ai, k, j, l2))))
}

/// The assignments were made by sweeps over the equations in order: the `j`-th after
/// `tc[j]` tearing variables were chosen, at the point `sweep_step` gives.
spec fn sweeps(
    rows: Seq<Vec<usize>>,
    eqs: Seq<usize>,
    bv: Seq<usize>,
    t: Seq<usize>,
    av: Seq<usize>,
    ai: Seq<int>,
    tc: Seq<int>,
    ps: Seq<int>,
) -> bool {
    &&& tc.len() == av.len()
    &&& ai.len() == av.len()
    &&& forall|j: int| 0 <= j < tc.len() ==> 0 <= #[trigger] tc[j] <= t.len()
    &&& forall|j: int, k: int|
        0 <= j < tc.len() && 0 <= k < ps.len() ==> (k < #[trigger] tc[j] <==> #[trigger] ps[k] <= j)
    &&& forall|j: int| 0 <= j < tc.len() ==> #[trigger] sweep_step(rows, eqs, bv, t, av, ai, tc, j)
}

proof fn lemma_sweep_stable(
    rows: Seq<Vec<usize>>,
    eqs: Seq<usize>,
    bv: Seq<usize>,
    t: Seq<usize>,
    av: Seq<usize>,
    ai: Seq<int>,
    tc: Seq<int>,
    t2: Seq<usize>,
    av2: Seq<usize>,
    ai2: Seq<int>,
    tc2: Seq<int>,
    j: int,
)
    requires
        0 <= j < tc.len(),
        tc.len() <= tc2.len(),
        0 <= tc[j] <= t.len(),
        t.len() <= t2.len(),
        t2.take(t.len() as int) == t,
        av.len() == tc.len(),
        av.len() <= av2.len(),
        av2.take(av.len() as int) == av,
        ai.len() == tc.len(),
        ai.len() <= ai2.len(),
        ai2.take(ai.len() as int) == ai,
        tc2.take(tc.len() as int) == tc,
        sweep_step(rows, eqs, bv, t, av, ai, tc, j),
    ensures
        sweep_step(rows, eqs, bv, t2, av2, ai2, tc2, j),
{
    let k = tc[j];
    assert(tc2[j] == tc[j]) by { assert(tc2.take(tc.len() as int)[j] == tc2[j]); }
    assert(t2.take(k) =~= t.take(k)) by {
        assert forall|i: int| 0 <= i < k implies t2.take(k)[i] == t.take(k)[i] by {
            assert(t2.take(t.len() as int)[i] == t2[i]);
        }
    }
    assert(av2.take(j) =~= av.take(j)) by {
        assert forall|i: int| 0 <= i < j implies av2.take(j)[i] == av.take(j)[i] by {
            assert(av2.take(av.len() as int)[i] == av2[i]);
        }
    }
    assert(ai2.take(j) =~= ai.take(j)) by {
        assert forall|i: int| 0 <= i < j implies ai2.take(j)[i] == ai.take(j)[i] by {
            assert(ai2.take(ai.len() as int)[i] == ai2[i]);
        }
    }
    assert(av2[j] == av[j]) by { assert(av2.take(av.len() as int)[j] == av2[j]); }
    assert(ai2[j] == ai[j]) by { assert(ai2.take(ai.len() as int)[j] == ai2[j]); }
    if j > 0 {
        assert(tc2[j - 1] == tc[j - 1]) by { assert(tc2.take(tc.len() as int)[j - 1] == tc2[j - 1]); }
        assert(ai2[j - 1] == ai[j - 1]) by { assert(ai2.take(ai.len() as int)[j - 1] == ai2[j - 1]); }
    }
    assert forall|w: usize| known_then(t2, av2, k, j, w) == known_then(t, av, k, j, w) by {}
    assert forall|l: int, v: usize| #[trigger] sole_then(rows, eqs, bv, t2, av2, k, j, l, v) == sole_then(
        rows,
        eqs,
        bv,
        t,
        av,
        k,
        j,
        l,
        v,
    ) by {}
    assert forall|l: int| #[trigger] solvable_then(rows, eqs, bv, t2, av2, ai2, k, j, l) == solvable_then(
        rows,
        eqs,
        bv,
        t,
        av,
        ai,
        k,
        j,
        l,
    ) by {
        if solvable_then(rows, eqs, bv, t, av, ai, k, j, l) {
            let v = choose|v: usize| #[trigger] sole_then(rows, eqs, bv, t, av, k, j, l, v);
            assert(sole_then(rows, eqs, bv, t2, av2, k, j, l, v));
        }
        if solvable_then(rows, eqs, bv, t2, av2, ai2, k, j, l) {
            let v = choose|v: usize| #[trigger] sole_then(rows, eqs, bv, t2, av2, k, j, l, v);
            assert(sole_then(rows, eqs, bv, t, av, k, j, l, v));
        }
    }
}

/// Equation `l` is solvable in the current state.
spec fn solvable_now(rows: Seq<Vec<usize>>, eqs: Seq<usize>, bv: Seq<usize>, t: Seq<usize>, av: Seq<usize>, ai: Seq<int>, l: int) -> bool {
    solvable_then(rows, eqs, bv, t, av, ai, t.len() as int, av.len() as int, l)
}

/// What the sweep has scanned since the last event without finding a solvable equation,
/// at position `le` of the current pass.
spec fn scanned(
    rows: Seq<Vec<usize>>,
    eqs: Seq<usize>,
    bv: Seq<usize>,
    t: Seq<usize>,
    av: Seq<usize>,
    ai: Seq<int>,
    tc: Seq<int>,
    progressed: bool,
    le: int,
) -> bool {
    let st = scan_start(ai, tc, t.len() as int, av.len() as int);
    &&& progressed ==> st <= le && forall|l: int| st <= l < le ==> !#[trigger] solvable_now(rows, eqs, bv, t, av, ai, l)
    &&& !progressed ==> (forall|l: int| 0 <= l < le ==> !#[trigger] solvable_now(rows, eqs, bv, t, av, ai, l)) && (st == 0
        || forall|l: int| st <= l < eqs.len() ==> !#[trigger] solvable_now(rows, eqs, bv, t, av, ai, l))
}

/// In the tearing state, an equation that is used, or whose unknown block variables each
/// have another beside them, is not solvable.
proof fn lemma_not_solvable(
    rows: Seq<Vec<usize>>,
    eqs: Seq<usize>,
    bv: Seq<usize>,
    restricted: Seq<Vec<usize>>,
    n_var: nat,
    known: Seq<bool>,
    used: Seq<bool>,
    remaining: int,
    t: Seq<usize>,
    ae: Seq<usize>,
    av: Seq<usize>,
    ai: Seq<int>,
    l: int,
)
    requires
        tear_inv(rows, eqs, bv, known, used, remaining, t, ae, av, ai),
        restricted_rows(rows, eqs, bv, restricted, n_var),
        known.len() == n_var,
        0 <= l < eqs.len(),
        !used[l] ==> forall|v: usize|
            #[trigger] restricted[l]@.contains(v) && !known[v as int] ==> exists|w: usize|
                #[trigger] restricted[l]@.contains(w) && !known[w as int] && w != v,
    ensures
        !solvable_now(rows, eqs, bv, t, av, ai, l),
{
    let k = t.len() as int;
    let j = av.len() as int;
    assert(t.take(k) =~= t);
    assert(av.take(j) =~= av);
    assert(ai.take(j) =~= ai);
    if solvable_now(rows, eqs, bv, t, av, ai, l) {
        let v = choose|v: usize| #[trigger] sole_then(rows, eqs, bv, t, av, k, j, l, v);
        assert(!used[l]);
        assert(restricted[l]@.contains(v));
        let jv = choose|i: int| 0 <= i < bv.len() && bv[i] == v;
        assert(!known[v as int]);
        let w = choose|w: usize| #[trigger] restricted[l]@.contains(w) && !known[w as int] && w != v;
        assert(rows[eqs[l] as int]@.contains(w) && bv.contains(w));
        let jw = choose|i: int| 0 <= i < bv.len() && bv[i] == w;
        assert(!known_then(t, av, k, j, w));
    }
}

/// In the tearing state, the one unknown block variable of an unused equation makes it
/// solvable for that variable.
proof fn lemma_sole_now(
    rows: Seq<Vec<usize>>,
    eqs: Seq<usize>,
    bv: Seq<usize>,
    restricted: Seq<Vec<usize>>,
    n_var: nat,
    known: Seq<bool>,
    used: Seq<bool>,
    remaining: int,
    t: Seq<usize>,
    ae: Seq<usize>,
    av: Seq<usize>,
    ai: Seq<int>,
    l: int,
    x: usize,
)
    requires
        tear_inv(rows, eqs, bv, known, used, remaining, t, ae, av, ai),
        restricted_rows(rows, eqs, bv, restricted, n_var),
        known.len() == n_var,
        0 <= l < eqs.len(),
        !used[l],
        restricted[l]@.contains(x),
        !known[x as int],
        forall|w: usize| #[trigger] restricted[l]@.contains(w) && w != x ==> known[w as int],
    ensures
        sole_then(rows, eqs, bv, t, av, t.len() as int, av.len() as int, l, x),
        solvable_now(rows, eqs, bv, t, av, ai, l),
        !ai.contains(l),
{
    let k = t.len() as int;
    let j = av.len() as int;
    assert(t.take(k) =~= t);
    assert(av.take(j) =~= av);
    assert(ai.take(j) =~= ai);
    let jx = choose|i: int| 0 <= i < restricted[l]@.len() && restricted[l]@[i] == x;
    assert(bv.contains(x));
    let ix = choose|i: int| 0 <= i < bv.len() && bv[i] == x;
    assert forall|w: usize| #[trigger] rows[eqs[l] as int]@.contains(w) && bv.contains(w) && !known_then(t, av, k, j, w)
        implies w == x by {
        let iw = choose|i: int| 0 <= i < bv.len() && bv[i] == w;
        assert(restricted[l]@.contains(w));
    }
    assert(sole_then(rows, eqs, bv, t, av, k, j, l, x));
}

/// Recording an assignment found by the sweep extends the sweeps.
proof fn lemma_sweep_assign(
    rows: Seq<Vec<usize>>,
    eqs: Seq<usize>,
    bv: Seq<usize>,
    t: Seq<usize>,
    av: Seq<usize>,
    ai: Seq<int>,
    tc: Seq<int>,
    ps: Seq<int>,
    l: int,
    x: usize,
)
    requires
        sweeps(rows, eqs, bv, t, av, ai, tc, ps),
        ps.len() == t.len(),
        forall|k: int| 0 <= k < ps.len() ==> #[trigger] ps[k] <= av.len(),
        0 <= l < eqs.len(),
        sole_then(rows, eqs, bv, t, av, t.len() as int, av.len() as int, l, x),
        ({
            let st = scan_start(ai, tc, t.len() as int, av.len() as int);
            (st <= l && forall|l2: int| st <= l2 < l ==> !#[trigger] solvable_now(rows, eqs, bv, t, av, ai, l2)) || (l < st
                && (forall|l2: int| st <= l2 < eqs.len() ==> !#[trigger] solvable_now(rows, eqs, bv, t, av, ai, l2))
                && (forall|l2: int| 0 <= l2 < l ==> !#[trigger] solvable_now(rows, eqs, bv, t, av, ai, l2)))
        }),
    ensures
        sweeps(rows, eqs, bv, t, av.push(x), ai.push(l), tc.push(t.len() as int), ps),
{
    let j = av.len() as int;
    let k = t.len() as int;
    let av2 = av.push(x);
    let ai2 = ai.push(l);
    let tc2 = tc.push(k);
    assert(av2.take(j) =~= av);
    assert(ai2.take(j) =~= ai);
    assert(tc2.take(j) =~= tc);
    assert(t.take(k) =~= t);
    assert forall|i: int| 0 <= i < j implies #[trigger] sweep_step(rows, eqs, bv, t, av2, ai2, tc2, i) by {
        assert(sweep_step(rows, eqs, bv, t, av, ai, tc, i));
        lemma_sweep_stable(rows, eqs, bv, t, av, ai, tc, t, av2, ai2, tc2, i);
    }
    assert(scan_start(ai2, tc2, k, j) == scan_start(ai, tc, k, j));
    assert(av.take(j) =~= av);
    assert(ai.take(j) =~= ai);
    assert(av2[j] == x);
    assert(ai2[j] == l);
    assert forall|w: usize| known_then(t, av2, k, j, w) == known_then(t, av, k, j, w) by {}
    assert forall|l3: int, v: usize| #[trigger] sole_then(rows, eqs, bv, t, av2, k, j, l3, v) == sole_then(
        rows,
        eqs,
        bv,
        t,
        av,
        k,
        j,
        l3,
        v,
    ) by {}
    assert forall|l2: int| #[trigger] solvable_then(rows, eqs, bv, t, av2, ai2, k, j, l2) == solvable_now(
        rows,
        eqs,
        bv,
        t,
        av,
        ai,
        l2,
    ) by {
        if solvable_now(rows, eqs, bv, t, av, ai, l2) {
            let v = choose|v: usize| #[trigger] sole_then(rows, eqs, bv, t, av, k, j, l2, v);
            assert(sole_then(rows, eqs, bv, t, av2, k, j, l2, v));
        }
        if solvable_then(rows, eqs, bv, t, av2, ai2, k, j, l2) {
            let v = choose|v: usize| #[trigger] sole_then(rows, eqs, bv, t, av2, k, j, l2, v);
            assert(sole_then(rows, eqs, bv, t, av, k, j, l2, v));
        }
    }
    assert(sole_then(rows, eqs, bv, t, av2, k, j, l, x));
    assert(sweep_step(rows, eqs, bv, t, av2, ai2, tc2, j));
    assert forall|i: int, kk: int| 0 <= i < tc2.len() && 0 <= kk < ps.len() implies (kk < #[trigger] tc2[i] <==> #[trigger] ps[kk]
        <= i) by {
        if i < j {
            assert(tc2[i] == tc[i]);
        }
    }
}

/// Recording a tearing choice leaves the sweeps as they were.
proof fn lemma_sweep_tear(
    rows: Seq<Vec<usize>>,
    eqs: Seq<usize>,
    bv: Seq<usize>,
    t: Seq<usize>,
    av: Seq<usize>,
    ai: Seq<int>,
    tc: Seq<int>,
    ps: Seq<int>,
    x: usize,
)
    requires
        sweeps(rows, eqs, bv, t, av, ai, tc, ps),
        ps.len() == t.len(),
    ensures
        sweeps(rows, eqs, bv, t.push(x), av, ai, tc, ps.push(av.len() as int)),
{
    let t2 = t.push(x);
    let ps2 = ps.push(av.len() as int);
    assert(t2.take(t.len() as int) =~= t);
    assert(av.take(av.len() as int) =~= av);
    assert(ai.take(ai.len() as int) =~= ai);
    assert(tc.take(tc.len() as int) =~= tc);
    assert forall|i: int| 0 <= i < tc.len() implies #[trigger] sweep_step(rows, eqs, bv, t2, av, ai, tc, i) by {
        lemma_sweep_stable(rows, eqs, bv, t, av, ai, tc, t2, av, ai, tc, i);
    }
    assert forall|i: int, kk: int| 0 <= i < tc.len() && 0 <= kk < ps2.len() implies (kk < #[trigger] tc[i] <==> #[trigger] ps2[kk]
        <= i) by {
        if kk < ps.len() {
            assert(ps2[kk] == ps[kk]);
        }
    }
}

/// The residual equations are the equations of the block at the positions `ri`, which are
/// exactly the positions no assignment took, in increasing order.
spec fn residual_in_order(eqs: Seq<usize>, ai: Seq<int>, residual: Seq<usize>, ri: Seq<int>) -> bool {
    &&& ri.len() == residual.len()
    &&& forall|k: int| 0 <= k < ri.len() ==> 0 <= #[trigger] ri[k] < eqs.len() && residual[k] == eqs[ri[k]] && !ai.contains(ri[k])
    &&& forall|a: int, b: int| 0 <= a < b < ri.len() ==> #[trigger] ri[a] < #[trigger] ri[b]
    &&& forall|i: int| 0 <= i < eqs.len() && !ai.contains(i) ==> #[trigger] ri.contains(i)
}

/// Deterministic greedy tearing: sweep the block's equations in order, solving each unused
/// equation with exactly one unknown block variable for it, and sweep again while a sweep
/// solved something; when a sweep stalls, declare a tearing variable the unknown block
/// variable that the most unused equations mention, the smallest on ties. The residual
/// equations are the unused ones, in order. Besides the torn block, the result gives the
/// positions of the assignment equations among the block's, the number of assignments made
/// before each tearing variable, the number of tearing variables known at each assignment,
/// and the positions of the residual equations.
#[verifier::rlimit(60)]
fn tear_block(system: &IncidenceSystem, block: &SccBlock) -> (r: (TornBlock, Ghost<Seq<int>>, Ghost<Seq<int>>, Ghost<Seq<int>>, Ghost<Seq<int>>))
    requires
        system.wf(),
        block.equations@.no_duplicates(),
        forall|k: int| 0 <= k < block.equations@.len() ==> (#[trigger] block.equations@[k] as int) < system.rows@.len(),
        block.variables@.no_duplicates(),
        forall|k: int| 0 <= k < block.variables@.len() ==> (#[trigger] block.variables@[k] as int) < system.variables@.len(),
    ensures
        is_tearing_of(r.0, system.rows@, block.equations@, block.variables@),
        r.1@.len() == r.0.assignment_eqs@.len(),
        r.1@.no_duplicates(),
        forall|k: int|
            0 <= k < r.1@.len() ==> 0 <= #[trigger] r.1@[k] < block.equations@.len() && r.0.assignment_eqs@[k]
                == block.equations@[r.1@[k]],
        greedy_choices(
            system.rows@,
            block.equations@,
            block.variables@,
            r.0.tearing_vars@,
            r.0.assignment_vars@,
            r.1@,
            r.2@,
        ),
        sweeps(
            system.rows@,
            block.equations@,
            block.variables@,
            r.0.tearing_vars@,
            r.0.assignment_vars@,
            r.1@,
            r.3@,
            r.2@,
        ),
        residual_in_order(block.equations@, r.1@, r.0.residual_eqs@, r.4@),
{
    let ghost rows = system.rows@;
    let ghost eqs = block.equations@;
    let ghost bv = block.variables@;
    let n_vars = system.n_variables();
    let equations = &block.equations;
    let mut is_block_variable: Vec<bool> = vec![false; n_vars];
    let mut i: usize = 0;
    while i < block.variables.len()
        invariant
            bv == block.variables@,
            n_vars == system.variables@.len(),
            is_block_variable@.len() == n_vars,
            forall|k: int| 0 <= k < bv.len() ==> (#[trigger] bv[k] as int) < n_vars,
            i <= bv.len(),
            forall|v: int| 0 <= v < n_vars ==> (#[trigger] is_block_variable@[v] <==> bv.take(i as int).contains(v as usize)),
        decreases bv.len() - i,
    {
        let variable = block.variables[i];
        is_block_variable.set(variable, true);
        proof {
            assert(bv.take(i + 1) =~= bv.take(i as int).push(variable));
            assert forall|v: int| 0 <= v < n_vars implies (#[trigger] is_block_variable@[v] <==> bv.take(i + 1).contains(v as usize)) by {
                lemma_concat_contains(bv.take(i as int), seq![variable], v as usize);
                assert(bv.take(i as int).push(variable) =~= bv.take(i as int) + seq![variable]);
                assert(seq![variable].contains(variable) ) by {
                    assert(seq![variable][0] == variable);
                }
            }
        }
        i = i + 1;
    }
    proof {
        assert(bv.take(i as int) =~= bv);
    }
    let restricted = restrict_rows(system, equations, &is_block_variable, Ghost(bv));
    let mut known: Vec<bool> = vec![false; n_vars];
    let mut equation_used: Vec<bool> = vec![false; equations.len()];
    let mut remaining: usize = block.variables.len();
    let mut tearing_vars: Vec<usize> = Vec::new();
    let mut assignment_eqs: Vec<usize> = Vec::new();
    let mut assignment_vars: Vec<usize> = Vec::new();
    let ghost mut ai: Seq<int> = Seq::empty();
    let ghost mut ps: Seq<int> = Seq::empty();
    let ghost mut tc: Seq<int> = Seq::empty();
    proof {
        assert(greedy_choices(rows, eqs, bv, tearing_vars@, assignment_vars@, ai, ps));
        assert(sweeps(rows, eqs, bv, tearing_vars@, assignment_vars@, ai, tc, ps));
        assert(assignments_causal(rows, bv, assignment_eqs@, assignment_vars@, tearing_vars@));
        assert(tear_inv(rows, eqs, bv, known@, equation_used@, remaining as int, tearing_vars@,
            assignment_eqs@, assignment_vars@, ai));
    }
    while remaining > 0
        invariant_except_break
            scan_start(ai, tc, tearing_vars@.len() as int, assignment_vars@.len() as int) == 0,
        invariant
            rows == system.rows@,
            eqs == block.equations@,
            bv == block.variables@,
            equations@ == eqs,
            eqs.no_duplicates(),
            bv.no_duplicates(),
            known@.len() == n_vars,
            n_vars == system.variables@.len(),
            restricted_rows(rows, eqs, bv, restricted@, n_vars as nat),
            tear_inv(rows, eqs, bv, known@, equation_used@, remaining as int, tearing_vars@,
                assignment_eqs@, assignment_vars@, ai),
            ai.len() <= eqs.len(),
            greedy_choices(rows, eqs, bv, tearing_vars@, assignment_vars@, ai, ps),
            sweeps(rows, eqs, bv, tearing_vars@, assignment_vars@, ai, tc, ps),
        ensures
            tear_inv(rows, eqs, bv, known@, equation_used@, remaining as int, tearing_vars@,
                assignment_eqs@, assignment_vars@, ai),
            greedy_choices(rows, eqs, bv, tearing_vars@, assignment_vars@, ai, ps),
            sweeps(rows, eqs, bv, tearing_vars@, assignment_vars@, ai, tc, ps),
            remaining == 0 || forall|x: usize| #[trigger] bv.contains(x) ==> known@[x as int],
        decreases remaining,
    {
        let ghost rem0 = remaining;
        let mut progressed = true;
        while progressed
            invariant
                rows == system.rows@,
                eqs == block.equations@,
                bv == block.variables@,
                equations@ == eqs,
                bv.no_duplicates(),
                known@.len() == n_vars,
                restricted_rows(rows, eqs, bv, restricted@, n_vars as nat),
                tear_inv(rows, eqs, bv, known@, equation_used@, remaining as int, tearing_vars@,
                    assignment_eqs@, assignment_vars@, ai),
                ai.len() <= eqs.len(),
                remaining <= rem0,
                greedy_choices(rows, eqs, bv, tearing_vars@, assignment_vars@, ai, ps),
                !progressed ==> stalled_upto(rows, eqs, bv, known@, equation_used@, eqs.len() as int),
                sweeps(rows, eqs, bv, tearing_vars@, assignment_vars@, ai, tc, ps),
                ({
                    let st = scan_start(ai, tc, tearing_vars@.len() as int, assignment_vars@.len() as int);
                    st == 0 || forall|l: int|
                        st <= l < eqs.len() ==> !#[trigger] solvable_now(rows, eqs, bv, tearing_vars@, assignment_vars@, ai, l)
                }),
            decreases (eqs.len() - ai.len()) + if progressed { 1int } else { 0int },
        {
            progressed = false;
            let ghost ai_start = ai;
            let mut local_equation: usize = 0;
            while local_equation < equations.len()
                invariant
                    rows == system.rows@,
                    eqs == block.equations@,
                    bv == block.variables@,
                    equations@ == eqs,
                    bv.no_duplicates(),
                    known@.len() == n_vars,
                    restricted_rows(rows, eqs, bv, restricted@, n_vars as nat),
                    tear_inv(rows, eqs, bv, known@, equation_used@, remaining as int, tearing_vars@,
                        assignment_eqs@, assignment_vars@, ai),
                    local_equation <= eqs.len(),
                    ai.len() <= eqs.len(),
                    remaining <= rem0,
                    progressed ==> ai.len() > ai_start.len(),
                    !progressed ==> ai.len() == ai_start.len(),
                    greedy_choices(rows, eqs, bv, tearing_vars@, assignment_vars@, ai, ps),
                    !progressed ==> stalled_upto(rows, eqs, bv, known@, equation_used@, local_equation as int),
                    sweeps(rows, eqs, bv, tearing_vars@, assignment_vars@, ai, tc, ps),
                    scanned(rows, eqs, bv, tearing_vars@, assignment_vars@, ai, tc, progressed, local_equation as int),
                decreases eqs.len() - local_equation,
            {
                if !equation_used[local_equation] {
                    let sole = sole_unknown(&restricted[local_equation], &known);
                    if let Some(variable) = sole {
                        proof {
                            let j = choose|j: int| 0 <= j < restricted@[local_equation as int]@.len()
                                && restricted@[local_equation as int]@[j] == variable;
                            assert((restricted@[local_equation as int]@[j] as int) < n_vars);
                            assert(bv.contains(variable));
                            lemma_unknown_remaining(rows, eqs, bv, known@, equation_used@, remaining as int,
                                tearing_vars@, assignment_eqs@, assignment_vars@, ai, variable);
                            lemma_assign_step(rows, eqs, bv, restricted@, n_vars as nat, known@, equation_used@,
                                remaining as int, tearing_vars@, assignment_eqs@, assignment_vars@, ai,
                                local_equation as int, variable);
                            lemma_greedy_assign(rows, eqs, bv, tearing_vars@, assignment_vars@, ai, ps, variable,
                                local_equation as int);
                            let le = local_equation as int;
                            lemma_sole_now(rows, eqs, bv, restricted@, n_vars as nat, known@, equation_used@,
                                remaining as int, tearing_vars@, assignment_eqs@, assignment_vars@, ai, le, variable);
                            let st = scan_start(ai, tc, tearing_vars@.len() as int, assignment_vars@.len() as int);
                            if !progressed && st != 0 && st <= le {
                                assert(!solvable_now(rows, eqs, bv, tearing_vars@, assignment_vars@, ai, le));
                            }
                            lemma_sweep_assign(rows, eqs, bv, tearing_vars@, assignment_vars@, ai, tc, ps, le, variable);
                        }
                        equation_used.set(local_equation, true);
                        known.set(variable, true);
                        remaining = remaining - 1;
                        assignment_eqs.push(equations[local_equation]);
                        assignment_vars.push(variable);
                        proof {
                            ai = ai.push(local_equation as int);
                            tc = tc.push(tearing_vars@.len() as int);
                            assert(ai.no_duplicates());
                            ai.unique_seq_to_set();
                            lemma_int_range(0, eqs.len() as int);
                            assert(ai.to_set().subset_of(set_int_range(0, eqs.len() as int)));
                            vstd::set_lib::lemma_len_subset(ai.to_set(), set_int_range(0, eqs.len() as int));
                        }
                        progressed = true;
                        proof {
                            let le = local_equation as int;
                            assert(scan_start(ai, tc, tearing_vars@.len() as int, assignment_vars@.len() as int) == le + 1);
                        }
                    } else {
                        proof {
                            let le = local_equation as int;
                            lemma_not_solvable(rows, eqs, bv, restricted@, n_vars as nat, known@, equation_used@,
                                remaining as int, tearing_vars@, assignment_eqs@, assignment_vars@, ai, le);
                            assert forall|l: int, v: usize|
                                0 <= l < le + 1 && !equation_used@[l] && #[trigger] rows[eqs[l] as int]@.contains(v)
                                    && bv.contains(v) && !known@[v as int] && !progressed implies exists|w: usize|
                                    #[trigger] rows[eqs[l] as int]@.contains(w) && bv.contains(w) && !known@[w as int]
                                    && w != v by {
                                if l == le {
                                    assert(restricted@[le]@.contains(v));
                                    let w = choose|w: usize|
                                        #[trigger] restricted@[le]@.contains(w) && !known@[w as int] && w != v;
                                    assert(rows[eqs[l] as int]@.contains(w) && bv.contains(w));
                                }
                            }
                        }
                    }
                } else {
                    proof {
                        lemma_not_solvable(rows, eqs, bv, restricted@, n_vars as nat, known@, equation_used@,
                            remaining as int, tearing_vars@, assignment_eqs@, assignment_vars@, ai, local_equation as int);
                    }
                }
                local_equation = local_equation + 1;
            }
        }
        if remaining == 0 {
            break;
        }
        let mut best: Option<(usize, usize)> = None;
        let mut i: usize = 0;
        while i < block.variables.len()
            invariant
                bv == block.variables@,
                known@.len() == n_vars,
                forall|k: int| 0 <= k < bv.len() ==> (#[trigger] bv[k] as int) < n_vars,
                equation_used@.len() == restricted@.len(),
                i <= bv.len(),
                match best {
                    None => forall|j: int| 0 <= j < i ==> known@[#[trigger] bv[j] as int],
                    Some((v, c)) => bv.contains(v) && !known@[v as int] && c == count_incident(
                        restricted@,
                        equation_used@,
                        v,
                        restricted@.len() as int,
                    ) && forall|j: int|
                        0 <= j < i && !known@[#[trigger] bv[j] as int] ==> count_incident(
                            restricted@,
                            equation_used@,
                            bv[j],
                            restricted@.len() as int,
                        ) < c || (count_incident(restricted@, equation_used@, bv[j], restricted@.len() as int) == c
                            && v <= bv[j]),
                },
            decreases bv.len() - i,
        {
            let variable = block.variables[i];
            if !known[variable] {
                let incidence = incidence(&restricted, &equation_used, variable);
                match best {
                    None => {
                        best = Some((variable, incidence));
                    },
                    Some((best_variable, best_incidence)) => {
                        if incidence > best_incidence || (incidence == best_incidence && variable
                            < best_variable) {
                            best = Some((variable, incidence));
                        }
                    },
                }
            }
            i = i + 1;
        }
        match best {
            Some((variable, _)) => {
                proof {
                    lemma_unknown_remaining(rows, eqs, bv, known@, equation_used@, remaining as int,
                        tearing_vars@, assignment_eqs@, assignment_vars@, ai, variable);
                    lemma_tear_step(rows, eqs, bv, known@, equation_used@, remaining as int, tearing_vars@,
                        assignment_eqs@, assignment_vars@, ai, variable);
                    lemma_greedy_choice(rows, eqs, bv, restricted@, n_vars as nat, known@, equation_used@,
                        remaining as int, tearing_vars@, assignment_eqs@, assignment_vars@, ai, ps, variable);
                    lemma_sweep_tear(rows, eqs, bv, tearing_vars@, assignment_vars@, ai, tc, ps, variable);
                }
                known.set(variable, true);
                remaining = remaining - 1;
                tearing_vars.push(variable);
                proof {
                    ps = ps.push(assignment_vars@.len() as int);
                }
            },
            None => {
                proof {
                    assert forall|x: usize| #[trigger] bv.contains(x) implies known@[x as int] by {
                        let j = choose|j: int| 0 <= j < bv.len() && bv[j] == x;
                        assert(known@[bv[j] as int]);
                    }
                }
                break;
            },
        }
    }
    proof {
        assert forall|x: usize| #[trigger] bv.contains(x) implies known@[x as int] by {
            if !known@[x as int] {
                lemma_unknown_remaining(rows, eqs, bv, known@, equation_used@, remaining as int,
                    tearing_vars@, assignment_eqs@, assignment_vars@, ai, x);
            }
        }
    }
    let mut residual_eqs: Vec<usize> = Vec::new();
    let ghost mut ri: Seq<int> = Seq::empty();
    let mut l: usize = 0;
    while l < equations.len()
        invariant
            eqs == block.equations@,
            equations@ == eqs,
            equation_used@.len() == eqs.len(),
            l <= eqs.len(),
            ri.len() == residual_eqs@.len(),
            forall|k: int|
                0 <= k < ri.len() ==> 0 <= #[trigger] ri[k] < l && residual_eqs@[k] == eqs[ri[k]]
                    && !equation_used@[ri[k]],
            forall|a: int, b: int| 0 <= a < b < ri.len() ==> #[trigger] ri[a] < #[trigger] ri[b],
            forall|i: int| 0 <= i < l && !#[trigger] equation_used@[i] ==> ri.contains(i),
        decreases eqs.len() - l,
    {
        if !equation_used[l] {
            residual_eqs.push(equations[l]);
            proof {
                let ri0 = ri;
                ri = ri.push(l as int);
                assert forall|i: int| 0 <= i < l + 1 && !#[trigger] equation_used@[i] implies ri.contains(i) by {
                    if i < l {
                        let k = choose|k: int| 0 <= k < ri0.len() && ri0[k] == i;
                        assert(ri[k] == i);
                    } else {
                        assert(ri[ri0.len() as int] == i);
                    }
                }
            }
        } else {
            proof {
                assert forall|i: int| 0 <= i < l + 1 && !#[trigger] equation_used@[i] implies ri.contains(i) by {
                    if i < l {
                    }
                }
            }
        }
        l = l + 1;
    }
    proof {
        lemma_tear_done(rows, eqs, bv, known@, equation_used@, remaining as int, tearing_vars@,
            assignment_eqs@, assignment_vars@, ai, residual_eqs@, ri);
        assert forall|k: int| 0 <= k < ri.len() implies 0 <= #[trigger] ri[k] < eqs.len() && residual_eqs@[k] == eqs[ri[k]]
            && !ai.contains(ri[k]) by {
            assert(!equation_used@[ri[k]]);
        }
        assert forall|i: int| 0 <= i < eqs.len() && !ai.contains(i) implies #[trigger] ri.contains(i) by {
            assert(!equation_used@[i]);
        }
        assert(residual_in_order(eqs, ai, residual_eqs@, ri));
    }
    (TornBlock { tearing_vars, assignment_eqs, assignment_vars, residual_eqs }, Ghost(ai), Ghost(ps), Ghost(tc), Ghost(ri))
}

// ---------------------------------------------------------------------------------------
// The schedule.
// ---------------------------------------------------------------------------------------

/// How a block of the schedule is solved.
#[derive(Clone, Copy, Debug, PartialEq, Eq, Hash, Structural)]
pub enum BlockKind {
    /// One equation solved for one variable.
    Explicit,
    /// Several equations solved simultaneously for as many variables.
    AlgebraicLoop,
    /// Several equations: the assignment equations are solved in order, and the residual
    /// equations close the iteration on the tearing variables.
    Torn,
}

/// One step of the structural solve schedule. For a torn block, assignment equations come
/// first and align with `solved_vars`; residual equations follow and close the iteration on
/// `tearing_vars`.
#[derive(Clone, Debug, PartialEq, Eq)]
pub struct Block {
    pub kind: BlockKind,
    pub equations: Vec<usize>,
    pub solved_vars: Vec<usize>,
    pub tearing_vars: Vec<usize>,
}

/// The variables a block determines: its solved variables, then its tearing variables.
pub open spec fn block_vars(b: Block) -> Seq<usize> {
    b.solved_vars@ + b.tearing_vars@
}

impl Block {
    /// All variables of the block, solved and tearing, in increasing order.
    pub fn all_variables(&self) -> (variables: Vec<usize>)
        ensures
            sorted_permutation_of(variables@, block_vars(*self)),
    {
        let mut variables = self.solved_vars.clone();
        let mut k: usize = 0;
        proof {
            assert(variables@ =~= self.solved_vars@);
        }
        while k < self.tearing_vars.len()
            invariant
                k <= self.tearing_vars@.len(),
                variables@ == self.solved_vars@ + self.tearing_vars@.take(k as int),
            decreases self.tearing_vars@.len() - k,
        {
            variables.push(self.tearing_vars[k]);
            proof {
                assert(self.tearing_vars@.take(k + 1) =~= self.tearing_vars@.take(k as int).push(
                    self.tearing_vars@[k as int],
                ));
                assert(variables@ =~= self.solved_vars@ + self.tearing_vars@.take(k + 1));
            }
            k = k + 1;
        }
        proof {
            assert(self.tearing_vars@.take(k as int) =~= self.tearing_vars@);
        }
        sort_ascending(variables)
    }
}

/// The structural solve schedule: blocks in the order in which they are solved.
#[derive(Clone, Debug, PartialEq, Eq)]
pub struct Schedule {
    pub blocks: Vec<Block>,
    n_equations: usize,
    n_variables: usize,
}

impl Schedule {
    /// The blocks, in the order in which they are solved.
    pub closed spec fn block_list(&self) -> Seq<Block> {
        self.blocks@
    }

    /// The blocks, in the order in which they are solved: the public field `blocks`.
    pub fn block_vec(&self) -> (b: &Vec<Block>)
        ensures
            b@ == self.block_list(),
    {
        &self.blocks
    }

    /// The number of equations of the scheduled system.
    pub closed spec fn equation_count(&self) -> nat {
        self.n_equations as nat
    }

    /// The number of variables of the scheduled system.
    pub closed spec fn variable_count(&self) -> nat {
        self.n_variables as nat
    }

    pub fn n_equations(&self) -> (n: usize)
        ensures
            n == self.equation_count(),
    {
        self.n_equations
    }

    pub fn n_variables(&self) -> (n: usize)
        ensures
            n == self.variable_count(),
    {
        self.n_variables
    }
}

/// Why a system cannot be scheduled.
#[derive(Clone, Debug, PartialEq, Eq)]
pub enum StructuralCompileError {
    /// The numbers of equations and of variables differ.
    NotSquare { n_equations: usize, n_variables: usize },
    /// No matching pairs every equation with a distinct variable it mentions; the lists are
    /// the equations and variables that a maximum matching leaves unmatched.
    StructurallySingular { unmatched_equations: Vec<usize>, unmatched_variables: Vec<usize> },
}

/// `x` occurs in one of the parts.
pub open spec fn occurs_in(parts: Seq<Seq<usize>>, x: usize) -> bool {
    exists|b: int, k: int| 0 <= b < parts.len() && 0 <= k < parts[b].len() && #[trigger] parts[b][k] == x
}

/// The message that describes a compile error.
pub open spec fn compile_error_text(e: StructuralCompileError) -> Seq<char> {
    match e {
        StructuralCompileError::NotSquare { n_equations, n_variables } => "system is not square: "@
            + decimal(n_equations as nat) + " equation(s) vs "@ + decimal(n_variables as nat) + " variable(s)"@,
        StructuralCompileError::StructurallySingular { unmatched_equations, unmatched_variables } =>
            "structurally singular: "@ + decimal(unmatched_equations@.len()) + " unmatched equation(s) "@
            + list_text(unmatched_equations@) + ", "@ + decimal(unmatched_variables@.len())
            + " unmatched variable(s) "@ + list_text(unmatched_variables@),
    }
}

impl StructuralCompileError {
    /// The human-readable message of the error.
    pub fn describe(&self) -> (s: String)
        ensures
            s@ == compile_error_text(*self),
    {
        match self {
            StructuralCompileError::NotSquare { n_equations, n_variables } => {
                let mut s = "system is not square: ".to_owned();
                push_decimal(&mut s, *n_equations as u64);
                s.append(" equation(s) vs ");
                push_decimal(&mut s, *n_variables as u64);
                s.append(" variable(s)");
                s
            },
            StructuralCompileError::StructurallySingular { unmatched_equations, unmatched_variables } => {
                let mut s = "structurally singular: ".to_owned();
                push_decimal(&mut s, unmatched_equations.len() as u64);
                s.append(" unmatched equation(s) ");
                push_list(&mut s, unmatched_equations);
                s.append(", ");
                push_decimal(&mut s, unmatched_variables.len() as u64);
                s.append(" unmatched variable(s) ");
                push_list(&mut s, unmatched_variables);
                s
            },
        }
    }
}

/// Every index below `n` occurs exactly once across the parts, and nothing else does.
pub open spec fn partitions(parts: Seq<Seq<usize>>, n: nat) -> bool {
    &&& forall|b: int, k: int|
        0 <= b < parts.len() && 0 <= k < parts[b].len() ==> (#[trigger] parts[b][k] as int) < n
    &&& forall|x: usize| (x as int) < n ==> #[trigger] occurs_in(parts, x)
    &&& forall|b1: int, k1: int, b2: int, k2: int|
        0 <= b1 < parts.len() && 0 <= k1 < parts[b1].len() && 0 <= b2 < parts.len() && 0 <= k2
            < parts[b2].len() && #[trigger] parts[b1][k1] == #[trigger] parts[b2][k2] ==> b1 == b2
            && k1 == k2
}

/// The equations of each block.
pub open spec fn equation_parts(blocks: Seq<Block>) -> Seq<Seq<usize>> {
    blocks.map_values(|b: Block| b.equations@)
}

/// The variables of each block.
pub open spec fn variable_parts(blocks: Seq<Block>) -> Seq<Seq<usize>> {
    blocks.map_values(|b: Block| block_vars(b))
}

/// Variable `v` is known in a torn block once its first `k` tearing variables and its first
/// `p` solved variables are.
pub open spec fn known_in(b: Block, k: int, p: int, v: usize) -> bool {
    b.tearing_vars@.take(k).contains(v) || b.solved_vars@.take(p).contains(v)
}

/// The equations of a block past its first `p` that mention `v`.
pub open spec fn open_equations(b: Block, rows: Seq<Vec<usize>>, p: int, v: usize) -> Set<usize> {
    Set::new(|e: usize| b.equations@.skip(p).contains(e) && rows[e as int]@.contains(v))
}

/// The `k`-th tearing variable of a torn block was chosen after its first `p` assignments:
/// no equation past them then had exactly one unknown variable of the block, and it was an
/// unknown variable of the block that the most of those equations mention, the smallest on
/// ties.
pub open spec fn greedy_choice_in(b: Block, rows: Seq<Vec<usize>>, k: int, p: int) -> bool {
    let vars = block_vars(b);
    let x = b.tearing_vars@[k];
    &&& forall|e: usize, v: usize|
        b.equations@.skip(p).contains(e) && #[trigger] rows[e as int]@.contains(v) && vars.contains(v) && !known_in(
            b,
            k,
            p,
            v,
        ) ==> exists|w: usize| #[trigger] rows[e as int]@.contains(w) && vars.contains(w) && !known_in(b, k, p, w) && w != v
    &&& !known_in(b, k, p, x)
    &&& forall|u: usize|
        #[trigger] vars.contains(u) && !known_in(b, k, p, u) ==> open_equations(b, rows, p, u).len() < open_equations(
            b,
            rows,
            p,
            x,
        ).len() || (open_equations(b, rows, p, u).len() == open_equations(b, rows, p, x).len() && x <= u)
}

/// Every tearing variable of a torn block was chosen by the greedy rule, after some number of
/// its assignments, the later ones after no fewer.
pub open spec fn torn_greedily(b: Block, rows: Seq<Vec<usize>>) -> bool {
    exists|ps: Seq<int>| #[trigger] greedy_sequence(b, rows, ps)
}

/// The `k`-th tearing variable of a torn block was chosen by the greedy rule after its first
/// `ps[k]` assignments.
pub open spec fn greedy_sequence(b: Block, rows: Seq<Vec<usize>>, ps: Seq<int>) -> bool {
    &&& ps.len() == b.tearing_vars@.len()
    &&& forall|k: int|
        0 <= k < ps.len() ==> 0 <= #[trigger] ps[k] <= b.solved_vars@.len() && greedy_choice_in(b, rows, k, ps[k])
}

/// A block is square and non-empty, its kind follows from its size and from whether tearing
/// was asked for, and a torn block's assignment equations can be solved in order once its
/// tearing variables are given, which were chosen by the greedy rule.
pub open spec fn block_well_formed(b: Block, rows: Seq<Vec<usize>>, tearing: bool) -> bool {
    &&& b.equations@.len() == b.solved_vars@.len() + b.tearing_vars@.len()
    &&& b.equations@.len() > 0
    &&& (b.kind == BlockKind::Explicit) == (b.equations@.len() == 1)
    &&& (b.kind == BlockKind::Torn) == (tearing && b.equations@.len() > 1)
    &&& (b.kind == BlockKind::AlgebraicLoop) == (!tearing && b.equations@.len() > 1)
    &&& b.kind != BlockKind::Torn ==> b.tearing_vars@.len() == 0 && strictly_increasing(b.solved_vars@)
    &&& b.kind == BlockKind::Explicit ==> rows[b.equations@[0] as int]@.contains(b.solved_vars@[0])
    &&& b.kind == BlockKind::Torn ==> assignments_causal(
        rows,
        block_vars(b),
        b.equations@.take(b.solved_vars@.len() as int),
        b.solved_vars@,
        b.tearing_vars@,
    )
    &&& b.kind == BlockKind::Torn ==> torn_greedily(b, rows)
}

/// Block lower triangular: every variable that an equation mentions is determined by the
/// equation's own block or an earlier one.
pub open spec fn lower_triangular(blocks: Seq<Block>, rows: Seq<Vec<usize>>) -> bool {
    forall|b: int, k: int, v: usize|
        0 <= b < blocks.len() && 0 <= k < blocks[b].equations@.len()
            && #[trigger] rows[blocks[b].equations@[k] as int]@.contains(v) ==> exists|b2: int|
            0 <= b2 <= b && #[trigger] block_vars(blocks[b2]).contains(v)
}

/// Under the perfect matching `mu`, each block's equations are matched to its own variables;
/// two equations share a block exactly when each depends, transitively, on the other; and an
/// equation never depends on a later block.
pub open spec fn blocks_follow_matching(blocks: Seq<Block>, rows: Seq<Vec<usize>>, mu: Seq<Option<usize>>) -> bool {
    &&& forall|b: int, k: int|
        0 <= b < blocks.len() && 0 <= k < blocks[b].equations@.len() ==> block_vars(blocks[b]).contains(
            mu[#[trigger] blocks[b].equations@[k] as int].unwrap(),
        )
    &&& forall|b1: int, k1: int, b2: int, k2: int|
        0 <= b1 < blocks.len() && 0 <= k1 < blocks[b1].equations@.len() && 0 <= b2 < blocks.len() && 0
            <= k2 < blocks[b2].equations@.len() ==> ((b1 == b2) <==> mutual(
            dependency_edge(rows, mu),
            #[trigger] blocks[b1].equations@[k1] as int,
            #[trigger] blocks[b2].equations@[k2] as int,
        ))
    &&& forall|b1: int, k1: int, b2: int, k2: int|
        0 <= b1 < blocks.len() && 0 <= k1 < blocks[b1].equations@.len() && 0 <= b2 < blocks.len() && 0
            <= k2 < blocks[b2].equations@.len() && depends_on(
            rows,
            mu,
            #[trigger] blocks[b1].equations@[k1] as int,
            #[trigger] blocks[b2].equations@[k2] as int,
        ) ==> b2 <= b1
}

/// `s` schedules the square system: its blocks partition the equations and the variables, each
/// block is well formed, the blocks are lower triangular, and they are the strongly connected
/// components of the dependency graph of some perfect matching, in dependency order.
pub open spec fn is_schedule_for(
    blocks: Seq<Block>,
    n_equations: nat,
    n_variables: nat,
    system: IncidenceSystem,
    tearing: bool,
) -> bool {
    let rows = system.rows@;
    let n = system.variables@.len();
    &&& n_equations == rows.len()
    &&& n_variables == n
    &&& partitions(equation_parts(blocks), rows.len())
    &&& partitions(variable_parts(blocks), n)
    &&& forall|b: int| 0 <= b < blocks.len() ==> block_well_formed(#[trigger] blocks[b], rows, tearing)
    &&& lower_triangular(blocks, rows)
    &&& exists|mu: Seq<Option<usize>>|
        is_matching(rows, n, mu) && (forall|e: int| 0 <= e < mu.len() ==> #[trigger] mu[e] is Some)
            && #[trigger] blocks_follow_matching(blocks, rows, mu)
}

/// What compiling `system` gives: an error exactly when the system is not square, or square
/// without a perfect matching, and otherwise a schedule of it.
pub open spec fn compile_outcome(
    system: IncidenceSystem,
    tearing: bool,
    r: Result<Schedule, StructuralCompileError>,
) -> bool {
    let rows = system.rows@;
    let n_var = system.variables@.len();
    match r {
        Err(StructuralCompileError::NotSquare { n_equations, n_variables }) => {
            &&& rows.len() != n_var
            &&& n_equations == rows.len()
            &&& n_variables == n_var
        },
        Err(StructuralCompileError::StructurallySingular { unmatched_equations, unmatched_variables }) => {
            &&& rows.len() == n_var
            &&& !has_perfect_matching(rows, n_var)
            &&& exists|m: Matching|
                #[trigger] m.is_maximum_for(&system) && unmatched_equations@ == unmatched_indices(
                    m.equation_to_variable@,
                ) && unmatched_variables@ == unmatched_indices(m.variable_to_equation@)
        },
        Ok(s) => {
            &&& rows.len() == n_var
            &&& has_perfect_matching(rows, n_var)
            &&& is_schedule_for(s.block_list(), s.equation_count(), s.variable_count(), system, tearing)
        },
    }
}

/// A strictly increasing sequence has no duplicates.
proof fn lemma_increasing_no_dup(s: Seq<usize>)
    requires
        strictly_increasing(s),
    ensures
        s.no_duplicates(),
{
    assert forall|i: int, j: int| 0 <= i < s.len() && 0 <= j < s.len() && i != j implies s[i] != s[j] by {
        if i < j {
            assert(s[i] < s[j]);
        } else {
            assert(s[j] < s[i]);
        }
    }
}

/// Parts without duplicates, where `x` lies in part `c` exactly when `x < n` and `idx(x) == c`,
/// partition the indices below `n`.
proof fn lemma_partition(parts: Seq<Seq<usize>>, n: nat, idx: spec_fn(usize) -> int)
    requires
        forall|c: int| 0 <= c < parts.len() ==> (#[trigger] parts[c]).no_duplicates(),
        forall|c: int, x: usize|
            0 <= c < parts.len() ==> (#[trigger] parts[c].contains(x) <==> ((x as int) < n && idx(x) == c)),
        forall|x: usize| (x as int) < n ==> 0 <= #[trigger] idx(x) < parts.len(),
    ensures
        partitions(parts, n),
{
    assert forall|b: int, k: int| 0 <= b < parts.len() && 0 <= k < parts[b].len() implies (#[trigger] parts[b][k] as int) < n by {
        assert(parts[b].contains(parts[b][k]));
    }
    assert forall|x: usize| (x as int) < n implies #[trigger] occurs_in(parts, x) by {
        let c = idx(x);
        assert(parts[c].contains(x));
        let k = choose|k: int| 0 <= k < parts[c].len() && parts[c][k] == x;
        assert(parts[c][k] == x);
    }
    assert forall|b1: int, k1: int, b2: int, k2: int|
        0 <= b1 < parts.len() && 0 <= k1 < parts[b1].len() && 0 <= b2 < parts.len() && 0 <= k2
            < parts[b2].len() && #[trigger] parts[b1][k1] == #[trigger] parts[b2][k2] implies b1 == b2
            && k1 == k2 by {
        let x = parts[b1][k1];
        assert(parts[b1].contains(x));
        assert(parts[b2].contains(x));
        assert(parts[b1].no_duplicates());
    }
}

/// The schedule blocks built from the components of the dependency graph partition the
/// equations and the variables, are lower triangular, and follow the matching.
proof fn lemma_schedule_from_components(
    rows: Seq<Vec<usize>>,
    n: nat,
    mu: Seq<Option<usize>>,
    mv: Seq<Option<usize>>,
    comps: Seq<Vec<usize>>,
    index: Seq<usize>,
    sccs: Seq<SccBlock>,
    blocks: Seq<Block>,
)
    requires
        super::rows_in_range(rows, n),
        perfect_sides(rows, n, mu, mv),
        is_condensation_order(dependency_edge(rows, mu), n, comps, index),
        sccs.len() == comps.len(),
        blocks.len() == comps.len(),
        forall|c: int| 0 <= c < sccs.len() ==> is_component_block(#[trigger] sccs[c], c, mv, comps, index),
        forall|c: int|
            0 <= c < blocks.len() ==> (#[trigger] blocks[c]).equations@.to_multiset()
                == sccs[c].equations@.to_multiset(),
        forall|c: int|
            0 <= c < blocks.len() ==> block_vars(#[trigger] blocks[c]).to_multiset()
                == sccs[c].variables@.to_multiset(),
    ensures
        partitions(equation_parts(blocks), n),
        partitions(variable_parts(blocks), n),
        lower_triangular(blocks, rows),
        blocks_follow_matching(blocks, rows, mu),
{
    let edge = dependency_edge(rows, mu);
    let eparts = equation_parts(blocks);
    let vparts = variable_parts(blocks);
    assert forall|c: int| 0 <= c < blocks.len() implies (#[trigger] eparts[c]).no_duplicates() && forall|x: usize|
        #[trigger] eparts[c].contains(x) <==> ((x as int) < n && index[x as int] == c) by {
        assert(eparts[c] == blocks[c].equations@);
        assert(is_component_block(sccs[c], c, mv, comps, index));
        lemma_increasing_no_dup(comps[c]@);
        lemma_same_multiset(sccs[c].equations@, blocks[c].equations@);
        assert forall|x: usize| #[trigger] eparts[c].contains(x) <==> ((x as int) < n && index[x as int] == c) by {
            if comps[c]@.contains(x) {
                let k = choose|k: int| 0 <= k < comps[c]@.len() && comps[c]@[k] == x;
                assert((comps[c]@[k] as int) < n);
            }
            if (x as int) < n && index[x as int] == c {
                assert(comps[index[x as int] as int]@.contains(x));
            }
        }
    }
    assert forall|c: int| 0 <= c < blocks.len() implies (#[trigger] vparts[c]).no_duplicates() && forall|v: usize|
        #[trigger] vparts[c].contains(v) <==> ((v as int) < n && index[mv[v as int].unwrap() as int] == c) by {
        assert(vparts[c] == block_vars(blocks[c]));
        assert(is_component_block(sccs[c], c, mv, comps, index));
        lemma_increasing_no_dup(sccs[c].variables@);
        lemma_same_multiset(sccs[c].variables@, block_vars(blocks[c]));
        assert forall|v: usize| #[trigger] vparts[c].contains(v) <==> ((v as int) < n && index[mv[v as int].unwrap() as int] == c) by {
            assert(sccs[c].variables@.contains(v) <==> ((v as int) < mv.len() && mv[v as int] is Some
                && index[mv[v as int].unwrap() as int] == c));
            if (v as int) < n {
                assert(mv[v as int] is Some);
            }
        }
    }
    let eidx = |x: usize| index[x as int] as int;
    let vidx = |x: usize| index[mv[x as int].unwrap() as int] as int;
    assert forall|x: usize| (x as int) < n implies 0 <= #[trigger] eidx(x) < eparts.len() by {}
    lemma_partition(eparts, n, eidx);
    assert forall|v: usize| (v as int) < n implies 0 <= #[trigger] vidx(v) < vparts.len() by {
        assert(mv[v as int] is Some);
        assert((mv[v as int].unwrap() as int) < mu.len());
    }
    lemma_partition(vparts, n, vidx);
    assert forall|b: int, k: int, v: usize|
        0 <= b < blocks.len() && 0 <= k < blocks[b].equations@.len()
            && #[trigger] rows[blocks[b].equations@[k] as int]@.contains(v) implies exists|b2: int|
            0 <= b2 <= b && #[trigger] block_vars(blocks[b2]).contains(v) by {
        let e = blocks[b].equations@[k];
        assert(eparts[b] == blocks[b].equations@);
        assert(eparts[b].contains(e));
        let j = choose|j: int| 0 <= j < rows[e as int]@.len() && rows[e as int]@[j] == v;
        assert((rows[e as int]@[j] as int) < n);
        assert(mv[v as int] is Some);
        let s = mv[v as int].unwrap();
        assert(mu[s as int] == Some(v));
        let b2 = index[s as int] as int;
        if s != e {
            assert(depends_on(rows, mu, e as int, s as int));
            assert(edge(e as int, s as int));
        }
        assert(vparts[b2] == block_vars(blocks[b2]));
        assert(vparts[b2].contains(v));
    }
    assert forall|b: int, k: int|
        0 <= b < blocks.len() && 0 <= k < blocks[b].equations@.len() implies block_vars(blocks[b]).contains(
            mu[#[trigger] blocks[b].equations@[k] as int].unwrap(),
        ) by {
        let e = blocks[b].equations@[k];
        assert(eparts[b] == blocks[b].equations@);
        assert(eparts[b].contains(e));
        let v = mu[e as int].unwrap();
        assert(mu[e as int] is Some);
        assert(mv[v as int] == Some(e));
        assert(vparts[b] == block_vars(blocks[b]));
        assert(vparts[b].contains(v));
    }
    assert forall|b1: int, k1: int, b2: int, k2: int|
        0 <= b1 < blocks.len() && 0 <= k1 < blocks[b1].equations@.len() && 0 <= b2 < blocks.len() && 0
            <= k2 < blocks[b2].equations@.len() implies ((b1 == b2) <==> mutual(
            dependency_edge(rows, mu),
            #[trigger] blocks[b1].equations@[k1] as int,
            #[trigger] blocks[b2].equations@[k2] as int,
        )) by {
        let e1 = blocks[b1].equations@[k1];
        let e2 = blocks[b2].equations@[k2];
        assert(eparts[b1] == blocks[b1].equations@);
        assert(eparts[b2] == blocks[b2].equations@);
        assert(eparts[b1].contains(e1));
        assert(eparts[b2].contains(e2));
        assert((index[e1 as int] == index[e2 as int]) == mutual(edge, e1 as int, e2 as int));
    }
    assert forall|b1: int, k1: int, b2: int, k2: int|
        0 <= b1 < blocks.len() && 0 <= k1 < blocks[b1].equations@.len() && 0 <= b2 < blocks.len() && 0
            <= k2 < blocks[b2].equations@.len() && depends_on(
            rows,
            mu,
            #[trigger] blocks[b1].equations@[k1] as int,
            #[trigger] blocks[b2].equations@[k2] as int,
        ) implies b2 <= b1 by {
        let e1 = blocks[b1].equations@[k1];
        let e2 = blocks[b2].equations@[k2];
        assert(eparts[b1] == blocks[b1].equations@);
        assert(eparts[b2] == blocks[b2].equations@);
        assert(eparts[b1].contains(e1));
        assert(eparts[b2].contains(e2));
        assert(edge(e1 as int, e2 as int));
    }
}

/// Turn a component into a schedule block: a single equation is explicit; a larger component
/// is kept as an algebraic loop, or torn when tearing is asked for.
fn lower_block(system: &IncidenceSystem, block: &SccBlock, tearing: bool) -> (b: Block)
    requires
        system.wf(),
        block.equations@.no_duplicates(),
        forall|k: int| 0 <= k < block.equations@.len() ==> (#[trigger] block.equations@[k] as int) < system.rows@.len(),
        strictly_increasing(block.variables@),
        forall|k: int| 0 <= k < block.variables@.len() ==> (#[trigger] block.variables@[k] as int) < system.variables@.len(),
        block.variables@.len() == block.equations@.len(),
        block.equations@.len() > 0,
        block.equations@.len() == 1 ==> system.rows@[block.equations@[0] as int]@.contains(block.variables@[0]),
    ensures
        b.equations@.to_multiset() == block.equations@.to_multiset(),
        block_vars(b).to_multiset() == block.variables@.to_multiset(),
        block_well_formed(b, system.rows@, tearing),
{
    let ghost rows = system.rows@;
    if block.size() == 1 {
        let equations = block.equations.clone();
        let solved_vars = block.variables.clone();
        proof {
            assert(equations@ =~= block.equations@);
            assert(solved_vars@ =~= block.variables@);
        }
        let b = Block { kind: BlockKind::Explicit, equations, solved_vars, tearing_vars: Vec::new() };
        proof {
            assert(block_vars(b) =~= block.variables@);
        }
        return b;
    }
    if !tearing {
        let equations = block.equations.clone();
        let solved_vars = block.variables.clone();
        proof {
            assert(equations@ =~= block.equations@);
            assert(solved_vars@ =~= block.variables@);
        }
        let b = Block { kind: BlockKind::AlgebraicLoop, equations, solved_vars, tearing_vars: Vec::new() };
        proof {
            assert(block_vars(b) =~= block.variables@);
        }
        return b;
    }
    proof {
        lemma_increasing_no_dup(block.variables@);
    }
    let (torn, Ghost(positions), Ghost(choices), Ghost(sweep_counts), Ghost(residual_positions)) = tear_block(system, block);
    let ghost ae = torn.assignment_eqs@;
    let ghost av = torn.assignment_vars@;
    let ghost t = torn.tearing_vars@;
    let mut equations = torn.assignment_eqs;
    let mut residual = torn.residual_eqs;
    equations.append(&mut residual);
    let b = Block {
        kind: BlockKind::Torn,
        equations,
        solved_vars: torn.assignment_vars,
        tearing_vars: torn.tearing_vars,
    };
    proof {
        vstd::seq_lib::to_multiset_len(b.equations@);
        vstd::seq_lib::to_multiset_len(block.equations@);
        vstd::seq_lib::to_multiset_len(block_vars(b));
        vstd::seq_lib::to_multiset_len(block.variables@);
        assert(b.equations@.take(av.len() as int) =~= ae);
        lemma_same_multiset(block.variables@, block_vars(b));
        assert(b.equations@ =~= b.equations@.take(av.len() as int) + torn.residual_eqs@);
        lemma_torn_greedily(rows, block.equations@, block.variables@, positions, choices, b, torn.residual_eqs@);
        assert(assignments_causal(rows, block_vars(b), ae, av, t)) by {
            assert forall|k: int| 0 <= k < ae.len() implies {
                &&& rows[#[trigger] ae[k] as int]@.contains(av[k])
                &&& forall|v: usize|
                    #[trigger] rows[ae[k] as int]@.contains(v) && block_vars(b).contains(v) ==> t.contains(v)
                        || av.take(k + 1).contains(v)
            } by {
                assert forall|v: usize| #[trigger] rows[ae[k] as int]@.contains(v) && block_vars(b).contains(v) implies t.contains(v)
                    || av.take(k + 1).contains(v) by {
                    assert(block.variables@.contains(v));
                }
            }
        }
    }
    b
}

/// Compile a structural schedule, tearing coupled blocks: the equations are matched to the
/// variables, grouped into strongly connected blocks in dependency order, and each coupled
/// block is torn.
pub fn compile_schedule(system: &IncidenceSystem) -> (r: Result<Schedule, StructuralCompileError>)
    requires
        system.wf(),
    ensures
        compile_outcome(*system, true, r),
{
    compile_inner(system, true)
}

/// Compile a structural schedule that keeps coupled blocks as algebraic loops, for a solver
/// that handles them simultaneously.
pub fn compile_schedule_without_tearing(system: &IncidenceSystem) -> (r: Result<
    Schedule,
    StructuralCompileError,
>)
    requires
        system.wf(),
    ensures
        compile_outcome(*system, false, r),
{
    compile_inner(system, false)
}

fn compile_inner(system: &IncidenceSystem, tearing: bool) -> (r: Result<Schedule, StructuralCompileError>)
    requires
        system.wf(),
    ensures
        compile_outcome(*system, tearing, r),
{
    let ghost rows = system.rows@;
    let ghost n_var = system.variables@.len();
    if system.n_equations() != system.n_variables() {
        return Err(
            StructuralCompileError::NotSquare {
                n_equations: system.n_equations(),
                n_variables: system.n_variables(),
            },
        );
    }
    let matching = maximum_matching(system);
    let ghost mu = matching.equation_to_variable@;
    let ghost mv = matching.variable_to_equation@;
    if !matching.is_perfect() {
        proof {
            lemma_matched_set_bound(mu);
            if has_perfect_matching(rows, n_var) {
                let m2 = choose|m2: Seq<Option<usize>>|
                    is_matching(rows, n_var, m2) && #[trigger] matched_set(m2).len() == rows.len();
                assert(matched_set(m2).len() <= matched_set(mu).len());
            }
            assert(matching.is_maximum_for(system));
        }
        return Err(
            StructuralCompileError::StructurallySingular {
                unmatched_equations: matching.unmatched_equations(),
                unmatched_variables: matching.unmatched_variables(),
            },
        );
    }
    proof {
        lemma_perfect_total(rows, n_var, mu, mv);
        assert(is_matching(rows, n_var, mu) && matched_set(mu).len() == rows.len());
    }
    let (sccs, Ghost(condensation)) = blt_order(system, &matching);
    let ghost comps = condensation.0;
    let ghost index = condensation.1;
    let mut blocks: Vec<Block> = Vec::new();
    let mut c: usize = 0;
    while c < sccs.len()
        invariant
            rows == system.rows@,
            n_var == system.variables@.len(),
            system.wf(),
            rows.len() == n_var,
            perfect_sides(rows, n_var, mu, mv),
            is_condensation_order(dependency_edge(rows, mu), rows.len(), comps, index),
            sccs@.len() == comps.len(),
            forall|c2: int| 0 <= c2 < sccs@.len() ==> is_component_block(#[trigger] sccs@[c2], c2, mv, comps, index),
            c <= sccs@.len(),
            blocks@.len() == c,
            forall|c2: int|
                0 <= c2 < c ==> (#[trigger] blocks@[c2]).equations@.to_multiset()
                    == sccs@[c2].equations@.to_multiset(),
            forall|c2: int|
                0 <= c2 < c ==> block_vars(#[trigger] blocks@[c2]).to_multiset()
                    == sccs@[c2].variables@.to_multiset(),
            forall|c2: int| 0 <= c2 < c ==> block_well_formed(#[trigger] blocks@[c2], rows, tearing),
        decreases sccs@.len() - c,
    {
        let ghost comp = comps[c as int]@;
        let ghost sb = sccs@[c as int];
        proof {
            assert(is_component_block(sb, c as int, mv, comps, index));
            lemma_increasing_no_dup(comp);
            assert forall|k: int| 0 <= k < sb.equations@.len() implies (#[trigger] sb.equations@[k] as int) < rows.len() by {
                assert((comps[c as int]@[k] as int) < rows.len());
            }
            assert forall|k: int| 0 <= k < sb.variables@.len() implies (#[trigger] sb.variables@[k] as int) < n_var by {
                assert(sb.variables@.contains(sb.variables@[k]));
            }
            assert(comp.len() > 0);
            if comp.len() == 1 {
                let e = comp[0];
                assert((e as int) < rows.len());
                assert(mu[e as int] is Some);
                let v = mu[e as int].unwrap();
                assert(mv[v as int] == Some(e));
                assert(index[e as int] == c);
                assert(sb.variables@.contains(v));
                assert(sb.variables@[0] == v);
            }
        }
        let block = lower_block(system, &sccs[c], tearing);
        blocks.push(block);
        c = c + 1;
    }
    proof {
        lemma_schedule_from_components(rows, n_var, mu, mv, comps, index, sccs@, blocks@);
        assert(blocks_follow_matching(blocks@, rows, mu));
    }
    let schedule = Schedule {
        blocks,
        n_equations: system.n_equations(),
        n_variables: system.n_variables(),
    };
    proof {
        assert(schedule.block_list() == blocks@);
    }
    Ok(schedule)
}

// ---------------------------------------------------------------------------------------
// The block partition does not depend on the matching.
// ---------------------------------------------------------------------------------------

/// `mu` matches every equation of the square system `rows`.
spec fn total_matching(rows: Seq<Vec<usize>>, mu: Seq<Option<usize>>) -> bool {
    &&& is_matching(rows, rows.len(), mu)
    &&& forall|e: int| 0 <= e < mu.len() ==> #[trigger] mu[e] is Some
}

/// The equation that `mu1` matches to the variable that `mu2` matches to `s`.
spec fn transfer(mu1: Seq<Option<usize>>, mu2: Seq<Option<usize>>, s: int) -> int {
    choose|e: int| 0 <= e < mu1.len() && mu1[e] == mu2[s]
}

/// `transfer` as a sequence over the equations.
spec fn transfers(mu1: Seq<Option<usize>>, mu2: Seq<Option<usize>>) -> Seq<int> {
    Seq::new(mu1.len(), |s: int| transfer(mu1, mu2, s))
}

/// `k` steps along `p` from `s`.
spec fn iterate(p: Seq<int>, s: int, k: nat) -> int
    decreases k,
{
    if k == 0 {
        s
    } else {
        p[iterate(p, s, (k - 1) as nat)]
    }
}

/// A permutation of `0..n`.
spec fn permutes(p: Seq<int>, n: int) -> bool {
    &&& p.len() == n
    &&& forall|i: int| 0 <= i < n ==> 0 <= #[trigger] p[i] < n
    &&& forall|i: int, j: int| 0 <= i < n && 0 <= j < n && i != j ==> #[trigger] p[i] != #[trigger] p[j]
}

proof fn lemma_transfers_permute(rows: Seq<Vec<usize>>, mu1: Seq<Option<usize>>, mu2: Seq<Option<usize>>)
    requires
        total_matching(rows, mu1),
        total_matching(rows, mu2),
    ensures
        permutes(transfers(mu1, mu2), rows.len() as int),
        forall|s: int| 0 <= s < rows.len() ==> #[trigger] mu1[transfers(mu1, mu2)[s]] == mu2[s],
{
    let n = rows.len() as int;
    let sigma = Seq::new(n as nat, |e: int| mu1[e].unwrap() as int);
    assert forall|k1: int, k2: int| 0 <= k1 < n && 0 <= k2 < n && k1 != k2 implies #[trigger] sigma[k1] != #[trigger] sigma[k2] by {
        assert(mu1[k1] != mu1[k2]);
    }
    lemma_injection_onto(sigma, n);
    let p = transfers(mu1, mu2);
    assert forall|s: int| 0 <= s < n implies 0 <= #[trigger] p[s] < n && mu1[p[s]] == mu2[s] by {
        let v = mu2[s].unwrap() as int;
        assert(reached(sigma, n, v));
        let e = choose|e: int| 0 <= e < n && #[trigger] sigma[e] == v;
        assert(mu1[e] == mu2[s]);
    }
    assert forall|i: int, j: int| 0 <= i < n && 0 <= j < n && i != j implies #[trigger] p[i] != #[trigger] p[j] by {
        assert(mu2[i] != mu2[j]);
    }
}

proof fn lemma_iterate_range(p: Seq<int>, n: int, s: int, k: nat)
    requires
        permutes(p, n),
        0 <= s < n,
    ensures
        0 <= iterate(p, s, k) < n,
    decreases k,
{
    if k > 0 {
        lemma_iterate_range(p, n, s, (k - 1) as nat);
    }
}

proof fn lemma_iterate_cancel(p: Seq<int>, n: int, s: int, i: nat, j: nat)
    requires
        permutes(p, n),
        0 <= s < n,
        i < j,
        iterate(p, s, i) == iterate(p, s, j),
    ensures
        iterate(p, s, (j - i) as nat) == s,
    decreases i,
{
    if i > 0 {
        lemma_iterate_range(p, n, s, (i - 1) as nat);
        lemma_iterate_range(p, n, s, (j - 1) as nat);
        lemma_iterate_cancel(p, n, s, (i - 1) as nat, (j - 1) as nat);
    }
}

/// Following a permutation from `s` comes back to `s`.
proof fn lemma_orbit_returns(p: Seq<int>, n: int, s: int) -> (d: nat)
    requires
        permutes(p, n),
        0 <= s < n,
    ensures
        d >= 1,
        iterate(p, s, d) == s,
{
    let dom = set_int_range(0, n + 1);
    let f = |k: int| iterate(p, s, k as nat);
    lemma_int_range(0, n + 1);
    lemma_int_range(0, n);
    if injective_on(f, dom) {
        let img = dom.map(f);
        lemma_map_size(dom, img, f);
        assert(img.subset_of(set_int_range(0, n))) by {
            assert forall|x: int| img.contains(x) implies set_int_range(0, n).contains(x) by {
                let k = choose|k: int| dom.contains(k) && f(k) == x;
                lemma_iterate_range(p, n, s, k as nat);
            }
        }
        lemma_len_subset(img, set_int_range(0, n));
        assert(false);
        1
    } else {
        let (a, b) = choose|a: int, b: int| dom.contains(a) && dom.contains(b) && #[trigger] f(a) == #[trigger] f(b) && a != b;
        if a < b {
            lemma_iterate_cancel(p, n, s, a as nat, b as nat);
            (b - a) as nat
        } else {
            lemma_iterate_cancel(p, n, s, b as nat, a as nat);
            (a - b) as nat
        }
    }
}

/// Under a total matching `mu1`, each equation reaches, and is reached from, the equation
/// that `mu1` matches to the variable another total matching `mu2` gives it.
proof fn lemma_transfer_cycle(rows: Seq<Vec<usize>>, mu1: Seq<Option<usize>>, mu2: Seq<Option<usize>>, s: int)
    requires
        total_matching(rows, mu1),
        total_matching(rows, mu2),
        0 <= s < rows.len(),
    ensures
        reaches(dependency_edge(rows, mu1), s, transfers(mu1, mu2)[s]),
        reaches(dependency_edge(rows, mu1), transfers(mu1, mu2)[s], s),
{
    let n = rows.len() as int;
    let p = transfers(mu1, mu2);
    let edge = dependency_edge(rows, mu1);
    lemma_transfers_permute(rows, mu1, mu2);
    assert forall|x: int| 0 <= x < n implies #[trigger] reaches(edge, x, p[x]) by {
        lemma_reaches_refl(edge, x);
        if x != p[x] {
            assert(mu1[p[x]] == mu2[x]);
            assert(depends_on(rows, mu1, x, p[x]));
            assert(edge(x, p[x]));
            lemma_reaches_step(edge, x, x, p[x]);
        }
    }
    let d = lemma_orbit_returns(p, n, s);
    lemma_orbit_reach(edge, p, n, s, d);
}

/// Stepping along `p` from `s` reaches every later point from the first step, when each point
/// reaches its image.
proof fn lemma_orbit_reach(edge: spec_fn(int, int) -> bool, p: Seq<int>, n: int, s: int, m: nat)
    requires
        permutes(p, n),
        0 <= s < n,
        m >= 1,
        forall|x: int| 0 <= x < n ==> #[trigger] reaches(edge, x, p[x]),
    ensures
        reaches(edge, p[s], iterate(p, s, m)),
    decreases m,
{
    if m == 1 {
        assert(iterate(p, s, 0) == s);
        lemma_reaches_refl(edge, p[s]);
    } else {
        lemma_orbit_reach(edge, p, n, s, (m - 1) as nat);
        lemma_iterate_range(p, n, s, (m - 1) as nat);
        let x = iterate(p, s, (m - 1) as nat);
        assert(reaches(edge, x, p[x]));
        lemma_reaches_trans(edge, p[s], x, p[x]);
    }
}

/// A dependency under `mu2` is a chain of dependencies under `mu1`.
proof fn lemma_dependency_transfers(rows: Seq<Vec<usize>>, mu1: Seq<Option<usize>>, mu2: Seq<Option<usize>>, x: int, y: int)
    requires
        total_matching(rows, mu1),
        total_matching(rows, mu2),
        reaches(dependency_edge(rows, mu2), x, y),
    ensures
        reaches(dependency_edge(rows, mu1), x, y),
{
    let k = choose|k: nat| #[trigger] path(dependency_edge(rows, mu2), x, y, k);
    lemma_path_transfers(rows, mu1, mu2, x, y, k);
}

proof fn lemma_path_transfers(rows: Seq<Vec<usize>>, mu1: Seq<Option<usize>>, mu2: Seq<Option<usize>>, x: int, y: int, k: nat)
    requires
        total_matching(rows, mu1),
        total_matching(rows, mu2),
        path(dependency_edge(rows, mu2), x, y, k),
    ensures
        reaches(dependency_edge(rows, mu1), x, y),
    decreases k,
{
    let e1 = dependency_edge(rows, mu1);
    let e2 = dependency_edge(rows, mu2);
    if x == y {
        lemma_reaches_refl(e1, x);
    } else {
        let z = choose|z: int| #[trigger] e2(x, z) && path(e2, z, y, (k - 1) as nat);
        lemma_path_transfers(rows, mu1, mu2, z, y, (k - 1) as nat);
        // x mentions the variable v that mu2 gives z; mu1 gives v to w = transfer(z)
        lemma_transfers_permute(rows, mu1, mu2);
        let p = transfers(mu1, mu2);
        let w = p[z];
        assert(mu1[w] == mu2[z]);
        lemma_transfer_cycle(rows, mu1, mu2, z);
        if w != x {
            assert(depends_on(rows, mu1, x, w));
            lemma_reaches_refl(e1, x);
            lemma_reaches_step(e1, x, x, w);
            lemma_reaches_trans(e1, x, w, z);
        }
        lemma_reaches_trans(e1, x, z, y);
    }
}

/// Two equations share a block of a schedule.
pub open spec fn same_block(blocks: Seq<Block>, x: usize, y: usize) -> bool {
    exists|b: int, k1: int, k2: int|
        0 <= b < blocks.len() && 0 <= k1 < blocks[b].equations@.len() && 0 <= k2 < blocks[b].equations@.len()
            && #[trigger] blocks[b].equations@[k1] == x && #[trigger] blocks[b].equations@[k2] == y
}

proof fn lemma_same_block_mutual(blocks: Seq<Block>, rows: Seq<Vec<usize>>, mu: Seq<Option<usize>>, x: usize, y: usize)
    requires
        partitions(equation_parts(blocks), rows.len()),
        blocks_follow_matching(blocks, rows, mu),
        (x as int) < rows.len(),
        (y as int) < rows.len(),
    ensures
        same_block(blocks, x, y) <==> mutual(dependency_edge(rows, mu), x as int, y as int),
{
    let parts = equation_parts(blocks);
    assert(occurs_in(parts, x));
    assert(occurs_in(parts, y));
    let (bx, kx) = choose|b: int, k: int| 0 <= b < parts.len() && 0 <= k < parts[b].len() && #[trigger] parts[b][k] == x;
    let (by, ky) = choose|b: int, k: int| 0 <= b < parts.len() && 0 <= k < parts[b].len() && #[trigger] parts[b][k] == y;
    assert(parts[bx] == blocks[bx].equations@);
    assert(parts[by] == blocks[by].equations@);
    assert(blocks[bx].equations@[kx] == x);
    assert(blocks[by].equations@[ky] == y);
    if same_block(blocks, x, y) {
        let (b, k1, k2) = choose|b: int, k1: int, k2: int|
            0 <= b < blocks.len() && 0 <= k1 < blocks[b].equations@.len() && 0 <= k2 < blocks[b].equations@.len()
                && #[trigger] blocks[b].equations@[k1] == x && #[trigger] blocks[b].equations@[k2] == y;
        assert(parts[b][k1] == x);
        assert(parts[b][k2] == y);
    }
}

/// The blocks of a schedule do not depend on the matching it was built from: any two
/// schedules of one square system, torn or not, put the same equations together.
pub proof fn lemma_schedules_share_blocks(
    system: IncidenceSystem,
    blocks1: Seq<Block>,
    n_equations1: nat,
    n_variables1: nat,
    tearing1: bool,
    blocks2: Seq<Block>,
    n_equations2: nat,
    n_variables2: nat,
    tearing2: bool,
    x: usize,
    y: usize,
)
    requires
        system.rows@.len() == system.variables@.len(),
        is_schedule_for(blocks1, n_equations1, n_variables1, system, tearing1),
        is_schedule_for(blocks2, n_equations2, n_variables2, system, tearing2),
        (x as int) < system.rows@.len(),
        (y as int) < system.rows@.len(),
    ensures
        same_block(blocks1, x, y) <==> same_block(blocks2, x, y),
{
    let rows = system.rows@;
    let mu1 = choose|mu: Seq<Option<usize>>|
        is_matching(rows, system.variables@.len(), mu) && (forall|e: int| 0 <= e < mu.len() ==> #[trigger] mu[e] is Some)
            && #[trigger] blocks_follow_matching(blocks1, rows, mu);
    let mu2 = choose|mu: Seq<Option<usize>>|
        is_matching(rows, system.variables@.len(), mu) && (forall|e: int| 0 <= e < mu.len() ==> #[trigger] mu[e] is Some)
            && #[trigger] blocks_follow_matching(blocks2, rows, mu);
    lemma_same_block_mutual(blocks1, rows, mu1, x, y);
    lemma_same_block_mutual(blocks2, rows, mu2, x, y);
    let (xi, yi) = (x as int, y as int);
    if mutual(dependency_edge(rows, mu1), xi, yi) {
        lemma_dependency_transfers(rows, mu2, mu1, xi, yi);
        lemma_dependency_transfers(rows, mu2, mu1, yi, xi);
    }
    if mutual(dependency_edge(rows, mu2), xi, yi) {
        lemma_dependency_transfers(rows, mu1, mu2, xi, yi);
        lemma_dependency_transfers(rows, mu1, mu2, yi, xi);
    }
}

} // verus!

