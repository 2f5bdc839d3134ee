//! Structural equation analysis: the incidence of equations on unknowns, and a maximum
//! matching between them (Hopcroft–Karp), with a proof that the matching is maximum.

use vstd::prelude::*;
use vstd::set_lib::*;
use vstd::relations::injective_on;

pub mod components;
pub mod schedule;

pub use schedule::{
    Block, BlockKind, Schedule, StructuralCompileError, compile_schedule,
    compile_schedule_without_tearing,
};

verus! {

/// An error of projecting a model into an incidence system.
#[derive(Clone, Debug, PartialEq, Eq)]
pub enum StructuralError {
    DuplicateVariable(String),
}

impl StructuralError {
    /// The human-readable message of the error.
    pub fn describe(&self) -> (s: String)
        ensures
            match *self {
                StructuralError::DuplicateVariable(name) => s@ == "model declares structural variable `"@
                    + name@ + "` more than once"@,
            },
    {
        match self {
            StructuralError::DuplicateVariable(name) => {
                let mut s = "model declares structural variable `".to_owned();
                s.append(name.as_str());
                s.append("` more than once");
                s
            },
        }
    }
}

/// Equations (rows) and the unknowns each one mentions (column indices).
#[derive(Clone, Debug)]
pub struct IncidenceSystem {
    pub variables: Vec<String>,
    pub rows: Vec<Vec<usize>>,
}

/// Every column index of every row names a declared variable.
pub open spec fn rows_in_range(rows: Seq<Vec<usize>>, n_var: nat) -> bool {
    forall|e: int, k: int|
        0 <= e < rows.len() && 0 <= k < rows[e]@.len() ==> (#[trigger] rows[e]@[k] as int) < n_var
}

/// `e` mentions variable `v`.
pub open spec fn incident(rows: Seq<Vec<usize>>, e: int, v: int) -> bool {
    &&& 0 <= e < rows.len()
    &&& 0 <= v
    &&& rows[e]@.contains(v as usize)
}

impl IncidenceSystem {
    /// Well-formed: every column index is a declared variable, and the number of equations
    /// stays below the largest machine word (so that layer numbers never wrap).
    pub open spec fn wf(&self) -> bool {
        &&& self.rows@.len() < usize::MAX
        &&& rows_in_range(self.rows@, self.variables@.len())
    }

    pub fn n_equations(&self) -> (n: usize)
        ensures
            n == self.rows@.len(),
    {
        self.rows.len()
    }

    pub fn n_variables(&self) -> (n: usize)
        ensures
            n == self.variables@.len(),
    {
        self.variables.len()
    }
}

/// `m` assigns each equation at most one incident variable, and no variable twice.
pub open spec fn is_matching(rows: Seq<Vec<usize>>, n_var: nat, m: Seq<Option<usize>>) -> bool {
    &&& m.len() == rows.len()
    &&& forall|e: int|
        0 <= e < m.len() && #[trigger] m[e] is Some ==> (m[e].unwrap() as int) < n_var
            && rows[e]@.contains(m[e].unwrap())
    &&& forall|e1: int, e2: int|
        0 <= e1 < m.len() && 0 <= e2 < m.len() && e1 != e2 && m[e1] is Some ==> #[trigger] m[e1]
            != #[trigger] m[e2]
}

/// The equations that `m` matches.
pub open spec fn matched_set(m: Seq<Option<usize>>) -> Set<int> {
    Set::new(|e: int| 0 <= e < m.len() && m[e] is Some)
}

/// Some matching of the system matches every equation and every variable.
pub open spec fn has_perfect_matching(rows: Seq<Vec<usize>>, n_var: nat) -> bool {
    &&& rows.len() == n_var
    &&& exists|m: Seq<Option<usize>>|
        is_matching(rows, n_var, m) && #[trigger] matched_set(m).len() == rows.len()
}

/// The two sides of a matching agree, except that the variable `hole` may still point at an
/// equation that has moved on.
pub open spec fn consistent_except(
    mu: Seq<Option<usize>>,
    mv: Seq<Option<usize>>,
    hole: Option<usize>,
) -> bool {
    &&& forall|e: int|
        0 <= e < mu.len() && #[trigger] mu[e] is Some ==> (mu[e].unwrap() as int) < mv.len()
            && mv[mu[e].unwrap() as int] == Some(e as usize)
    &&& forall|y: int|
        0 <= y < mv.len() && #[trigger] mv[y] is Some && hole != Some(y as usize) ==> (
        mv[y].unwrap() as int) < mu.len() && mu[mv[y].unwrap() as int] == Some(y as usize)
}

/// The indices of `m` that hold `None`, in increasing order.
pub open spec fn unmatched_indices(m: Seq<Option<usize>>) -> Seq<usize>
    decreases m.len(),
{
    if m.len() == 0 {
        Seq::empty()
    } else {
        let rest = unmatched_indices(m.drop_last());
        if m.last() is None {
            rest.push((m.len() - 1) as usize)
        } else {
            rest
        }
    }
}

/// A matching between the equations and the variables of an incidence system.
#[derive(Clone, Debug)]
pub struct Matching {
    pub equation_to_variable: Vec<Option<usize>>,
    pub variable_to_equation: Vec<Option<usize>>,
}

impl Matching {
    /// The two sides describe one matching of `system`.
    pub open spec fn valid_for(&self, system: &IncidenceSystem) -> bool {
        &&& self.variable_to_equation@.len() == system.variables@.len()
        &&& is_matching(system.rows@, system.variables@.len(), self.equation_to_variable@)
        &&& consistent_except(self.equation_to_variable@, self.variable_to_equation@, None)
    }

    /// No matching of `system` matches more equations.
    pub open spec fn is_maximum_for(&self, system: &IncidenceSystem) -> bool {
        &&& self.valid_for(system)
        &&& forall|m2: Seq<Option<usize>>|
            is_matching(system.rows@, system.variables@.len(), m2) ==> #[trigger] matched_set(
                m2,
            ).len() <= matched_set(self.equation_to_variable@).len()
    }

    pub fn cardinality(&self) -> (c: usize)
        ensures
            c == matched_set(self.equation_to_variable@).len(),
    {
        count_matched(&self.equation_to_variable)
    }

    pub fn is_perfect(&self) -> (b: bool)
        ensures
            b == (self.equation_to_variable@.len() == self.variable_to_equation@.len()
                && matched_set(self.equation_to_variable@).len()
                == self.equation_to_variable@.len()),
    {
        self.equation_to_variable.len() == self.variable_to_equation.len() && self.cardinality()
            == self.equation_to_variable.len()
    }

    pub fn unmatched_equations(&self) -> (r: Vec<usize>)
        ensures
            r@ == unmatched_indices(self.equation_to_variable@),
    {
        unmatched_of(&self.equation_to_variable)
    }

    pub fn unmatched_variables(&self) -> (r: Vec<usize>)
        ensures
            r@ == unmatched_indices(self.variable_to_equation@),
    {
        unmatched_of(&self.variable_to_equation)
    }
}

pub open spec fn matched_prefix(m: Seq<Option<usize>>, i: int) -> Set<int> {
    Set::new(|e: int| 0 <= e < i && m[e] is Some)
}

proof fn lemma_matched_prefix_step(m: Seq<Option<usize>>, i: int)
    requires
        0 <= i < m.len(),
        matched_prefix(m, i).finite(),
    ensures
        matched_prefix(m, i + 1).finite(),
        m[i] is Some ==> matched_prefix(m, i + 1).len() == matched_prefix(m, i).len() + 1,
        m[i] is None ==> matched_prefix(m, i + 1).len() == matched_prefix(m, i).len(),
{
    if m[i] is Some {
        assert(matched_prefix(m, i + 1) =~= matched_prefix(m, i).insert(i));
    } else {
        assert(matched_prefix(m, i + 1) =~= matched_prefix(m, i));
    }
}

/// The matched set of a sequence of length `n` is a finite set of at most `n` indices.
pub proof fn lemma_matched_set_bound(m: Seq<Option<usize>>)
    ensures
        matched_set(m).finite(),
        matched_set(m).len() <= m.len(),
{
    lemma_int_range(0, m.len() as int);
    assert(matched_set(m).subset_of(set_int_range(0, m.len() as int)));
    lemma_len_subset(matched_set(m), set_int_range(0, m.len() as int));
}

fn count_matched(m: &Vec<Option<usize>>) -> (c: usize)
    ensures
        c == matched_set(m@).len(),
{
    let mut c: usize = 0;
    let mut i: usize = 0;
    proof {
        assert(matched_prefix(m@, 0) =~= Set::empty());
    }
    while i < m.len()
        invariant
            i <= m@.len(),
            matched_prefix(m@, i as int).finite(),
            c == matched_prefix(m@, i as int).len(),
            c <= i,
        decreases m@.len() - i,
    {
        proof {
            lemma_matched_prefix_step(m@, i as int);
        }
        if m[i].is_some() {
            c = c + 1;
        }
        i = i + 1;
    }
    assert(matched_prefix(m@, i as int) =~= matched_set(m@));
    c
}

fn unmatched_of(m: &Vec<Option<usize>>) -> (r: Vec<usize>)
    ensures
        r@ == unmatched_indices(m@),
{
    let mut r: Vec<usize> = Vec::new();
    let mut i: usize = 0;
    while i < m.len()
        invariant
            i <= m@.len(),
            r@ == unmatched_indices(m@.take(i as int)),
        decreases m@.len() - i,
    {
        assert(m@.take(i + 1).drop_last() =~= m@.take(i as int));
        if m[i].is_none() {
            r.push(i);
        }
        i = i + 1;
    }
    assert(m@.take(i as int) =~= m@);
    r
}

/// The unmatched indices of `m` are increasing, are exactly the positions holding `None`, and
/// together with the matched positions account for every position.
pub proof fn lemma_unmatched_indices(m: Seq<Option<usize>>)
    requires
        m.len() <= usize::MAX,
    ensures
        forall|i: int, j: int|
            0 <= i < j < unmatched_indices(m).len() ==> #[trigger] unmatched_indices(m)[i]
                < #[trigger] unmatched_indices(m)[j],
        forall|k: int|
            0 <= k < unmatched_indices(m).len() ==> (#[trigger] unmatched_indices(m)[k] as int) < m.len()
                && m[unmatched_indices(m)[k] as int] is None,
        forall|i: int| 0 <= i < m.len() && #[trigger] m[i] is None ==> unmatched_indices(m).contains(i as usize),
        unmatched_indices(m).len() + matched_set(m).len() == m.len(),
    decreases m.len(),
{
    lemma_matched_set_bound(m);
    if m.len() > 0 {
        let d = m.drop_last();
        let n = m.len() - 1;
        lemma_unmatched_indices(d);
        lemma_matched_set_bound(d);
        let u = unmatched_indices(m);
        let r = unmatched_indices(d);
        assert(n as usize as int == n);
        if m.last() is None {
            assert(matched_set(m) =~= matched_set(d));
            assert(u == r.push(n as usize));
            assert forall|i: int, j: int| 0 <= i < j < u.len() implies #[trigger] u[i] < #[trigger] u[j] by {
                if j == u.len() - 1 {
                    assert(u[j] == n as usize);
                    if i < r.len() {
                        assert(u[i] == r[i]);
                        assert((r[i] as int) < d.len());
                    }
                } else {
                    assert(u[i] == r[i] && u[j] == r[j]);
                }
            }
        } else {
            assert(matched_set(m) =~= matched_set(d).insert(n));
            assert(!matched_set(d).contains(n));
            assert(u == r);
        }
        assert forall|k: int| 0 <= k < u.len() implies (#[trigger] u[k] as int) < m.len() && m[u[k] as int] is None by {
            if k < r.len() {
                assert(u[k] == r[k]);
                assert((r[k] as int) < d.len());
                assert(d[r[k] as int] == m[r[k] as int]);
            } else {
                assert(u[k] == n as usize);
            }
        }
        assert forall|i: int| 0 <= i < m.len() && #[trigger] m[i] is None implies u.contains(i as usize) by {
            if i < n {
                assert(d[i] == m[i]);
                assert(r.contains(i as usize));
                let k = choose|k: int| 0 <= k < r.len() && r[k] == i as usize;
                assert(u[k] == r[k]);
            } else {
                assert(u[u.len() - 1] == i as usize);
            }
        }
    } else {
        assert(matched_set(m) =~= Set::<int>::empty());
    }
}

/// The two sides of a consistent matching match equally many; so the matching is perfect
/// exactly when both sides have one length and no equation is unmatched, and then no
/// variable is unmatched either.
pub proof fn lemma_perfect_matching(mu: Seq<Option<usize>>, mv: Seq<Option<usize>>)
    requires
        mu.len() <= usize::MAX,
        mv.len() <= usize::MAX,
        consistent_except(mu, mv, None),
    ensures
        matched_set(mu).len() == matched_set(mv).len(),
        (mu.len() == mv.len() && matched_set(mu).len() == mu.len()) <==> (mu.len() == mv.len()
            && unmatched_indices(mu).len() == 0),
        (mu.len() == mv.len() && matched_set(mu).len() == mu.len()) ==> unmatched_indices(mv).len() == 0,
{
    lemma_matched_set_bound(mu);
    lemma_matched_set_bound(mv);
    lemma_unmatched_indices(mu);
    lemma_unmatched_indices(mv);
    let dom = matched_set(mu);
    let f = |e: int| mu[e].unwrap() as int;
    assert(injective_on(f, dom)) by {
        assert forall|a: int, b: int| dom.contains(a) && dom.contains(b) && #[trigger] f(a) == #[trigger] f(b) implies a == b by {
            assert(mu[a] is Some && mu[b] is Some);
            assert(mv[f(a)] == Some(a as usize));
            assert(mv[f(b)] == Some(b as usize));
        }
    }
    assert(dom.map(f) =~= matched_set(mv)) by {
        assert forall|y: int| dom.map(f).contains(y) implies matched_set(mv).contains(y) by {
            let e = choose|e: int| dom.contains(e) && f(e) == y;
            assert(mu[e] is Some);
            assert(mv[y] == Some(e as usize));
        }
        assert forall|y: int| matched_set(mv).contains(y) implies dom.map(f).contains(y) by {
            assert(mv[y] is Some);
            let e = mv[y].unwrap() as int;
            assert(0 <= y < mv.len());
            assert(mu[e] == Some(y as usize));
            assert(dom.contains(e));
            assert(f(e) == y);
        }
    }
    lemma_map_size(dom, matched_set(mv), f);
}

// ---------------------------------------------------------------------------------------
// Layered alternating reachability, the invariant of a Hopcroft–Karp phase.
// ---------------------------------------------------------------------------------------

/// From equation `u`, within `k` matched hops that each climb one BFS layer, an alternating
/// path reaches a free variable.
pub open spec fn lreach(
    rows: Seq<Vec<usize>>,
    pv: Seq<Option<usize>>,
    dist: Seq<usize>,
    u: int,
    k: nat,
) -> bool
    decreases k,
{
    exists|v: usize|
        #[trigger] rows[u]@.contains(v) && (v as int) < pv.len() && (pv[v as int] is None || (
        k > 0 && dist[u] != usize::MAX && pv[v as int] is Some && 0 <= pv[v as int].unwrap()
            < dist.len() && dist[pv[v as int].unwrap() as int] == dist[u] + 1 && lreach(
            rows,
            pv,
            dist,
            pv[v as int].unwrap() as int,
            (k - 1) as nat,
        )))
}

pub open spec fn dead(rows: Seq<Vec<usize>>, pv: Seq<Option<usize>>, dist: Seq<usize>, x: int) -> bool {
    forall|k: nat| !#[trigger] lreach(rows, pv, dist, x, k)
}

/// Every finite layer number is below `dist.len()`.
pub open spec fn dist_bounded(dist: Seq<usize>) -> bool {
    forall|x: int| 0 <= x < dist.len() && #[trigger] dist[x] != usize::MAX ==> dist[x] < dist.len()
}

pub open spec fn zero_iff_free(pu: Seq<Option<usize>>, dist: Seq<usize>) -> bool {
    forall|x: int| 0 <= x < pu.len() ==> (#[trigger] dist[x] == 0) == (pu[x] is None)
}

/// Each equation of a positive layer is reached from an equation one layer below through the
/// variable it is matched to.
pub open spec fn parent_prop(rows: Seq<Vec<usize>>, pv: Seq<Option<usize>>, dist: Seq<usize>) -> bool {
    forall|x: int|
        0 <= x < dist.len() && #[trigger] dist[x] != usize::MAX && dist[x] != 0 ==> exists|
            p: int,
            v: usize,
        |
            #![trigger rows[p]@.contains(v)]
            0 <= p < dist.len() && dist[p] != usize::MAX && dist[x] == dist[p] + 1
                && rows[p]@.contains(v) && (v as int) < pv.len() && pv[v as int] == Some(
                x as usize,
            )
}

/// Variable `v` is matched and its partner has been reached.
pub open spec fn settled(pv: Seq<Option<usize>>, dist: Seq<usize>, v: usize) -> bool {
    &&& (v as int) < pv.len()
    &&& pv[v as int] is Some
    &&& 0 <= pv[v as int].unwrap() < dist.len()
    &&& dist[pv[v as int].unwrap() as int] != usize::MAX
}

/// Every variable of the reached equation `x` is settled.
pub open spec fn closed_at(rows: Seq<Vec<usize>>, pv: Seq<Option<usize>>, dist: Seq<usize>, x: int) -> bool {
    forall|v: usize| #[trigger] rows[x]@.contains(v) ==> settled(pv, dist, v)
}

pub open spec fn closed_all(rows: Seq<Vec<usize>>, pv: Seq<Option<usize>>, dist: Seq<usize>) -> bool {
    forall|x: int|
        0 <= x < dist.len() && #[trigger] dist[x] != usize::MAX ==> closed_at(rows, pv, dist, x)
}

/// The equations that the current layering has reached.
pub open spec fn reached_set(dist: Seq<usize>) -> Set<int> {
    Set::new(|x: int| 0 <= x < dist.len() && dist[x] != usize::MAX)
}

proof fn lemma_reached_bound(dist: Seq<usize>)
    ensures
        reached_set(dist).finite(),
        reached_set(dist).len() <= dist.len(),
{
    lemma_int_range(0, dist.len() as int);
    assert(reached_set(dist).subset_of(set_int_range(0, dist.len() as int)));
    lemma_len_subset(reached_set(dist), set_int_range(0, dist.len() as int));
}

proof fn lemma_reached_insert(dist: Seq<usize>, x: int, d: usize)
    requires
        0 <= x < dist.len(),
        dist[x] == usize::MAX,
        d != usize::MAX,
    ensures
        reached_set(dist.update(x, d)) == reached_set(dist).insert(x),
        reached_set(dist.update(x, d)).len() == reached_set(dist).len() + 1,
{
    lemma_reached_bound(dist);
    assert(reached_set(dist.update(x, d)) =~= reached_set(dist).insert(x));
}

/// A free variable is adjacent to some reached equation.
pub open spec fn free_witness(rows: Seq<Vec<usize>>, pv: Seq<Option<usize>>, dist: Seq<usize>) -> bool {
    exists|u: int, v: usize|
        #![trigger rows[u]@.contains(v)]
        0 <= u < dist.len() && dist[u] != usize::MAX && rows[u]@.contains(v) && (v as int)
            < pv.len() && pv[v as int] is None
}

/// Every variable's partner is an equation index.
pub open spec fn partners_in_range(pv: Seq<Option<usize>>, n: nat) -> bool {
    forall|y: int| 0 <= y < pv.len() && #[trigger] pv[y] is Some ==> (pv[y].unwrap() as int) < n
}

/// The state of the breadth-first layering between two queue pops.
#[verifier::opaque]
pub open spec fn bfs_inv(
    rows: Seq<Vec<usize>>,
    pu: Seq<Option<usize>>,
    pv: Seq<Option<usize>>,
    dist: Seq<usize>,
    queue: Seq<usize>,
    head: int,
    nil: usize,
) -> bool {
    &&& pu.len() == rows.len()
    &&& rows.len() < usize::MAX
    &&& rows_in_range(rows, pv.len())
    &&& partners_in_range(pv, pu.len())
    &&& dist.len() == pu.len()
    &&& forall|x: int|
        0 <= x < dist.len() && #[trigger] dist[x] != usize::MAX ==> dist[x] < reached_set(dist).len()
    &&& zero_iff_free(pu, dist)
    &&& parent_prop(rows, pv, dist)
    &&& 0 <= head <= queue.len()
    &&& forall|j: int|
        0 <= j < queue.len() ==> (#[trigger] queue[j] as int) < dist.len() && dist[queue[j] as int]
            != usize::MAX
    &&& forall|x: int|
        0 <= x < dist.len() && #[trigger] dist[x] != usize::MAX ==> exists|j: int|
            0 <= j < queue.len() && #[trigger] queue[j] == x as usize
    &&& nil != usize::MAX ==> free_witness(rows, pv, dist)
    &&& nil == usize::MAX ==> forall|j: int|
        0 <= j < head ==> closed_at(rows, pv, dist, #[trigger] queue[j] as int)
}

proof fn lemma_push_layers(
    rows: Seq<Vec<usize>>,
    pu: Seq<Option<usize>>,
    pv: Seq<Option<usize>>,
    dist: Seq<usize>,
    u: int,
    v: usize,
    nd: usize,
)
    requires
        dist.len() == pu.len(),
        dist.len() == rows.len(),
        dist.len() < usize::MAX,
        forall|x: int|
            0 <= x < dist.len() && #[trigger] dist[x] != usize::MAX ==> dist[x] < reached_set(dist).len(),
        zero_iff_free(pu, dist),
        parent_prop(rows, pv, dist),
        0 <= u < dist.len(),
        dist[u] != usize::MAX,
        nd == dist[u] + 1,
        rows[u]@.contains(v),
        (v as int) < pv.len(),
        pv[v as int] is Some,
        0 <= pv[v as int].unwrap() < dist.len(),
        dist[pv[v as int].unwrap() as int] == usize::MAX,
    ensures
        ({
            let d2 = dist.update(pv[v as int].unwrap() as int, nd);
            &&& forall|x: int|
                0 <= x < d2.len() && #[trigger] d2[x] != usize::MAX ==> d2[x] < reached_set(d2).len()
            &&& zero_iff_free(pu, d2)
            &&& parent_prop(rows, pv, d2)
        }),
{
    let next = pv[v as int].unwrap() as int;
    let d2 = dist.update(next, nd);
    lemma_reached_bound(dist);
    lemma_reached_insert(dist, next, nd);
    assert forall|x: int| 0 <= x < d2.len() && #[trigger] d2[x] != usize::MAX implies d2[x] < reached_set(d2).len() by {
        if x != next {
            assert(dist[x] != usize::MAX);
        }
    }
    assert forall|x: int| 0 <= x < pu.len() implies (#[trigger] d2[x] == 0) == (pu[x] is None) by {
        if x == next {
            assert(dist[x] == usize::MAX);
            assert(dist[x] != 0);
        }
    }
    assert forall|x: int|
        0 <= x < d2.len() && #[trigger] d2[x] != usize::MAX && d2[x] != 0 implies exists|p: int, vv: usize|
            #![trigger rows[p]@.contains(vv)]
            0 <= p < d2.len() && d2[p] != usize::MAX && d2[x] == d2[p] + 1 && rows[p]@.contains(vv)
                && (vv as int) < pv.len() && pv[vv as int] == Some(x as usize) by {
        if x == next {
            assert(rows[u]@.contains(v));
        } else {
            assert(dist[x] != usize::MAX);
            let (p, vv) = choose|p: int, vv: usize|
                #![trigger rows[p]@.contains(vv)]
                0 <= p < dist.len() && dist[p] != usize::MAX && dist[x] == dist[p] + 1
                    && rows[p]@.contains(vv) && (vv as int) < pv.len() && pv[vv as int] == Some(x as usize);
            assert(rows[p]@.contains(vv));
        }
    }
}

proof fn lemma_push_queue(dist: Seq<usize>, queue: Seq<usize>, next: int, nd: usize)
    requires
        0 <= next < dist.len(),
        dist.len() < usize::MAX,
        dist[next] == usize::MAX,
        nd != usize::MAX,
        forall|j: int|
            0 <= j < queue.len() ==> (#[trigger] queue[j] as int) < dist.len() && dist[queue[j] as int]
                != usize::MAX,
        forall|x: int|
            0 <= x < dist.len() && #[trigger] dist[x] != usize::MAX ==> exists|j: int|
                0 <= j < queue.len() && #[trigger] queue[j] == x as usize,
    ensures
        ({
            let d2 = dist.update(next, nd);
            let q2 = queue.push(next as usize);
            &&& forall|j: int|
                0 <= j < q2.len() ==> (#[trigger] q2[j] as int) < d2.len() && d2[q2[j] as int]
                    != usize::MAX
            &&& forall|x: int|
                0 <= x < d2.len() && #[trigger] d2[x] != usize::MAX ==> exists|j: int|
                    0 <= j < q2.len() && #[trigger] q2[j] == x as usize
        }),
{
    let d2 = dist.update(next, nd);
    let q2 = queue.push(next as usize);
    assert forall|j: int| 0 <= j < q2.len() implies (#[trigger] q2[j] as int) < d2.len() && d2[q2[j] as int]
        != usize::MAX by {
        if j < queue.len() {
            assert(q2[j] == queue[j]);
        } else {
            assert(q2[j] == next as usize);
        }
    }
    assert forall|x: int|
        0 <= x < d2.len() && #[trigger] d2[x] != usize::MAX implies exists|j: int|
            0 <= j < q2.len() && #[trigger] q2[j] == x as usize by {
        if x != next {
            assert(dist[x] != usize::MAX);
            let j = choose|j: int| 0 <= j < queue.len() && #[trigger] queue[j] == x as usize;
            assert(q2[j] == x as usize);
        } else {
            assert(q2[queue.len() as int] == x as usize);
        }
    }
}

proof fn lemma_push_frontier(
    rows: Seq<Vec<usize>>,
    pv: Seq<Option<usize>>,
    dist: Seq<usize>,
    queue: Seq<usize>,
    head: int,
    nil: usize,
    next: int,
    nd: usize,
)
    requires
        0 <= next < dist.len(),
        dist.len() < usize::MAX,
        dist[next] == usize::MAX,
        nd != usize::MAX,
        0 <= head <= queue.len(),
        nil != usize::MAX ==> free_witness(rows, pv, dist),
        nil == usize::MAX ==> forall|j: int|
            0 <= j < head ==> closed_at(rows, pv, dist, #[trigger] queue[j] as int),
    ensures
        ({
            let d2 = dist.update(next, nd);
            let q2 = queue.push(next as usize);
            &&& nil != usize::MAX ==> free_witness(rows, pv, d2)
            &&& nil == usize::MAX ==> forall|j: int|
                0 <= j < head ==> closed_at(rows, pv, d2, #[trigger] q2[j] as int)
        }),
{
    let d2 = dist.update(next, nd);
    let q2 = queue.push(next as usize);
    if nil != usize::MAX {
        let (uu, vv) = choose|uu: int, vv: usize|
            #![trigger rows[uu]@.contains(vv)]
            0 <= uu < dist.len() && dist[uu] != usize::MAX && rows[uu]@.contains(vv)
                && (vv as int) < pv.len() && pv[vv as int] is None;
        assert(rows[uu]@.contains(vv));
    } else {
        assert forall|jj: int| 0 <= jj < head implies closed_at(rows, pv, d2, #[trigger] q2[jj] as int) by {
            assert(q2[jj] == queue[jj]);
            assert(closed_at(rows, pv, dist, queue[jj] as int));
            assert forall|w: usize| #[trigger] rows[q2[jj] as int]@.contains(w) implies settled(pv, d2, w) by {
                assert(rows[queue[jj] as int]@.contains(w));
                assert(settled(pv, dist, w));
            }
        }
    }
}

proof fn lemma_bfs_push(
    rows: Seq<Vec<usize>>,
    pu: Seq<Option<usize>>,
    pv: Seq<Option<usize>>,
    dist: Seq<usize>,
    queue: Seq<usize>,
    head: int,
    nil: usize,
    u: int,
    v: usize,
    nd: usize,
)
    requires
        bfs_inv(rows, pu, pv, dist, queue, head, nil),
        0 <= u < dist.len(),
        dist[u] != usize::MAX,
        nd == dist[u] + 1,
        rows[u]@.contains(v),
        (v as int) < pv.len(),
        pv[v as int] is Some,
        dist[pv[v as int].unwrap() as int] == usize::MAX,
    ensures
        ({
            let next = pv[v as int].unwrap() as int;
            let d2 = dist.update(next, nd);
            &&& bfs_inv(rows, pu, pv, d2, queue.push(next as usize), head, nil)
            &&& reached_set(d2) == reached_set(dist).insert(next)
            &&& reached_set(d2).len() == reached_set(dist).len() + 1
        }),
{
    reveal(bfs_inv);
    let next = pv[v as int].unwrap() as int;
    assert(0 <= next < dist.len());
    lemma_reached_bound(dist);
    lemma_reached_insert(dist, next, nd);
    lemma_push_layers(rows, pu, pv, dist, u, v, nd);
    lemma_push_queue(dist, queue, next, nd);
    lemma_push_frontier(rows, pv, dist, queue, head, nil, next, nd);
}

proof fn lemma_bfs_inv_facts(
    rows: Seq<Vec<usize>>,
    pu: Seq<Option<usize>>,
    pv: Seq<Option<usize>>,
    dist: Seq<usize>,
    queue: Seq<usize>,
    head: int,
    nil: usize,
)
    requires
        bfs_inv(rows, pu, pv, dist, queue, head, nil),
    ensures
        pu.len() == rows.len(),
        rows.len() < usize::MAX,
        rows_in_range(rows, pv.len()),
        partners_in_range(pv, pu.len()),
        dist.len() == pu.len(),
        0 <= head <= queue.len(),
        head < queue.len() ==> (queue[head] as int) < dist.len() && dist[queue[head] as int]
            != usize::MAX && dist[queue[head] as int] < reached_set(dist).len(),
        reached_set(dist).finite(),
        reached_set(dist).len() <= dist.len(),
{
    reveal(bfs_inv);
    lemma_reached_bound(dist);
}

/// Skipping a popped equation keeps the layering invariant once a free variable is known.
proof fn lemma_bfs_skip(
    rows: Seq<Vec<usize>>,
    pu: Seq<Option<usize>>,
    pv: Seq<Option<usize>>,
    dist: Seq<usize>,
    queue: Seq<usize>,
    head: int,
    nil: usize,
)
    requires
        bfs_inv(rows, pu, pv, dist, queue, head, nil),
        head < queue.len(),
        nil != usize::MAX,
    ensures
        bfs_inv(rows, pu, pv, dist, queue, head + 1, nil),
{
    reveal(bfs_inv);
}

/// Recording a free variable next to the reached equation `u` keeps the invariant.
proof fn lemma_bfs_free(
    rows: Seq<Vec<usize>>,
    pu: Seq<Option<usize>>,
    pv: Seq<Option<usize>>,
    dist: Seq<usize>,
    queue: Seq<usize>,
    head: int,
    nil: usize,
    nil2: usize,
    u: int,
    v: usize,
)
    requires
        bfs_inv(rows, pu, pv, dist, queue, head, nil),
        0 <= u < dist.len(),
        dist[u] != usize::MAX,
        rows[u]@.contains(v),
        (v as int) < pv.len(),
        pv[v as int] is None,
        nil2 != usize::MAX,
    ensures
        bfs_inv(rows, pu, pv, dist, queue, head, nil2),
{
    reveal(bfs_inv);
    assert(free_witness(rows, pv, dist));
}

/// Closing the popped equation `queue[head]` extends the closed prefix.
proof fn lemma_bfs_close(
    rows: Seq<Vec<usize>>,
    pu: Seq<Option<usize>>,
    pv: Seq<Option<usize>>,
    dist: Seq<usize>,
    queue: Seq<usize>,
    head: int,
    nil: usize,
)
    requires
        bfs_inv(rows, pu, pv, dist, queue, head, nil),
        head < queue.len(),
        nil == usize::MAX ==> closed_at(rows, pv, dist, queue[head] as int),
    ensures
        bfs_inv(rows, pu, pv, dist, queue, head + 1, nil),
{
    reveal(bfs_inv);
}

proof fn lemma_settled_update(pv: Seq<Option<usize>>, dist: Seq<usize>, next: int, nd: usize, v: usize)
    requires
        settled(pv, dist, v),
        0 <= next < dist.len(),
        dist[next] == usize::MAX,
        nd != usize::MAX,
    ensures
        settled(pv, dist.update(next, nd), v),
{
}

/// Relax every variable of the reached equation `u = queue[head]`: a free variable records a
/// free witness; the partner of a matched variable joins the next layer if not yet reached.
#[verifier::rlimit(40)]
fn scan_row(
    rows: &Vec<Vec<usize>>,
    pair_u: &Vec<Option<usize>>,
    pair_v: &Vec<Option<usize>>,
    dist: &mut Vec<usize>,
    queue: &mut Vec<usize>,
    nil: &mut usize,
    head: usize,
    u: usize,
)
    requires
        bfs_inv(rows@, pair_u@, pair_v@, old(dist)@, old(queue)@, head as int, *old(nil)),
        head < old(queue)@.len(),
        old(queue)@[head as int] == u,
        *old(nil) == usize::MAX || old(dist)@[u as int] < *old(nil),
    ensures
        final(dist)@.len() == old(dist)@.len(),
        reached_set(old(dist)@).subset_of(reached_set(final(dist)@)),
        final(queue)@.len() - old(queue)@.len() == reached_set(final(dist)@).len() - reached_set(
            old(dist)@,
        ).len(),
        final(queue)@.subrange(0, old(queue)@.len() as int) == old(queue)@,
        bfs_inv(rows@, pair_u@, pair_v@, final(dist)@, final(queue)@, head + 1, *final(nil)),
{
    let ghost d0 = dist@;
    let ghost q0 = queue@;
    let ghost nil0 = *nil;
    proof {
        lemma_bfs_inv_facts(rows@, pair_u@, pair_v@, dist@, queue@, head as int, *nil);
    }
    let mut j: usize = 0;
    while j < rows[u].len()
        invariant
            bfs_inv(rows@, pair_u@, pair_v@, dist@, queue@, head as int, *nil),
            (u as int) < dist@.len(),
            dist@.len() == rows@.len(),
            dist@.len() == pair_u@.len(),
            rows@.len() < usize::MAX,
            rows_in_range(rows@, pair_v@.len()),
            partners_in_range(pair_v@, pair_u@.len()),
            head < q0.len(),
            q0[head as int] == u,
            q0.len() <= queue@.len(),
            queue@.subrange(0, q0.len() as int) == q0,
            dist@.len() == d0.len(),
            forall|x: int| 0 <= x < d0.len() && #[trigger] d0[x] != usize::MAX ==> dist@[x] == d0[x],
            reached_set(d0).subset_of(reached_set(dist@)),
            queue@.len() - q0.len() == reached_set(dist@).len() - reached_set(d0).len(),
            dist@[u as int] != usize::MAX,
            dist@[u as int] < reached_set(dist@).len(),
            *nil == usize::MAX || dist@[u as int] < *nil,
            *nil == usize::MAX ==> nil0 == usize::MAX,
            j <= rows@[u as int]@.len(),
            *nil == usize::MAX ==> forall|jj: int|
                0 <= jj < j ==> settled(pair_v@, dist@, #[trigger] rows@[u as int]@[jj]),
        decreases rows@[u as int]@.len() - j,
    {
        let v = rows[u][j];
        assert(rows@[u as int]@[j as int] == v);
        assert(rows@[u as int]@.contains(v));
        assert((v as int) < pair_v@.len());
        proof {
            lemma_bfs_inv_facts(rows@, pair_u@, pair_v@, dist@, queue@, head as int, *nil);
        }
        match pair_v[v] {
            None => {
                let ghost nil_prev = *nil;
                if dist[u] + 1 < *nil {
                    *nil = dist[u] + 1;
                }
                proof {
                    if nil_prev != *nil {
                        lemma_bfs_free(rows@, pair_u@, pair_v@, dist@, queue@, head as int, nil_prev, *nil, u as int, v);
                    }
                }
            },
            Some(next) => {
                if dist[next] == usize::MAX {
                    let ghost dprev = dist@;
                    let ghost qprev = queue@;
                    let nd = dist[u] + 1;
                    dist.set(next, nd);
                    queue.push(next);
                    proof {
                        lemma_bfs_push(rows@, pair_u@, pair_v@, dprev, qprev, head as int, *nil, u as int, v, nd);
                        assert(queue@.subrange(0, q0.len() as int) =~= qprev.subrange(0, q0.len() as int));
                        if *nil == usize::MAX {
                            assert forall|jj: int| 0 <= jj < j implies settled(pair_v@, dist@, #[trigger] rows@[u as int]@[jj]) by {
                                lemma_settled_update(pair_v@, dprev, next as int, nd, rows@[u as int]@[jj]);
                            }
                        }
                    }
                }
            },
        }
        j = j + 1;
    }
    proof {
        if *nil == usize::MAX {
            assert forall|v: usize| #[trigger] rows@[u as int]@.contains(v) implies settled(pair_v@, dist@, v) by {
                let jj = choose|jj: int| 0 <= jj < rows@[u as int]@.len() && rows@[u as int]@[jj] == v;
                assert(settled(pair_v@, dist@, rows@[u as int]@[jj]));
            }
        }
        assert(queue@[head as int] == u) by {
            assert(queue@.subrange(0, q0.len() as int)[head as int] == q0[head as int]);
        }
        lemma_bfs_close(rows@, pair_u@, pair_v@, dist@, queue@, head as int, *nil);
    }
}

/// Breadth-first layering from the free equations along alternating paths. Returns whether a
/// free variable is reachable.
fn bfs(
    rows: &Vec<Vec<usize>>,
    pair_u: &Vec<Option<usize>>,
    pair_v: &Vec<Option<usize>>,
    dist: &mut Vec<usize>,
) -> (found: bool)
    requires
        old(dist)@.len() == pair_u@.len(),
        pair_u@.len() == rows@.len(),
        rows@.len() < usize::MAX,
        rows_in_range(rows@, pair_v@.len()),
        partners_in_range(pair_v@, pair_u@.len()),
    ensures
        final(dist)@.len() == pair_u@.len(),
        dist_bounded(final(dist)@),
        zero_iff_free(pair_u@, final(dist)@),
        parent_prop(rows@, pair_v@, final(dist)@),
        found ==> free_witness(rows@, pair_v@, final(dist)@),
        !found ==> closed_all(rows@, pair_v@, final(dist)@),
{
    let n_u = pair_u.len();
    let mut queue: Vec<usize> = Vec::new();
    let mut i: usize = 0;
    while i < n_u
        invariant
            n_u == pair_u@.len(),
            dist@.len() == n_u,
            i <= n_u,
            forall|x: int|
                0 <= x < i ==> (#[trigger] dist@[x] == 0 <==> pair_u@[x] is None) && (pair_u@[x]
                    is Some ==> dist@[x] == usize::MAX),
            forall|j: int|
                0 <= j < queue@.len() ==> (#[trigger] queue@[j] as int) < i && dist@[queue@[j] as int]
                    == 0,
            forall|x: int|
                0 <= x < i && dist@[x] == 0 ==> exists|j: int|
                    0 <= j < queue@.len() && #[trigger] queue@[j] == x as usize,
        decreases n_u - i,
    {
        let ghost qprev = queue@;
        if pair_u[i].is_none() {
            dist.set(i, 0);
            queue.push(i);
            assert(queue@[qprev.len() as int] == i);
        } else {
            dist.set(i, usize::MAX);
        }
        proof {
            assert forall|x: int| 0 <= x < i + 1 && dist@[x] == 0 implies exists|j: int|
                0 <= j < queue@.len() && #[trigger] queue@[j] == x as usize by {
                if x < i {
                    let j = choose|j: int| 0 <= j < qprev.len() && #[trigger] qprev[j] == x as usize;
                    assert(queue@[j] == x as usize);
                }
            }
        }
        i = i + 1;
    }
    let mut nil: usize = usize::MAX;
    let mut head: usize = 0;
    proof {
        lemma_reached_bound(dist@);
        assert forall|x: int|
            0 <= x < dist@.len() && #[trigger] dist@[x] != usize::MAX implies dist@[x] < reached_set(
                dist@,
            ).len() by {
            assert(reached_set(dist@).contains(x));
        }
        reveal(bfs_inv);
    }
    while head < queue.len()
        invariant
            bfs_inv(rows@, pair_u@, pair_v@, dist@, queue@, head as int, nil),
        decreases pair_u@.len() - reached_set(dist@).len(), queue@.len() - head,
    {
        proof {
            lemma_bfs_inv_facts(rows@, pair_u@, pair_v@, dist@, queue@, head as int, nil);
        }
        let u = queue[head];
        if dist[u] >= nil {
            proof {
                lemma_bfs_skip(rows@, pair_u@, pair_v@, dist@, queue@, head as int, nil);
            }
            head = head + 1;
            continue;
        }
        let ghost d_before = dist@;
        scan_row(rows, pair_u, pair_v, dist, &mut queue, &mut nil, head, u);
        head = head + 1;
        proof {
            lemma_reached_bound(dist@);
            lemma_reached_bound(d_before);
            lemma_len_subset(reached_set(d_before), reached_set(dist@));
            lemma_bfs_inv_facts(rows@, pair_u@, pair_v@, dist@, queue@, head as int, nil);
        }
    }
    proof {
        reveal(bfs_inv);
        lemma_reached_bound(dist@);
        if nil == usize::MAX {
            assert forall|x: int| 0 <= x < dist@.len() && #[trigger] dist@[x] != usize::MAX implies closed_at(
                rows@,
                pair_v@,
                dist@,
                x,
            ) by {
                let j = choose|j: int| 0 <= j < queue@.len() && #[trigger] queue@[j] == x as usize;
                assert(closed_at(rows@, pair_v@, dist@, queue@[j] as int));
            }
        }
    }
    nil != usize::MAX
}

// ---------------------------------------------------------------------------------------
// Augmenting along layered paths (one Hopcroft–Karp phase).
// ---------------------------------------------------------------------------------------

/// Each matched equation is matched to one of its own variables.
pub open spec fn edges_valid(rows: Seq<Vec<usize>>, n_var: nat, pu: Seq<Option<usize>>) -> bool {
    forall|e: int|
        0 <= e < pu.len() && #[trigger] pu[e] is Some ==> (pu[e].unwrap() as int) < n_var
            && rows[e]@.contains(pu[e].unwrap())
}

/// Variable `v` of equation `u` leads nowhere: it is matched, and its partner is off the next
/// layer or cannot reach a free variable.
pub open spec fn blocked(rows: Seq<Vec<usize>>, pv: Seq<Option<usize>>, dist: Seq<usize>, u: int, v: usize) -> bool {
    &&& (v as int) < pv.len()
    &&& pv[v as int] is Some
    &&& 0 <= pv[v as int].unwrap() < dist.len()
    &&& (dist[pv[v as int].unwrap() as int] != dist[u] + 1 || dead(rows, pv, dist, pv[v as int].unwrap() as int))
}

proof fn lemma_dead_from_blocked(rows: Seq<Vec<usize>>, pv: Seq<Option<usize>>, dist: Seq<usize>, u: int)
    requires
        forall|v: usize| #[trigger] rows[u]@.contains(v) ==> blocked(rows, pv, dist, u, v),
    ensures
        dead(rows, pv, dist, u),
{
    assert forall|k: nat| !#[trigger] lreach(rows, pv, dist, u, k) by {
        if lreach(rows, pv, dist, u, k) {
            let v = choose|v: usize|
                #[trigger] rows[u]@.contains(v) && (v as int) < pv.len() && (pv[v as int] is None || (
                k > 0 && dist[u] != usize::MAX && pv[v as int] is Some && 0 <= pv[v as int].unwrap()
                    < dist.len() && dist[pv[v as int].unwrap() as int] == dist[u] + 1 && lreach(
                    rows,
                    pv,
                    dist,
                    pv[v as int].unwrap() as int,
                    (k - 1) as nat,
                )));
            assert(blocked(rows, pv, dist, u, v));
            if pv[v as int] is Some && dist[pv[v as int].unwrap() as int] == dist[u] + 1 {
                assert(!lreach(rows, pv, dist, pv[v as int].unwrap() as int, (k - 1) as nat));
            }
        }
    }
}

/// Removing a dead equation from the layering changes no layered reachability.
proof fn lemma_mark_dead(rows: Seq<Vec<usize>>, pv: Seq<Option<usize>>, dist: Seq<usize>, x: int, y: int, k: nat)
    requires
        0 <= x < dist.len(),
        0 <= y < dist.len(),
        dist.len() < usize::MAX,
        dist_bounded(dist),
        dead(rows, pv, dist, x),
    ensures
        lreach(rows, pv, dist.update(x, usize::MAX), y, k) == lreach(rows, pv, dist, y, k),
    decreases k,
{
    let d2 = dist.update(x, usize::MAX);
    if lreach(rows, pv, d2, y, k) {
        let v = choose|v: usize|
            #[trigger] rows[y]@.contains(v) && (v as int) < pv.len() && (pv[v as int] is None || (
            k > 0 && d2[y] != usize::MAX && pv[v as int] is Some && 0 <= pv[v as int].unwrap()
                < d2.len() && d2[pv[v as int].unwrap() as int] == d2[y] + 1 && lreach(
                rows,
                pv,
                d2,
                pv[v as int].unwrap() as int,
                (k - 1) as nat,
            )));
        if pv[v as int] is None {
            assert(rows[y]@.contains(v));
        } else {
            let w = pv[v as int].unwrap() as int;
            assert(y != x);
            assert(d2[y] == dist[y]);
            assert(dist[y] < dist.len());
            assert(w != x);
            lemma_mark_dead(rows, pv, dist, x, w, (k - 1) as nat);
            assert(rows[y]@.contains(v));
        }
    }
    if lreach(rows, pv, dist, y, k) {
        if y == x {
            assert(!lreach(rows, pv, dist, x, k));
        }
        let v = choose|v: usize|
            #[trigger] rows[y]@.contains(v) && (v as int) < pv.len() && (pv[v as int] is None || (
            k > 0 && dist[y] != usize::MAX && pv[v as int] is Some && 0 <= pv[v as int].unwrap()
                < dist.len() && dist[pv[v as int].unwrap() as int] == dist[y] + 1 && lreach(
                rows,
                pv,
                dist,
                pv[v as int].unwrap() as int,
                (k - 1) as nat,
            )));
        if pv[v as int] is None {
            assert(rows[y]@.contains(v));
        } else {
            let w = pv[v as int].unwrap() as int;
            if w == x {
                assert(!lreach(rows, pv, dist, x, (k - 1) as nat));
            }
            lemma_mark_dead(rows, pv, dist, x, w, (k - 1) as nat);
            assert(rows[y]@.contains(v));
        }
    }
}

/// A layered path from a reached equation extends backwards to a free equation.
#[verifier::rlimit(40)]
proof fn lemma_root_reaches(
    rows: Seq<Vec<usize>>,
    pu: Seq<Option<usize>>,
    pv: Seq<Option<usize>>,
    dist: Seq<usize>,
    u: int,
    k: nat,
)
    requires
        dist.len() == pu.len(),
        dist.len() < usize::MAX,
        zero_iff_free(pu, dist),
        parent_prop(rows, pv, dist),
        0 <= u < dist.len(),
        dist[u] != usize::MAX,
        lreach(rows, pv, dist, u, k),
    ensures
        exists|r: int, kk: nat| 0 <= r < pu.len() && pu[r] is None && #[trigger] lreach(rows, pv, dist, r, kk),
    decreases dist[u],
{
    if dist[u] == 0 {
        assert(lreach(rows, pv, dist, u, k));
    } else {
        let (p, v) = choose|p: int, v: usize|
            #![trigger rows[p]@.contains(v)]
            0 <= p < dist.len() && dist[p] != usize::MAX && dist[u] == dist[p] + 1
                && rows[p]@.contains(v) && (v as int) < pv.len() && pv[v as int] == Some(u as usize);
        assert(rows[p]@.contains(v));
        assert(pv[v as int].unwrap() as int == u);
        assert(lreach(rows, pv, dist, p, k + 1));
        lemma_root_reaches(rows, pu, pv, dist, p, k + 1);
    }
}

/// The DFS frame on layer numbers: only dead equations of deeper layers (or `u` itself) are
/// removed from the layering.
pub open spec fn dist_frame(
    rows: Seq<Vec<usize>>,
    pv0: Seq<Option<usize>>,
    d0: Seq<usize>,
    d: Seq<usize>,
    u: int,
) -> bool {
    forall|x: int|
        0 <= x < d.len() && #[trigger] d[x] != d0[x] ==> d[x] == usize::MAX && d0[x] != usize::MAX
            && (x == u || d0[x] > d0[u]) && dead(rows, pv0, d0, x)
}

pub open spec fn same_reach(rows: Seq<Vec<usize>>, pv: Seq<Option<usize>>, d1: Seq<usize>, d2: Seq<usize>) -> bool {
    forall|y: int, k: nat|
        0 <= y < d1.len() ==> #[trigger] lreach(rows, pv, d1, y, k) == lreach(rows, pv, d2, y, k)
}

/// Re-linking `u` to `v` after the partner `w` of `v` moved on along its own augmenting path.
proof fn lemma_relink(
    pu0: Seq<Option<usize>>,
    pv0: Seq<Option<usize>>,
    pu1: Seq<Option<usize>>,
    pv1: Seq<Option<usize>>,
    u: int,
    v: usize,
    w: int,
)
    requires
        pu1.len() == pu0.len(),
        pv1.len() == pv0.len(),
        pu0.len() <= usize::MAX,
        pv0.len() <= usize::MAX,
        0 <= u < pu0.len(),
        0 <= w < pu0.len(),
        u != w,
        (v as int) < pv0.len(),
        u <= usize::MAX,
        pv0[v as int] == Some(w as usize),
        consistent_except(pu0, pv0, None),
        consistent_except(pu1, pv1, pu0[w]),
        pu1[w] != pu0[w],
        pv1[v as int] == pv0[v as int],
        pu1[u] == pu0[u],
    ensures
        consistent_except(pu1.update(u, Some(v)), pv1.update(v as int, Some(u as usize)), pu0[u]),
{
    let pu2 = pu1.update(u, Some(v));
    let pv2 = pv1.update(v as int, Some(u as usize));
    assert(pu0[w] == Some(v));
    assert forall|e: int| 0 <= e < pu2.len() && #[trigger] pu2[e] is Some implies (pu2[e].unwrap() as int)
        < pv2.len() && pv2[pu2[e].unwrap() as int] == Some(e as usize) by {
        if e != u {
            assert(pu1[e] is Some);
            let y = pu1[e].unwrap();
            assert(pv1[y as int] == Some(e as usize));
            if y == v {
                assert(e == w);
            }
        }
    }
    assert forall|y: int| 0 <= y < pv2.len() && #[trigger] pv2[y] is Some && pu0[u] != Some(y as usize) implies (
        pv2[y].unwrap() as int) < pu2.len() && pu2[pv2[y].unwrap() as int] == Some(y as usize) by {
        if y != v as int {
            assert(pv1[y] is Some);
            let e = pv1[y].unwrap() as int;
            assert(pu1[e] == Some(y as usize));
        }
    }
}

/// Try to augment along a layered alternating path from equation `u`.
#[verifier::rlimit(60)]
fn dfs(
    u: usize,
    rows: &Vec<Vec<usize>>,
    pair_u: &mut Vec<Option<usize>>,
    pair_v: &mut Vec<Option<usize>>,
    dist: &mut Vec<usize>,
) -> (found: bool)
    requires
        rows@.len() < usize::MAX,
        old(pair_v)@.len() <= usize::MAX,
        old(pair_u)@.len() == rows@.len(),
        old(dist)@.len() == rows@.len(),
        rows_in_range(rows@, old(pair_v)@.len()),
        partners_in_range(old(pair_v)@, rows@.len()),
        edges_valid(rows@, old(pair_v)@.len(), old(pair_u)@),
        consistent_except(old(pair_u)@, old(pair_v)@, None),
        dist_bounded(old(dist)@),
        (u as int) < rows@.len(),
        old(dist)@[u as int] != usize::MAX,
    ensures
        final(pair_u)@.len() == old(pair_u)@.len(),
        final(pair_v)@.len() == old(pair_v)@.len(),
        final(dist)@.len() == old(dist)@.len(),
        dist_bounded(final(dist)@),
        partners_in_range(final(pair_v)@, rows@.len()),
        edges_valid(rows@, old(pair_v)@.len(), final(pair_u)@),
        dist_frame(rows@, old(pair_v)@, old(dist)@, final(dist)@, u as int),
        !found ==> final(pair_u)@ == old(pair_u)@ && final(pair_v)@ == old(pair_v)@ && final(dist)@[u as int]
            == usize::MAX && same_reach(rows@, old(pair_v)@, final(dist)@, old(dist)@),
        found ==> consistent_except(final(pair_u)@, final(pair_v)@, old(pair_u)@[u as int]),
        found ==> final(pair_u)@[u as int] is Some && final(pair_u)@[u as int] != old(pair_u)@[u as int],
        found && old(pair_u)@[u as int] is Some ==> final(pair_v)@[old(pair_u)@[u as int].unwrap() as int]
            == old(pair_v)@[old(pair_u)@[u as int].unwrap() as int],
        found ==> forall|e: int|
            0 <= e < rows@.len() && e != u ==> (#[trigger] final(pair_u)@[e] is Some) == (old(pair_u)@[e] is Some),
        found ==> forall|e: int|
            0 <= e < rows@.len() && #[trigger] final(pair_u)@[e] != old(pair_u)@[e] ==> old(dist)@[e]
                != usize::MAX && (e == u || old(dist)@[e] > old(dist)@[u as int]),
        found ==> forall|y: int|
            0 <= y < old(pair_v)@.len() && #[trigger] final(pair_v)@[y] != old(pair_v)@[y] ==> old(pair_v)@[y] is None
                || (old(dist)@[old(pair_v)@[y].unwrap() as int] != usize::MAX && (old(pair_v)@[y].unwrap() == u
                || old(dist)@[old(pair_v)@[y].unwrap() as int] > old(dist)@[u as int])),
    decreases rows@.len() - old(dist)@[u as int],
{
    let ghost pu0 = pair_u@;
    let ghost pv0 = pair_v@;
    let ghost d0 = dist@;
    let next_layer = dist[u].wrapping_add(1);
    let mut j: usize = 0;
    while j < rows[u].len()
        invariant
            rows@.len() < usize::MAX,
            pu0 == old(pair_u)@,
            pv0 == old(pair_v)@,
            d0 == old(dist)@,
            pair_u@ == pu0,
            pair_v@ == pv0,
            pv0.len() <= usize::MAX,
            pu0.len() == rows@.len(),
            d0.len() == rows@.len(),
            dist@.len() == rows@.len(),
            rows_in_range(rows@, pv0.len()),
            partners_in_range(pv0, rows@.len()),
            edges_valid(rows@, pv0.len(), pu0),
            consistent_except(pu0, pv0, None),
            dist_bounded(dist@),
            dist_bounded(d0),
            (u as int) < rows@.len(),
            d0[u as int] != usize::MAX,
            dist@[u as int] == d0[u as int],
            next_layer == d0[u as int] + 1,
            forall|x: int|
                0 <= x < dist@.len() && #[trigger] dist@[x] != d0[x] ==> dist@[x] == usize::MAX && d0[x]
                    != usize::MAX && d0[x] > d0[u as int] && dead(rows@, pv0, d0, x),
            same_reach(rows@, pv0, dist@, d0),
            j <= rows@[u as int]@.len(),
            forall|jj: int| 0 <= jj < j ==> blocked(rows@, pv0, d0, u as int, #[trigger] rows@[u as int]@[jj]),
        decreases rows@[u as int]@.len() - j,
    {
        let v = rows[u][j];
        assert(rows@[u as int]@[j as int] == v);
        assert((v as int) < pv0.len());
        match pair_v[v] {
            None => {
                pair_v.set(v, Some(u));
                pair_u.set(u, Some(v));
                proof {
                    assert(rows@[u as int]@.contains(v));
                    assert(consistent_except(pair_u@, pair_v@, pu0[u as int]));
                }
                return true;
            },
            Some(w) => {
                if dist[w] == next_layer {
                    let ghost dc = dist@;
                    let child = dfs(w, rows, pair_u, pair_v, dist);
                    if child {
                        let ghost pu1 = pair_u@;
                        let ghost pv1 = pair_v@;
                        let ghost d1 = dist@;
                        proof {
                            assert(pu0[w as int] == Some(v));
                            assert(pu1[u as int] == pu0[u as int]);
                            assert(pv0.len() <= usize::MAX);
                            lemma_relink(pu0, pv0, pu1, pv1, u as int, v, w as int);
                        }
                        pair_v.set(v, Some(u));
                        pair_u.set(u, Some(v));
                        proof {
                            assert(rows@[u as int]@.contains(v));
                            assert forall|x: int| 0 <= x < dist@.len() && #[trigger] dist@[x] != d0[x] implies dist@[x]
                                == usize::MAX && d0[x] != usize::MAX && (x == u || d0[x] > d0[u as int]) && dead(
                                rows@,
                                pv0,
                                d0,
                                x,
                            ) by {
                                if dist@[x] != dc[x] {
                                    assert(dead(rows@, pv0, dc, x));
                                    assert forall|k: nat| !#[trigger] lreach(rows@, pv0, d0, x, k) by {
                                        assert(lreach(rows@, pv0, dc, x, k) == lreach(rows@, pv0, d0, x, k));
                                    }
                                }
                            }
                        }
                        return true;
                    }
                    proof {
                        assert(dead(rows@, pv0, dc, w as int));
                        assert forall|x: int|
                            0 <= x < dist@.len() && #[trigger] dist@[x] != d0[x] implies dist@[x] == usize::MAX && d0[x]
                                != usize::MAX && d0[x] > d0[u as int] && dead(rows@, pv0, d0, x) by {
                            if dist@[x] != dc[x] {
                                assert(dead(rows@, pv0, dc, x));
                                assert forall|k: nat| !#[trigger] lreach(rows@, pv0, d0, x, k) by {
                                    assert(lreach(rows@, pv0, dc, x, k) == lreach(rows@, pv0, d0, x, k));
                                }
                            }
                        }
                        assert forall|y: int, k: nat| 0 <= y < dist@.len() implies #[trigger] lreach(rows@, pv0, dist@, y, k) == lreach(rows@, pv0, d0, y, k) by {
                            assert(lreach(rows@, pv0, dist@, y, k) == lreach(rows@, pv0, dc, y, k));
                            assert(lreach(rows@, pv0, dc, y, k) == lreach(rows@, pv0, d0, y, k));
                        }
                        assert forall|k: nat| !#[trigger] lreach(rows@, pv0, d0, w as int, k) by {
                            assert(lreach(rows@, pv0, dc, w as int, k) == lreach(rows@, pv0, d0, w as int, k));
                        }
                        assert(blocked(rows@, pv0, d0, u as int, v));
                    }
                } else {
                    proof {
                        if d0[w as int] == d0[u as int] + 1 {
                            assert(dist@[w as int] != d0[w as int]);
                        }
                        assert(blocked(rows@, pv0, d0, u as int, v));
                    }
                }
            },
        }
        j = j + 1;
    }
    let ghost dl = dist@;
    proof {
        assert forall|v: usize| #[trigger] rows@[u as int]@.contains(v) implies blocked(rows@, pv0, d0, u as int, v) by {
            let jj = choose|jj: int| 0 <= jj < rows@[u as int]@.len() && rows@[u as int]@[jj] == v;
            assert(blocked(rows@, pv0, d0, u as int, rows@[u as int]@[jj]));
        }
        lemma_dead_from_blocked(rows@, pv0, d0, u as int);
        assert forall|k: nat| !#[trigger] lreach(rows@, pv0, dl, u as int, k) by {
            assert(lreach(rows@, pv0, dl, u as int, k) == lreach(rows@, pv0, d0, u as int, k));
        }
    }
    dist.set(u, usize::MAX);
    proof {
        assert forall|y: int, k: nat| 0 <= y < dist@.len() implies #[trigger] lreach(rows@, pv0, dist@, y, k) == lreach(rows@, pv0, d0, y, k) by {
            lemma_mark_dead(rows@, pv0, dl, u as int, y, k);
            assert(lreach(rows@, pv0, dl, y, k) == lreach(rows@, pv0, d0, y, k));
        }
    }
    false
}

// ---------------------------------------------------------------------------------------
// Maximality: a vertex cover of the size of the matching.
// ---------------------------------------------------------------------------------------

proof fn lemma_bounded_set(s: Set<int>, n: int)
    requires
        0 <= n,
        forall|x: int| #[trigger] s.contains(x) ==> 0 <= x < n,
    ensures
        s.finite(),
        s.len() <= n,
{
    lemma_int_range(0, n);
    assert(s.subset_of(set_int_range(0, n)));
    lemma_len_subset(s, set_int_range(0, n));
}

proof fn lemma_consistent_is_matching(
    rows: Seq<Vec<usize>>,
    n_var: nat,
    mu: Seq<Option<usize>>,
    mv: Seq<Option<usize>>,
)
    requires
        mu.len() == rows.len(),
        mu.len() <= usize::MAX,
        edges_valid(rows, n_var, mu),
        consistent_except(mu, mv, None),
    ensures
        is_matching(rows, n_var, mu),
{
    assert forall|e1: int, e2: int|
        0 <= e1 < mu.len() && 0 <= e2 < mu.len() && e1 != e2 && mu[e1] is Some implies #[trigger] mu[e1]
            != #[trigger] mu[e2] by {
        if mu[e1] == mu[e2] {
            assert(mv[mu[e1].unwrap() as int] == Some(e1 as usize));
            assert(mv[mu[e2].unwrap() as int] == Some(e2 as usize));
        }
    }
}

/// König's argument: if every free equation is reached, and every variable of a reached
/// equation is matched to a reached equation, then the unreached equations together with the
/// variables matched into the reached ones cover every edge, and that cover is exactly as
/// large as the matching. Hence no matching is larger.
pub proof fn lemma_cover_certificate(
    rows: Seq<Vec<usize>>,
    n_var: nat,
    mu: Seq<Option<usize>>,
    mv: Seq<Option<usize>>,
    reached: Set<int>,
)
    requires
        is_matching(rows, n_var, mu),
        mv.len() == n_var,
        mu.len() <= usize::MAX,
        n_var <= usize::MAX,
        consistent_except(mu, mv, None),
        forall|e: int| 0 <= e < mu.len() && #[trigger] mu[e] is None ==> reached.contains(e),
        forall|e: int, v: usize|
            reached.contains(e) && 0 <= e < rows.len() && #[trigger] rows[e]@.contains(v) ==> (v as int)
                < mv.len() && mv[v as int] is Some && reached.contains(mv[v as int].unwrap() as int),
    ensures
        forall|m2: Seq<Option<usize>>|
            is_matching(rows, n_var, m2) ==> #[trigger] matched_set(m2).len() <= matched_set(mu).len(),
{
    let n = rows.len() as int;
    let ne = Set::new(|e: int| 0 <= e < n && !reached.contains(e));
    let rm = Set::new(|e: int| 0 <= e < n && reached.contains(e) && mu[e] is Some);
    let nv = Set::new(
        |y: int| 0 <= y < n_var && mv[y] is Some && reached.contains(mv[y].unwrap() as int),
    );
    lemma_bounded_set(ne, n);
    lemma_bounded_set(rm, n);
    lemma_bounded_set(nv, n_var as int);
    lemma_matched_set_bound(mu);
    assert(matched_set(mu) =~= ne.union(rm));
    assert(ne.disjoint(rm));
    lemma_set_disjoint_lens(ne, rm);
    let f = |y: int| mv[y].unwrap() as int;
    assert(injective_on(f, nv)) by {
        assert forall|y1: int, y2: int| nv.contains(y1) && nv.contains(y2) && #[trigger] f(y1) == #[trigger] f(y2) implies y1 == y2 by {
            let e = mv[y1].unwrap() as int;
            assert(mu[e] == Some(y1 as usize));
            assert(mu[mv[y2].unwrap() as int] == Some(y2 as usize));
        }
    }
    assert(nv.map(f) =~= rm) by {
        assert forall|e: int| rm.contains(e) implies nv.map(f).contains(e) by {
            let y = mu[e].unwrap() as int;
            assert(mv[y] == Some(e as usize));
            assert(nv.contains(y));
            assert(f(y) == e);
        }
        assert forall|e: int| nv.map(f).contains(e) implies rm.contains(e) by {
            let y = choose|y: int| nv.contains(y) && e == f(y);
            assert(mu[mv[y].unwrap() as int] == Some(y as usize));
        }
    }
    lemma_map_size(nv, rm, f);
    assert forall|m2: Seq<Option<usize>>|
        is_matching(rows, n_var, m2) implies #[trigger] matched_set(m2).len() <= matched_set(mu).len() by {
        let a = Set::new(|e: int| 0 <= e < n && m2[e] is Some && !reached.contains(e));
        let b = Set::new(|e: int| 0 <= e < n && m2[e] is Some && reached.contains(e));
        lemma_bounded_set(a, n);
        lemma_bounded_set(b, n);
        lemma_matched_set_bound(m2);
        assert(matched_set(m2) =~= a.union(b));
        assert(a.disjoint(b));
        lemma_set_disjoint_lens(a, b);
        assert(a.subset_of(ne));
        lemma_len_subset(a, ne);
        let g = |e: int| m2[e].unwrap() as int;
        assert(injective_on(g, b)) by {
            assert forall|e1: int, e2: int| b.contains(e1) && b.contains(e2) && #[trigger] g(e1) == #[trigger] g(e2) implies e1 == e2 by {
                if e1 != e2 {
                    assert(m2[e1] != m2[e2]);
                }
            }
        }
        lemma_map_size(b, b.map(g), g);
        assert(b.map(g).subset_of(nv)) by {
            assert forall|y: int| b.map(g).contains(y) implies nv.contains(y) by {
                let e = choose|e: int| b.contains(e) && y == g(e);
                let v = m2[e].unwrap();
                assert(rows[e]@.contains(v));
            }
        }
        lemma_len_subset(b.map(g), nv);
    }
}

/// One Hopcroft–Karp phase: a depth-first augmentation attempt from every free equation.
/// Given a layering that reaches a free variable, it augments at least once.
#[verifier::rlimit(100)]
fn augment_phase(
    rows_v: &Vec<Vec<usize>>,
    n_v: usize,
    pair_u: &mut Vec<Option<usize>>,
    pair_v: &mut Vec<Option<usize>>,
    dist: &mut Vec<usize>,
)
    requires
        rows_v@.len() < usize::MAX,
        rows_in_range(rows_v@, n_v as nat),
        old(pair_u)@.len() == rows_v@.len(),
        old(pair_v)@.len() == n_v,
        old(dist)@.len() == rows_v@.len(),
        consistent_except(old(pair_u)@, old(pair_v)@, None),
        edges_valid(rows_v@, n_v as nat, old(pair_u)@),
        partners_in_range(old(pair_v)@, rows_v@.len()),
        dist_bounded(old(dist)@),
        zero_iff_free(old(pair_u)@, old(dist)@),
        parent_prop(rows_v@, old(pair_v)@, old(dist)@),
        free_witness(rows_v@, old(pair_v)@, old(dist)@),
    ensures
        final(pair_u)@.len() == rows_v@.len(),
        final(pair_v)@.len() == n_v,
        final(dist)@.len() == rows_v@.len(),
        consistent_except(final(pair_u)@, final(pair_v)@, None),
        edges_valid(rows_v@, n_v as nat, final(pair_u)@),
        partners_in_range(final(pair_v)@, rows_v@.len()),
        matched_set(final(pair_u)@).finite(),
        matched_set(final(pair_u)@).len() > matched_set(old(pair_u)@).len(),
{
    let n_u = rows_v.len();
    let ghost rows = rows_v@;
    let ghost pu0 = pair_u@;
    let ghost pv0 = pair_v@;
    let ghost d0 = dist@;
    let ghost mut aug = false;
    proof {
        lemma_matched_set_bound(pair_u@);
    }
    let mut u: usize = 0;
    while u < n_u
        invariant
            rows == rows_v@,
            rows.len() < usize::MAX,
            rows_in_range(rows, n_v as nat),
            n_u == rows.len(),
            pair_u@.len() == n_u,
            pair_v@.len() == n_v,
            dist@.len() == n_u,
            pu0.len() == n_u,
            d0.len() == n_u,
            pu0 == old(pair_u)@,
            consistent_except(pair_u@, pair_v@, None),
            edges_valid(rows, n_v as nat, pair_u@),
            partners_in_range(pair_v@, n_u as nat),
            dist_bounded(dist@),
            dist_bounded(d0),
            u <= n_u,
            zero_iff_free(pu0, d0),
            parent_prop(rows, pv0, d0),
            free_witness(rows, pv0, d0),
            forall|x: int| 0 <= x < n_u && #[trigger] pair_u@[x] is None ==> pu0[x] is None,
            forall|x: int|
                0 <= x < n_u && #[trigger] dist@[x] != d0[x] ==> dist@[x] == usize::MAX && (x < u
                    || d0[x] != 0),
            matched_set(pair_u@).finite(),
            matched_set(pair_u@).len() >= matched_set(pu0).len(),
            aug ==> matched_set(pair_u@).len() > matched_set(pu0).len(),
            !aug ==> pair_u@ == pu0 && pair_v@ == pv0 && same_reach(rows, pv0, dist@, d0),
            !aug ==> forall|r: int| 0 <= r < u && #[trigger] pu0[r] is None ==> dead(rows, pv0, d0, r),
        decreases n_u - u,
    {
        if pair_u[u].is_none() {
            let ghost pu_c = pair_u@;
            let ghost pv_c = pair_v@;
            let ghost d_c = dist@;
            proof {
                assert(pu0[u as int] is None);
                assert(d0[u as int] == 0);
                assert(dist@[u as int] == 0);
            }
            let r = dfs(u, rows_v, pair_u, pair_v, dist);
            proof {
                lemma_matched_set_bound(pair_u@);
                lemma_matched_set_bound(pu_c);
                if r {
                    assert(matched_set(pair_u@) =~= matched_set(pu_c).insert(u as int));
                    aug = true;
                } else {
                    assert(dead(rows, pv_c, d_c, u as int));
                    if !aug {
                        assert forall|k: nat| !#[trigger] lreach(rows, pv0, d0, u as int, k) by {
                            assert(lreach(rows, pv0, d_c, u as int, k) == lreach(rows, pv0, d0, u as int, k));
                        }
                        assert forall|y: int, k: nat| 0 <= y < dist@.len() implies #[trigger] lreach(rows, pv0, dist@, y, k)
                            == lreach(rows, pv0, d0, y, k) by {
                            assert(lreach(rows, pv0, dist@, y, k) == lreach(rows, pv0, d_c, y, k));
                            assert(lreach(rows, pv0, d_c, y, k) == lreach(rows, pv0, d0, y, k));
                        }
                    }
                }
                assert forall|x: int|
                    0 <= x < n_u && #[trigger] dist@[x] != d0[x] implies dist@[x] == usize::MAX && (x < u + 1
                        || d0[x] != 0) by {
                    if dist@[x] != d_c[x] {
                        assert(d_c[x] != usize::MAX);
                    }
                }
            }
        }
        u = u + 1;
    }
    proof {
        if !aug {
            let (uu, vv) = choose|uu: int, vv: usize|
                #![trigger rows[uu]@.contains(vv)]
                0 <= uu < d0.len() && d0[uu] != usize::MAX && rows[uu]@.contains(vv) && (vv as int)
                    < pv0.len() && pv0[vv as int] is None;
            assert(rows[uu]@.contains(vv));
            assert(lreach(rows, pv0, d0, uu, 0));
            lemma_root_reaches(rows, pu0, pv0, d0, uu, 0);
            let (rr, kk) = choose|rr: int, kk: nat| 0 <= rr < pu0.len() && pu0[rr] is None && #[trigger] lreach(rows, pv0, d0, rr, kk);
            assert(dead(rows, pv0, d0, rr));
            assert(false);
        }
    }
}

/// Deterministic Hopcroft–Karp maximum matching.
pub fn maximum_matching(system: &IncidenceSystem) -> (m: Matching)
    requires
        system.wf(),
    ensures
        m.is_maximum_for(system),
{
    let n_u = system.n_equations();
    let n_v = system.n_variables();
    let mut pair_u: Vec<Option<usize>> = vec![None; n_u];
    let mut pair_v: Vec<Option<usize>> = vec![None; n_v];
    let mut dist: Vec<usize> = vec![usize::MAX; n_u];
    let ghost rows = system.rows@;
    proof {
        assert(consistent_except(pair_u@, pair_v@, None));
        assert(edges_valid(rows, n_v as nat, pair_u@));
        lemma_matched_set_bound(pair_u@);
    }
    loop
        invariant
            rows == system.rows@,
            system.wf(),
            n_u == rows.len(),
            n_v == system.variables@.len(),
            pair_u@.len() == n_u,
            pair_v@.len() == n_v,
            dist@.len() == n_u,
            consistent_except(pair_u@, pair_v@, None),
            edges_valid(rows, n_v as nat, pair_u@),
            partners_in_range(pair_v@, n_u as nat),
        ensures
            pair_u@.len() == n_u,
            pair_v@.len() == n_v,
            dist@.len() == n_u,
            consistent_except(pair_u@, pair_v@, None),
            edges_valid(rows, n_v as nat, pair_u@),
            zero_iff_free(pair_u@, dist@),
            closed_all(rows, pair_v@, dist@),
        decreases n_u - matched_set(pair_u@).len(),
    {
        proof {
            lemma_matched_set_bound(pair_u@);
        }
        let found = bfs(&system.rows, &pair_u, &pair_v, &mut dist);
        if !found {
            break;
        }
        augment_phase(&system.rows, n_v, &mut pair_u, &mut pair_v, &mut dist);
        proof {
            lemma_matched_set_bound(pair_u@);
        }
    }
    proof {
        lemma_consistent_is_matching(rows, n_v as nat, pair_u@, pair_v@);
        let reached = reached_set(dist@);
        assert forall|e: int, v: usize|
            reached.contains(e) && 0 <= e < rows.len() && #[trigger] rows[e]@.contains(v) implies (v as int)
                < pair_v@.len() && pair_v@[v as int] is Some && reached.contains(pair_v@[v as int].unwrap() as int) by {
            assert(closed_at(rows, pair_v@, dist@, e));
            assert(settled(pair_v@, dist@, v));
        }
        assert forall|e: int| 0 <= e < pair_u@.len() && #[trigger] pair_u@[e] is None implies reached.contains(e) by {
            assert(dist@[e] == 0);
        }
        lemma_cover_certificate(rows, n_v as nat, pair_u@, pair_v@, reached);
    }
    Matching { equation_to_variable: pair_u, variable_to_equation: pair_v }
}

} // verus!
