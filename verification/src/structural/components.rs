//! Strongly connected components of a directed graph on `0..n`, emitted in an order in which
//! every edge points to the same or an earlier component.

use vstd::prelude::*;
use vstd::set_lib::*;

verus! {

/// A path of at most `k` edges from `x` to `y`.
pub open spec fn path(edge: spec_fn(int, int) -> bool, x: int, y: int, k: nat) -> bool
    decreases k,
{
    x == y || (k > 0 && exists|z: int| #[trigger] edge(x, z) && path(edge, z, y, (k - 1) as nat))
}

/// `y` is reachable from `x`.
pub open spec fn reaches(edge: spec_fn(int, int) -> bool, x: int, y: int) -> bool {
    exists|k: nat| #[trigger] path(edge, x, y, k)
}

/// `x` and `y` reach each other.
pub open spec fn mutual(edge: spec_fn(int, int) -> bool, x: int, y: int) -> bool {
    reaches(edge, x, y) && reaches(edge, y, x)
}

/// The edge relation of an adjacency list.
pub open spec fn adj_edge(adj: Seq<Vec<usize>>) -> spec_fn(int, int) -> bool {
    |x: int, y: int| 0 <= x < adj.len() && 0 <= y < adj.len() && adj[x]@.contains(y as usize)
}

/// Every edge target is a vertex.
pub open spec fn adj_wf(adj: Seq<Vec<usize>>) -> bool {
    &&& adj.len() < usize::MAX
    &&& forall|x: int, k: int|
        0 <= x < adj.len() && 0 <= k < adj[x]@.len() ==> (#[trigger] adj[x]@[k] as int) < adj.len()
}

pub proof fn lemma_reaches_refl(edge: spec_fn(int, int) -> bool, x: int)
    ensures
        reaches(edge, x, x),
{
    assert(path(edge, x, x, 0));
}

pub proof fn lemma_path_snoc(edge: spec_fn(int, int) -> bool, x: int, y: int, z: int, k: nat)
    requires
        path(edge, x, y, k),
        edge(y, z),
    ensures
        path(edge, x, z, k + 1),
    decreases k,
{
    if x == y {
        assert(path(edge, z, z, k));
        assert(edge(x, z) && path(edge, z, z, k));
    } else {
        let w = choose|w: int| #[trigger] edge(x, w) && path(edge, w, y, (k - 1) as nat);
        lemma_path_snoc(edge, w, y, z, (k - 1) as nat);
        assert(edge(x, w) && path(edge, w, z, k));
    }
}

pub proof fn lemma_path_concat(edge: spec_fn(int, int) -> bool, x: int, y: int, z: int, k1: nat, k2: nat)
    requires
        path(edge, x, y, k1),
        path(edge, y, z, k2),
    ensures
        path(edge, x, z, k1 + k2),
    decreases k1,
{
    if x == y {
        lemma_path_mono(edge, y, z, k2, k1 + k2);
    } else {
        let w = choose|w: int| #[trigger] edge(x, w) && path(edge, w, y, (k1 - 1) as nat);
        lemma_path_concat(edge, w, y, z, (k1 - 1) as nat, k2);
        assert(edge(x, w) && path(edge, w, z, (k1 - 1 + k2) as nat));
    }
}

pub proof fn lemma_path_mono(edge: spec_fn(int, int) -> bool, x: int, y: int, k: nat, k2: nat)
    requires
        path(edge, x, y, k),
        k <= k2,
    ensures
        path(edge, x, y, k2),
    decreases k,
{
    if x != y {
        let w = choose|w: int| #[trigger] edge(x, w) && path(edge, w, y, (k - 1) as nat);
        lemma_path_mono(edge, w, y, (k - 1) as nat, (k2 - 1) as nat);
        assert(edge(x, w) && path(edge, w, y, (k2 - 1) as nat));
    }
}

pub proof fn lemma_reaches_trans(edge: spec_fn(int, int) -> bool, x: int, y: int, z: int)
    requires
        reaches(edge, x, y),
        reaches(edge, y, z),
    ensures
        reaches(edge, x, z),
{
    let k1 = choose|k: nat| #[trigger] path(edge, x, y, k);
    let k2 = choose|k: nat| #[trigger] path(edge, y, z, k);
    lemma_path_concat(edge, x, y, z, k1, k2);
}

pub proof fn lemma_reaches_step(edge: spec_fn(int, int) -> bool, x: int, y: int, z: int)
    requires
        reaches(edge, x, y),
        edge(y, z),
    ensures
        reaches(edge, x, z),
{
    let k = choose|k: nat| #[trigger] path(edge, x, y, k);
    lemma_path_snoc(edge, x, y, z, k);
}

/// A set closed under edges that contains `x` contains everything `x` reaches.
pub proof fn lemma_closed_contains(edge: spec_fn(int, int) -> bool, s: Set<int>, x: int, y: int, k: nat)
    requires
        s.contains(x),
        forall|a: int, b: int| s.contains(a) && #[trigger] edge(a, b) ==> s.contains(b),
        path(edge, x, y, k),
    ensures
        s.contains(y),
    decreases k,
{
    if x != y {
        let w = choose|w: int| #[trigger] edge(x, w) && path(edge, w, y, (k - 1) as nat);
        lemma_closed_contains(edge, s, w, y, (k - 1) as nat);
    }
}

pub open spec fn true_set(s: Seq<bool>) -> Set<int> {
    Set::new(|i: int| 0 <= i < s.len() && s[i])
}

proof fn lemma_true_set_bound(s: Seq<bool>)
    ensures
        true_set(s).finite(),
        true_set(s).len() <= s.len(),
{
    lemma_int_range(0, s.len() as int);
    assert(true_set(s).subset_of(set_int_range(0, s.len() as int)));
    lemma_len_subset(true_set(s), set_int_range(0, s.len() as int));
}

proof fn lemma_true_set_set(s: Seq<bool>, i: int)
    requires
        0 <= i < s.len(),
        !s[i],
    ensures
        true_set(s.update(i, true)) == true_set(s).insert(i),
        true_set(s.update(i, true)).len() == true_set(s).len() + 1,
{
    lemma_true_set_bound(s);
    assert(true_set(s.update(i, true)) =~= true_set(s).insert(i));
}

/// The vertices reachable from `x`.
pub fn reachable_from(adj: &Vec<Vec<usize>>, x: usize) -> (seen: Vec<bool>)
    requires
        adj_wf(adj@),
        (x as int) < adj@.len(),
    ensures
        seen@.len() == adj@.len(),
        forall|y: int| 0 <= y < adj@.len() ==> #[trigger] seen@[y] == reaches(adj_edge(adj@), x as int, y),
{
    let n = adj.len();
    let ghost edge = adj_edge(adj@);
    let mut seen: Vec<bool> = vec![false; n];
    let mut stack: Vec<usize> = Vec::new();
    let ghost s0 = seen@;
    seen.set(x, true);
    stack.push(x);
    proof {
        lemma_true_set_set(s0, x as int);
        lemma_true_set_bound(seen@);
        lemma_reaches_refl(edge, x as int);
        assert forall|y: int| 0 <= y < n && #[trigger] seen@[y] implies stack@.contains(y as usize) || forall|k: int|
            0 <= k < adj@[y]@.len() ==> seen@[#[trigger] adj@[y]@[k] as int] by {
            assert(y == x as int);
            assert(stack@[0] == x);
        }
        assert forall|y: int| 0 <= y < n && #[trigger] seen@[y] implies reaches(edge, x as int, y) by {
            assert(y == x as int);
        }
    }
    while stack.len() > 0
        invariant
            n == adj@.len(),
            adj_wf(adj@),
            edge == adj_edge(adj@),
            (x as int) < n,
            seen@.len() == n,
            seen@[x as int],
            forall|j: int| 0 <= j < stack@.len() ==> (#[trigger] stack@[j] as int) < n && seen@[stack@[j] as int],
            forall|y: int| 0 <= y < n && #[trigger] seen@[y] ==> reaches(edge, x as int, y),
            forall|y: int|
                0 <= y < n && #[trigger] seen@[y] ==> stack@.contains(y as usize) || forall|k: int|
                    0 <= k < adj@[y]@.len() ==> seen@[#[trigger] adj@[y]@[k] as int],
            true_set(seen@).finite(),
            true_set(seen@).len() <= n,
        decreases n - true_set(seen@).len(), stack@.len(),
    {
        let ghost st_before_pop = stack@;
        let y = stack.pop().unwrap();
        let ghost st_after_pop = stack@;
        proof {
            assert(st_after_pop =~= st_before_pop.drop_last());
            assert(y == st_before_pop[st_before_pop.len() - 1]);
            assert forall|w: int|
                0 <= w < n && #[trigger] seen@[w] implies w == y || stack@.contains(w as usize) || forall|k: int|
                    0 <= k < adj@[w]@.len() ==> seen@[#[trigger] adj@[w]@[k] as int] by {
                if w != y as int && st_before_pop.contains(w as usize) {
                    let i = choose|i: int| 0 <= i < st_before_pop.len() && st_before_pop[i] == w as usize;
                    assert(i < st_before_pop.len() - 1);
                    assert(stack@[i] == w as usize);
                }
            }
            assert((y as int) < n);
        }
        let ghost len0 = true_set(seen@).len();
        let mut j: usize = 0;
        while j < adj[y].len()
            invariant
                n == adj@.len(),
                adj_wf(adj@),
                edge == adj_edge(adj@),
                (x as int) < n,
                (y as int) < n,
                seen@.len() == n,
                seen@[x as int],
                seen@[y as int],
                reaches(edge, x as int, y as int),
                st_after_pop.len() <= stack@.len(),
                stack@.subrange(0, st_after_pop.len() as int) == st_after_pop,
                stack@.len() - st_after_pop.len() == true_set(seen@).len() - len0,
                forall|j2: int| 0 <= j2 < stack@.len() ==> (#[trigger] stack@[j2] as int) < n && seen@[stack@[j2] as int],
                forall|w: int| 0 <= w < n && #[trigger] seen@[w] ==> reaches(edge, x as int, w),
                forall|w: int|
                    0 <= w < n && #[trigger] seen@[w] ==> w == y || stack@.contains(w as usize) || forall|k: int|
                        0 <= k < adj@[w]@.len() ==> seen@[#[trigger] adj@[w]@[k] as int],
                forall|k: int| 0 <= k < j ==> seen@[#[trigger] adj@[y as int]@[k] as int],
                j <= adj@[y as int]@.len(),
                true_set(seen@).finite(),
                true_set(seen@).len() <= n,
                true_set(seen@).len() >= len0,
            decreases adj@[y as int]@.len() - j,
        {
            let z = adj[y][j];
            assert((z as int) < n);
            if !seen[z] {
                let ghost sprev = seen@;
                let ghost stprev = stack@;
                seen.set(z, true);
                stack.push(z);
                proof {
                    lemma_true_set_set(sprev, z as int);
                    lemma_true_set_bound(seen@);
                    assert(adj@[y as int]@[j as int] == z);
                    assert(edge(y as int, z as int));
                    lemma_reaches_step(edge, x as int, y as int, z as int);
                    assert(stack@.subrange(0, st_after_pop.len() as int) =~= stprev.subrange(0, st_after_pop.len() as int));
                    assert forall|w: int|
                        0 <= w < n && #[trigger] seen@[w] implies w == y || stack@.contains(w as usize) || forall|k: int|
                            0 <= k < adj@[w]@.len() ==> seen@[#[trigger] adj@[w]@[k] as int] by {
                        if w == z as int {
                            assert(stack@[stprev.len() as int] == z);
                        } else if w != y as int && stprev.contains(w as usize) {
                            let i = choose|i: int| 0 <= i < stprev.len() && stprev[i] == w as usize;
                            assert(stack@[i] == w as usize);
                        }
                    }
                    assert forall|j2: int| 0 <= j2 < stack@.len() implies (#[trigger] stack@[j2] as int) < n && seen@[stack@[j2] as int] by {
                        if j2 < stprev.len() {
                            assert(stack@[j2] == stprev[j2]);
                        }
                    }
                }
            }
            j = j + 1;
        }
        proof {
            assert forall|w: int|
                0 <= w < n && #[trigger] seen@[w] implies stack@.contains(w as usize) || forall|k: int|
                    0 <= k < adj@[w]@.len() ==> seen@[#[trigger] adj@[w]@[k] as int] by {
            }
        }
    }
    proof {
        let s = Set::new(|w: int| 0 <= w < n && seen@[w]);
        assert forall|a: int, b: int| s.contains(a) && #[trigger] edge(a, b) implies s.contains(b) by {
            assert(adj@[a]@.contains(b as usize));
            let k = choose|k: int| 0 <= k < adj@[a]@.len() && adj@[a]@[k] == b as usize;
            assert(seen@[adj@[a]@[k] as int]);
        }
        assert forall|y: int| 0 <= y < adj@.len() implies #[trigger] seen@[y] == reaches(edge, x as int, y) by {
            if reaches(edge, x as int, y) {
                let k = choose|k: nat| #[trigger] path(edge, x as int, y, k);
                lemma_closed_contains(edge, s, x as int, y, k);
            }
        }
    }
    seen
}

/// The vertices in `0..n` that `x` reaches.
pub open spec fn reach_set(edge: spec_fn(int, int) -> bool, n: int, x: int) -> Set<int> {
    Set::new(|y: int| 0 <= y < n && reaches(edge, x, y))
}

pub open spec fn strictly_increasing(s: Seq<usize>) -> bool {
    forall|i: int, j: int| 0 <= i < j < s.len() ==> #[trigger] s[i] < #[trigger] s[j]
}

/// `comps` lists the strongly connected components of the graph on `0..n`, each in increasing
/// order; `index` maps each vertex to its component; and every edge leads to the same or an
/// earlier component.
pub open spec fn is_condensation_order(
    edge: spec_fn(int, int) -> bool,
    n: nat,
    comps: Seq<Vec<usize>>,
    index: Seq<usize>,
) -> bool {
    &&& index.len() == n
    &&& forall|y: int|
        0 <= y < n ==> (#[trigger] index[y] as int) < comps.len() && comps[index[y] as int]@.contains(
            y as usize,
        )
    &&& forall|c: int, k: int|
        0 <= c < comps.len() && 0 <= k < comps[c]@.len() ==> (#[trigger] comps[c]@[k] as int) < n
            && index[comps[c]@[k] as int] == c
    &&& forall|c: int|
        0 <= c < comps.len() ==> #[trigger] comps[c]@.len() > 0 && strictly_increasing(comps[c]@)
    &&& forall|a: int, b: int|
        0 <= a < n && 0 <= b < n ==> (#[trigger] index[a] == #[trigger] index[b]) == mutual(edge, a, b)
    &&& forall|a: int, b: int| 0 <= a < n && #[trigger] edge(a, b) ==> index[b] <= index[a]
}

fn count_true(v: &Vec<bool>) -> (c: usize)
    ensures
        c == true_set(v@).len(),
{
    let mut c: usize = 0;
    let mut i: usize = 0;
    proof {
        assert(Set::new(|x: int| 0 <= x < 0 && v@[x]) =~= Set::<int>::empty());
    }
    while i < v.len()
        invariant
            i <= v@.len(),
            Set::new(|x: int| 0 <= x < i && v@[x]).finite(),
            c == Set::new(|x: int| 0 <= x < i && v@[x]).len(),
            c <= i,
        decreases v@.len() - i,
    {
        let ghost before = Set::new(|x: int| 0 <= x < i && v@[x]);
        if v[i] {
            assert(Set::new(|x: int| 0 <= x < i + 1 && v@[x]) =~= before.insert(i as int));
            c = c + 1;
        } else {
            assert(Set::new(|x: int| 0 <= x < i + 1 && v@[x]) =~= before);
        }
        i = i + 1;
    }
    assert(Set::new(|x: int| 0 <= x < i && v@[x]) =~= true_set(v@));
    c
}

proof fn lemma_reach_set_bound(edge: spec_fn(int, int) -> bool, n: int, x: int)
    requires
        0 <= n,
    ensures
        reach_set(edge, n, x).finite(),
        reach_set(edge, n, x).len() <= n,
{
    lemma_int_range(0, n);
    assert(reach_set(edge, n, x).subset_of(set_int_range(0, n)));
    lemma_len_subset(reach_set(edge, n, x), set_int_range(0, n));
}

/// A vertex reachable from `x` but not reaching back reaches strictly fewer vertices.
proof fn lemma_reach_smaller(edge: spec_fn(int, int) -> bool, n: int, x: int, b: int)
    requires
        0 <= x < n,
        0 <= b < n,
        reaches(edge, x, b),
        !reaches(edge, b, x),
    ensures
        reach_set(edge, n, b).len() < reach_set(edge, n, x).len(),
{
    lemma_reach_set_bound(edge, n, x);
    lemma_reach_set_bound(edge, n, b);
    assert forall|y: int| reach_set(edge, n, b).contains(y) implies reach_set(edge, n, x).contains(y) by {
        lemma_reaches_trans(edge, x, b, y);
    }
    lemma_reaches_refl(edge, x);
    reach_set(edge, n, b).lemma_subset_not_in_lt(reach_set(edge, n, x), x);
}

/// The state of the emission loop: a prefix of whole components has been emitted in order.
#[verifier::opaque]
pub open spec fn emission_inv(
    edge: spec_fn(int, int) -> bool,
    n: nat,
    emitted: Seq<bool>,
    comps: Seq<Vec<usize>>,
    index: Seq<usize>,
) -> bool {
    &&& emitted.len() == n
    &&& index.len() == n
    &&& forall|y: int|
        0 <= y < n && #[trigger] emitted[y] ==> (index[y] as int) < comps.len() && comps[index[y] as int]@.contains(
            y as usize,
        )
    &&& forall|c: int, k: int|
        0 <= c < comps.len() && 0 <= k < comps[c]@.len() ==> (#[trigger] comps[c]@[k] as int) < n
            && emitted[comps[c]@[k] as int] && index[comps[c]@[k] as int] == c
    &&& forall|c: int|
        0 <= c < comps.len() ==> #[trigger] comps[c]@.len() > 0 && strictly_increasing(comps[c]@)
    &&& forall|a: int, b: int|
        0 <= a < n && 0 <= b < n && #[trigger] emitted[a] && mutual(edge, a, b) ==> #[trigger] emitted[b]
            && index[a] == index[b]
    &&& forall|a: int, b: int|
        0 <= a < n && 0 <= b < n && #[trigger] emitted[a] && #[trigger] emitted[b] && index[a] == index[b]
            ==> mutual(edge, a, b)
    &&& forall|a: int, b: int|
        0 <= a < n && #[trigger] emitted[a] && #[trigger] edge(a, b) ==> 0 <= b < n && emitted[b]
            && index[b] <= index[a]
}

/// Strongly connected components in an order where every edge points to the same or an
/// earlier component: repeatedly emit the component of the not-yet-emitted vertex that
/// reaches the fewest vertices (smallest vertex on ties). Such a vertex's component has no
/// edge to a not-yet-emitted component.
pub fn strongly_connected_order(adj: &Vec<Vec<usize>>) -> (r: (Vec<Vec<usize>>, Vec<usize>))
    requires
        adj_wf(adj@),
    ensures
        is_condensation_order(adj_edge(adj@), adj@.len(), r.0@, r.1@),
{
    let n = adj.len();
    let ghost edge = adj_edge(adj@);
    let mut reach: Vec<Vec<bool>> = Vec::new();
    let mut size: Vec<usize> = Vec::new();
    let mut x: usize = 0;
    while x < n
        invariant
            n == adj@.len(),
            adj_wf(adj@),
            edge == adj_edge(adj@),
            x <= n,
            reach@.len() == x,
            size@.len() == x,
            forall|i: int|
                0 <= i < x ==> (#[trigger] reach@[i])@.len() == n && forall|y: int|
                    0 <= y < n ==> #[trigger] reach@[i]@[y] == reaches(edge, i, y),
            forall|i: int| 0 <= i < x ==> #[trigger] size@[i] == reach_set(edge, n as int, i).len(),
        decreases n - x,
    {
        let r = reachable_from(adj, x);
        let c = count_true(&r);
        proof {
            assert(true_set(r@) =~= reach_set(edge, n as int, x as int));
        }
        reach.push(r);
        size.push(c);
        x = x + 1;
    }
    let mut emitted: Vec<bool> = vec![false; n];
    let mut index: Vec<usize> = vec![0; n];
    let mut comps: Vec<Vec<usize>> = Vec::new();
    let mut remaining: usize = n;
    proof {
        lemma_true_set_bound(emitted@);
        assert(true_set(emitted@) =~= Set::<int>::empty());
        reveal(emission_inv);
    }
    while remaining > 0
        invariant
            n == adj@.len(),
            adj_wf(adj@),
            edge == adj_edge(adj@),
            reach@.len() == n,
            size@.len() == n,
            forall|i: int|
                0 <= i < n ==> (#[trigger] reach@[i])@.len() == n && forall|y: int|
                    0 <= y < n ==> #[trigger] reach@[i]@[y] == reaches(edge, i, y),
            forall|i: int| 0 <= i < n ==> #[trigger] size@[i] == reach_set(edge, n as int, i).len(),
            emission_inv(edge, n as nat, emitted@, comps@, index@),
            emitted@.len() == n,
            index@.len() == n,
            true_set(emitted@).finite(),
            remaining == n - true_set(emitted@).len(),
        decreases remaining,
    {
        proof {
            if forall|z: int| 0 <= z < n ==> #[trigger] emitted@[z] {
                lemma_int_range(0, n as int);
                assert(true_set(emitted@) =~= set_int_range(0, n as int)) by {
                    assert forall|z: int| set_int_range(0, n as int).contains(z) implies true_set(emitted@).contains(z) by {
                        assert(emitted@[z]);
                    }
                }
            }
        }
        let mut best: usize = n;
        let mut z: usize = 0;
        while z < n
            invariant
                n == emitted@.len(),
                size@.len() == n,
                z <= n,
                best == n || ((best as int) < n && !emitted@[best as int]),
                best == n ==> forall|w: int| 0 <= w < z ==> #[trigger] emitted@[w],
                best != n ==> forall|w: int| 0 <= w < z && !#[trigger] emitted@[w] ==> size@[best as int] <= size@[w],
            decreases n - z,
        {
            if !emitted[z] && (best == n || size[z] < size[best]) {
                best = z;
            }
            z = z + 1;
        }
        assert(best < n);
        let t = comps.len();
        let ghost e0 = emitted@;
        let ghost i0 = index@;
        let ghost c0 = comps@;
        proof {
            reveal(emission_inv);
            lemma_reaches_refl(edge, best as int);
            assert forall|w: int| 0 <= w < n && mutual(edge, best as int, w) implies !#[trigger] e0[w] by {
                if e0[w] {
                    assert(mutual(edge, w, best as int));
                }
            }
        }
        let mut comp: Vec<usize> = Vec::new();
        let mut y: usize = 0;
        while y < n
            invariant
                n == adj@.len(),
                edge == adj_edge(adj@),
                reach@.len() == n,
                forall|i: int|
                    0 <= i < n ==> (#[trigger] reach@[i])@.len() == n && forall|y2: int|
                        0 <= y2 < n ==> #[trigger] reach@[i]@[y2] == reaches(edge, i, y2),
                (best as int) < n,
                mutual(edge, best as int, best as int),
                t == c0.len(),
                comps@ == c0,
                y <= n,
                emitted@.len() == n,
                index@.len() == n,
                forall|w: int| 0 <= w < n && mutual(edge, best as int, w) ==> !#[trigger] e0[w],
                forall|w: int|
                    0 <= w < n ==> #[trigger] emitted@[w] == (e0[w] || (w < y && mutual(edge, best as int, w))),
                forall|w: int|
                    0 <= w < n ==> #[trigger] index@[w] == if w < y && mutual(edge, best as int, w) {
                        t
                    } else {
                        i0[w]
                    },
                strictly_increasing(comp@),
                forall|k: int|
                    0 <= k < comp@.len() ==> (#[trigger] comp@[k] as int) < y && mutual(edge, best as int, comp@[k] as int),
                forall|w: int| 0 <= w < y && mutual(edge, best as int, w) ==> #[trigger] comp@.contains(w as usize),
                true_set(emitted@).finite(),
                true_set(emitted@).len() == true_set(e0).len() + comp@.len(),
            decreases n - y,
        {
            if reach[best][y] && reach[y][best] {
                let ghost eprev = emitted@;
                let ghost cprev = comp@;
                proof {
                    assert(!eprev[y as int]);
                    lemma_true_set_set(eprev, y as int);
                }
                comp.push(y);
                emitted.set(y, true);
                index.set(y, t);
                proof {
                    assert forall|w: int| 0 <= w < y + 1 && mutual(edge, best as int, w) implies #[trigger] comp@.contains(w as usize) by {
                        if w < y {
                            assert(cprev.contains(w as usize));
                            let k = choose|k: int| 0 <= k < cprev.len() && cprev[k] == w as usize;
                            assert(comp@[k] == w as usize);
                        } else {
                            assert(comp@[cprev.len() as int] == y);
                        }
                    }
                }
            } else {
                proof {
                    assert(!mutual(edge, best as int, y as int));
                }
            }
            y = y + 1;
        }
        let clen = comp.len();
        assert(comp@.contains((best as int) as usize)) by {
            assert(0 <= best < n && mutual(edge, best as int, best as int));
        }
        comps.push(comp);
        proof {
            assert(comps@.subrange(0, c0.len() as int) =~= c0);
            lemma_emit_component(edge, n as nat, e0, c0, i0, emitted@, comps@, index@, best as int, t, size@);
            lemma_true_set_bound(emitted@);
        }
        remaining = remaining - clen;
    }
    proof {
        assert forall|w: int| 0 <= w < n implies #[trigger] emitted@[w] by {
            if !emitted@[w] {
                lemma_int_range(0, n as int);
                assert(true_set(emitted@).subset_of(set_int_range(0, n as int)));
                true_set(emitted@).lemma_subset_not_in_lt(set_int_range(0, n as int), w);
            }
        }
        lemma_emission_complete(edge, n as nat, emitted@, comps@, index@);
    }
    (comps, index)
}

/// After emitting the component of `best`: the per-vertex bookkeeping facts.
proof fn lemma_emit_members(
    edge: spec_fn(int, int) -> bool,
    n: nat,
    e0: Seq<bool>,
    c0: Seq<Vec<usize>>,
    i0: Seq<usize>,
    e1: Seq<bool>,
    c1: Seq<Vec<usize>>,
    i1: Seq<usize>,
    best: int,
    t: usize,
)
    requires
        emission_inv(edge, n, e0, c0, i0),
        0 <= best < n,
        !e0[best],
        t == c0.len(),
        c1.len() == c0.len() + 1,
        c1.subrange(0, c0.len() as int) == c0,
        e1.len() == n,
        i1.len() == n,
        forall|w: int| 0 <= w < n ==> #[trigger] e1[w] == (e0[w] || mutual(edge, best, w)),
        forall|w: int| 0 <= w < n ==> #[trigger] i1[w] == if mutual(edge, best, w) { t } else { i0[w] },
        strictly_increasing(c1[t as int]@),
        forall|k: int|
            0 <= k < c1[t as int]@.len() ==> (#[trigger] c1[t as int]@[k] as int) < n && mutual(
                edge,
                best,
                c1[t as int]@[k] as int,
            ),
        forall|w: int| 0 <= w < n && mutual(edge, best, w) ==> #[trigger] c1[t as int]@.contains(w as usize),
    ensures
        forall|y: int|
            0 <= y < n && #[trigger] e1[y] ==> (i1[y] as int) < c1.len() && c1[i1[y] as int]@.contains(y as usize),
        forall|c: int, k: int|
            0 <= c < c1.len() && 0 <= k < c1[c]@.len() ==> (#[trigger] c1[c]@[k] as int) < n && e1[c1[c]@[k] as int]
                && i1[c1[c]@[k] as int] == c,
        forall|c: int| 0 <= c < c1.len() ==> #[trigger] c1[c]@.len() > 0 && strictly_increasing(c1[c]@),
{
    reveal(emission_inv);
    let tt = t as int;
    lemma_reaches_refl(edge, best);
    assert(c1[tt]@.contains(best as usize));
    assert forall|c: int, k: int| 0 <= c < c1.len() && 0 <= k < c1[c]@.len() implies (#[trigger] c1[c]@[k] as int) < n
        && e1[c1[c]@[k] as int] && i1[c1[c]@[k] as int] == c by {
        if c < tt {
            assert(c1[c] == c0[c]);
            let y = c0[c]@[k] as int;
            assert(e0[y] && i0[y] == c);
            if mutual(edge, best, y) {
                assert(mutual(edge, y, best));
                assert(e0[best]);
            }
        }
    }
    assert forall|c: int| 0 <= c < c1.len() implies #[trigger] c1[c]@.len() > 0 && strictly_increasing(c1[c]@) by {
        if c < tt {
            assert(c1[c] == c0[c]);
        }
    }
    assert forall|y: int| 0 <= y < n && #[trigger] e1[y] implies (i1[y] as int) < c1.len() && c1[i1[y] as int]@.contains(
        y as usize,
    ) by {
        if !mutual(edge, best, y) {
            assert(c1[i0[y] as int] == c0[i0[y] as int]);
        }
    }
}

/// After emitting the component of `best`: components are exactly the mutual-reachability
/// classes among emitted vertices.
proof fn lemma_emit_classes(
    edge: spec_fn(int, int) -> bool,
    n: nat,
    e0: Seq<bool>,
    c0: Seq<Vec<usize>>,
    i0: Seq<usize>,
    e1: Seq<bool>,
    i1: Seq<usize>,
    best: int,
    t: usize,
)
    requires
        emission_inv(edge, n, e0, c0, i0),
        t == c0.len(),
        0 <= best < n,
        !e0[best],
        e1.len() == n,
        i1.len() == n,
        forall|w: int| 0 <= w < n ==> #[trigger] e1[w] == (e0[w] || mutual(edge, best, w)),
        forall|w: int| 0 <= w < n ==> #[trigger] i1[w] == if mutual(edge, best, w) { t } else { i0[w] },
    ensures
        forall|a: int, b: int|
            0 <= a < n && 0 <= b < n && #[trigger] e1[a] && mutual(edge, a, b) ==> #[trigger] e1[b]
                && i1[a] == i1[b],
        forall|a: int, b: int|
            0 <= a < n && 0 <= b < n && #[trigger] e1[a] && #[trigger] e1[b] && i1[a] == i1[b]
                ==> mutual(edge, a, b),
{
    reveal(emission_inv);
    assert forall|y: int| 0 <= y < n && #[trigger] e0[y] implies (i0[y] as int) < t by {
        assert(c0[i0[y] as int]@.contains(y as usize));
    }
    assert forall|a: int, b: int|
        0 <= a < n && 0 <= b < n && #[trigger] e1[a] && mutual(edge, a, b) implies #[trigger] e1[b] && i1[a] == i1[b] by {
        if mutual(edge, best, a) {
            lemma_reaches_trans(edge, best, a, b);
            lemma_reaches_trans(edge, b, a, best);
        } else {
            assert(e0[a]);
            assert(e0[b] && i0[a] == i0[b]);
            if mutual(edge, best, b) {
                lemma_reaches_trans(edge, best, b, a);
                lemma_reaches_trans(edge, a, b, best);
                assert(e0[best]);
            }
        }
    }
    assert forall|a: int, b: int|
        0 <= a < n && 0 <= b < n && #[trigger] e1[a] && #[trigger] e1[b] && i1[a] == i1[b] implies mutual(edge, a, b) by {
        if mutual(edge, best, a) && mutual(edge, best, b) {
            lemma_reaches_trans(edge, a, best, b);
            lemma_reaches_trans(edge, b, best, a);
        } else if mutual(edge, best, a) {
            assert(e0[b]);
        } else if mutual(edge, best, b) {
            assert(e0[a]);
        } else {
            assert(e0[a] && e0[b]);
        }
    }
}

/// After emitting the component of `best`: no edge leaves the emitted vertices or points to a
/// later component. A vertex reachable from `best` but outside its component and not yet
/// emitted would reach fewer vertices than `best`, against the choice of `best`.
proof fn lemma_emit_edges(
    edge: spec_fn(int, int) -> bool,
    n: nat,
    e0: Seq<bool>,
    c0: Seq<Vec<usize>>,
    i0: Seq<usize>,
    e1: Seq<bool>,
    i1: Seq<usize>,
    best: int,
    t: usize,
    size: Seq<usize>,
)
    requires
        emission_inv(edge, n, e0, c0, i0),
        t == c0.len(),
        forall|a: int, b: int| #[trigger] edge(a, b) ==> 0 <= a < n && 0 <= b < n,
        0 <= best < n,
        !e0[best],
        size.len() == n,
        forall|i: int| 0 <= i < n ==> #[trigger] size[i] == reach_set(edge, n as int, i).len(),
        forall|w: int| 0 <= w < n && !#[trigger] e0[w] ==> size[best] <= size[w],
        e1.len() == n,
        i1.len() == n,
        forall|w: int| 0 <= w < n ==> #[trigger] e1[w] == (e0[w] || mutual(edge, best, w)),
        forall|w: int| 0 <= w < n ==> #[trigger] i1[w] == if mutual(edge, best, w) { t } else { i0[w] },
    ensures
        forall|a: int, b: int|
            0 <= a < n && #[trigger] e1[a] && #[trigger] edge(a, b) ==> 0 <= b < n && e1[b] && i1[b] <= i1[a],
{
    reveal(emission_inv);
    assert forall|y: int| 0 <= y < n && #[trigger] e0[y] implies (i0[y] as int) < t by {
        assert(c0[i0[y] as int]@.contains(y as usize));
    }
    assert forall|a: int, b: int| 0 <= a < n && #[trigger] e1[a] && #[trigger] edge(a, b) implies 0 <= b < n && e1[b]
        && i1[b] <= i1[a] by {
        if mutual(edge, best, a) {
            lemma_reaches_step(edge, best, a, b);
            if !e0[b] && !mutual(edge, best, b) {
                lemma_reach_smaller(edge, n as int, best, b);
                assert(size[best] <= size[b]);
            }
        } else {
            assert(e0[a]);
            assert(e0[b] && i0[b] <= i0[a]);
            if mutual(edge, best, b) {
                assert(mutual(edge, b, best));
                assert(e0[best]);
            }
        }
    }
}

proof fn lemma_emit_component(
    edge: spec_fn(int, int) -> bool,
    n: nat,
    e0: Seq<bool>,
    c0: Seq<Vec<usize>>,
    i0: Seq<usize>,
    e1: Seq<bool>,
    c1: Seq<Vec<usize>>,
    i1: Seq<usize>,
    best: int,
    t: usize,
    size: Seq<usize>,
)
    requires
        emission_inv(edge, n, e0, c0, i0),
        0 <= best < n,
        !e0[best],
        t == c0.len(),
        size.len() == n,
        forall|i: int| 0 <= i < n ==> #[trigger] size[i] == reach_set(edge, n as int, i).len(),
        forall|w: int| 0 <= w < n && !#[trigger] e0[w] ==> size[best] <= size[w],
        c1.len() == c0.len() + 1,
        c1.subrange(0, c0.len() as int) == c0,
        e1.len() == n,
        i1.len() == n,
        forall|w: int| 0 <= w < n ==> #[trigger] e1[w] == (e0[w] || mutual(edge, best, w)),
        forall|w: int| 0 <= w < n ==> #[trigger] i1[w] == if mutual(edge, best, w) { t } else { i0[w] },
        strictly_increasing(c1[t as int]@),
        forall|k: int|
            0 <= k < c1[t as int]@.len() ==> (#[trigger] c1[t as int]@[k] as int) < n && mutual(
                edge,
                best,
                c1[t as int]@[k] as int,
            ),
        forall|w: int| 0 <= w < n && mutual(edge, best, w) ==> #[trigger] c1[t as int]@.contains(w as usize),
        forall|a: int, b: int| #[trigger] edge(a, b) ==> 0 <= a < n && 0 <= b < n,
    ensures
        emission_inv(edge, n, e1, c1, i1),
{
    lemma_emit_members(edge, n, e0, c0, i0, e1, c1, i1, best, t);
    lemma_emit_classes(edge, n, e0, c0, i0, e1, i1, best, t);
    lemma_emit_edges(edge, n, e0, c0, i0, e1, i1, best, t, size);
    reveal(emission_inv);
}

/// Once every vertex is emitted, the emission order is a condensation order.
proof fn lemma_emission_complete(
    edge: spec_fn(int, int) -> bool,
    n: nat,
    emitted: Seq<bool>,
    comps: Seq<Vec<usize>>,
    index: Seq<usize>,
)
    requires
        emission_inv(edge, n, emitted, comps, index),
        forall|w: int| 0 <= w < n ==> #[trigger] emitted[w],
    ensures
        is_condensation_order(edge, n, comps, index),
{
    reveal(emission_inv);
    assert forall|y: int| 0 <= y < n implies (#[trigger] index[y] as int) < comps.len() && comps[index[y] as int]@.contains(
        y as usize,
    ) by {
        assert(emitted[y]);
    }
    assert forall|a: int, b: int| 0 <= a < n && 0 <= b < n implies (#[trigger] index[a] == #[trigger] index[b]) == mutual(edge, a, b) by {
        assert(emitted[a] && emitted[b]);
    }
    assert forall|a: int, b: int| 0 <= a < n && #[trigger] edge(a, b) implies index[b] <= index[a] by {
        assert(emitted[a]);
    }
}

} // verus!
