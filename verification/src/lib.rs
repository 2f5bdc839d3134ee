//! Scientia: the verified core of a compiler for scientific models. Authored modules are
//! lexed into tokens; declarations, shapes and frames follow typing rules; equation systems
//! are causalized into block lower triangular schedules with greedy tearing; and the operator
//! structure of a form (integrand equivalence, degree, sign gauges) is derived with proofs.

use vstd::prelude::*;
use vstd::set_lib::*;

pub mod text;
pub mod lexer;
pub mod requirements;
pub mod scientific;
pub mod semantic;
pub mod source;
pub mod structural;
pub mod structure;
pub mod structured;
pub mod system;
pub mod system_operator;
pub mod tensor;
pub mod verification;

verus! {

/// Some position of `0..n` is sent to `r`.
pub open spec fn reached(sigma: Seq<int>, n: int, r: int) -> bool {
    exists|k: int| 0 <= k < n && #[trigger] sigma[k] == r
}

/// An injection of `0..n` into itself reaches every position.
pub proof fn lemma_injection_onto(sigma: Seq<int>, n: int)
    requires
        0 <= n,
        sigma.len() == n,
        forall|k: int| 0 <= k < n ==> 0 <= #[trigger] sigma[k] < n,
        forall|k1: int, k2: int| 0 <= k1 < n && 0 <= k2 < n && k1 != k2 ==> #[trigger] sigma[k1] != #[trigger] sigma[k2],
    ensures
        forall|r: int| 0 <= r < n ==> #[trigger] reached(sigma, n, r),
{
    let dom = set_int_range(0, n);
    let f = |k: int| sigma[k];
    let img = dom.map(f);
    lemma_int_range(0, n);
    assert(vstd::relations::injective_on(f, dom));
    lemma_map_size(dom, img, f);
    assert forall|r: int| 0 <= r < n implies #[trigger] reached(sigma, n, r) by {
        if !reached(sigma, n, r) {
            assert(img.subset_of(dom.remove(r))) by {
                assert forall|x: int| img.contains(x) implies dom.remove(r).contains(x) by {
                    let k = choose|k: int| dom.contains(k) && f(k) == x;
                }
            }
            lemma_len_subset(img, dom.remove(r));
        }
    }
}

} // verus!
