//! Operator structure: linearity, block classes, symmetry, nullspaces, property tangents, time
//! structure, and the signed row graph behind a residual sign gauge.

use vstd::prelude::*;
use crate::scientific::TimeRole;
use crate::semantic::SymbolId;
use crate::text::{decimal, push_decimal, push_signed_decimal, signed_decimal};

pub mod integrand;

verus! {

pub const OPERATOR_STRUCTURE_SCHEMA: &'static str = "scientia-operator-structure/2";

/// Whether a form is linear in its trial inputs, and if not, which symbols it is nonlinear in.
#[derive(Clone, Debug, PartialEq, Eq)]
pub enum Linearity {
    Linear,
    Nonlinear { active: Vec<SymbolId> },
}

#[derive(Clone, Copy, Debug, PartialEq, Eq, Structural)]
pub enum FormSymmetry {
    Symmetric,
    Nonsymmetric,
    Unknown,
}

/// The structural class of an operator block.
#[derive(Clone, Copy, Debug, PartialEq, Eq, PartialOrd, Ord, Structural)]
pub enum BlockClass {
    Mass,
    Diffusive,
    Convective,
    Constraint,
    Coupling,
    Reaction,
    Unknown,
}

/// Block `(row, column)` of the operator: whether it is present, and its class.
#[derive(Clone, Copy, Debug, PartialEq, Eq, PartialOrd, Ord, Structural)]
pub struct BlockStructure {
    pub row: SymbolId,
    pub column: SymbolId,
    pub present: bool,
    pub class: BlockClass,
}

#[derive(Clone, Copy, Debug, PartialEq, Eq, Structural)]
pub enum NullspaceKind {
    Constant,
    RigidBody { dimension: u8 },
}

#[derive(Clone, Debug, PartialEq, Eq)]
pub struct NullspaceCandidate {
    pub field: SymbolId,
    pub kind: NullspaceKind,
    pub reason: String,
}

/// How a property's tangent enters the operator's derivative.
#[derive(Clone, Copy, Debug, PartialEq, Eq, Structural)]
pub enum PropertyTangent {
    Inlined,
    External,
    Frozen,
}

#[derive(Clone, Debug, PartialEq, Eq)]
pub struct PropertyDependence {
    pub property: SymbolId,
    pub depends_on: Vec<SymbolId>,
    pub tangent: PropertyTangent,
}

#[derive(Clone, Debug, PartialEq, Eq)]
pub struct TimeStructure {
    pub transient: bool,
    pub roles: Vec<(SymbolId, TimeRole)>,
    pub dae_index_lower_bound: Option<u8>,
}

/// `A_ij ≈ σ_ij · A_jiᵀ` decided structurally; `sigma` is `None` when undecidable.
#[derive(Clone, Copy, Debug, PartialEq, Eq, PartialOrd, Ord, Structural)]
pub struct TransposeRelation {
    pub row: SymbolId,
    pub column: SymbolId,
    pub sigma: Option<i8>,
}

/// One signed edge of the row graph: `sigma` is the transpose relation between the two rows'
/// off-diagonal blocks.
#[derive(Clone, Copy, Debug, PartialEq, Eq, PartialOrd, Ord, Structural)]
pub struct SignedEdge {
    pub row: SymbolId,
    pub column: SymbolId,
    pub sigma: i8,
}

/// Proof that the signed row graph is balanced: signs were propagated from each component's
/// smallest row (`+1`) along `spanning_forest`, and every edge in `edges` then satisfies
/// `sign[row] · sign[column] == sigma`.
#[derive(Clone, Debug, PartialEq, Eq)]
pub struct SignedGraphBalance {
    pub edges: Vec<SignedEdge>,
    pub spanning_forest: Vec<SignedEdge>,
}

/// A `±1` orientation per block row under which the whole system is structurally symmetric.
#[derive(Clone, Debug, PartialEq, Eq)]
pub struct SignGauge {
    /// Sorted by row.
    pub signs: Vec<(SymbolId, i8)>,
    pub proof: SignedGraphBalance,
}

#[derive(Clone, Debug, PartialEq, Eq)]
pub struct StructureError {
    pub code: String,
    pub message: String,
}

impl StructureError {
    /// `code: message`.
    pub fn describe(&self) -> (s: String)
        ensures
            s@ == self.code@ + ": "@ + self.message@,
    {
        let mut s = self.code.clone();
        s.append(": ");
        s.append(self.message.as_str());
        s
    }
}

pub fn structure_error(code: &str, message: &str) -> (e: StructureError)
    ensures
        e.code@ == code@,
        e.message@ == message@,
{
    StructureError { code: code.to_owned(), message: message.to_owned() }
}

/// How much of a property's tangent an operator keeps: inlined over external over frozen.
pub open spec fn tangent_rank_of(tangent: PropertyTangent) -> u8 {
    match tangent {
        PropertyTangent::Inlined => 2,
        PropertyTangent::External => 1,
        PropertyTangent::Frozen => 0,
    }
}

pub fn tangent_rank(tangent: PropertyTangent) -> (r: u8)
    ensures
        r == tangent_rank_of(tangent),
{
    match tangent {
        PropertyTangent::Inlined => 2,
        PropertyTangent::External => 1,
        PropertyTangent::Frozen => 0,
    }
}

/// The stronger of two tangents; the first on ties.
pub fn merge_tangent(a: PropertyTangent, b: PropertyTangent) -> (m: PropertyTangent)
    ensures
        m == (if tangent_rank_of(a) >= tangent_rank_of(b) { a } else { b }),
{
    if tangent_rank(a) >= tangent_rank(b) {
        a
    } else {
        b
    }
}

/// Merging tangents is associative and commutative, and keeps the strongest: a property used
/// through several paths gets the same tangent whatever order the paths are merged in.
pub proof fn lemma_merge_tangent_laws(a: PropertyTangent, b: PropertyTangent, c: PropertyTangent)
    ensures
        ({
            let m = |x: PropertyTangent, y: PropertyTangent|
                if tangent_rank_of(x) >= tangent_rank_of(y) { x } else { y };
            &&& m(a, b) == m(b, a)
            &&& m(m(a, b), c) == m(a, m(b, c))
            &&& m(a, a) == a
            &&& tangent_rank_of(m(a, b)) >= tangent_rank_of(a)
            &&& tangent_rank_of(m(a, b)) >= tangent_rank_of(b)
        }),
{
}

// ---------------------------------------------------------------------------------------
// The signed row graph and its sign gauge.
// ---------------------------------------------------------------------------------------

/// A present diagonal block that is convective: no row orientation makes it symmetric.
pub open spec fn convective_diagonal(b: BlockStructure) -> bool {
    b.present && b.row == b.column && b.class == BlockClass::Convective
}

/// Block `(row, column)` is present.
pub open spec fn block_present(structure: Seq<BlockStructure>, row: SymbolId, column: SymbolId) -> bool {
    exists|k: int|
        0 <= k < structure.len() && (#[trigger] structure[k]).present && structure[k].row == row
            && structure[k].column == column
}

/// An off-diagonal block that is present while its mirror is not.
pub open spec fn one_sided(structure: Seq<BlockStructure>, row: SymbolId, column: SymbolId) -> bool {
    row != column && block_present(structure, row, column) && !block_present(structure, column, row)
}

/// `(r1, c1)` comes no later than `(r2, c2)` in lexicographic order.
pub open spec fn pair_le(r1: SymbolId, c1: SymbolId, r2: SymbolId, c2: SymbolId) -> bool {
    r1.0 < r2.0 || (r1.0 == r2.0 && c1.0 <= c2.0)
}

/// The edges of the signed row graph: the relations with `row < column`, in order, signed by
/// their decided `sigma`.
pub open spec fn upper_edges(rels: Seq<TransposeRelation>) -> Seq<SignedEdge>
    decreases rels.len(),
{
    if rels.len() == 0 {
        seq![]
    } else {
        let r = rels.last();
        let rest = upper_edges(rels.drop_last());
        if r.row.0 < r.column.0 {
            rest.push(SignedEdge { row: r.row, column: r.column, sigma: r.sigma.unwrap() })
        } else {
            rest
        }
    }
}

/// A relation of the row graph (one with `row < column`) whose sign is undecided.
pub open spec fn undecided_upper(r: TransposeRelation) -> bool {
    r.row.0 < r.column.0 && r.sigma is None
}

/// A `±1` orientation of every row.
pub open spec fn is_orientation(s: spec_fn(SymbolId) -> int) -> bool {
    forall|x: SymbolId| #[trigger] s(x) == 1 || s(x) == -1
}

/// The orientation `s` reproduces every edge sign as the product of the end rows' signs.
pub open spec fn balances(s: spec_fn(SymbolId) -> int, edges: Seq<SignedEdge>) -> bool {
    &&& is_orientation(s)
    &&& forall|k: int|
        0 <= k < edges.len() ==> s((#[trigger] edges[k]).row) * s(edges[k].column) == edges[k].sigma as int
}

/// Some orientation reproduces every edge sign: the signed graph is balanced.
pub open spec fn balanced(edges: Seq<SignedEdge>) -> bool {
    exists|s: spec_fn(SymbolId) -> int| #[trigger] balances(s, edges)
}

/// The structural conditions of a sign gauge: no convective present diagonal block, every
/// diagonal block symmetric, every present off-diagonal coupling two-sided, and every
/// relation of the row graph decided.
pub open spec fn gauge_admissible(
    structure: Seq<BlockStructure>,
    symmetry: Seq<(SymbolId, FormSymmetry)>,
    rels: Seq<TransposeRelation>,
) -> bool {
    &&& forall|k: int| 0 <= k < structure.len() ==> !convective_diagonal(#[trigger] structure[k])
    &&& forall|k: int| 0 <= k < symmetry.len() ==> (#[trigger] symmetry[k]).1 == FormSymmetry::Symmetric
    &&& forall|r: SymbolId, c: SymbolId| !#[trigger] one_sided(structure, r, c)
    &&& forall|k: int| 0 <= k < rels.len() ==> !undecided_upper(#[trigger] rels[k])
}

pub open spec fn symmetry_text(f: FormSymmetry) -> Seq<char> {
    match f {
        FormSymmetry::Symmetric => "Symmetric"@,
        FormSymmetry::Nonsymmetric => "Nonsymmetric"@,
        FormSymmetry::Unknown => "Unknown"@,
    }
}

pub open spec fn convective_reason(row: SymbolId) -> Seq<char> {
    "diagonal block of row "@ + decimal(row.0 as nat) + " is convective; no row orientation makes it symmetric"@
}

pub open spec fn asymmetric_reason(row: SymbolId, f: FormSymmetry) -> Seq<char> {
    "diagonal block of row "@ + decimal(row.0 as nat) + " is "@ + symmetry_text(f)
        + "; a sign gauge needs every present diagonal block Symmetric"@
}

pub open spec fn one_sided_reason(row: SymbolId, column: SymbolId) -> Seq<char> {
    "coupling from row "@ + decimal(row.0 as nat) + " to column "@ + decimal(column.0 as nat)
        + " is one-sided; no row orientation makes it symmetric"@
}

pub open spec fn undecided_reason(row: SymbolId, column: SymbolId) -> Seq<char> {
    "transpose relation between rows "@ + decimal(row.0 as nat) + " and "@ + decimal(column.0 as nat)
        + " is undecided"@
}

pub open spec fn unbalanced_reason(row: SymbolId, column: SymbolId, sigma: int, product: int) -> Seq<char> {
    "signed row graph is unbalanced: rows "@ + decimal(row.0 as nat) + " and "@ + decimal(column.0 as nat)
        + " need σ = "@ + signed_decimal(sigma) + " but the spanning-forest signs give "@ + signed_decimal(product)
}

fn first_convective(structure: &[BlockStructure]) -> (r: Option<usize>)
    ensures
        match r {
            Some(k) => k < structure@.len() && convective_diagonal(structure@[k as int]) && forall|j: int|
                0 <= j < k ==> !convective_diagonal(#[trigger] structure@[j]),
            None => forall|j: int| 0 <= j < structure@.len() ==> !convective_diagonal(#[trigger] structure@[j]),
        },
{
    let mut k: usize = 0;
    while k < structure.len()
        invariant
            k <= structure@.len(),
            forall|j: int| 0 <= j < k ==> !convective_diagonal(#[trigger] structure@[j]),
        decreases structure@.len() - k,
    {
        let b = structure[k];
        if b.present && b.row == b.column && b.class == BlockClass::Convective {
            return Some(k);
        }
        k = k + 1;
    }
    None
}

fn first_asymmetric(symmetry: &[(SymbolId, FormSymmetry)]) -> (r: Option<usize>)
    ensures
        match r {
            Some(k) => k < symmetry@.len() && symmetry@[k as int].1 != FormSymmetry::Symmetric && forall|j: int|
                0 <= j < k ==> (#[trigger] symmetry@[j]).1 == FormSymmetry::Symmetric,
            None => forall|j: int| 0 <= j < symmetry@.len() ==> (#[trigger] symmetry@[j]).1 == FormSymmetry::Symmetric,
        },
{
    let mut k: usize = 0;
    while k < symmetry.len()
        invariant
            k <= symmetry@.len(),
            forall|j: int| 0 <= j < k ==> (#[trigger] symmetry@[j]).1 == FormSymmetry::Symmetric,
        decreases symmetry@.len() - k,
    {
        if symmetry[k].1 != FormSymmetry::Symmetric {
            return Some(k);
        }
        k = k + 1;
    }
    None
}

fn present(structure: &[BlockStructure], row: SymbolId, column: SymbolId) -> (b: bool)
    ensures
        b == block_present(structure@, row, column),
{
    let mut k: usize = 0;
    while k < structure.len()
        invariant
            k <= structure@.len(),
            forall|j: int|
                0 <= j < k ==> !((#[trigger] structure@[j]).present && structure@[j].row == row
                    && structure@[j].column == column),
        decreases structure@.len() - k,
    {
        let b = structure[k];
        if b.present && b.row == row && b.column == column {
            return true;
        }
        k = k + 1;
    }
    false
}

/// The lexicographically least one-sided coupling, if any.
fn least_one_sided(structure: &[BlockStructure]) -> (r: Option<(SymbolId, SymbolId)>)
    ensures
        match r {
            Some((row, column)) => one_sided(structure@, row, column) && forall|r2: SymbolId, c2: SymbolId|
                #[trigger] one_sided(structure@, r2, c2) ==> pair_le(row, column, r2, c2),
            None => forall|r2: SymbolId, c2: SymbolId| !#[trigger] one_sided(structure@, r2, c2),
        },
{
    let mut best: Option<(SymbolId, SymbolId)> = None;
    let mut k: usize = 0;
    while k < structure.len()
        invariant
            k <= structure@.len(),
            match best {
                Some((row, column)) => one_sided(structure@, row, column) && forall|j: int|
                    0 <= j < k && #[trigger] one_sided(structure@, structure@[j].row, structure@[j].column)
                        && structure@[j].present ==> pair_le(row, column, structure@[j].row, structure@[j].column),
                None => forall|j: int|
                    0 <= j < k && (#[trigger] structure@[j]).present ==> !one_sided(
                        structure@,
                        structure@[j].row,
                        structure@[j].column,
                    ),
            },
        decreases structure@.len() - k,
    {
        let b = structure[k];
        if b.present && b.row != b.column && !present(structure, b.column, b.row) {
            proof {
                assert(block_present(structure@, b.row, b.column));
            }
            let better = match best {
                None => true,
                Some((row, column)) => b.row.0 < row.0 || (b.row.0 == row.0 && b.column.0 < column.0),
            };
            if better {
                best = Some((b.row, b.column));
            }
        }
        k = k + 1;
    }
    proof {
        assert forall|r2: SymbolId, c2: SymbolId| #[trigger] one_sided(structure@, r2, c2) implies (match best {
            Some((row, column)) => pair_le(row, column, r2, c2),
            None => false,
        }) by {
            let j = choose|j: int|
                0 <= j < structure@.len() && (#[trigger] structure@[j]).present && structure@[j].row == r2
                    && structure@[j].column == c2;
            assert(structure@[j].present);
        }
    }
    best
}

/// The edges of the row graph, or the index of the first undecided relation of the graph.
fn collect_edges(rels: &[TransposeRelation]) -> (r: Result<Vec<SignedEdge>, usize>)
    ensures
        match r {
            Ok(edges) => edges@ == upper_edges(rels@) && forall|j: int|
                0 <= j < rels@.len() ==> !undecided_upper(#[trigger] rels@[j]),
            Err(k) => k < rels@.len() && undecided_upper(rels@[k as int]) && forall|j: int|
                0 <= j < k ==> !undecided_upper(#[trigger] rels@[j]),
        },
{
    let mut edges: Vec<SignedEdge> = Vec::new();
    let mut k: usize = 0;
    while k < rels.len()
        invariant
            k <= rels@.len(),
            edges@ == upper_edges(rels@.take(k as int)),
            forall|j: int| 0 <= j < k ==> !undecided_upper(#[trigger] rels@[j]),
        decreases rels@.len() - k,
    {
        let relation = rels[k];
        proof {
            assert(rels@.take(k + 1).drop_last() =~= rels@.take(k as int));
        }
        if relation.row.0 < relation.column.0 {
            match relation.sigma {
                Some(sigma) => {
                    edges.push(SignedEdge { row: relation.row, column: relation.column, sigma });
                },
                None => {
                    return Err(k);
                },
            }
        }
        k = k + 1;
    }
    proof {
        assert(rels@.take(k as int) =~= rels@);
    }
    Ok(edges)
}

fn convective_message(row: SymbolId) -> (s: String)
    ensures
        s@ == convective_reason(row),
{
    let mut s = "diagonal block of row ".to_owned();
    push_decimal(&mut s, row.0 as u64);
    s.append(" is convective; no row orientation makes it symmetric");
    s
}

fn symmetry_name(f: FormSymmetry) -> (s: &'static str)
    ensures
        s@ == symmetry_text(f),
{
    match f {
        FormSymmetry::Symmetric => "Symmetric",
        FormSymmetry::Nonsymmetric => "Nonsymmetric",
        FormSymmetry::Unknown => "Unknown",
    }
}

fn asymmetric_message(row: SymbolId, f: FormSymmetry) -> (s: String)
    ensures
        s@ == asymmetric_reason(row, f),
{
    let mut s = "diagonal block of row ".to_owned();
    push_decimal(&mut s, row.0 as u64);
    s.append(" is ");
    s.append(symmetry_name(f));
    s.append("; a sign gauge needs every present diagonal block Symmetric");
    s
}

fn one_sided_message(row: SymbolId, column: SymbolId) -> (s: String)
    ensures
        s@ == one_sided_reason(row, column),
{
    let mut s = "coupling from row ".to_owned();
    push_decimal(&mut s, row.0 as u64);
    s.append(" to column ");
    push_decimal(&mut s, column.0 as u64);
    s.append(" is one-sided; no row orientation makes it symmetric");
    s
}

fn undecided_message(row: SymbolId, column: SymbolId) -> (s: String)
    ensures
        s@ == undecided_reason(row, column),
{
    let mut s = "transpose relation between rows ".to_owned();
    push_decimal(&mut s, row.0 as u64);
    s.append(" and ");
    push_decimal(&mut s, column.0 as u64);
    s.append(" is undecided");
    s
}

fn unbalanced_message(row: SymbolId, column: SymbolId, sigma: i8, product: i8) -> (s: String)
    ensures
        s@ == unbalanced_reason(row, column, sigma as int, product as int),
{
    let mut s = "signed row graph is unbalanced: rows ".to_owned();
    push_decimal(&mut s, row.0 as u64);
    s.append(" and ");
    push_decimal(&mut s, column.0 as u64);
    s.append(" need σ = ");
    push_signed_decimal(&mut s, sigma as i64);
    s.append(" but the spanning-forest signs give ");
    push_signed_decimal(&mut s, product as i64);
    s
}

/// Ids in strictly increasing order.
pub open spec fn increasing_ids(s: Seq<SymbolId>) -> bool {
    forall|i: int, j: int| 0 <= i < j < s.len() ==> (#[trigger] s[i]).0 < (#[trigger] s[j]).0
}

/// `x` is the row of some block.
pub open spec fn is_row(structure: Seq<BlockStructure>, x: SymbolId) -> bool {
    exists|k: int| 0 <= k < structure.len() && (#[trigger] structure[k]).row == x
}

/// The distinct rows of the blocks, in increasing order.
fn row_ids(structure: &[BlockStructure]) -> (nodes: Vec<SymbolId>)
    ensures
        increasing_ids(nodes@),
        forall|x: SymbolId| #[trigger] nodes@.contains(x) <==> is_row(structure@, x),
{
    let mut nodes: Vec<SymbolId> = Vec::new();
    let mut k: usize = 0;
    while k < structure.len()
        invariant
            k <= structure@.len(),
            increasing_ids(nodes@),
            forall|x: SymbolId| #[trigger] nodes@.contains(x) <==> is_row(structure@.take(k as int), x),
        decreases structure@.len() - k,
    {
        let x = structure[k].row;
        let mut p: usize = 0;
        while p < nodes.len() && nodes[p].0 < x.0
            invariant
                p <= nodes@.len(),
                forall|j: int| 0 <= j < p ==> (#[trigger] nodes@[j]).0 < x.0,
            decreases nodes@.len() - p,
        {
            p = p + 1;
        }
        let ghost n0 = nodes@;
        if p < nodes.len() && nodes[p].0 == x.0 {
        } else {
            nodes.insert(p, x);
            proof {
                assert forall|i: int, j: int| 0 <= i < j < nodes@.len() implies (#[trigger] nodes@[i]).0
                    < (#[trigger] nodes@[j]).0 by {
                    if j < p {
                    } else if i < p && j == p {
                    } else if i < p && j > p {
                        assert(nodes@[j] == n0[j - 1]);
                        if (p as int) < n0.len() {
                            assert(n0[p as int].0 >= x.0);
                            assert(n0[p as int].0 <= n0[j - 1].0);
                        }
                    } else if i == p {
                        assert(nodes@[j] == n0[j - 1]);
                        assert(n0[p as int].0 > x.0);
                        assert(n0[p as int].0 <= n0[j - 1].0);
                    } else {
                        assert(nodes@[i] == n0[i - 1]);
                        assert(nodes@[j] == n0[j - 1]);
                    }
                }
            }
        }
        proof {
            let t0 = structure@.take(k as int);
            let t1 = structure@.take(k + 1);
            assert forall|y: SymbolId| #[trigger] nodes@.contains(y) <==> is_row(t1, y) by {
                if is_row(t0, y) {
                    let j = choose|j: int| 0 <= j < t0.len() && (#[trigger] t0[j]).row == y;
                    assert(t1[j] == t0[j]);
                }
                if is_row(t1, y) {
                    let j = choose|j: int| 0 <= j < t1.len() && (#[trigger] t1[j]).row == y;
                    if j < k {
                        assert(t0[j] == t1[j]);
                    } else {
                        assert(y == x);
                    }
                }
                if y == x {
                    assert(t1[k as int] == structure@[k as int]);
                }
                if nodes@.contains(y) {
                    let i = choose|i: int| 0 <= i < nodes@.len() && nodes@[i] == y;
                    if y != x && !n0.contains(y) {
                        if i < p {
                            assert(n0[i] == y);
                        } else if i > p {
                            assert(n0[i - 1] == y);
                        }
                    }
                }
                if n0.contains(y) {
                    let i = choose|i: int| 0 <= i < n0.len() && n0[i] == y;
                    if nodes@ != n0 {
                        if i < p {
                            assert(nodes@[i] == y);
                        } else {
                            assert(nodes@[i + 1] == y);
                        }
                    }
                }
                if y == x && nodes@ != n0 {
                    assert(nodes@[p as int] == x);
                }
                if y == x && nodes@ == n0 {
                    assert(n0[p as int] == x);
                }
            }
        }
        k = k + 1;
    }
    proof {
        assert(structure@.take(k as int) =~= structure@);
    }
    nodes
}

/// The position of `x` among the nodes.
fn position(nodes: &Vec<SymbolId>, x: SymbolId) -> (p: usize)
    requires
        nodes@.contains(x),
    ensures
        p < nodes@.len(),
        nodes@[p as int] == x,
{
    let mut p: usize = 0;
    while p < nodes.len()
        invariant
            p <= nodes@.len(),
            nodes@.contains(x),
            forall|j: int| 0 <= j < p ==> nodes@[j] != x,
        decreases nodes@.len() - p,
    {
        if nodes[p] == x {
            return p;
        }
        p = p + 1;
    }
    proof {
        let j = choose|j: int| 0 <= j < nodes@.len() && nodes@[j] == x;
        assert(nodes@[j] != x);
    }
    0
}

/// Under every balancing orientation, each signed node's orientation is its sign times that
/// of its root: the signs are forced up to one choice per root.
pub open spec fn signs_forced(edges: Seq<SignedEdge>, nodes: Seq<SymbolId>, sign: Seq<i8>, root: Seq<int>) -> bool {
    forall|s: spec_fn(SymbolId) -> int|
        #[trigger] balances(s, edges) ==> forall|v: int|
            0 <= v < sign.len() && sign[v] != 0 ==> s(nodes[v]) == s(nodes[root[v]]) * (#[trigger] sign[v]) as int
}

/// Every edge at `v` leads to a signed node with the same root.
pub open spec fn closed_at(ea: Seq<usize>, eb: Seq<usize>, sign: Seq<i8>, root: Seq<int>, v: int) -> bool {
    forall|k: int|
        #![trigger ea[k]]
        #![trigger eb[k]]
        0 <= k < ea.len() ==> (ea[k] == v ==> sign[eb[k] as int] != 0 && root[eb[k] as int] == root[v]) && (eb[k]
            == v ==> sign[ea[k] as int] != 0 && root[ea[k] as int] == root[v])
}

/// Rows `x` and `y` are the two ends of some edge, in either direction.
pub open spec fn joined(edges: Seq<SignedEdge>, x: SymbolId, y: SymbolId) -> bool {
    exists|k: int|
        0 <= k < edges.len() && (((#[trigger] edges[k]).row == x && edges[k].column == y) || (edges[k].row == y
            && edges[k].column == x))
}

/// `p` is a walk along edges of the row graph.
pub open spec fn edge_path(edges: Seq<SignedEdge>, p: Seq<SymbolId>) -> bool {
    &&& p.len() >= 1
    &&& forall|i: int| 0 <= i < p.len() - 1 ==> joined(edges, #[trigger] p[i], p[i + 1])
}

/// Rows `a` and `b` lie in one component of the row graph.
pub open spec fn linked(edges: Seq<SignedEdge>, a: SymbolId, b: SymbolId) -> bool {
    exists|p: Seq<SymbolId>| #[trigger] edge_path(edges, p) && p[0] == a && p.last() == b
}

proof fn lemma_linked_self(edges: Seq<SignedEdge>, a: SymbolId)
    ensures
        linked(edges, a, a),
{
    let p = seq![a];
    assert(edge_path(edges, p));
}

proof fn lemma_linked_step(edges: Seq<SignedEdge>, a: SymbolId, b: SymbolId, c: SymbolId)
    requires
        linked(edges, a, b),
        joined(edges, b, c),
    ensures
        linked(edges, a, c),
{
    let p = choose|p: Seq<SymbolId>| #[trigger] edge_path(edges, p) && p[0] == a && p.last() == b;
    let q = p.push(c);
    assert forall|i: int| 0 <= i < q.len() - 1 implies joined(edges, #[trigger] q[i], q[i + 1]) by {
        if i < p.len() - 1 {
            assert(q[i] == p[i] && q[i + 1] == p[i + 1]);
        } else {
            assert(q[i] == b && q[i + 1] == c);
        }
    }
    assert(edge_path(edges, q));
}

/// Every signed node comes no earlier than its root, the root itself carries `+1` and is its
/// own root, and the root's row is linked to the node's through the edges of `tree`.
#[verifier::opaque]
pub open spec fn rooted(tree: Seq<SignedEdge>, nodes: Seq<SymbolId>, sign: Seq<i8>, root: Seq<int>) -> bool {
    forall|v: int|
        0 <= v < sign.len() && #[trigger] sign[v] != 0 ==> root[v] <= v && (root[v] == v ==> sign[v] == 1) && 0
            <= root[v] && root[root[v]] == root[v] && linked(tree, nodes[root[v]], nodes[v])
}

/// Each edge of `tree` is the edge `fk[j]` of the graph, both its ends are signed, and their
/// signs reproduce its sign.
#[verifier::opaque]
pub open spec fn tree_signed(
    edges: Seq<SignedEdge>,
    ea: Seq<usize>,
    eb: Seq<usize>,
    tree: Seq<SignedEdge>,
    fk: Seq<int>,
    sign: Seq<i8>,
) -> bool {
    &&& fk.len() == tree.len()
    &&& forall|j: int|
        0 <= j < fk.len() ==> 0 <= #[trigger] fk[j] < edges.len() && tree[j] == edges[fk[j]] && sign[ea[fk[j]] as int]
            != 0 && sign[eb[fk[j]] as int] != 0 && sign[ea[fk[j]] as int] * sign[eb[fk[j]] as int] == edges[fk[j]].sigma
}

proof fn lemma_linked_grow(tree: Seq<SignedEdge>, e: SignedEdge, a: SymbolId, b: SymbolId)
    requires
        linked(tree, a, b),
    ensures
        linked(tree.push(e), a, b),
{
    let p = choose|p: Seq<SymbolId>| #[trigger] edge_path(tree, p) && p[0] == a && p.last() == b;
    assert forall|i: int| 0 <= i < p.len() - 1 implies joined(tree.push(e), #[trigger] p[i], p[i + 1]) by {
        assert(joined(tree, p[i], p[i + 1]));
        let k = choose|k: int|
            0 <= k < tree.len() && (((#[trigger] tree[k]).row == p[i] && tree[k].column == p[i + 1]) || (tree[k].row
                == p[i + 1] && tree[k].column == p[i]));
        assert(tree.push(e)[k] == tree[k]);
    }
    assert(edge_path(tree.push(e), p));
}

proof fn lemma_rooted_start(edges: Seq<SignedEdge>, nodes: Seq<SymbolId>, sign: Seq<i8>, root: Seq<int>, r: int)
    requires
        rooted(edges, nodes, sign, root),
        forall|v: int| 0 <= v < sign.len() && sign[v] != 0 ==> #[trigger] root[v] < sign.len() && sign[root[v]] != 0,
        0 <= r < sign.len(),
        sign[r] == 0,
        root.len() == sign.len(),
    ensures
        rooted(edges, nodes, sign.update(r, 1), root.update(r, r)),
{
    reveal(rooted);
    lemma_linked_self(edges, nodes[r]);
    let sign2 = sign.update(r, 1);
    assert forall|v: int| 0 <= v < sign2.len() && #[trigger] sign2[v] != 0 implies root.update(r, r)[v] <= v && (
    root.update(r, r)[v] == v ==> sign2[v] == 1) && 0 <= root.update(r, r)[v] && root.update(r, r)[root.update(
        r,
        r,
    )[v]] == root.update(r, r)[v] && linked(edges, nodes[root.update(r, r)[v]], nodes[v]) by {
        if v != r {
            assert(sign[v] != 0);
            assert(sign[root[v]] != 0);
        }
    }
}

proof fn lemma_rooted_step(
    edges: Seq<SignedEdge>,
    tree: Seq<SignedEdge>,
    nodes: Seq<SymbolId>,
    ea: Seq<usize>,
    eb: Seq<usize>,
    sign: Seq<i8>,
    root: Seq<int>,
    k: int,
    node: int,
    other: int,
    x: i8,
)
    requires
        rooted(tree, nodes, sign, root),
        edge_joins(edges, nodes, ea, eb),
        sign.len() == nodes.len(),
        root.len() == nodes.len(),
        0 <= k < edges.len(),
        (ea[k] == node && eb[k] == other) || (eb[k] == node && ea[k] == other),
        0 <= node < sign.len(),
        sign[node] != 0,
        sign[other] == 0,
        root[node] < other,
        forall|v: int| 0 <= v < sign.len() && sign[v] != 0 ==> 0 <= #[trigger] root[v] < sign.len() && sign[root[v]] != 0,
        x != 0,
    ensures
        rooted(tree.push(edges[k]), nodes, sign.update(other, x), root.update(other, root[node])),
{
    reveal(rooted);
    let sign2 = sign.update(other, x);
    let root2 = root.update(other, root[node]);
    let tree2 = tree.push(edges[k]);
    assert(joined(tree2, nodes[node], nodes[other])) by {
        assert(nodes[ea[k] as int] == edges[k].row && nodes[eb[k] as int] == edges[k].column);
        assert(tree2[tree.len() as int] == edges[k]);
    }
    lemma_linked_grow(tree, edges[k], nodes[root[node]], nodes[node]);
    lemma_linked_step(tree2, nodes[root[node]], nodes[node], nodes[other]);
    assert forall|v: int| 0 <= v < sign2.len() && #[trigger] sign2[v] != 0 implies root2[v] <= v && (root2[v] == v
        ==> sign2[v] == 1) && 0 <= root2[v] && root2[root2[v]] == root2[v] && linked(tree2, nodes[root2[v]], nodes[v]) by {
        if v != other {
            assert(sign[v] != 0);
            assert(sign[root[v]] != 0);
            lemma_linked_grow(tree, edges[k], nodes[root[v]], nodes[v]);
        } else {
            assert(sign[root[node]] != 0);
            assert(root2[root[node]] == root[root[node]]);
        }
    }
}

proof fn lemma_linked_subset(t1: Seq<SignedEdge>, t2: Seq<SignedEdge>, a: SymbolId, b: SymbolId)
    requires
        linked(t1, a, b),
        forall|j: int| 0 <= j < t1.len() ==> t2.contains(#[trigger] t1[j]),
    ensures
        linked(t2, a, b),
{
    let p = choose|p: Seq<SymbolId>| #[trigger] edge_path(t1, p) && p[0] == a && p.last() == b;
    assert forall|i: int| 0 <= i < p.len() - 1 implies joined(t2, #[trigger] p[i], p[i + 1]) by {
        assert(joined(t1, p[i], p[i + 1]));
        let k = choose|k: int|
            0 <= k < t1.len() && (((#[trigger] t1[k]).row == p[i] && t1[k].column == p[i + 1]) || (t1[k].row
                == p[i + 1] && t1[k].column == p[i]));
        assert(t2.contains(t1[k]));
        let m = choose|m: int| 0 <= m < t2.len() && t2[m] == t1[k];
    }
    assert(edge_path(t2, p));
}

proof fn lemma_tree_signed_start(
    edges: Seq<SignedEdge>,
    ea: Seq<usize>,
    eb: Seq<usize>,
    tree: Seq<SignedEdge>,
    fk: Seq<int>,
    sign: Seq<i8>,
    r: int,
    x: i8,
)
    requires
        tree_signed(edges, ea, eb, tree, fk, sign),
        ea.len() == edges.len(),
        eb.len() == edges.len(),
        forall|k: int| 0 <= k < edges.len() ==> (#[trigger] ea[k] as int) < sign.len() && (eb[k] as int) < sign.len(),
        0 <= r < sign.len(),
        sign[r] == 0,
    ensures
        tree_signed(edges, ea, eb, tree, fk, sign.update(r, x)),
{
    reveal(tree_signed);
    let s2 = sign.update(r, x);
    assert forall|j: int| 0 <= j < fk.len() implies 0 <= #[trigger] fk[j] < edges.len() && tree[j] == edges[fk[j]]
        && s2[ea[fk[j]] as int] != 0 && s2[eb[fk[j]] as int] != 0 && s2[ea[fk[j]] as int] * s2[eb[fk[j]] as int]
        == edges[fk[j]].sigma by {
        assert(ea[fk[j]] as int != r);
        assert(eb[fk[j]] as int != r);
    }
}

proof fn lemma_tree_signed_step(
    edges: Seq<SignedEdge>,
    nodes: Seq<SymbolId>,
    ea: Seq<usize>,
    eb: Seq<usize>,
    tree: Seq<SignedEdge>,
    fk: Seq<int>,
    sign: Seq<i8>,
    k: int,
    node: int,
    other: int,
)
    requires
        tree_signed(edges, ea, eb, tree, fk, sign),
        edge_joins(edges, nodes, ea, eb),
        sign.len() == nodes.len(),
        0 <= k < edges.len(),
        (ea[k] == node && eb[k] == other) || (eb[k] == node && ea[k] == other),
        0 <= node < sign.len(),
        sign[node] == 1 || sign[node] == -1,
        sign[other] == 0,
    ensures
        tree_signed(
            edges,
            ea,
            eb,
            tree.push(edges[k]),
            fk.push(k),
            sign.update(other, (sign[node] * edges[k].sigma) as i8),
        ),
{
    reveal(tree_signed);
    let x = (sign[node] * edges[k].sigma) as i8;
    let s2 = sign.update(other, x);
    let fk2 = fk.push(k);
    let tree2 = tree.push(edges[k]);
    assert forall|j: int| 0 <= j < fk2.len() implies 0 <= #[trigger] fk2[j] < edges.len() && tree2[j] == edges[fk2[j]]
        && s2[ea[fk2[j]] as int] != 0 && s2[eb[fk2[j]] as int] != 0 && s2[ea[fk2[j]] as int] * s2[eb[fk2[j]] as int]
        == edges[fk2[j]].sigma by {
        if j < fk.len() {
            assert(ea[fk[j]] as int != other);
            assert(eb[fk[j]] as int != other);
        } else {
            let sn = sign[node] as int;
            let sg = edges[k].sigma as int;
            assert(sg == 1 || sg == -1);
            assert(sn * (sn * sg) == sg) by (nonlinear_arith)
                requires
                    sn == 1 || sn == -1,
            ;
            assert((sn * sg) * sn == sg) by (nonlinear_arith)
                requires
                    sn == 1 || sn == -1,
            ;
        }
    }
}

/// The number of unsigned nodes among the first `i`.
pub open spec fn unsigned_count(sign: Seq<i8>, i: int) -> nat
    decreases i,
{
    if i <= 0 {
        0
    } else {
        unsigned_count(sign, i - 1) + if sign[i - 1] == 0 { 1nat } else { 0nat }
    }
}

proof fn lemma_unsigned_count_update(sign: Seq<i8>, v: int, x: i8, i: int)
    requires
        0 <= v < sign.len(),
        sign[v] == 0,
        x != 0,
        0 <= i <= sign.len(),
    ensures
        unsigned_count(sign.update(v, x), i) == if v < i { unsigned_count(sign, i) - 1 } else { unsigned_count(sign, i) as int },
        v < i ==> unsigned_count(sign, i) >= 1,
    decreases i,
{
    if i > 0 {
        lemma_unsigned_count_update(sign, v, x, i - 1);
    }
}

/// The number of signed nodes among the first `i` that are their own root.
pub open spec fn root_count(sign: Seq<i8>, root: Seq<int>, i: int) -> nat
    decreases i,
{
    if i <= 0 {
        0
    } else {
        root_count(sign, root, i - 1) + if sign[i - 1] != 0 && root[i - 1] == i - 1 { 1nat } else { 0nat }
    }
}

/// With no node signed, every node is unsigned and none is a root.
proof fn lemma_counts_unsigned(sign: Seq<i8>, root: Seq<int>, i: int)
    requires
        0 <= i <= sign.len(),
        forall|v: int| 0 <= v < i ==> #[trigger] sign[v] == 0,
    ensures
        unsigned_count(sign, i) == i,
        root_count(sign, root, i) == 0,
    decreases i,
{
    if i > 0 {
        lemma_counts_unsigned(sign, root, i - 1);
    }
}

/// With every node signed, none is unsigned.
proof fn lemma_counts_signed(sign: Seq<i8>, i: int)
    requires
        0 <= i <= sign.len(),
        forall|v: int| 0 <= v < i ==> #[trigger] sign[v] != 0,
    ensures
        unsigned_count(sign, i) == 0,
    decreases i,
{
    if i > 0 {
        lemma_counts_signed(sign, i - 1);
    }
}

/// Signing an unsigned node `v` with root `w` adds one root exactly when `w` is `v`.
proof fn lemma_root_count_update(sign: Seq<i8>, root: Seq<int>, v: int, x: i8, w: int, i: int)
    requires
        0 <= v < sign.len(),
        sign.len() == root.len(),
        sign[v] == 0,
        x != 0,
        0 <= i <= sign.len(),
    ensures
        root_count(sign.update(v, x), root.update(v, w), i) == if v < i && w == v {
            root_count(sign, root, i) + 1
        } else {
            root_count(sign, root, i) + 0
        },
    decreases i,
{
    if i > 0 {
        lemma_root_count_update(sign, root, v, x, w, i - 1);
    }
}

/// The edge `(a, b)` joins nodes `a` and `b`.
pub open spec fn edge_joins(
    edges: Seq<SignedEdge>,
    nodes: Seq<SymbolId>,
    ea: Seq<usize>,
    eb: Seq<usize>,
) -> bool {
    &&& ea.len() == edges.len()
    &&& eb.len() == edges.len()
    &&& forall|k: int|
        0 <= k < edges.len() ==> (#[trigger] ea[k] as int) < nodes.len() && (eb[k] as int) < nodes.len()
            && nodes[ea[k] as int] == edges[k].row && nodes[eb[k] as int] == edges[k].column && ea[k] != eb[k]
            && (edges[k].sigma == 1 || edges[k].sigma == -1)
}

/// Signing the unsigned `other` across edge `k` from the signed `node` keeps the signs forced.
proof fn lemma_force_step(
    edges: Seq<SignedEdge>,
    nodes: Seq<SymbolId>,
    ea: Seq<usize>,
    eb: Seq<usize>,
    sign: Seq<i8>,
    root: Seq<int>,
    k: int,
    node: int,
    other: int,
)
    requires
        edge_joins(edges, nodes, ea, eb),
        sign.len() == nodes.len(),
        root.len() == nodes.len(),
        signs_forced(edges, nodes, sign, root),
        forall|v: int| 0 <= v < sign.len() && sign[v] != 0 ==> 0 <= #[trigger] root[v] < nodes.len() && sign[root[v]] != 0,
        0 <= k < edges.len(),
        (ea[k] == node && eb[k] == other) || (eb[k] == node && ea[k] == other),
        0 <= node < sign.len(),
        sign[node] == 1 || sign[node] == -1,
        sign[other] == 0,
    ensures
        signs_forced(
            edges,
            nodes,
            sign.update(other, (sign[node] * edges[k].sigma) as i8),
            root.update(other, root[node]),
        ),
{
    let x = (sign[node] * edges[k].sigma) as i8;
    let sign2 = sign.update(other, x);
    let root2 = root.update(other, root[node]);
    assert forall|s: spec_fn(SymbolId) -> int| #[trigger] balances(s, edges) implies forall|v: int|
        0 <= v < sign2.len() && sign2[v] != 0 ==> s(nodes[v]) == s(nodes[root2[v]]) * (#[trigger] sign2[v]) as int by {
        assert forall|v: int| 0 <= v < sign2.len() && sign2[v] != 0 implies s(nodes[v]) == s(nodes[root2[v]])
            * (#[trigger] sign2[v]) as int by {
            if v == other {
                let a = s(nodes[node]);
                let b = s(nodes[other]);
                let t = s(nodes[root[node]]);
                let sn = sign[node] as int;
                let sg = edges[k].sigma as int;
                assert(a == t * sn);
                assert(s(edges[k].row) * s(edges[k].column) == sg);
                assert(a * b == sg) by {
                    if ea[k] == node {
                        assert(nodes[ea[k] as int] == edges[k].row);
                    } else {
                        assert(nodes[eb[k] as int] == edges[k].column);
                        assert(b * a == a * b) by (nonlinear_arith);
                    }
                }
                assert(a == 1 || a == -1);
                assert(b == 1 || b == -1);
                assert(t == 1 || t == -1);
                assert(b == t * (sn * sg)) by (nonlinear_arith)
                    requires
                        a == t * sn,
                        a * b == sg,
                        a == 1 || a == -1,
                        b == 1 || b == -1,
                        t == 1 || t == -1,
                        sn == 1 || sn == -1,
                ;
                assert(sign2[v] == x);
                assert(x as int == sn * sg);
                assert(root2[v] == root[node]);
            } else {
                assert(sign2[v] == sign[v]);
                assert(root2[v] == root[v]);
                assert(sign[v] != 0);
            }
        }
    }
}

/// Signing one more node keeps every closed node closed.
proof fn lemma_closed_mono(
    ea: Seq<usize>,
    eb: Seq<usize>,
    sign: Seq<i8>,
    root: Seq<int>,
    other: int,
    x: i8,
    rt: int,
    v: int,
)
    requires
        0 <= other < sign.len(),
        sign.len() == root.len(),
        sign[other] == 0,
        0 <= v < sign.len(),
        sign[v] != 0,
        closed_at(ea, eb, sign, root, v),
        ea.len() == eb.len(),
        forall|k: int| 0 <= k < ea.len() ==> (#[trigger] ea[k] as int) < sign.len() && (eb[k] as int) < sign.len(),
    ensures
        closed_at(ea, eb, sign.update(other, x), root.update(other, rt), v),
{
    let sign2 = sign.update(other, x);
    let root2 = root.update(other, rt);
    assert forall|k: int|
        #![trigger ea[k]]
        #![trigger eb[k]]
        0 <= k < ea.len() implies (ea[k] == v ==> sign2[eb[k] as int] != 0 && root2[eb[k] as int] == root2[v]) && (eb[k]
            == v ==> sign2[ea[k] as int] != 0 && root2[ea[k] as int] == root2[v]) by {
        if ea[k] == v {
            assert(sign[eb[k] as int] != 0);
        }
        if eb[k] == v {
            assert(sign[ea[k] as int] != 0);
        }
    }
}

/// The invariant of sign propagation that holds between searches and inside one.
pub open spec fn propagation_inv(
    edges: Seq<SignedEdge>,
    nodes: Seq<SymbolId>,
    ea: Seq<usize>,
    eb: Seq<usize>,
    sign: Seq<i8>,
    root: Seq<int>,
    forest: Seq<SignedEdge>,
) -> bool {
    &&& edge_joins(edges, nodes, ea, eb)
    &&& sign.len() == nodes.len()
    &&& root.len() == nodes.len()
    &&& forall|v: int| 0 <= v < sign.len() ==> #[trigger] sign[v] == 0 || sign[v] == 1 || sign[v] == -1
    &&& forall|v: int| 0 <= v < sign.len() && sign[v] != 0 ==> 0 <= #[trigger] root[v] < nodes.len() && sign[root[v]] != 0
    &&& signs_forced(edges, nodes, sign, root)
    &&& forall|j: int| 0 <= j < forest.len() ==> edges.contains(#[trigger] forest[j])
}

/// Propagate `±1` signs along a breadth-first spanning forest, from each component's
/// first node (`+1`).
fn propagate_signs(
    nodes: &Vec<SymbolId>,
    edges: &Vec<SignedEdge>,
    ea: &Vec<usize>,
    eb: &Vec<usize>,
) -> (r: (Vec<i8>, Vec<SignedEdge>, Ghost<Seq<int>>, Ghost<Seq<int>>))
    requires
        edge_joins(edges@, nodes@, ea@, eb@),
    ensures
        propagation_inv(edges@, nodes@, ea@, eb@, r.0@, r.2@, r.1@),
        forall|v: int| 0 <= v < r.0@.len() ==> #[trigger] r.0@[v] != 0,
        forall|k: int| 0 <= k < edges@.len() ==> r.2@[#[trigger] ea@[k] as int] == r.2@[eb@[k] as int],
        rooted(r.1@, nodes@, r.0@, r.2@),
        tree_signed(edges@, ea@, eb@, r.1@, r.3@, r.0@),
        r.1@.len() + root_count(r.0@, r.2@, nodes@.len() as int) == nodes@.len(),
{
    let n = nodes.len();
    let mut sign: Vec<i8> = vec![0; n];
    let ghost mut root: Seq<int> = Seq::new(n as nat, |v: int| v);
    let mut forest: Vec<SignedEdge> = Vec::new();
    let ghost mut fk: Seq<int> = Seq::empty();
    let mut r: usize = 0;
    proof {
        assert(signs_forced(edges@, nodes@, sign@, root));
        assert(rooted(forest@, nodes@, sign@, root)) by {
            reveal(rooted);
        }
        assert(tree_signed(edges@, ea@, eb@, forest@, fk, sign@)) by {
            reveal(tree_signed);
        }
        lemma_counts_unsigned(sign@, root, n as int);
    }
    while r < n
        invariant
            n == nodes@.len(),
            propagation_inv(edges@, nodes@, ea@, eb@, sign@, root, forest@),
            rooted(forest@, nodes@, sign@, root),
            tree_signed(edges@, ea@, eb@, forest@, fk, sign@),
            forest@.len() + root_count(sign@, root, n as int) + unsigned_count(sign@, n as int) == n,
            r <= n,
            forall|v: int| 0 <= v < r ==> #[trigger] sign@[v] != 0,
            forall|v: int| 0 <= v < n && #[trigger] sign@[v] != 0 ==> closed_at(ea@, eb@, sign@, root, v),
        decreases n - r,
    {
        if sign[r] == 0 {
            let ghost s0 = sign@;
            let ghost root0 = root;
            sign.set(r, 1);
            proof {
                lemma_rooted_start(forest@, nodes@, s0, root0, r as int);
                lemma_tree_signed_start(edges@, ea@, eb@, forest@, fk, s0, r as int, 1);
                lemma_root_count_update(s0, root0, r as int, 1, r as int, n as int);
                lemma_unsigned_count_update(s0, r as int, 1, n as int);
                root = root.update(r as int, r as int);
                assert forall|v: int| 0 <= v < n && #[trigger] sign@[v] != 0 && v != r implies closed_at(
                    ea@,
                    eb@,
                    sign@,
                    root,
                    v,
                ) by {
                    assert(s0[v] != 0);
                    lemma_closed_mono(ea@, eb@, s0, root0, r as int, 1, r as int, v);
                }
                assert(signs_forced(edges@, nodes@, sign@, root)) by {
                    assert forall|s: spec_fn(SymbolId) -> int| #[trigger] balances(s, edges@) implies forall|v: int|
                        0 <= v < sign@.len() && sign@[v] != 0 ==> s(nodes@[v]) == s(nodes@[root[v]])
                            * (#[trigger] sign@[v]) as int by {
                        assert forall|v: int| 0 <= v < sign@.len() && sign@[v] != 0 implies s(nodes@[v]) == s(
                            nodes@[root[v]],
                        ) * (#[trigger] sign@[v]) as int by {
                            if v != r {
                                assert(s0[v] != 0);
                                assert(s0[v] == sign@[v]);
                            }
                        }
                    }
                }
            }
            let mut queue: Vec<usize> = Vec::new();
            queue.push(r);
            let mut head: usize = 0;
            proof {
                assert(queue@.subrange(0, 1)[0] == r);
                assert(queue@.subrange(0, 1).contains(r));
            }
            while head < queue.len()
                invariant
                    n == nodes@.len(),
                    propagation_inv(edges@, nodes@, ea@, eb@, sign@, root, forest@),
                    rooted(forest@, nodes@, sign@, root),
                    tree_signed(edges@, ea@, eb@, forest@, fk, sign@),
                    forest@.len() + root_count(sign@, root, n as int) + unsigned_count(sign@, n as int) == n,
                    r < n,
                    forall|v: int| 0 <= v <= r ==> #[trigger] sign@[v] != 0,
                    head <= queue@.len(),
                    forall|i: int|
                        0 <= i < queue@.len() ==> (#[trigger] queue@[i] as int) < n && sign@[queue@[i] as int]
                            != 0 && root[queue@[i] as int] == r,
                    forall|v: int|
                        0 <= v < n && #[trigger] sign@[v] != 0 ==> closed_at(ea@, eb@, sign@, root, v)
                            || queue@.subrange(head as int, queue@.len() as int).contains(v as usize),
                decreases unsigned_count(sign@, n as int), queue@.len() - head,
            {
                let node = queue[head];
                let ghost sub0 = queue@.subrange(head as int, queue@.len() as int);
                head = head + 1;
                proof {
                    assert forall|v: int|
                        0 <= v < n && #[trigger] sign@[v] != 0 implies closed_at(ea@, eb@, sign@, root, v)
                            || queue@.subrange(head as int, queue@.len() as int).contains(v as usize) || v
                            == node by {
                        if !closed_at(ea@, eb@, sign@, root, v) && v != node {
                            let i = choose|i: int| 0 <= i < sub0.len() && sub0[i] == v as usize;
                            assert(i != 0);
                            assert(queue@.subrange(head as int, queue@.len() as int)[i - 1] == v as usize);
                        }
                    }
                }
                let node_sign = sign[node];
                let ghost uc0 = unsigned_count(sign@, n as int);
                let ghost ql0 = queue@.len();
                let mut k: usize = 0;
                while k < edges.len()
                    invariant
                        n == nodes@.len(),
                        propagation_inv(edges@, nodes@, ea@, eb@, sign@, root, forest@),
                        rooted(forest@, nodes@, sign@, root),
                        tree_signed(edges@, ea@, eb@, forest@, fk, sign@),
                        forest@.len() + root_count(sign@, root, n as int) + unsigned_count(sign@, n as int) == n,
                        r < n,
                        forall|v: int| 0 <= v <= r ==> #[trigger] sign@[v] != 0,
                        head <= queue@.len(),
                        (node as int) < n,
                        sign@[node as int] == node_sign,
                        node_sign != 0,
                        root[node as int] == r,
                        forall|i: int|
                            0 <= i < queue@.len() ==> (#[trigger] queue@[i] as int) < n && sign@[queue@[i] as int]
                                != 0 && root[queue@[i] as int] == r,
                        forall|v: int|
                            0 <= v < n && #[trigger] sign@[v] != 0 ==> closed_at(ea@, eb@, sign@, root, v)
                                || queue@.subrange(head as int, queue@.len() as int).contains(v as usize) || v
                                == node,
                        k <= edges@.len(),
                        forall|k2: int|
                            0 <= k2 < k ==> (#[trigger] ea@[k2] == node ==> sign@[eb@[k2] as int] != 0 && root[eb@[k2] as int]
                                == r) && (eb@[k2] == node ==> sign@[ea@[k2] as int] != 0 && root[ea@[k2] as int] == r),
                        unsigned_count(sign@, n as int) <= uc0,
                        unsigned_count(sign@, n as int) == uc0 ==> queue@.len() == ql0,
                    decreases edges@.len() - k,
                {
                    let a = ea[k];
                    let b = eb[k];
                    let other: usize = if a == node {
                        b
                    } else if b == node {
                        a
                    } else {
                        n
                    };
                    if other < n {
                        if sign[other] == 0 {
                            let ghost s1 = sign@;
                            let ghost root1 = root;
                            let ghost q1 = queue@;
                            let x: i8 = node_sign * edges[k].sigma;
                            proof {
                                lemma_force_step(edges@, nodes@, ea@, eb@, s1, root1, k as int, node as int, other as int);
                                assert(sign@[r as int] != 0);
                                lemma_rooted_step(edges@, forest@, nodes@, ea@, eb@, s1, root1, k as int, node as int, other as int, x);
                                lemma_tree_signed_step(edges@, nodes@, ea@, eb@, forest@, fk, s1, k as int, node as int, other as int);
                                lemma_unsigned_count_update(s1, other as int, x, n as int);
                                lemma_root_count_update(s1, root1, other as int, x, r as int, n as int);
                            }
                            sign.set(other, x);
                            proof {
                                root = root.update(other as int, r as int);
                                assert forall|v: int|
                                    0 <= v < n && #[trigger] sign@[v] != 0 && v != other implies closed_at(
                                    ea@,
                                    eb@,
                                    sign@,
                                    root,
                                    v,
                                ) || q1.subrange(head as int, q1.len() as int).contains(v as usize) || v == node by {
                                    assert(s1[v] != 0);
                                    if closed_at(ea@, eb@, s1, root1, v) {
                                        lemma_closed_mono(ea@, eb@, s1, root1, other as int, x, r as int, v);
                                    }
                                }
                            }
                            forest.push(edges[k]);
                            queue.push(other);
                            proof {
                                fk = fk.push(k as int);
                                assert(forest@.last() == edges@[k as int]);
                                assert forall|j: int| 0 <= j < forest@.len() implies edges@.contains(#[trigger] forest@[j]) by {
                                    if j == forest@.len() - 1 {
                                        assert(edges@[k as int] == forest@[j]);
                                    }
                                }
                                assert forall|v: int|
                                    0 <= v < n && #[trigger] sign@[v] != 0 implies closed_at(ea@, eb@, sign@, root, v)
                                        || queue@.subrange(head as int, queue@.len() as int).contains(v as usize) || v
                                        == node by {
                                    let sub1 = q1.subrange(head as int, q1.len() as int);
                                    let sub2 = queue@.subrange(head as int, queue@.len() as int);
                                    if v == other {
                                        assert(sub2[sub2.len() - 1] == other);
                                    } else if sub1.contains(v as usize) {
                                        let i = choose|i: int| 0 <= i < sub1.len() && sub1[i] == v as usize;
                                        assert(sub2[i] == v as usize);
                                    }
                                }
                            }
                        } else {
                            proof {
                                if closed_at(ea@, eb@, sign@, root, other as int) {
                                    assert(ea@[k as int] == other || eb@[k as int] == other);
                                } else {
                                    let sub = queue@.subrange(head as int, queue@.len() as int);
                                    assert(sub.contains(other));
                                    let i = choose|i: int| 0 <= i < sub.len() && sub[i] == other;
                                    assert(queue@[head + i] == other);
                                }
                            }
                        }
                    }
                    k = k + 1;
                }
                proof {
                    assert(closed_at(ea@, eb@, sign@, root, node as int));
                    assert forall|v: int|
                        0 <= v < n && #[trigger] sign@[v] != 0 implies closed_at(ea@, eb@, sign@, root, v)
                            || queue@.subrange(head as int, queue@.len() as int).contains(v as usize) by {
                    }
                }
            }
            proof {
                assert forall|v: int| 0 <= v < n && #[trigger] sign@[v] != 0 implies closed_at(ea@, eb@, sign@, root, v) by {
                    assert(queue@.subrange(head as int, queue@.len() as int).len() == 0);
                }
            }
        }
        r = r + 1;
    }
    proof {
        lemma_counts_signed(sign@, n as int);
        assert forall|k: int| 0 <= k < edges@.len() implies root[#[trigger] ea@[k] as int] == root[eb@[k] as int] by {
            assert(sign@[ea@[k] as int] != 0);
            assert(closed_at(ea@, eb@, sign@, root, ea@[k] as int));
        }
    }
    (sign, forest, Ghost(root), Ghost(fk))
}

/// `a` comes no later than `b` in the order of `(row, column, sigma)`.
pub open spec fn edge_le(a: SignedEdge, b: SignedEdge) -> bool {
    a.row.0 < b.row.0 || (a.row.0 == b.row.0 && (a.column.0 < b.column.0 || (a.column.0 == b.column.0
        && a.sigma <= b.sigma)))
}

pub open spec fn edges_sorted(s: Seq<SignedEdge>) -> bool {
    forall|i: int, j: int| 0 <= i <= j < s.len() ==> edge_le(#[trigger] s[i], #[trigger] s[j])
}

fn edge_lt(a: &SignedEdge, b: &SignedEdge) -> (r: bool)
    ensures
        r == !edge_le(*b, *a),
{
    a.row.0 < b.row.0 || (a.row.0 == b.row.0 && (a.column.0 < b.column.0 || (a.column.0 == b.column.0
        && a.sigma < b.sigma)))
}

/// Insertion sort of edges by `(row, column, sigma)`.
fn sort_edges(v: Vec<SignedEdge>) -> (r: Vec<SignedEdge>)
    ensures
        edges_sorted(r@),
        r@.to_multiset() == v@.to_multiset(),
{
    broadcast use vstd::seq_lib::group_to_multiset_ensures;

    let mut r: Vec<SignedEdge> = Vec::new();
    let mut i: usize = 0;
    while i < v.len()
        invariant
            i <= v@.len(),
            edges_sorted(r@),
            r@.to_multiset() == v@.take(i as int).to_multiset(),
        decreases v@.len() - i,
    {
        let x = v[i];
        let mut pos: usize = 0;
        while pos < r.len() && !edge_lt(&x, &r[pos])
            invariant
                pos <= r@.len(),
                forall|j: int| 0 <= j < pos ==> edge_le(#[trigger] r@[j], x),
            decreases r@.len() - pos,
        {
            pos = pos + 1;
        }
        let ghost r0 = r@;
        r.insert(pos, x);
        proof {
            assert forall|a: int, b: int| 0 <= a <= b < r@.len() implies edge_le(#[trigger] r@[a], #[trigger] r@[b]) by {
                if a < pos && b > pos {
                    assert(r@[b] == r0[b - 1]);
                    assert(edge_le(r0[a], r0[b - 1]));
                } else if a == pos && b > pos {
                    assert(r@[b] == r0[b - 1]);
                    assert(!edge_le(r0[pos as int], x));
                    assert(edge_le(r0[pos as int], r0[b - 1]));
                } else if a > pos {
                    assert(edge_le(r0[a - 1], r0[b - 1]));
                } else if a < pos && b == pos {
                } else if a == b {
                }
            }
            assert(v@.take(i + 1) =~= v@.take(i as int).push(x));
            vstd::seq_lib::to_multiset_insert(r0, pos as int, x);
            vstd::seq_lib::to_multiset_build(v@.take(i as int), x);
        }
        i = i + 1;
    }
    assert(v@.take(i as int) =~= v@);
    r
}

/// Every edge of the row graph comes from a relation with `row < column`, decided.
proof fn lemma_upper_edge_source(rels: Seq<TransposeRelation>, k: int)
    requires
        0 <= k < upper_edges(rels).len(),
        forall|j: int| 0 <= j < rels.len() ==> !undecided_upper(#[trigger] rels[j]),
    ensures
        exists|j: int|
            0 <= j < rels.len() && (#[trigger] rels[j]).row == upper_edges(rels)[k].row && rels[j].column
                == upper_edges(rels)[k].column && rels[j].row.0 < rels[j].column.0 && rels[j].sigma == Some(
                upper_edges(rels)[k].sigma,
            ),
    decreases rels.len(),
{
    let rest = rels.drop_last();
    let r = rels.last();
    if r.row.0 < r.column.0 && k == upper_edges(rest).len() {
        let j = rels.len() - 1;
        assert(rels[j] == r);
        assert(!undecided_upper(rels[j]));
        assert(upper_edges(rels)[k] == SignedEdge { row: r.row, column: r.column, sigma: r.sigma.unwrap() });
        assert(rels[j].sigma == Some(upper_edges(rels)[k].sigma));
    } else {
        assert forall|j: int| 0 <= j < rest.len() implies !undecided_upper(#[trigger] rest[j]) by {
            assert(rest[j] == rels[j]);
        }
        lemma_upper_edge_source(rest, k);
        let j = choose|j: int|
            0 <= j < rest.len() && (#[trigger] rest[j]).row == upper_edges(rest)[k].row && rest[j].column
                == upper_edges(rest)[k].column && rest[j].row.0 < rest[j].column.0 && rest[j].sigma == Some(
                upper_edges(rest)[k].sigma,
            );
        assert(rels[j] == rest[j]);
    }
}

/// `x` is the least row of its component of the row graph.
pub open spec fn least_in_component(structure: Seq<BlockStructure>, edges: Seq<SignedEdge>, x: SymbolId) -> bool {
    forall|q: SymbolId| #[trigger] is_row(structure, q) && q.0 < x.0 ==> !linked(edges, q, x)
}

/// Row `x` is linked through `forest` to the least row of its component of `edges`.
pub open spec fn reached_from_least(
    structure: Seq<BlockStructure>,
    edges: Seq<SignedEdge>,
    forest: Seq<SignedEdge>,
    x: SymbolId,
) -> bool {
    exists|q: SymbolId| #[trigger] linked(forest, q, x) && is_row(structure, q) && least_in_component(structure, edges, q)
}

/// How many of the first `i` listed rows are the least row of their component.
pub open spec fn least_count(
    structure: Seq<BlockStructure>,
    edges: Seq<SignedEdge>,
    signs: Seq<(SymbolId, i8)>,
    i: int,
) -> nat
    decreases i,
{
    if i <= 0 {
        0
    } else {
        least_count(structure, edges, signs, i - 1) + if least_in_component(structure, edges, signs[i - 1].0) {
            1nat
        } else {
            0nat
        }
    }
}

/// What a gauge certifies: its edges are the row graph's, its signs are `±1` for exactly the
/// rows, by increasing row, reproduce every edge sign, and give `+1` to the least row of each
/// component; its forest is sorted, made of edges of the graph, links every row to the least
/// row of its component, and has one edge for each row that is not such a least row.
pub open spec fn gauge_certifies(g: SignGauge, structure: Seq<BlockStructure>, rels: Seq<TransposeRelation>) -> bool {
    &&& g.proof.edges@ == upper_edges(rels)
    &&& certified_parts(g.signs@, g.proof.spanning_forest@, structure, rels)
}

/// The conditions of [`gauge_certifies`] on the signs and the forest of a gauge.
pub open spec fn certified_parts(
    signs: Seq<(SymbolId, i8)>,
    forest: Seq<SignedEdge>,
    structure: Seq<BlockStructure>,
    rels: Seq<TransposeRelation>,
) -> bool {
    let edges = upper_edges(rels);
    &&& forall|i: int, j: int| 0 <= i < j < signs.len() ==> (#[trigger] signs[i]).0.0 < (#[trigger] signs[j]).0.0
    &&& forall|i: int| 0 <= i < signs.len() ==> (#[trigger] signs[i]).1 == 1 || signs[i].1 == -1
    &&& forall|i: int| 0 <= i < signs.len() ==> is_row(structure, (#[trigger] signs[i]).0)
    &&& forall|x: SymbolId| is_row(structure, x) ==> exists|i: int| 0 <= i < signs.len() && (#[trigger] signs[i]).0 == x
    &&& forall|k: int, i: int, j: int|
        0 <= k < edges.len() && 0 <= i < signs.len() && 0 <= j < signs.len() && (#[trigger] signs[i]).0
            == (#[trigger] edges[k]).row && (#[trigger] signs[j]).0 == edges[k].column ==> signs[i].1 * signs[j].1
            == edges[k].sigma
    &&& forall|i: int|
        0 <= i < signs.len() && least_in_component(structure, edges, (#[trigger] signs[i]).0) ==> signs[i].1 == 1
    &&& edges_sorted(forest)
    &&& forall|j: int| 0 <= j < forest.len() ==> edges.contains(#[trigger] forest[j])
    &&& forest.len() + least_count(structure, edges, signs, signs.len() as int) == signs.len()
    &&& forall|i: int|
        #![trigger signs[i]]
        0 <= i < signs.len() ==> reached_from_least(structure, edges, forest, signs[i].0)
}

/// Along a walk of the row graph, every row has the root of the walk's first row.
proof fn lemma_walk_same_root(
    edges: Seq<SignedEdge>,
    nodes: Seq<SymbolId>,
    ea: Seq<usize>,
    eb: Seq<usize>,
    root: Seq<int>,
    p: Seq<SymbolId>,
    i: int,
)
    requires
        edge_joins(edges, nodes, ea, eb),
        forall|v: int, w: int| 0 <= v < nodes.len() && 0 <= w < nodes.len() && nodes[v] == nodes[w] ==> v == w,
        forall|k: int| 0 <= k < edges.len() ==> root[#[trigger] ea[k] as int] == root[eb[k] as int],
        edge_path(edges, p),
        nodes.contains(p[0]),
        0 <= i < p.len(),
    ensures
        nodes.contains(p[i]),
        root[nodes.index_of(p[i])] == root[nodes.index_of(p[0])],
    decreases i,
{
    if i > 0 {
        lemma_walk_same_root(edges, nodes, ea, eb, root, p, i - 1);
        assert(joined(edges, p[i - 1], p[i]));
        let k = choose|k: int|
            0 <= k < edges.len() && (((#[trigger] edges[k]).row == p[i - 1] && edges[k].column == p[i]) || (
            edges[k].row == p[i] && edges[k].column == p[i - 1]));
        let a = ea[k] as int;
        let b = eb[k] as int;
        assert(nodes[a] == edges[k].row && nodes[b] == edges[k].column);
        assert(nodes.contains(nodes[a]) && nodes.contains(nodes[b]));
        let ia = nodes.index_of(nodes[a]);
        let ib = nodes.index_of(nodes[b]);
        assert(ia == a);
        assert(ib == b);
    }
}

/// Every row is linked, through the forest, to the least row of its component: the root of
/// its propagation.
proof fn lemma_gauge_spans(
    structure: Seq<BlockStructure>,
    edges: Seq<SignedEdge>,
    nodes: Seq<SymbolId>,
    ea: Seq<usize>,
    eb: Seq<usize>,
    sign: Seq<i8>,
    root: Seq<int>,
    forest: Seq<SignedEdge>,
    spanning: Seq<SignedEdge>,
    i: int,
)
    requires
        edge_joins(edges, nodes, ea, eb),
        increasing_ids(nodes),
        forall|x: SymbolId| #[trigger] nodes.contains(x) <==> is_row(structure, x),
        sign.len() == nodes.len(),
        root.len() == nodes.len(),
        forall|v: int| 0 <= v < sign.len() ==> #[trigger] sign[v] != 0,
        forall|v: int| 0 <= v < sign.len() ==> #[trigger] root[v] < nodes.len(),
        forall|k: int| 0 <= k < edges.len() ==> root[#[trigger] ea[k] as int] == root[eb[k] as int],
        rooted(forest, nodes, sign, root),
        forall|j: int| 0 <= j < forest.len() ==> spanning.contains(#[trigger] forest[j]),
        0 <= i < nodes.len(),
    ensures
        reached_from_least(structure, edges, spanning, nodes[i]),
{
    reveal(rooted);
    assert(sign[i] != 0);
    let q = nodes[root[i]];
    lemma_linked_subset(forest, spanning, q, nodes[i]);
    assert(nodes.contains(q));
    lemma_root_is_least(structure, edges, nodes, ea, eb, sign, root, forest, i);
    assert(linked(spanning, q, nodes[i]) && is_row(structure, q) && least_in_component(structure, edges, q));
}

/// The root of a node's propagation is the least row of its component.
proof fn lemma_root_is_least(
    structure: Seq<BlockStructure>,
    edges: Seq<SignedEdge>,
    nodes: Seq<SymbolId>,
    ea: Seq<usize>,
    eb: Seq<usize>,
    sign: Seq<i8>,
    root: Seq<int>,
    forest: Seq<SignedEdge>,
    i: int,
)
    requires
        edge_joins(edges, nodes, ea, eb),
        increasing_ids(nodes),
        forall|x: SymbolId| #[trigger] nodes.contains(x) <==> is_row(structure, x),
        sign.len() == nodes.len(),
        root.len() == nodes.len(),
        forall|v: int| 0 <= v < sign.len() ==> #[trigger] sign[v] != 0,
        forall|v: int| 0 <= v < sign.len() ==> #[trigger] root[v] < nodes.len(),
        forall|k: int| 0 <= k < edges.len() ==> root[#[trigger] ea[k] as int] == root[eb[k] as int],
        rooted(forest, nodes, sign, root),
        0 <= i < nodes.len(),
    ensures
        0 <= root[i] < nodes.len(),
        least_in_component(structure, edges, nodes[root[i]]),
{
    reveal(rooted);
    lemma_increasing_distinct(nodes);
    assert(sign[i] != 0);
    let rt = root[i];
    let q = nodes[rt];
    assert(nodes.contains(q));
    assert forall|q2: SymbolId| #[trigger] is_row(structure, q2) && q2.0 < q.0 implies !linked(edges, q2, q) by {
        if linked(edges, q2, q) {
            let p = choose|p: Seq<SymbolId>| #[trigger] edge_path(edges, p) && p[0] == q2 && p.last() == q;
            assert(nodes.contains(q2));
            let iq = nodes.index_of(q2);
            lemma_walk_same_root(edges, nodes, ea, eb, root, p, p.len() - 1);
            assert(nodes.index_of(q) == rt);
            assert(sign[iq] != 0);
            assert(sign[rt] != 0);
            if rt <= iq {
                if rt < iq {
                    assert(nodes[rt].0 < nodes[iq].0);
                }
            }
        }
    }
}

/// A node is its own root exactly when its row is the least of its component.
proof fn lemma_roots_are_least(
    structure: Seq<BlockStructure>,
    edges: Seq<SignedEdge>,
    nodes: Seq<SymbolId>,
    ea: Seq<usize>,
    eb: Seq<usize>,
    sign: Seq<i8>,
    root: Seq<int>,
    forest: Seq<SignedEdge>,
    signs: Seq<(SymbolId, i8)>,
)
    requires
        propagation_inv(edges, nodes, ea, eb, sign, root, forest),
        rooted(forest, nodes, sign, root),
        increasing_ids(nodes),
        forall|x: SymbolId| #[trigger] nodes.contains(x) <==> is_row(structure, x),
        forall|v: int| 0 <= v < sign.len() ==> #[trigger] sign[v] != 0,
        forall|j: int| 0 <= j < edges.len() ==> root[#[trigger] ea[j] as int] == root[eb[j] as int],
        signs.len() == nodes.len(),
        forall|j: int| 0 <= j < nodes.len() ==> #[trigger] signs[j] == (nodes[j], sign[j]),
    ensures
        forall|v: int|
            0 <= v < signs.len() ==> ((sign[v] != 0 && root[v] == v) <==> least_in_component(
                structure,
                edges,
                (#[trigger] signs[v]).0,
            )),
        forall|i: int| 0 <= i < nodes.len() && least_in_component(structure, edges, #[trigger] nodes[i]) ==> sign[i] == 1,
{
    assert forall|i: int| 0 <= i < nodes.len() && least_in_component(structure, edges, #[trigger] nodes[i]) implies sign[i]
        == 1 by {
        lemma_least_positive(structure, edges, nodes, ea, eb, sign, root, forest, i);
    }
    assert forall|v: int| 0 <= v < signs.len() implies ((sign[v] != 0 && root[v] == v) <==> least_in_component(
        structure,
        edges,
        (#[trigger] signs[v]).0,
    )) by {
        assert(signs[v].0 == nodes[v]);
        if least_in_component(structure, edges, nodes[v]) {
            lemma_least_positive(structure, edges, nodes, ea, eb, sign, root, forest, v);
        }
        if root[v] == v {
            lemma_root_is_least(structure, edges, nodes, ea, eb, sign, root, forest, v);
        }
    }
}

/// The roots of propagation are the rows that are least in their component, so they number
/// as many as those rows.
proof fn lemma_root_count_least(
    structure: Seq<BlockStructure>,
    edges: Seq<SignedEdge>,
    sign: Seq<i8>,
    root: Seq<int>,
    signs: Seq<(SymbolId, i8)>,
    i: int,
)
    requires
        0 <= i <= signs.len(),
        signs.len() <= sign.len(),
        forall|v: int|
            0 <= v < signs.len() ==> ((sign[v] != 0 && root[v] == v) <==> least_in_component(
                structure,
                edges,
                (#[trigger] signs[v]).0,
            )),
    ensures
        root_count(sign, root, i) == least_count(structure, edges, signs, i),
    decreases i,
{
    if i > 0 {
        lemma_root_count_least(structure, edges, sign, root, signs, i - 1);
        assert(((sign[i - 1] != 0 && root[i - 1] == i - 1) <==> least_in_component(structure, edges, signs[i - 1].0)));
    }
}

/// Distinct positions of increasing ids hold distinct ids.
proof fn lemma_increasing_distinct(nodes: Seq<SymbolId>)
    requires
        increasing_ids(nodes),
    ensures
        forall|v: int, w: int| 0 <= v < nodes.len() && 0 <= w < nodes.len() && nodes[v] == nodes[w] ==> v == w,
{
    assert forall|v: int, w: int| 0 <= v < nodes.len() && 0 <= w < nodes.len() && nodes[v] == nodes[w] implies v
        == w by {
        if v < w {
            assert(nodes[v].0 < nodes[w].0);
        } else if w < v {
            assert(nodes[w].0 < nodes[v].0);
        }
    }
}

/// Signs that reproduce every edge sign make the graph balanced.
proof fn lemma_propagated_balance(
    nodes: Seq<SymbolId>,
    edges: Seq<SignedEdge>,
    ea: Seq<usize>,
    eb: Seq<usize>,
    sign: Seq<i8>,
)
    requires
        edge_joins(edges, nodes, ea, eb),
        increasing_ids(nodes),
        sign.len() == nodes.len(),
        forall|v: int| 0 <= v < sign.len() ==> #[trigger] sign[v] == 1 || sign[v] == -1,
        forall|j: int| 0 <= j < edges.len() ==> sign[#[trigger] ea[j] as int] * sign[eb[j] as int] == edges[j].sigma,
    ensures
        balanced(edges),
{
    lemma_increasing_distinct(nodes);
    let s_of = |x: SymbolId| if nodes.contains(x) { sign[nodes.index_of(x)] as int } else { 1int };
    assert(is_orientation(s_of)) by {
        assert forall|x: SymbolId| #[trigger] s_of(x) == 1 || s_of(x) == -1 by {
            if nodes.contains(x) {
                let i = nodes.index_of(x);
                assert(sign[i] == 1 || sign[i] == -1);
            }
        }
    }
    assert forall|k: int| 0 <= k < edges.len() implies s_of((#[trigger] edges[k]).row) * s_of(edges[k].column)
        == edges[k].sigma as int by {
        let a = ea[k] as int;
        let b = eb[k] as int;
        assert(nodes[a] == edges[k].row && nodes[b] == edges[k].column);
        assert(nodes.contains(edges[k].row));
        assert(nodes.contains(edges[k].column));
        assert(nodes[nodes.index_of(edges[k].row)] == nodes[a]);
        assert(nodes[nodes.index_of(edges[k].column)] == nodes[b]);
        assert(sign[a] * sign[b] == edges[k].sigma);
    }
    assert(balances(s_of, edges));
}

/// The sorted forest is made of graph edges and spans every component from its least row.
proof fn lemma_forest_parts(
    structure: Seq<BlockStructure>,
    edges: Seq<SignedEdge>,
    nodes: Seq<SymbolId>,
    ea: Seq<usize>,
    eb: Seq<usize>,
    sign: Seq<i8>,
    root: Seq<int>,
    forest: Seq<SignedEdge>,
    spanning: Seq<SignedEdge>,
)
    requires
        propagation_inv(edges, nodes, ea, eb, sign, root, forest),
        rooted(forest, nodes, sign, root),
        increasing_ids(nodes),
        forall|x: SymbolId| #[trigger] nodes.contains(x) <==> is_row(structure, x),
        forall|v: int| 0 <= v < sign.len() ==> #[trigger] sign[v] != 0,
        forall|j: int| 0 <= j < edges.len() ==> root[#[trigger] ea[j] as int] == root[eb[j] as int],
        spanning.to_multiset() == forest.to_multiset(),
    ensures
        spanning.len() == forest.len(),
        forall|j: int| 0 <= j < spanning.len() ==> edges.contains(#[trigger] spanning[j]),
        forall|i: int|
            #![trigger nodes[i]]
            0 <= i < nodes.len() ==> reached_from_least(structure, edges, spanning, nodes[i]),
{
    assert(spanning.len() == forest.len()) by {
        vstd::seq_lib::to_multiset_len(spanning);
        vstd::seq_lib::to_multiset_len(forest);
    }
    assert forall|j: int| 0 <= j < forest.len() implies spanning.contains(#[trigger] forest[j]) by {
        vstd::seq_lib::to_multiset_contains(forest, forest[j]);
        vstd::seq_lib::to_multiset_contains(spanning, forest[j]);
        assert(forest.contains(forest[j]));
    }
    assert forall|j: int| 0 <= j < spanning.len() implies edges.contains(#[trigger] spanning[j]) by {
        vstd::seq_lib::to_multiset_contains(spanning, spanning[j]);
        vstd::seq_lib::to_multiset_contains(forest, spanning[j]);
        assert(spanning.contains(spanning[j]));
        let m = choose|m: int| 0 <= m < forest.len() && forest[m] == spanning[j];
        assert(edges.contains(forest[m]));
    }
    assert forall|i: int| #![trigger nodes[i]] 0 <= i < nodes.len() implies reached_from_least(structure, edges, spanning, nodes[i]) by {
        lemma_gauge_spans(structure, edges, nodes, ea, eb, sign, root, forest, spanning, i);
    }
}

/// The least row of each component is its own root, so it carries `+1`.
proof fn lemma_least_positive(
    structure: Seq<BlockStructure>,
    edges: Seq<SignedEdge>,
    nodes: Seq<SymbolId>,
    ea: Seq<usize>,
    eb: Seq<usize>,
    sign: Seq<i8>,
    root: Seq<int>,
    forest: Seq<SignedEdge>,
    i: int,
)
    requires
        propagation_inv(edges, nodes, ea, eb, sign, root, forest),
        rooted(forest, nodes, sign, root),
        increasing_ids(nodes),
        forall|x: SymbolId| #[trigger] nodes.contains(x) <==> is_row(structure, x),
        forall|v: int| 0 <= v < sign.len() ==> #[trigger] sign[v] != 0,
        0 <= i < nodes.len(),
        least_in_component(structure, edges, nodes[i]),
    ensures
        sign[i] == 1,
        root[i] == i,
{
    reveal(rooted);
    assert(sign[i] != 0);
    let rt = root[i];
    if rt != i {
        assert(nodes[rt].0 < nodes[i].0);
        assert(nodes.contains(nodes[rt]));
        assert(is_row(structure, nodes[rt]));
        lemma_linked_subset(forest, edges, nodes[rt], nodes[i]);
    }
}

/// The signs listed by row: `±1`, by increasing row, exactly the rows, and reproducing every
/// edge sign.
proof fn lemma_sign_parts(
    structure: Seq<BlockStructure>,
    edges: Seq<SignedEdge>,
    nodes: Seq<SymbolId>,
    ea: Seq<usize>,
    eb: Seq<usize>,
    sign: Seq<i8>,
    signs: Seq<(SymbolId, i8)>,
)
    requires
        edge_joins(edges, nodes, ea, eb),
        increasing_ids(nodes),
        forall|x: SymbolId| #[trigger] nodes.contains(x) <==> is_row(structure, x),
        sign.len() == nodes.len(),
        forall|v: int| 0 <= v < sign.len() ==> #[trigger] sign[v] == 1 || sign[v] == -1,
        forall|j: int| 0 <= j < edges.len() ==> sign[#[trigger] ea[j] as int] * sign[eb[j] as int] == edges[j].sigma,
        signs.len() == nodes.len(),
        forall|j: int| 0 <= j < nodes.len() ==> #[trigger] signs[j] == (nodes[j], sign[j]),
    ensures
        forall|i: int, j: int| 0 <= i < j < signs.len() ==> (#[trigger] signs[i]).0.0 < (#[trigger] signs[j]).0.0,
        forall|i: int| 0 <= i < signs.len() ==> (#[trigger] signs[i]).1 == 1 || signs[i].1 == -1,
        forall|i: int| 0 <= i < signs.len() ==> is_row(structure, (#[trigger] signs[i]).0),
        forall|x: SymbolId| is_row(structure, x) ==> exists|i: int| 0 <= i < signs.len() && (#[trigger] signs[i]).0 == x,
        forall|k: int, i: int, j: int|
            0 <= k < edges.len() && 0 <= i < signs.len() && 0 <= j < signs.len() && (#[trigger] signs[i]).0
                == (#[trigger] edges[k]).row && (#[trigger] signs[j]).0 == edges[k].column ==> signs[i].1 * signs[j].1
                == edges[k].sigma,
{
    lemma_increasing_distinct(nodes);
    assert forall|x: SymbolId| is_row(structure, x) implies exists|i: int| 0 <= i < signs.len() && (#[trigger] signs[i]).0
        == x by {
        assert(nodes.contains(x));
        let i = choose|i: int| 0 <= i < nodes.len() && nodes[i] == x;
        assert(signs[i].0 == x);
    }
    assert forall|i: int| 0 <= i < signs.len() implies is_row(structure, (#[trigger] signs[i]).0) by {
        assert(signs[i] == (nodes[i], sign[i]));
        assert(nodes.contains(nodes[i]));
    }
    assert forall|i: int| 0 <= i < signs.len() implies (#[trigger] signs[i]).1 == 1 || signs[i].1 == -1 by {
        assert(signs[i] == (nodes[i], sign[i]));
        assert(sign[i] == 1 || sign[i] == -1);
    }
    assert forall|i: int, j: int| 0 <= i < j < signs.len() implies (#[trigger] signs[i]).0.0 < (#[trigger] signs[j]).0.0 by {
        assert(signs[i] == (nodes[i], sign[i]));
        assert(signs[j] == (nodes[j], sign[j]));
    }
    assert forall|k: int, i: int, j: int|
        0 <= k < edges.len() && 0 <= i < signs.len() && 0 <= j < signs.len() && (#[trigger] signs[i]).0
            == (#[trigger] edges[k]).row && (#[trigger] signs[j]).0 == edges[k].column implies signs[i].1 * signs[j].1
            == edges[k].sigma by {
        assert(signs[i] == (nodes[i], sign[i]));
        assert(signs[j] == (nodes[j], sign[j]));
        assert(nodes[i] == nodes[ea[k] as int]);
        assert(nodes[j] == nodes[eb[k] as int]);
        assert(sign[ea[k] as int] * sign[eb[k] as int] == edges[k].sigma);
    }
}

/// The signs and the sorted forest that propagation leaves satisfy what a gauge certifies.
#[verifier::spinoff_prover]
proof fn lemma_gauge_parts(
    structure: Seq<BlockStructure>,
    rels: Seq<TransposeRelation>,
    nodes: Seq<SymbolId>,
    ea: Seq<usize>,
    eb: Seq<usize>,
    sign: Seq<i8>,
    root: Seq<int>,
    forest: Seq<SignedEdge>,
    spanning: Seq<SignedEdge>,
    signs: Seq<(SymbolId, i8)>,
)
    requires
        propagation_inv(upper_edges(rels), nodes, ea, eb, sign, root, forest),
        rooted(forest, nodes, sign, root),
        increasing_ids(nodes),
        forall|x: SymbolId| #[trigger] nodes.contains(x) <==> is_row(structure, x),
        forall|v: int| 0 <= v < sign.len() ==> #[trigger] sign[v] != 0,
        forall|j: int| 0 <= j < upper_edges(rels).len() ==> root[#[trigger] ea[j] as int] == root[eb[j] as int],
        forall|j: int|
            0 <= j < upper_edges(rels).len() ==> sign[#[trigger] ea[j] as int] * sign[eb[j] as int]
                == upper_edges(rels)[j].sigma,
        edges_sorted(spanning),
        spanning.to_multiset() == forest.to_multiset(),
        signs.len() == nodes.len(),
        forall|j: int| 0 <= j < nodes.len() ==> #[trigger] signs[j] == (nodes[j], sign[j]),
        forest.len() + root_count(sign, root, nodes.len() as int) == nodes.len(),
    ensures
        certified_parts(signs, spanning, structure, rels),
{
    let edges = upper_edges(rels);
    lemma_forest_parts(structure, edges, nodes, ea, eb, sign, root, forest, spanning);
    lemma_sign_parts(structure, edges, nodes, ea, eb, sign, signs);
    lemma_roots_are_least(structure, edges, nodes, ea, eb, sign, root, forest, signs);
    lemma_root_count_least(structure, edges, sign, root, signs, signs.len() as int);
    lemma_parts_combine(structure, rels, nodes, sign, spanning, signs);
}

/// What the sign and forest lemmas give, put together per listed row.
proof fn lemma_parts_combine(
    structure: Seq<BlockStructure>,
    rels: Seq<TransposeRelation>,
    nodes: Seq<SymbolId>,
    sign: Seq<i8>,
    spanning: Seq<SignedEdge>,
    signs: Seq<(SymbolId, i8)>,
)
    requires
        edges_sorted(spanning),
        forall|j: int| 0 <= j < spanning.len() ==> upper_edges(rels).contains(#[trigger] spanning[j]),
        spanning.len() + least_count(structure, upper_edges(rels), signs, signs.len() as int) == signs.len(),
        forall|i: int|
            #![trigger nodes[i]]
            0 <= i < nodes.len() ==> reached_from_least(structure, upper_edges(rels), spanning, nodes[i]),
        forall|i: int| 0 <= i < nodes.len() && least_in_component(structure, upper_edges(rels), #[trigger] nodes[i]) ==> sign[i] == 1,
        signs.len() == nodes.len(),
        forall|j: int| 0 <= j < nodes.len() ==> #[trigger] signs[j] == (nodes[j], sign[j]),
        forall|i: int, j: int| 0 <= i < j < signs.len() ==> (#[trigger] signs[i]).0.0 < (#[trigger] signs[j]).0.0,
        forall|i: int| 0 <= i < signs.len() ==> (#[trigger] signs[i]).1 == 1 || signs[i].1 == -1,
        forall|i: int| 0 <= i < signs.len() ==> is_row(structure, (#[trigger] signs[i]).0),
        forall|x: SymbolId| is_row(structure, x) ==> exists|i: int| 0 <= i < signs.len() && (#[trigger] signs[i]).0 == x,
        forall|k: int, i: int, j: int|
            0 <= k < upper_edges(rels).len() && 0 <= i < signs.len() && 0 <= j < signs.len() && (#[trigger] signs[i]).0
                == (#[trigger] upper_edges(rels)[k]).row && (#[trigger] signs[j]).0 == upper_edges(rels)[k].column
                ==> signs[i].1 * signs[j].1 == upper_edges(rels)[k].sigma,
    ensures
        certified_parts(signs, spanning, structure, rels),
{
    let edges = upper_edges(rels);
    assert forall|i: int| #![trigger signs[i]] 0 <= i < signs.len() implies reached_from_least(structure, edges, spanning, signs[i].0) by {
        assert(signs[i].0 == nodes[i]);
    }
    assert forall|i: int| 0 <= i < signs.len() && least_in_component(structure, edges, (#[trigger] signs[i]).0)
        implies signs[i].1 == 1 by {
        assert(signs[i] == (nodes[i], sign[i]));
    }
}

/// `t` is a spanning forest of the row graph: edges of the graph that link every row to the
/// least row of its component.
pub open spec fn spans_rows(structure: Seq<BlockStructure>, edges: Seq<SignedEdge>, t: Seq<SignedEdge>) -> bool {
    &&& forall|j: int| 0 <= j < t.len() ==> edges.contains(#[trigger] t[j])
    &&& forall|x: SymbolId| #[trigger] is_row(structure, x) ==> reached_from_least(structure, edges, t, x)
}

/// Edge `k` is the first edge, in order, that the signs forced by the spanning forest `t` do
/// not reproduce: the forest agrees with every earlier edge, and not with edge `k`.
pub open spec fn forest_conflict(
    structure: Seq<BlockStructure>,
    edges: Seq<SignedEdge>,
    t: Seq<SignedEdge>,
    k: int,
) -> bool {
    &&& spans_rows(structure, edges, t)
    &&& balanced(t + edges.take(k))
    &&& !balanced(t.push(edges[k]))
}

/// Along a walk of the forest, a balancing of the forest is the propagated signs times one
/// constant.
proof fn lemma_forest_forces(
    edges: Seq<SignedEdge>,
    nodes: Seq<SymbolId>,
    ea: Seq<usize>,
    eb: Seq<usize>,
    forest: Seq<SignedEdge>,
    fk: Seq<int>,
    sign: Seq<i8>,
    s: spec_fn(SymbolId) -> int,
    p: Seq<SymbolId>,
    i: int,
)
    requires
        edge_joins(edges, nodes, ea, eb),
        forall|v: int, w: int| 0 <= v < nodes.len() && 0 <= w < nodes.len() && nodes[v] == nodes[w] ==> v == w,
        tree_signed(edges, ea, eb, forest, fk, sign),
        sign.len() == nodes.len(),
        forall|v: int| 0 <= v < sign.len() ==> #[trigger] sign[v] == 1 || sign[v] == -1,
        balances(s, forest),
        edge_path(forest, p),
        nodes.contains(p[0]),
        0 <= i < p.len(),
    ensures
        nodes.contains(p[i]),
        s(p[i]) * sign[nodes.index_of(p[i])] == s(p[0]) * sign[nodes.index_of(p[0])],
    decreases i,
{
    if i > 0 {
        reveal(tree_signed);
        lemma_forest_forces(edges, nodes, ea, eb, forest, fk, sign, s, p, i - 1);
        assert(joined(forest, p[i - 1], p[i]));
        let j = choose|j: int|
            0 <= j < forest.len() && (((#[trigger] forest[j]).row == p[i - 1] && forest[j].column == p[i]) || (
            forest[j].row == p[i] && forest[j].column == p[i - 1]));
        let k = fk[j];
        let a = ea[k] as int;
        let b = eb[k] as int;
        assert(forest[j] == edges[k]);
        assert(nodes[a] == edges[k].row && nodes[b] == edges[k].column);
        assert(nodes.contains(nodes[a]) && nodes.contains(nodes[b]));
        assert(nodes.index_of(nodes[a]) == a);
        assert(nodes.index_of(nodes[b]) == b);
        let sa = s(nodes[a]);
        let sb = s(nodes[b]);
        let ga = sign[a] as int;
        let gb = sign[b] as int;
        assert(sa * sb == edges[k].sigma as int);
        assert(ga * gb == edges[k].sigma as int);
        assert(sa == 1 || sa == -1);
        assert(sb == 1 || sb == -1);
        assert(sa * ga == sb * gb) by (nonlinear_arith)
            requires
                sa * sb == ga * gb,
                sa == 1 || sa == -1,
                sb == 1 || sb == -1,
                ga == 1 || ga == -1,
                gb == 1 || gb == -1,
        ;
    }
}

/// Where the propagated signs first fail to reproduce an edge, the propagation forest
/// witnesses the conflict.
proof fn lemma_unbalanced_witness(
    structure: Seq<BlockStructure>,
    edges: Seq<SignedEdge>,
    nodes: Seq<SymbolId>,
    ea: Seq<usize>,
    eb: Seq<usize>,
    sign: Seq<i8>,
    root: Seq<int>,
    forest: Seq<SignedEdge>,
    fk: Seq<int>,
    k: int,
)
    requires
        propagation_inv(edges, nodes, ea, eb, sign, root, forest),
        rooted(forest, nodes, sign, root),
        tree_signed(edges, ea, eb, forest, fk, sign),
        increasing_ids(nodes),
        forall|x: SymbolId| #[trigger] nodes.contains(x) <==> is_row(structure, x),
        forall|v: int| 0 <= v < sign.len() ==> #[trigger] sign[v] != 0,
        forall|j: int| 0 <= j < edges.len() ==> root[#[trigger] ea[j] as int] == root[eb[j] as int],
        0 <= k < edges.len(),
        forall|j: int| 0 <= j < k ==> sign[#[trigger] ea[j] as int] * sign[eb[j] as int] == edges[j].sigma,
        sign[ea[k] as int] * sign[eb[k] as int] != edges[k].sigma,
    ensures
        forest_conflict(structure, edges, forest, k),
{
    lemma_increasing_distinct(nodes);
    lemma_forest_parts(structure, edges, nodes, ea, eb, sign, root, forest, forest);
    assert forall|x: SymbolId| #[trigger] is_row(structure, x) implies reached_from_least(structure, edges, forest, x) by {
        assert(nodes.contains(x));
        let i = choose|i: int| 0 <= i < nodes.len() && nodes[i] == x;
        assert(reached_from_least(structure, edges, forest, nodes[i]));
    }
    assert(spans_rows(structure, edges, forest));
    lemma_forest_prefix_balanced(edges, nodes, ea, eb, sign, forest, fk, k);
    lemma_forest_rejects(edges, nodes, ea, eb, sign, root, forest, fk, k);
}

/// The propagated signs reproduce the forest and the edges before `k`.
proof fn lemma_forest_prefix_balanced(
    edges: Seq<SignedEdge>,
    nodes: Seq<SymbolId>,
    ea: Seq<usize>,
    eb: Seq<usize>,
    sign: Seq<i8>,
    forest: Seq<SignedEdge>,
    fk: Seq<int>,
    k: int,
)
    requires
        edge_joins(edges, nodes, ea, eb),
        increasing_ids(nodes),
        sign.len() == nodes.len(),
        tree_signed(edges, ea, eb, forest, fk, sign),
        forall|v: int| 0 <= v < sign.len() ==> #[trigger] sign[v] == 1 || sign[v] == -1,
        0 <= k < edges.len(),
        forall|j: int| 0 <= j < k ==> sign[#[trigger] ea[j] as int] * sign[eb[j] as int] == edges[j].sigma,
    ensures
        balanced(forest + edges.take(k)),
{
    lemma_increasing_distinct(nodes);
    let g = forest + edges.take(k);
    let s_of = |x: SymbolId| if nodes.contains(x) { sign[nodes.index_of(x)] as int } else { 1int };
    assert(is_orientation(s_of)) by {
        assert forall|x: SymbolId| #[trigger] s_of(x) == 1 || s_of(x) == -1 by {
            if nodes.contains(x) {
                let i = nodes.index_of(x);
                assert(sign[i] == 1 || sign[i] == -1);
            }
        }
    }
    assert forall|m: int| 0 <= m < g.len() implies s_of((#[trigger] g[m]).row) * s_of(g[m].column) == g[m].sigma as int by {
        let j = if m < forest.len() {
            reveal(tree_signed);
            fk[m]
        } else {
            m - forest.len()
        };
        assert(g[m] == edges[j]) by {
            reveal(tree_signed);
        }
        assert(sign[ea[j] as int] * sign[eb[j] as int] == edges[j].sigma) by {
            reveal(tree_signed);
        }
        let a = ea[j] as int;
        let b = eb[j] as int;
        assert(nodes[a] == edges[j].row && nodes[b] == edges[j].column);
        assert(nodes.contains(edges[j].row) && nodes.contains(edges[j].column));
        assert(nodes.index_of(edges[j].row) == a);
        assert(nodes.index_of(edges[j].column) == b);
    }
    assert(balances(s_of, g));
}

/// Any balancing of the forest gives edge `k` the product of its propagated signs, so when
/// that product differs from its sign the forest with edge `k` is not balanced.
proof fn lemma_forest_rejects(
    edges: Seq<SignedEdge>,
    nodes: Seq<SymbolId>,
    ea: Seq<usize>,
    eb: Seq<usize>,
    sign: Seq<i8>,
    root: Seq<int>,
    forest: Seq<SignedEdge>,
    fk: Seq<int>,
    k: int,
)
    requires
        propagation_inv(edges, nodes, ea, eb, sign, root, forest),
        rooted(forest, nodes, sign, root),
        tree_signed(edges, ea, eb, forest, fk, sign),
        increasing_ids(nodes),
        forall|v: int| 0 <= v < sign.len() ==> #[trigger] sign[v] != 0,
        forall|j: int| 0 <= j < edges.len() ==> root[#[trigger] ea[j] as int] == root[eb[j] as int],
        0 <= k < edges.len(),
        sign[ea[k] as int] * sign[eb[k] as int] != edges[k].sigma,
    ensures
        !balanced(forest.push(edges[k])),
{
    lemma_increasing_distinct(nodes);
    assert forall|s: spec_fn(SymbolId) -> int| !balances(s, #[trigger] forest.push(edges[k])) by {
        if balances(s, forest.push(edges[k])) {
            let f2 = forest.push(edges[k]);
            assert(balances(s, forest)) by {
                assert forall|m: int| 0 <= m < forest.len() implies s((#[trigger] forest[m]).row) * s(forest[m].column)
                    == forest[m].sigma as int by {
                    assert(f2[m] == forest[m]);
                }
            }
            assert(f2[forest.len() as int] == edges[k]);
            let a = ea[k] as int;
            let b = eb[k] as int;
            let r = root[a];
            reveal(rooted);
            assert(sign[a] != 0 && sign[b] != 0);
            let pa = choose|p: Seq<SymbolId>| #[trigger] edge_path(forest, p) && p[0] == nodes[r] && p.last() == nodes[a];
            let pb = choose|p: Seq<SymbolId>| #[trigger] edge_path(forest, p) && p[0] == nodes[r] && p.last() == nodes[b];
            assert(0 <= r < nodes.len());
            assert(nodes.contains(nodes[r]));
            lemma_forest_forces(edges, nodes, ea, eb, forest, fk, sign, s, pa, pa.len() - 1);
            lemma_forest_forces(edges, nodes, ea, eb, forest, fk, sign, s, pb, pb.len() - 1);
            assert(nodes.index_of(nodes[a]) == a);
            assert(nodes.index_of(nodes[b]) == b);
            assert(nodes.index_of(nodes[r]) == r);
            let sa = s(nodes[a]);
            let sb = s(nodes[b]);
            let ga = sign[a] as int;
            let gb = sign[b] as int;
            let c = s(nodes[r]) * sign[r] as int;
            assert(sa * ga == c && sb * gb == c);
            assert(nodes[a] == edges[k].row && nodes[b] == edges[k].column);
            assert(sa * sb == edges[k].sigma as int);
            assert(sa == 1 || sa == -1);
            assert(sb == 1 || sb == -1);
            assert(sa * sb == ga * gb) by (nonlinear_arith)
                requires
                    sa * ga == sb * gb,
                    sa == 1 || sa == -1,
                    sb == 1 || sb == -1,
                    ga == 1 || ga == -1,
                    gb == 1 || gb == -1,
            ;
        }
    }
}

/// `reason` names the first condition of a sign gauge that fails. When the graph is
/// unbalanced it names an edge that conflicts with the signs of a spanning forest that agrees
/// with every earlier edge; which spanning forest (the breadth-first one from each least row,
/// edges taken in order) is not fixed here.
pub open spec fn gauge_failure(
    structure: Seq<BlockStructure>,
    symmetry: Seq<(SymbolId, FormSymmetry)>,
    rels: Seq<TransposeRelation>,
    reason: Seq<char>,
) -> bool {
    if exists|k: int| 0 <= k < structure.len() && convective_diagonal(#[trigger] structure[k]) {
        exists|k: int|
            0 <= k < structure.len() && convective_diagonal(#[trigger] structure[k]) && (forall|j: int|
                0 <= j < k ==> !convective_diagonal(#[trigger] structure[j])) && reason == convective_reason(
                structure[k].row,
            )
    } else if exists|k: int| 0 <= k < symmetry.len() && (#[trigger] symmetry[k]).1 != FormSymmetry::Symmetric {
        exists|k: int|
            0 <= k < symmetry.len() && (#[trigger] symmetry[k]).1 != FormSymmetry::Symmetric && (forall|j: int|
                0 <= j < k ==> (#[trigger] symmetry[j]).1 == FormSymmetry::Symmetric) && reason == asymmetric_reason(
                symmetry[k].0,
                symmetry[k].1,
            )
    } else if exists|r: SymbolId, c: SymbolId| #[trigger] one_sided(structure, r, c) {
        exists|r: SymbolId, c: SymbolId|
            #[trigger] one_sided(structure, r, c) && (forall|r2: SymbolId, c2: SymbolId|
                #[trigger] one_sided(structure, r2, c2) ==> pair_le(r, c, r2, c2)) && reason == one_sided_reason(r, c)
    } else if exists|k: int| 0 <= k < rels.len() && undecided_upper(#[trigger] rels[k]) {
        exists|k: int|
            0 <= k < rels.len() && undecided_upper(#[trigger] rels[k]) && (forall|j: int|
                0 <= j < k ==> !undecided_upper(#[trigger] rels[j])) && reason == undecided_reason(
                rels[k].row,
                rels[k].column,
            )
    } else {
        exists|k: int, t: Seq<SignedEdge>|
            0 <= k < upper_edges(rels).len() && #[trigger] forest_conflict(structure, upper_edges(rels), t, k)
                && reason == unbalanced_reason(
                upper_edges(rels)[k].row,
                upper_edges(rels)[k].column,
                upper_edges(rels)[k].sigma as int,
                -upper_edges(rels)[k].sigma,
            )
    }
}

/// The signed-graph gauge: rows are nodes, decided two-sided off-diagonal pairs are edges
/// signed by `σ`. A gauge exists exactly when the structural conditions hold and some `±1`
/// per row reproduces every edge sign as a product; otherwise the first failing condition is
/// given as the reason.
#[verifier::spinoff_prover]
pub fn derive_sign_gauge(
    structure: &[BlockStructure],
    block_symmetry: &[(SymbolId, FormSymmetry)],
    transpose_relation: &[TransposeRelation],
) -> (r: (Option<SignGauge>, Option<String>))
    requires
        forall|k: int|
            0 <= k < transpose_relation@.len() && (#[trigger] transpose_relation@[k]).sigma is Some ==> (
            transpose_relation@[k].sigma == Some(1i8) || transpose_relation@[k].sigma == Some(-1i8)),
        forall|k: int|
            0 <= k < transpose_relation@.len() && (#[trigger] transpose_relation@[k]).row.0
                < transpose_relation@[k].column.0 ==> is_row(structure@, transpose_relation@[k].row) && is_row(
                structure@,
                transpose_relation@[k].column,
            ),
    ensures
        (r.0 is Some) == (r.1 is None),
        (r.0 is Some) == (gauge_admissible(structure@, block_symmetry@, transpose_relation@) && balanced(
            upper_edges(transpose_relation@),
        )),
        r.0 is Some ==> gauge_certifies(r.0->Some_0, structure@, transpose_relation@),
        r.1 is Some ==> gauge_failure(structure@, block_symmetry@, transpose_relation@, r.1->Some_0@),
{
    let ghost rels = transpose_relation@;
    match first_convective(structure) {
        Some(k) => {
            return (None, Some(convective_message(structure[k].row)));
        },
        None => {},
    }
    match first_asymmetric(block_symmetry) {
        Some(k) => {
            return (None, Some(asymmetric_message(block_symmetry[k].0, block_symmetry[k].1)));
        },
        None => {},
    }
    match least_one_sided(structure) {
        Some((row, column)) => {
            return (None, Some(one_sided_message(row, column)));
        },
        None => {},
    }
    let edges = match collect_edges(transpose_relation) {
        Ok(edges) => edges,
        Err(k) => {
            return (None, Some(undecided_message(transpose_relation[k].row, transpose_relation[k].column)));
        },
    };
    proof {
        assert(gauge_admissible(structure@, block_symmetry@, rels));
    }
    let nodes = row_ids(structure);
    let mut ea: Vec<usize> = Vec::new();
    let mut eb: Vec<usize> = Vec::new();
    let mut k: usize = 0;
    while k < edges.len()
        invariant
            edges@ == upper_edges(rels),
            rels == transpose_relation@,
            forall|j: int| 0 <= j < rels.len() ==> !undecided_upper(#[trigger] rels[j]),
            increasing_ids(nodes@),
            forall|x: SymbolId| #[trigger] nodes@.contains(x) <==> is_row(structure@, x),
            forall|j: int|
                0 <= j < rels.len() && (#[trigger] rels[j]).sigma is Some ==> (rels[j].sigma == Some(1i8)
                    || rels[j].sigma == Some(-1i8)),
            forall|j: int|
                0 <= j < rels.len() && (#[trigger] rels[j]).row.0 < rels[j].column.0 ==> is_row(structure@, rels[j].row)
                    && is_row(structure@, rels[j].column),
            k <= edges@.len(),
            ea@.len() == k,
            eb@.len() == k,
            forall|j: int|
                0 <= j < k ==> (#[trigger] ea@[j] as int) < nodes@.len() && (eb@[j] as int) < nodes@.len()
                    && nodes@[ea@[j] as int] == edges@[j].row && nodes@[eb@[j] as int] == edges@[j].column && ea@[j]
                    != eb@[j] && (edges@[j].sigma == 1 || edges@[j].sigma == -1),
        decreases edges@.len() - k,
    {
        proof {
            lemma_upper_edge_source(rels, k as int);
        }
        let a = position(&nodes, edges[k].row);
        let b = position(&nodes, edges[k].column);
        let ghost ea0 = ea@;
        let ghost eb0 = eb@;
        ea.push(a);
        eb.push(b);
        proof {
            let e = edges@[k as int];
            let j0 = choose|j: int|
                0 <= j < rels.len() && (#[trigger] rels[j]).row == e.row && rels[j].column == e.column
                    && rels[j].row.0 < rels[j].column.0 && rels[j].sigma == Some(e.sigma);
            assert(e.row.0 < e.column.0);
            assert(e.sigma == 1 || e.sigma == -1);
            assert forall|j: int|
                0 <= j < k + 1 implies (#[trigger] ea@[j] as int) < nodes@.len() && (eb@[j] as int) < nodes@.len()
                    && nodes@[ea@[j] as int] == edges@[j].row && nodes@[eb@[j] as int] == edges@[j].column && ea@[j]
                    != eb@[j] && (edges@[j].sigma == 1 || edges@[j].sigma == -1) by {
                if j < k {
                    assert(ea@[j] == ea0[j] && eb@[j] == eb0[j]);
                }
            }
        }
        k = k + 1;
    }
    proof {
        assert forall|j: int| 0 <= j < edges@.len() implies (#[trigger] ea@[j] as int) < nodes@.len() && (eb@[j] as int)
            < nodes@.len() && nodes@[ea@[j] as int] == edges@[j].row && nodes@[eb@[j] as int] == edges@[j].column
            && ea@[j] != eb@[j] && (edges@[j].sigma == 1 || edges@[j].sigma == -1) by {}
        assert(edge_joins(edges@, nodes@, ea@, eb@));
    }
    let (sign, forest, Ghost(root), Ghost(fk)) = propagate_signs(&nodes, &edges, &ea, &eb);
    let mut k: usize = 0;
    while k < edges.len()
        invariant
            edges@ == upper_edges(rels),
            rels == transpose_relation@,
            gauge_admissible(structure@, block_symmetry@, rels),
            propagation_inv(edges@, nodes@, ea@, eb@, sign@, root, forest@),
            rooted(forest@, nodes@, sign@, root),
            tree_signed(edges@, ea@, eb@, forest@, fk, sign@),
            increasing_ids(nodes@),
            forall|x: SymbolId| #[trigger] nodes@.contains(x) <==> is_row(structure@, x),
            forall|v: int| 0 <= v < sign@.len() ==> #[trigger] sign@[v] != 0,
            forall|j: int| 0 <= j < edges@.len() ==> root[#[trigger] ea@[j] as int] == root[eb@[j] as int],
            k <= edges@.len(),
            forall|j: int|
                0 <= j < k ==> sign@[#[trigger] ea@[j] as int] * sign@[eb@[j] as int] == edges@[j].sigma,
        decreases edges@.len() - k,
    {
        let product: i8 = sign[ea[k]] * sign[eb[k]];
        if product != edges[k].sigma {
            proof {
                lemma_unbalanced_witness(structure@, edges@, nodes@, ea@, eb@, sign@, root, forest@, fk, k as int);
                let e = edges@[k as int];
                assert(product as int == -(e.sigma as int));
                assert(e == upper_edges(rels)[k as int]);
                assert(!balanced(upper_edges(rels))) by {
                    if balanced(upper_edges(rels)) {
                        let s = choose|s: spec_fn(SymbolId) -> int| #[trigger] balances(s, upper_edges(rels));
                        let f2 = forest@.push(e);
                        assert forall|m: int| 0 <= m < f2.len() implies s((#[trigger] f2[m]).row) * s(f2[m].column)
                            == f2[m].sigma as int by {
                            if m < forest@.len() {
                                assert(upper_edges(rels).contains(forest@[m]));
                            }
                        }
                        assert(balances(s, f2));
                    }
                }
                assert(forest_conflict(structure@, upper_edges(rels), forest@, k as int));
            }
            return (
                None,
                Some(unbalanced_message(edges[k].row, edges[k].column, edges[k].sigma, product)),
            );
        }
        k = k + 1;
    }
    let mut signs: Vec<(SymbolId, i8)> = Vec::new();
    let mut i: usize = 0;
    while i < nodes.len()
        invariant
            sign@.len() == nodes@.len(),
            i <= nodes@.len(),
            signs@.len() == i,
            forall|j: int| 0 <= j < i ==> #[trigger] signs@[j] == (nodes@[j], sign@[j]),
        decreases nodes@.len() - i,
    {
        signs.push((nodes[i], sign[i]));
        i = i + 1;
    }
    let spanning_forest = sort_edges(forest);
    proof {
        lemma_propagated_balance(nodes@, edges@, ea@, eb@, sign@);
        assert(spanning_forest@.to_multiset() == forest@.to_multiset());
        lemma_gauge_parts(structure@, rels, nodes@, ea@, eb@, sign@, root, forest@, spanning_forest@, signs@);
    }
    let gauge = SignGauge { signs, proof: SignedGraphBalance { edges, spanning_forest } };
    (Some(gauge), None)
}

} // verus!
