use scientia::semantic::SymbolId;
use scientia::structure::{
    derive_sign_gauge, merge_tangent, tangent_rank, BlockClass, BlockStructure, FormSymmetry,
    PropertyTangent, SignedEdge, TransposeRelation,
};

fn block(row: u32, column: u32, class: BlockClass) -> BlockStructure {
    BlockStructure {
        row: SymbolId(row),
        column: SymbolId(column),
        present: true,
        class,
    }
}

fn relation(row: u32, column: u32, sigma: Option<i8>) -> TransposeRelation {
    TransposeRelation {
        row: SymbolId(row),
        column: SymbolId(column),
        sigma,
    }
}

fn symmetric(rows: &[u32]) -> Vec<(SymbolId, FormSymmetry)> {
    rows.iter()
        .map(|&r| (SymbolId(r), FormSymmetry::Symmetric))
        .collect()
}

/// A saddle-point pair: the off-diagonal blocks are negative transposes of each other.
#[test]
fn saddle_point_pair_gets_opposite_signs() {
    let structure = vec![
        block(0, 0, BlockClass::Diffusive),
        block(0, 1, BlockClass::Coupling),
        block(1, 0, BlockClass::Coupling),
    ];
    let relations = vec![relation(0, 1, Some(-1)), relation(1, 0, Some(-1))];
    let (gauge, reason) = derive_sign_gauge(&structure, &symmetric(&[0]), &relations);
    assert_eq!(reason, None);
    let gauge = gauge.unwrap();
    assert_eq!(gauge.signs, vec![(SymbolId(0), 1), (SymbolId(1), -1)]);
    assert_eq!(
        gauge.proof.edges,
        vec![SignedEdge {
            row: SymbolId(0),
            column: SymbolId(1),
            sigma: -1
        }]
    );
    assert_eq!(gauge.proof.spanning_forest, gauge.proof.edges);
}

#[test]
fn balanced_triangle_and_isolated_row() {
    let structure = vec![
        block(0, 1, BlockClass::Coupling),
        block(1, 0, BlockClass::Coupling),
        block(1, 2, BlockClass::Coupling),
        block(2, 1, BlockClass::Coupling),
        block(0, 2, BlockClass::Coupling),
        block(2, 0, BlockClass::Coupling),
        block(3, 3, BlockClass::Mass),
    ];
    let relations = vec![
        relation(0, 1, Some(-1)),
        relation(1, 2, Some(-1)),
        relation(0, 2, Some(1)),
    ];
    let (gauge, reason) = derive_sign_gauge(&structure, &symmetric(&[3]), &relations);
    assert_eq!(reason, None);
    let gauge = gauge.unwrap();
    assert_eq!(
        gauge.signs,
        vec![
            (SymbolId(0), 1),
            (SymbolId(1), -1),
            (SymbolId(2), 1),
            (SymbolId(3), 1)
        ]
    );
    for edge in &gauge.proof.edges {
        let sign = |id: SymbolId| gauge.signs.iter().find(|(r, _)| *r == id).unwrap().1;
        assert_eq!(sign(edge.row) * sign(edge.column), edge.sigma);
    }
    assert_eq!(gauge.proof.spanning_forest.len(), 2);
    let mut sorted = gauge.proof.spanning_forest.clone();
    sorted.sort();
    assert_eq!(sorted, gauge.proof.spanning_forest);
}

#[test]
fn unbalanced_triangle_has_no_gauge() {
    let structure = vec![
        block(0, 1, BlockClass::Coupling),
        block(1, 0, BlockClass::Coupling),
        block(1, 2, BlockClass::Coupling),
        block(2, 1, BlockClass::Coupling),
        block(0, 2, BlockClass::Coupling),
        block(2, 0, BlockClass::Coupling),
    ];
    let relations = vec![
        relation(0, 1, Some(-1)),
        relation(1, 2, Some(-1)),
        relation(0, 2, Some(-1)),
    ];
    let (gauge, reason) = derive_sign_gauge(&structure, &[], &relations);
    assert!(gauge.is_none());
    assert_eq!(
        reason.unwrap(),
        "signed row graph is unbalanced: rows 1 and 2 need σ = -1 but the spanning-forest signs give 1"
    );
}

#[test]
fn convective_diagonal_blocks_a_gauge() {
    let structure = vec![
        block(0, 0, BlockClass::Diffusive),
        block(4, 4, BlockClass::Convective),
    ];
    let (gauge, reason) = derive_sign_gauge(&structure, &symmetric(&[0]), &[]);
    assert!(gauge.is_none());
    assert_eq!(
        reason.unwrap(),
        "diagonal block of row 4 is convective; no row orientation makes it symmetric"
    );
}

#[test]
fn nonsymmetric_diagonal_blocks_a_gauge() {
    let structure = vec![block(2, 2, BlockClass::Diffusive)];
    let symmetry = vec![
        (SymbolId(1), FormSymmetry::Symmetric),
        (SymbolId(2), FormSymmetry::Nonsymmetric),
        (SymbolId(3), FormSymmetry::Unknown),
    ];
    let (gauge, reason) = derive_sign_gauge(&structure, &symmetry, &[]);
    assert!(gauge.is_none());
    assert_eq!(
        reason.unwrap(),
        "diagonal block of row 2 is Nonsymmetric; a sign gauge needs every present diagonal block Symmetric"
    );
}

#[test]
fn one_sided_coupling_blocks_a_gauge() {
    let structure = vec![
        block(3, 5, BlockClass::Coupling),
        block(1, 2, BlockClass::Coupling),
        block(5, 3, BlockClass::Coupling),
        block(1, 4, BlockClass::Coupling),
    ];
    let (gauge, reason) = derive_sign_gauge(&structure, &[], &[]);
    assert!(gauge.is_none());
    assert_eq!(
        reason.unwrap(),
        "coupling from row 1 to column 2 is one-sided; no row orientation makes it symmetric"
    );
}

#[test]
fn undecided_relation_blocks_a_gauge() {
    let structure = vec![
        block(0, 1, BlockClass::Coupling),
        block(1, 0, BlockClass::Coupling),
    ];
    let relations = vec![relation(1, 0, None), relation(0, 1, None)];
    let (gauge, reason) = derive_sign_gauge(&structure, &[], &relations);
    assert!(gauge.is_none());
    assert_eq!(
        reason.unwrap(),
        "transpose relation between rows 0 and 1 is undecided"
    );
}

#[test]
fn absent_blocks_do_not_count() {
    let mut hidden = block(0, 1, BlockClass::Convective);
    hidden.present = false;
    let structure = vec![hidden, block(0, 0, BlockClass::Mass)];
    let (gauge, reason) = derive_sign_gauge(&structure, &symmetric(&[0]), &[]);
    assert_eq!(reason, None);
    assert_eq!(gauge.unwrap().signs, vec![(SymbolId(0), 1)]);
}

#[test]
fn tangents_merge_to_the_strongest() {
    assert_eq!(tangent_rank(PropertyTangent::Inlined), 2);
    assert_eq!(tangent_rank(PropertyTangent::External), 1);
    assert_eq!(tangent_rank(PropertyTangent::Frozen), 0);
    assert_eq!(
        merge_tangent(PropertyTangent::Frozen, PropertyTangent::External),
        PropertyTangent::External
    );
    assert_eq!(
        merge_tangent(PropertyTangent::Inlined, PropertyTangent::External),
        PropertyTangent::Inlined
    );
    assert_eq!(
        merge_tangent(PropertyTangent::Frozen, PropertyTangent::Frozen),
        PropertyTangent::Frozen
    );
}

#[test]
fn two_symmetric_rows_have_one_forest_edge() {
    let structure = vec![
        block(1, 1, BlockClass::Diffusive),
        block(1, 2, BlockClass::Coupling),
        block(2, 1, BlockClass::Coupling),
        block(2, 2, BlockClass::Diffusive),
    ];
    let relations = vec![relation(1, 2, Some(-1)), relation(2, 1, Some(-1))];
    let (gauge, reason) = derive_sign_gauge(&structure, &symmetric(&[1, 2]), &relations);
    assert_eq!(reason, None);
    let gauge = gauge.unwrap();
    assert_eq!(gauge.signs, vec![(SymbolId(1), 1), (SymbolId(2), -1)]);
    let e = SignedEdge {
        row: SymbolId(1),
        column: SymbolId(2),
        sigma: -1,
    };
    assert_eq!(gauge.proof.edges, vec![e]);
    assert_eq!(gauge.proof.spanning_forest, vec![e]);
}

#[test]
fn unbalanced_reason_names_the_first_edge_the_forest_rejects() {
    let structure = vec![
        block(1, 2, BlockClass::Coupling),
        block(1, 3, BlockClass::Coupling),
        block(2, 1, BlockClass::Coupling),
        block(2, 3, BlockClass::Coupling),
        block(3, 1, BlockClass::Coupling),
        block(3, 2, BlockClass::Coupling),
    ];
    let relations = vec![
        relation(1, 2, Some(-1)),
        relation(1, 3, Some(-1)),
        relation(2, 3, Some(-1)),
    ];
    let (gauge, reason) = derive_sign_gauge(&structure, &[], &relations);
    assert!(gauge.is_none());
    assert_eq!(
        reason.unwrap(),
        "signed row graph is unbalanced: rows 2 and 3 need σ = -1 but the spanning-forest signs give 1"
    );
}

#[test]
fn forest_has_one_edge_per_row_beyond_each_component() {
    // Two components: {0, 1, 2} joined by three balanced edges, and {5, 6}.
    let structure = vec![
        block(0, 1, BlockClass::Coupling),
        block(1, 0, BlockClass::Coupling),
        block(1, 2, BlockClass::Coupling),
        block(2, 1, BlockClass::Coupling),
        block(0, 2, BlockClass::Coupling),
        block(2, 0, BlockClass::Coupling),
        block(5, 6, BlockClass::Coupling),
        block(6, 5, BlockClass::Coupling),
    ];
    let relations = vec![
        relation(0, 1, Some(-1)),
        relation(1, 2, Some(-1)),
        relation(0, 2, Some(1)),
        relation(5, 6, Some(1)),
    ];
    let (gauge, reason) = derive_sign_gauge(&structure, &[], &relations);
    assert_eq!(reason, None);
    let gauge = gauge.unwrap();
    assert_eq!(
        gauge.signs,
        vec![
            (SymbolId(0), 1),
            (SymbolId(1), -1),
            (SymbolId(2), 1),
            (SymbolId(5), 1),
            (SymbolId(6), 1)
        ]
    );
    assert_eq!(gauge.proof.spanning_forest.len(), 5 - 2);
}
