use scientia::structural::{
    compile_schedule, compile_schedule_without_tearing, maximum_matching, BlockKind,
    IncidenceSystem, StructuralCompileError,
};

fn incidence(n_variables: usize, rows: &[&[usize]]) -> IncidenceSystem {
    IncidenceSystem {
        variables: (0..n_variables).map(|i| format!("x{i}")).collect(),
        rows: rows.iter().map(|row| row.to_vec()).collect(),
    }
}

#[test]
fn lower_triangular_chain_is_explicit_in_order() {
    let system = incidence(3, &[&[0], &[0, 1], &[1, 2]]);
    let schedule = compile_schedule(&system).unwrap();
    assert_eq!(schedule.blocks.len(), 3);
    assert!(schedule
        .blocks
        .iter()
        .all(|b| b.kind == BlockKind::Explicit));
    assert_eq!(schedule.blocks[0].solved_vars, vec![0]);
    assert_eq!(schedule.blocks[1].solved_vars, vec![1]);
    assert_eq!(schedule.blocks[2].solved_vars, vec![2]);
}

#[test]
fn dense_loop_is_torn_deterministically() {
    let system = incidence(3, &[&[0, 1, 2], &[0, 1, 2], &[0, 1, 2]]);
    let schedule = compile_schedule(&system).unwrap();
    assert_eq!(schedule.blocks.len(), 1);
    let block = &schedule.blocks[0];
    assert_eq!(block.kind, BlockKind::Torn);
    assert_eq!(block.tearing_vars, vec![0, 1]);
    assert_eq!(block.solved_vars.len(), 1);
    assert_eq!(block.all_variables(), vec![0, 1, 2]);
    assert_eq!(block.equations.len(), 3);
}

#[test]
fn coupled_solver_can_keep_raw_algebraic_loop() {
    let system = incidence(2, &[&[0, 1], &[0, 1]]);
    let schedule = compile_schedule_without_tearing(&system).unwrap();
    assert_eq!(schedule.blocks[0].kind, BlockKind::AlgebraicLoop);
    assert_eq!(schedule.blocks[0].solved_vars, vec![0, 1]);
}

#[test]
fn rlc_shape_has_explicit_loop_explicit_blocks() {
    let system = incidence(4, &[&[0], &[0, 1, 2], &[1, 2], &[2, 3]]);
    let schedule = compile_schedule(&system).unwrap();
    assert_eq!(schedule.blocks.len(), 3);
    assert_eq!(schedule.blocks[0].kind, BlockKind::Explicit);
    assert_eq!(schedule.blocks[1].kind, BlockKind::Torn);
    assert_eq!(schedule.blocks[1].all_variables(), vec![1, 2]);
    assert_eq!(schedule.blocks[2].kind, BlockKind::Explicit);
}

#[test]
fn structural_singularity_reports_unmatched_rows_and_columns() {
    let system = incidence(2, &[&[0], &[0]]);
    let error = compile_schedule(&system).unwrap_err();
    match error {
        StructuralCompileError::StructurallySingular {
            unmatched_equations,
            unmatched_variables,
        } => {
            assert_eq!(unmatched_equations.len(), 1);
            assert_eq!(unmatched_variables, vec![1]);
        }
        other => panic!("unexpected error: {other:?}"),
    }
}

#[test]
fn non_square_system_is_rejected_with_its_dimensions() {
    let system = incidence(3, &[&[0, 1], &[1, 2]]);
    let error = compile_schedule(&system).unwrap_err();
    assert_eq!(
        error,
        StructuralCompileError::NotSquare {
            n_equations: 2,
            n_variables: 3
        }
    );
    let error = compile_schedule_without_tearing(&system).unwrap_err();
    assert_eq!(
        error,
        StructuralCompileError::NotSquare {
            n_equations: 2,
            n_variables: 3
        }
    );
}

#[test]
fn empty_system_has_an_empty_schedule() {
    let system = incidence(0, &[]);
    let schedule = compile_schedule(&system).unwrap();
    assert!(schedule.blocks.is_empty());
    assert_eq!(schedule.n_equations(), 0);
    assert_eq!(schedule.n_variables(), 0);
}

#[test]
fn schedule_reports_system_dimensions() {
    let system = incidence(3, &[&[0], &[0, 1], &[1, 2]]);
    let schedule = compile_schedule(&system).unwrap();
    assert_eq!(schedule.n_equations(), 3);
    assert_eq!(schedule.n_variables(), 3);
}

/// Every equation and every variable lands in exactly one block, and every variable an
/// equation mentions is determined by its own block or an earlier one.
fn assert_partitioned_and_lower_triangular(system: &IncidenceSystem, tearing: bool) {
    let schedule = if tearing {
        compile_schedule(system).unwrap()
    } else {
        compile_schedule_without_tearing(system).unwrap()
    };
    let n = system.rows.len();
    let mut equation_block = vec![usize::MAX; n];
    let mut variable_block = vec![usize::MAX; n];
    for (b, block) in schedule.blocks.iter().enumerate() {
        assert_eq!(
            block.equations.len(),
            block.solved_vars.len() + block.tearing_vars.len()
        );
        for &e in &block.equations {
            assert_eq!(equation_block[e], usize::MAX);
            equation_block[e] = b;
        }
        for &v in block.solved_vars.iter().chain(block.tearing_vars.iter()) {
            assert_eq!(variable_block[v], usize::MAX);
            variable_block[v] = b;
        }
    }
    assert!(equation_block.iter().all(|&b| b != usize::MAX));
    assert!(variable_block.iter().all(|&b| b != usize::MAX));
    for (e, row) in system.rows.iter().enumerate() {
        for &v in row {
            assert!(variable_block[v] <= equation_block[e]);
        }
    }
}

#[test]
fn schedules_partition_and_are_lower_triangular() {
    let systems = [
        incidence(3, &[&[0], &[0, 1], &[1, 2]]),
        incidence(3, &[&[0, 1, 2], &[0, 1, 2], &[0, 1, 2]]),
        incidence(4, &[&[0], &[0, 1, 2], &[1, 2], &[2, 3]]),
        incidence(5, &[&[3, 4], &[0, 4], &[1, 0], &[2, 1], &[4, 2, 3]]),
        incidence(4, &[&[2], &[3, 0], &[0, 1], &[1, 3, 2]]),
    ];
    for system in &systems {
        assert_partitioned_and_lower_triangular(system, true);
        assert_partitioned_and_lower_triangular(system, false);
    }
}

#[test]
fn torn_block_assignments_are_solved_in_order() {
    let system = incidence(5, &[&[3, 4], &[0, 4], &[1, 0], &[2, 1], &[4, 2, 3]]);
    let schedule = compile_schedule(&system).unwrap();
    for block in &schedule.blocks {
        if block.kind != BlockKind::Torn {
            continue;
        }
        let block_vars = block.all_variables();
        let mut known: Vec<usize> = block.tearing_vars.clone();
        for (k, &e) in block.equations[..block.solved_vars.len()].iter().enumerate() {
            let v = block.solved_vars[k];
            assert!(system.rows[e].contains(&v));
            for &w in &system.rows[e] {
                if block_vars.contains(&w) && w != v {
                    assert!(known.contains(&w));
                }
            }
            known.push(v);
        }
    }
}

#[test]
fn cycle_forms_one_torn_block_with_one_tearing_variable() {
    let system = incidence(3, &[&[0, 2], &[1, 0], &[2, 1]]);
    let schedule = compile_schedule(&system).unwrap();
    assert_eq!(schedule.blocks.len(), 1);
    assert_eq!(schedule.blocks[0].kind, BlockKind::Torn);
    assert_eq!(schedule.blocks[0].tearing_vars.len(), 1);
    assert_eq!(schedule.blocks[0].all_variables(), vec![0, 1, 2]);
}

#[test]
fn maximum_matching_of_singular_system_leaves_one_unmatched() {
    let system = incidence(2, &[&[0], &[0]]);
    let matching = maximum_matching(&system);
    assert_eq!(matching.cardinality(), 1);
    assert!(!matching.is_perfect());
    assert_eq!(matching.unmatched_equations(), vec![1]);
    assert_eq!(matching.unmatched_variables(), vec![1]);
}

#[test]
fn maximum_matching_finds_augmenting_paths() {
    // A greedy first pass matches equation 0 to variable 0; the maximum needs it on 1.
    let system = incidence(3, &[&[0, 1], &[0], &[1, 2]]);
    let matching = maximum_matching(&system);
    assert_eq!(matching.cardinality(), 3);
    assert!(matching.is_perfect());
    assert_eq!(matching.equation_to_variable[1], Some(0));
    for (e, v) in matching.equation_to_variable.iter().enumerate() {
        let v = v.unwrap();
        assert!(system.rows[e].contains(&v));
        assert_eq!(matching.variable_to_equation[v], Some(e));
    }
}

#[test]
fn incidence_dimensions() {
    let system = incidence(4, &[&[0, 1], &[2]]);
    assert_eq!(system.n_equations(), 2);
    assert_eq!(system.n_variables(), 4);
}

#[test]
fn tearing_keeps_the_block_partition() {
    let systems = [
        incidence(4, &[&[0], &[0, 1, 2], &[1, 2], &[2, 3]]),
        incidence(3, &[&[0, 1, 2], &[0, 1, 2], &[0, 1, 2]]),
        incidence(5, &[&[0, 4], &[0, 1], &[1, 2], &[2, 0], &[3, 4]]),
    ];
    for system in &systems {
        let torn = compile_schedule(system).unwrap();
        let raw = compile_schedule_without_tearing(system).unwrap();
        let sets = |schedule: &scientia::structural::Schedule| {
            let mut sets: Vec<Vec<usize>> = schedule
                .blocks
                .iter()
                .map(|block| {
                    let mut equations = block.equations.clone();
                    equations.sort();
                    equations
                })
                .collect();
            sets.sort();
            sets
        };
        assert_eq!(sets(&torn), sets(&raw));
    }
}

#[test]
fn tearing_picks_the_most_incident_unknown() {
    // 0 and 1 each appear in three equations, 2 in two: causalization stalls at once, and the
    // tie between 0 and 1 goes to the smaller.
    let system = incidence(3, &[&[0, 1, 2], &[0, 1], &[0, 1, 2]]);
    let schedule = compile_schedule(&system).unwrap();
    assert_eq!(schedule.blocks.len(), 1);
    let block = &schedule.blocks[0];
    assert_eq!(block.kind, BlockKind::Torn);
    assert_eq!(block.tearing_vars[0], 0);
}
