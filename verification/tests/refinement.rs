use slitherlink::grid::Grid;
use slitherlink::grid::SolveError;
use slitherlink::encode::Constraint;
use slitherlink::refine::Outcome;
use slitherlink::refine::Refinement;
use slitherlink::refine::Verdict;
use slitherlink::refine::verdict_check;

#[test]
fn verdicts_map_to_the_error_taxonomy() {
    assert!(verdict_check(Verdict::Sat).is_ok());
    assert_eq!(verdict_check(Verdict::Unsat), Err(SolveError::Unsatisfiable));
    assert_eq!(verdict_check(Verdict::Unknown), Err(SolveError::Indeterminate));
}

fn two_square_model() -> Vec<bool> {
    let mut m = vec![false; 10];
    for e in [0usize, 3, 6, 7, 2, 5, 8, 9] {
        m[e] = true;
    }
    m
}

fn band_model() -> Vec<bool> {
    // the 3x1 grid's outer perimeter: all six horizontal edges plus the two
    // outermost vertical ones
    let mut m = vec![false; 10];
    for e in [0usize, 1, 2, 3, 4, 5, 6, 9] {
        m[e] = true;
    }
    m
}

#[test]
fn refinement_blocks_the_first_minimal_cycle() {
    let g = Grid::new(3, 1, vec![None, None, None]).unwrap();
    let mut state = Refinement::new(g, 10);
    let base_len = state.constraints.len();
    let m = two_square_model();
    let outcome = state.on_model(&m).unwrap();
    assert!(matches!(outcome, Outcome::Refined));
    // the constraint set strictly grew by exactly the blocking clause for
    // the first minimal cycle
    assert_eq!(state.constraints.len(), base_len + 1);
    assert_eq!(state.iterations, 1);
    match state.constraints.last().unwrap() {
        Constraint::NotAll { vars } => assert_eq!(vars.clone(), vec![0, 7, 3, 6]),
        _ => panic!("expected a blocking constraint"),
    }
}

#[test]
fn refinement_rejects_a_model_violating_a_blocking_constraint() {
    let g = Grid::new(3, 1, vec![None, None, None]).unwrap();
    let mut state = Refinement::new(g, 10);
    let m = two_square_model();
    assert!(matches!(state.on_model(&m).unwrap(), Outcome::Refined));
    // the same model now violates the freshly added blocking constraint, so
    // an identical blocking constraint can never be asserted twice
    assert!(matches!(state.on_model(&m), Err(SolveError::InvalidModel)));
    assert_eq!(state.iterations, 1);
}

#[test]
fn refinement_accepts_a_single_covering_cycle() {
    let g = Grid::new(3, 1, vec![None, None, None]).unwrap();
    let mut state = Refinement::new(g, 10);
    let m = band_model();
    match state.on_model(&m).unwrap() {
        Outcome::Solved { cycles } => {
            assert_eq!(cycles, vec![vec![0, 1, 2, 9, 5, 4, 3, 6]]);
        },
        Outcome::Refined => panic!("a single covering cycle must end the search"),
    }
}

#[test]
fn refinement_reports_an_exhausted_iteration_budget() {
    let g = Grid::new(3, 1, vec![None, None, None]).unwrap();
    let mut state = Refinement::new(g, 0);
    // a spurious two-cycle model needs a refinement round, but none is left
    assert!(matches!(state.on_model(&two_square_model()), Err(SolveError::Inconclusive)));
    // a single covering cycle still goes through: no round is needed
    let mut state = Refinement::new(Grid::new(3, 1, vec![None, None, None]).unwrap(), 0);
    assert!(matches!(state.on_model(&band_model()).unwrap(), Outcome::Solved { .. }));
}

#[test]
fn refinement_accepts_an_empty_model_of_an_unclued_grid() {
    let g = Grid::new(2, 2, vec![None, None, None, None]).unwrap();
    let mut state = Refinement::new(g, 10);
    let m = vec![false; 12];
    match state.on_model(&m).unwrap() {
        Outcome::Solved { cycles } => assert!(cycles.is_empty()),
        Outcome::Refined => panic!("an empty model needs no refinement"),
    }
}

#[test]
fn refinement_rejects_an_unsatisfying_model() {
    // a full unit square violates this cell's clue of 2
    let g = Grid::new(1, 1, vec![Some(2)]).unwrap();
    let mut state = Refinement::new(g, 10);
    let m = vec![true, true, true, true];
    assert!(matches!(state.on_model(&m), Err(SolveError::InvalidModel)));
}
