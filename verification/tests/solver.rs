use slitherlink::backend::solve;
use slitherlink::grid::Grid;
use slitherlink::grid::SolveError;

fn count_true(m: &[bool], edges: &[usize]) -> usize {
    edges.iter().filter(|&&e| m[e]).count()
}

#[test]
fn single_cell_with_clue_four_draws_its_square() {
    let g = Grid::new(1, 1, vec![Some(4)]).unwrap();
    // a budget of one round shows no elimination is needed
    let sol = solve(g, 1).unwrap();
    assert_eq!(sol.assignment, vec![true, true, true, true]);
    assert_eq!(sol.cycles.len(), 1);
    assert_eq!(sol.cycles[0].len(), 4);
}

#[test]
fn two_by_two_of_twos_solves_to_the_outer_perimeter() {
    let g = Grid::new(2, 2, vec![Some(2), Some(2), Some(2), Some(2)]).unwrap();
    let sol = solve(g, 100).unwrap();
    assert_eq!(sol.cycles.len(), 1);
    assert_eq!(sol.cycles[0].len(), 8);
    let perimeter = [0usize, 1, 4, 5, 6, 8, 9, 11];
    for e in 0..sol.assignment.len() {
        assert_eq!(sol.assignment[e], perimeter.contains(&e));
    }
    // every clue cell really has two of its boundary edges drawn
    let m = &sol.assignment;
    assert_eq!(count_true(m, &[0, 6, 2, 7]), 2);
    assert_eq!(count_true(m, &[1, 7, 3, 8]), 2);
    assert_eq!(count_true(m, &[2, 9, 4, 10]), 2);
    assert_eq!(count_true(m, &[3, 10, 5, 11]), 2);
}

#[test]
fn a_zero_clue_keeps_all_its_edges_off() {
    // the loop is the unit square of the clue-4 cell; the clue-0 cell's four
    // boundary edges must all stay off
    let g = Grid::new(2, 2, vec![Some(4), None, None, Some(0)]).unwrap();
    let sol = solve(g, 100).unwrap();
    assert_eq!(sol.cycles.len(), 1);
    assert_eq!(sol.cycles[0].len(), 4);
    let m = &sol.assignment;
    assert_eq!(count_true(m, &[3, 10, 5, 11]), 0);
    assert_eq!(count_true(m, &[0, 6, 2, 7]), 4);
}

#[test]
fn an_impossible_clue_is_reported_unsatisfiable() {
    // a single cell with clue 1 contradicts the vertex-parity constraints,
    // so the very first satisfiability check fails fatally
    let g = Grid::new(1, 1, vec![Some(1)]).unwrap();
    assert_eq!(solve(g, 100).err(), Some(SolveError::Unsatisfiable));
}

#[test]
fn vertices_of_a_solution_have_even_degree() {
    let g = Grid::new(2, 2, vec![Some(2), Some(2), Some(2), Some(2)]).unwrap();
    let sol = solve(g, 100).unwrap();
    let m = &sol.assignment;
    // vertex (r, c) of the 3x3 vertex grid: count its incident true edges
    for r in 0..3usize {
        for c in 0..3usize {
            let mut edges: Vec<usize> = Vec::new();
            if r < 2 {
                edges.push(6 + r * 3 + c);
            }
            if r > 0 {
                edges.push(6 + (r - 1) * 3 + c);
            }
            if c < 2 {
                edges.push(r * 2 + c);
            }
            if c > 0 {
                edges.push(r * 2 + c - 1);
            }
            let d = count_true(m, &edges);
            assert!(d == 0 || d == 2);
        }
    }
}
