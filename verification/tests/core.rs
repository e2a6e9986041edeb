use slitherlink::grid::Grid;
use slitherlink::grid::SolveError;
use slitherlink::encode::encode;
use slitherlink::encode::Constraint;
use slitherlink::extract::count_assignment;
use slitherlink::extract::extract_cycles;
use slitherlink::extract::shortest_cycle_index;
use slitherlink::parsing::is_cell;
use slitherlink::parsing::parse;
use slitherlink::parsing::style;

fn attr(key: &str, value: &str) -> (Vec<u8>, Vec<u8>) {
    (key.as_bytes().to_vec(), value.as_bytes().to_vec())
}

#[test]
fn grid_accepts_well_formed_data() {
    let g = Grid::new(2, 2, vec![Some(2), Some(2), Some(2), Some(2)]).unwrap();
    assert_eq!(g.width, 2);
    assert_eq!(g.height, 2);
    assert_eq!(g.clue_at(1, 1), Some(2));
}

#[test]
fn grid_rejects_zero_dimension() {
    assert!(matches!(Grid::new(0, 3, vec![]), Err(SolveError::MalformedInput)));
    assert!(matches!(Grid::new(3, 0, vec![]), Err(SolveError::MalformedInput)));
}

#[test]
fn grid_rejects_oversized_dimensions() {
    assert!(matches!(
        Grid::new(30001, 1, vec![None; 30001]),
        Err(SolveError::MalformedInput)
    ));
}

#[test]
fn grid_rejects_wrong_clue_table_length() {
    assert!(matches!(
        Grid::new(2, 2, vec![None, None, None]),
        Err(SolveError::MalformedInput)
    ));
}

#[test]
fn grid_rejects_oversized_clue() {
    assert!(matches!(
        Grid::new(1, 1, vec![Some(5)]),
        Err(SolveError::MalformedInput)
    ));
}

#[test]
fn parse_reads_decimal_digits() {
    assert_eq!(parse(b""), 0);
    assert_eq!(parse(b"3"), 3);
    assert_eq!(parse(b"42"), 42);
    assert_eq!(parse(b"255"), 255);
}

#[test]
fn is_cell_finds_the_marker_class() {
    let attrs = vec![
        attr("id", "x17"),
        attr("class", "loop-task-cell selected"),
    ];
    assert!(is_cell(&attrs));
    let attrs = vec![attr("class", "loop-task"), attr("style", "top: 3px")];
    assert!(!is_cell(&attrs));
    let attrs: Vec<(Vec<u8>, Vec<u8>)> = vec![];
    assert!(!is_cell(&attrs));
}

#[test]
fn style_returns_the_first_style_value() {
    let attrs = vec![
        attr("class", "loop-task-cell"),
        attr("style", " top: 3px; left: 5px"),
        attr("style", "other"),
    ];
    let v = style(&attrs).unwrap();
    assert_eq!(v, b" top: 3px; left: 5px".to_vec());
    let attrs = vec![attr("class", "loop-task-cell")];
    assert!(style(&attrs).is_none());
}

#[test]
fn encoding_of_a_single_cell_puzzle() {
    let g = Grid::new(1, 1, vec![Some(4)]).unwrap();
    let cs = encode(&g);
    // one clue constraint plus one parity constraint per vertex of the 2x2
    // vertex grid
    assert_eq!(cs.len(), 1 + 4);
    match &cs[0] {
        Constraint::ExactlyK { vars, k } => {
            assert_eq!(*k, 4);
            assert_eq!(vars.clone(), vec![0, 2, 1, 3]);
        },
        _ => panic!("first constraint should be the clue"),
    }
    for c in cs.iter().skip(1) {
        assert!(matches!(c, Constraint::ZeroOrTwo { .. }));
    }
}

#[test]
fn extractor_finds_the_unit_square() {
    let g = Grid::new(1, 1, vec![Some(4)]).unwrap();
    let m = vec![true, true, true, true];
    let cycles = extract_cycles(&g, &m).unwrap();
    assert_eq!(cycles, vec![vec![0, 3, 1, 2]]);
    assert_eq!(count_assignment(&m), 4);
}

#[test]
fn extractor_rejects_a_dangling_edge() {
    let g = Grid::new(1, 1, vec![None]).unwrap();
    let m = vec![true, false, false, false];
    assert!(matches!(extract_cycles(&g, &m), Err(SolveError::InvalidModel)));
}

#[test]
fn extractor_splits_two_disjoint_squares() {
    // 3x1 grid, unit squares around cells 0 and 2
    let g = Grid::new(3, 1, vec![None, None, None]).unwrap();
    let mut m = vec![false; 10];
    for e in [0usize, 3, 6, 7] {
        m[e] = true;
    }
    for e in [2usize, 5, 8, 9] {
        m[e] = true;
    }
    let cycles = extract_cycles(&g, &m).unwrap();
    assert_eq!(cycles, vec![vec![0, 7, 3, 6], vec![2, 9, 5, 8]]);
    assert_eq!(shortest_cycle_index(&cycles), 0);
    assert_eq!(count_assignment(&m), 8);
}

#[test]
fn extractor_is_deterministic_on_a_fixed_model() {
    let g = Grid::new(3, 1, vec![None, None, None]).unwrap();
    let mut m = vec![false; 10];
    for e in [0usize, 3, 6, 7, 2, 5, 8, 9] {
        m[e] = true;
    }
    let first = extract_cycles(&g, &m).unwrap();
    let second = extract_cycles(&g, &m).unwrap();
    assert_eq!(first, second);
    let i = shortest_cycle_index(&first);
    let j = shortest_cycle_index(&second);
    assert_eq!(first[i].len(), second[j].len());
}
