use rsolver::rose::pin::{
    dihedral_variants, enumerate_pin_candidates, placement_symbol_counts, placements_for_variant,
};
use rsolver::types::{Cell, Edge, Puzzle, Rule, RuleParams, RuleType, Vertex};

fn cell(row: usize, col: usize) -> Cell {
    Cell {
        row,
        col,
        blocked: false,
        number: None,
        compass: None,
        symbol: None,
        fence_pattern: None,
        shape_pattern: None,
    }
}

fn grid(h: usize, w: usize) -> Puzzle {
    let plain = Edge { is_boundary: false, constraint: None };
    let rule = |ctype| Rule { ctype, params: RuleParams { area: None, min: None, max: None } };
    Puzzle {
        height: h,
        width: w,
        cells: (0..h).map(|r| (0..w).map(|c| cell(r, c)).collect()).collect(),
        h_edges: (0..h).map(|_| vec![plain; w.saturating_sub(1)]).collect(),
        v_edges: (0..h.saturating_sub(1)).map(|_| vec![plain; w]).collect(),
        vertices: (0..=h).map(|_| vec![Vertex { watchtower: None }; w + 1]).collect(),
        rules: vec![rule(RuleType::PuzzlePiece), rule(RuleType::RoseWindow)],
        shape_pool: Vec::new(),
    }
}

#[test]
fn dihedral_variants_cross_is_small() {
    let pat = vec![[0, 1], [1, 0], [1, 1], [1, 2], [2, 1], [3, 0], [3, 1], [3, 2], [4, 1]];
    let vs = dihedral_variants(&pat);
    assert_eq!(vs.len(), 2, "cross has 2 dihedral variants");
}

#[test]
fn dihedral_variants_square_is_one() {
    let pat = vec![[0, 0], [0, 1], [1, 0], [1, 1]];
    let vs = dihedral_variants(&pat);
    assert_eq!(vs.len(), 1);
}

#[test]
fn dihedral_variants_of_l_tromino() {
    let pat = vec![[0, 0], [1, 0], [1, 1]];
    let vs = dihedral_variants(&pat);
    assert_eq!(vs.len(), 4);
    assert_eq!(vs[0], vec![(0, 0), (1, 0), (1, 1)]);
    assert_eq!(vs[1], vec![(0, 1), (1, 0), (1, 1)]);
}

#[test]
fn dihedral_variants_of_domino() {
    let vs = dihedral_variants(&[[0, 0], [0, 1]]);
    assert_eq!(vs, vec![vec![(0, 0), (0, 1)], vec![(0, 0), (1, 0)]]);
}

#[test]
fn pin_candidates_require_one_symbol_each() {
    let mut puzzle = grid(3, 3);
    puzzle.cells[0][0].symbol = Some("P1".to_string());
    puzzle.cells[0][0].shape_pattern = Some(vec![[0, 0], [0, 1]]);
    puzzle.cells[0][1].symbol = Some("P1".to_string());
    let types = vec!["P1".to_string()];
    let anchors = enumerate_pin_candidates(&puzzle, &types, &[]).expect("candidates");
    assert_eq!(anchors.len(), 1);
    assert!(!anchors[0].placements.is_empty());
    for p in &anchors[0].placements {
        let counts = placement_symbol_counts(&puzzle, &p.cells.iter(), 3, &types);
        assert_eq!(counts, vec![1], "placement must hold exactly one P1");
        assert!(
            !p.cells.contains(1) || !p.cells.contains(0),
            "the 2-symbol horizontal placement must be filtered out"
        );
    }
}

#[test]
fn placements_of_domino_in_corner() {
    let puzzle = grid(3, 3);
    // Horizontal domino over (1, 1): either point can sit on the anchor.
    let out = placements_for_variant(&puzzle, &vec![(0, 0), (0, 1)], 1, 1);
    assert_eq!(out, vec![vec![3, 4], vec![4, 5]]);
    // In the corner only one placement stays on the grid.
    let out = placements_for_variant(&puzzle, &vec![(0, 0), (0, 1)], 0, 0);
    assert_eq!(out, vec![vec![0, 1]]);
}

#[test]
fn placements_respect_walls_and_blocks() {
    let mut puzzle = grid(2, 2);
    puzzle.h_edges[0][0].is_boundary = true;
    puzzle.cells[1][1].blocked = true;
    let out = placements_for_variant(&puzzle, &vec![(0, 0), (0, 1)], 0, 0);
    assert!(out.is_empty(), "a wall between the two cells forbids the domino");
    let out = placements_for_variant(&puzzle, &vec![(0, 0), (1, 0)], 0, 1);
    assert!(out.is_empty(), "the blocked cell below forbids the domino");
}

#[test]
fn pin_candidates_keep_frame_runs_whole() {
    let mut puzzle = grid(2, 3);
    puzzle.cells[0][0].shape_pattern = Some(vec![[0, 0], [0, 1]]);
    // A run over (0, 1) and (0, 2): a domino may not take just one of them.
    let runs = vec![vec![(0usize, 1usize), (0usize, 2usize)]];
    let anchors = enumerate_pin_candidates(&puzzle, &[], &runs).expect("candidates");
    assert_eq!(anchors.len(), 1);
    assert_eq!(anchors[0].anchor, 0);
    let cells: Vec<Vec<usize>> = anchors[0].placements.iter().map(|p| p.cells.iter()).collect();
    assert_eq!(cells, vec![vec![0, 3]]);
}

#[test]
fn pin_candidates_none_without_patterns_or_room() {
    let puzzle = grid(2, 2);
    assert!(enumerate_pin_candidates(&puzzle, &[], &[]).is_none());
    let mut puzzle = grid(1, 1);
    puzzle.cells[0][0].shape_pattern = Some(vec![[0, 0], [0, 1]]);
    assert!(enumerate_pin_candidates(&puzzle, &[], &[]).is_none());
}
