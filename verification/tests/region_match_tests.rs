use rsolver::rose::partition::can_partition;
use rsolver::rose::cover::solve_by_region_match;
use rsolver::rose::cells::{CellSet, PreBoundaries};
use rsolver::rose::region_match::{generate_all_candidates, CANDIDATE_CAP, VISITED_CAP};
use rsolver::types::{Cell, Edge, Puzzle, Rule, RuleParams, RuleType, Vertex};
use std::collections::HashMap;
use std::time::Instant;

fn cell(row: usize, col: usize) -> Cell {
    Cell {
        row,
        col,
        blocked: false,
        number: None,
        compass: None,
        symbol: None,
        fence_pattern: None,
        shape_pattern: None,
    }
}

fn grid(h: usize, w: usize) -> Puzzle {
    let plain = Edge { is_boundary: false, constraint: None };
    Puzzle {
        height: h,
        width: w,
        cells: (0..h).map(|r| (0..w).map(|c| cell(r, c)).collect()).collect(),
        h_edges: (0..h).map(|_| vec![plain; w.saturating_sub(1)]).collect(),
        v_edges: (0..h.saturating_sub(1)).map(|_| vec![plain; w]).collect(),
        vertices: (0..=h).map(|_| vec![Vertex { watchtower: None }; w + 1]).collect(),
        rules: vec![Rule {
            ctype: RuleType::RoseWindow,
            params: RuleParams { area: None, min: None, max: None },
        }],
        shape_pool: Vec::new(),
    }
}

fn full_set(h: usize, w: usize) -> CellSet {
    let mut all = CellSet::new(h * w);
    for r in 0..h {
        for c in 0..w {
            all.insert(r * w + c);
        }
    }
    all
}

#[test]
fn visited_cap_invariants() {
    assert!(VISITED_CAP > CANDIDATE_CAP);
    assert!(VISITED_CAP > 0);
    assert!(VISITED_CAP <= 10_000_000, "VISITED_CAP too high — OOM risk");
}

#[test]
fn generate_all_candidates_terminates_on_small_grid() {
    let mut puzzle = grid(2, 2);
    puzzle.cells[0][0].symbol = Some("A".into());
    let h = puzzle.height;
    let w = puzzle.width;
    let all_positions = full_set(h, w);
    let pre = PreBoundaries::from_puzzle(&puzzle);
    let symbol_types = vec!["A".to_string()];
    let mut symbol_of = HashMap::new();
    symbol_of.insert(0usize, 0usize);
    let cands = generate_all_candidates(
        &puzzle,
        0,
        &all_positions,
        &pre,
        &symbol_of,
        &symbol_types,
        &Instant::now(),
        1_000,
        (1, 100),
    );
    assert!(!cands.is_empty(), "must return at least the singleton region");
    assert!(cands.iter().all(|c| c.contains(0)), "every candidate contains the seed");
    assert!(cands.len() <= CANDIDATE_CAP);
}

#[test]
fn candidates_of_a_two_by_two_grid() {
    let puzzle = grid(2, 2);
    let all_positions = full_set(2, 2);
    let pre = PreBoundaries::from_puzzle(&puzzle);
    let symbol_of: HashMap<usize, usize> = HashMap::new();
    let cands = generate_all_candidates(
        &puzzle,
        0,
        &all_positions,
        &pre,
        &symbol_of,
        &["A".to_string()],
        &Instant::now(),
        1_000,
        (1, 100),
    );
    // {0}, {0,1}, {0,2}, {0,1,2}, {0,1,3}, {0,2,3}, {0,1,2,3}
    assert_eq!(cands.len(), 7);
    assert_eq!(cands[0].iter(), vec![0]);
    assert_eq!(cands[6].iter(), vec![0, 1, 2, 3]);
}

#[test]
fn candidates_respect_predrawn_boundaries() {
    let mut puzzle = grid(1, 3);
    puzzle.h_edges[0][0].is_boundary = true;
    let all_positions = full_set(1, 3);
    let pre = PreBoundaries::from_puzzle(&puzzle);
    let symbol_of: HashMap<usize, usize> = HashMap::new();
    let cands = generate_all_candidates(
        &puzzle,
        1,
        &all_positions,
        &pre,
        &symbol_of,
        &["A".to_string()],
        &Instant::now(),
        1_000,
        (1, 100),
    );
    let sets: Vec<Vec<usize>> = cands.iter().map(|c| c.iter()).collect();
    assert_eq!(sets, vec![vec![1], vec![1, 2]]);
}

#[test]
fn candidates_with_two_symbol_types_hold_one_of_each() {
    let mut puzzle = grid(1, 4);
    puzzle.cells[0][0].symbol = Some("A".into());
    puzzle.cells[0][1].symbol = Some("B".into());
    puzzle.cells[0][2].symbol = Some("A".into());
    let all_positions = full_set(1, 4);
    let pre = PreBoundaries::from_puzzle(&puzzle);
    let mut symbol_of: HashMap<usize, usize> = HashMap::new();
    symbol_of.insert(0, 0);
    symbol_of.insert(1, 1);
    symbol_of.insert(2, 0);
    let types = vec!["A".to_string(), "B".to_string()];
    let cands = generate_all_candidates(
        &puzzle,
        1,
        &all_positions,
        &pre,
        &symbol_of,
        &types,
        &Instant::now(),
        1_000,
        (3, 4),
    );
    let sets: Vec<Vec<usize>> = cands.iter().map(|c| c.iter()).collect();
    assert_eq!(sets, vec![vec![0, 1], vec![1, 2], vec![1, 2, 3]]);
    let wide = generate_all_candidates(
        &puzzle,
        1,
        &all_positions,
        &pre,
        &symbol_of,
        &types,
        &Instant::now(),
        1_000,
        (1, 100),
    );
    let sets: Vec<Vec<usize>> = wide.iter().map(|c| c.iter()).collect();
    assert_eq!(sets, vec![vec![0, 1], vec![1, 2]]);
}

fn cell_set(items: &[usize]) -> rsolver::rose::cells::CellSet {
    let mut s = rsolver::rose::cells::CellSet::new(4);
    for &i in items {
        s.insert(i);
    }
    s
}

#[test]
fn region_match_picks_an_exact_cover() {
    let cands = vec![vec![cell_set(&[0, 1]), cell_set(&[0])], vec![cell_set(&[1, 2]), cell_set(&[1])], vec![cell_set(&[2, 3])]];
    let all = cell_set(&[0, 1, 2, 3]);
    let labels = solve_by_region_match(&cands, &all, 1000).unwrap().unwrap();
    assert_eq!(&labels[..4], &[Some(0), Some(1), Some(2), Some(2)]);
    assert!(labels[4..].iter().all(|l| l.is_none()));
}

#[test]
fn region_match_reports_no_cover() {
    let cands = vec![vec![cell_set(&[0, 1])], vec![cell_set(&[1])]];
    let all = cell_set(&[0, 1]);
    assert_eq!(solve_by_region_match(&cands, &all, 1000), Ok(None));
}

#[test]
fn region_match_gives_up_without_budget() {
    let cands = vec![vec![cell_set(&[0])], vec![cell_set(&[1])]];
    let all = cell_set(&[0, 1]);
    assert_eq!(solve_by_region_match(&cands, &all, 0), Err(()));
    assert_eq!(solve_by_region_match(&cands, &all, 10).unwrap().unwrap()[..2], [Some(0), Some(1)]);
}

#[test]
fn partition_reaches_every_cell_from_a_symbol() {
    let p = grid(1, 3);
    let pre = PreBoundaries::from_puzzle(&p);
    let remaining = cell_set(&[0, 1, 2]);
    assert!(can_partition(&remaining, &cell_set(&[0]), &pre, 1, 3, 1));
    assert!(!can_partition(&remaining, &cell_set(&[]), &pre, 1, 3, 1));
    assert!(can_partition(&cell_set(&[]), &cell_set(&[]), &pre, 1, 3, 1));
}

#[test]
fn partition_stops_at_a_pre_drawn_boundary() {
    let mut p = grid(1, 3);
    p.h_edges[0][1].is_boundary = true;
    let pre = PreBoundaries::from_puzzle(&p);
    let remaining = cell_set(&[0, 1, 2]);
    assert!(!can_partition(&remaining, &cell_set(&[0]), &pre, 1, 3, 1));
    assert!(can_partition(&remaining, &cell_set(&[0, 2]), &pre, 1, 3, 1));
    assert!(!can_partition(&remaining, &cell_set(&[0, 2]), &pre, 1, 3, 2));
    assert!(can_partition(&cell_set(&[0, 1]), &cell_set(&[0]), &pre, 1, 3, 2));
}
