use rsolver::rose::cells::{CellSet, PreBoundaries};
use rsolver::rose::growth::{
    adjacent_regions, assign_one_leftover, collect_violations, has_pre_neighbor_in, is_connected_set,
    is_region_connected, process_growth_neighbor, repair_symbol_distribution, solve_rose_growth,
    swap_repair_iteration, try_swap_fix, wavefront_growth, would_violate,
};
use rsolver::types::{Cell, Edge, Puzzle, Rule, RuleParams, RuleType, Vertex};
use std::collections::{HashMap, VecDeque};
use std::time::Instant;

fn cell(row: usize, col: usize) -> Cell {
    Cell {
        row,
        col,
        blocked: false,
        number: None,
        compass: None,
        symbol: None,
        fence_pattern: None,
        shape_pattern: None,
    }
}

fn grid(h: usize, w: usize) -> Puzzle {
    let plain = Edge { is_boundary: false, constraint: None };
    Puzzle {
        height: h,
        width: w,
        cells: (0..h).map(|r| (0..w).map(|c| cell(r, c)).collect()).collect(),
        h_edges: (0..h).map(|_| vec![plain; w.saturating_sub(1)]).collect(),
        v_edges: (0..h.saturating_sub(1)).map(|_| vec![plain; w]).collect(),
        vertices: (0..=h).map(|_| vec![Vertex { watchtower: None }; w + 1]).collect(),
        rules: vec![Rule {
            ctype: RuleType::RoseWindow,
            params: RuleParams { area: None, min: None, max: None },
        }],
        shape_pool: Vec::new(),
    }
}

fn set_of(n: usize, members: &[usize]) -> CellSet {
    let mut s = CellSet::new(n);
    for &m in members {
        s.insert(m);
    }
    s
}

/// Per-region cell sets matching `region_of`.
fn cells_by_region(region_of: &[Option<usize>], m: usize) -> Vec<CellSet> {
    let n = region_of.len();
    let mut out: Vec<CellSet> = (0..m).map(|_| CellSet::new(n)).collect();
    for (i, r) in region_of.iter().enumerate() {
        if let Some(rid) = r {
            out[*rid].insert(i);
        }
    }
    out
}

#[test]
fn connected_set_row_and_gap() {
    assert!(is_connected_set(&set_of(3, &[0, 1, 2]), 3));
    assert!(!is_connected_set(&set_of(3, &[0, 2]), 3));
}

#[test]
fn connected_set_empty_and_single() {
    assert!(is_connected_set(&set_of(4, &[]), 2));
    assert!(is_connected_set(&set_of(4, &[3]), 2));
}

#[test]
fn connected_set_vertical_and_diagonal() {
    assert!(is_connected_set(&set_of(4, &[0, 2]), 2));
    assert!(!is_connected_set(&set_of(4, &[0, 3]), 2));
}

#[test]
fn connected_set_right_step_runs_into_next_row() {
    // (0,2) and (1,0) on a width-3 board: the step right from the last column
    // lands on the first cell of the next row, and the check counts it.
    assert!(is_connected_set(&set_of(6, &[2, 3]), 3));
}

#[test]
fn region_connected_by_labels() {
    let split = [Some(0), Some(1), Some(1), Some(0)];
    assert!(!is_region_connected(&split, 0, 2));
    let rows = [Some(0), Some(0), Some(1), Some(1)];
    assert!(is_region_connected(&rows, 0, 2));
    assert!(is_region_connected(&rows, 1, 2));
    assert!(is_region_connected(&rows, 7, 2));
}

#[test]
fn region_connected_right_step_runs_into_next_row() {
    let split = [Some(0), Some(1), Some(1), Some(0)];
    assert!(is_region_connected(&split, 1, 2));
}

#[test]
fn pre_neighbor_behind_boundary() {
    let mut p = grid(1, 2);
    p.h_edges[0][0].is_boundary = true;
    let pre = PreBoundaries::from_puzzle(&p);
    let ro = [None, Some(0)];
    assert!(has_pre_neighbor_in(&ro, &pre, 0, 0, 0, 1, 2));
    assert!(!has_pre_neighbor_in(&ro, &pre, 1, 0, 0, 1, 2));
    assert!(would_violate(&ro, 0, 0, 0, &pre, 2));
    assert!(!would_violate(&ro, 0, 0, 1, &pre, 2));

    let open = PreBoundaries::from_puzzle(&grid(1, 2));
    assert!(!has_pre_neighbor_in(&ro, &open, 0, 0, 0, 1, 2));
    assert!(!would_violate(&ro, 0, 0, 0, &open, 2));
}

#[test]
fn adjacent_regions_skip_boundaries() {
    let ro = [Some(0), None, Some(1)];
    let open = PreBoundaries::from_puzzle(&grid(1, 3));
    let mut adj = adjacent_regions(&ro, 1, &open, 1, 3);
    adj.sort();
    assert_eq!(adj, vec![0, 1]);

    let mut p = grid(1, 3);
    p.h_edges[0][1].is_boundary = true;
    let pre = PreBoundaries::from_puzzle(&p);
    assert_eq!(adjacent_regions(&ro, 1, &pre, 1, 3), vec![0]);

    let empty = [None, None, None];
    assert!(adjacent_regions(&empty, 1, &open, 1, 3).is_empty());
}

#[test]
fn violations_are_boundaries_inside_one_region() {
    let mut p = grid(1, 2);
    p.h_edges[0][0].is_boundary = true;
    let pre = PreBoundaries::from_puzzle(&p);
    assert_eq!(collect_violations(&[Some(0), Some(0)], &pre, 2), vec![[0, 0, 0, 1]]);
    assert!(collect_violations(&[Some(0), Some(1)], &pre, 2).is_empty());
    assert!(collect_violations(&[None, None], &pre, 2).is_empty());
}

#[test]
fn swap_fix_moves_violating_end_to_neighbour() {
    let mut p = grid(1, 3);
    p.h_edges[0][0].is_boundary = true;
    let pre = PreBoundaries::from_puzzle(&p);
    let mut ro = vec![Some(0), Some(0), Some(1)];
    let mut cells = cells_by_region(&ro, 2);
    let viol = collect_violations(&ro, &pre, 3);
    assert!(try_swap_fix(&mut ro, &mut cells, &viol, &pre, 1, 3));
    assert_eq!(ro, vec![Some(0), Some(1), Some(1)]);
    assert!(cells[0].contains(0) && !cells[0].contains(1));
    assert!(cells[1].contains(1) && cells[1].contains(2));
    assert!(collect_violations(&ro, &pre, 3).is_empty());
}

#[test]
fn swap_fix_refuses_to_split_a_region() {
    // Moving (0,1) into region 1 would leave (0,0) and (0,2) apart, so the
    // other end, (0,2), moves instead.
    let mut p = grid(2, 3);
    p.h_edges[0][1].is_boundary = true;
    let pre = PreBoundaries::from_puzzle(&p);
    let mut ro = vec![Some(0), Some(0), Some(0), Some(1), Some(1), Some(1)];
    let mut cells = cells_by_region(&ro, 2);
    let viol = collect_violations(&ro, &pre, 3);
    assert_eq!(viol, vec![[0, 1, 0, 2]]);
    assert!(try_swap_fix(&mut ro, &mut cells, &viol, &pre, 2, 3));
    assert_eq!(ro, vec![Some(0), Some(0), Some(1), Some(1), Some(1), Some(1)]);
    assert!(is_connected_set(&cells[0], 3));
}

#[test]
fn swap_repair_iteration_stops_when_clean() {
    let mut p = grid(1, 3);
    p.h_edges[0][0].is_boundary = true;
    let pre = PreBoundaries::from_puzzle(&p);
    let mut ro = vec![Some(0), Some(0), Some(1)];
    let mut cells = cells_by_region(&ro, 2);
    assert!(swap_repair_iteration(&mut ro, &mut cells, &pre, 1, 3));
    assert_eq!(ro, vec![Some(0), Some(1), Some(1)]);
    assert!(!swap_repair_iteration(&mut ro, &mut cells, &pre, 1, 3));
    assert_eq!(ro, vec![Some(0), Some(1), Some(1)]);
}

#[test]
fn wavefront_prefers_smaller_region() {
    let pre = PreBoundaries::from_puzzle(&grid(1, 4));
    let mut ro = vec![Some(0), Some(0), None, Some(1)];
    let mut cells = cells_by_region(&ro, 2);
    let mut unassigned = set_of(4, &[2]);
    assert!(wavefront_growth(&mut ro, &mut cells, &mut unassigned, &pre, 1, 4, &None));
    assert_eq!(ro, vec![Some(0), Some(0), Some(1), Some(1)]);
    assert!(unassigned.is_empty());
    assert!(cells[1].contains(2));
}

#[test]
fn wavefront_avoids_boundary_conflict() {
    let mut p = grid(1, 4);
    p.h_edges[0][2].is_boundary = true;
    let pre = PreBoundaries::from_puzzle(&p);
    let mut ro = vec![Some(0), Some(0), None, Some(1)];
    let mut cells = cells_by_region(&ro, 2);
    let mut unassigned = set_of(4, &[2]);
    assert!(wavefront_growth(&mut ro, &mut cells, &mut unassigned, &pre, 1, 4, &None));
    assert_eq!(ro, vec![Some(0), Some(0), Some(0), Some(1)]);
}

#[test]
fn wavefront_leaves_unreachable_cells() {
    let pre = PreBoundaries::from_puzzle(&grid(1, 3));
    let mut ro = vec![Some(0), None, None];
    let mut cells = cells_by_region(&ro, 1);
    // Only cell 2 is pending; it touches no region, so growth stops.
    let mut unassigned = set_of(3, &[2]);
    assert!(wavefront_growth(&mut ro, &mut cells, &mut unassigned, &pre, 1, 3, &None));
    assert_eq!(ro, vec![Some(0), None, None]);
    assert!(unassigned.contains(2));
}

#[test]
fn symbol_repair_keeps_balanced_regions() {
    let mut ro = vec![Some(0), Some(0), Some(1), Some(1)];
    let mut cells = cells_by_region(&ro, 2);
    let present = [true, false, false, true];
    assert!(repair_symbol_distribution(&mut ro, &mut cells, &present, 2, 1, 4));
    assert_eq!(ro, vec![Some(0), Some(0), Some(1), Some(1)]);
}

#[test]
fn symbol_repair_moves_plain_cell_but_cannot_supply_symbol() {
    let mut ro = vec![Some(0), Some(0), Some(0), Some(1)];
    let mut cells = cells_by_region(&ro, 2);
    let present = [true, true, false, false];
    assert!(!repair_symbol_distribution(&mut ro, &mut cells, &present, 2, 1, 4));
    assert_eq!(ro, vec![Some(0), Some(0), Some(1), Some(1)]);
    assert!(cells[1].contains(2));
}

#[test]
fn growth_neighbor_attaches_free_cell() {
    let p = grid(1, 2);
    let pre = PreBoundaries::from_puzzle(&p);
    let mut ro = vec![Some(0), None];
    let mut masks = vec![1u64];
    let mut sizes = vec![1usize];
    let mut queue: VecDeque<(usize, usize)> = VecDeque::new();
    let mut symbol_of = HashMap::new();
    symbol_of.insert(0usize, 0usize);
    let ends = CellSet::new(2);
    assert!(!process_growth_neighbor(
        &mut ro, &mut masks, &mut sizes, &mut queue, 0, 0, 0, 0, -1, &pre, &p, &symbol_of, &ends, 1, 2
    ));
    assert!(process_growth_neighbor(
        &mut ro, &mut masks, &mut sizes, &mut queue, 0, 0, 0, 0, 1, &pre, &p, &symbol_of, &ends, 1, 2
    ));
    assert_eq!(ro, vec![Some(0), Some(0)]);
    assert_eq!(sizes, vec![2]);
    assert_eq!(masks, vec![1]);
    assert_eq!(queue, VecDeque::from(vec![(1, 0)]));
}

#[test]
fn growth_neighbor_respects_symbols_and_boundaries() {
    let mut p = grid(1, 2);
    let mut symbol_of = HashMap::new();
    symbol_of.insert(0usize, 0usize);
    symbol_of.insert(1usize, 0usize);
    let ends = CellSet::new(2);
    let mut queue: VecDeque<(usize, usize)> = VecDeque::new();

    // Same symbol type already in the region.
    let pre = PreBoundaries::from_puzzle(&p);
    let mut ro = vec![Some(0), None];
    let mut masks = vec![1u64];
    let mut sizes = vec![1usize];
    assert!(!process_growth_neighbor(
        &mut ro, &mut masks, &mut sizes, &mut queue, 0, 0, 0, 0, 1, &pre, &p, &symbol_of, &ends, 1, 2
    ));
    assert_eq!(ro, vec![Some(0), None]);

    // A pre-drawn boundary in the way.
    p.h_edges[0][0].is_boundary = true;
    let walled = PreBoundaries::from_puzzle(&p);
    let mut plain = HashMap::new();
    plain.insert(0usize, 0usize);
    assert!(!process_growth_neighbor(
        &mut ro, &mut masks, &mut sizes, &mut queue, 0, 0, 0, 0, 1, &walled, &p, &plain, &ends, 1, 2
    ));
    assert!(queue.is_empty());
}

#[test]
fn leftover_goes_to_smallest_compatible_region() {
    let pre = PreBoundaries::from_puzzle(&grid(1, 4));
    let mut symbol_of = HashMap::new();
    symbol_of.insert(0usize, 0usize);
    symbol_of.insert(3usize, 1usize);
    let mut ro = vec![Some(0), Some(0), None, Some(1)];
    let mut masks = vec![1u64, 2u64];
    let mut sizes = vec![2usize, 1usize];
    assert!(assign_one_leftover(&mut ro, &mut masks, &mut sizes, 2, &symbol_of, &pre, 1, 4));
    assert_eq!(ro, vec![Some(0), Some(0), Some(1), Some(1)]);
    assert_eq!(sizes, vec![2, 2]);
    assert_eq!(masks, vec![1, 2]);
}

#[test]
fn leftover_skips_region_with_same_symbol() {
    let pre = PreBoundaries::from_puzzle(&grid(1, 4));
    let mut symbol_of = HashMap::new();
    symbol_of.insert(0usize, 0usize);
    symbol_of.insert(3usize, 1usize);
    symbol_of.insert(2usize, 1usize);
    let mut ro = vec![Some(0), Some(0), None, Some(1)];
    let mut masks = vec![1u64, 2u64];
    let mut sizes = vec![2usize, 1usize];
    assert!(assign_one_leftover(&mut ro, &mut masks, &mut sizes, 2, &symbol_of, &pre, 1, 4));
    assert_eq!(ro, vec![Some(0), Some(0), Some(0), Some(1)]);
    assert_eq!(sizes, vec![3, 1]);
    assert_eq!(masks, vec![3, 2]);
}

#[test]
fn leftover_without_neighbour_stays() {
    let pre = PreBoundaries::from_puzzle(&grid(1, 3));
    let symbol_of: HashMap<usize, usize> = HashMap::new();
    let mut ro = vec![Some(0), None, None];
    let mut masks = vec![0u64];
    let mut sizes = vec![1usize];
    assert!(!assign_one_leftover(&mut ro, &mut masks, &mut sizes, 2, &symbol_of, &pre, 1, 3));
    assert_eq!(ro, vec![Some(0), None, None]);
    assert_eq!(sizes, vec![1]);
}

#[test]
fn rose_growth_single_symbol_fills_board() {
    let mut p = grid(1, 2);
    p.cells[0][0].symbol = Some("A".into());
    let pre = PreBoundaries::from_puzzle(&p);
    let all = set_of(2, &[0, 1]);
    let types = vec!["A".to_string()];
    let labels = solve_rose_growth(&p, &pre, &types, 1, &all, &Instant::now(), 10_000);
    assert_eq!(labels, Some(vec![Some(0), Some(0)]));
}

#[test]
fn rose_growth_two_seeds_split_board() {
    let mut p = grid(2, 2);
    p.cells[0][0].symbol = Some("A".into());
    p.cells[1][1].symbol = Some("A".into());
    let pre = PreBoundaries::from_puzzle(&p);
    let all = set_of(4, &[0, 1, 2, 3]);
    let types = vec!["A".to_string()];
    let labels = solve_rose_growth(&p, &pre, &types, 2, &all, &Instant::now(), 10_000).unwrap();
    assert_eq!(labels[0], Some(0));
    assert_eq!(labels[3], Some(1));
    assert!(labels.iter().all(|l| l.is_some()));
}

#[test]
fn rose_growth_seed_count_mismatch() {
    let mut p = grid(1, 2);
    p.cells[0][0].symbol = Some("A".into());
    let pre = PreBoundaries::from_puzzle(&p);
    let all = set_of(2, &[0, 1]);
    let types = vec!["A".to_string()];
    assert_eq!(solve_rose_growth(&p, &pre, &types, 2, &all, &Instant::now(), 10_000), None);
}

#[test]
fn rose_growth_multi_symbol_collects_every_type() {
    let mut p = grid(1, 2);
    p.cells[0][0].symbol = Some("A".into());
    p.cells[0][1].symbol = Some("B".into());
    let pre = PreBoundaries::from_puzzle(&p);
    let all = set_of(2, &[0, 1]);
    let types = vec!["A".to_string(), "B".to_string()];
    let labels = solve_rose_growth(&p, &pre, &types, 1, &all, &Instant::now(), 10_000);
    assert_eq!(labels, Some(vec![Some(0), Some(0)]));
}

#[test]
fn rose_growth_multi_symbol_missing_type() {
    let mut p = grid(1, 2);
    p.cells[0][0].symbol = Some("A".into());
    let pre = PreBoundaries::from_puzzle(&p);
    let all = set_of(2, &[0, 1]);
    let types = vec!["A".to_string(), "B".to_string()];
    assert_eq!(solve_rose_growth(&p, &pre, &types, 1, &all, &Instant::now(), 10_000), None);
}

#[test]
fn rose_growth_boundary_keeps_seeds_apart() {
    let mut p = grid(1, 2);
    p.cells[0][0].symbol = Some("A".into());
    p.cells[0][1].symbol = Some("A".into());
    p.h_edges[0][0].is_boundary = true;
    let pre = PreBoundaries::from_puzzle(&p);
    let all = set_of(2, &[0, 1]);
    let types = vec!["A".to_string()];
    let labels = solve_rose_growth(&p, &pre, &types, 2, &all, &Instant::now(), 10_000);
    assert_eq!(labels, Some(vec![Some(0), Some(1)]));
}
