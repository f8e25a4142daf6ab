use rsolver::edge_csp::adapter::build_input;
use rsolver::edge_csp::solver::Solver;
use rsolver::edge_csp::types::EdgeState;
use rsolver::types::{Cell, Edge, Puzzle, Rule, RuleParams, RuleType, Vertex};
use std::time::Instant;

fn cell(row: usize, col: usize) -> Cell {
    Cell {
        row,
        col,
        blocked: false,
        number: None,
        compass: None,
        symbol: None,
        fence_pattern: None,
        shape_pattern: None,
    }
}

fn rule(ctype: RuleType) -> Rule {
    Rule { ctype, params: RuleParams { area: None, min: None, max: None } }
}

fn blank(h: usize, w: usize, rules: Vec<Rule>) -> Puzzle {
    let plain = Edge { is_boundary: false, constraint: None };
    Puzzle {
        height: h,
        width: w,
        cells: (0..h).map(|r| (0..w).map(|c| cell(r, c)).collect()).collect(),
        h_edges: (0..h).map(|_| vec![plain; w.saturating_sub(1)]).collect(),
        v_edges: (0..h.saturating_sub(1)).map(|_| vec![plain; w]).collect(),
        vertices: (0..=h).map(|_| vec![Vertex { watchtower: None }; w + 1]).collect(),
        rules,
        shape_pool: Vec::new(),
    }
}

fn solver(p: &Puzzle) -> Solver {
    Solver::new(build_input(p, p.height * p.width), Instant::now())
}

/// On a 2x2 board: component 0 is the L of cells 0, 1, 2 and component 1 is
/// cell 3, both still growing with room for the whole box.
fn l_tromino_components(s: &mut Solver, growing: bool) {
    s.comp_cells = vec![vec![0, 1, 2], vec![3]];
    s.curr_comp_sz = vec![3, 1];
    s.curr_comp_id = vec![0, 0, 0, 1];
    s.curr_target_area = vec![None, None];
    s.can_grow_buf = vec![growing, growing];
    s.prop.curr_max_area = vec![4, 4];
}

#[test]
fn non_block_cuts_the_single_hole() {
    let p = blank(2, 2, vec![rule(RuleType::NonBlock)]);
    let mut s = solver(&p);
    assert!(s.rules.non_boxy && !s.rules.boxy);
    l_tromino_components(&mut s, true);
    assert_eq!(s.propagate_boxy_nonboxy(2), Ok(true));
    // Edge 1 joins cells 1 and 3, edge 3 joins cells 2 and 3: both cut.
    assert_eq!(s.edges, vec![EdgeState::Unknown, EdgeState::Cut, EdgeState::Unknown, EdgeState::Cut]);
    // A second pass finds the hole edges decided already.
    assert_eq!(s.propagate_boxy_nonboxy(2), Ok(false));
}

#[test]
fn non_block_leaves_hole_open_when_the_cap_is_larger() {
    let p = blank(2, 2, vec![rule(RuleType::NonBlock)]);
    let mut s = solver(&p);
    l_tromino_components(&mut s, true);
    s.prop.curr_max_area = vec![5, 5];
    assert_eq!(s.propagate_boxy_nonboxy(2), Ok(false));
    assert!(s.edges.iter().all(|&e| e == EdgeState::Unknown));
}

#[test]
fn block_rejects_a_sealed_l() {
    let p = blank(2, 2, vec![rule(RuleType::Block)]);
    let mut s = solver(&p);
    l_tromino_components(&mut s, false);
    assert_eq!(s.propagate_boxy_nonboxy(2), Err(()));
    assert!(s.edges.iter().all(|&e| e == EdgeState::Unknown));
}

#[test]
fn block_rejects_a_growing_l_that_cannot_fill_its_box() {
    let p = blank(2, 2, vec![rule(RuleType::Block)]);
    let mut s = solver(&p);
    l_tromino_components(&mut s, true);
    s.prop.curr_max_area = vec![3, 3];
    assert_eq!(s.propagate_boxy_nonboxy(2), Err(()));
}

#[test]
fn non_block_rejects_a_sealed_rectangle() {
    let p = blank(2, 2, vec![rule(RuleType::NonBlock)]);
    let mut s = solver(&p);
    s.comp_cells = vec![vec![0, 1], vec![2, 3]];
    s.curr_comp_sz = vec![2, 2];
    s.curr_comp_id = vec![0, 0, 1, 1];
    s.curr_target_area = vec![None, None];
    s.can_grow_buf = vec![false, false];
    assert_eq!(s.propagate_boxy_nonboxy(2), Err(()));
}

#[test]
fn without_block_rules_nothing_happens() {
    let p = blank(2, 2, vec![rule(RuleType::Ring)]);
    let mut s = solver(&p);
    l_tromino_components(&mut s, false);
    assert_eq!(s.propagate_boxy_nonboxy(2), Ok(false));
}

#[test]
fn set_edge_and_restore_undo() {
    let p = blank(2, 2, vec![rule(RuleType::Ring)]);
    let mut s = solver(&p);
    assert_eq!(s.curr_unknown, 4);
    let snap = s.snapshot();
    assert!(s.set_edge(0, EdgeState::Cut));
    assert!(s.set_edge(2, EdgeState::Uncut));
    assert!(!s.set_edge(0, EdgeState::Uncut), "a decided edge keeps its state");
    assert!(s.set_edge(0, EdgeState::Cut));
    assert_eq!(s.curr_unknown, 2);
    s.restore(snap);
    assert!(s.edges.iter().all(|&e| e == EdgeState::Unknown));
    assert_eq!(s.curr_unknown, 4);
}

#[test]
fn pre_drawn_boundaries_start_cut() {
    let mut p = blank(2, 2, vec![rule(RuleType::Ring)]);
    p.h_edges[0][0].is_boundary = true; // between (0,0) and (0,1): edge 2
    let s = solver(&p);
    assert_eq!(s.edges[2], EdgeState::Cut);
    assert_eq!(s.edges.iter().filter(|&&e| e == EdgeState::Cut).count(), 1);
}

#[test]
fn extract_regions_labels_uncut_pieces() {
    let p = blank(2, 2, vec![rule(RuleType::Ring)]);
    let mut s = solver(&p);
    // Cut the vertical boundary between the columns: edges 2 and 3.
    s.set_edge(2, EdgeState::Cut);
    s.set_edge(3, EdgeState::Cut);
    s.set_edge(0, EdgeState::Uncut);
    s.set_edge(1, EdgeState::Uncut);
    assert_eq!(s.extract_regions(), vec![Some(0), Some(1), Some(0), Some(1)]);
}

fn tower_board(value: i64) -> Puzzle {
    let mut p = blank(2, 2, vec![rule(RuleType::Watchtower)]);
    p.vertices[1][1].watchtower = Some(value);
    p
}

#[test]
fn pass_a_separates_pieces_when_count_is_reached() {
    let p = tower_board(2);
    let mut s = solver(&p);
    assert_eq!(s.vertex_clues.len(), 1);
    l_tromino_components(&mut s, true);
    assert_eq!(s.watchtower_pass_a(), Ok(true));
    // Cells 1|3 and 2|3 lie in different pieces: both edges cut.
    assert_eq!(s.edges, vec![EdgeState::Unknown, EdgeState::Cut, EdgeState::Unknown, EdgeState::Cut]);
    assert_eq!(s.watchtower_pass_a(), Ok(false));
}

#[test]
fn pass_a_rejects_clue_above_piece_count() {
    let p = tower_board(3);
    let mut s = solver(&p);
    l_tromino_components(&mut s, true);
    assert_eq!(s.watchtower_pass_a(), Err(()));
    assert!(s.edges.iter().all(|&e| e == EdgeState::Unknown));
}

#[test]
fn pass_a_rejects_clue_below_sealed_pieces() {
    let p = tower_board(1);
    let mut s = solver(&p);
    l_tromino_components(&mut s, false);
    assert_eq!(s.watchtower_pass_a(), Err(()));
}

#[test]
fn pass_a_leaves_edges_when_more_pieces_may_merge() {
    let p = tower_board(1);
    let mut s = solver(&p);
    l_tromino_components(&mut s, true);
    assert_eq!(s.watchtower_pass_a(), Ok(false));
    assert!(s.edges.iter().all(|&e| e == EdgeState::Unknown));
}

#[test]
fn pass_a_needs_cached_pieces() {
    let p = tower_board(3);
    let mut s = solver(&p);
    assert_eq!(s.watchtower_pass_a(), Ok(false));
}

fn fence(sides: &[[usize; 2]]) -> Option<Vec<[usize; 2]>> {
    let mut fp = vec![[1, 1]];
    fp.extend_from_slice(sides);
    Some(fp)
}

const UP: [usize; 2] = [0, 1];
const DOWN: [usize; 2] = [2, 1];
const LEFT: [usize; 2] = [1, 0];
const RIGHT: [usize; 2] = [1, 2];

#[test]
fn fence_all_sides_cuts_both_neighbours() {
    let mut p = blank(1, 3, vec![rule(RuleType::Fence)]);
    p.cells[0][1].fence_pattern = fence(&[UP, DOWN, LEFT, RIGHT]);
    let mut s = solver(&p);
    assert_eq!(s.propagate_palisade_constraints(), Ok(true));
    assert_eq!(s.edges, vec![EdgeState::Cut, EdgeState::Cut]);
    assert_eq!(s.propagate_palisade_constraints(), Ok(false));
}

#[test]
fn fence_opposite_between_borders_joins_neighbours() {
    let mut p = blank(1, 3, vec![rule(RuleType::Fence)]);
    p.cells[0][1].fence_pattern = fence(&[UP, DOWN]);
    let mut s = solver(&p);
    assert_eq!(s.propagate_palisade_constraints(), Ok(true));
    assert_eq!(s.edges, vec![EdgeState::Uncut, EdgeState::Uncut]);
}

#[test]
fn fence_single_side_cannot_sit_between_borders() {
    let mut p = blank(1, 3, vec![rule(RuleType::Fence)]);
    p.cells[0][1].fence_pattern = fence(&[UP]);
    let mut s = solver(&p);
    assert_eq!(s.propagate_palisade_constraints(), Err(()));
}

#[test]
fn fence_partners_must_agree_on_shared_edge() {
    let mut p = blank(1, 2, vec![rule(RuleType::Fence)]);
    p.cells[0][0].fence_pattern = fence(&[UP, DOWN, LEFT]);
    p.cells[0][1].fence_pattern = fence(&[UP, DOWN, LEFT, RIGHT]);
    let mut s = solver(&p);
    assert_eq!(s.propagate_palisade_constraints(), Err(()));
}

#[test]
fn fence_three_in_corner_keeps_open_side() {
    let mut p = blank(1, 2, vec![rule(RuleType::Fence)]);
    p.cells[0][0].fence_pattern = fence(&[UP, DOWN, LEFT]);
    let mut s = solver(&p);
    assert_eq!(s.propagate_palisade_constraints(), Ok(true));
    assert_eq!(s.edges, vec![EdgeState::Uncut]);
}

#[test]
fn fence_free_board_is_untouched() {
    let p = blank(2, 2, vec![rule(RuleType::Fence)]);
    let mut s = solver(&p);
    assert_eq!(s.propagate_palisade_constraints(), Ok(false));
    assert!(s.edges.iter().all(|&e| e == EdgeState::Unknown));
}

#[test]
fn two_piece_parity_forces_last_spoke() {
    let p = blank(2, 2, vec![]);
    let mut s = solver(&p);
    // Spokes around the centre: 2 (top), 1 (right), 3 (bottom), 0 (left).
    assert!(s.set_edge(0, EdgeState::Cut));
    assert!(s.set_edge(1, EdgeState::Uncut));
    assert!(s.set_edge(2, EdgeState::Uncut));
    assert_eq!(s.propagate_two_piece_vertex_parity(), Ok(true));
    assert_eq!(s.edges[3], EdgeState::Cut);
    assert_eq!(s.propagate_two_piece_vertex_parity(), Ok(false));
}

#[test]
fn two_piece_parity_keeps_even_count() {
    let p = blank(2, 2, vec![]);
    let mut s = solver(&p);
    assert!(s.set_edge(0, EdgeState::Cut));
    assert!(s.set_edge(1, EdgeState::Cut));
    assert!(s.set_edge(2, EdgeState::Uncut));
    assert_eq!(s.propagate_two_piece_vertex_parity(), Ok(true));
    assert_eq!(s.edges[3], EdgeState::Uncut);
}

#[test]
fn two_piece_parity_rejects_odd_point() {
    let p = blank(2, 2, vec![]);
    let mut s = solver(&p);
    assert!(s.set_edge(0, EdgeState::Cut));
    assert!(s.set_edge(1, EdgeState::Uncut));
    assert!(s.set_edge(2, EdgeState::Uncut));
    assert!(s.set_edge(3, EdgeState::Uncut));
    assert_eq!(s.propagate_two_piece_vertex_parity(), Err(()));
}

#[test]
fn two_piece_parity_waits_for_three_spokes() {
    let p = blank(2, 2, vec![]);
    let mut s = solver(&p);
    assert!(s.set_edge(0, EdgeState::Cut));
    assert_eq!(s.propagate_two_piece_vertex_parity(), Ok(false));
    assert_eq!(s.edges[3], EdgeState::Unknown);
}

#[test]
fn watchtower_four_forces_even_spokes() {
    let p = tower_board(4);
    let mut s = solver(&p);
    assert!(s.set_edge(0, EdgeState::Cut));
    assert!(s.set_edge(1, EdgeState::Uncut));
    assert!(s.set_edge(2, EdgeState::Uncut));
    assert_eq!(s.propagate_vertex_edge_parity(), Ok(true));
    assert_eq!(s.edges[3], EdgeState::Cut);
}

#[test]
fn watchtower_three_fixes_no_parity() {
    let p = tower_board(3);
    let mut s = solver(&p);
    assert!(s.set_edge(0, EdgeState::Cut));
    assert!(s.set_edge(1, EdgeState::Uncut));
    assert!(s.set_edge(2, EdgeState::Uncut));
    assert_eq!(s.propagate_vertex_edge_parity(), Ok(false));
    assert_eq!(s.edges[3], EdgeState::Unknown);
}

#[test]
fn watchtower_parity_rejects_odd_spokes() {
    let p = tower_board(4);
    let mut s = solver(&p);
    assert!(s.set_edge(0, EdgeState::Cut));
    assert!(s.set_edge(1, EdgeState::Uncut));
    assert!(s.set_edge(2, EdgeState::Uncut));
    assert!(s.set_edge(3, EdgeState::Uncut));
    assert_eq!(s.propagate_vertex_edge_parity(), Err(()));
}

#[test]
fn watchtower_parity_chains_through_shared_edge() {
    let mut p = blank(3, 3, vec![rule(RuleType::Watchtower)]);
    p.vertices[1][1].watchtower = Some(4);
    p.vertices[1][2].watchtower = Some(4);
    let mut s = solver(&p);
    let e = |s: &Solver, a: usize, b: usize| s.grid.edge_between(a, b).unwrap();
    // Around (1,1): cells 0, 1, 3, 4.  Around (1,2): cells 1, 2, 4, 5.
    let a_top = e(&s, 0, 1);
    let a_bottom = e(&s, 3, 4);
    let shared = e(&s, 1, 4);
    let a_left = e(&s, 0, 3);
    let b_top = e(&s, 1, 2);
    let b_right = e(&s, 2, 5);
    let b_bottom = e(&s, 4, 5);
    assert!(s.set_edge(a_top, EdgeState::Cut));
    assert!(s.set_edge(a_bottom, EdgeState::Uncut));
    assert!(s.set_edge(b_top, EdgeState::Uncut));
    assert!(s.set_edge(b_right, EdgeState::Uncut));
    assert!(s.set_edge(b_bottom, EdgeState::Cut));
    assert_eq!(s.propagate_vertex_edge_parity(), Ok(true));
    assert_eq!(s.edges[shared], EdgeState::Cut);
    assert_eq!(s.edges[a_left], EdgeState::Uncut);
}

#[test]
fn components_of_an_undecided_board_are_single_cells() {
    let p = blank(2, 2, vec![]);
    let mut s = solver(&p);
    assert_eq!(s.build_components(), Ok(4));
    assert_eq!(s.curr_comp_id, vec![0, 1, 2, 3]);
    assert_eq!(s.curr_comp_sz, vec![1, 1, 1, 1]);
    assert_eq!(s.comp_cells, vec![vec![0], vec![1], vec![2], vec![3]]);
    assert_eq!(s.can_grow_buf, vec![true, true, true, true]);
    assert_eq!(s.prop.growing_list, vec![0, 1, 2, 3]);
    assert!(s.prop.sealed_list.is_empty());
    assert!(!s.build_progress);
    // Every edge is a growth edge of both sides.
    assert_eq!(s.prop.growth_edges[0], vec![0, 2]);
    assert_eq!(s.prop.growth_edges[3], vec![1, 3]);
    assert!(s.edges.iter().all(|&e| e == EdgeState::Unknown));
}

#[test]
fn components_follow_uncut_edges() {
    let p = blank(2, 2, vec![]);
    let mut s = solver(&p);
    assert!(s.set_edge(2, EdgeState::Uncut));
    assert!(s.set_edge(0, EdgeState::Cut));
    assert_eq!(s.build_components(), Ok(3));
    assert_eq!(s.curr_comp_id, vec![0, 0, 1, 2]);
    assert_eq!(s.curr_comp_sz, vec![2, 1, 1]);
    assert_eq!(s.comp_cells, vec![vec![0, 1], vec![2], vec![3]]);
}

#[test]
fn components_seal_a_full_area() {
    let mut p = blank(2, 2, vec![rule(RuleType::Area)]);
    p.cells[0][0].number = Some(1);
    let mut s = solver(&p);
    assert_eq!(s.build_components(), Ok(4));
    assert_eq!(s.curr_target_area[0], Some(1));
    assert_eq!((s.prop.curr_min_area[0], s.prop.curr_max_area[0]), (1, 1));
    // Cell 0 is complete: both of its edges are cut, and it cannot grow.
    assert_eq!(s.edges[0], EdgeState::Cut);
    assert_eq!(s.edges[2], EdgeState::Cut);
    assert!(s.build_progress);
    assert!(!s.can_grow_buf[0]);
    assert_eq!(s.prop.sealed_list, vec![0]);
}

#[test]
fn components_reject_two_areas_in_one_piece() {
    let mut p = blank(1, 2, vec![rule(RuleType::Area)]);
    p.cells[0][0].number = Some(2);
    p.cells[0][1].number = Some(3);
    let mut s = solver(&p);
    assert!(s.set_edge(0, EdgeState::Uncut));
    assert_eq!(s.build_components(), Err(()));
}

#[test]
fn components_reject_piece_over_its_area() {
    let mut p = blank(1, 3, vec![rule(RuleType::Area)]);
    p.cells[0][0].number = Some(1);
    let mut s = solver(&p);
    assert!(s.set_edge(0, EdgeState::Uncut));
    assert_eq!(s.build_components(), Err(()));
}

#[test]
fn compass_bounds_pin_a_column_piece() {
    let mut p = blank(3, 1, vec![rule(RuleType::Compass)]);
    p.cells[1][0].compass = Some(rsolver::types::CompassClue { up: Some(1), down: Some(1), left: None, right: None });
    let mut s = solver(&p);
    assert_eq!(s.build_components(), Ok(3));
    // East and west half-planes are empty: the piece is exactly 1 + 1 + 1.
    assert_eq!(s.curr_target_area[1], Some(3));
}

#[test]
fn growth_potential_counts_reachable_cells() {
    let p = blank(1, 3, vec![]);
    let mut s = solver(&p);
    assert_eq!(s.build_components(), Ok(3));
    assert_eq!(s.growth_potential(0), 3);
    assert!(s.set_edge(0, EdgeState::Cut));
    assert_eq!(s.growth_potential(0), 1);
    assert_eq!(s.growth_potential(2), 2);
    s.curr_target_area[2] = Some(1);
    assert_eq!(s.growth_potential(2), 1);
}

#[test]
fn growth_potential_is_capped_by_max_area() {
    let p = blank(1, 3, vec![]);
    let mut s = solver(&p);
    assert_eq!(s.build_components(), Ok(3));
    s.prop.curr_max_area[1] = 2;
    assert_eq!(s.growth_potential(1), 2);
}

fn diff_edge(value: i64) -> Edge {
    Edge {
        is_boundary: false,
        constraint: Some(rsolver::types::EdgeConstraint {
            ctype: rsolver::types::EdgeConstraintType::Difference,
            value: Some(value),
        }),
    }
}

#[test]
fn difference_pins_the_other_side_and_seals_it() {
    let mut p = blank(1, 4, vec![rule(RuleType::Difference)]);
    p.h_edges[0][0] = diff_edge(1);
    let mut s = solver(&p);
    assert!(s.set_edge(0, EdgeState::Cut));
    assert!(s.set_edge(1, EdgeState::Uncut));
    assert_eq!(s.build_components(), Ok(3));
    assert_eq!(s.curr_comp_id, vec![0, 1, 1, 2]);
    assert_eq!(s.propagate_diff_clues(3), Ok(true));
    assert_eq!(s.curr_target_area[1], Some(2));
    assert_eq!(s.edges[2], EdgeState::Cut);
}

#[test]
fn difference_sets_a_target_without_cutting() {
    let mut p = blank(1, 3, vec![rule(RuleType::Difference)]);
    p.h_edges[0][0] = diff_edge(1);
    let mut s = solver(&p);
    assert!(s.set_edge(0, EdgeState::Cut));
    assert_eq!(s.build_components(), Ok(3));
    assert_eq!(s.propagate_diff_clues(3), Ok(false));
    assert_eq!(s.curr_target_area[1], Some(2));
    assert_eq!(s.edges[1], EdgeState::Unknown);
}

#[test]
fn difference_checks_two_sealed_sides() {
    let mut p = blank(1, 3, vec![rule(RuleType::Difference)]);
    p.h_edges[0][1] = diff_edge(1);
    let mut s = solver(&p);
    assert!(s.set_edge(0, EdgeState::Uncut));
    assert!(s.set_edge(1, EdgeState::Cut));
    assert_eq!(s.build_components(), Ok(2));
    assert_eq!(s.propagate_diff_clues(2), Ok(false));

    let mut p2 = blank(1, 3, vec![rule(RuleType::Difference)]);
    p2.h_edges[0][1] = diff_edge(2);
    let mut s2 = solver(&p2);
    assert!(s2.set_edge(0, EdgeState::Uncut));
    assert!(s2.set_edge(1, EdgeState::Cut));
    assert_eq!(s2.build_components(), Ok(2));
    assert_eq!(s2.propagate_diff_clues(2), Err(()));
}

fn ineq_edge(value: Option<i64>) -> Edge {
    Edge {
        is_boundary: false,
        constraint: Some(rsolver::types::EdgeConstraint {
            ctype: rsolver::types::EdgeConstraintType::Inequality,
            value,
        }),
    }
}

fn three_singletons() -> Solver {
    let p = blank(1, 3, vec![rule(RuleType::Inequality)]);
    let mut s = solver(&p);
    assert_eq!(s.build_components(), Ok(3));
    s.prop.curr_min_area = vec![1, 1, 1];
    s.curr_target_area = vec![None, None, None];
    s
}

#[test]
fn narrowing_pins_both_sides_of_a_tight_pair() {
    let mut s = three_singletons();
    s.prop.curr_max_area = vec![2, 2, 2];
    assert_eq!(s.narrow_inequality_bounds(&vec![(0, 1)]), Ok(true));
    assert_eq!(s.prop.curr_max_area, vec![1, 2, 2]);
    assert_eq!(s.prop.curr_min_area, vec![1, 2, 1]);
    assert_eq!(s.curr_target_area, vec![Some(1), Some(2), None]);
}

#[test]
fn narrowing_runs_along_a_chain() {
    let mut s = three_singletons();
    s.prop.curr_max_area = vec![3, 3, 3];
    assert_eq!(s.narrow_inequality_bounds(&vec![(0, 1), (1, 2)]), Ok(true));
    assert_eq!(s.prop.curr_min_area, vec![1, 2, 3]);
    assert_eq!(s.prop.curr_max_area, vec![1, 2, 3]);
    assert_eq!(s.curr_target_area, vec![Some(1), Some(2), Some(3)]);
}

#[test]
fn narrowing_rejects_an_impossible_order() {
    let mut s = three_singletons();
    s.prop.curr_max_area = vec![1, 1, 1];
    assert_eq!(s.narrow_inequality_bounds(&vec![(0, 1)]), Err(()));
}

#[test]
fn narrowing_without_pairs_does_nothing() {
    let mut s = three_singletons();
    s.prop.curr_max_area = vec![1, 1, 1];
    assert_eq!(s.narrow_inequality_bounds(&vec![]), Ok(false));
    assert_eq!(s.prop.curr_max_area, vec![1, 1, 1]);
}

#[test]
fn inequality_rejects_two_sealed_equal_sides() {
    let mut p = blank(1, 2, vec![rule(RuleType::Inequality)]);
    p.h_edges[0][0] = ineq_edge(None);
    let mut s = solver(&p);
    assert!(s.set_edge(0, EdgeState::Cut));
    assert_eq!(s.build_components(), Ok(2));
    assert_eq!(s.propagate_inequality_clues(2), Err(()));
}

#[test]
fn inequality_accepts_a_growing_larger_side() {
    let mut p = blank(1, 3, vec![rule(RuleType::Inequality)]);
    p.h_edges[0][0] = ineq_edge(None);
    let mut s = solver(&p);
    assert!(s.set_edge(0, EdgeState::Cut));
    assert_eq!(s.build_components(), Ok(3));
    assert!(s.propagate_inequality_clues(3).is_ok());
    assert!(s.prop.curr_min_area[1] >= 2);
}

#[test]
fn inequality_rejects_a_sealed_larger_side_that_is_not_larger() {
    let mut p = blank(1, 3, vec![rule(RuleType::Inequality)]);
    p.h_edges[0][0] = ineq_edge(Some(1));
    let mut s = solver(&p);
    assert!(s.set_edge(0, EdgeState::Cut));
    assert_eq!(s.build_components(), Ok(3));
    assert_eq!(s.propagate_inequality_clues(3), Err(()));
}

#[test]
fn degree_one_keeps_the_point_inside_one_piece() {
    let p = tower_board(1);
    let mut s = solver(&p);
    assert_eq!(s.propagate_watchtower_degree(None), Ok(true));
    assert!(s.edges.iter().all(|&e| e == EdgeState::Uncut));
    assert_eq!(s.propagate_watchtower_degree(None), Ok(false));
}

#[test]
fn degree_four_rejects_an_uncut_spoke() {
    let p = tower_board(4);
    let mut s = solver(&p);
    assert!(s.set_edge(0, EdgeState::Uncut));
    assert_eq!(s.propagate_watchtower_degree(None), Err(()));
}

#[test]
fn degree_two_with_two_pieces_stops_at_two_cuts() {
    let p = tower_board(2);
    let mut s = solver(&p);
    assert!(s.set_edge(0, EdgeState::Cut));
    assert!(s.set_edge(1, EdgeState::Cut));
    assert_eq!(s.propagate_watchtower_degree(Some(2)), Ok(true));
    assert_eq!(s.edges[2], EdgeState::Uncut);
    assert_eq!(s.edges[3], EdgeState::Uncut);
}

#[test]
fn degree_two_with_more_pieces_may_reach_four() {
    let p = tower_board(2);
    let mut s = solver(&p);
    assert!(s.set_edge(0, EdgeState::Cut));
    assert!(s.set_edge(1, EdgeState::Cut));
    assert_eq!(s.propagate_watchtower_degree(Some(3)), Ok(false));
    assert_eq!(s.edges[2], EdgeState::Unknown);
}

#[test]
fn degree_rejects_a_clue_above_the_piece_count() {
    let p = tower_board(3);
    let mut s = solver(&p);
    assert_eq!(s.propagate_watchtower_degree(Some(2)), Err(()));
    assert!(s.edges.iter().all(|&e| e == EdgeState::Unknown));
}
