use rsolver::pieces::{
    collect_edge_constraints_data, collect_watchtower_data, compass_row_ok, count_specified,
    cell_clue_rows_ok, distinct_rows_ok, rose_signature_ok, Placement,
    econs_rows_ok, generate_compass_polyominoes, generate_polyominoes, watchtower_rows_ok, has_clues, is_clue_cell, is_precut, neighbor_positions,
    solitary_clue_count, try_place,
};
use rsolver::types::{
    Cell, CompassClue, Edge, EdgeConstraint, EdgeConstraintType, Puzzle, Rule, RuleParams, RuleType,
    Vertex,
};
use std::collections::{BTreeSet, HashMap};
use std::time::{Duration, Instant};

fn cell(row: usize, col: usize) -> Cell {
    Cell {
        row,
        col,
        blocked: false,
        number: None,
        compass: None,
        symbol: None,
        fence_pattern: None,
        shape_pattern: None,
    }
}

fn rule(ctype: RuleType) -> Rule {
    Rule { ctype, params: RuleParams { area: None, min: None, max: None } }
}

fn blank(h: usize, w: usize, rules: Vec<Rule>) -> Puzzle {
    let plain = Edge { is_boundary: false, constraint: None };
    Puzzle {
        height: h,
        width: w,
        cells: (0..h).map(|r| (0..w).map(|c| cell(r, c)).collect()).collect(),
        h_edges: (0..h).map(|_| vec![plain; w.saturating_sub(1)]).collect(),
        v_edges: (0..h.saturating_sub(1)).map(|_| vec![plain; w]).collect(),
        vertices: (0..=h).map(|_| vec![Vertex { watchtower: None }; w + 1]).collect(),
        rules,
        shape_pool: Vec::new(),
    }
}

fn compass(up: i64, down: i64, left: i64, right: i64) -> CompassClue {
    CompassClue { up: Some(up), down: Some(down), left: Some(left), right: Some(right) }
}

fn dedup_placements(results: Vec<Vec<[usize; 2]>>) -> Vec<Vec<[usize; 2]>> {
    let mut uniq: BTreeSet<Vec<[usize; 2]>> = BTreeSet::new();
    for mut r in results {
        r.sort();
        uniq.insert(r);
    }
    uniq.into_iter().collect()
}

#[test]
fn compass_placement_counts_half_planes() {
    let mut puzzle = blank(4, 4, vec![rule(RuleType::Compass)]);
    puzzle.cells[2][2].compass = Some(compass(2, 0, 1, 1));
    let comp = puzzle.cells[2][2].compass.clone().unwrap();
    let deadline = Instant::now() + Duration::from_secs(5);
    let results = dedup_placements(generate_compass_polyominoes(&puzzle, 2, 2, &comp, deadline));
    assert!(
        results.contains(&vec![[1, 1], [1, 2], [2, 2], [2, 3]]),
        "half-plane placement missing: {:?}",
        results
    );
    assert!(!results.contains(&vec![[1, 1], [1, 2], [2, 1], [2, 2], [2, 3]]));
    for p in &results {
        let mut counts = [0usize; 4];
        for &[r, c] in p {
            if r < 2 {
                counts[0] += 1;
            }
            if r > 2 {
                counts[1] += 1;
            }
            if c > 2 {
                counts[2] += 1;
            }
            if c < 2 {
                counts[3] += 1;
            }
        }
        assert_eq!(counts, [2, 0, 1, 1], "bad placement {:?}", p);
    }
}

#[test]
fn compass_zero_direction_rejects_quadrant_cells() {
    let mut puzzle = blank(3, 3, vec![rule(RuleType::Compass)]);
    puzzle.cells[1][1].compass = Some(compass(1, 1, 0, 0));
    let comp = puzzle.cells[1][1].compass.clone().unwrap();
    let deadline = Instant::now() + Duration::from_secs(5);
    let results = generate_compass_polyominoes(&puzzle, 1, 1, &comp, deadline);
    assert_eq!(dedup_placements(results), vec![vec![[0, 1], [1, 1], [2, 1]]]);
}

#[test]
fn compass_search_respects_predrawn_boundaries() {
    let mut puzzle = blank(3, 3, vec![rule(RuleType::Compass)]);
    puzzle.cells[1][1].compass = Some(compass(1, 1, 0, 0));
    puzzle.v_edges[0][1].is_boundary = true;
    let comp = puzzle.cells[1][1].compass.clone().unwrap();
    let deadline = Instant::now() + Duration::from_secs(5);
    let results = generate_compass_polyominoes(&puzzle, 1, 1, &comp, deadline);
    assert!(results.is_empty());
}

#[test]
fn compass_single_cell_region_when_all_zero() {
    let mut puzzle = blank(2, 2, vec![rule(RuleType::Compass)]);
    puzzle.cells[0][0].compass = Some(compass(0, 0, 0, 0));
    let comp = puzzle.cells[0][0].compass.clone().unwrap();
    let deadline = Instant::now() + Duration::from_secs(5);
    let results = generate_compass_polyominoes(&puzzle, 0, 0, &comp, deadline);
    assert_eq!(results, vec![vec![[0, 0]]]);
}

#[test]
fn clue_detection() {
    let mut p = blank(2, 2, vec![]);
    assert!(!has_clues(&p));
    p.cells[1][0].number = Some(3);
    assert!(has_clues(&p));
    assert!(is_clue_cell(&p, 1, 0));
    assert!(!is_clue_cell(&p, 0, 0));
    let q = blank(1, 1, vec![rule(RuleType::Block)]);
    assert!(has_clues(&q));
}

#[test]
fn solitary_counts_open_clue_cells() {
    let mut p = blank(2, 2, vec![]);
    p.cells[0][0].number = Some(1);
    assert_eq!(solitary_clue_count(&p), None);
    p.rules.push(rule(RuleType::Solitary));
    p.cells[1][1].symbol = Some("a".to_string());
    p.cells[0][1].blocked = true;
    p.cells[0][1].number = Some(2);
    assert_eq!(solitary_clue_count(&p), Some(2));
}

#[test]
fn compass_direction_helpers() {
    let c = CompassClue { up: Some(0), down: Some(0), left: None, right: Some(2) };
    assert_eq!(count_specified(&c), 3);
    assert!(c.north_south_strip());
    assert!(!c.east_west_strip());
}

#[test]
fn placing_offsets() {
    let mut p = blank(3, 3, vec![]);
    assert_eq!(try_place(&[[0, 0], [1, 0], [0, 1]], 1, 1, 3, 3, &p), Some(vec![[1, 1], [2, 1], [1, 2]]));
    assert_eq!(try_place(&[[0, 0], [2, 0]], 1, 1, 3, 3, &p), None);
    assert_eq!(try_place(&[[-2, 0]], 1, 1, 3, 3, &p), None);
    p.cells[2][1].blocked = true;
    assert_eq!(try_place(&[[0, 0], [1, 0]], 1, 1, 3, 3, &p), None);
}

#[test]
fn neighbours_and_precuts() {
    assert_eq!(neighbor_positions(0, 0, 2, 2), vec![(1, 0), (0, 1)]);
    assert_eq!(neighbor_positions(1, 1, 3, 3), vec![(0, 1), (2, 1), (1, 0), (1, 2)]);
    let mut p = blank(2, 2, vec![]);
    p.h_edges[0][0].is_boundary = true;
    assert!(is_precut(&p, 0, 1, 0, 0));
    assert!(!is_precut(&p, 0, 0, 1, 0));
}

#[test]
fn compass_row_counts_cells_on_each_side() {
    // An L around (1, 1): one cell above, one to the right.
    let cells = vec![[0, 1], [1, 1], [1, 2]];
    assert!(compass_row_ok(&compass(1, 0, 0, 1), &cells, 1, 1));
    assert!(!compass_row_ok(&compass(1, 0, 0, 2), &cells, 1, 1));
    assert!(!compass_row_ok(&compass(0, 0, 0, 1), &cells, 1, 1));
    // A negative or missing count asks nothing.
    let loose = CompassClue { up: Some(-1), down: None, left: Some(0), right: Some(1) };
    assert!(compass_row_ok(&loose, &cells, 1, 1));
}

#[test]
fn watchtower_table_lists_open_touching_cells() {
    let mut p = blank(2, 2, vec![]);
    p.vertices[1][1].watchtower = Some(3);
    p.vertices[0][0].watchtower = Some(1);
    p.vertices[2][2].watchtower = Some(7);
    p.cells[0][0].blocked = true;
    let t = collect_watchtower_data(&p);
    assert_eq!(t.len(), 2);
    assert_eq!(t[0], (vec![], 1));
    assert_eq!(t[1], (vec![[0, 1], [1, 0], [1, 1]], 3));
}

#[test]
fn edge_constraint_table_lists_rows_then_columns() {
    let mut p = blank(2, 2, vec![]);
    p.v_edges[0][1].constraint =
        Some(EdgeConstraint { ctype: EdgeConstraintType::Difference, value: Some(2) });
    p.h_edges[1][0].constraint =
        Some(EdgeConstraint { ctype: EdgeConstraintType::Inequality, value: None });
    let t = collect_edge_constraints_data(&p);
    assert_eq!(t.len(), 2);
    assert_eq!(t[0], ([1, 0], [1, 1], EdgeConstraintType::Inequality, None));
    assert_eq!(t[1], ([0, 1], [1, 1], EdgeConstraintType::Difference, Some(2)));
}

fn index_2x2() -> Vec<Vec<usize>> {
    vec![vec![0, 1], vec![2, 3]]
}

#[test]
fn edge_constraints_keep_rows_apart() {
    let econs = vec![([0, 0], [0, 1], EdgeConstraintType::Inequality, None)];
    let mut rows: HashMap<usize, usize> = HashMap::new();
    rows.insert(0, 7);
    assert!(econs_rows_ok(&econs, &index_2x2(), &rows));
    rows.insert(1, 8);
    assert!(econs_rows_ok(&econs, &index_2x2(), &rows));
    rows.insert(1, 7);
    assert!(!econs_rows_ok(&econs, &index_2x2(), &rows));
}

#[test]
fn watchtower_bounds_follow_rows_and_open_cells() {
    let wt = vec![(vec![[0, 0], [0, 1], [1, 0], [1, 1]], 3)];
    let mut rows: HashMap<usize, usize> = HashMap::new();
    // No cell placed: between 1 and 4 regions are still possible.
    assert!(watchtower_rows_ok(&wt, &index_2x2(), &rows));
    rows.insert(0, 5);
    rows.insert(1, 5);
    rows.insert(2, 5);
    // One region so far and one open cell: at most 2.
    assert!(!watchtower_rows_ok(&wt, &index_2x2(), &rows));
    rows.insert(2, 6);
    // Two regions and one open cell: 3 still fits.
    assert!(watchtower_rows_ok(&wt, &index_2x2(), &rows));
    rows.insert(3, 6);
    // All placed in two regions: 3 no longer fits.
    assert!(!watchtower_rows_ok(&wt, &index_2x2(), &rows));
}

#[test]
fn polyominoes_of_two_and_three_cells() {
    let p = blank(2, 2, vec![]);
    let mut twos = Vec::new();
    generate_polyominoes(&p, 0, 0, 2, &mut twos);
    assert_eq!(twos, vec![vec![[0, 0], [0, 1]], vec![[0, 0], [1, 0]]]);
    let mut threes = Vec::new();
    generate_polyominoes(&p, 0, 0, 3, &mut threes);
    assert_eq!(
        threes,
        vec![
            vec![[0, 0], [0, 1], [1, 0]],
            vec![[0, 0], [0, 1], [1, 1]],
            vec![[0, 0], [1, 0], [1, 1]],
        ]
    );
    let mut none = Vec::new();
    generate_polyominoes(&p, 0, 0, 0, &mut none);
    assert!(none.is_empty());
}

#[test]
fn polyominoes_stop_at_blocked_cells_and_boundaries() {
    let mut p = blank(1, 3, vec![]);
    p.h_edges[0][1].is_boundary = true;
    let mut out = Vec::new();
    generate_polyominoes(&p, 0, 0, 3, &mut out);
    assert!(out.is_empty());
    generate_polyominoes(&p, 0, 0, 2, &mut out);
    assert_eq!(out, vec![vec![[0, 0], [0, 1]]]);
    let mut q = blank(1, 3, vec![]);
    q.cells[0][1].blocked = true;
    let mut out2 = Vec::new();
    generate_polyominoes(&q, 0, 0, 2, &mut out2);
    assert!(out2.is_empty());
}

#[test]
fn distinct_rows_compare_shape_keys() {
    let keys = vec!["I2".to_string(), "L3".to_string(), "I2".to_string()];
    assert!(distinct_rows_ok(true, &keys, &[0, 1]));
    assert!(!distinct_rows_ok(true, &keys, &[0, 1, 2]));
    assert!(distinct_rows_ok(false, &keys, &[0, 2]));
    assert!(distinct_rows_ok(true, &keys, &[]));
}

#[test]
fn rose_signature_needs_one_of_each_symbol() {
    let mut p = blank(1, 4, vec![]);
    p.cells[0][0].symbol = Some("a".to_string());
    p.cells[0][1].symbol = Some("b".to_string());
    p.cells[0][2].symbol = Some("a".to_string());
    let types = vec!["a".to_string(), "b".to_string()];
    assert!(rose_signature_ok(&p, &[[0, 0], [0, 1], [0, 3]], &types));
    assert!(!rose_signature_ok(&p, &[[0, 0], [0, 1], [0, 2]], &types));
    assert!(!rose_signature_ok(&p, &[[0, 0], [0, 3]], &types));
    assert!(rose_signature_ok(&p, &[[0, 0], [0, 2]], &[]));
}

fn placement(cells: Vec<[usize; 2]>) -> Placement {
    let area = cells.len();
    Placement { shape: cells.clone(), cell_ids_flat: Vec::new(), cells, area }
}

#[test]
fn cell_clues_check_area_compass_and_pattern() {
    let mut p = blank(2, 2, vec![]);
    p.cells[0][0].number = Some(2);
    p.cells[1][1].compass = Some(CompassClue { up: Some(1), down: None, left: None, right: None });
    let placements = vec![
        placement(vec![[0, 0], [0, 1]]),
        placement(vec![[0, 0], [1, 0], [1, 1]]),
        placement(vec![[1, 1], [0, 1]]),
        placement(vec![[1, 1], [1, 0]]),
        placement(vec![[0, 1]]),
    ];
    let keys =
        vec!["I2".to_string(), "L3".to_string(), "I2".to_string(), "I2".to_string(), "L3".to_string()];
    assert!(cell_clue_rows_ok(&p, &placements, &keys, &[], &[0, 2]));
    // The area number 2 rejects a three-cell region.
    assert!(!cell_clue_rows_ok(&p, &placements, &keys, &[], &[1]));
    // The compass wants one cell above (1, 1).
    assert!(!cell_clue_rows_ok(&p, &placements, &keys, &[], &[3]));
    // A shape pattern at (0, 1) wants an L.
    let pat = vec![(0usize, 1usize, "L3".to_string())];
    assert!(!cell_clue_rows_ok(&p, &placements, &keys, &pat, &[0]));
    assert!(cell_clue_rows_ok(&p, &placements, &keys, &pat, &[4]));
}
