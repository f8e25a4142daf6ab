use rsolver::edge_csp::{has_area_signal, is_edge_csp_capable, is_edge_csp_preempt};
use rsolver::types::{Cell, Edge, Puzzle, Rule, RuleParams, RuleType, Vertex};

fn cell(row: usize, col: usize) -> Cell {
    Cell {
        row,
        col,
        blocked: false,
        number: None,
        compass: None,
        symbol: None,
        fence_pattern: None,
        shape_pattern: None,
    }
}

fn rule(ctype: RuleType) -> Rule {
    Rule { ctype, params: RuleParams { area: None, min: None, max: None } }
}

fn blank(h: usize, w: usize, rules: Vec<Rule>) -> Puzzle {
    let plain = Edge { is_boundary: false, constraint: None };
    Puzzle {
        height: h,
        width: w,
        cells: (0..h).map(|r| (0..w).map(|c| cell(r, c)).collect()).collect(),
        h_edges: (0..h).map(|_| vec![plain; w.saturating_sub(1)]).collect(),
        v_edges: (0..h.saturating_sub(1)).map(|_| vec![plain; w]).collect(),
        vertices: (0..=h).map(|_| vec![Vertex { watchtower: None }; w + 1]).collect(),
        rules,
        shape_pool: Vec::new(),
    }
}

#[test]
fn edge_rule_puzzles_stay_capable() {
    let p = blank(2, 2, vec![rule(RuleType::Ring)]);
    assert!(is_edge_csp_capable(&p));
}

#[test]
fn area_only_with_numbers_is_capable() {
    let mut p = blank(2, 2, vec![rule(RuleType::Area)]);
    p.cells[0][0].number = Some(2);
    assert!(is_edge_csp_capable(&p));
}

#[test]
fn restrictive_range_only_is_capable() {
    let mut r = rule(RuleType::Range);
    r.params.min = Some(2);
    r.params.max = Some(3);
    let p = blank(2, 2, vec![r]);
    assert!(is_edge_csp_capable(&p));
}

#[test]
fn vacuous_range_only_stays_out() {
    // min=1 / max=4 == #fillable on a 2x2 board: nothing to propagate.
    let mut r = rule(RuleType::Range);
    r.params.min = Some(1);
    r.params.max = Some(4);
    let p = blank(2, 2, vec![r]);
    assert!(!is_edge_csp_capable(&p));
}

#[test]
fn unsupported_rule_stays_out() {
    let p = blank(2, 2, vec![rule(RuleType::RoseWindow), rule(RuleType::Area)]);
    assert!(!is_edge_csp_capable(&p));
}

#[test]
fn no_area_information_stays_out() {
    // `differentiation` alone is supported but carries no area signal.
    let p = blank(2, 2, vec![rule(RuleType::Differentiation)]);
    assert!(!is_edge_csp_capable(&p));
}

#[test]
fn unknown_rule_is_refused_even_with_edge_rule() {
    let p = blank(2, 2, vec![rule(RuleType::Ring), rule(RuleType::PuzzlePiece)]);
    assert!(!is_edge_csp_capable(&p));
}

#[test]
fn number_on_blocked_cell_is_no_signal() {
    let mut p = blank(2, 2, vec![rule(RuleType::Area)]);
    p.cells[1][1].blocked = true;
    p.cells[1][1].number = Some(3);
    assert!(!has_area_signal(&p));
    p.cells[0][1].number = Some(3);
    assert!(has_area_signal(&p));
}

#[test]
fn range_max_below_fillable_is_signal() {
    let mut r = rule(RuleType::Range);
    r.params.max = Some(3);
    let p = blank(2, 2, vec![r]);
    assert!(has_area_signal(&p));
    let mut q = rule(RuleType::Precise);
    q.params.area = Some(2);
    assert!(has_area_signal(&blank(2, 2, vec![q])));
}

#[test]
fn preempt_needs_edge_rule_without_size_rule() {
    assert!(is_edge_csp_preempt(&blank(2, 2, vec![rule(RuleType::Ring)])));
    let mut q = rule(RuleType::Precise);
    q.params.area = Some(2);
    assert!(!is_edge_csp_preempt(&blank(2, 2, vec![rule(RuleType::Ring), q])));
    assert!(!is_edge_csp_preempt(&blank(2, 2, vec![rule(RuleType::Differentiation)])));
}
