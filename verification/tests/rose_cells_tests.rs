use rsolver::rose::cells::{edge_key, CellSet, PreBoundaries};
use rsolver::types::{Cell, Edge, Puzzle, Vertex};

#[test]
fn cellset_basic() {
    let mut cs = CellSet::new(130);
    assert!(cs.is_empty());
    cs.insert(0);
    cs.insert(100);
    assert!(cs.contains(0));
    assert!(cs.contains(100));
    assert_eq!(cs.len(), 2);
    let mut other = CellSet::new(130);
    other.insert(100);
    assert!(other.is_subset(&cs));
    assert!(!cs.is_subset(&other));
    assert!(cs.is_disjoint(&CellSet::new(130)));
    cs.remove(0);
    assert!(!cs.contains(0));
    let items: Vec<usize> = cs.iter();
    assert_eq!(items, vec![100]);
}

#[test]
fn edge_key_canonical() {
    assert_eq!(edge_key(1, 2, 1, 1), edge_key(1, 1, 1, 2));
    assert_eq!(edge_key(0, 0, 1, 0), edge_key(1, 0, 0, 0));
    assert_ne!(edge_key(0, 0, 1, 0), edge_key(0, 0, 0, 1));
}

#[test]
fn cellset_union_and_copy() {
    let mut a = CellSet::new(70);
    a.insert(3);
    let mut b = CellSet::new(70);
    b.insert(65);
    a.union_into(&b);
    assert_eq!(a.iter(), vec![3, 65]);
    let c = a.copy();
    assert_eq!(c.iter(), vec![3, 65]);
    assert_eq!(c.len_bits(), 128);
    assert!(!a.is_disjoint(&b));
}

#[test]
fn edge_key_packs_the_smaller_cell_first() {
    assert_eq!(edge_key(0, 1, 0, 0), 1u32);
    assert_eq!(edge_key(2, 3, 2, 4), (2u32 << 24) | (3u32 << 16) | (2u32 << 8) | 4u32);
}

#[test]
fn pre_boundaries_follow_the_puzzle_flags() {
    let cell = |row: usize, col: usize| Cell {
        row,
        col,
        blocked: false,
        number: None,
        compass: None,
        symbol: None,
        fence_pattern: None,
        shape_pattern: None,
    };
    let plain = Edge { is_boundary: false, constraint: None };
    let wall = Edge { is_boundary: true, constraint: None };
    let p = Puzzle {
        height: 2,
        width: 2,
        cells: (0..2).map(|r| (0..2).map(|c| cell(r, c)).collect()).collect(),
        h_edges: vec![vec![wall], vec![plain]],
        v_edges: vec![vec![plain, wall]],
        vertices: (0..3).map(|_| vec![Vertex { watchtower: None }; 3]).collect(),
        rules: Vec::new(),
        shape_pool: Vec::new(),
    };
    let b = PreBoundaries::from_puzzle(&p);
    assert!(b.contains(0, 0, 0, 1));
    assert!(b.contains(0, 1, 0, 0));
    assert!(!b.contains(1, 0, 1, 1));
    assert!(b.contains(0, 1, 1, 1));
    assert!(!b.contains(0, 0, 1, 0));
    assert!(!b.contains(0, 0, 1, 1));
    assert!(!b.is_empty());
}
