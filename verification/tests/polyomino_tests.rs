use rsolver::edge_csp::polyomino::{canonical, make_shape, normalize, rotate, Rotation};

#[test]
fn canonical_idempotent() {
    let l = make_shape(&[(0, 0), (1, 0), (2, 0)]);
    assert_eq!(canonical(&canonical(&l)), canonical(&l));
    let rot = make_shape(&rotate(&l.cells, Rotation::R90, false));
    assert_eq!(canonical(&rot), canonical(&l));
}

#[test]
fn canonical_rotation_invariant() {
    let s = make_shape(&[(0, 0), (0, 1), (1, 1)]);
    for rot in Rotation::all() {
        let r = make_shape(&rotate(&s.cells, rot, false));
        assert_eq!(canonical(&r), canonical(&s));
    }
}

#[test]
fn normalize_shifts_to_origin_and_sorts() {
    assert_eq!(normalize(&[(5, 3), (4, 4), (4, 3)]), vec![(0, 0), (0, 1), (1, 0)]);
    assert_eq!(normalize(&[]), Vec::<(i32, i32)>::new());
}

#[test]
fn make_shape_records_bounding_box() {
    let s = make_shape(&[(2, 2), (3, 2), (3, 3)]);
    assert_eq!(s.height, 2);
    assert_eq!(s.width, 2);
    assert_eq!(s.cells, vec![(0, 0), (1, 0), (1, 1)]);
}

#[test]
fn rotate_quarter_turn() {
    assert_eq!(rotate(&[(0, 1)], Rotation::R90, false), vec![(1, 0)]);
    assert_eq!(rotate(&[(0, 1)], Rotation::R0, true), vec![(0, -1)]);
}
