//! The puzzle model shared by the solvers: a rectangular grid of cells with
//! clues, the edges between side-adjacent cells, the grid-point vertices and
//! the rule list.
//!
//! `h_edges[r][c]` separates `(r, c)` from `(r, c + 1)` (so a row has
//! `width - 1` of them); `v_edges[r][c]` separates `(r, c)` from `(r + 1, c)`
//! (`height - 1` rows of `width`).  `vertices[i][j]` is the grid point at the
//! top-left corner of cell `(i, j)`, for `0 <= i <= height`, `0 <= j <= width`.

use vstd::prelude::*;

verus! {

/// Compass clue: the number of region cells in each half-plane around the
/// clued cell (`up` = smaller rows, `left` = smaller columns).  `None` (or a
/// negative count) means the direction is unconstrained.
#[derive(Clone, Copy, Debug)]
pub struct CompassClue {
    pub up: Option<i64>,
    pub down: Option<i64>,
    pub left: Option<i64>,
    pub right: Option<i64>,
}

#[derive(Clone, Debug)]
pub struct Cell {
    pub row: usize,
    pub col: usize,
    pub blocked: bool,
    pub number: Option<i64>,
    pub compass: Option<CompassClue>,
    pub symbol: Option<String>,
    /// A 3x3 cross: the centre `[1,1]` plus one marker per boundary side
    /// (`[0,1]` up, `[2,1]` down, `[1,0]` left, `[1,2]` right).
    pub fence_pattern: Option<Vec<[usize; 2]>>,
    /// The shape (up to rotation/reflection) of the region holding this cell.
    pub shape_pattern: Option<Vec<[usize; 2]>>,
}

impl Cell {
    /// A cell can be covered by a region iff it is not blocked.
    pub open spec fn spec_fillable(&self) -> bool {
        !self.blocked
    }

    pub fn fillable(&self) -> (r: bool)
        ensures
            r == self.spec_fillable(),
    {
        !self.blocked
    }
}

#[derive(Clone, Copy, PartialEq, Eq, Structural, Debug)]
pub enum EdgeConstraintType {
    Inequality,
    Difference,
    Heterogeneous,
    Homogeneous,
}

#[derive(Clone, Copy, Debug)]
pub struct EdgeConstraint {
    pub ctype: EdgeConstraintType,
    pub value: Option<i64>,
}

#[derive(Clone, Copy, Debug)]
pub struct Edge {
    /// A pre-drawn region boundary.
    pub is_boundary: bool,
    pub constraint: Option<EdgeConstraint>,
}

#[derive(Clone, Copy, Debug)]
pub struct Vertex {
    pub watchtower: Option<i64>,
}

/// The rule types a puzzle can carry; `Other` stands for any name this
/// library does not know.
#[derive(Clone, Copy, PartialEq, Eq, Structural, Debug)]
pub enum RuleType {
    Ring,
    Brick,
    Watchtower,
    Compass,
    Inequality,
    Difference,
    Area,
    Precise,
    Range,
    Fence,
    Differentiation,
    Block,
    NonBlock,
    Solitary,
    RoseWindow,
    Same,
    Different,
    Homogeneous,
    Mixed,
    Heterogeneous,
    PuzzlePiece,
    ShapePool,
    Other,
}

/// The numeric rule parameters the solvers read (`precise`'s `area`,
/// `range`'s `min` and `max`); `None` when absent or not a non-negative
/// integer.
#[derive(Clone, Copy, Debug)]
pub struct RuleParams {
    pub area: Option<u64>,
    pub min: Option<u64>,
    pub max: Option<u64>,
}

#[derive(Clone, Copy, Debug)]
pub struct Rule {
    pub ctype: RuleType,
    pub params: RuleParams,
}

#[derive(Clone, Debug)]
pub struct Puzzle {
    pub height: usize,
    pub width: usize,
    pub cells: Vec<Vec<Cell>>,
    pub h_edges: Vec<Vec<Edge>>,
    pub v_edges: Vec<Vec<Edge>>,
    pub vertices: Vec<Vec<Vertex>>,
    pub rules: Vec<Rule>,
    pub shape_pool: Vec<Vec<[isize; 2]>>,
}

impl Puzzle {
    /// Every table has the dimensions the grid size calls for, and every
    /// grid-point index fits in a `usize`.
    pub open spec fn wf(&self) -> bool {
        &&& self.cells@.len() == self.height
        &&& forall|r: int| 0 <= r < self.height ==> (#[trigger] self.cells@[r])@.len() == self.width
        &&& self.h_edges@.len() == self.height
        &&& forall|r: int|
            0 <= r < self.height ==> (#[trigger] self.h_edges@[r])@.len() + 1 >= self.width
        &&& self.v_edges@.len() + 1 >= self.height
        &&& forall|r: int|
            0 <= r < self.v_edges@.len() ==> (#[trigger] self.v_edges@[r])@.len() >= self.width
        &&& self.vertices@.len() == self.height + 1
        &&& forall|r: int|
            0 <= r <= self.height ==> (#[trigger] self.vertices@[r])@.len() == self.width + 1
        &&& 2 * ((self.height + 1) * (self.width + 1)) <= usize::MAX
    }

    pub open spec fn cell(&self, r: int, c: int) -> Cell {
        self.cells@[r]@[c]
    }

    pub open spec fn has_rule(&self, t: RuleType) -> bool {
        exists|i: int| 0 <= i < self.rules@.len() && (#[trigger] self.rules@[i]).ctype == t
    }

    /// Whether any rule's type is `t`.
    pub fn has_rule_type(&self, t: RuleType) -> (r: bool)
        ensures
            r == self.has_rule(t),
    {
        let mut i: usize = 0;
        while i < self.rules.len()
            invariant
                i <= self.rules@.len(),
                forall|k: int| 0 <= k < i ==> (#[trigger] self.rules@[k]).ctype != t,
            decreases self.rules@.len() - i,
        {
            if self.rules[i].ctype == t {
                return true;
            }
            i = i + 1;
        }
        false
    }
}

} // verus!
