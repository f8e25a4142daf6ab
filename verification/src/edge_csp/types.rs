//! Edge-variable CSP solver types: three-state edges, clues and global rules.

use vstd::prelude::*;

verus! {

pub type CellId = usize;

pub type EdgeId = usize;

pub type VertexId = usize;

/// Three-state edge variable: undecided, or forced to a boundary (`Cut`) or an
/// internal edge (`Uncut`).
#[derive(Clone, Copy, PartialEq, Eq, Structural, Debug)]
pub enum EdgeState {
    Unknown,
    Cut,
    Uncut,
}

/// Compass clue: how many piece cells lie in each direction relative to the
/// clued cell.  `n`/`s`/`e`/`w` correspond to north (smaller row), south
/// (larger row), east (larger col), west (smaller col).  A `None` direction
/// carries no information; the clued cell itself is never counted.
#[derive(Clone, Copy, Debug)]
pub struct CompassData {
    pub n: Option<usize>,
    pub s: Option<usize>,
    pub e: Option<usize>,
    pub w: Option<usize>,
}

/// Dihedral class of a fence (palisade) cross: which of the four sides of the
/// clued cell are region boundaries, up to rotation and reflection.
#[derive(Clone, Copy, PartialEq, Eq, Structural, Debug)]
pub enum PalisadeKind {
    Empty,
    One,
    Opposite,
    Adjacent,
    Three,
    All,
}

/// Side mask of a star in `[north, south, west, east]` bit order
/// (bit 0 = north, bit 1 = south, bit 2 = west, bit 3 = east).
pub open spec fn palisade_base_mask(kind: PalisadeKind) -> u8 {
    match kind {
        PalisadeKind::Empty => 0,
        PalisadeKind::One => 1,
        PalisadeKind::Opposite => 3,
        PalisadeKind::Adjacent => 9,
        PalisadeKind::Three => 11,
        PalisadeKind::All => 15,
    }
}

/// Quarter turn clockwise of a side mask: north goes east, east goes south,
/// south goes west and west goes north.
pub open spec fn mask_quarter_turn(m: u8) -> u8 {
    (if m & 4 != 0 { 1u8 } else { 0u8 }) | (if m & 8 != 0 { 2u8 } else { 0u8 }) | (if m & 2
        != 0 {
        4u8
    } else {
        0u8
    }) | (if m & 1 != 0 { 8u8 } else { 0u8 })
}

pub open spec fn mask_turns(m: u8, k: nat) -> u8
    decreases k,
{
    if k == 0 {
        m
    } else {
        mask_quarter_turn(mask_turns(m, (k - 1) as nat))
    }
}

pub open spec fn palisade_arms(kind: PalisadeKind) -> u8 {
    match kind {
        PalisadeKind::Empty => 0,
        PalisadeKind::One => 1,
        PalisadeKind::Opposite => 2,
        PalisadeKind::Adjacent => 2,
        PalisadeKind::Three => 3,
        PalisadeKind::All => 4,
    }
}

fn quarter_turn(m: u8) -> (r: u8)
    ensures
        r == mask_quarter_turn(m),
{
    (if m & 4 != 0 { 1u8 } else { 0u8 }) | (if m & 8 != 0 { 2u8 } else { 0u8 }) | (if m & 2
        != 0 {
        4u8
    } else {
        0u8
    }) | (if m & 1 != 0 { 8u8 } else { 0u8 })
}

impl PalisadeKind {
    /// Arm count and side mask of this kind turned `rot` quarter turns.
    pub fn pattern_at_rotation(self, rot: usize) -> (r: (u8, u8))
        requires
            rot < 4,
        ensures
            r.0 == palisade_arms(self),
            r.1 == mask_turns(palisade_base_mask(self), rot as nat),
    {
        let (count, base): (u8, u8) = match self {
            PalisadeKind::Empty => (0, 0),
            PalisadeKind::One => (1, 1),
            PalisadeKind::Opposite => (2, 3),
            PalisadeKind::Adjacent => (2, 9),
            PalisadeKind::Three => (3, 11),
            PalisadeKind::All => (4, 15),
        };
        let mut m: u8 = base;
        let mut i: usize = 0;
        while i < rot
            invariant
                i <= rot,
                m == mask_turns(base, i as nat),
                base == palisade_base_mask(self),
            decreases rot - i,
        {
            m = quarter_turn(m);
            i = i + 1;
        }
        (count, m)
    }
}

/// Cell-level clue (at most one per cell in the source model).
#[derive(Clone, Copy, Debug)]
pub enum CellClue {
    Area { cell: CellId, value: usize },
    Compass { cell: CellId, compass: CompassData },
    Palisade { cell: CellId, kind: PalisadeKind },
}

pub open spec fn clue_cell(c: CellClue) -> CellId {
    match c {
        CellClue::Area { cell, .. } => cell,
        CellClue::Compass { cell, .. } => cell,
        CellClue::Palisade { cell, .. } => cell,
    }
}

impl CellClue {
    pub fn cell(&self) -> (r: CellId)
        ensures
            r == clue_cell(*self),
    {
        match self {
            CellClue::Area { cell, .. } => *cell,
            CellClue::Compass { cell, .. } => *cell,
            CellClue::Palisade { cell, .. } => *cell,
        }
    }
}

/// Semantic meaning of a (necessarily cut) edge clue.
#[derive(Clone, Copy, PartialEq, Eq, Structural, Debug)]
pub enum EdgeClueKind {
    /// `smaller_first` = the cell with the smaller CellId has the smaller area.
    Inequality { smaller_first: bool },
    /// The two adjacent pieces differ in area by exactly `value` (unsigned).
    Diff { value: usize },
}

#[derive(Clone, Copy, Debug)]
pub struct EdgeClue {
    pub edge: EdgeId,
    pub kind: EdgeClueKind,
}

/// Vertex-level clue (watchtower: number of distinct pieces meeting there).
#[derive(Clone, Copy, Debug)]
pub struct VertexClue {
    pub vertex: VertexId,
    pub value: usize,
}

/// Global rules relevant to the edge-variable propagators.
#[derive(Clone, Copy, Debug)]
pub struct GlobalRules {
    pub bricky: bool,
    pub loopy: bool,
    pub size_separation: bool,
    /// Every region is a rectangle (`block`).
    pub boxy: bool,
    /// No region is a rectangle (`non_block`).
    pub non_boxy: bool,
}

/// A normalised polyomino: cells shifted so the minimum row and column are 0,
/// sorted, with the bounding-box height and width.
#[derive(Clone, Debug, PartialEq, Eq)]
pub struct Shape {
    pub height: i32,
    pub width: i32,
    pub cells: Vec<(i32, i32)>,
}

} // verus!
