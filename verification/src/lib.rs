//! Region-partition puzzle solver support library: grid geometry, an
//! edge-variable constraint store with trail-based backtracking, a parity
//! union-find, polyomino canonicalisation, cell bitsets and the clue checks
//! that the solvers share.

pub mod clock;
pub mod dispatch;
pub mod edge_csp;
pub mod fence;
pub mod pieces;
pub mod reach;
pub mod rose;
pub mod types;
