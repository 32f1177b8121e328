use vstd::prelude::*;

verus! {

/// Why a carving step refused its input.
#[derive(Clone, Copy, Debug, PartialEq, Eq, Structural)]
pub enum CarveError {
    /// An energy map was asked of a picture without columns or without rows.
    InvalidDimensions,
    /// A seam was asked of an energy grid that holds no cell.
    EmptyEnergyMap,
    /// The seam does not name exactly one pixel of the picture in every row.
    SeamRowMismatch,
    /// More columns were to be trimmed than the picture can lose.
    InvalidTrimWidth,
}

} // verus!
