use vstd::prelude::*;

verus! {

/// Everything that can go wrong in a simulation run.
///
/// Configuration and out-of-range errors are fatal: the run aborts at once
/// and no partial result is produced. An empty trace is reported as an
/// explicit error rather than leaving the rates undefined.
#[derive(Debug, PartialEq, Eq, Structural, Clone, Copy)]
pub enum SimulationError {
    /// The address-space parameters are unusable: zero TLB capacity, a page
    /// offset wider than the address, or sizes beyond what the machine word
    /// can hold.
    Configuration,
    /// An address decomposed to a page number outside the page table.
    OutOfRangeAddress,
    /// The trace holds no operations, so hit and miss rates are undefined.
    EmptyTrace,
    /// A trace line is not a hexadecimal address with an optional tag.
    InvalidTraceLine,
}

} // verus!
