//! Computes an airdrop distribution from a chain state export: delegations
//! are summed per delegator address, a whale cap bounds each account, and
//! accounts strictly above a minimum staked amount make up the report.
use vstd::prelude::*;

pub mod digits;
pub mod aggregate;
pub mod doc;
pub mod pipeline;
pub mod report;

verus! {

/// The ways a run can fail before a report exists.
///
/// `Parse` is a malformed document; `Schema` is a well-formed document whose
/// delegations list, record fields, or shares values are missing or of the
/// wrong shape; `Overflow` is a total drop amount beyond the supported range.
#[derive(Clone, Copy, Debug, PartialEq, Eq, Structural)]
pub enum DropError {
    Parse,
    Schema,
    Overflow,
}

} // verus!
