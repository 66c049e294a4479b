//! The proof backends that field elements are handed to, as far as this
//! library decides anything about them.

use vstd::prelude::*;

verus! {

/// The GM17 scheme over the MNT6 curve.
#[allow(non_camel_case_types)]
pub struct GM17_MNT6 {}

impl GM17_MNT6 {
    pub fn new() -> (r: GM17_MNT6)
        ensures
            r == (GM17_MNT6 {}),
    {
        GM17_MNT6 {}
    }
}

/// The PGHR13 scheme over the MNT4 curve.
#[allow(non_camel_case_types)]
pub struct PGHR13_MNT4 {}

impl PGHR13_MNT4 {
    pub fn new() -> (r: PGHR13_MNT4)
        ensures
            r == (PGHR13_MNT4 {}),
    {
        PGHR13_MNT4 {}
    }
}

/// The two ways in which proofs over one curve are aggregated into a proof
/// over the other.
#[derive(Debug, Clone, Copy, PartialEq, Eq, Structural)]
pub enum BatchRoute {
    /// Proofs over MNT4, aggregated over MNT6.
    Mnt4ToMnt6,
    /// Proofs over MNT6, aggregated over MNT4.
    Mnt6ToMnt4,
}

/// The route that a pair of curve names asks for, if it is a supported one.
pub open spec fn route_of(from_curve: Seq<char>, to_curve: Seq<char>) -> Option<BatchRoute> {
    if from_curve == "MNT4"@ && to_curve == "MNT6"@ {
        Some(BatchRoute::Mnt4ToMnt6)
    } else if from_curve == "MNT6"@ && to_curve == "MNT4"@ {
        Some(BatchRoute::Mnt6ToMnt4)
    } else {
        None
    }
}

/// Whether two strings hold the same text.
fn same_text(a: &str, b: &str) -> (r: bool)
    ensures
        r == (a@ == b@),
{
    a.to_owned() == b.to_owned()
}

/// Picks the aggregation backend for a pair of curve names: `MNT4` to
/// `MNT6`, or `MNT6` to `MNT4`. Any other pair is not supported.
pub fn batch_route(from_curve: &str, to_curve: &str) -> (r: Option<BatchRoute>)
    ensures
        r == route_of(from_curve@, to_curve@),
{
    if same_text(from_curve, "MNT4") && same_text(to_curve, "MNT6") {
        Some(BatchRoute::Mnt4ToMnt6)
    } else if same_text(from_curve, "MNT6") && same_text(to_curve, "MNT4") {
        Some(BatchRoute::Mnt6ToMnt4)
    } else {
        None
    }
}

} // verus!
