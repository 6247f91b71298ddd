//! How the statuses of torrents compare.
use vstd::prelude::*;
use core::cmp::Ordering;
use vstd::std_specs::cmp::PartialOrdSpecImpl;
use crate::bittorrent::manager::Status;

verus! {

impl PartialOrd for Status {
    /// Statuses are not ranked: every status compares as equal to every other.
    fn partial_cmp(&self, other: &Status) -> (r: Option<Ordering>) {
        Some(Ordering::Equal)
    }
}

impl PartialOrdSpecImpl for Status {
    open spec fn obeys_partial_cmp_spec() -> bool {
        true
    }

    open spec fn partial_cmp_spec(&self, other: &Status) -> Option<Ordering> {
        Some(Ordering::Equal)
    }
}

} // verus!
