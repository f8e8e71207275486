//! Candidates with their timestamps, and the most recent among them.

use crate::method::Method;
use crate::select::{select_max, IterExt};
use vstd::laws_cmp::*;
use vstd::prelude::*;
use vstd::std_specs::iter::IteratorSpec;

verus! {

/// A path together with the timestamps that were read for it. A timestamp
/// counts nanoseconds from the Unix epoch, negative before it, and is absent
/// where it could not be read.
#[derive(Clone, Debug, PartialEq, Eq)]
pub struct Candidate<P> {
    pub path: P,
    pub accessed: Option<i128>,
    pub created: Option<i128>,
    pub modified: Option<i128>,
}

impl<P> Candidate<P> {
    /// The timestamp that `method` ranks by.
    pub open spec fn stamp(self, method: Method) -> Option<i128> {
        match method {
            Method::Accessed => self.accessed,
            Method::Created => self.created,
            Method::Modified => self.modified,
        }
    }
}

/// The timestamps of `items` that `method` ranks by, in order.
pub open spec fn stamps<P>(items: Seq<Candidate<P>>, method: Method) -> Seq<Option<i128>> {
    Seq::new(items.len(), |i: int| items[i].stamp(method))
}

/// The candidate of `items` whose timestamp is latest: the first of them
/// where several share it, none where no timestamp is present.
pub open spec fn most_recent<P>(items: Seq<Candidate<P>>, method: Method) -> Option<Candidate<P>> {
    select_max(items, stamps(items, method))
}

/// Streams of candidates, of which the most recent can be asked for.
pub trait MostRecently<P>: Iterator<Item = Candidate<P>> + Sized {
    /// Returns the candidate that `method` ranks latest.
    fn most_recently(self, method: Method) -> (winner: Option<Candidate<P>>)
        requires
            self.obeys_prophetic_iter_laws(),
            self.decrease() is Some,
        ensures
            winner == most_recent(self.remaining(), method),
    {
        broadcast use group_laws_cmp;
        let ghost items = self.remaining();
        let winner = match method {
            Method::Accessed => {
                let accessed = |candidate: &Candidate<P>| -> (key: Option<i128>)
                    ensures
                        key == candidate.accessed,
                    { candidate.accessed };
                self.max_by_maybe_key(accessed)
            },
            Method::Created => {
                let created = |candidate: &Candidate<P>| -> (key: Option<i128>)
                    ensures
                        key == candidate.created,
                    { candidate.created };
                self.max_by_maybe_key(created)
            },
            Method::Modified => {
                let modified = |candidate: &Candidate<P>| -> (key: Option<i128>)
                    ensures
                        key == candidate.modified,
                    { candidate.modified };
                self.max_by_maybe_key(modified)
            },
        };
        proof {
            assert forall|keys: Seq<Option<i128>>|
                keys.len() == items.len() && (forall|i: int|
                    0 <= i < items.len() ==> keys[i] == (#[trigger] items[i]).stamp(
                        method,
                    )) implies keys == stamps(items, method) by {
                assert(keys =~= stamps(items, method));
            }
        }
        winner
    }
}

impl<P, T> MostRecently<P> for T where T: Iterator<Item = Candidate<P>> {
}

} // verus!
