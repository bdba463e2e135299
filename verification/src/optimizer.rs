//! The optimizer: asks the loom for a rewritten atom when a node's measured
//! evaluation time crosses a threshold.

use vstd::prelude::*;
use vstd::string::*;
use crate::LogicAtom;
use crate::blob::BlobStore;
use crate::loom::{AetherLoom, weave_plan, woven_atom, blob_written};

verus! {

/// Watches evaluation timings and requests an optimized weave for nodes
/// slower than its threshold.
#[derive(Debug)]
pub struct AetherOptimizer {
    threshold_ns: u128,
}

/// The intent the optimizer asks the loom to weave for a slow node.
pub open spec fn optimize_intent(hash: Seq<char>) -> Seq<char> {
    "Optimize the logic for the node with hash "@ + hash + ". Goal: Reduce execution time."@
}

impl AetherOptimizer {
    /// The threshold this optimizer was made with.
    pub closed spec fn threshold(&self) -> u128 {
        self.threshold_ns
    }

    pub fn new(threshold_ns: u128) -> (r: Self)
        ensures
            r.threshold() == threshold_ns,
    {
        Self { threshold_ns }
    }

    /// When a node's duration crosses the threshold, asks the loom to weave
    /// a replacement from an optimization intent naming the node's hash;
    /// a duration at or under the threshold asks for nothing.
    pub fn optimize_if_needed(
        &self,
        hash: &str,
        duration: u128,
        loom: &AetherLoom,
        blobs: &mut BlobStore,
    ) -> (r: Option<LogicAtom>)
        requires
            old(blobs).wf(),
        ensures
            final(blobs).wf(),
            duration <= self.threshold() ==> r is None && final(blobs).view_map() == old(
                blobs,
            ).view_map(),
            duration > self.threshold() ==> match r {
                Some(a) => {
                    &&& weave_plan(optimize_intent(hash@)) is Some
                    &&& woven_atom(
                        a@,
                        weave_plan(optimize_intent(hash@))->Some_0,
                        crate::spec_global_context(),
                    )
                    &&& blob_written(
                        old(blobs).view_map(),
                        final(blobs).view_map(),
                        weave_plan(optimize_intent(hash@))->Some_0.payload,
                    )
                },
                None => weave_plan(optimize_intent(hash@)) is None && final(blobs).view_map()
                    == old(blobs).view_map(),
            },
    {
        if duration > self.threshold_ns {
            let mut intent = String::from_str("Optimize the logic for the node with hash ");
            intent.append(hash);
            intent.append(". Goal: Reduce execution time.");
            match loom.weave(intent.as_str(), blobs) {
                Ok(atom) => Some(atom),
                Err(_) => None,
            }
        } else {
            None
        }
    }
}

} // verus!
