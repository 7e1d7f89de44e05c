//! The candidate admission state machine: approval votes, resource proof
//! and final admission into a block.

use vstd::prelude::*;
use crate::block::Block;
use crate::blocks::is_quorum_of;
use crate::members::{insert_name, is_quorum_spec, sorted_names};
use crate::name::Name;
use crate::params::CandidateParams;
use crate::random::rand_int;

verus! {

/// The states a candidate passes through before entering a block.
pub enum Candidate {
    /// Seen, but our section has not yet voted to take it on.
    UnapprovedCandidate {
        /// Step at which we first became aware of this candidate.
        since: u64,
        /// Votes received from our section to approve this candidate.
        voters: Vec<Name>,
        /// Steps this node will take to complete resource proof.
        resource_proof_steps: u64,
    },
    /// Accepted as a candidate, still working through resource proof.
    ApprovedCandidate {
        /// Step at which resource proof began.
        since: u64,
        /// Steps this node will take to complete resource proof.
        resource_proof_steps: u64,
    },
    /// Passed resource proof; we vote to add it to a block.
    UnapprovedNode {
        /// Step at which the candidate passed resource proof.
        since: u64,
    },
}

impl Candidate {
    /// The voter list of an unapproved candidate is ordered.
    pub open spec fn wf(self) -> bool {
        match self {
            Candidate::UnapprovedCandidate { voters, .. } => sorted_names(voters@),
            _ => true,
        }
    }

    /// A fresh, unapproved candidate first seen at `step`, with a random
    /// resource-proof duration.
    pub fn new(params: &CandidateParams, step: u64) -> (r: Self)
        requires
            params.resource_proof_min < params.resource_proof_max,
        ensures
            r.wf(),
            r matches Candidate::UnapprovedCandidate { since, voters, resource_proof_steps }
                && since == step && voters@.len() == 0
                && params.resource_proof_min <= resource_proof_steps
                < params.resource_proof_max,
    {
        Candidate::UnapprovedCandidate {
            since: step,
            voters: Vec::new(),
            resource_proof_steps: rand_int(
                params.resource_proof_min,
                params.resource_proof_max,
            ),
        }
    }

    /// If resource proof has run its course in time, move to the
    /// waiting-for-a-block state and report success.
    pub fn check_resource_proof(&mut self, params: &CandidateParams, step: u64) -> (r: bool)
        requires
            old(self).wf(),
        ensures
            final(self).wf(),
            r == (*old(self) matches Candidate::ApprovedCandidate { since, resource_proof_steps }
                && step >= since + resource_proof_steps && !(step > since
                + params.resource_proof_timeout)),
            r ==> *final(self) == (Candidate::UnapprovedNode { since: step }),
            !r ==> *final(self) == *old(self),
    {
        let (is_ready, timed_out) = match *self {
            Candidate::ApprovedCandidate { since, resource_proof_steps } => {
                let ready = step >= since && step - since >= resource_proof_steps;
                let t = self.has_timed_out(params, step);
                (ready, t)
            },
            _ => (false, true),
        };
        if is_ready && !timed_out {
            *self = Candidate::UnapprovedNode { since: step };
            true
        } else {
            false
        }
    }

    /// The candidate has passed resource proof and is still fresh enough
    /// to be voted into a block.
    pub fn should_add_to_block(&self, params: &CandidateParams, step: u64) -> (r: bool)
        ensures
            r == (self matches Candidate::UnapprovedNode { since } && !(step > since
                + params.block_timeout)),
    {
        match *self {
            Candidate::UnapprovedNode { .. } => !self.has_timed_out(params, step),
            _ => false,
        }
    }

    /// Record an approval vote; when the voters reach a quorum of the
    /// current block's members, the candidate is approved and the voters
    /// are handed back.
    pub fn add_approval_vote(&mut self, current_block: &Block, voter: Name, step: u64) -> (r:
        Option<Vec<Name>>)
        requires
            old(self).wf(),
        ensures
            final(self).wf(),
            *old(self) is UnapprovedCandidate ==> {
                if r is Some {
                    &&& r matches Some(voters) && is_quorum_spec(voters@, current_block.members@)
                        && (forall|y: Name|
                        voters@.contains(y) <==> (old(
                            self,
                        )->UnapprovedCandidate_voters@.contains(y) || y == voter))
                    &&& *final(self) is ApprovedCandidate
                    &&& final(self)->ApprovedCandidate_since == step
                    &&& final(self)->ApprovedCandidate_resource_proof_steps == old(
                        self,
                    )->UnapprovedCandidate_resource_proof_steps
                } else {
                    &&& *final(self) is UnapprovedCandidate
                    &&& final(self)->UnapprovedCandidate_since == old(
                        self,
                    )->UnapprovedCandidate_since
                    &&& final(self)->UnapprovedCandidate_resource_proof_steps == old(
                        self,
                    )->UnapprovedCandidate_resource_proof_steps
                    &&& forall|y: Name|
                        final(self)->UnapprovedCandidate_voters@.contains(y) <==> (old(
                            self,
                        )->UnapprovedCandidate_voters@.contains(y) || y == voter)
                    &&& !is_quorum_spec(
                        final(self)->UnapprovedCandidate_voters@,
                        current_block.members@,
                    )
                }
            },
            !(*old(self) is UnapprovedCandidate) ==> r is None && *final(self) == *old(self),
    {
        match self {
            Candidate::UnapprovedCandidate { since: _, voters, resource_proof_steps } => {
                let new_voters = insert_name(voters, voter);
                let rps = *resource_proof_steps;
                if is_quorum_of(&new_voters, &current_block.members) {
                    *self = Candidate::ApprovedCandidate {
                        since: step,
                        resource_proof_steps: rps,
                    };
                    Some(new_voters)
                } else {
                    *voters = new_voters;
                    None
                }
            },
            _ => None,
        }
    }

    /// The candidate has outstayed the timeout of its current state.
    pub fn has_timed_out(&self, params: &CandidateParams, step: u64) -> (r: bool)
        ensures
            r == match *self {
                Candidate::UnapprovedCandidate { since, .. } => step > since
                    + params.approval_timeout,
                Candidate::ApprovedCandidate { since, .. } => step > since
                    + params.resource_proof_timeout,
                Candidate::UnapprovedNode { since } => step > since + params.block_timeout,
            },
    {
        match *self {
            Candidate::UnapprovedCandidate { since, .. } => step > since && step - since
                > params.approval_timeout,
            Candidate::ApprovedCandidate { since, .. } => step > since && step - since
                > params.resource_proof_timeout,
            Candidate::UnapprovedNode { since } => step > since && step - since
                > params.block_timeout,
        }
    }
}

} // verus!
