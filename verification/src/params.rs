//! Configuration of nodes, candidates and the simulation driver.

use vstd::prelude::*;

verus! {

/// Parameters of the simulation driver. Event probabilities are handled by
/// the caller that generates random events; the driver itself only needs to
/// know whether growth and shrinking phases are in use.
#[derive(Clone, Copy)]
pub struct SimulationParams {
    /// Maximum number of steps a message can be delayed before delivery.
    pub max_delay: u64,
    /// The starting phase is complete once the network reaches this size.
    pub starting_complete: usize,
    /// The growth phase is complete once the network reaches this size.
    pub grow_complete: usize,
    /// Number of steps the stable phase runs for.
    pub stable_steps: u64,
    /// Whether random joins drive a growth phase.
    pub grow_join_enabled: bool,
    /// Whether random drops drive a shrinking phase.
    pub shrink_drop_enabled: bool,
    /// Numerator of the per-step delivery probability; the deadline
    /// guarantees delivery within `max_delay` steps regardless.
    pub prob_deliver_num: u32,
    /// Denominator of the per-step delivery probability.
    pub prob_deliver_den: u32,
}

/// Parameters of a node.
#[derive(Clone, Copy)]
pub struct NodeParams {
    /// Minimum section size.
    pub min_section_size: usize,
    /// Nodes past the minimum that every section must hold when splitting.
    pub split_buffer: usize,
    /// Steps a candidate stays eligible for being voted into a block.
    pub join_timeout: u64,
    /// Steps to wait before shutting down when joining failed.
    pub self_shutdown_timeout: u64,
    /// Most valid blocks allowed for a single (prefix, version) pair;
    /// reaching it signals a consensus fault.
    pub max_conflicting_blocks: usize,
    /// Parameters of the candidate admission machinery.
    pub candidate_params: CandidateParams,
}

impl Default for NodeParams {
    fn default() -> (r: NodeParams)
        ensures
            r.min_section_size == 8,
            r.split_buffer == 1,
            r.join_timeout == 50,
            r.self_shutdown_timeout == 100,
            r.max_conflicting_blocks == 20,
    {
        NodeParams {
            min_section_size: 8,
            split_buffer: 1,
            join_timeout: 50,
            self_shutdown_timeout: 100,
            max_conflicting_blocks: 20,
            candidate_params: CandidateParams::default(),
        }
    }
}

impl NodeParams {
    /// A configuration where candidates must work through resource proof.
    pub fn with_resource_proof() -> (r: NodeParams)
        ensures
            r.self_shutdown_timeout == 500,
    {
        let base = NodeParams::default();
        NodeParams {
            self_shutdown_timeout: 500,
            candidate_params: CandidateParams::with_resource_proof(),
            ..base
        }
    }

    /// The largest of the node's timeouts.
    pub fn max_timeout(&self) -> (r: u64)
        ensures
            r >= self.self_shutdown_timeout,
            r >= self.candidate_params.approval_timeout,
            r >= self.candidate_params.resource_proof_timeout,
            r >= self.candidate_params.block_timeout,
            r == self.self_shutdown_timeout || r == self.candidate_params.approval_timeout || r
                == self.candidate_params.resource_proof_timeout || r
                == self.candidate_params.block_timeout,
    {
        let mut m = self.self_shutdown_timeout;
        if self.candidate_params.approval_timeout > m {
            m = self.candidate_params.approval_timeout;
        }
        if self.candidate_params.resource_proof_timeout > m {
            m = self.candidate_params.resource_proof_timeout;
        }
        if self.candidate_params.block_timeout > m {
            m = self.candidate_params.block_timeout;
        }
        m
    }
}

/// Parameters of candidate admission.
#[derive(Clone, Copy)]
pub struct CandidateParams {
    /// Steps to wait for a candidate to be approved as a candidate.
    pub approval_timeout: u64,
    /// Steps to wait for a candidate to pass resource proof.
    pub resource_proof_timeout: u64,
    /// Steps to wait for an approved node to enter a block.
    pub block_timeout: u64,
    /// Fewest steps resource proof can take.
    pub resource_proof_min: u64,
    /// Most steps resource proof can take; above the timeout, some
    /// candidates will fail.
    pub resource_proof_max: u64,
}

impl Default for CandidateParams {
    fn default() -> (r: CandidateParams)
        ensures
            r.approval_timeout == 50,
            r.resource_proof_timeout == 50,
            r.block_timeout == 50,
            r.resource_proof_min == 0,
            r.resource_proof_max == 10,
    {
        CandidateParams {
            approval_timeout: 50,
            resource_proof_timeout: 50,
            block_timeout: 50,
            resource_proof_min: 0,
            resource_proof_max: 10,
        }
    }
}

impl CandidateParams {
    /// A configuration with a long, mandatory resource proof.
    pub fn with_resource_proof() -> (r: CandidateParams)
        ensures
            r.approval_timeout == 60,
            r.resource_proof_timeout == 300,
            r.block_timeout == 60,
            r.resource_proof_min == 120,
            r.resource_proof_max == 300,
    {
        CandidateParams {
            approval_timeout: 60,
            resource_proof_timeout: 300,
            block_timeout: 60,
            resource_proof_min: 120,
            resource_proof_max: 300,
        }
    }
}

/// The number of votes required for a strict majority of `num_nodes`:
/// compare `num_votes >= quorum(num_nodes)`.
pub fn quorum(num_nodes: usize) -> (r: usize)
    ensures
        r == num_nodes / 2 + 1,
{
    (num_nodes / 2) + 1
}

} // verus!
