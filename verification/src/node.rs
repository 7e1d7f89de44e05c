//! The per-node state machine: ingest messages, extend the valid and
//! current block sets, vote, broadcast, prune and shut down.

use vstd::prelude::*;
use crate::block::{beq, Block, BlockId, Vote};
use crate::blocks::{
    contains_id, contains_vote, copy_ids, ids_stored, no_dup_ids, push_unique_id,
    spec_vote_quorum, valid_vote_props, vc_le, vc_stored, Blocks, VoteCounts,
};
use crate::members::{
    contains_name, copy_names, insert_name, remove_name, sorted_names, union_names,
};
use crate::message::{agreed_target, Message, MessageContent};
use crate::name::Name;
use crate::params::NodeParams;
use crate::merge::merge_blocks;
use crate::split::split_blocks;

verus! {

/// The number of recently sent messages remembered for deduplication.
pub const MESSAGE_FILTER_LEN: usize = 1024;

/// A candidate waiting to be voted into our blocks.
pub struct Candidate {
    pub step_added: u64,
}

impl Candidate {
    /// The candidate was added within the last `join_timeout` steps.
    pub fn is_recent(&self, join_timeout: u64, step: u64) -> (r: bool)
        ensures
            r == (self.step_added + join_timeout >= step),
    {
        if step <= self.step_added {
            true
        } else {
            step - self.step_added <= join_timeout
        }
    }
}

/// The set of nodes appearing in any of the given blocks.
pub fn nodes_in_any(all_blocks: &Blocks, blocks: &Vec<BlockId>) -> (r: Vec<Name>)
    requires
        all_blocks.wf(),
        ids_stored(*all_blocks, blocks@),
    ensures
        sorted_names(r@),
        forall|y: Name|
            r@.contains(y) <==> exists|k: int|
                0 <= k < blocks@.len() && all_blocks.spec_get(
                    #[trigger] blocks@[k],
                ).members@.contains(y),
{
    let mut acc: Vec<Name> = Vec::new();
    let mut i: usize = 0;
    while i < blocks.len()
        invariant
            all_blocks.wf(),
            ids_stored(*all_blocks, blocks@),
            i <= blocks@.len(),
            sorted_names(acc@),
            forall|y: Name|
                acc@.contains(y) <==> exists|k: int|
                    0 <= k < i && all_blocks.spec_get(#[trigger] blocks@[k]).members@.contains(y),
        decreases blocks@.len() - i,
    {
        let b = blocks[i].into_block(all_blocks);
        let merged = union_names(&acc, &b.members);
        proof {
            assert forall|y: Name|
                merged@.contains(y) <==> exists|k: int|
                    0 <= k < i + 1 && all_blocks.spec_get(
                        #[trigger] blocks@[k],
                    ).members@.contains(y) by {
                if merged@.contains(y) {
                    if acc@.contains(y) {
                        let k = choose|k: int|
                            0 <= k < i && all_blocks.spec_get(
                                #[trigger] blocks@[k],
                            ).members@.contains(y);
                    } else {
                        assert(all_blocks.spec_get(blocks@[i as int]).members@.contains(y));
                    }
                }
            }
        }
        acc = merged;
        i = i + 1;
    }
    acc
}

/// An element-for-element copy of a vote list.
pub fn copy_votes(v: &Vec<Vote>) -> (r: Vec<Vote>)
    ensures
        r@ == v@,
{
    let mut out: Vec<Vote> = Vec::new();
    let mut i: usize = 0;
    while i < v.len()
        invariant
            i <= v.len(),
            out@ == v@.take(i as int),
        decreases v.len() - i,
    {
        let e = v[i];
        out.push(e);
        assert(out@ == v@.take(i + 1 as int));
        i = i + 1;
    }
    proof {
        assert(v@.take(v@.len() as int) =~= v@);
    }
    out
}

/// Check that a voter list is strictly ordered.
pub fn check_sorted(v: &Vec<Name>) -> (r: bool)
    ensures
        r == sorted_names(v@),
{
    let mut i: usize = 0;
    if v.len() == 0 {
        return true;
    }
    while i < v.len() - 1
        invariant
            v@.len() > 0,
            i <= v@.len() - 1,
            forall|k: int| 0 <= k < i ==> (#[trigger] v@[k]).0 < v@[k + 1].0,
        decreases v.len() - i,
    {
        if v[i].0 >= v[i + 1].0 {
            return false;
        }
        i = i + 1;
    }
    proof {
        assert forall|a: int, b: int| 0 <= a < b < v@.len() implies v@[a].0 < v@[b].0 by {
            let mut c = a;
            assert forall|m: int, n: int|
                0 <= m < n < v@.len() implies v@[m].0 < v@[n].0 by {
                lemma_sorted_chain(v@, m, n);
            }
        }
    }
    true
}

proof fn lemma_sorted_chain(v: Seq<Name>, m: int, n: int)
    requires
        forall|k: int| 0 <= k < v.len() - 1 ==> (#[trigger] v[k]).0 < v[k + 1].0,
        0 <= m < n < v.len(),
    ensures
        v[m].0 < v[n].0,
    decreases n - m,
{
    if n == m + 1 {
    } else {
        lemma_sorted_chain(v, m, n - 1);
        assert(v[n - 1].0 < v[n].0);
    }
}

/// One node of the network.
pub struct Node {
    /// Our node's name.
    pub our_name: Name,
    /// All blocks we consider valid.
    pub valid_blocks: Vec<BlockId>,
    /// Candidates for the current set, before outranking refinement.
    pub current_candidate_blocks: Vec<BlockId>,
    /// Our current blocks.
    pub current_blocks: Vec<BlockId>,
    /// Our previous current blocks.
    pub prev_current_blocks: Vec<BlockId>,
    /// The vote graph: votes with their voters.
    pub vote_counts: VoteCounts,
    /// Votes received since the last state update.
    pub recent_votes: Vec<Vote>,
    /// Peers we hold a connection to.
    pub connections: Vec<Name>,
    /// Peers we have sent connection requests to.
    pub connect_requests: Vec<Name>,
    /// Candidates waiting to be added, by name.
    pub candidates: Vec<(Name, Candidate)>,
    /// Ring buffer of recently sent message hashes.
    pub message_filter: Vec<u64>,
    /// Next slot of the ring buffer to overwrite.
    pub filter_head: usize,
    /// Network configuration parameters.
    pub params: NodeParams,
    /// The step this node was created at.
    pub step_created: u64,
}

impl Node {
    /// The node's id sets and vote graph all point into the store, hold no
    /// duplicates, and its name sets are ordered.
    pub open spec fn wf(self, store: Blocks) -> bool {
        &&& ids_stored(store, self.valid_blocks@)
        &&& no_dup_ids(self.valid_blocks@)
        &&& ids_stored(store, self.current_candidate_blocks@)
        &&& no_dup_ids(self.current_candidate_blocks@)
        &&& ids_stored(store, self.current_blocks@)
        &&& no_dup_ids(self.current_blocks@)
        &&& ids_stored(store, self.prev_current_blocks@)
        &&& self.vote_counts.wf()
        &&& vc_stored(store, self.vote_counts)
        &&& forall|k: int|
            0 <= k < self.recent_votes@.len() ==> store.has((#[trigger] self.recent_votes@[k]).from)
                && store.has(self.recent_votes@[k].to)
        &&& sorted_names(self.connections@)
        &&& sorted_names(self.connect_requests@)
        &&& forall|i: int, j: int|
            0 <= i < j < self.candidates@.len() ==> (#[trigger] self.candidates@[i]).0 != (
            #[trigger] self.candidates@[j]).0
        &&& self.params.min_section_size + self.params.split_buffer <= usize::MAX
    }

    /// The prefixes of the node's current blocks are pairwise incompatible.
    pub open spec fn current_incompatible(self, store: Blocks) -> bool {
        forall|id1: BlockId, id2: BlockId|
            #[trigger] self.current_blocks@.contains(id1)
                && #[trigger] self.current_blocks@.contains(id2) && id1 != id2
                ==> !store.spec_get(id1).prefix.spec_compatible(store.spec_get(id2).prefix)
    }

    /// Create a node that starts from the given current blocks.
    pub fn new(
        name: Name,
        blocks: &Blocks,
        current_blocks: Vec<BlockId>,
        params: NodeParams,
        step: u64,
    ) -> (r: Node)
        requires
            blocks.wf(),
            ids_stored(*blocks, current_blocks@),
            no_dup_ids(current_blocks@),
            params.min_section_size + params.split_buffer <= usize::MAX,
        ensures
            r.wf(*blocks),
            r.our_name == name,
            r.valid_blocks@ == current_blocks@,
            r.current_blocks@ == current_blocks@,
            r.current_candidate_blocks@ == current_blocks@,
            r.prev_current_blocks@.len() == 0,
            r.vote_counts.entries@.len() == 0,
            forall|v: Vote| !r.vote_counts.has_edge(v),
            r.recent_votes@.len() == 0,
            r.candidates@.len() == 0,
            r.connect_requests@.len() == 0,
            r.message_filter@.len() == 0,
            forall|y: Name|
                r.connections@.contains(y) <==> exists|k: int|
                    0 <= k < current_blocks@.len() && blocks.spec_get(
                        #[trigger] current_blocks@[k],
                    ).members@.contains(y),
            r.step_created == step,
            r.params == params,
    {
        let connections = nodes_in_any(blocks, &current_blocks);
        Node {
            our_name: name,
            valid_blocks: copy_ids(&current_blocks),
            current_blocks: copy_ids(&current_blocks),
            prev_current_blocks: Vec::new(),
            current_candidate_blocks: current_blocks,
            connections,
            connect_requests: Vec::new(),
            candidates: Vec::new(),
            vote_counts: VoteCounts::new(),
            recent_votes: Vec::new(),
            message_filter: Vec::new(),
            filter_head: 0,
            params,
            step_created: step,
        }
    }

    /// Minimum size every section must have before we split.
    pub fn min_split_size(&self) -> (r: usize)
        requires
            self.params.min_section_size + self.params.split_buffer <= usize::MAX,
        ensures
            r == self.params.min_section_size + self.params.split_buffer,
    {
        self.params.min_section_size + self.params.split_buffer
    }

    /// Record a vote with its voters in our vote graph. The voters on any
    /// edge only ever grow (and all other edges are untouched).
    pub fn add_vote(&mut self, blocks: &Blocks, vote: Vote, voted_for: &Vec<Name>)
        requires
            old(self).wf(*blocks),
            blocks.wf(),
            blocks.has(vote.from),
            blocks.has(vote.to),
            sorted_names(voted_for@),
        ensures
            final(self).wf(*blocks),
            vc_le(old(self).vote_counts, final(self).vote_counts),
            final(self).vote_counts.has_edge(vote),
            forall|y: Name|
                final(self).vote_counts.voters_of(vote).contains(y) <==> (old(self)
                    .vote_counts.voters_of(vote).contains(y) || voted_for@.contains(y)),
            forall|v2: Vote|
                v2 != vote ==> final(self).vote_counts.has_edge(v2) == old(self)
                    .vote_counts.has_edge(v2),
            forall|v2: Vote|
                v2 != vote ==> final(self).vote_counts.voters_of(v2) == old(self)
                    .vote_counts.voters_of(v2),
            forall|v2: Vote|
                final(self).recent_votes@.contains(v2) <==> (old(self).recent_votes@.contains(v2)
                    || v2 == vote),
            final(self).current_blocks == old(self).current_blocks,
            final(self).valid_blocks == old(self).valid_blocks,
            final(self).current_candidate_blocks == old(self).current_candidate_blocks,
            final(self).prev_current_blocks == old(self).prev_current_blocks,
            final(self).our_name == old(self).our_name,
            final(self).connections == old(self).connections,
            final(self).connect_requests == old(self).connect_requests,
            final(self).candidates == old(self).candidates,
            final(self).message_filter == old(self).message_filter,
            final(self).filter_head == old(self).filter_head,
            final(self).params == old(self).params,
            final(self).step_created == old(self).step_created,
    {
        if !contains_vote(&self.recent_votes, vote) {
            let ghost pre = self.recent_votes@;
            self.recent_votes.push(vote);
            proof {
                crate::members::lemma_push_contains(pre, vote);
            }
        } else {
            proof {
                crate::members::lemma_push_contains(self.recent_votes@, vote);
            }
        }
        self.vote_counts.add_vote(vote, voted_for);
    }

    /// Update the valid and current block sets from the recently received
    /// votes; return the newly agreed votes. Every returned vote is a
    /// quorum-endorsed admissible-or-witnessing edge of our vote graph
    /// whose source block is valid, so every newly valid block is backed
    /// by a quorum-endorsed edge from a valid block.
    pub fn update_valid_blocks(&mut self, blocks: &Blocks) -> (r: Vec<(Vote, Vec<Name>)>)
        requires
            old(self).wf(*blocks),
            blocks.wf(),
        ensures
            final(self).wf(*blocks),
            final(self).vote_counts == old(self).vote_counts,
            final(self).recent_votes@.len() == 0,
            final(self).our_name == old(self).our_name,
            final(self).connections == old(self).connections,
            final(self).candidates == old(self).candidates,
            final(self).params == old(self).params,
            final(self).current_incompatible(*blocks),
            forall|id: BlockId|
                #[trigger] final(self).valid_blocks@.contains(id) <==> (old(self)
                    .valid_blocks@.contains(id) || exists|k: int|
                    0 <= k < r@.len() && (#[trigger] r@[k]).0.to == id),
            forall|k: int|
                0 <= k < r@.len() ==> valid_vote_props(
                    *blocks,
                    final(self).vote_counts,
                    (#[trigger] r@[k]).0,
                    r@[k].1@,
                ) && final(self).valid_blocks@.contains(r@[k].0.from) && final(self)
                    .valid_blocks@.contains(r@[k].0.to),
            forall|id: BlockId|
                #[trigger] final(self).current_blocks@.contains(id) ==> final(self)
                    .valid_blocks@.contains(id),
    {
        let new_votes = copy_votes(&self.recent_votes);
        self.recent_votes = Vec::new();
        let new_valid_votes = blocks.new_valid_blocks(
            &self.valid_blocks,
            &self.vote_counts,
            &new_votes,
        );
        let ghost pre_valid = self.valid_blocks@;
        let mut valid_acc = copy_ids(&self.valid_blocks);
        let mut i: usize = 0;
        while i < new_valid_votes.len()
            invariant
                blocks.wf(),
                ids_stored(*blocks, pre_valid),
                no_dup_ids(pre_valid),
                ids_stored(*blocks, valid_acc@),
                no_dup_ids(valid_acc@),
                i <= new_valid_votes@.len(),
                forall|k: int|
                    0 <= k < new_valid_votes@.len() ==> valid_vote_props(
                        *blocks,
                        self.vote_counts,
                        (#[trigger] new_valid_votes@[k]).0,
                        new_valid_votes@[k].1@,
                    ) && (pre_valid.contains(new_valid_votes@[k].0.from) || exists|m: int|
                        0 <= m < k && (#[trigger] new_valid_votes@[m]).0.to
                            == new_valid_votes@[k].0.from),
                forall|id: BlockId|
                    #[trigger] valid_acc@.contains(id) <==> (pre_valid.contains(id) || exists|
                    k: int|
                        0 <= k < i && (#[trigger] new_valid_votes@[k]).0.to == id),
            decreases new_valid_votes@.len() - i,
        {
            let id = new_valid_votes[i].0.to;
            push_unique_id(&mut valid_acc, id);
            proof {
                assert forall|id2: BlockId|
                    #[trigger] valid_acc@.contains(id2) <==> (pre_valid.contains(id2) || exists|
                    k: int|
                        0 <= k < i + 1 && (#[trigger] new_valid_votes@[k]).0.to == id2) by {
                    if valid_acc@.contains(id2) && !pre_valid.contains(id2) {
                        if id2 == id {
                            assert(new_valid_votes@[i as int].0.to == id2);
                        }
                    }
                    if !valid_acc@.contains(id2) {
                        if exists|k: int|
                            0 <= k < i + 1 && (#[trigger] new_valid_votes@[k]).0.to == id2 {
                            let k = choose|k: int|
                                0 <= k < i + 1 && (#[trigger] new_valid_votes@[k]).0.to == id2;
                        }
                    }
                }
            }
            i = i + 1;
        }
        self.valid_blocks = valid_acc;
        self.update_current_blocks(blocks);
        proof {
            assert forall|k: int|
                0 <= k < new_valid_votes@.len() implies final(self).valid_blocks@.contains(
                (#[trigger] new_valid_votes@[k]).0.from,
            ) && final(self).valid_blocks@.contains(new_valid_votes@[k].0.to) by {
                if !pre_valid.contains(new_valid_votes@[k].0.from) {
                    let m = choose|m: int|
                        0 <= m < k && (#[trigger] new_valid_votes@[m]).0.to
                            == new_valid_votes@[k].0.from;
                }
            }
        }
        new_valid_votes
    }

    /// Recompute the candidate and current block sets from the valid set.
    /// Afterwards the current prefixes are pairwise incompatible.
    fn update_current_blocks(&mut self, blocks: &Blocks)
        requires
            old(self).wf(*blocks),
            blocks.wf(),
        ensures
            final(self).wf(*blocks),
            final(self).current_incompatible(*blocks),
            final(self).valid_blocks == old(self).valid_blocks,
            final(self).vote_counts == old(self).vote_counts,
            final(self).recent_votes == old(self).recent_votes,
            final(self).our_name == old(self).our_name,
            final(self).connections == old(self).connections,
            final(self).candidates == old(self).candidates,
            final(self).params == old(self).params,
            final(self).prev_current_blocks@ == old(self).current_blocks@,
            forall|id: BlockId|
                #[trigger] final(self).current_blocks@.contains(id) ==> final(self)
                    .valid_blocks@.contains(id),
    {
        // All existing candidates and every valid block could be current.
        let mut potentially_current = copy_ids(&self.current_candidate_blocks);
        let mut i: usize = 0;
        while i < self.valid_blocks.len()
            invariant
                blocks.wf(),
                ids_stored(*blocks, self.valid_blocks@),
                ids_stored(*blocks, potentially_current@),
                no_dup_ids(potentially_current@),
                i <= self.valid_blocks@.len(),
                forall|id: BlockId|
                    #[trigger] potentially_current@.contains(id) ==> (
                    self.current_candidate_blocks@.contains(id) || self.valid_blocks@.contains(
                        id,
                    )),
                self == old(self),
                old(self).wf(*blocks),
            decreases self.valid_blocks@.len() - i,
        {
            let id = self.valid_blocks[i];
            push_unique_id(&mut potentially_current, id);
            i = i + 1;
        }
        let cands = blocks.compute_current_candidate_blocks(&potentially_current);
        let current = blocks.compute_current_blocks(&cands);
        proof {
            crate::blocks::lemma_current_blocks_incompatible(*blocks, cands@, current@);
            assert forall|id: BlockId|
                #[trigger] current@.contains(id) implies old(self).valid_blocks@.contains(
                id,
            ) || old(self).current_candidate_blocks@.contains(id) by {
                assert(cands@.contains(id));
                assert(potentially_current@.contains(id));
            }
        }
        self.current_candidate_blocks = cands;
        self.prev_current_blocks = copy_ids(&self.current_blocks);
        self.current_blocks = current;
        proof {
            // Current blocks chosen from candidates, which were chosen from
            // the potentially-current set; the candidate set itself may
            // retain previously current blocks, which were valid when first
            // selected. To keep the valid-set containment exact, fall back
            // on membership in the valid set where needed.
        }
        // Keep only current blocks that are also valid (candidates carried
        // over from earlier rounds may have left the valid set's history).
        let mut filtered: Vec<BlockId> = Vec::new();
        let mut j: usize = 0;
        while j < self.current_blocks.len()
            invariant
                blocks.wf(),
                ids_stored(*blocks, self.current_blocks@),
                no_dup_ids(self.current_blocks@),
                j <= self.current_blocks@.len(),
                ids_stored(*blocks, filtered@),
                no_dup_ids(filtered@),
                forall|id: BlockId|
                    #[trigger] filtered@.contains(id) ==> self.current_blocks@.contains(id)
                        && self.valid_blocks@.contains(id),
                ids_stored(*blocks, self.valid_blocks@),
            decreases self.current_blocks@.len() - j,
        {
            let id = self.current_blocks[j];
            if contains_id(&self.valid_blocks, id) {
                push_unique_id(&mut filtered, id);
            }
            j = j + 1;
        }
        proof {
            assert forall|id1: BlockId, id2: BlockId|
                #[trigger] filtered@.contains(id1) && #[trigger] filtered@.contains(id2) && id1
                    != id2 implies !blocks.spec_get(id1).prefix.spec_compatible(
                blocks.spec_get(id2).prefix,
            ) by {
                assert(self.current_blocks@.contains(id1));
                assert(self.current_blocks@.contains(id2));
            }
        }
        self.current_blocks = filtered;
    }

    /// Drop current blocks for sections that are neither our own nor a
    /// neighbour of ours.
    fn prune_split_blocks(&mut self, blocks: &Blocks)
        requires
            old(self).wf(*blocks),
            blocks.wf(),
            old(self).current_incompatible(*blocks),
        ensures
            final(self).wf(*blocks),
            final(self).current_incompatible(*blocks),
            forall|id: BlockId|
                #[trigger] final(self).current_blocks@.contains(id) ==> old(self)
                    .current_blocks@.contains(id),
            final(self).valid_blocks == old(self).valid_blocks,
            final(self).vote_counts == old(self).vote_counts,
            final(self).our_name == old(self).our_name,
            final(self).connections == old(self).connections,
            final(self).candidates == old(self).candidates,
            final(self).params == old(self).params,
            final(self).recent_votes == old(self).recent_votes,
            (exists|sid: BlockId|
                #[trigger] old(self).current_blocks@.contains(sid) && blocks.spec_get(
                    sid,
                ).prefix.spec_matches(old(self).our_name)) ==> exists|sid: BlockId|
                #![auto]
                final(self).current_blocks@.contains(sid) && blocks.spec_get(
                    sid,
                ).prefix.spec_matches(old(self).our_name) && (forall|id: BlockId|
                    #[trigger] final(self).current_blocks@.contains(id) ==> blocks.spec_get(
                        id,
                    ).prefix == blocks.spec_get(sid).prefix || blocks.spec_get(
                        id,
                    ).prefix.spec_neighbour(blocks.spec_get(sid).prefix)),
    {
        let section = blocks.section_blocks(&self.current_blocks, self.our_name);
        if section.len() == 0 {
            proof {
                assert forall|sid: BlockId|
                    old(self).current_blocks@.contains(sid) implies !blocks.spec_get(
                    sid,
                ).prefix.spec_matches(old(self).our_name) by {
                    if blocks.spec_get(sid).prefix.spec_matches(self.our_name) {
                        let m = choose|m: int|
                            0 <= m < self.current_blocks@.len() && self.current_blocks@[m] == sid;
                        Seq::lemma_filter_contains(
                            self.current_blocks@,
                            |id: BlockId| blocks.spec_get(id).prefix.spec_matches(self.our_name),
                            m,
                        );
                        assert(section@.contains(sid));
                    }
                }
            }
            return ;
        }
        proof {
            crate::members::lemma_filter_subset(
                self.current_blocks@,
                |id: BlockId| blocks.spec_get(id).prefix.spec_matches(self.our_name),
            );
            assert(section@.contains(section@[0]));
            Seq::lemma_filter_pred(
                self.current_blocks@,
                |id: BlockId| blocks.spec_get(id).prefix.spec_matches(self.our_name),
                0,
            );
        }
        let ghost sec0 = section@[0];
        let our_prefix = section[0].into_block(blocks).prefix;
        let mut kept: Vec<BlockId> = Vec::new();
        let mut i: usize = 0;
        while i < self.current_blocks.len()
            invariant
                blocks.wf(),
                ids_stored(*blocks, self.current_blocks@),
                no_dup_ids(self.current_blocks@),
                our_prefix.wf(),
                self.current_blocks@.contains(sec0),
                blocks.spec_get(sec0).prefix.spec_matches(self.our_name),
                our_prefix == blocks.spec_get(sec0).prefix,
                i <= self.current_blocks@.len(),
                ids_stored(*blocks, kept@),
                no_dup_ids(kept@),
                forall|id: BlockId|
                    #[trigger] kept@.contains(id) ==> self.current_blocks@.contains(id),
                forall|id: BlockId|
                    #[trigger] kept@.contains(id) ==> blocks.spec_get(id).prefix == our_prefix
                        || blocks.spec_get(id).prefix.spec_neighbour(our_prefix),
                forall|m: int|
                    0 <= m < i && (blocks.spec_get(#[trigger] self.current_blocks@[m]).prefix
                        == our_prefix || blocks.spec_get(
                        self.current_blocks@[m],
                    ).prefix.spec_neighbour(our_prefix)) ==> kept@.contains(
                        self.current_blocks@[m],
                    ),
            decreases self.current_blocks@.len() - i,
        {
            let id = self.current_blocks[i];
            let b = id.into_block(blocks);
            let ghost prekept = kept@;
            if b.prefix.is_neighbour(&our_prefix) || crate::block::prefix_eq(
                &b.prefix,
                &our_prefix,
            ) {
                push_unique_id(&mut kept, id);
            }
            proof {
                assert forall|m: int|
                    0 <= m < i + 1 && (blocks.spec_get(
                        #[trigger] self.current_blocks@[m],
                    ).prefix == our_prefix || blocks.spec_get(
                        self.current_blocks@[m],
                    ).prefix.spec_neighbour(our_prefix)) implies kept@.contains(
                    self.current_blocks@[m],
                ) by {
                    if m < i {
                        assert(prekept.contains(self.current_blocks@[m]));
                    }
                }
            }
            i = i + 1;
        }
        proof {
            assert forall|id1: BlockId, id2: BlockId|
                #[trigger] kept@.contains(id1) && #[trigger] kept@.contains(id2) && id1
                    != id2 implies !blocks.spec_get(id1).prefix.spec_compatible(
                blocks.spec_get(id2).prefix,
            ) by {
                assert(self.current_blocks@.contains(id1));
                assert(self.current_blocks@.contains(id2));
            }
            assert(kept@.contains(sec0)) by {
                let m = choose|m: int|
                    0 <= m < self.current_blocks@.len() && self.current_blocks@[m] == sec0;
            }
        }
        self.current_blocks = kept;
        proof {
            assert(self.current_blocks@.contains(sec0));
            assert(blocks.spec_get(sec0).prefix.spec_matches(old(self).our_name));
        }
    }

    /// `name` is a live candidate: recently added and connected.
    fn is_candidate(&self, name: &Name, step: u64) -> (r: bool)
        requires
            forall|i: int, j: int|
                0 <= i < j < self.candidates@.len() ==> (#[trigger] self.candidates@[i]).0 != (
                #[trigger] self.candidates@[j]).0,
        ensures
            r == exists|k: int|
                0 <= k < self.candidates@.len() && (#[trigger] self.candidates@[k]).0 == *name
                    && self.candidates@[k].1.step_added + self.params.join_timeout >= step
                    && self.connections@.contains(*name),
    {
        let mut i: usize = 0;
        while i < self.candidates.len()
            invariant
                i <= self.candidates@.len(),
                forall|a: int, b: int|
                    0 <= a < b < self.candidates@.len() ==> (#[trigger] self.candidates@[a]).0
                        != (#[trigger] self.candidates@[b]).0,
                forall|k: int| 0 <= k < i ==> (#[trigger] self.candidates@[k]).0 != *name,
            decreases self.candidates@.len() - i,
        {
            if self.candidates[i].0 == *name {
                let r = self.candidates[i].1.is_recent(self.params.join_timeout, step)
                    && contains_name(&self.connections, *name);
                proof {
                    if !r {
                        assert forall|k: int|
                            0 <= k < self.candidates@.len() implies !((
                        #[trigger] self.candidates@[k]).0 == *name
                            && self.candidates@[k].1.step_added + self.params.join_timeout >= step
                            && self.connections@.contains(*name)) by {
                            if self.candidates@[k].0 == *name && k != i {
                                assert(false);
                            }
                        }
                    }
                }
                return r;
            }
            i = i + 1;
        }
        false
    }

    /// Candidates we should vote to add: the oldest connected candidate
    /// that has not timed out, if any (ties by table position).
    pub fn nodes_to_add(&self, step: u64) -> (r: Vec<Name>)
        ensures
            r@.len() <= 1,
            r@.len() == 0 <==> forall|k: int|
                0 <= k < self.candidates@.len() ==> !self.spec_addable(k, step),
            r@.len() == 1 ==> exists|k: int|
                0 <= k < self.candidates@.len() && (#[trigger] self.candidates@[k]).0 == r@[0]
                    && self.spec_addable(k, step) && (forall|m: int|
                    0 <= m < self.candidates@.len() && self.spec_addable(m, step)
                        ==> self.candidates@[k].1.step_added < (
                    #[trigger] self.candidates@[m]).1.step_added || (
                    self.candidates@[k].1.step_added == self.candidates@[m].1.step_added && k
                        <= m)),
    {
        let mut best: usize = 0;
        let mut have = false;
        let mut i: usize = 0;
        while i < self.candidates.len()
            invariant
                i <= self.candidates@.len(),
                have ==> best < i && self.spec_addable(best as int, step),
                have ==> forall|m: int|
                    0 <= m < i && self.spec_addable(m, step)
                        ==> self.candidates@[best as int].1.step_added < (
                    #[trigger] self.candidates@[m]).1.step_added || (
                    self.candidates@[best as int].1.step_added
                        == self.candidates@[m].1.step_added && best <= m),
                !have ==> forall|m: int| 0 <= m < i ==> !self.spec_addable(m, step),
            decreases self.candidates@.len() - i,
        {
            let eligible = contains_name(&self.connections, self.candidates[i].0)
                && self.candidates[i].1.is_recent(self.params.join_timeout, step);
            proof {
                assert(eligible == self.spec_addable(i as int, step));
            }
            if eligible {
                if !have {
                    best = i;
                    have = true;
                } else if self.candidates[i].1.step_added
                    < self.candidates[best].1.step_added {
                    best = i;
                }
            }
            i = i + 1;
        }
        let mut out: Vec<Name> = Vec::new();
        if have {
            out.push(self.candidates[best].0);
            proof {
                assert(self.candidates@[best as int].0 == out@[0]);
            }
        }
        out
    }

    /// The candidate at table position `k` is connected and still recent.
    pub open spec fn spec_addable(self, k: int, step: u64) -> bool {
        &&& 0 <= k < self.candidates@.len()
        &&& self.connections@.contains(self.candidates@[k].0)
        &&& self.candidates@[k].1.step_added + self.params.join_timeout >= step
    }

    /// Members of the given block we should vote to drop: exactly those
    /// that are not us, not connected, and not a pending candidate.
    pub fn nodes_to_drop(&self, current_block: &Block) -> (r: Vec<Name>)
        ensures
            forall|m: int|
                0 <= m < r@.len() ==> current_block.members@.contains(#[trigger] r@[m]) && r@[m]
                    != self.our_name && !self.connections@.contains(r@[m]) && !has_candidate(
                    self.candidates@,
                    r@[m],
                ),
            forall|p: Name|
                current_block.members@.contains(p) && p != self.our_name
                    && !self.connections@.contains(p) && !has_candidate(self.candidates@, p)
                    ==> #[trigger] r@.contains(p),
    {
        let mut out: Vec<Name> = Vec::new();
        let mut i: usize = 0;
        while i < current_block.members.len()
            invariant
                i <= current_block.members@.len(),
                forall|m: int|
                    0 <= m < out@.len() ==> current_block.members@.contains(#[trigger] out@[m])
                        && out@[m] != self.our_name && !self.connections@.contains(out@[m])
                        && !has_candidate(self.candidates@, out@[m]),
                forall|m: int|
                    0 <= m < i && current_block.members@[m] != self.our_name
                        && !self.connections@.contains(#[trigger] current_block.members@[m])
                        && !has_candidate(self.candidates@, current_block.members@[m])
                        ==> out@.contains(current_block.members@[m]),
            decreases current_block.members@.len() - i,
        {
            let peer = current_block.members[i];
            let mut is_cand = false;
            let mut j: usize = 0;
            while j < self.candidates.len()
                invariant
                    j <= self.candidates@.len(),
                    is_cand ==> has_candidate(self.candidates@, peer),
                    !is_cand ==> forall|m: int|
                        0 <= m < j ==> (#[trigger] self.candidates@[m]).0 != peer,
                decreases self.candidates@.len() - j,
            {
                if self.candidates[j].0 == peer {
                    is_cand = true;
                    proof {
                        assert(has_candidate(self.candidates@, peer));
                    }
                }
                j = j + 1;
            }
            proof {
                if !is_cand {
                    assert(!has_candidate(self.candidates@, peer)) by {
                        if has_candidate(self.candidates@, peer) {
                            let m = choose|m: int|
                                0 <= m < self.candidates@.len() && (
                                #[trigger] self.candidates@[m]).0 == peer;
                        }
                    }
                }
            }
            let ghost preout = out@;
            if peer.0 != self.our_name.0 && !contains_name(&self.connections, peer) && !is_cand {
                out.push(peer);
                proof {
                    assert(current_block.members@.contains(current_block.members@[i as int]));
                    crate::members::lemma_push_contains(preout, peer);
                }
            }
            proof {
                assert forall|m: int|
                    0 <= m < i + 1 && current_block.members@[m] != self.our_name
                        && !self.connections@.contains(#[trigger] current_block.members@[m])
                        && !has_candidate(self.candidates@, current_block.members@[m])
                        implies out@.contains(current_block.members@[m]) by {
                    if m < i {
                        let n = choose|n: int|
                            0 <= n < preout.len() && preout[n] == current_block.members@[m];
                        assert(out@[n] == current_block.members@[m]);
                    } else {
                        assert(out@[out@.len() - 1] == peer);
                    }
                }
            }
            i = i + 1;
        }
        proof {
            assert forall|p: Name|
                current_block.members@.contains(p) && p != self.our_name
                    && !self.connections@.contains(p) && !has_candidate(self.candidates@, p)
                    implies #[trigger] out@.contains(p) by {
                let m = choose|m: int|
                    0 <= m < current_block.members@.len() && current_block.members@[m] == p;
            }
        }
        out
    }

    /// The node could be added to the block: not yet a member, inside the
    /// block's prefix, and the block is not about to split.
    fn could_be_added(&self, node: Name, block: &Block) -> (r: bool)
        requires
            block.wf(),
            self.params.min_section_size + self.params.split_buffer <= usize::MAX,
        ensures
            r == (!block.members@.contains(node) && block.prefix.spec_matches(node) && !(
            block.prefix.bit_count < 64 && block.half0_count() >= self.params.min_section_size
                + self.params.split_buffer && block.members@.len() - block.half0_count()
                >= self.params.min_section_size + self.params.split_buffer)),
    {
        !contains_name(&block.members, node) && block.prefix.matches(node) && !block.should_split(
            self.min_split_size(),
        )
    }

    /// Blocks that we can legitimately vote on successors for.
    pub fn our_current_blocks(&self, blocks: &Blocks) -> (r: Vec<BlockId>)
        requires
            self.wf(*blocks),
            blocks.wf(),
        ensures
            r@ == self.current_blocks@.filter(
                |id: BlockId| blocks.spec_get(id).members@.contains(self.our_name),
            ),
            ids_stored(*blocks, r@),
    {
        blocks.our_blocks(&self.current_blocks, self.our_name)
    }

    /// All current blocks whose prefix matches our name.
    pub fn our_current_section_blocks(&self, blocks: &Blocks) -> (r: Vec<BlockId>)
        requires
            self.wf(*blocks),
            blocks.wf(),
        ensures
            r@ == self.current_blocks@.filter(
                |id: BlockId| blocks.spec_get(id).prefix.spec_matches(self.our_name),
            ),
            ids_stored(*blocks, r@),
    {
        blocks.section_blocks(&self.current_blocks, self.our_name)
    }

    /// True if we hold no connection to the peer.
    pub fn is_disconnected_from(&self, name: &Name) -> (r: bool)
        ensures
            r == !self.connections@.contains(*name),
    {
        !contains_name(&self.connections, *name)
    }

    /// The node has failed to join: its timeout elapsed and it either has
    /// no current block of its own or too few live connections.
    pub fn should_shutdown(&self, blocks: &Blocks, step: u64) -> (r: bool)
        requires
            self.wf(*blocks),
            blocks.wf(),
        ensures
            r == (step >= self.step_created + self.params.self_shutdown_timeout && {
                let ours = self.current_blocks@.filter(
                    |id: BlockId| blocks.spec_get(id).members@.contains(self.our_name),
                );
                ours.len() == 0 || self.connections@.len() * 2 < blocks.spec_get(
                    ours[0],
                ).members@.len()
            }),
    {
        let timeout_elapsed = step >= self.step_created && step - self.step_created
            >= self.params.self_shutdown_timeout;
        if !timeout_elapsed {
            return false;
        }
        let ours = self.our_current_blocks(blocks);
        if ours.len() == 0 {
            return true;
        }
        proof {
            crate::members::lemma_filter_subset(
                self.current_blocks@,
                |id: BlockId| blocks.spec_get(id).members@.contains(self.our_name),
            );
            assert(ours@.contains(ours@[0]));
        }
        let block = ours[0].into_block(blocks);
        (self.connections.len() as u128) * 2 < (block.members.len() as u128)
    }

    /// The step this node was created at.
    pub fn step_created(&self) -> (r: u64)
        ensures
            r == self.step_created,
    {
        self.step_created
    }

    /// Whether some (prefix, version) pair has accumulated at least
    /// `max_conflicting_blocks` valid blocks: a consensus fault.
    pub fn check_conflicting_block_count(&self, blocks: &Blocks) -> (r: bool)
        requires
            self.wf(*blocks),
            blocks.wf(),
        ensures
            r == exists|id: BlockId|
                #[trigger] self.valid_blocks@.contains(id) && self.valid_blocks@.filter(
                    |id2: BlockId|
                        blocks.spec_get(id2).prefix == blocks.spec_get(id).prefix
                            && blocks.spec_get(id2).version == blocks.spec_get(id).version,
                ).len() >= self.params.max_conflicting_blocks,
    {
        let mut i: usize = 0;
        while i < self.valid_blocks.len()
            invariant
                blocks.wf(),
                self.wf(*blocks),
                i <= self.valid_blocks@.len(),
                forall|k: int|
                    0 <= k < i ==> self.valid_blocks@.filter(
                        |id2: BlockId|
                            blocks.spec_get(id2).prefix == blocks.spec_get(
                                #[trigger] self.valid_blocks@[k],
                            ).prefix && blocks.spec_get(id2).version == blocks.spec_get(
                                self.valid_blocks@[k],
                            ).version,
                    ).len() < self.params.max_conflicting_blocks,
            decreases self.valid_blocks@.len() - i,
        {
            let id = self.valid_blocks[i];
            let blk = id.into_block(blocks);
            // Count the valid blocks sharing this (prefix, version).
            let mut count: usize = 0;
            let mut j: usize = 0;
            proof {
                assert(self.valid_blocks@.take(0) =~= Seq::<BlockId>::empty());
                reveal(Seq::filter);
            }
            while j < self.valid_blocks.len()
                invariant
                    blocks.wf(),
                    self.wf(*blocks),
                    i < self.valid_blocks@.len(),
                    id == self.valid_blocks@[i as int],
                    blk == blocks.spec_get(id),
                    j <= self.valid_blocks@.len(),
                    count == self.valid_blocks@.take(j as int).filter(
                        |id2: BlockId|
                            blocks.spec_get(id2).prefix == blocks.spec_get(id).prefix
                                && blocks.spec_get(id2).version == blocks.spec_get(id).version,
                    ).len(),
                    count <= j,
                decreases self.valid_blocks@.len() - j,
            {
                let other = self.valid_blocks[j];
                proof {
                    assert(self.valid_blocks@.take(j + 1 as int).drop_last() =~= self.valid_blocks@.take(
                        j as int,
                    ));
                    Seq::lemma_filter_push(
                        self.valid_blocks@.take(j as int),
                        other,
                        |id2: BlockId|
                            blocks.spec_get(id2).prefix == blocks.spec_get(id).prefix
                                && blocks.spec_get(id2).version == blocks.spec_get(id).version,
                    );
                    Seq::lemma_filter_len_push(
                        self.valid_blocks@.take(j as int),
                        |id2: BlockId|
                            blocks.spec_get(id2).prefix == blocks.spec_get(id).prefix
                                && blocks.spec_get(id2).version == blocks.spec_get(id).version,
                        other,
                    );
                    assert(self.valid_blocks@.take(j + 1 as int) == self.valid_blocks@.take(
                        j as int,
                    ).push(other));
                }
                let ob = other.into_block(blocks);
                if crate::block::prefix_eq(&ob.prefix, &blk.prefix) && ob.version == blk.version {
                    count = count + 1;
                }
                j = j + 1;
            }
            proof {
                assert(self.valid_blocks@.take(self.valid_blocks@.len() as int)
                    =~= self.valid_blocks@);
            }
            if count >= self.params.max_conflicting_blocks {
                proof {
                    assert(self.valid_blocks@.contains(id));
                }
                return true;
            }
            i = i + 1;
        }
        proof {
            if exists|id: BlockId|
                #[trigger] self.valid_blocks@.contains(id) && self.valid_blocks@.filter(
                    |id2: BlockId|
                        blocks.spec_get(id2).prefix == blocks.spec_get(id).prefix
                            && blocks.spec_get(id2).version == blocks.spec_get(id).version,
                ).len() >= self.params.max_conflicting_blocks {
                let id = choose|id: BlockId|
                    #[trigger] self.valid_blocks@.contains(id) && self.valid_blocks@.filter(
                        |id2: BlockId|
                            blocks.spec_get(id2).prefix == blocks.spec_get(id).prefix
                                && blocks.spec_get(id2).version == blocks.spec_get(id).version,
                    ).len() >= self.params.max_conflicting_blocks;
                let k = choose|k: int|
                    0 <= k < self.valid_blocks@.len() && self.valid_blocks@[k] == id;
                assert(false);
            }
        }
        false
    }
}

/// The single candidate the add rule selects: connected, still recent,
/// and earliest added, with ties broken by table position.
pub open spec fn spec_chosen_candidate(n: Node, step: u64, c: Name) -> bool {
    exists|k: int|
        0 <= k < n.candidates@.len() && (#[trigger] n.candidates@[k]).0 == c && n.spec_addable(
            k,
            step,
        ) && (forall|m: int|
            0 <= m < n.candidates@.len() && n.spec_addable(m, step)
                ==> n.candidates@[k].1.step_added < (#[trigger] n.candidates@[m]).1.step_added || (
            n.candidates@[k].1.step_added == n.candidates@[m].1.step_added && k <= m))
}

/// The chosen candidate is unique, and is what `nodes_to_add` returns.
proof fn lemma_chosen_unique(n: Node, step: u64, c: Name, r: Seq<Name>)
    requires
        spec_chosen_candidate(n, step, c),
        r.len() <= 1,
        (r.len() == 0 <==> forall|k: int|
            0 <= k < n.candidates@.len() ==> !n.spec_addable(k, step)),
        r.len() == 1 ==> exists|k: int|
            0 <= k < n.candidates@.len() && (#[trigger] n.candidates@[k]).0 == r[0]
                && n.spec_addable(k, step) && (forall|m: int|
                0 <= m < n.candidates@.len() && n.spec_addable(m, step)
                    ==> n.candidates@[k].1.step_added < (#[trigger] n.candidates@[m]).1.step_added
                    || (n.candidates@[k].1.step_added == n.candidates@[m].1.step_added && k <= m)),
    ensures
        r.len() == 1 && r[0] == c,
{
    let k1 = choose|k1: int|
        0 <= k1 < n.candidates@.len() && (#[trigger] n.candidates@[k1]).0 == c && n.spec_addable(
            k1,
            step,
        ) && (forall|m: int|
            0 <= m < n.candidates@.len() && n.spec_addable(m, step)
                ==> n.candidates@[k1].1.step_added < (#[trigger] n.candidates@[m]).1.step_added || (
            n.candidates@[k1].1.step_added == n.candidates@[m].1.step_added && k1 <= m));
    assert(n.spec_addable(k1, step));
    assert(r.len() == 1);
    let k0 = choose|k0: int|
        0 <= k0 < n.candidates@.len() && (#[trigger] n.candidates@[k0]).0 == r[0]
            && n.spec_addable(k0, step) && (forall|m: int|
            0 <= m < n.candidates@.len() && n.spec_addable(m, step)
                ==> n.candidates@[k0].1.step_added < (#[trigger] n.candidates@[m]).1.step_added || (
            n.candidates@[k0].1.step_added == n.candidates@[m].1.step_added && k0 <= m));
    assert(n.candidates@[k0].1.step_added < n.candidates@[k1].1.step_added || (n.candidates@[k0].1.step_added
        == n.candidates@[k1].1.step_added && k0 <= k1));
    assert(n.candidates@[k1].1.step_added < n.candidates@[k0].1.step_added || (n.candidates@[k1].1.step_added
        == n.candidates@[k0].1.step_added && k1 <= k0));
    assert(k0 == k1);
}

/// Both halves of the block's membership under its two pushed prefixes
/// are large enough for a split of its own.
pub open spec fn spec_would_split(b: Block, min_split_size: int) -> bool {
    b.prefix.bit_count < 64 && b.half0_count() >= min_split_size && b.members@.len()
        - b.half0_count() >= min_split_size
}

/// `tb` is `fb` with `c` added and the version stepped.
pub open spec fn spec_add_target(fb: Block, c: Name, tb: Block) -> bool {
    &&& tb.prefix == fb.prefix
    &&& tb.version == fb.version + 1
    &&& forall|y: Name| tb.members@.contains(y) <==> (fb.members@.contains(y) || y == c)
}

/// `tb` is `fb` with `p` removed and the version stepped.
pub open spec fn spec_drop_target(fb: Block, p: Name, tb: Block) -> bool {
    &&& tb.prefix == fb.prefix
    &&& tb.version == fb.version + 1
    &&& forall|y: Name| tb.members@.contains(y) <==> (fb.members@.contains(y) && y != p)
}

/// The add rule applies to the block `fb` and candidate `c`: we sit in
/// `fb`, `c` is the chosen candidate, matches, is no member yet, and the
/// block is not about to split.
pub open spec fn spec_add_applies(n: Node, step: u64, fb: Block, c: Name) -> bool {
    &&& fb.members@.contains(n.our_name)
    &&& fb.version < u64::MAX
    &&& spec_chosen_candidate(n, step, c)
    &&& !fb.members@.contains(c)
    &&& fb.prefix.spec_matches(c)
    &&& !spec_would_split(fb, n.params.min_section_size + n.params.split_buffer)
}

/// The drop rule applies to the block `fb` and member `p`: we sit in
/// `fb`, and `p` is a disconnected non-candidate member other than us.
pub open spec fn spec_drop_applies(n: Node, fb: Block, p: Name) -> bool {
    &&& fb.members@.contains(n.our_name)
    &&& fb.version < u64::MAX
    &&& fb.members@.contains(p)
    &&& p != n.our_name
    &&& !n.connections@.contains(p)
    &&& !has_candidate(n.candidates@, p)
}

/// The add rule owes a vote from the current block `id` adding `c`.
pub open spec fn spec_add_owed(n: Node, store: Blocks, step: u64, id: BlockId, c: Name) -> bool {
    n.current_blocks@.contains(id) && spec_add_applies(n, step, store.spec_get(id), c)
}

/// The drop rule owes a vote from the current block `id` removing `p`.
pub open spec fn spec_drop_owed(n: Node, store: Blocks, id: BlockId, p: Name) -> bool {
    n.current_blocks@.contains(id) && spec_drop_applies(n, store.spec_get(id), p)
}

/// The witness rule owes a vote from our current block `oid` to the
/// newly current block `cid` of a section we are not part of.
pub open spec fn spec_witness_owed(n: Node, store: Blocks, oid: BlockId, cid: BlockId) -> bool {
    &&& n.current_blocks@.contains(cid)
    &&& !n.prev_current_blocks@.contains(cid)
    &&& !store.spec_get(cid).prefix.spec_matches(n.our_name)
    &&& n.current_blocks@.contains(oid)
    &&& store.spec_get(oid).members@.contains(n.our_name)
}

/// The vote's two blocks fit one of the section-change rules: a single
/// add, a single drop, one half of a split of a block we sit in, or a
/// merge of two sibling blocks.
pub open spec fn spec_vote_produced(n: Node, step: u64, fb: Block, tb: Block) -> bool {
    ||| (exists|c: Name| #![auto] spec_add_applies(n, step, fb, c) && spec_add_target(fb, c, tb))
    ||| (exists|p: Name| #![auto] spec_drop_applies(n, fb, p) && spec_drop_target(fb, p, tb))
    ||| (fb.members@.contains(n.our_name) && exists|b0: Block, b1: Block|
        #![auto]
        crate::split::spec_split_pair(fb, b0, b1) && (beq(tb, b0) || beq(tb, b1)))
    ||| (exists|a: Block, b: Block|
        #![auto]
        crate::merge::spec_siblings(a.prefix, b.prefix) && crate::merge::spec_merge_target(
            a,
            b,
            tb,
        ) && (beq(fb, a) || beq(fb, b)))
}

/// Recorded vote facts survive one store insertion and one appended vote.
proof fn carry_vote_facts(
    n: Node,
    step: u64,
    prestore: Blocks,
    poststore: Blocks,
    prevotes: Seq<Vote>,
    postvotes: Seq<Vote>,
    store0: Blocks,
    ours: Seq<BlockId>,
    i: int,
)
    requires
        forall|j: BlockId|
            prestore.has(j) ==> poststore.has(j) && poststore.spec_get(j) == prestore.spec_get(j),
        postvotes.len() == prevotes.len() + 1,
        forall|k: int| 0 <= k < prevotes.len() ==> postvotes[k] == prevotes[k],
        forall|k: int|
            0 <= k < prevotes.len() ==> prestore.has((#[trigger] prevotes[k]).from)
                && prestore.has(prevotes[k].to),
        forall|k: int|
            0 <= k < prevotes.len() ==> n.current_blocks@.contains((#[trigger] prevotes[k]).from)
                && spec_vote_produced(
                n,
                step,
                prestore.spec_get(prevotes[k].from),
                prestore.spec_get(prevotes[k].to),
            ),
        forall|m: int, c: Name|
            0 <= m < i && #[trigger] spec_add_owed(n, store0, step, ours[m], c) ==> exists|k: int|
                0 <= k < prevotes.len() && (#[trigger] prevotes[k]).from == ours[m]
                    && spec_add_target(
                    store0.spec_get(ours[m]),
                    c,
                    prestore.spec_get(prevotes[k].to),
                ),
        forall|m: int, p: Name|
            0 <= m < i && #[trigger] spec_drop_owed(n, store0, ours[m], p) ==> exists|k: int|
                0 <= k < prevotes.len() && (#[trigger] prevotes[k]).from == ours[m]
                    && spec_drop_target(
                    store0.spec_get(ours[m]),
                    p,
                    prestore.spec_get(prevotes[k].to),
                ),
    ensures
        forall|k: int|
            0 <= k < prevotes.len() ==> n.current_blocks@.contains((#[trigger] postvotes[k]).from)
                && spec_vote_produced(
                n,
                step,
                poststore.spec_get(postvotes[k].from),
                poststore.spec_get(postvotes[k].to),
            ),
        forall|m: int, c: Name|
            0 <= m < i && #[trigger] spec_add_owed(n, store0, step, ours[m], c) ==> exists|k: int|
                0 <= k < postvotes.len() && (#[trigger] postvotes[k]).from == ours[m]
                    && spec_add_target(
                    store0.spec_get(ours[m]),
                    c,
                    poststore.spec_get(postvotes[k].to),
                ),
        forall|m: int, p: Name|
            0 <= m < i && #[trigger] spec_drop_owed(n, store0, ours[m], p) ==> exists|k: int|
                0 <= k < postvotes.len() && (#[trigger] postvotes[k]).from == ours[m]
                    && spec_drop_target(
                    store0.spec_get(ours[m]),
                    p,
                    poststore.spec_get(postvotes[k].to),
                ),
{
    assert forall|k: int|
        0 <= k < prevotes.len() implies n.current_blocks@.contains(
        (#[trigger] postvotes[k]).from,
    ) && spec_vote_produced(
        n,
        step,
        poststore.spec_get(postvotes[k].from),
        poststore.spec_get(postvotes[k].to),
    ) by {
        assert(postvotes[k] == prevotes[k]);
        assert(poststore.spec_get(prevotes[k].from) == prestore.spec_get(prevotes[k].from));
        assert(poststore.spec_get(prevotes[k].to) == prestore.spec_get(prevotes[k].to));
    }
    assert forall|m: int, c: Name|
        0 <= m < i && #[trigger] spec_add_owed(n, store0, step, ours[m], c) implies exists|k: int|
        0 <= k < postvotes.len() && (#[trigger] postvotes[k]).from == ours[m] && spec_add_target(
            store0.spec_get(ours[m]),
            c,
            poststore.spec_get(postvotes[k].to),
        ) by {
        let k = choose|k: int|
            0 <= k < prevotes.len() && (#[trigger] prevotes[k]).from == ours[m]
                && spec_add_target(
                store0.spec_get(ours[m]),
                c,
                prestore.spec_get(prevotes[k].to),
            );
        assert(postvotes[k] == prevotes[k]);
        assert(poststore.spec_get(postvotes[k].to) == prestore.spec_get(prevotes[k].to));
    }
    assert forall|m: int, p: Name|
        0 <= m < i && #[trigger] spec_drop_owed(n, store0, ours[m], p) implies exists|k: int|
        0 <= k < postvotes.len() && (#[trigger] postvotes[k]).from == ours[m] && spec_drop_target(
            store0.spec_get(ours[m]),
            p,
            poststore.spec_get(postvotes[k].to),
        ) by {
        let k = choose|k: int|
            0 <= k < prevotes.len() && (#[trigger] prevotes[k]).from == ours[m]
                && spec_drop_target(
                store0.spec_get(ours[m]),
                p,
                prestore.spec_get(prevotes[k].to),
            );
        assert(postvotes[k] == prevotes[k]);
        assert(poststore.spec_get(postvotes[k].to) == prestore.spec_get(prevotes[k].to));
    }
}

/// Recorded vote facts survive a phase that only grows the store.
proof fn carry_phase_facts(
    n: Node,
    step: u64,
    prestore: Blocks,
    poststore: Blocks,
    vs: Seq<Vote>,
    store0: Blocks,
    ours: Seq<BlockId>,
)
    requires
        forall|j: BlockId|
            prestore.has(j) ==> poststore.has(j) && poststore.spec_get(j) == prestore.spec_get(j),
        forall|k: int|
            0 <= k < vs.len() ==> prestore.has((#[trigger] vs[k]).from) && prestore.has(vs[k].to),
        forall|k: int|
            0 <= k < vs.len() ==> n.current_blocks@.contains((#[trigger] vs[k]).from)
                && spec_vote_produced(
                n,
                step,
                prestore.spec_get(vs[k].from),
                prestore.spec_get(vs[k].to),
            ),
        forall|m: int, c: Name|
            0 <= m < ours.len() && #[trigger] spec_add_owed(n, store0, step, ours[m], c)
                ==> exists|k: int|
                0 <= k < vs.len() && (#[trigger] vs[k]).from == ours[m] && spec_add_target(
                    store0.spec_get(ours[m]),
                    c,
                    prestore.spec_get(vs[k].to),
                ),
        forall|m: int, p: Name|
            0 <= m < ours.len() && #[trigger] spec_drop_owed(n, store0, ours[m], p) ==> exists|
                k: int,
            |
                0 <= k < vs.len() && (#[trigger] vs[k]).from == ours[m] && spec_drop_target(
                    store0.spec_get(ours[m]),
                    p,
                    prestore.spec_get(vs[k].to),
                ),
    ensures
        forall|k: int|
            0 <= k < vs.len() ==> poststore.has((#[trigger] vs[k]).from) && poststore.has(
                vs[k].to,
            ),
        forall|k: int|
            0 <= k < vs.len() ==> n.current_blocks@.contains((#[trigger] vs[k]).from)
                && spec_vote_produced(
                n,
                step,
                poststore.spec_get(vs[k].from),
                poststore.spec_get(vs[k].to),
            ),
        forall|m: int, c: Name|
            0 <= m < ours.len() && #[trigger] spec_add_owed(n, store0, step, ours[m], c)
                ==> exists|k: int|
                0 <= k < vs.len() && (#[trigger] vs[k]).from == ours[m] && spec_add_target(
                    store0.spec_get(ours[m]),
                    c,
                    poststore.spec_get(vs[k].to),
                ),
        forall|m: int, p: Name|
            0 <= m < ours.len() && #[trigger] spec_drop_owed(n, store0, ours[m], p) ==> exists|
                k: int,
            |
                0 <= k < vs.len() && (#[trigger] vs[k]).from == ours[m] && spec_drop_target(
                    store0.spec_get(ours[m]),
                    p,
                    poststore.spec_get(vs[k].to),
                ),
{
    assert forall|k: int|
        0 <= k < vs.len() implies n.current_blocks@.contains((#[trigger] vs[k]).from)
        && spec_vote_produced(
        n,
        step,
        poststore.spec_get(vs[k].from),
        poststore.spec_get(vs[k].to),
    ) by {
        assert(poststore.spec_get(vs[k].from) == prestore.spec_get(vs[k].from));
        assert(poststore.spec_get(vs[k].to) == prestore.spec_get(vs[k].to));
    }
    assert forall|m: int, c: Name|
        0 <= m < ours.len() && #[trigger] spec_add_owed(n, store0, step, ours[m], c) implies exists|
        k: int,
    |
        0 <= k < vs.len() && (#[trigger] vs[k]).from == ours[m] && spec_add_target(
            store0.spec_get(ours[m]),
            c,
            poststore.spec_get(vs[k].to),
        ) by {
        let k = choose|k: int|
            0 <= k < vs.len() && (#[trigger] vs[k]).from == ours[m] && spec_add_target(
                store0.spec_get(ours[m]),
                c,
                prestore.spec_get(vs[k].to),
            );
        assert(poststore.spec_get(vs[k].to) == prestore.spec_get(vs[k].to));
    }
    assert forall|m: int, p: Name|
        0 <= m < ours.len() && #[trigger] spec_drop_owed(n, store0, ours[m], p) implies exists|
        k: int,
    |
        0 <= k < vs.len() && (#[trigger] vs[k]).from == ours[m] && spec_drop_target(
            store0.spec_get(ours[m]),
            p,
            poststore.spec_get(vs[k].to),
        ) by {
        let k = choose|k: int|
            0 <= k < vs.len() && (#[trigger] vs[k]).from == ours[m] && spec_drop_target(
                store0.spec_get(ours[m]),
                p,
                prestore.spec_get(vs[k].to),
            );
        assert(poststore.spec_get(vs[k].to) == prestore.spec_get(vs[k].to));
    }
}

impl Node {
    /// Votes from each of our current blocks toward every newly current
    /// block of a section we are not part of: witness edges exporting
    /// evidence across section boundaries.
    fn witness_votes(&self, blocks: &Blocks) -> (r: Vec<Vote>)
        requires
            self.wf(*blocks),
            blocks.wf(),
        ensures
            forall|k: int|
                0 <= k < r@.len() ==> self.current_blocks@.contains((#[trigger] r@[k]).from)
                    && self.current_blocks@.contains(r@[k].to) && blocks.has(r@[k].from)
                    && blocks.has(r@[k].to) && spec_witness_owed(
                    *self,
                    *blocks,
                    r@[k].from,
                    r@[k].to,
                ),
            forall|oid: BlockId, cid: BlockId|
                #[trigger] spec_witness_owed(*self, *blocks, oid, cid) ==> r@.contains(
                    Vote { from: oid, to: cid },
                ),
    {
        let ours = self.our_current_blocks(blocks);
        proof {
            crate::members::lemma_filter_subset(
                self.current_blocks@,
                |id: BlockId| blocks.spec_get(id).members@.contains(self.our_name),
            );
            assert forall|k: int|
                0 <= k < ours@.len() implies self.current_blocks@.contains(#[trigger] ours@[k])
                && blocks.spec_get(ours@[k]).members@.contains(self.our_name) by {
                assert(ours@.contains(ours@[k]));
                Seq::lemma_filter_pred(
                    self.current_blocks@,
                    |id: BlockId| blocks.spec_get(id).members@.contains(self.our_name),
                    k,
                );
            }
            assert forall|oid: BlockId|
                self.current_blocks@.contains(oid) && blocks.spec_get(oid).members@.contains(
                    self.our_name,
                ) implies #[trigger] ours@.contains(oid) by {
                let m = choose|m: int|
                    0 <= m < self.current_blocks@.len() && self.current_blocks@[m] == oid;
                Seq::lemma_filter_contains(
                    self.current_blocks@,
                    |id: BlockId| blocks.spec_get(id).members@.contains(self.our_name),
                    m,
                );
            }
        }
        let mut votes: Vec<Vote> = Vec::new();
        let mut i: usize = 0;
        while i < self.current_blocks.len()
            invariant
                self.wf(*blocks),
                blocks.wf(),
                i <= self.current_blocks@.len(),
                forall|k: int|
                    0 <= k < ours@.len() ==> self.current_blocks@.contains(#[trigger] ours@[k])
                        && blocks.spec_get(ours@[k]).members@.contains(self.our_name),
                forall|oid: BlockId|
                    self.current_blocks@.contains(oid) && blocks.spec_get(oid).members@.contains(
                        self.our_name,
                    ) ==> #[trigger] ours@.contains(oid),
                forall|k: int|
                    0 <= k < votes@.len() ==> self.current_blocks@.contains(
                        (#[trigger] votes@[k]).from,
                    ) && self.current_blocks@.contains(votes@[k].to) && blocks.has(votes@[k].from)
                        && blocks.has(votes@[k].to) && spec_witness_owed(
                        *self,
                        *blocks,
                        votes@[k].from,
                        votes@[k].to,
                    ),
                forall|m: int, oid: BlockId|
                    0 <= m < i && #[trigger] spec_witness_owed(
                        *self,
                        *blocks,
                        oid,
                        self.current_blocks@[m],
                    ) ==> votes@.contains(Vote { from: oid, to: self.current_blocks@[m] }),
            decreases self.current_blocks@.len() - i,
        {
            let id = self.current_blocks[i];
            let b = id.into_block(blocks);
            let is_new = !contains_id(&self.prev_current_blocks, id);
            let foreign = !b.prefix.matches(self.our_name);
            if is_new && foreign {
                let mut j: usize = 0;
                while j < ours.len()
                    invariant
                        self.wf(*blocks),
                        blocks.wf(),
                        i < self.current_blocks@.len(),
                        id == self.current_blocks@[i as int],
                        !self.prev_current_blocks@.contains(id),
                        !blocks.spec_get(id).prefix.spec_matches(self.our_name),
                        j <= ours@.len(),
                        forall|k: int|
                            0 <= k < ours@.len() ==> self.current_blocks@.contains(
                                #[trigger] ours@[k],
                            ) && blocks.spec_get(ours@[k]).members@.contains(self.our_name),
                        forall|oid: BlockId|
                            self.current_blocks@.contains(oid) && blocks.spec_get(
                                oid,
                            ).members@.contains(self.our_name) ==> #[trigger] ours@.contains(oid),
                        forall|k: int|
                            0 <= k < votes@.len() ==> self.current_blocks@.contains(
                                (#[trigger] votes@[k]).from,
                            ) && self.current_blocks@.contains(votes@[k].to) && blocks.has(
                                votes@[k].from,
                            ) && blocks.has(votes@[k].to) && spec_witness_owed(
                                *self,
                                *blocks,
                                votes@[k].from,
                                votes@[k].to,
                            ),
                        forall|m: int, oid: BlockId|
                            0 <= m < i && #[trigger] spec_witness_owed(
                                *self,
                                *blocks,
                                oid,
                                self.current_blocks@[m],
                            ) ==> votes@.contains(
                                Vote { from: oid, to: self.current_blocks@[m] },
                            ),
                        forall|m2: int|
                            0 <= m2 < j ==> votes@.contains(
                                Vote { from: #[trigger] ours@[m2], to: id },
                            ),
                    decreases ours@.len() - j,
                {
                    let v = Vote { from: ours[j], to: id };
                    let ghost pre = votes@;
                    proof {
                        assert(ours@.contains(ours@[j as int]));
                        assert(self.current_blocks@.contains(self.current_blocks@[i as int]));
                    }
                    votes.push(v);
                    proof {
                        crate::members::lemma_push_contains(pre, v);
                        assert(votes@[pre.len() as int] == v);
                    }
                    j = j + 1;
                }
                proof {
                    assert forall|m: int, oid: BlockId|
                        0 <= m < i + 1 && #[trigger] spec_witness_owed(
                            *self,
                            *blocks,
                            oid,
                            self.current_blocks@[m],
                        ) implies votes@.contains(
                        Vote { from: oid, to: self.current_blocks@[m] },
                    ) by {
                        if m == i {
                            assert(ours@.contains(oid));
                            let m2 = choose|m2: int| 0 <= m2 < ours@.len() && ours@[m2] == oid;
                            assert(votes@.contains(Vote { from: ours@[m2], to: id }));
                        }
                    }
                }
            } else {
                proof {
                    assert forall|m: int, oid: BlockId|
                        0 <= m < i + 1 && #[trigger] spec_witness_owed(
                            *self,
                            *blocks,
                            oid,
                            self.current_blocks@[m],
                        ) implies votes@.contains(
                        Vote { from: oid, to: self.current_blocks@[m] },
                    ) by {
                        if m == i {
                            assert(is_new);
                            assert(foreign);
                        }
                    }
                }
            }
            i = i + 1;
        }
        proof {
            assert forall|oid: BlockId, cid: BlockId|
                #[trigger] spec_witness_owed(*self, *blocks, oid, cid) implies votes@.contains(
                Vote { from: oid, to: cid },
            ) by {
                let m = choose|m: int|
                    0 <= m < self.current_blocks@.len() && self.current_blocks@[m] == cid;
            }
        }
        votes
    }

    /// Construct new successor votes from our view: adds, drops, splits,
    /// merges and witness edges. Every returned vote follows one of the
    /// rules, and each rule's owed votes all appear.
    #[verifier::rlimit(100)]
    pub fn construct_new_votes(&self, blocks: &mut Blocks, step: u64) -> (r: Vec<Vote>)
        requires
            self.wf(*old(blocks)),
            old(blocks).wf(),
        ensures
            final(blocks).wf(),
            forall|j: BlockId|
                old(blocks).has(j) ==> final(blocks).has(j) && final(blocks).spec_get(j) == old(
                    blocks,
                ).spec_get(j),
            forall|k: int|
                0 <= k < r@.len() ==> final(blocks).has((#[trigger] r@[k]).from)
                    && final(blocks).has(r@[k].to),
            forall|k: int|
                0 <= k < r@.len() ==> self.current_blocks@.contains((#[trigger] r@[k]).from) && (
                spec_vote_produced(
                    *self,
                    step,
                    final(blocks).spec_get(r@[k].from),
                    final(blocks).spec_get(r@[k].to),
                ) || spec_witness_owed(*self, *final(blocks), r@[k].from, r@[k].to)),
            forall|id: BlockId, c: Name|
                #[trigger] spec_add_owed(*self, *old(blocks), step, id, c) ==> exists|k: int|
                    0 <= k < r@.len() && (#[trigger] r@[k]).from == id && spec_add_target(
                        old(blocks).spec_get(id),
                        c,
                        final(blocks).spec_get(r@[k].to),
                    ),
            forall|id: BlockId, p: Name|
                #[trigger] spec_drop_owed(*self, *old(blocks), id, p) ==> exists|k: int|
                    0 <= k < r@.len() && (#[trigger] r@[k]).from == id && spec_drop_target(
                        old(blocks).spec_get(id),
                        p,
                        final(blocks).spec_get(r@[k].to),
                    ),
            forall|id: BlockId|
                #[trigger] self.current_blocks@.contains(id) && final(blocks).spec_get(
                    id,
                ).members@.contains(self.our_name) && crate::split::spec_can_split(
                    *final(blocks),
                    self.current_blocks@,
                    id,
                    self.params.min_section_size + self.params.split_buffer,
                ) ==> exists|k: int|
                    0 <= k < r@.len() - 1 && (#[trigger] r@[k]).from == id && r@[k + 1].from == id
                        && crate::split::spec_split_pair(
                        final(blocks).spec_get(id),
                        final(blocks).spec_get(r@[k].to),
                        final(blocks).spec_get(r@[k + 1].to),
                    ),
            forall|cid: BlockId, sid: BlockId|
                #[trigger] crate::merge::spec_merge_owed_own(
                    *final(blocks),
                    self.current_blocks@,
                    self.our_name,
                    self.params.min_section_size as int,
                    cid,
                    sid,
                ) ==> exists|k: int|
                    0 <= k < r@.len() && (#[trigger] r@[k]).from == cid
                        && crate::merge::spec_merge_target(
                        final(blocks).spec_get(cid),
                        final(blocks).spec_get(sid),
                        final(blocks).spec_get(r@[k].to),
                    ),
            forall|cid: BlockId, oid: BlockId|
                #[trigger] crate::merge::spec_merge_owed_force(
                    *final(blocks),
                    self.current_blocks@,
                    self.connections@,
                    self.our_name,
                    cid,
                    oid,
                ) ==> exists|k: int|
                    0 <= k < r@.len() && (#[trigger] r@[k]).from == oid
                        && crate::merge::spec_merge_target(
                        final(blocks).spec_get(cid),
                        final(blocks).spec_get(oid),
                        final(blocks).spec_get(r@[k].to),
                    ),
            forall|oid: BlockId, cid: BlockId|
                #[trigger] spec_witness_owed(*self, *final(blocks), oid, cid) ==> r@.contains(
                    Vote { from: oid, to: cid },
                ),
    {
        let mut votes: Vec<Vote> = Vec::new();
        // Votes to add the current candidate to blocks that have room.
        let ours = self.our_current_blocks(blocks);
        proof {
            crate::members::lemma_filter_subset(
                self.current_blocks@,
                |id: BlockId| blocks.spec_get(id).members@.contains(self.our_name),
            );
            assert forall|k: int|
                0 <= k < ours@.len() implies self.current_blocks@.contains(#[trigger] ours@[k])
                && old(blocks).spec_get(ours@[k]).members@.contains(self.our_name) by {
                assert(ours@.contains(ours@[k]));
                Seq::lemma_filter_pred(
                    self.current_blocks@,
                    |id: BlockId| blocks.spec_get(id).members@.contains(self.our_name),
                    k,
                );
            }
            assert forall|id: BlockId|
                self.current_blocks@.contains(id) && old(blocks).spec_get(id).members@.contains(
                    self.our_name,
                ) implies #[trigger] ours@.contains(id) by {
                let m = choose|m: int|
                    0 <= m < self.current_blocks@.len() && self.current_blocks@[m] == id;
                Seq::lemma_filter_contains(
                    self.current_blocks@,
                    |id2: BlockId| blocks.spec_get(id2).members@.contains(self.our_name),
                    m,
                );
            }
        }
        let to_add = self.nodes_to_add(step);
        let mut i: usize = 0;
        while i < ours.len()
            invariant
                blocks.wf(),
                ids_stored(*blocks, ours@),
                ids_stored(*blocks, self.current_blocks@),
                ids_stored(*old(blocks), ours@),
                self.params.min_section_size + self.params.split_buffer <= usize::MAX,
                i <= ours@.len(),
                to_add@.len() <= 1,
                (to_add@.len() == 0 <==> forall|k: int|
                    0 <= k < self.candidates@.len() ==> !self.spec_addable(k, step)),
                to_add@.len() == 1 ==> exists|k: int|
                    0 <= k < self.candidates@.len() && (#[trigger] self.candidates@[k]).0
                        == to_add@[0] && self.spec_addable(k, step) && (forall|m: int|
                        0 <= m < self.candidates@.len() && self.spec_addable(m, step)
                            ==> self.candidates@[k].1.step_added < (
                        #[trigger] self.candidates@[m]).1.step_added || (
                        self.candidates@[k].1.step_added == self.candidates@[m].1.step_added && k
                            <= m)),
                forall|k: int|
                    0 <= k < ours@.len() ==> self.current_blocks@.contains(#[trigger] ours@[k])
                        && old(blocks).spec_get(ours@[k]).members@.contains(self.our_name),
                forall|id: BlockId|
                    self.current_blocks@.contains(id) && old(blocks).spec_get(
                        id,
                    ).members@.contains(self.our_name) ==> #[trigger] ours@.contains(id),
                forall|j: BlockId|
                    old(blocks).has(j) ==> blocks.has(j) && blocks.spec_get(j) == old(
                        blocks,
                    ).spec_get(j),
                forall|k: int|
                    0 <= k < votes@.len() ==> blocks.has((#[trigger] votes@[k]).from)
                        && blocks.has(votes@[k].to),
                forall|k: int|
                    0 <= k < votes@.len() ==> self.current_blocks@.contains(
                        (#[trigger] votes@[k]).from,
                    ) && spec_vote_produced(
                        *self,
                        step,
                        blocks.spec_get(votes@[k].from),
                        blocks.spec_get(votes@[k].to),
                    ),
                forall|m: int, c: Name|
                    0 <= m < i && #[trigger] spec_add_owed(
                        *self,
                        *old(blocks),
                        step,
                        ours@[m],
                        c,
                    ) ==> exists|k: int|
                        0 <= k < votes@.len() && (#[trigger] votes@[k]).from == ours@[m]
                            && spec_add_target(
                            old(blocks).spec_get(ours@[m]),
                            c,
                            blocks.spec_get(votes@[k].to),
                        ),
                forall|m: int, p: Name|
                    0 <= m < i && #[trigger] spec_drop_owed(*self, *old(blocks), ours@[m], p)
                        ==> exists|k: int|
                        0 <= k < votes@.len() && (#[trigger] votes@[k]).from == ours@[m]
                            && spec_drop_target(
                            old(blocks).spec_get(ours@[m]),
                            p,
                            blocks.spec_get(votes@[k].to),
                        ),
            decreases ours@.len() - i,
        {
            let block_id = ours[i];
            let block = crate::block::clone_block(block_id.into_block(blocks));
            proof {
                assert(ours@.contains(block_id));
                assert(ours@[i as int] == block_id);
                assert(old(blocks).has(block_id));
                assert(beq(block, old(blocks).spec_get(block_id)));
                // The half-count is a function of the members and prefix
                // alone, so the clone shares it with the stored block.
                crate::members::lemma_filter_ptwise(
                    block.members@,
                    |nm: Name|
                        block.prefix.spec_matches(nm) && !crate::name::bit_at(
                            nm.0,
                            block.prefix.bit_count as int,
                        ),
                    |nm: Name|
                        old(blocks).spec_get(block_id).prefix.spec_matches(nm)
                            && !crate::name::bit_at(
                            nm.0,
                            old(blocks).spec_get(block_id).prefix.bit_count as int,
                        ),
                );
                assert(block.half0_count() == old(blocks).spec_get(block_id).half0_count());
            }
            if to_add.len() == 1 {
                let node = to_add[0];
                if block.version < u64::MAX && self.could_be_added(node, &block) {
                    let ghost prestore = *blocks;
                    let ghost prevotes = votes@;
                    let added = block.add_node(node);
                    let added_id = blocks.insert(added);
                    votes.push(Vote { from: block_id, to: added_id });
                    proof {
                        assert(spec_chosen_candidate(*self, step, node));
                        assert(spec_add_applies(
                            *self,
                            step,
                            old(blocks).spec_get(block_id),
                            node,
                        ));
                        assert(spec_add_target(
                            old(blocks).spec_get(block_id),
                            node,
                            blocks.spec_get(added_id),
                        ));
                        assert(votes@[prevotes.len() as int] == Vote {
                            from: block_id,
                            to: added_id,
                        });
                        carry_vote_facts(
                            *self,
                            step,
                            prestore,
                            *blocks,
                            prevotes,
                            votes@,
                            *old(blocks),
                            ours@,
                            i as int,
                        );
                    }
                }
            }
            proof {
                assert forall|c: Name|
                    #[trigger] spec_add_owed(
                        *self,
                        *old(blocks),
                        step,
                        block_id,
                        c,
                    ) implies exists|k: int|
                    0 <= k < votes@.len() && (#[trigger] votes@[k]).from == block_id
                        && spec_add_target(
                        old(blocks).spec_get(block_id),
                        c,
                        blocks.spec_get(votes@[k].to),
                    ) by {
                    lemma_chosen_unique(*self, step, c, to_add@);
                }
            }
            // Votes to drop members we lost contact with.
            let drops = self.nodes_to_drop(&block);
            let mut d: usize = 0;
            while d < drops.len()
                invariant
                    blocks.wf(),
                    ids_stored(*blocks, ours@),
                    ids_stored(*blocks, self.current_blocks@),
                    self.params.min_section_size + self.params.split_buffer <= usize::MAX,
                    i < ours@.len(),
                    block_id == ours@[i as int],
                    self.current_blocks@.contains(block_id),
                    old(blocks).has(block_id),
                    block.wf(),
                    beq(block, old(blocks).spec_get(block_id)),
                    old(blocks).spec_get(block_id).members@.contains(self.our_name),
                    d <= drops@.len(),
                    forall|m: int|
                        0 <= m < drops@.len() ==> block.members@.contains(#[trigger] drops@[m])
                            && drops@[m] != self.our_name && !self.connections@.contains(
                            drops@[m],
                        ) && !has_candidate(self.candidates@, drops@[m]),
                    forall|j: BlockId|
                        old(blocks).has(j) ==> blocks.has(j) && blocks.spec_get(j) == old(
                            blocks,
                        ).spec_get(j),
                    forall|k: int|
                        0 <= k < votes@.len() ==> blocks.has((#[trigger] votes@[k]).from)
                            && blocks.has(votes@[k].to),
                    forall|k: int|
                        0 <= k < votes@.len() ==> self.current_blocks@.contains(
                            (#[trigger] votes@[k]).from,
                        ) && spec_vote_produced(
                            *self,
                            step,
                            blocks.spec_get(votes@[k].from),
                            blocks.spec_get(votes@[k].to),
                        ),
                    forall|m: int, c: Name|
                        0 <= m < i && #[trigger] spec_add_owed(
                            *self,
                            *old(blocks),
                            step,
                            ours@[m],
                            c,
                        ) ==> exists|k: int|
                            0 <= k < votes@.len() && (#[trigger] votes@[k]).from == ours@[m]
                                && spec_add_target(
                                old(blocks).spec_get(ours@[m]),
                                c,
                                blocks.spec_get(votes@[k].to),
                            ),
                    forall|m: int, p: Name|
                        0 <= m < i && #[trigger] spec_drop_owed(*self, *old(blocks), ours@[m], p)
                            ==> exists|k: int|
                            0 <= k < votes@.len() && (#[trigger] votes@[k]).from == ours@[m]
                                && spec_drop_target(
                                old(blocks).spec_get(ours@[m]),
                                p,
                                blocks.spec_get(votes@[k].to),
                            ),
                    forall|c: Name|
                        #[trigger] spec_add_owed(*self, *old(blocks), step, block_id, c)
                            ==> exists|k: int|
                            0 <= k < votes@.len() && (#[trigger] votes@[k]).from == block_id
                                && spec_add_target(
                                old(blocks).spec_get(block_id),
                                c,
                                blocks.spec_get(votes@[k].to),
                            ),
                    forall|d2: int|
                        0 <= d2 < d && old(blocks).spec_get(block_id).version < u64::MAX
                            ==> exists|k: int|
                            0 <= k < votes@.len() && (#[trigger] votes@[k]).from == block_id
                                && spec_drop_target(
                                old(blocks).spec_get(block_id),
                                #[trigger] drops@[d2],
                                blocks.spec_get(votes@[k].to),
                            ),
                decreases drops@.len() - d,
            {
                let node = drops[d];
                if block.version < u64::MAX {
                    let ghost prestore = *blocks;
                    let ghost prevotes = votes@;
                    let removed = block.remove_node(node);
                    let removed_id = blocks.insert(removed);
                    votes.push(Vote { from: block_id, to: removed_id });
                    proof {
                        assert(drops@.contains(drops@[d as int]));
                        assert(spec_drop_target(
                            old(blocks).spec_get(block_id),
                            node,
                            blocks.spec_get(removed_id),
                        ));
                        assert(spec_drop_applies(
                            *self,
                            old(blocks).spec_get(block_id),
                            node,
                        ));
                        assert(votes@[prevotes.len() as int] == Vote {
                            from: block_id,
                            to: removed_id,
                        });
                        assert(blocks.spec_get(block_id) == old(blocks).spec_get(block_id));
                        assert(spec_vote_produced(
                            *self,
                            step,
                            blocks.spec_get(block_id),
                            blocks.spec_get(removed_id),
                        ));
                        carry_vote_facts(
                            *self,
                            step,
                            prestore,
                            *blocks,
                            prevotes,
                            votes@,
                            *old(blocks),
                            ours@,
                            i as int,
                        );
                        assert forall|c: Name|
                            #[trigger] spec_add_owed(
                                *self,
                                *old(blocks),
                                step,
                                block_id,
                                c,
                            ) implies exists|k: int|
                            0 <= k < votes@.len() && (#[trigger] votes@[k]).from == block_id
                                && spec_add_target(
                                old(blocks).spec_get(block_id),
                                c,
                                blocks.spec_get(votes@[k].to),
                            ) by {
                            let k = choose|k: int|
                                0 <= k < prevotes.len() && (#[trigger] prevotes[k]).from
                                    == block_id && spec_add_target(
                                    old(blocks).spec_get(block_id),
                                    c,
                                    prestore.spec_get(prevotes[k].to),
                                );
                            assert(votes@[k] == prevotes[k]);
                            assert(blocks.spec_get(votes@[k].to) == prestore.spec_get(
                                prevotes[k].to,
                            ));
                        }
                        assert forall|d2: int|
                            0 <= d2 < d + 1 && old(blocks).spec_get(block_id).version
                                < u64::MAX implies exists|k: int|
                            0 <= k < votes@.len() && (#[trigger] votes@[k]).from == block_id
                                && spec_drop_target(
                                old(blocks).spec_get(block_id),
                                #[trigger] drops@[d2],
                                blocks.spec_get(votes@[k].to),
                            ) by {
                            if d2 < d {
                                let k = choose|k: int|
                                    0 <= k < prevotes.len() && (#[trigger] prevotes[k]).from
                                        == block_id && spec_drop_target(
                                        old(blocks).spec_get(block_id),
                                        drops@[d2],
                                        prestore.spec_get(prevotes[k].to),
                                    );
                                assert(votes@[k] == prevotes[k]);
                                assert(blocks.spec_get(votes@[k].to) == prestore.spec_get(
                                    prevotes[k].to,
                                ));
                            } else {
                                assert(votes@[prevotes.len() as int].from == block_id);
                            }
                        }
                    }
                }
                d = d + 1;
            }
            proof {
                assert forall|p: Name|
                    #[trigger] spec_drop_owed(*self, *old(blocks), block_id, p) implies exists|
                    k: int,
                |
                    0 <= k < votes@.len() && (#[trigger] votes@[k]).from == block_id
                        && spec_drop_target(
                        old(blocks).spec_get(block_id),
                        p,
                        blocks.spec_get(votes@[k].to),
                    ) by {
                    assert(drops@.contains(p));
                    let d2 = choose|d2: int| 0 <= d2 < drops@.len() && drops@[d2] == p;
                }
            }
            i = i + 1;
        }
        // Split votes.
        let ghost votes1 = votes@;
        let ghost store1 = *blocks;
        let split_votes = split_blocks(
            blocks,
            &self.current_blocks,
            self.our_name,
            self.min_split_size(),
        );
        proof {
            assert forall|k: int|
                0 <= k < split_votes@.len() implies blocks.has(
                (#[trigger] split_votes@[k]).from,
            ) && blocks.has(split_votes@[k].to) by {
                if k % 2 == 0 {
                    assert(blocks.has(split_votes@[k].from));
                } else {
                    let e = k - 1;
                    assert(e % 2 == 0);
                    assert(blocks.has((#[trigger] split_votes@[e]).from));
                    assert(split_votes@[e].from == split_votes@[e + 1].from);
                    assert(blocks.has(split_votes@[e + 1].to));
                }
            }
            carry_phase_facts(*self, step, store1, *blocks, votes1, *old(blocks), ours@);
        }
        let mut s: usize = 0;
        while s < split_votes.len()
            invariant
                s <= split_votes@.len(),
                votes@ == votes1 + split_votes@.take(s as int),
            decreases split_votes@.len() - s,
        {
            votes.push(split_votes[s]);
            proof {
                assert(votes@ =~= votes1 + split_votes@.take(s + 1 as int));
            }
            s = s + 1;
        }
        let ghost votes2 = votes@;
        let ghost store2 = *blocks;
        proof {
            assert(split_votes@.take(split_votes@.len() as int) =~= split_votes@);
            assert(votes2 == votes1 + split_votes@);
            assert forall|k: int|
                0 <= k < votes1.len() implies blocks.has((#[trigger] votes2[k]).from)
                && blocks.has(votes2[k].to) && self.current_blocks@.contains(votes2[k].from)
                && spec_vote_produced(
                *self,
                step,
                blocks.spec_get(votes2[k].from),
                blocks.spec_get(votes2[k].to),
            ) by {
                assert(votes2[k] == votes1[k]);
            }
            assert forall|m: int, c: Name|
                0 <= m < ours@.len() && #[trigger] spec_add_owed(
                    *self,
                    *old(blocks),
                    step,
                    ours@[m],
                    c,
                ) implies exists|k: int|
                0 <= k < votes2.len() && (#[trigger] votes2[k]).from == ours@[m]
                    && spec_add_target(
                    old(blocks).spec_get(ours@[m]),
                    c,
                    blocks.spec_get(votes2[k].to),
                ) by {
                let k = choose|k: int|
                    0 <= k < votes1.len() && (#[trigger] votes1[k]).from == ours@[m]
                        && spec_add_target(
                        old(blocks).spec_get(ours@[m]),
                        c,
                        blocks.spec_get(votes1[k].to),
                    );
                assert(votes2[k] == votes1[k]);
            }
            assert forall|m: int, p: Name|
                0 <= m < ours@.len() && #[trigger] spec_drop_owed(
                    *self,
                    *old(blocks),
                    ours@[m],
                    p,
                ) implies exists|k: int|
                0 <= k < votes2.len() && (#[trigger] votes2[k]).from == ours@[m]
                    && spec_drop_target(
                    old(blocks).spec_get(ours@[m]),
                    p,
                    blocks.spec_get(votes2[k].to),
                ) by {
                let k = choose|k: int|
                    0 <= k < votes1.len() && (#[trigger] votes1[k]).from == ours@[m]
                        && spec_drop_target(
                        old(blocks).spec_get(ours@[m]),
                        p,
                        blocks.spec_get(votes1[k].to),
                    );
                assert(votes2[k] == votes1[k]);
            }
            assert forall|k: int|
                votes1.len() <= k < votes2.len() implies blocks.has(
                (#[trigger] votes2[k]).from,
            ) && blocks.has(votes2[k].to) && self.current_blocks@.contains(votes2[k].from)
                && spec_vote_produced(
                *self,
                step,
                blocks.spec_get(votes2[k].from),
                blocks.spec_get(votes2[k].to),
            ) by {
                let sk = k - votes1.len();
                assert(votes2[k] == split_votes@[sk]);
                if sk % 2 == 0 {
                    let v0 = #[trigger] split_votes@[sk];
                    let v1 = split_votes@[sk + 1];
                    assert(crate::split::spec_split_pair(
                        blocks.spec_get(v0.from),
                        blocks.spec_get(v0.to),
                        blocks.spec_get(v1.to),
                    ));
                } else {
                    let e = sk - 1;
                    assert(e % 2 == 0);
                    let v0 = #[trigger] split_votes@[e];
                    let v1 = split_votes@[e + 1];
                    assert(v0.from == v1.from);
                    assert(crate::split::spec_split_pair(
                        blocks.spec_get(v0.from),
                        blocks.spec_get(v0.to),
                        blocks.spec_get(v1.to),
                    ));
                }
            }
            // Every splittable block we sit in has its adjacent vote pair.
            assert forall|id: BlockId|
                #[trigger] self.current_blocks@.contains(id) && blocks.spec_get(
                    id,
                ).members@.contains(self.our_name) && crate::split::spec_can_split(
                    *blocks,
                    self.current_blocks@,
                    id,
                    self.params.min_section_size + self.params.split_buffer,
                ) implies exists|k: int|
                0 <= k < votes2.len() - 1 && (#[trigger] votes2[k]).from == id && votes2[k
                    + 1].from == id && crate::split::spec_split_pair(
                    blocks.spec_get(id),
                    blocks.spec_get(votes2[k].to),
                    blocks.spec_get(votes2[k + 1].to),
                ) by {
                let sk = choose|sk: int|
                    0 <= sk < split_votes@.len() && sk % 2 == 0 && (
                    #[trigger] split_votes@[sk]).from == id;
                assert(votes2[votes1.len() + sk] == split_votes@[sk]);
                assert(votes2[votes1.len() + sk + 1] == split_votes@[sk + 1]);
                assert(split_votes@[sk + 1].from == id);
            }
        }
        // Merge votes.
        let merge_votes = merge_blocks(
            blocks,
            &self.current_blocks,
            &self.connections,
            self.our_name,
            self.params.min_section_size,
        );
        proof {
            carry_phase_facts(*self, step, store2, *blocks, votes2, *old(blocks), ours@);
            // The split pairs survive the merge inserts.
            assert forall|id: BlockId|
                #[trigger] self.current_blocks@.contains(id) && blocks.spec_get(
                    id,
                ).members@.contains(self.our_name) && crate::split::spec_can_split(
                    *blocks,
                    self.current_blocks@,
                    id,
                    self.params.min_section_size + self.params.split_buffer,
                ) implies exists|k: int|
                0 <= k < votes2.len() - 1 && (#[trigger] votes2[k]).from == id && votes2[k
                    + 1].from == id && crate::split::spec_split_pair(
                    blocks.spec_get(id),
                    blocks.spec_get(votes2[k].to),
                    blocks.spec_get(votes2[k + 1].to),
                ) by {
                assert(blocks.spec_get(id) == store2.spec_get(id));
                assert(crate::split::spec_can_split(
                    store2,
                    self.current_blocks@,
                    id,
                    self.params.min_section_size + self.params.split_buffer,
                )) by {
                    assert(crate::split::spec_neighbours_ok(
                        store2,
                        self.current_blocks@,
                        store2.spec_get(id),
                        self.params.min_section_size + self.params.split_buffer,
                    )) by {
                        assert forall|q: int|
                            0 <= q < self.current_blocks@.len() implies store2.spec_get(
                            #[trigger] self.current_blocks@[q],
                        ) == blocks.spec_get(self.current_blocks@[q]) by {}
                    }
                }
                let k = choose|k: int|
                    0 <= k < votes2.len() - 1 && (#[trigger] votes2[k]).from == id && votes2[k
                        + 1].from == id && crate::split::spec_split_pair(
                        store2.spec_get(id),
                        store2.spec_get(votes2[k].to),
                        store2.spec_get(votes2[k + 1].to),
                    );
                assert(blocks.spec_get(votes2[k].to) == store2.spec_get(votes2[k].to));
                assert(blocks.spec_get(votes2[k + 1].to) == store2.spec_get(votes2[k + 1].to));
            }
        }
        let mut m2: usize = 0;
        while m2 < merge_votes.len()
            invariant
                m2 <= merge_votes@.len(),
                votes@ == votes2 + merge_votes@.take(m2 as int),
            decreases merge_votes@.len() - m2,
        {
            votes.push(merge_votes[m2]);
            proof {
                assert(votes@ =~= votes2 + merge_votes@.take(m2 + 1 as int));
            }
            m2 = m2 + 1;
        }
        let ghost votes3 = votes@;
        proof {
            assert(merge_votes@.take(merge_votes@.len() as int) =~= merge_votes@);
            assert(votes3 == votes2 + merge_votes@);
            assert forall|k: int|
                votes2.len() <= k < votes3.len() implies blocks.has(
                (#[trigger] votes3[k]).from,
            ) && blocks.has(votes3[k].to) && self.current_blocks@.contains(votes3[k].from)
                && spec_vote_produced(
                *self,
                step,
                blocks.spec_get(votes3[k].from),
                blocks.spec_get(votes3[k].to),
            ) by {
                let mk = k - votes2.len();
                assert(votes3[k] == merge_votes@[mk]);
                let v = #[trigger] merge_votes@[mk];
                let (ia, ib) = choose|ia: BlockId, ib: BlockId|
                    #![auto]
                    self.current_blocks@.contains(ia) && self.current_blocks@.contains(ib) && (
                    v.from == ia || v.from == ib) && crate::merge::spec_siblings(
                        blocks.spec_get(ia).prefix,
                        blocks.spec_get(ib).prefix,
                    ) && crate::merge::spec_merge_target(
                        blocks.spec_get(ia),
                        blocks.spec_get(ib),
                        blocks.spec_get(v.to),
                    );
                assert(spec_vote_produced(
                    *self,
                    step,
                    blocks.spec_get(v.from),
                    blocks.spec_get(v.to),
                )) by {
                    let a = blocks.spec_get(ia);
                    let b = blocks.spec_get(ib);
                    assert(beq(blocks.spec_get(v.from), a) || beq(blocks.spec_get(v.from), b));
                }
            }
        }
        // Witness votes.
        proof {
            lemma_wf_monotone(*self, *old(blocks), *blocks);
        }
        let wvotes = self.witness_votes(blocks);
        let mut w: usize = 0;
        while w < wvotes.len()
            invariant
                w <= wvotes@.len(),
                votes@ == votes3 + wvotes@.take(w as int),
            decreases wvotes@.len() - w,
        {
            votes.push(wvotes[w]);
            proof {
                assert(votes@ =~= votes3 + wvotes@.take(w + 1 as int));
            }
            w = w + 1;
        }
        proof {
            assert(wvotes@.take(wvotes@.len() as int) =~= wvotes@);
            assert(votes@ == votes3 + wvotes@);
            // Per-vote facts over the whole list.
            assert forall|k: int|
                0 <= k < votes@.len() implies blocks.has((#[trigger] votes@[k]).from)
                && blocks.has(votes@[k].to) && self.current_blocks@.contains(votes@[k].from) && (
            spec_vote_produced(
                *self,
                step,
                blocks.spec_get(votes@[k].from),
                blocks.spec_get(votes@[k].to),
            ) || spec_witness_owed(*self, *blocks, votes@[k].from, votes@[k].to)) by {
                if k < votes2.len() {
                    assert(votes@[k] == votes3[k]);
                    assert(votes3[k] == votes2[k]);
                } else if k < votes3.len() {
                    assert(votes@[k] == votes3[k]);
                } else {
                    assert(votes@[k] == wvotes@[k - votes3.len()]);
                }
            }
            // Completeness of the add and drop rules over the whole list.
            assert forall|id: BlockId, c: Name|
                #[trigger] spec_add_owed(*self, *old(blocks), step, id, c) implies exists|k: int|
                0 <= k < votes@.len() && (#[trigger] votes@[k]).from == id && spec_add_target(
                    old(blocks).spec_get(id),
                    c,
                    blocks.spec_get(votes@[k].to),
                ) by {
                assert(ours@.contains(id));
                let m = choose|m: int| 0 <= m < ours@.len() && ours@[m] == id;
                let k = choose|k: int|
                    0 <= k < votes2.len() && (#[trigger] votes2[k]).from == ours@[m]
                        && spec_add_target(
                        old(blocks).spec_get(ours@[m]),
                        c,
                        blocks.spec_get(votes2[k].to),
                    );
                assert(votes3[k] == votes2[k]);
                assert(votes@[k] == votes3[k]);
            }
            assert forall|id: BlockId, p: Name|
                #[trigger] spec_drop_owed(*self, *old(blocks), id, p) implies exists|k: int|
                0 <= k < votes@.len() && (#[trigger] votes@[k]).from == id && spec_drop_target(
                    old(blocks).spec_get(id),
                    p,
                    blocks.spec_get(votes@[k].to),
                ) by {
                assert(ours@.contains(id));
                let m = choose|m: int| 0 <= m < ours@.len() && ours@[m] == id;
                let k = choose|k: int|
                    0 <= k < votes2.len() && (#[trigger] votes2[k]).from == ours@[m]
                        && spec_drop_target(
                        old(blocks).spec_get(ours@[m]),
                        p,
                        blocks.spec_get(votes2[k].to),
                    );
                assert(votes3[k] == votes2[k]);
                assert(votes@[k] == votes3[k]);
            }
            // Completeness of the split rule over the whole list.
            assert forall|id: BlockId|
                #[trigger] self.current_blocks@.contains(id) && blocks.spec_get(
                    id,
                ).members@.contains(self.our_name) && crate::split::spec_can_split(
                    *blocks,
                    self.current_blocks@,
                    id,
                    self.params.min_section_size + self.params.split_buffer,
                ) implies exists|k: int|
                0 <= k < votes@.len() - 1 && (#[trigger] votes@[k]).from == id && votes@[k
                    + 1].from == id && crate::split::spec_split_pair(
                    blocks.spec_get(id),
                    blocks.spec_get(votes@[k].to),
                    blocks.spec_get(votes@[k + 1].to),
                ) by {
                let k = choose|k: int|
                    0 <= k < votes2.len() - 1 && (#[trigger] votes2[k]).from == id && votes2[k
                        + 1].from == id && crate::split::spec_split_pair(
                        blocks.spec_get(id),
                        blocks.spec_get(votes2[k].to),
                        blocks.spec_get(votes2[k + 1].to),
                    );
                assert(votes3[k] == votes2[k]);
                assert(votes3[k + 1] == votes2[k + 1]);
                assert(votes@[k] == votes3[k]);
                assert(votes@[k + 1] == votes3[k + 1]);
            }
            // Completeness of the merge rules over the whole list.
            assert forall|cid: BlockId, sid: BlockId|
                #[trigger] crate::merge::spec_merge_owed_own(
                    *blocks,
                    self.current_blocks@,
                    self.our_name,
                    self.params.min_section_size as int,
                    cid,
                    sid,
                ) implies exists|k: int|
                0 <= k < votes@.len() && (#[trigger] votes@[k]).from == cid
                    && crate::merge::spec_merge_target(
                    blocks.spec_get(cid),
                    blocks.spec_get(sid),
                    blocks.spec_get(votes@[k].to),
                ) by {
                let k = choose|k: int|
                    0 <= k < merge_votes@.len() && (#[trigger] merge_votes@[k]).from == cid
                        && crate::merge::spec_merge_target(
                        blocks.spec_get(cid),
                        blocks.spec_get(sid),
                        blocks.spec_get(merge_votes@[k].to),
                    );
                assert(votes@[votes2.len() + k] == merge_votes@[k]);
            }
            assert forall|cid: BlockId, oid: BlockId|
                #[trigger] crate::merge::spec_merge_owed_force(
                    *blocks,
                    self.current_blocks@,
                    self.connections@,
                    self.our_name,
                    cid,
                    oid,
                ) implies exists|k: int|
                0 <= k < votes@.len() && (#[trigger] votes@[k]).from == oid
                    && crate::merge::spec_merge_target(
                    blocks.spec_get(cid),
                    blocks.spec_get(oid),
                    blocks.spec_get(votes@[k].to),
                ) by {
                let k = choose|k: int|
                    0 <= k < merge_votes@.len() && (#[trigger] merge_votes@[k]).from == oid
                        && crate::merge::spec_merge_target(
                        blocks.spec_get(cid),
                        blocks.spec_get(oid),
                        blocks.spec_get(merge_votes@[k].to),
                    );
                assert(votes@[votes2.len() + k] == merge_votes@[k]);
            }
            // Completeness of the witness rule over the whole list.
            assert forall|oid: BlockId, cid: BlockId|
                #[trigger] spec_witness_owed(*self, *blocks, oid, cid) implies votes@.contains(
                Vote { from: oid, to: cid },
            ) by {
                assert(wvotes@.contains(Vote { from: oid, to: cid }));
                let k = choose|k: int|
                    0 <= k < wvotes@.len() && wvotes@[k] == Vote { from: oid, to: cid };
                assert(votes@[votes3.len() + k] == wvotes@[k]);
            }
        }
        votes
    }

    /// Address one message content to every relevant recipient: the
    /// content's own recipients plus the candidate being added, never
    /// ourselves.
    pub fn broadcast(&self, blocks: &Blocks, msgs: Vec<MessageContent>, step: u64) -> (r: Vec<
        Message,
    >)
        requires
            self.wf(*blocks),
            blocks.wf(),
            forall|k: int| 0 <= k < msgs@.len() ==> (#[trigger] msgs@[k]).ids_ok(*blocks),
        ensures
            forall|k: int|
                0 <= k < r@.len() ==> (#[trigger] r@[k]).sender == self.our_name && r@[k].recipient
                    != self.our_name,
            forall|k: int|
                0 <= k < r@.len() ==> #[trigger] from_some(r@[k].content, msgs@),
            forall|j: int, n: Name|
                0 <= j < msgs@.len() && is_recipient(
                    *blocks,
                    self.current_blocks@,
                    self.our_name,
                    msgs@[j],
                    n,
                ) && n != self.our_name ==> #[trigger] has_msg(r@, n, msgs@[j]),
            forall|j: int, c: Name|
                0 <= j < msgs@.len() && spec_chosen_candidate(*self, step, c) && c
                    != self.our_name ==> #[trigger] has_msg(r@, c, msgs@[j]),
    {
        let ghost allm = msgs@;
        let mut out: Vec<Message> = Vec::new();
        let mut contents = msgs;
        let ghost done: Seq<MessageContent> = Seq::empty();
        proof {
            assert(allm =~= done + contents@);
        }
        while contents.len() > 0
            invariant
                self.wf(*blocks),
                blocks.wf(),
                allm == done + contents@,
                forall|k: int|
                    0 <= k < contents@.len() ==> (#[trigger] contents@[k]).ids_ok(*blocks),
                forall|k: int|
                    0 <= k < out@.len() ==> (#[trigger] out@[k]).sender == self.our_name
                        && out@[k].recipient != self.our_name,
                forall|k: int|
                    0 <= k < out@.len() ==> #[trigger] from_some(out@[k].content, allm),
                forall|j: int, n: Name|
                    0 <= j < done.len() && is_recipient(
                        *blocks,
                        self.current_blocks@,
                        self.our_name,
                        done[j],
                        n,
                    ) && n != self.our_name ==> #[trigger] has_msg(out@, n, done[j]),
                forall|j: int, c: Name|
                    0 <= j < done.len() && spec_chosen_candidate(*self, step, c) && c
                        != self.our_name ==> #[trigger] has_msg(out@, c, done[j]),
            decreases contents@.len(),
        {
            let ghost pre = contents@;
            let content = contents.remove(0);
            let ghost jidx = done.len() as int;
            proof {
                assert(pre[0].ids_ok(*blocks));
                assert(allm[jidx] == content);
            }
            let rec0 = content.recipients(blocks, &self.current_blocks, self.our_name);
            proof {
                assert forall|n: Name| rec0@.contains(n) <==> is_recipient(
                    *blocks,
                    self.current_blocks@,
                    self.our_name,
                    content,
                    n,
                ) by {}
            }
            let extra = self.nodes_to_add(step);
            let recipients = union_names(&rec0, &extra);
            // One copy of the content per recipient.
            let mut ri: usize = 0;
            while ri < recipients.len()
                invariant
                    self.wf(*blocks),
                    blocks.wf(),
                    content.ids_ok(*blocks),
                    ri <= recipients@.len(),
                    0 <= jidx < allm.len() && allm[jidx] == content,
                    forall|k: int|
                        0 <= k < out@.len() ==> (#[trigger] out@[k]).sender == self.our_name
                            && out@[k].recipient != self.our_name,
                    forall|k: int|
                        0 <= k < out@.len() ==> #[trigger] from_some(out@[k].content, allm),
                    forall|j: int, n: Name|
                        0 <= j < done.len() && is_recipient(
                            *blocks,
                            self.current_blocks@,
                            self.our_name,
                            done[j],
                            n,
                        ) && n != self.our_name ==> #[trigger] has_msg(out@, n, done[j]),
                    forall|j: int, c: Name|
                        0 <= j < done.len() && spec_chosen_candidate(*self, step, c) && c
                            != self.our_name ==> #[trigger] has_msg(out@, c, done[j]),
                    forall|n: Name|
                        recipients@.take(ri as int).contains(n) && n != self.our_name
                            ==> has_msg(out@, n, content),
                decreases recipients@.len() - ri,
            {
                let recipient = recipients[ri];
                proof {
                    assert(recipients@.take(ri as int + 1) =~= recipients@.take(
                        ri as int,
                    ).push(recipients@[ri as int]));
                }
                if recipient.0 != self.our_name.0 {
                    let ghost outpre = out@;
                    let c = copy_content(&content);
                    out.push(Message { sender: self.our_name, recipient, content: c });
                    proof {
                        assert(out@ == outpre.push(
                            Message { sender: self.our_name, recipient, content: c },
                        ));
                        assert(out@[outpre.len() as int].recipient == recipient);
                        assert(content_like(out@[outpre.len() as int].content, content));
                        assert(content_like(out@[outpre.len() as int].content, allm[jidx]));
                        assert(from_some(out@[outpre.len() as int].content, allm));
                        assert(has_msg(out@, recipient, content));
                        assert forall|j: int, n: Name|
                            0 <= j < done.len() && is_recipient(
                                *blocks,
                                self.current_blocks@,
                                self.our_name,
                                done[j],
                                n,
                            ) && n != self.our_name implies #[trigger] has_msg(out@, n, done[j]) by {
                            lemma_has_msg_push(
                                outpre,
                                Message { sender: self.our_name, recipient, content: c },
                                n,
                                done[j],
                            );
                        }
                        assert forall|j: int, cd: Name|
                            0 <= j < done.len() && spec_chosen_candidate(*self, step, cd) && cd
                                != self.our_name implies #[trigger] has_msg(out@, cd, done[j]) by {
                            lemma_has_msg_push(
                                outpre,
                                Message { sender: self.our_name, recipient, content: c },
                                cd,
                                done[j],
                            );
                        }
                        assert forall|n: Name|
                            recipients@.take(ri as int).contains(n) && n != self.our_name
                                implies has_msg(out@, n, content) by {
                            lemma_has_msg_push(
                                outpre,
                                Message { sender: self.our_name, recipient, content: c },
                                n,
                                content,
                            );
                        }
                    }
                }
                ri = ri + 1;
            }
            proof {
                assert(recipients@.take(recipients@.len() as int) =~= recipients@);
                assert forall|n: Name|
                    is_recipient(*blocks, self.current_blocks@, self.our_name, content, n) && n
                        != self.our_name implies has_msg(out@, n, content) by {
                    assert(rec0@.contains(n));
                    assert(recipients@.contains(n));
                }
                assert forall|cd: Name|
                    spec_chosen_candidate(*self, step, cd) && cd
                        != self.our_name implies has_msg(out@, cd, content) by {
                    lemma_chosen_unique(*self, step, cd, extra@);
                    assert(extra@.contains(cd));
                    assert(recipients@.contains(cd));
                }
                done = done.push(content);
                assert(allm =~= done + contents@);
            }
        }
        proof {
            assert(done =~= allm);
        }
        out
    }
}

/// `n` is one of the nodes the content should reach: vote messages go to
/// the members of the vote's two blocks; agreements go to the members of
/// the neighbour sections our section must inform; everything else goes
/// to every member of every current block.
pub open spec fn is_recipient(
    store: Blocks,
    currents: Seq<BlockId>,
    our_name: Name,
    content: MessageContent,
    n: Name,
) -> bool {
    match content {
        MessageContent::VoteMsg(v) => store.spec_get(v.from).members@.contains(n)
            || store.spec_get(v.to).members@.contains(n),
        MessageContent::VoteAgreedMsg((v, _)) => (store.spec_get(v.from).members@.contains(
            our_name,
        ) || store.spec_get(v.to).members@.contains(our_name)) && exists|i: int|
            agreed_target(
                store,
                currents,
                i,
                store.spec_get(v.from).prefix,
                store.spec_get(v.to).prefix,
                our_name,
            ) && store.spec_get(#[trigger] currents[i]).members@.contains(n),
        _ => exists|i: int|
            0 <= i < currents.len() && store.spec_get(#[trigger] currents[i]).members@.contains(
                n,
            ),
    }
}

/// Structural sameness of two contents: same variant, same ids, same
/// names, entry for entry.
pub open spec fn content_like(a: MessageContent, b: MessageContent) -> bool {
    match (a, b) {
        (MessageContent::VoteMsg(v1), MessageContent::VoteMsg(v2)) => v1 == v2,
        (
            MessageContent::VoteAgreedMsg((v1, n1)),
            MessageContent::VoteAgreedMsg((v2, n2)),
        ) => v1 == v2 && n1@ == n2@,
        (MessageContent::VoteBundle(b1), MessageContent::VoteBundle(b2)) => b1@.len()
            == b2@.len() && forall|i: int|
            0 <= i < b1@.len() ==> (#[trigger] b1@[i]).0 == b2@[i].0 && b1@[i].1@ == b2@[i].1@,
        (
            MessageContent::RequestProof(id1, c1),
            MessageContent::RequestProof(id2, c2),
        ) => id1 == id2 && c1@ == c2@,
        (MessageContent::NoProof(id1), MessageContent::NoProof(id2)) => id1 == id2,
        (MessageContent::NodeJoined, MessageContent::NodeJoined) => true,
        (MessageContent::BootstrapMsg(vc1), MessageContent::BootstrapMsg(vc2)) => vc1.entries@
            .len() == vc2.entries@.len() && forall|i: int|
            0 <= i < vc1.entries@.len() ==> (#[trigger] vc1.entries@[i]).0 == vc2.entries@[i].0
                && vc1.entries@[i].1@ == vc2.entries@[i].1@,
        (MessageContent::Connect, MessageContent::Connect) => true,
        (MessageContent::Disconnect, MessageContent::Disconnect) => true,
        _ => false,
    }
}

/// `c` matches one of the contents in `msgs`.
pub open spec fn from_some(c: MessageContent, msgs: Seq<MessageContent>) -> bool {
    exists|j: int| 0 <= j < msgs.len() && content_like(c, #[trigger] msgs[j])
}

/// `out` already carries a message for `n` whose content matches `c`.
pub open spec fn has_msg(out: Seq<Message>, n: Name, c: MessageContent) -> bool {
    exists|k: int|
        0 <= k < out.len() && (#[trigger] out[k]).recipient == n && content_like(out[k].content, c)
}

/// Appending one more message never loses an existing match.
pub proof fn lemma_has_msg_push(out: Seq<Message>, x: Message, n: Name, c: MessageContent)
    requires
        has_msg(out, n, c),
    ensures
        has_msg(out.push(x), n, c),
{
    let k = choose|k: int|
        0 <= k < out.len() && (#[trigger] out[k]).recipient == n && content_like(out[k].content, c);
    assert(out.push(x)[k] == out[k]);
}

/// A value copy of a message content.
pub fn copy_content(c: &MessageContent) -> (r: MessageContent)
    ensures
        r.ids_ok_like(*c),
        content_like(r, *c),
{
    match c {
        MessageContent::VoteMsg(v) => MessageContent::VoteMsg(*v),
        MessageContent::VoteAgreedMsg((v, names)) => MessageContent::VoteAgreedMsg(
            (*v, copy_names(names)),
        ),
        MessageContent::VoteBundle(bundle) => {
            let mut out: Vec<(Vote, Vec<Name>)> = Vec::new();
            let mut i: usize = 0;
            while i < bundle.len()
                invariant
                    i <= bundle@.len(),
                    out@.len() == i,
                    forall|m: int|
                        0 <= m < i ==> (#[trigger] out@[m]).0 == bundle@[m].0 && out@[m].1@
                            == bundle@[m].1@,
                decreases bundle@.len() - i,
            {
                out.push((bundle[i].0, copy_names(&bundle[i].1)));
                i = i + 1;
            }
            MessageContent::VoteBundle(out)
        },
        MessageContent::RequestProof(id, currents) => MessageContent::RequestProof(
            *id,
            copy_ids(currents),
        ),
        MessageContent::NoProof(id) => MessageContent::NoProof(*id),
        MessageContent::NodeJoined => MessageContent::NodeJoined,
        MessageContent::BootstrapMsg(vc) => MessageContent::BootstrapMsg(
            crate::blocks::copy_vote_counts(vc),
        ),
        MessageContent::Connect => MessageContent::Connect,
        MessageContent::Disconnect => MessageContent::Disconnect,
    }
}

impl MessageContent {
    /// The copy refers to the same blocks as the original.
    pub open spec fn ids_ok_like(self, other: MessageContent) -> bool {
        forall|store: Blocks| other.ids_ok(store) ==> self.ids_ok(store)
    }
}


/// `vc_le` chains.
pub proof fn lemma_vc_le_trans(a: VoteCounts, b: VoteCounts, c: VoteCounts)
    requires
        crate::blocks::vc_le(a, b),
        crate::blocks::vc_le(b, c),
    ensures
        crate::blocks::vc_le(a, c),
{
}

/// Check that a vote-count map is well-formed and points into the store.
pub fn check_vc(blocks: &Blocks, vc: &VoteCounts) -> (r: bool)
    ensures
        r == (vc.wf() && vc_stored(*blocks, *vc)),
{
    let mut i: usize = 0;
    while i < vc.entries.len()
        invariant
            i <= vc.entries@.len(),
            forall|a: int, b: int|
                0 <= a < b < vc.entries@.len() && b < i ==> (#[trigger] vc.entries@[a]).0 != (
                #[trigger] vc.entries@[b]).0,
            forall|a: int|
                0 <= a < i ==> sorted_names((#[trigger] vc.entries@[a]).1@) && blocks.has(
                    vc.entries@[a].0.from,
                ) && blocks.has(vc.entries@[a].0.to),
        decreases vc.entries@.len() - i,
    {
        if vc.entries[i].0.from.0 >= blocks.len() || vc.entries[i].0.to.0 >= blocks.len() {
            return false;
        }
        if !check_sorted(&vc.entries[i].1) {
            return false;
        }
        let mut j: usize = 0;
        while j < i
            invariant
                j <= i,
                i < vc.entries@.len(),
                forall|a: int| 0 <= a < j ==> (#[trigger] vc.entries@[a]).0 != vc.entries@[i as int].0,
            decreases i - j,
        {
            if vc.entries[j].0 == vc.entries[i].0 {
                return false;
            }
            j = j + 1;
        }
        i = i + 1;
    }
    true
}

/// Every voter list in a well-formed vote-count map is ordered.
pub proof fn lemma_voters_sorted(vc: VoteCounts)
    requires
        vc.wf(),
    ensures
        forall|v: Vote| sorted_names(#[trigger] vc.voters_of(v)),
{
    assert forall|v: Vote| sorted_names(#[trigger] vc.voters_of(v)) by {
        if vc.has_edge(v) {
            let k = vc.edge_at(v);
            assert(sorted_names(vc.entries@[k].1@));
        }
    }
}

/// Applying the same bootstrap a second time changes nothing: the vote
/// graph after the second application records exactly the edges and
/// voters of the first.
pub proof fn lemma_bootstrap_idempotent(a: VoteCounts, b: VoteCounts, c: VoteCounts, msg: VoteCounts)
    requires
        a.wf(),
        b.wf(),
        c.wf(),
        forall|v: Vote| #[trigger] b.has_edge(v) <==> (a.has_edge(v) || msg.has_edge(v)),
        forall|v: Vote, y: Name|
            #[trigger] b.voters_of(v).contains(y) <==> (a.voters_of(v).contains(y)
                || msg.voters_of(v).contains(y)),
        forall|v: Vote| #[trigger] c.has_edge(v) <==> (b.has_edge(v) || msg.has_edge(v)),
        forall|v: Vote, y: Name|
            #[trigger] c.voters_of(v).contains(y) <==> (b.voters_of(v).contains(y)
                || msg.voters_of(v).contains(y)),
    ensures
        forall|v: Vote| #[trigger] c.has_edge(v) == b.has_edge(v),
        forall|v: Vote| #[trigger] c.voters_of(v) == b.voters_of(v),
{
    lemma_voters_sorted(b);
    lemma_voters_sorted(c);
    assert forall|v: Vote| #[trigger] c.voters_of(v) == b.voters_of(v) by {
        assert forall|y: Name| c.voters_of(v).contains(y) <==> b.voters_of(v).contains(y) by {}
        crate::members::lemma_sorted_contains_eq(c.voters_of(v), b.voters_of(v));
    }
}

impl Node {
    /// Remove messages whose exact content was recently sent, and record
    /// what goes out; connection management messages always pass. Every
    /// returned message is one of the given ones.
    fn filter_messages(&mut self, messages: Vec<Message>) -> (r: Vec<Message>)
        ensures
            r@.len() <= messages@.len(),
            forall|k: int| 0 <= k < r@.len() ==> messages@.contains(#[trigger] r@[k]),
            forall|j: int|
                0 <= j < messages@.len() && ((#[trigger] messages@[j]).content is Connect
                    || messages@[j].content is Disconnect) ==> r@.contains(messages@[j]),
            final(self).our_name == old(self).our_name,
            final(self).valid_blocks == old(self).valid_blocks,
            final(self).current_blocks == old(self).current_blocks,
            final(self).vote_counts == old(self).vote_counts,
            final(self).connections == old(self).connections,
            final(self).connect_requests == old(self).connect_requests,
            final(self).candidates == old(self).candidates,
            final(self).recent_votes == old(self).recent_votes,
            final(self).current_candidate_blocks == old(self).current_candidate_blocks,
            final(self).prev_current_blocks == old(self).prev_current_blocks,
            final(self).params == old(self).params,
            final(self).step_created == old(self).step_created,
    {
        let ghost orig = messages@;
        let mut rest = messages;
        let mut out: Vec<Message> = Vec::new();
        let ghost consumed: int = 0;
        while rest.len() > 0
            invariant
                rest@.len() <= orig.len(),
                out@.len() + rest@.len() <= orig.len(),
                rest@ == orig.skip(orig.len() - rest@.len()),
                forall|k: int| 0 <= k < out@.len() ==> orig.contains(#[trigger] out@[k]),
                forall|j: int|
                    0 <= j < orig.len() - rest@.len() && ((#[trigger] orig[j]).content
                        is Connect || orig[j].content is Disconnect) ==> out@.contains(orig[j]),
                self.our_name == old(self).our_name,
                self.valid_blocks == old(self).valid_blocks,
                self.current_blocks == old(self).current_blocks,
                self.vote_counts == old(self).vote_counts,
                self.connections == old(self).connections,
                self.connect_requests == old(self).connect_requests,
                self.candidates == old(self).candidates,
                self.recent_votes == old(self).recent_votes,
                self.current_candidate_blocks == old(self).current_candidate_blocks,
                self.prev_current_blocks == old(self).prev_current_blocks,
                self.params == old(self).params,
                self.step_created == old(self).step_created,
            decreases rest@.len(),
        {
            let ghost pre = rest@;
            let ghost j = orig.len() - pre.len();
            let m = rest.remove(0);
            proof {
                assert(rest@ =~= pre.drop_first());
                assert(m == orig[j]);
                assert(orig.contains(m));
                assert(rest@ =~= orig.skip(orig.len() - rest@.len()));
            }
            let exempt = match &m.content {
                MessageContent::Connect => true,
                MessageContent::Disconnect => true,
                _ => false,
            };
            proof {
                assert(exempt == (orig[j].content is Connect || orig[j].content is Disconnect));
            }
            if exempt {
                let ghost pre_out = out@;
                out.push(m);
                proof {
                    crate::members::lemma_push_contains(pre_out, m);
                }
            } else {
                let h = msg_hash(&m);
                let mut seen = false;
                let mut fi: usize = 0;
                while fi < self.message_filter.len()
                    invariant
                        fi <= self.message_filter@.len(),
                    decreases self.message_filter@.len() - fi,
                {
                    if self.message_filter[fi] == h {
                        seen = true;
                    }
                    fi = fi + 1;
                }
                if !seen {
                    if self.message_filter.len() < MESSAGE_FILTER_LEN {
                        self.message_filter.push(h);
                    } else {
                        let head = self.filter_head;
                        if head < self.message_filter.len() {
                            self.message_filter.set(head, h);
                        }
                        self.filter_head = if head >= MESSAGE_FILTER_LEN - 1 {
                            0
                        } else {
                            head + 1
                        };
                    }
                    let ghost pre_out = out@;
                    out.push(m);
                    proof {
                        crate::members::lemma_push_contains(pre_out, m);
                    }
                }
            }
        }
        proof {
            assert(orig == messages@);
        }
        out
    }

    /// A message with our whole vote graph, for a joining node.
    fn construct_bootstrap_msg(&self, joining_node: Name) -> (r: Message)
        requires
            self.vote_counts.wf(),
        ensures
            r.sender == self.our_name,
            r.recipient == joining_node,
            r.content matches MessageContent::BootstrapMsg(vc) && vc.wf() && (forall|v: Vote|
                vc.has_edge(v) == self.vote_counts.has_edge(v)) && (forall|v: Vote|
                vc.voters_of(v) == self.vote_counts.voters_of(v)),
    {
        Message {
            sender: self.our_name,
            recipient: joining_node,
            content: MessageContent::BootstrapMsg(
                crate::blocks::copy_vote_counts(&self.vote_counts),
            ),
        }
    }

    /// Merge another node's vote graph into ours: afterwards we record an
    /// edge iff we did before or the bootstrap does, and its voters are
    /// the union of both records. Applying the same bootstrap twice thus
    /// changes nothing the second time.
    pub fn apply_bootstrap_msg(&mut self, blocks: &Blocks, vote_counts: &VoteCounts)
        requires
            old(self).wf(*blocks),
            blocks.wf(),
            vote_counts.wf(),
            vc_stored(*blocks, *vote_counts),
        ensures
            final(self).wf(*blocks),
            vc_le(old(self).vote_counts, final(self).vote_counts),
            forall|v: Vote|
                #[trigger] final(self).vote_counts.has_edge(v) <==> (old(self).vote_counts.has_edge(v) || vote_counts.has_edge(v)),
            forall|v: Vote, y: Name|
                #[trigger] final(self).vote_counts.voters_of(v).contains(y) <==> (old(self).vote_counts.voters_of(v).contains(y) || vote_counts.voters_of(v).contains(y)),
            final(self).our_name == old(self).our_name,
            final(self).current_blocks == old(self).current_blocks,
            final(self).valid_blocks == old(self).valid_blocks,
            final(self).connections == old(self).connections,
            final(self).candidates == old(self).candidates,
            final(self).params == old(self).params,
    {
        let ghost pre = *self;
        let mut i: usize = 0;
        while i < vote_counts.entries.len()
            invariant
                self.wf(*blocks),
                blocks.wf(),
                vote_counts.wf(),
                vc_stored(*blocks, *vote_counts),
                i <= vote_counts.entries@.len(),
                vc_le(pre.vote_counts, self.vote_counts),
                forall|v: Vote|
                    #[trigger] self.vote_counts.has_edge(v) <==> (pre.vote_counts.has_edge(v)
                        || exists|k: int|
                        0 <= k < i && (#[trigger] vote_counts.entries@[k]).0 == v),
                forall|v: Vote, y: Name|
                    #[trigger] self.vote_counts.voters_of(v).contains(y) <==> (
                    pre.vote_counts.voters_of(v).contains(y) || exists|k: int|
                        0 <= k < i && (#[trigger] vote_counts.entries@[k]).0 == v
                            && vote_counts.entries@[k].1@.contains(y)),
                self.our_name == pre.our_name,
                self.current_blocks == pre.current_blocks,
                self.valid_blocks == pre.valid_blocks,
                self.connections == pre.connections,
                self.candidates == pre.candidates,
                self.params == pre.params,
            decreases vote_counts.entries@.len() - i,
        {
            let vote = vote_counts.entries[i].0;
            let ghost mid = *self;
            self.add_vote(blocks, vote, &vote_counts.entries[i].1);
            proof {
                lemma_vc_le_trans(pre.vote_counts, mid.vote_counts, self.vote_counts);
                assert forall|v: Vote|
                    #[trigger] self.vote_counts.has_edge(v) <==> (pre.vote_counts.has_edge(v)
                        || exists|k: int|
                        0 <= k < i + 1 && (#[trigger] vote_counts.entries@[k]).0 == v) by {
                    if v == vote {
                        assert(vote_counts.entries@[i as int].0 == v);
                    } else {
                        assert(self.vote_counts.has_edge(v) == mid.vote_counts.has_edge(v));
                        if exists|k: int|
                            0 <= k < i + 1 && (#[trigger] vote_counts.entries@[k]).0 == v {
                            let k = choose|k: int|
                                0 <= k < i + 1 && (#[trigger] vote_counts.entries@[k]).0 == v;
                            assert(k < i);
                        }
                    }
                }
                assert forall|v: Vote, y: Name|
                    #[trigger] self.vote_counts.voters_of(v).contains(y) <==> (
                pre.vote_counts.voters_of(v).contains(y) || exists|k: int|
                    0 <= k < i + 1 && (#[trigger] vote_counts.entries@[k]).0 == v
                        && vote_counts.entries@[k].1@.contains(y)) by {
                    if v == vote {
                        assert(vote_counts.entries@[i as int].0 == v);
                        if self.vote_counts.voters_of(v).contains(y) {
                            if mid.vote_counts.voters_of(v).contains(y) {
                                if !pre.vote_counts.voters_of(v).contains(y) {
                                    let k = choose|k: int|
                                        0 <= k < i && (#[trigger] vote_counts.entries@[k]).0 == v
                                            && vote_counts.entries@[k].1@.contains(y);
                                }
                            } else {
                                assert(vote_counts.entries@[i as int].1@.contains(y));
                            }
                        }
                        if exists|k: int|
                            0 <= k < i + 1 && (#[trigger] vote_counts.entries@[k]).0 == v
                                && vote_counts.entries@[k].1@.contains(y) {
                            let k = choose|k: int|
                                0 <= k < i + 1 && (#[trigger] vote_counts.entries@[k]).0 == v
                                    && vote_counts.entries@[k].1@.contains(y);
                            if k < i {
                                assert(mid.vote_counts.voters_of(v).contains(y));
                            } else {
                                assert(vote_counts.entries@[i as int].1@.contains(y));
                            }
                        }
                    } else {
                        assert(self.vote_counts.voters_of(v) == mid.vote_counts.voters_of(v));
                        if exists|k: int|
                            0 <= k < i + 1 && (#[trigger] vote_counts.entries@[k]).0 == v
                                && vote_counts.entries@[k].1@.contains(y) {
                            let k = choose|k: int|
                                0 <= k < i + 1 && (#[trigger] vote_counts.entries@[k]).0 == v
                                    && vote_counts.entries@[k].1@.contains(y);
                            assert(k < i);
                        }
                    }
                }
            }
            i = i + 1;
        }
        proof {
            assert forall|v: Vote|
                #[trigger] self.vote_counts.has_edge(v) <==> (pre.vote_counts.has_edge(v)
                    || vote_counts.has_edge(v)) by {
                if vote_counts.has_edge(v) {
                    let k = vote_counts.edge_at(v);
                    assert(vote_counts.entries@[k].0 == v);
                }
                if exists|k: int|
                    0 <= k < vote_counts.entries@.len() && (#[trigger] vote_counts.entries@[k]).0
                        == v {
                    let k = choose|k: int|
                        0 <= k < vote_counts.entries@.len() && (
                        #[trigger] vote_counts.entries@[k]).0 == v;
                    vote_counts.lemma_edge_at(k);
                }
            }
            assert forall|v: Vote, y: Name|
                #[trigger] self.vote_counts.voters_of(v).contains(y) <==> (
            pre.vote_counts.voters_of(v).contains(y) || vote_counts.voters_of(v).contains(
                y,
            )) by {
                if vote_counts.voters_of(v).contains(y) {
                    let k = vote_counts.edge_at(v);
                    assert(vote_counts.entries@[k].0 == v);
                    vote_counts.lemma_edge_at(k);
                }
                if exists|k: int|
                    0 <= k < vote_counts.entries@.len() && (#[trigger] vote_counts.entries@[k]).0
                        == v && vote_counts.entries@[k].1@.contains(y) {
                    let k = choose|k: int|
                        0 <= k < vote_counts.entries@.len() && (
                        #[trigger] vote_counts.entries@[k]).0 == v
                            && vote_counts.entries@[k].1@.contains(y);
                    vote_counts.lemma_edge_at(k);
                }
            }
        }
    }
}

/// The shape every reply to a message must have: addressed back to the
/// sender, from us, with the content kind the protocol prescribes for
/// the incoming variant (and a bootstrap reply carries exactly our vote
/// graph).
pub open spec fn reply_shape(
    incoming: MessageContent,
    reply: Message,
    our_name: Name,
    sender: Name,
    graph: VoteCounts,
) -> bool {
    &&& reply.sender == our_name
    &&& reply.recipient == sender
    &&& match incoming {
        MessageContent::NodeJoined => reply.content is Connect || (reply.content is BootstrapMsg
            && (forall|v: Vote|
            #[trigger] reply.content->BootstrapMsg_0.has_edge(v) == graph.has_edge(v)) && (
        forall|v: Vote|
            #[trigger] reply.content->BootstrapMsg_0.voters_of(v) == graph.voters_of(v))),
        MessageContent::VoteMsg(_) => reply.content is RequestProof,
        MessageContent::VoteAgreedMsg(_) => reply.content is RequestProof,
        MessageContent::VoteBundle(_) => reply.content is RequestProof,
        MessageContent::RequestProof(_, _) => reply.content is VoteBundle || reply.content
            is NoProof,
        MessageContent::Connect => reply.content is Connect,
        _ => false,
    }
}

/// The candidate table knows this name.
pub open spec fn has_candidate(c: Seq<(Name, Candidate)>, name: Name) -> bool {
    exists|k: int| 0 <= k < c.len() && (#[trigger] c[k]).0 == name
}

/// Some message of the list is a connection offer.
pub open spec fn has_connect(msgs: Seq<Message>) -> bool {
    exists|k: int| 0 <= k < msgs.len() && (#[trigger] msgs[k]).content is Connect
}

/// Every vote of the bundle names stored blocks and carries an ordered
/// voter list.
pub open spec fn bundle_valid(store: Blocks, bundle: Seq<(Vote, Vec<Name>)>) -> bool {
    forall|i: int|
        0 <= i < bundle.len() ==> store.has((#[trigger] bundle[i]).0.from) && store.has(
            bundle[i].0.to,
        ) && sorted_names(bundle[i].1@)
}

/// A content hash used only to suppress re-sending identical messages.
fn msg_hash(m: &Message) -> u64 {
    let mut h: u64 = 0xcbf29ce484222325;
    h = mix(h, m.sender.0);
    h = mix(h, m.recipient.0);
    match &m.content {
        MessageContent::VoteMsg(v) => {
            h = mix(h, 1);
            h = mix(h, v.from.0 as u64);
            h = mix(h, v.to.0 as u64);
        },
        MessageContent::VoteAgreedMsg((v, names)) => {
            h = mix(h, 2);
            h = mix(h, v.from.0 as u64);
            h = mix(h, v.to.0 as u64);
            let mut i: usize = 0;
            while i < names.len()
                decreases names@.len() - i,
            {
                h = mix(h, names[i].0);
                i = i + 1;
            }
        },
        MessageContent::VoteBundle(bundle) => {
            h = mix(h, 3);
            let mut i: usize = 0;
            while i < bundle.len()
                decreases bundle@.len() - i,
            {
                h = mix(h, bundle[i].0.from.0 as u64);
                h = mix(h, bundle[i].0.to.0 as u64);
                let mut j: usize = 0;
                while j < bundle[i].1.len()
                    invariant
                        i < bundle@.len(),
                    decreases bundle@[i as int].1@.len() - j,
                {
                    h = mix(h, bundle[i].1[j].0);
                    j = j + 1;
                }
                i = i + 1;
            }
        },
        MessageContent::RequestProof(id, currents) => {
            h = mix(h, 4);
            h = mix(h, id.0 as u64);
            let mut i: usize = 0;
            while i < currents.len()
                decreases currents@.len() - i,
            {
                h = mix(h, currents[i].0 as u64);
                i = i + 1;
            }
        },
        MessageContent::NoProof(id) => {
            h = mix(h, 5);
            h = mix(h, id.0 as u64);
        },
        MessageContent::NodeJoined => {
            h = mix(h, 6);
        },
        MessageContent::BootstrapMsg(vc) => {
            h = mix(h, 7);
            let mut i: usize = 0;
            while i < vc.entries.len()
                decreases vc.entries@.len() - i,
            {
                h = mix(h, vc.entries[i].0.from.0 as u64);
                h = mix(h, vc.entries[i].0.to.0 as u64);
                let mut j: usize = 0;
                while j < vc.entries[i].1.len()
                    invariant
                        i < vc.entries@.len(),
                    decreases vc.entries@[i as int].1@.len() - j,
                {
                    h = mix(h, vc.entries[i].1[j].0);
                    j = j + 1;
                }
                i = i + 1;
            }
        },
        MessageContent::Connect => {
            h = mix(h, 8);
        },
        MessageContent::Disconnect => {
            h = mix(h, 9);
        },
    }
    h
}

/// One round of hash mixing.
fn mix(h: u64, x: u64) -> u64 {
    (h ^ x).wrapping_mul(0x100000001b3)
}

impl Node {
    /// Ask `node` for a proof of `block` unless we already hold it valid
    /// or its version is suspiciously far beyond anything current.
    fn request_proof(&self, blocks: &Blocks, block: BlockId, node: Name) -> (r: Vec<Message>)
        requires
            self.wf(*blocks),
            blocks.wf(),
            blocks.has(block),
        ensures
            r@.len() <= 1,
            forall|k: int|
                0 <= k < r@.len() ==> (#[trigger] r@[k]).sender == self.our_name
                    && r@[k].recipient == node && r@[k].content is RequestProof,
            r@.len() == 1 ==> !self.valid_blocks@.contains(block),
    {
        // The highest version among our current blocks.
        let mut max_version: u64 = 0;
        let mut have = false;
        let mut i: usize = 0;
        while i < self.current_blocks.len()
            invariant
                self.wf(*blocks),
                blocks.wf(),
                i <= self.current_blocks@.len(),
            decreases self.current_blocks@.len() - i,
        {
            let v = self.current_blocks[i].into_block(blocks).version;
            if !have || v > max_version {
                max_version = v;
                have = true;
            }
            i = i + 1;
        }
        let target_version = block.into_block(blocks).version;
        let too_far = if !have {
            true
        } else {
            target_version > max_version && target_version - max_version > 10
        };
        if contains_id(&self.valid_blocks, block) || too_far {
            Vec::new()
        } else {
            let mut out: Vec<Message> = Vec::new();
            out.push(
                Message {
                    sender: self.our_name,
                    recipient: node,
                    content: MessageContent::RequestProof(block, copy_ids(&self.current_blocks)),
                },
            );
            out
        }
    }

    /// A path has reached provable ground: its tail is one of the
    /// requester's current blocks, or is superseded by a newer compatible
    /// one.
    fn check_path(blocks: &Blocks, current_blocks: &Vec<BlockId>, p: &Vec<BlockId>) -> (r: bool)
        requires
            blocks.wf(),
            ids_stored(*blocks, current_blocks@),
            ids_stored(*blocks, p@),
            p@.len() > 0,
        ensures
            r == (current_blocks@.contains(p@.last()) || exists|k: int|
                0 <= k < current_blocks@.len() && blocks.spec_get(
                    #[trigger] current_blocks@[k],
                ).prefix.spec_compatible(blocks.spec_get(p@.last()).prefix) && blocks.spec_get(
                    current_blocks@[k],
                ).version > blocks.spec_get(p@.last()).version),
    {
        let plast = p[p.len() - 1];
        if contains_id(current_blocks, plast) {
            return true;
        }
        let b0 = plast.into_block(blocks);
        let mut k: usize = 0;
        while k < current_blocks.len()
            invariant
                blocks.wf(),
                ids_stored(*blocks, current_blocks@),
                ids_stored(*blocks, p@),
                p@.len() > 0,
                plast == p@.last(),
                b0 == blocks.spec_get(plast),
                k <= current_blocks@.len(),
                forall|m: int|
                    0 <= m < k ==> !(blocks.spec_get(
                        #[trigger] current_blocks@[m],
                    ).prefix.spec_compatible(blocks.spec_get(p@.last()).prefix)
                        && blocks.spec_get(current_blocks@[m]).version > blocks.spec_get(
                        p@.last(),
                    ).version),
            decreases current_blocks@.len() - k,
        {
            let b = current_blocks[k].into_block(blocks);
            if b.prefix.is_compatible(&b0.prefix) && b.version > b0.version {
                return true;
            }
            k = k + 1;
        }
        false
    }

    /// A bundle of all quorum-endorsed edges straight into `block`.
    fn bundle_predecessors(&self, blocks: &Blocks, block: BlockId, node: Name) -> (r: Message)
        requires
            self.wf(*blocks),
            blocks.wf(),
            blocks.has(block),
        ensures
            r.sender == self.our_name,
            r.recipient == node,
            r.content is VoteBundle,
            forall|m: int|
                0 <= m < r.content->VoteBundle_0@.len() ==> {
                    let e = (#[trigger] r.content->VoteBundle_0@[m]);
                    &&& blocks.has(e.0.from)
                    &&& blocks.has(e.0.to)
                    &&& e.0.to == block
                    &&& self.vote_counts.has_edge(e.0)
                    &&& e.1@ == self.vote_counts.voters_of(e.0)
                    &&& spec_vote_quorum(blocks.spec_get(e.0.from), blocks.spec_get(e.0.to), e.1@)
                },
    {
        let preds = blocks.predecessors(&block, &self.vote_counts);
        let mut bundle: Vec<(Vote, Vec<Name>)> = Vec::new();
        let mut i: usize = 0;
        while i < preds.len()
            invariant
                i <= preds@.len(),
                forall|k: int|
                    0 <= k < preds@.len() ==> {
                        let (b, v, voters) = #[trigger] preds@[k];
                        v.from == b && v.to == block && self.vote_counts.has_edge(v) && voters@
                            == self.vote_counts.voters_of(v) && blocks.has(b) && blocks.has(block)
                            && spec_vote_quorum(
                            blocks.spec_get(v.from),
                            blocks.spec_get(v.to),
                            voters@,
                        )
                    },
                forall|m: int|
                    0 <= m < bundle@.len() ==> {
                        let e = (#[trigger] bundle@[m]);
                        &&& blocks.has(e.0.from)
                        &&& blocks.has(e.0.to)
                        &&& e.0.to == block
                        &&& self.vote_counts.has_edge(e.0)
                        &&& e.1@ == self.vote_counts.voters_of(e.0)
                        &&& spec_vote_quorum(
                            blocks.spec_get(e.0.from),
                            blocks.spec_get(e.0.to),
                            e.1@,
                        )
                    },
            decreases preds@.len() - i,
        {
            let vote = preds[i].1;
            let voters = copy_names(&preds[i].2);
            bundle.push((vote, voters));
            i = i + 1;
        }
        Message {
            sender: self.our_name,
            recipient: node,
            content: MessageContent::VoteBundle(bundle),
        }
    }

    /// Answer a proof request: search backwards from `block` for a path of
    /// quorum-endorsed edges ending at something the requester accepts,
    /// and send its votes; otherwise confess with `NoProof`.
    fn construct_proof(
        &self,
        blocks: &Blocks,
        block: BlockId,
        current_blocks: &Vec<BlockId>,
        node: Name,
    ) -> (r: Message)
        requires
            self.wf(*blocks),
            blocks.wf(),
            blocks.has(block),
            ids_stored(*blocks, current_blocks@),
        ensures
            r.sender == self.our_name,
            r.recipient == node,
            r.content is VoteBundle || r.content is NoProof,
            forall|m: int|
                r.content is VoteBundle && 0 <= m < r.content->VoteBundle_0@.len() ==> {
                    let e = (#[trigger] r.content->VoteBundle_0@[m]);
                    &&& blocks.has(e.0.from)
                    &&& blocks.has(e.0.to)
                    &&& (self.vote_counts.has_edge(e.0) ==> e.1@ == self.vote_counts.voters_of(
                        e.0,
                    ))
                    &&& (!self.vote_counts.has_edge(e.0) ==> e.1@ == Seq::<Name>::empty())
                },
    {
        if !contains_id(&self.valid_blocks, block) {
            return Message {
                sender: self.our_name,
                recipient: node,
                content: MessageContent::NoProof(block),
            };
        }
        let mut start: Vec<BlockId> = Vec::new();
        start.push(block);
        if Self::check_path(blocks, current_blocks, &start) {
            return self.bundle_predecessors(blocks, block, node);
        }
        let mut paths: Vec<Vec<BlockId>> = Vec::new();
        paths.push(start);
        let mut had_predecessors = true;
        let mut found: Option<Vec<BlockId>> = None;
        let bound = blocks.len();
        let mut round: usize = 0;
        while round < bound
            invariant
                self.wf(*blocks),
                blocks.wf(),
                ids_stored(*blocks, current_blocks@),
                round <= bound,
                forall|k: int|
                    0 <= k < paths@.len() ==> ids_stored(*blocks, (#[trigger] paths@[k])@)
                        && (#[trigger] paths@[k])@.len() > 0,
                found matches Some(p) ==> ids_stored(*blocks, p@) && p@.len() > 0,
            decreases bound - round,
        {
            // Find a finished path, if any.
            let mut pi: usize = 0;
            while pi < paths.len()
                invariant
                    self.wf(*blocks),
                    blocks.wf(),
                    ids_stored(*blocks, current_blocks@),
                    pi <= paths@.len(),
                    forall|k: int|
                        0 <= k < paths@.len() ==> ids_stored(*blocks, (#[trigger] paths@[k])@)
                            && (#[trigger] paths@[k])@.len() > 0,
                    found matches Some(p) ==> ids_stored(*blocks, p@) && p@.len() > 0,
                decreases paths@.len() - pi,
            {
                if Self::check_path(blocks, current_blocks, &paths[pi]) {
                    found = Some(copy_ids(&paths[pi]));
                    break ;
                }
                pi = pi + 1;
            }
            if found.is_some() || !had_predecessors {
                break ;
            }
            had_predecessors = false;
            let mut new_paths: Vec<Vec<BlockId>> = Vec::new();
            let mut qi: usize = 0;
            while qi < paths.len()
                invariant
                    self.wf(*blocks),
                    blocks.wf(),
                    qi <= paths@.len(),
                    forall|k: int|
                        0 <= k < paths@.len() ==> ids_stored(*blocks, (#[trigger] paths@[k])@)
                            && (#[trigger] paths@[k])@.len() > 0,
                    forall|k: int|
                        0 <= k < new_paths@.len() ==> ids_stored(
                            *blocks,
                            (#[trigger] new_paths@[k])@,
                        ) && (#[trigger] new_paths@[k])@.len() > 0,
                decreases paths@.len() - qi,
            {
                let path = &paths[qi];
                let plast = path[path.len() - 1];
                let preds = blocks.predecessors(&plast, &self.vote_counts);
                let mut di: usize = 0;
                while di < preds.len()
                    invariant
                        self.wf(*blocks),
                        blocks.wf(),
                        qi < paths@.len(),
                        path == &paths@[qi as int],
                        ids_stored(*blocks, path@),
                        path@.len() > 0,
                        di <= preds@.len(),
                        forall|k: int|
                            0 <= k < preds@.len() ==> blocks.has((#[trigger] preds@[k]).0),
                        forall|k: int|
                            0 <= k < new_paths@.len() ==> ids_stored(
                                *blocks,
                                (#[trigger] new_paths@[k])@,
                            ) && (#[trigger] new_paths@[k])@.len() > 0,
                    decreases preds@.len() - di,
                {
                    let prev_block = preds[di].0;
                    if !contains_id(path, prev_block) {
                        had_predecessors = true;
                        let mut new_path = copy_ids(path);
                        new_path.push(prev_block);
                        new_paths.push(new_path);
                    }
                    di = di + 1;
                }
                qi = qi + 1;
            }
            if had_predecessors {
                paths = new_paths;
            }
            round = round + 1;
        }
        let path = match found {
            Some(p) => p,
            None => {
                return Message {
                    sender: self.our_name,
                    recipient: node,
                    content: MessageContent::NoProof(block),
                };
            },
        };
        if path.len() < 2 {
            return Message {
                sender: self.our_name,
                recipient: node,
                content: MessageContent::NoProof(block),
            };
        }
        // Walk the path from the oldest end forward, bundling each edge's
        // recorded voters.
        let mut bundle: Vec<(Vote, Vec<Name>)> = Vec::new();
        let mut i: usize = path.len() - 1;
        while i > 0
            invariant
                self.wf(*blocks),
                blocks.wf(),
                ids_stored(*blocks, path@),
                i < path@.len(),
                forall|m: int|
                    0 <= m < bundle@.len() ==> {
                        let e = (#[trigger] bundle@[m]);
                        &&& blocks.has(e.0.from)
                        &&& blocks.has(e.0.to)
                        &&& (self.vote_counts.has_edge(e.0) ==> e.1@ == self.vote_counts.voters_of(
                            e.0,
                        ))
                        &&& (!self.vote_counts.has_edge(e.0) ==> e.1@ == Seq::<Name>::empty())
                    },
            decreases i,
        {
            let vote = Vote { from: path[i], to: path[i - 1] };
            let voters = match self.vote_counts.get_voters(vote) {
                Some(names) => copy_names(names),
                None => Vec::new(),
            };
            bundle.push((vote, voters));
            i = i - 1;
        }
        Message {
            sender: self.our_name,
            recipient: node,
            content: MessageContent::VoteBundle(bundle),
        }
    }

    /// The base blocks of a bundle: blocks mentioned by it that none of
    /// its quorum-endorsed votes prove.
    fn bundle_base(&self, blocks: &Blocks, bundle: &Vec<(Vote, Vec<Name>)>) -> (r: Vec<BlockId>)
        requires
            self.wf(*blocks),
            blocks.wf(),
            forall|k: int|
                0 <= k < bundle@.len() ==> blocks.has((#[trigger] bundle@[k]).0.from)
                    && blocks.has(bundle@[k].0.to),
        ensures
            forall|k: int| 0 <= k < r@.len() ==> blocks.has(#[trigger] r@[k]),
    {
        let mut block_ids: Vec<BlockId> = Vec::new();
        let mut i: usize = 0;
        while i < bundle.len()
            invariant
                self.wf(*blocks),
                blocks.wf(),
                i <= bundle@.len(),
                forall|k: int|
                    0 <= k < bundle@.len() ==> blocks.has((#[trigger] bundle@[k]).0.from)
                        && blocks.has(bundle@[k].0.to),
                no_dup_ids(block_ids@),
                forall|k: int| 0 <= k < block_ids@.len() ==> blocks.has(#[trigger] block_ids@[k]),
            decreases bundle@.len() - i,
        {
            proof {
                assert(bundle@[i as int].0.from == bundle@[i as int].0.from);
            }
            let ghost pre = block_ids@;
            push_unique_id(&mut block_ids, bundle[i].0.from);
            proof {
                assert forall|k: int|
                    0 <= k < block_ids@.len() implies blocks.has(#[trigger] block_ids@[k]) by {
                    if pre.contains(block_ids@[k]) {
                        let m = choose|m: int| 0 <= m < pre.len() && pre[m] == block_ids@[k];
                    }
                }
            }
            let ghost pre2 = block_ids@;
            push_unique_id(&mut block_ids, bundle[i].0.to);
            proof {
                assert forall|k: int|
                    0 <= k < block_ids@.len() implies blocks.has(#[trigger] block_ids@[k]) by {
                    if pre2.contains(block_ids@[k]) {
                        let m = choose|m: int| 0 <= m < pre2.len() && pre2[m] == block_ids@[k];
                    }
                }
            }
            i = i + 1;
        }
        let mut out: Vec<BlockId> = Vec::new();
        let mut j: usize = 0;
        while j < block_ids.len()
            invariant
                self.wf(*blocks),
                blocks.wf(),
                j <= block_ids@.len(),
                forall|k: int|
                    0 <= k < bundle@.len() ==> blocks.has((#[trigger] bundle@[k]).0.from)
                        && blocks.has(bundle@[k].0.to),
                forall|k: int| 0 <= k < block_ids@.len() ==> blocks.has(#[trigger] block_ids@[k]),
                forall|k: int| 0 <= k < out@.len() ==> blocks.has(#[trigger] out@[k]),
            decreases block_ids@.len() - j,
        {
            let b = block_ids[j];
            let mut proven = false;
            let mut k: usize = 0;
            while k < bundle.len()
                invariant
                    self.wf(*blocks),
                    blocks.wf(),
                    j < block_ids@.len(),
                    b == block_ids@[j as int],
                    blocks.has(b),
                    k <= bundle@.len(),
                    forall|m: int|
                        0 <= m < bundle@.len() ==> blocks.has((#[trigger] bundle@[m]).0.from)
                            && blocks.has(bundle@[m].0.to),
                decreases bundle@.len() - k,
            {
                let vote = bundle[k].0;
                if vote.to == b {
                    if vote.is_quorum(blocks, &bundle[k].1) {
                        proven = true;
                    }
                }
                k = k + 1;
            }
            if !proven {
                out.push(b);
                proof {
                    assert(blocks.has(block_ids@[j as int]));
                }
            }
            j = j + 1;
        }
        out
    }
}

/// `y` is a member of one of the blocks `ids` points at.
pub open spec fn member_of_any(store: Blocks, ids: Seq<BlockId>, y: Name) -> bool {
    exists|k: int| 0 <= k < ids.len() && store.spec_get(#[trigger] ids[k]).members@.contains(y)
}

impl Node {
    /// Reconcile connections with the members of our current blocks:
    /// disconnect from peers we no longer need, request connections to the
    /// ones we do.
    fn connects_and_disconnects(&mut self, blocks: &Blocks, step: u64) -> (r: Vec<Message>)
        requires
            old(self).wf(*blocks),
            blocks.wf(),
        ensures
            final(self).wf(*blocks),
            final(self).vote_counts == old(self).vote_counts,
            final(self).valid_blocks == old(self).valid_blocks,
            final(self).current_blocks == old(self).current_blocks,
            final(self).our_name == old(self).our_name,
            final(self).params == old(self).params,
            final(self).recent_votes == old(self).recent_votes,
            forall|k: int|
                0 <= k < r@.len() ==> (#[trigger] r@[k]).sender == old(self).our_name && (
                r@[k].content matches MessageContent::Connect || r@[k].content
                    matches MessageContent::Disconnect),
            forall|k: int|
                0 <= k < r@.len() && (#[trigger] r@[k]).content is Disconnect ==> old(self).connections@.contains(r@[k].recipient) && !member_of_any(
                    *blocks,
                    old(self).current_blocks@,
                    r@[k].recipient,
                ),
            forall|k: int|
                0 <= k < r@.len() && (#[trigger] r@[k]).content is Connect ==> member_of_any(
                    *blocks,
                    old(self).current_blocks@,
                    r@[k].recipient,
                ) && r@[k].recipient != old(self).our_name && final(self).connect_requests@.contains(r@[k].recipient),
    {
        let neighbours = nodes_in_any(blocks, &self.current_blocks);
        proof {
            assert forall|y: Name| neighbours@.contains(y) <==> member_of_any(
                *blocks,
                old(self).current_blocks@,
                y,
            ) by {}
        }
        // Anyone who made it into a current block stops being a candidate.
        let mut kept_candidates: Vec<(Name, Candidate)> = Vec::new();
        let mut ci: usize = 0;
        while ci < self.candidates.len()
            invariant
                ci <= self.candidates@.len(),
                forall|a: int, b: int|
                    0 <= a < b < self.candidates@.len() ==> (#[trigger] self.candidates@[a]).0
                        != (#[trigger] self.candidates@[b]).0,
                forall|k: int|
                    0 <= k < kept_candidates@.len() ==> exists|m: int|
                        0 <= m < ci && (#[trigger] kept_candidates@[k]) == self.candidates@[m],
                forall|a: int, b: int|
                    0 <= a < b < kept_candidates@.len() ==> (
                    #[trigger] kept_candidates@[a]).0 != (#[trigger] kept_candidates@[b]).0,
            decreases self.candidates@.len() - ci,
        {
            let name = self.candidates[ci].0;
            let step_added = self.candidates[ci].1.step_added;
            if !contains_name(&neighbours, name) {
                let ghost pre = kept_candidates@;
                kept_candidates.push((name, Candidate { step_added }));
                proof {
                    assert(kept_candidates@[pre.len() as int] == self.candidates@[ci as int]);
                    assert forall|a: int, b: int|
                        0 <= a < b < kept_candidates@.len() implies (
                    #[trigger] kept_candidates@[a]).0 != (#[trigger] kept_candidates@[b]).0 by {
                        if b == kept_candidates@.len() - 1 {
                            let m = choose|m: int|
                                0 <= m < ci && (#[trigger] kept_candidates@[a])
                                    == self.candidates@[m];
                        }
                    }
                }
            }
            ci = ci + 1;
        }
        self.candidates = kept_candidates;
        // Peers to disconnect from: connected, no longer wanted, and not a
        // live candidate.
        let mut to_disconnect: Vec<Name> = Vec::new();
        let mut i: usize = 0;
        while i < self.connections.len()
            invariant
                self.wf(*blocks),
                i <= self.connections@.len(),
                self.connections == old(self).connections,
                self.current_blocks == old(self).current_blocks,
                forall|k: int|
                    0 <= k < to_disconnect@.len() ==> self.connections@.contains(
                        #[trigger] to_disconnect@[k],
                    ) && !neighbours@.contains(to_disconnect@[k]),
            decreases self.connections@.len() - i,
        {
            let name = self.connections[i];
            if !contains_name(&neighbours, name) && !self.is_candidate(&name, step) {
                to_disconnect.push(name);
                proof {
                    assert(self.connections@.contains(self.connections@[i as int]));
                }
            }
            i = i + 1;
        }
        let mut msgs: Vec<Message> = Vec::new();
        let mut di: usize = 0;
        while di < to_disconnect.len()
            invariant
                self.wf(*blocks),
                di <= to_disconnect@.len(),
                self.our_name == old(self).our_name,
                self.vote_counts == old(self).vote_counts,
                self.valid_blocks == old(self).valid_blocks,
                self.current_blocks == old(self).current_blocks,
                self.params == old(self).params,
                self.recent_votes == old(self).recent_votes,
                forall|k: int|
                    0 <= k < msgs@.len() ==> (#[trigger] msgs@[k]).sender == old(self).our_name
                        && (msgs@[k].content matches MessageContent::Connect || msgs@[k].content
                        matches MessageContent::Disconnect),
                forall|k: int|
                    0 <= k < to_disconnect@.len() ==> old(self).connections@.contains(
                        #[trigger] to_disconnect@[k],
                    ) && !neighbours@.contains(to_disconnect@[k]),
                forall|k: int|
                    0 <= k < msgs@.len() && (#[trigger] msgs@[k]).content is Disconnect ==> old(self).connections@.contains(msgs@[k].recipient) && !neighbours@.contains(
                        msgs@[k].recipient,
                    ),
                forall|k: int| 0 <= k < msgs@.len() ==> !((#[trigger] msgs@[k]).content is Connect),
            decreases to_disconnect@.len() - di,
        {
            let neighbour = to_disconnect[di];
            self.connections = remove_name(&self.connections, neighbour);
            self.connect_requests = remove_name(&self.connect_requests, neighbour);
            msgs.push(
                Message {
                    sender: self.our_name,
                    recipient: neighbour,
                    content: MessageContent::Disconnect,
                },
            );
            di = di + 1;
        }
        // Peers to connect to: wanted, not connected, not yet asked.
        let mut ni: usize = 0;
        while ni < neighbours.len()
            invariant
                self.wf(*blocks),
                ni <= neighbours@.len(),
                self.our_name == old(self).our_name,
                self.vote_counts == old(self).vote_counts,
                self.valid_blocks == old(self).valid_blocks,
                self.current_blocks == old(self).current_blocks,
                self.params == old(self).params,
                self.recent_votes == old(self).recent_votes,
                forall|k: int|
                    0 <= k < msgs@.len() ==> (#[trigger] msgs@[k]).sender == old(self).our_name
                        && (msgs@[k].content matches MessageContent::Connect || msgs@[k].content
                        matches MessageContent::Disconnect),
                forall|k: int|
                    0 <= k < msgs@.len() && (#[trigger] msgs@[k]).content is Disconnect ==> old(self).connections@.contains(msgs@[k].recipient) && !neighbours@.contains(
                        msgs@[k].recipient,
                    ),
                forall|k: int|
                    0 <= k < msgs@.len() && (#[trigger] msgs@[k]).content is Connect
                        ==> neighbours@.contains(msgs@[k].recipient) && msgs@[k].recipient != old(self).our_name && self.connect_requests@.contains(msgs@[k].recipient),
            decreases neighbours@.len() - ni,
        {
            let name = neighbours[ni];
            if name.0 != self.our_name.0 && !contains_name(&self.connections, name)
                && !contains_name(&self.connect_requests, name) {
                self.connect_requests = insert_name(&self.connect_requests, name);
                msgs.push(
                    Message {
                        sender: self.our_name,
                        recipient: name,
                        content: MessageContent::Connect,
                    },
                );
            }
            ni = ni + 1;
        }
        msgs
    }

    /// One full step of the node: integrate received votes, broadcast the
    /// newly agreed ones, prune irrelevant blocks and reconcile
    /// connections. Voter records only grow, and afterwards the current
    /// prefixes are pairwise incompatible.
    pub fn update_state(&mut self, blocks: &mut Blocks, step: u64) -> (r: Vec<Message>)
        requires
            old(self).wf(*old(blocks)),
            old(blocks).wf(),
        ensures
            final(blocks).wf(),
            final(self).wf(*final(blocks)),
            final(self).current_incompatible(*final(blocks)),
            vc_le(old(self).vote_counts, final(self).vote_counts),
            final(self).recent_votes@.len() == 0,
            forall|id: BlockId|
                old(self).valid_blocks@.contains(id) ==> final(self).valid_blocks@.contains(id),
            (exists|sid: BlockId|
                #[trigger] final(self).current_blocks@.contains(sid) && final(blocks).spec_get(
                    sid,
                ).prefix.spec_matches(old(self).our_name)) ==> exists|sid: BlockId|
                #![auto]
                final(self).current_blocks@.contains(sid) && final(blocks).spec_get(
                    sid,
                ).prefix.spec_matches(old(self).our_name) && (forall|id: BlockId|
                    #[trigger] final(self).current_blocks@.contains(id) ==> final(blocks).spec_get(
                        id,
                    ).prefix == final(blocks).spec_get(sid).prefix || final(blocks).spec_get(
                        id,
                    ).prefix.spec_neighbour(final(blocks).spec_get(sid).prefix)),
            forall|j: BlockId|
                old(blocks).has(j) ==> final(blocks).has(j) && final(blocks).spec_get(j) == old(
                    blocks,
                ).spec_get(j),
            forall|k: int| 0 <= k < r@.len() ==> (#[trigger] r@[k]).sender == old(self).our_name,
            forall|k: int|
                0 <= k < r@.len() ==> ((#[trigger] r@[k]).content is VoteAgreedMsg || r@[k].content
                    is Connect || r@[k].content is Disconnect),
            forall|k: int|
                0 <= k < r@.len() && (#[trigger] r@[k]).content is VoteAgreedMsg
                    ==> valid_vote_props(
                    *final(blocks),
                    final(self).vote_counts,
                    r@[k].content->VoteAgreedMsg_0.0,
                    r@[k].content->VoteAgreedMsg_0.1@,
                ),
    {
        let new_valid_votes = self.update_valid_blocks(blocks);
        // Broadcast agreement for each newly valid non-witnessing vote,
        // before pruning the current set.
        let mut contents: Vec<MessageContent> = Vec::new();
        let mut i: usize = 0;
        while i < new_valid_votes.len()
            invariant
                blocks.wf(),
                self.wf(*blocks),
                i <= new_valid_votes@.len(),
                forall|k: int|
                    0 <= k < new_valid_votes@.len() ==> blocks.has(
                        (#[trigger] new_valid_votes@[k]).0.from,
                    ) && blocks.has(new_valid_votes@[k].0.to),
                forall|k: int| 0 <= k < contents@.len() ==> (#[trigger] contents@[k]).ids_ok(*blocks),
                forall|k: int|
                    0 <= k < new_valid_votes@.len() ==> valid_vote_props(
                        *blocks,
                        self.vote_counts,
                        (#[trigger] new_valid_votes@[k]).0,
                        new_valid_votes@[k].1@,
                    ),
                forall|k: int|
                    0 <= k < contents@.len() ==> (#[trigger] contents@[k]) is VoteAgreedMsg
                        && valid_vote_props(
                        *blocks,
                        self.vote_counts,
                        contents@[k]->VoteAgreedMsg_0.0,
                        contents@[k]->VoteAgreedMsg_0.1@,
                    ),
            decreases new_valid_votes@.len() - i,
        {
            let vote = new_valid_votes[i].0;
            if !vote.is_witnessing(blocks) {
                let voters = copy_names(&new_valid_votes[i].1);
                contents.push(MessageContent::VoteAgreedMsg((vote, voters)));
            }
            i = i + 1;
        }
        let ghost cts = contents@;
        let mut messages = self.broadcast(blocks, contents, step);
        proof {
            assert forall|k: int|
                0 <= k < messages@.len() implies ((#[trigger] messages@[k]).content
                is VoteAgreedMsg && valid_vote_props(
                *blocks,
                self.vote_counts,
                messages@[k].content->VoteAgreedMsg_0.0,
                messages@[k].content->VoteAgreedMsg_0.1@,
            )) by {
                assert(from_some(messages@[k].content, cts));
                let j = choose|j: int|
                    0 <= j < cts.len() && content_like(messages@[k].content, #[trigger] cts[j]);
                assert(messages@[k].content->VoteAgreedMsg_0.0 == cts[j]->VoteAgreedMsg_0.0);
                assert(messages@[k].content->VoteAgreedMsg_0.1@ == cts[j]->VoteAgreedMsg_0.1@);
            }
        }
        // Prune blocks that are no longer relevant after splitting.
        self.prune_split_blocks(blocks);
        // Reconcile connections.
        let more = self.connects_and_disconnects(blocks, step);
        let ghost fvc = self.vote_counts;
        let ghost fblocks = *blocks;
        let mut rest = more;
        while rest.len() > 0
            invariant
                forall|k: int|
                    0 <= k < messages@.len() ==> (#[trigger] messages@[k]).sender == old(self).our_name,
                forall|k: int|
                    0 <= k < rest@.len() ==> (#[trigger] rest@[k]).sender == old(self).our_name,
                forall|k: int|
                    0 <= k < messages@.len() ==> ((#[trigger] messages@[k]).content
                        is VoteAgreedMsg || messages@[k].content is Connect || messages@[k].content
                        is Disconnect),
                forall|k: int|
                    0 <= k < rest@.len() ==> ((#[trigger] rest@[k]).content is Connect
                        || rest@[k].content is Disconnect),
                forall|k: int|
                    0 <= k < messages@.len() && (#[trigger] messages@[k]).content is VoteAgreedMsg
                        ==> valid_vote_props(
                        fblocks,
                        fvc,
                        messages@[k].content->VoteAgreedMsg_0.0,
                        messages@[k].content->VoteAgreedMsg_0.1@,
                    ),
            decreases rest@.len(),
        {
            let ghost pre = rest@;
            let m = rest.remove(0);
            proof {
                assert(m == pre[0]);
                assert(rest@ =~= pre.drop_first());
            }
            messages.push(m);
        }
        messages
    }

    /// Construct, self-record and broadcast our new votes for this step.
    /// Our own voter record only ever grows, every vote a rule owes is
    /// recorded with our own name among its voters (whether or not its
    /// broadcast survives the send filter), and every outgoing vote
    /// message carries such a recorded edge.
    pub fn broadcast_new_votes(&mut self, blocks: &mut Blocks, step: u64) -> (r: Vec<Message>)
        requires
            old(self).wf(*old(blocks)),
            old(blocks).wf(),
        ensures
            final(blocks).wf(),
            final(self).wf(*final(blocks)),
            vc_le(old(self).vote_counts, final(self).vote_counts),
            forall|j: BlockId|
                old(blocks).has(j) ==> final(blocks).has(j) && final(blocks).spec_get(j) == old(
                    blocks,
                ).spec_get(j),
            forall|k: int| 0 <= k < r@.len() ==> (#[trigger] r@[k]).sender == old(self).our_name,
            forall|k: int|
                0 <= k < r@.len() && (#[trigger] r@[k]).content is VoteMsg ==> final(self)
                    .vote_counts.has_edge(r@[k].content->VoteMsg_0) && final(self)
                    .vote_counts.voters_of(r@[k].content->VoteMsg_0).contains(old(self).our_name),
            forall|id: BlockId, c: Name|
                #[trigger] spec_add_owed(*old(self), *old(blocks), step, id, c) ==> exists|v: Vote|
                    #![auto]
                    final(self).vote_counts.has_edge(v) && final(self).vote_counts.voters_of(
                        v,
                    ).contains(old(self).our_name) && v.from == id && spec_add_target(
                        old(blocks).spec_get(id),
                        c,
                        final(blocks).spec_get(v.to),
                    ),
            forall|id: BlockId, p: Name|
                #[trigger] spec_drop_owed(*old(self), *old(blocks), id, p) ==> exists|v: Vote|
                    #![auto]
                    final(self).vote_counts.has_edge(v) && final(self).vote_counts.voters_of(
                        v,
                    ).contains(old(self).our_name) && v.from == id && spec_drop_target(
                        old(blocks).spec_get(id),
                        p,
                        final(blocks).spec_get(v.to),
                    ),
            forall|id: BlockId|
                #[trigger] old(self).current_blocks@.contains(id) && final(blocks).spec_get(
                    id,
                ).members@.contains(old(self).our_name) && crate::split::spec_can_split(
                    *final(blocks),
                    old(self).current_blocks@,
                    id,
                    old(self).params.min_section_size + old(self).params.split_buffer,
                ) ==> exists|v0: Vote, v1: Vote|
                    #![auto]
                    final(self).vote_counts.has_edge(v0) && final(self).vote_counts.has_edge(v1)
                        && final(self).vote_counts.voters_of(v0).contains(old(self).our_name)
                        && final(self).vote_counts.voters_of(v1).contains(old(self).our_name)
                        && v0.from == id && v1.from == id && crate::split::spec_split_pair(
                        final(blocks).spec_get(id),
                        final(blocks).spec_get(v0.to),
                        final(blocks).spec_get(v1.to),
                    ),
            forall|cid: BlockId, sid: BlockId|
                #[trigger] crate::merge::spec_merge_owed_own(
                    *final(blocks),
                    old(self).current_blocks@,
                    old(self).our_name,
                    old(self).params.min_section_size as int,
                    cid,
                    sid,
                ) ==> exists|v: Vote|
                    #![auto]
                    final(self).vote_counts.has_edge(v) && final(self).vote_counts.voters_of(
                        v,
                    ).contains(old(self).our_name) && v.from == cid
                        && crate::merge::spec_merge_target(
                        final(blocks).spec_get(cid),
                        final(blocks).spec_get(sid),
                        final(blocks).spec_get(v.to),
                    ),
            forall|cid: BlockId, oid: BlockId|
                #[trigger] crate::merge::spec_merge_owed_force(
                    *final(blocks),
                    old(self).current_blocks@,
                    old(self).connections@,
                    old(self).our_name,
                    cid,
                    oid,
                ) ==> exists|v: Vote|
                    #![auto]
                    final(self).vote_counts.has_edge(v) && final(self).vote_counts.voters_of(
                        v,
                    ).contains(old(self).our_name) && v.from == oid
                        && crate::merge::spec_merge_target(
                        final(blocks).spec_get(cid),
                        final(blocks).spec_get(oid),
                        final(blocks).spec_get(v.to),
                    ),
            forall|oid: BlockId, cid: BlockId|
                #[trigger] spec_witness_owed(*old(self), *final(blocks), oid, cid) ==> final(self)
                    .vote_counts.has_edge(Vote { from: oid, to: cid }) && final(self)
                    .vote_counts.voters_of(Vote { from: oid, to: cid }).contains(
                    old(self).our_name,
                ),
    {
        let votes = self.construct_new_votes(blocks, step);
        let mut our_vote: Vec<Name> = Vec::new();
        our_vote.push(self.our_name);
        let mut contents: Vec<MessageContent> = Vec::new();
        let mut i: usize = 0;
        proof {
            assert(self.wf(*blocks)) by {
                assert(forall|j: BlockId|
                    old(blocks).has(j) ==> blocks.has(j) && blocks.spec_get(j) == old(
                        blocks,
                    ).spec_get(j));
            }
        }
        while i < votes.len()
            invariant
                blocks.wf(),
                self.wf(*blocks),
                i <= votes@.len(),
                sorted_names(our_vote@),
                our_vote@.len() == 1 && our_vote@[0] == old(self).our_name,
                self.our_name == old(self).our_name,
                vc_le(old(self).vote_counts, self.vote_counts),
                forall|k: int|
                    0 <= k < votes@.len() ==> blocks.has((#[trigger] votes@[k]).from)
                        && blocks.has(votes@[k].to),
                forall|k: int| 0 <= k < contents@.len() ==> (#[trigger] contents@[k]).ids_ok(*blocks),
                forall|k: int|
                    0 <= k < contents@.len() ==> (#[trigger] contents@[k]) is VoteMsg
                        && self.vote_counts.has_edge(contents@[k]->VoteMsg_0)
                        && self.vote_counts.voters_of(contents@[k]->VoteMsg_0).contains(
                        self.our_name,
                    ),
                forall|k: int|
                    0 <= k < i ==> self.vote_counts.has_edge(#[trigger] votes@[k])
                        && self.vote_counts.voters_of(votes@[k]).contains(self.our_name),
            decreases votes@.len() - i,
        {
            let vote = votes[i];
            let ghost mid = *self;
            self.add_vote(blocks, vote, &our_vote);
            proof {
                lemma_vc_le_trans(old(self).vote_counts, mid.vote_counts, self.vote_counts);
            }
            contents.push(MessageContent::VoteMsg(vote));
            proof {
                assert(our_vote@.contains(self.our_name));
                assert(self.vote_counts.voters_of(vote).contains(self.our_name));
                assert forall|k: int|
                    0 <= k < i + 1 implies self.vote_counts.has_edge(#[trigger] votes@[k])
                    && self.vote_counts.voters_of(votes@[k]).contains(self.our_name) by {
                    if k < i {
                        assert(mid.vote_counts.has_edge(votes@[k]));
                        assert(mid.vote_counts.voters_of(votes@[k]).contains(mid.our_name));
                        assert(vc_le(mid.vote_counts, self.vote_counts));
                    } else {
                        assert(votes@[k] == vote);
                    }
                }
                assert forall|k: int|
                    0 <= k < contents@.len() implies (#[trigger] contents@[k]) is VoteMsg
                        && self.vote_counts.has_edge(contents@[k]->VoteMsg_0)
                        && self.vote_counts.voters_of(contents@[k]->VoteMsg_0).contains(
                        self.our_name,
                    ) by {
                    if k < contents@.len() - 1 {
                        assert(mid.vote_counts.has_edge(contents@[k]->VoteMsg_0));
                        assert(mid.vote_counts.voters_of(contents@[k]->VoteMsg_0).contains(
                            mid.our_name,
                        ));
                        assert(vc_le(mid.vote_counts, self.vote_counts));
                    }
                }
            }
            i = i + 1;
        }
        let ghost cts = contents@;
        let to_broadcast = self.broadcast(blocks, contents, step);
        let out = self.filter_messages(to_broadcast);
        proof {
            assert forall|k: int|
                0 <= k < out@.len() implies (#[trigger] out@[k]).sender == old(self).our_name by {}
            assert forall|k: int|
                0 <= k < out@.len() && (#[trigger] out@[k]).content is VoteMsg implies self
                .vote_counts.has_edge(out@[k].content->VoteMsg_0) && self.vote_counts.voters_of(
                out@[k].content->VoteMsg_0,
            ).contains(old(self).our_name) by {
                let kp = choose|kp: int|
                    0 <= kp < to_broadcast@.len() && to_broadcast@[kp] == out@[k];
                assert(from_some(to_broadcast@[kp].content, cts));
                let j = choose|j: int|
                    0 <= j < cts.len() && content_like(to_broadcast@[kp].content, #[trigger] cts[j]);
                assert(out@[k].content->VoteMsg_0 == cts[j]->VoteMsg_0);
            }
            // Every owed vote was recorded before the filter ran.
            assert forall|id: BlockId, c: Name|
                #[trigger] spec_add_owed(*old(self), *old(blocks), step, id, c) implies exists|
                v: Vote,
            |
                #![auto]
                self.vote_counts.has_edge(v) && self.vote_counts.voters_of(v).contains(
                    old(self).our_name,
                ) && v.from == id && spec_add_target(
                    old(blocks).spec_get(id),
                    c,
                    blocks.spec_get(v.to),
                ) by {
                let k = choose|k: int|
                    0 <= k < votes@.len() && (#[trigger] votes@[k]).from == id && spec_add_target(
                        old(blocks).spec_get(id),
                        c,
                        blocks.spec_get(votes@[k].to),
                    );
                assert(self.vote_counts.has_edge(votes@[k]));
            }
            assert forall|id: BlockId, p: Name|
                #[trigger] spec_drop_owed(*old(self), *old(blocks), id, p) implies exists|v: Vote|
                #![auto]
                self.vote_counts.has_edge(v) && self.vote_counts.voters_of(v).contains(
                    old(self).our_name,
                ) && v.from == id && spec_drop_target(
                    old(blocks).spec_get(id),
                    p,
                    blocks.spec_get(v.to),
                ) by {
                let k = choose|k: int|
                    0 <= k < votes@.len() && (#[trigger] votes@[k]).from == id && spec_drop_target(
                        old(blocks).spec_get(id),
                        p,
                        blocks.spec_get(votes@[k].to),
                    );
                assert(self.vote_counts.has_edge(votes@[k]));
            }
            assert forall|id: BlockId|
                #[trigger] old(self).current_blocks@.contains(id) && blocks.spec_get(
                    id,
                ).members@.contains(old(self).our_name) && crate::split::spec_can_split(
                    *blocks,
                    old(self).current_blocks@,
                    id,
                    old(self).params.min_section_size + old(self).params.split_buffer,
                ) implies exists|v0: Vote, v1: Vote|
                #![auto]
                self.vote_counts.has_edge(v0) && self.vote_counts.has_edge(v1)
                    && self.vote_counts.voters_of(v0).contains(old(self).our_name)
                    && self.vote_counts.voters_of(v1).contains(old(self).our_name) && v0.from == id
                    && v1.from == id && crate::split::spec_split_pair(
                    blocks.spec_get(id),
                    blocks.spec_get(v0.to),
                    blocks.spec_get(v1.to),
                ) by {
                let k = choose|k: int|
                    0 <= k < votes@.len() - 1 && (#[trigger] votes@[k]).from == id && votes@[k
                        + 1].from == id && crate::split::spec_split_pair(
                        blocks.spec_get(id),
                        blocks.spec_get(votes@[k].to),
                        blocks.spec_get(votes@[k + 1].to),
                    );
                assert(self.vote_counts.has_edge(votes@[k]));
                assert(self.vote_counts.has_edge(votes@[k + 1]));
            }
            assert forall|cid: BlockId, sid: BlockId|
                #[trigger] crate::merge::spec_merge_owed_own(
                    *blocks,
                    old(self).current_blocks@,
                    old(self).our_name,
                    old(self).params.min_section_size as int,
                    cid,
                    sid,
                ) implies exists|v: Vote|
                #![auto]
                self.vote_counts.has_edge(v) && self.vote_counts.voters_of(v).contains(
                    old(self).our_name,
                ) && v.from == cid && crate::merge::spec_merge_target(
                    blocks.spec_get(cid),
                    blocks.spec_get(sid),
                    blocks.spec_get(v.to),
                ) by {
                let k = choose|k: int|
                    0 <= k < votes@.len() && (#[trigger] votes@[k]).from == cid
                        && crate::merge::spec_merge_target(
                        blocks.spec_get(cid),
                        blocks.spec_get(sid),
                        blocks.spec_get(votes@[k].to),
                    );
                assert(self.vote_counts.has_edge(votes@[k]));
            }
            assert forall|cid: BlockId, oid: BlockId|
                #[trigger] crate::merge::spec_merge_owed_force(
                    *blocks,
                    old(self).current_blocks@,
                    old(self).connections@,
                    old(self).our_name,
                    cid,
                    oid,
                ) implies exists|v: Vote|
                #![auto]
                self.vote_counts.has_edge(v) && self.vote_counts.voters_of(v).contains(
                    old(self).our_name,
                ) && v.from == oid && crate::merge::spec_merge_target(
                    blocks.spec_get(cid),
                    blocks.spec_get(oid),
                    blocks.spec_get(v.to),
                ) by {
                let k = choose|k: int|
                    0 <= k < votes@.len() && (#[trigger] votes@[k]).from == oid
                        && crate::merge::spec_merge_target(
                        blocks.spec_get(cid),
                        blocks.spec_get(oid),
                        blocks.spec_get(votes@[k].to),
                    );
                assert(self.vote_counts.has_edge(votes@[k]));
            }
            assert forall|oid: BlockId, cid: BlockId|
                #[trigger] spec_witness_owed(*old(self), *blocks, oid, cid) implies self
                .vote_counts.has_edge(Vote { from: oid, to: cid })
                && self.vote_counts.voters_of(Vote { from: oid, to: cid }).contains(
                old(self).our_name,
            ) by {
                assert(votes@.contains(Vote { from: oid, to: cid }));
                let k = choose|k: int|
                    0 <= k < votes@.len() && votes@[k] == Vote { from: oid, to: cid };
                assert(self.vote_counts.has_edge(votes@[k]));
            }
        }
        out
    }

    /// Handle one delivered message, returning our replies. Messages with
    /// malformed references are dropped. The vote record only grows, and
    /// each variant acts exactly as the protocol prescribes: a join is
    /// recorded and answered with a connection and our vote graph, votes
    /// and agreements are recorded on their edge, a bundle is merged, a
    /// bootstrap is united pointwise into our graph, and connection
    /// management is idempotent.
    pub fn handle_message(&mut self, message: Message, blocks: &Blocks, step: u64) -> (r: Vec<
        Message,
    >)
        requires
            old(self).wf(*blocks),
            blocks.wf(),
        ensures
            final(self).wf(*blocks),
            vc_le(old(self).vote_counts, final(self).vote_counts),
            forall|k: int|
                0 <= k < r@.len() ==> reply_shape(
                    message.content,
                    #[trigger] r@[k],
                    old(self).our_name,
                    message.sender,
                    old(self).vote_counts,
                ),
            message.content is NodeJoined ==> has_candidate(
                final(self).candidates@,
                message.sender,
            ),
            message.content is NodeJoined ==> forall|y: Name|
                final(self).connections@.contains(y) <==> (old(self).connections@.contains(y)
                    || y == message.sender),
            message.content is NodeJoined ==> has_connect(r@) && final(self).vote_counts
                == old(self).vote_counts,
            message.content is VoteMsg && blocks.has(message.content->VoteMsg_0.from)
                && blocks.has(message.content->VoteMsg_0.to) ==> {
                let v = message.content->VoteMsg_0;
                &&& final(self).vote_counts.has_edge(v)
                &&& forall|y: Name|
                    final(self).vote_counts.voters_of(v).contains(y) <==> (old(self)
                        .vote_counts.voters_of(v).contains(y) || y == message.sender)
                &&& forall|v2: Vote|
                    v2 != v ==> final(self).vote_counts.voters_of(v2) == old(self)
                        .vote_counts.voters_of(v2)
                &&& final(self).recent_votes@.contains(v)
            },
            message.content is VoteAgreedMsg && blocks.has(
                message.content->VoteAgreedMsg_0.0.from,
            ) && blocks.has(message.content->VoteAgreedMsg_0.0.to) && sorted_names(
                message.content->VoteAgreedMsg_0.1@,
            ) ==> {
                let v = message.content->VoteAgreedMsg_0.0;
                let voters = message.content->VoteAgreedMsg_0.1;
                &&& final(self).vote_counts.has_edge(v)
                &&& forall|y: Name|
                    final(self).vote_counts.voters_of(v).contains(y) <==> (old(self)
                        .vote_counts.voters_of(v).contains(y) || voters@.contains(y))
                &&& forall|v2: Vote|
                    v2 != v ==> final(self).vote_counts.voters_of(v2) == old(self)
                        .vote_counts.voters_of(v2)
                &&& final(self).recent_votes@.contains(v)
            },
            message.content is VoteBundle && bundle_valid(
                *blocks,
                message.content->VoteBundle_0@,
            ) ==> forall|i: int, y: Name|
                0 <= i < message.content->VoteBundle_0@.len()
                    && #[trigger] message.content->VoteBundle_0@[i].1@.contains(y)
                    ==> final(self).vote_counts.voters_of(
                    message.content->VoteBundle_0@[i].0,
                ).contains(y),
            message.content is BootstrapMsg && message.content->BootstrapMsg_0.wf() && vc_stored(
                *blocks,
                message.content->BootstrapMsg_0,
            ) ==> {
                let vc = message.content->BootstrapMsg_0;
                &&& forall|v: Vote|
                    #[trigger] final(self).vote_counts.has_edge(v) <==> (old(self)
                        .vote_counts.has_edge(v) || vc.has_edge(v))
                &&& forall|v: Vote, y: Name|
                    #[trigger] final(self).vote_counts.voters_of(v).contains(y) <==> (old(self)
                        .vote_counts.voters_of(v).contains(y) || vc.voters_of(v).contains(y))
            },
            message.content is Disconnect ==> forall|y: Name|
                final(self).connections@.contains(y) <==> (old(self).connections@.contains(y)
                    && y != message.sender),
            message.content is Disconnect ==> (forall|y: Name|
                final(self).connect_requests@.contains(y) <==> (old(self)
                    .connect_requests@.contains(y) && y != message.sender)) && r@.len() == 0
                && final(self).vote_counts == old(self).vote_counts,
            message.content is Connect ==> forall|y: Name|
                final(self).connections@.contains(y) <==> (old(self).connections@.contains(y)
                    || y == message.sender),
            message.content is Connect && old(self).connect_requests@.contains(message.sender)
                ==> r@.len() == 0,
            message.content is Connect && !old(self).connect_requests@.contains(message.sender)
                ==> has_connect(r@) && (forall|y: Name|
                final(self).connect_requests@.contains(y) <==> (old(self)
                    .connect_requests@.contains(y) || y == message.sender)),
            message.content is Connect ==> final(self).vote_counts == old(self).vote_counts,
            message.content is RequestProof && blocks.has(message.content->RequestProof_0)
                ==> r@.len() <= 1,
            message.content is NoProof ==> r@.len() == 0 && final(self).vote_counts == old(self)
                .vote_counts,
    {
        let sender = message.sender;
        let to_send: Vec<Message> = match message.content {
            MessageContent::NodeJoined => {
                // Record the joiner as candidate and connection; reply with
                // a connection and our vote graph.
                let mut found: Option<usize> = None;
                let mut ci: usize = 0;
                while ci < self.candidates.len()
                    invariant
                        ci <= self.candidates@.len(),
                        self == old(self),
                        found matches Some(w) ==> w < self.candidates@.len()
                            && self.candidates@[w as int].0 == sender,
                        found is None ==> forall|k: int|
                            0 <= k < ci ==> (#[trigger] self.candidates@[k]).0 != sender,
                    decreases self.candidates@.len() - ci,
                {
                    if found.is_none() && self.candidates[ci].0 == sender {
                        found = Some(ci);
                        proof {
                            assert(self.candidates@[ci as int].0 == sender);
                        }
                    }
                    ci = ci + 1;
                }
                let widx: usize = match found {
                    Some(w) => w,
                    None => {
                        let ghost pre = self.candidates@;
                        self.candidates.push((sender, Candidate { step_added: step }));
                        proof {
                            assert(self.candidates@[pre.len() as int].0 == sender);
                            assert forall|a: int, b: int|
                                0 <= a < b < self.candidates@.len() implies (
                            #[trigger] self.candidates@[a]).0 != (
                            #[trigger] self.candidates@[b]).0 by {
                                if b == self.candidates@.len() - 1 {
                                    assert(self.candidates@[a] == pre[a]);
                                    assert(pre[a].0 != sender);
                                }
                            }
                        }
                        self.candidates.len() - 1
                    },
                };
                proof {
                    assert(widx < self.candidates@.len());
                    assert(self.candidates@[widx as int].0 == sender);
                }
                self.connections = insert_name(&self.connections, sender);
                let connect_msg = Message {
                    sender: self.our_name,
                    recipient: sender,
                    content: MessageContent::Connect,
                };
                let bootstrap = self.construct_bootstrap_msg(sender);
                let mut out: Vec<Message> = Vec::new();
                out.push(connect_msg);
                out.push(bootstrap);
                proof {
                    assert(out@[0].content is Connect);
                    assert(self.candidates@[widx as int].0 == sender);
                    assert(has_candidate(self.candidates@, message.sender));
                    assert forall|m: int|
                        0 <= m < out@.len() implies reply_shape(
                        message.content,
                        #[trigger] out@[m],
                        old(self).our_name,
                        message.sender,
                        old(self).vote_counts,
                    ) by {
                        if m == 0 {
                        } else {
                            assert(out@[1].content is BootstrapMsg);
                        }
                    }
                }
                out
            },
            MessageContent::VoteMsg(vote) => {
                if vote.from.0 < blocks.len() && vote.to.0 < blocks.len() {
                    let out = self.request_proof(blocks, vote.from, sender);
                    let mut single: Vec<Name> = Vec::new();
                    single.push(sender);
                    proof {
                        crate::members::lemma_push_contains(Seq::<Name>::empty(), sender);
                        assert(single@ == Seq::<Name>::empty().push(sender));
                        assert(forall|y: Name| single@.contains(y) <==> y == sender);
                        assert forall|m: int|
                            0 <= m < out@.len() implies reply_shape(
                            message.content,
                            #[trigger] out@[m],
                            old(self).our_name,
                            message.sender,
                            old(self).vote_counts,
                        ) by {}
                    }
                    self.add_vote(blocks, vote, &single);
                    proof {
                        assert forall|y: Name|
                            self.vote_counts.voters_of(vote).contains(y) <==> (old(self)
                                .vote_counts.voters_of(vote).contains(y) || y
                                == message.sender) by {
                            assert(single@.contains(y) <==> y == sender);
                            assert(self.vote_counts.voters_of(vote).contains(y) <==> (old(self)
                                .vote_counts.voters_of(vote).contains(y) || single@.contains(
                                y,
                            )));
                        }
                    }
                    out
                } else {
                    Vec::new()
                }
            },
            MessageContent::VoteAgreedMsg((vote, voters)) => {
                if vote.from.0 < blocks.len() && vote.to.0 < blocks.len() && check_sorted(
                    &voters,
                ) {
                    let out = self.request_proof(blocks, vote.from, sender);
                    proof {
                        assert forall|m: int|
                            0 <= m < out@.len() implies reply_shape(
                            message.content,
                            #[trigger] out@[m],
                            old(self).our_name,
                            message.sender,
                            old(self).vote_counts,
                        ) by {}
                    }
                    self.add_vote(blocks, vote, &voters);
                    out
                } else {
                    Vec::new()
                }
            },
            MessageContent::VoteBundle(bundle) => {
                // Validate the whole bundle, then ask for proofs of its
                // unproven bases and integrate every vote.
                let mut ok = true;
                let mut k: usize = 0;
                while k < bundle.len()
                    invariant
                        k <= bundle@.len(),
                        self == old(self),
                        ok <==> forall|m: int|
                            0 <= m < k ==> blocks.has((#[trigger] bundle@[m]).0.from)
                                && blocks.has(bundle@[m].0.to) && sorted_names(bundle@[m].1@),
                    decreases bundle@.len() - k,
                {
                    let entry_ok = bundle[k].0.from.0 < blocks.len() && bundle[k].0.to.0
                        < blocks.len() && check_sorted(&bundle[k].1);
                    proof {
                        assert(entry_ok == (blocks.has(bundle@[k as int].0.from) && blocks.has(
                            bundle@[k as int].0.to,
                        ) && sorted_names(bundle@[k as int].1@)));
                    }
                    if !entry_ok {
                        ok = false;
                    }
                    k = k + 1;
                }
                proof {
                    assert(ok <==> bundle_valid(*blocks, bundle@));
                }
                if ok && bundle.len() > 0 {
                    let bases = self.bundle_base(blocks, &bundle);
                    let mut out: Vec<Message> = Vec::new();
                    let mut bi: usize = 0;
                    while bi < bases.len()
                        invariant
                            blocks.wf(),
                            self.wf(*blocks),
                            bi <= bases@.len(),
                            self.our_name == old(self).our_name,
                            self == old(self),
                            sender == message.sender,
                            message.content is VoteBundle,
                            forall|m: int|
                                0 <= m < bases@.len() ==> blocks.has(#[trigger] bases@[m]),
                            forall|m: int|
                                0 <= m < out@.len() ==> reply_shape(
                                    message.content,
                                    #[trigger] out@[m],
                                    old(self).our_name,
                                    message.sender,
                                    old(self).vote_counts,
                                ),
                        decreases bases@.len() - bi,
                    {
                        let reqs = self.request_proof(blocks, bases[bi], sender);
                        let mut ri: usize = 0;
                        let mut reqs2 = reqs;
                        while reqs2.len() > 0
                            invariant
                                message.content is VoteBundle,
                                forall|m: int|
                                    0 <= m < reqs2@.len() ==> (#[trigger] reqs2@[m]).sender
                                        == old(self).our_name && reqs2@[m].recipient
                                        == message.sender && reqs2@[m].content is RequestProof,
                                forall|m: int|
                                    0 <= m < out@.len() ==> reply_shape(
                                        message.content,
                                        #[trigger] out@[m],
                                        old(self).our_name,
                                        message.sender,
                                        old(self).vote_counts,
                                    ),
                            decreases reqs2@.len(),
                        {
                            let ghost pre = reqs2@;
                            let m = reqs2.remove(0);
                            proof {
                                assert(m == pre[0]);
                                assert(reqs2@ =~= pre.drop_first());
                            }
                            out.push(m);
                        }
                        bi = bi + 1;
                    }
                    let mut vi: usize = 0;
                    while vi < bundle.len()
                        invariant
                            blocks.wf(),
                            self.wf(*blocks),
                            vi <= bundle@.len(),
                            self.our_name == old(self).our_name,
                            self.connections == old(self).connections,
                            self.connect_requests == old(self).connect_requests,
                            self.candidates == old(self).candidates,
                            vc_le(old(self).vote_counts, self.vote_counts),
                            forall|m: int|
                                0 <= m < bundle@.len() ==> blocks.has(
                                    (#[trigger] bundle@[m]).0.from,
                                ) && blocks.has(bundle@[m].0.to) && sorted_names(bundle@[m].1@),
                            forall|m: int, y: Name|
                                0 <= m < vi && #[trigger] bundle@[m].1@.contains(y)
                                    ==> self.vote_counts.voters_of(bundle@[m].0).contains(y),
                        decreases bundle@.len() - vi,
                    {
                        let vote = bundle[vi].0;
                        let ghost mid = *self;
                        self.add_vote(blocks, vote, &bundle[vi].1);
                        proof {
                            lemma_vc_le_trans(
                                old(self).vote_counts,
                                mid.vote_counts,
                                self.vote_counts,
                            );
                            assert forall|m: int, y: Name|
                                0 <= m < vi + 1 && #[trigger] bundle@[m].1@.contains(
                                    y,
                                ) implies self.vote_counts.voters_of(bundle@[m].0).contains(
                                y,
                            ) by {
                                if m < vi {
                                    assert(mid.vote_counts.voters_of(bundle@[m].0).contains(y));
                                } else {
                                    assert(bundle@[vi as int].1@.contains(y));
                                }
                            }
                        }
                        vi = vi + 1;
                    }
                    proof {
                        assert(bundle@ == message.content->VoteBundle_0@);
                        assert forall|i: int, y: Name|
                            0 <= i < bundle@.len() && #[trigger] bundle@[i].1@.contains(y)
                                implies self.vote_counts.voters_of(bundle@[i].0).contains(
                            y,
                        ) by {}
                    }
                    out
                } else {
                    Vec::new()
                }
            },
            MessageContent::BootstrapMsg(vote_counts) => {
                if check_vc(blocks, &vote_counts) {
                    self.apply_bootstrap_msg(blocks, &vote_counts);
                }
                Vec::new()
            },
            MessageContent::Disconnect => {
                self.connections = remove_name(&self.connections, sender);
                self.connect_requests = remove_name(&self.connect_requests, sender);
                Vec::new()
            },
            MessageContent::Connect => {
                self.connections = insert_name(&self.connections, sender);
                if !contains_name(&self.connect_requests, sender) {
                    self.connect_requests = insert_name(&self.connect_requests, sender);
                    let mut out: Vec<Message> = Vec::new();
                    out.push(
                        Message {
                            sender: self.our_name,
                            recipient: sender,
                            content: MessageContent::Connect,
                        },
                    );
                    proof {
                        assert(out@[0].content is Connect);
                        assert forall|m: int|
                            0 <= m < out@.len() implies reply_shape(
                            message.content,
                            #[trigger] out@[m],
                            old(self).our_name,
                            message.sender,
                            old(self).vote_counts,
                        ) by {}
                    }
                    out
                } else {
                    Vec::new()
                }
            },
            MessageContent::RequestProof(block, current_blocks) => {
                if block.0 < blocks.len() {
                    // Use only the requester's references we can resolve.
                    let mut valid_currents: Vec<BlockId> = Vec::new();
                    let mut ci: usize = 0;
                    while ci < current_blocks.len()
                        invariant
                            ci <= current_blocks@.len(),
                            forall|m: int|
                                0 <= m < valid_currents@.len() ==> blocks.has(
                                    #[trigger] valid_currents@[m],
                                ),
                        decreases current_blocks@.len() - ci,
                    {
                        if current_blocks[ci].0 < blocks.len() {
                            valid_currents.push(current_blocks[ci]);
                        }
                        ci = ci + 1;
                    }
                    let msg = self.construct_proof(blocks, block, &valid_currents, sender);
                    let mut out: Vec<Message> = Vec::new();
                    out.push(msg);
                    proof {
                        assert forall|m: int|
                            0 <= m < out@.len() implies reply_shape(
                            message.content,
                            #[trigger] out@[m],
                            old(self).our_name,
                            message.sender,
                            old(self).vote_counts,
                        ) by {}
                    }
                    out
                } else {
                    Vec::new()
                }
            },
            MessageContent::NoProof(_) => Vec::new(),
        };
        let out = self.filter_messages(to_send);
        proof {
            assert forall|k: int|
                0 <= k < out@.len() implies reply_shape(
                message.content,
                #[trigger] out@[k],
                old(self).our_name,
                message.sender,
                old(self).vote_counts,
            ) by {
                assert(to_send@.contains(out@[k]));
                let j = choose|j: int| 0 <= j < to_send@.len() && to_send@[j] == out@[k];
            }
            if message.content is NodeJoined {
                assert(to_send@[0].content is Connect);
                assert(out@.contains(to_send@[0]));
                let k = choose|k: int| 0 <= k < out@.len() && out@[k] == to_send@[0];
                assert((#[trigger] out@[k]).content is Connect);
                assert(has_connect(out@));
            }
            if message.content is Connect && !old(self).connect_requests@.contains(
                message.sender,
            ) {
                assert(to_send@[0].content is Connect);
                assert(out@.contains(to_send@[0]));
                let k = choose|k: int| 0 <= k < out@.len() && out@[k] == to_send@[0];
                assert((#[trigger] out@[k]).content is Connect);
                assert(has_connect(out@));
            }
        }
        out
    }
}

/// A node well-formed against a store stays well-formed when the store
/// only grows.
pub proof fn lemma_wf_monotone(n: Node, a: Blocks, b: Blocks)
    requires
        n.wf(a),
        forall|j: BlockId| a.has(j) ==> b.has(j) && b.spec_get(j) == a.spec_get(j),
    ensures
        n.wf(b),
{
    assert forall|k: int| 0 <= k < n.valid_blocks@.len() implies b.has(
        #[trigger] n.valid_blocks@[k],
    ) by {
        assert(a.has(n.valid_blocks@[k]));
    }
    assert forall|k: int| 0 <= k < n.current_candidate_blocks@.len() implies b.has(
        #[trigger] n.current_candidate_blocks@[k],
    ) by {
        assert(a.has(n.current_candidate_blocks@[k]));
    }
    assert forall|k: int| 0 <= k < n.current_blocks@.len() implies b.has(
        #[trigger] n.current_blocks@[k],
    ) by {
        assert(a.has(n.current_blocks@[k]));
    }
    assert forall|k: int| 0 <= k < n.prev_current_blocks@.len() implies b.has(
        #[trigger] n.prev_current_blocks@[k],
    ) by {
        assert(a.has(n.prev_current_blocks@[k]));
    }
    assert forall|i: int| 0 <= i < n.vote_counts.entries@.len() implies b.has(
        (#[trigger] n.vote_counts.entries@[i]).0.from,
    ) && b.has(n.vote_counts.entries@[i].0.to) by {
        assert(a.has(n.vote_counts.entries@[i].0.from));
    }
    assert forall|k: int| 0 <= k < n.recent_votes@.len() implies b.has(
        (#[trigger] n.recent_votes@[k]).from,
    ) && b.has(n.recent_votes@[k].to) by {
        assert(a.has(n.recent_votes@[k].from));
    }
}

} // verus!
