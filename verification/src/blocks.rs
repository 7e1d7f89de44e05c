//! The append-only block store and the vote-count map, with the validity
//! engine and the current-block selector over them.

use vstd::prelude::*;
use crate::block::{beq, Block, BlockId, Vote};
use crate::members::{
    contains_name, count_in, count_not_in, is_quorum_spec, lemma_push_contains,
    lemma_take_contains, sorted_names, union_names,
};
use vstd::multiset::Multiset;
use crate::name::{Name, Prefix};

verus! {

/// Content-addressed, insert-only store of blocks. An id is an index into
/// the store; duplicate inserts return the id already assigned.
pub struct Blocks {
    pub blocks: Vec<Block>,
}

impl Blocks {
    /// Every stored block is well-formed and no two stored blocks are the
    /// same.
    pub open spec fn wf(self) -> bool {
        &&& forall|i: int| 0 <= i < self.blocks@.len() ==> (#[trigger] self.blocks@[i]).wf()
        &&& forall|i: int, j: int|
            0 <= i < j < self.blocks@.len() ==> !beq(self.blocks@[i], self.blocks@[j])
    }

    /// The id points at a stored block.
    pub open spec fn has(self, id: BlockId) -> bool {
        id.0 < self.blocks@.len()
    }

    /// The block an id points at.
    pub open spec fn spec_get(self, id: BlockId) -> Block {
        self.blocks@[id.0 as int]
    }

    /// An empty store.
    pub fn new() -> (r: Blocks)
        ensures
            r.wf(),
            r.blocks@.len() == 0,
    {
        Blocks { blocks: Vec::new() }
    }

    /// The number of stored blocks.
    pub fn len(&self) -> (r: usize)
        ensures
            r == self.blocks@.len(),
    {
        self.blocks.len()
    }

    /// Fetch a block by id.
    pub fn get(&self, id: &BlockId) -> (r: Option<&Block>)
        ensures
            self.has(*id) ==> (r matches Some(b) && *b == self.spec_get(*id)),
            !self.has(*id) ==> r is None,
    {
        if id.0 < self.blocks.len() {
            Some(&self.blocks[id.0])
        } else {
            None
        }
    }

    /// Insert a block, returning its id; a block already present keeps the
    /// id it had, so duplicate inserts return the same id.
    pub fn insert(&mut self, block: Block) -> (id: BlockId)
        requires
            old(self).wf(),
            block.wf(),
        ensures
            final(self).wf(),
            final(self).has(id),
            beq(final(self).spec_get(id), block),
            forall|j: BlockId|
                old(self).has(j) ==> final(self).has(j) && final(self).spec_get(j) == old(
                    self,
                ).spec_get(j),
            final(self).blocks@.len() <= old(self).blocks@.len() + 1,
            forall|i: int|
                0 <= i < old(self).blocks@.len() && beq(#[trigger] old(self).blocks@[i], block)
                    ==> id.0 == i && *final(self) == *old(self),
    {
        let mut i: usize = 0;
        while i < self.blocks.len()
            invariant
                self == old(self),
                old(self).wf(),
                block.wf(),
                i <= self.blocks@.len(),
                forall|k: int| 0 <= k < i ==> !beq(self.blocks@[k], block),
            decreases self.blocks@.len() - i,
        {
            if block_eq(&self.blocks[i], &block) {
                proof {
                    assert forall|k: int|
                        0 <= k < self.blocks@.len() && beq(
                            #[trigger] self.blocks@[k],
                            block,
                        ) implies k == i as int by {
                        if k < i {
                            assert(!beq(self.blocks@[k], self.blocks@[i as int]));
                        } else if k > i {
                            assert(!beq(self.blocks@[i as int], self.blocks@[k]));
                        }
                    }
                }
                return BlockId(i);
            }
            i = i + 1;
        }
        let id = BlockId(self.blocks.len());
        let ghost pre = self.blocks@;
        self.blocks.push(block);
        proof {
            assert(self.blocks@ == pre.push(block));
        }
        id
    }
}

/// Structural comparison of two blocks.
pub fn block_eq(a: &Block, b: &Block) -> (r: bool)
    ensures
        r == beq(*a, *b),
{
    a.prefix.bit_count == b.prefix.bit_count && a.prefix.name.0 == b.prefix.name.0 && a.version
        == b.version && crate::members::names_eq(&a.members, &b.members)
}

impl Block {
    /// The id the store has assigned to this block, if it is stored.
    pub fn get_id(&self, blocks: &Blocks) -> (r: Option<BlockId>)
        ensures
            r matches Some(id) ==> blocks.has(id) && beq(blocks.spec_get(id), *self),
            r is None ==> forall|i: int|
                0 <= i < blocks.blocks@.len() ==> !beq(#[trigger] blocks.blocks@[i], *self),
    {
        let mut i: usize = 0;
        while i < blocks.blocks.len()
            invariant
                i <= blocks.blocks@.len(),
                forall|k: int| 0 <= k < i ==> !beq(#[trigger] blocks.blocks@[k], *self),
            decreases blocks.blocks@.len() - i,
        {
            if block_eq(&blocks.blocks[i], self) {
                return Some(BlockId(i));
            }
            i = i + 1;
        }
        None
    }
}

impl BlockId {
    /// Fetch the block this id points at.
    pub fn into_block<'a>(&self, blocks: &'a Blocks) -> (r: &'a Block)
        requires
            blocks.has(*self),
        ensures
            *r == blocks.spec_get(*self),
    {
        &blocks.blocks[self.0]
    }
}

/// Return true if `voters` form a quorum of `members`: a strict majority of
/// `members` is among `voters`.
pub fn is_quorum_of(voters: &Vec<Name>, members: &Vec<Name>) -> (r: bool)
    ensures
        r == is_quorum_spec(voters@, members@),
{
    let c = count_in(voters, members);
    proof {
        voters@.lemma_filter_len(|y: Name| members@.contains(y));
    }
    c > members.len() / 2
}

/// The mapping from votes (directed edges) to the set of names that have
/// endorsed each edge. Voter sets only ever grow.
pub struct VoteCounts {
    pub entries: Vec<(Vote, Vec<Name>)>,
}

/// Everything `a` records, `b` records too: every edge of `a` is an edge of
/// `b`, with at least the same voters.
pub open spec fn vc_le(a: VoteCounts, b: VoteCounts) -> bool {
    &&& forall|v: Vote| #[trigger] a.has_edge(v) ==> b.has_edge(v)
    &&& forall|v: Vote, y: Name|
        #[trigger] a.voters_of(v).contains(y) ==> b.voters_of(v).contains(y)
}

impl VoteCounts {
    /// Each edge appears once, and each voter list is ordered.
    pub open spec fn wf(self) -> bool {
        &&& forall|i: int, j: int|
            0 <= i < j < self.entries@.len() ==> (#[trigger] self.entries@[i]).0 != (
            #[trigger] self.entries@[j]).0
        &&& forall|i: int|
            0 <= i < self.entries@.len() ==> sorted_names((#[trigger] self.entries@[i]).1@)
    }

    /// Some voters are recorded for this edge.
    pub open spec fn has_edge(self, v: Vote) -> bool {
        exists|i: int| 0 <= i < self.entries@.len() && (#[trigger] self.entries@[i]).0 == v
    }

    /// The index recording this edge.
    pub open spec fn edge_at(self, v: Vote) -> int {
        choose|i: int| 0 <= i < self.entries@.len() && (#[trigger] self.entries@[i]).0 == v
    }

    /// The voters recorded for this edge; empty when the edge is unknown.
    pub open spec fn voters_of(self, v: Vote) -> Seq<Name> {
        if self.has_edge(v) {
            self.entries@[self.edge_at(v)].1@
        } else {
            Seq::empty()
        }
    }

    /// In a well-formed map, entry `i` is the record of its own vote.
    pub proof fn lemma_edge_at(self, i: int)
        requires
            self.wf(),
            0 <= i < self.entries@.len(),
        ensures
            self.has_edge(self.entries@[i].0),
            self.edge_at(self.entries@[i].0) == i,
            self.voters_of(self.entries@[i].0) == self.entries@[i].1@,
    {
        assert(self.has_edge(self.entries@[i].0));
        let j = self.edge_at(self.entries@[i].0);
        if j != i {
            assert(self.entries@[i].0 != self.entries@[j].0);
        }
    }

    /// An empty map.
    pub fn new() -> (r: VoteCounts)
        ensures
            r.wf(),
            r.entries@.len() == 0,
            forall|v: Vote| !r.has_edge(v),
    {
        VoteCounts { entries: Vec::new() }
    }

    /// Number of recorded edges.
    pub fn num_edges(&self) -> (r: usize)
        ensures
            r == self.entries@.len(),
    {
        self.entries.len()
    }

    /// The voters recorded for `v`, if any.
    pub fn get_voters(&self, v: Vote) -> (r: Option<&Vec<Name>>)
        requires
            self.wf(),
        ensures
            self.has_edge(v) ==> (r matches Some(names) && names@ == self.voters_of(v)),
            !self.has_edge(v) ==> r is None,
    {
        let mut i: usize = 0;
        while i < self.entries.len()
            invariant
                self.wf(),
                i <= self.entries@.len(),
                forall|k: int| 0 <= k < i ==> (#[trigger] self.entries@[k]).0 != v,
            decreases self.entries@.len() - i,
        {
            if self.entries[i].0 == v {
                proof {
                    self.lemma_edge_at(i as int);
                }
                return Some(&self.entries[i].1);
            }
            i = i + 1;
        }
        proof {
            if self.has_edge(v) {
                let k = self.edge_at(v);
                assert(self.entries@[k].0 == v);
            }
        }
        None
    }

    /// Record `names` as voters of `v`, on top of whatever was recorded:
    /// voters are only ever added, never removed.
    pub fn add_vote(&mut self, v: Vote, names: &Vec<Name>)
        requires
            old(self).wf(),
            sorted_names(names@),
        ensures
            final(self).wf(),
            final(self).has_edge(v),
            forall|y: Name|
                final(self).voters_of(v).contains(y) <==> (old(self).voters_of(v).contains(y)
                    || names@.contains(y)),
            forall|v2: Vote| v2 != v ==> final(self).has_edge(v2) == old(self).has_edge(v2),
            forall|v2: Vote| v2 != v ==> final(self).voters_of(v2) == old(self).voters_of(v2),
            vc_le(*old(self), *final(self)),
            final(self).entries@.len() <= old(self).entries@.len() + 1,
            forall|k: int|
                0 <= k < final(self).entries@.len() ==> ((#[trigger] final(self).entries@[k]).0
                    == v || old(self).has_edge(final(self).entries@[k].0)),
    {
        let ghost prior = *self;
        let mut i: usize = 0;
        while i < self.entries.len()
            invariant
                *self == prior,
                prior == *old(self),
                prior.wf(),
                sorted_names(names@),
                i <= self.entries@.len(),
                forall|k: int| 0 <= k < i ==> (#[trigger] self.entries@[k]).0 != v,
            decreases self.entries@.len() - i,
        {
            if self.entries[i].0 == v {
                proof {
                    prior.lemma_edge_at(i as int);
                }
                let merged = union_names(&self.entries[i].1, names);
                self.entries.set(i, (v, merged));
                proof {
                    assert forall|i2: int| 0 <= i2 < self.entries@.len() implies (
                    #[trigger] self.entries@[i2]).0 != v || i2 == i by {}
                    assert(self.wf());
                    assert forall|k: int|
                        0 <= k < self.entries@.len() implies ((#[trigger] self.entries@[k]).0
                        == v || prior.has_edge(self.entries@[k].0)) by {
                        if k != i {
                            prior.lemma_edge_at(k);
                        }
                    }
                    self.lemma_edge_at(i as int);
                    assert forall|v2: Vote| v2 != v implies self.has_edge(v2) == prior.has_edge(
                        v2,
                    ) && self.voters_of(v2) == prior.voters_of(v2) by {
                        if prior.has_edge(v2) {
                            let k = prior.edge_at(v2);
                            assert(self.entries@[k].0 == v2);
                            self.lemma_edge_at(k);
                            prior.lemma_edge_at(k);
                        }
                        if self.has_edge(v2) {
                            let k = self.edge_at(v2);
                            assert(prior.entries@[k].0 == v2);
                            prior.lemma_edge_at(k);
                        }
                    }
                }
                return ;
            }
            i = i + 1;
        }
        proof {
            if prior.has_edge(v) {
                let k = prior.edge_at(v);
                assert(prior.entries@[k].0 == v);
                assert(false);
            }
        }
        let ghost pre = self.entries@;
        let mut sorted: Vec<Name> = Vec::new();
        let merged = union_names(&sorted, names);
        self.entries.push((v, merged));
        proof {
            assert(self.entries@ == pre.push((v, merged)));
            assert(self.entries@[pre.len() as int].0 == v);
            assert(self.wf());
            self.lemma_edge_at(pre.len() as int);
            assert forall|k: int|
                0 <= k < self.entries@.len() implies ((#[trigger] self.entries@[k]).0 == v
                || prior.has_edge(self.entries@[k].0)) by {
                if k < pre.len() {
                    prior.lemma_edge_at(k);
                }
            }
            assert forall|v2: Vote| v2 != v implies self.has_edge(v2) == prior.has_edge(v2)
                && self.voters_of(v2) == prior.voters_of(v2) by {
                if prior.has_edge(v2) {
                    let k = prior.edge_at(v2);
                    assert(self.entries@[k].0 == v2);
                    self.lemma_edge_at(k);
                    prior.lemma_edge_at(k);
                }
                if self.has_edge(v2) {
                    let k = self.edge_at(v2);
                    assert(k < pre.len());
                    assert(prior.entries@[k].0 == v2);
                    prior.lemma_edge_at(k);
                }
            }
        }
    }
}

/// Every id in the list points into the store.
pub open spec fn ids_stored(store: Blocks, ids: Seq<BlockId>) -> bool {
    forall|k: int| 0 <= k < ids.len() ==> store.has(#[trigger] ids[k])
}

/// Every edge of the vote map joins two stored blocks.
pub open spec fn vc_stored(store: Blocks, vc: VoteCounts) -> bool {
    forall|i: int|
        0 <= i < vc.entries@.len() ==> store.has((#[trigger] vc.entries@[i]).0.from) && store.has(
            vc.entries@[i].0.to,
        )
}

/// No id appears twice.
pub open spec fn no_dup_ids(s: Seq<BlockId>) -> bool {
    forall|i: int, j: int| 0 <= i < j < s.len() ==> s[i] != s[j]
}

/// Returns `true` iff `x` occurs in `v`.
pub fn contains_id(v: &Vec<BlockId>, x: BlockId) -> (r: bool)
    ensures
        r == v@.contains(x),
{
    let mut i: usize = 0;
    while i < v.len()
        invariant
            i <= v.len(),
            forall|k: int| 0 <= k < i ==> v@[k] != x,
        decreases v.len() - i,
    {
        if v[i] == x {
            assert(v@[i as int] == x);
            return true;
        }
        i = i + 1;
    }
    false
}

/// Returns `true` iff `x` occurs in `v`.
pub fn contains_vote(v: &Vec<Vote>, x: Vote) -> (r: bool)
    ensures
        r == v@.contains(x),
{
    let mut i: usize = 0;
    while i < v.len()
        invariant
            i <= v.len(),
            forall|k: int| 0 <= k < i ==> v@[k] != x,
        decreases v.len() - i,
    {
        if v[i] == x {
            assert(v@[i as int] == x);
            return true;
        }
        i = i + 1;
    }
    false
}

/// Add `x` to an id set unless it is already there.
pub fn push_unique_id(v: &mut Vec<BlockId>, x: BlockId)
    requires
        no_dup_ids(old(v)@),
    ensures
        no_dup_ids(final(v)@),
        forall|y: BlockId| final(v)@.contains(y) <==> (old(v)@.contains(y) || y == x),
        final(v)@.len() <= old(v)@.len() + 1,
        forall|k: int|
            0 <= k < final(v)@.len() ==> (old(v)@.contains(#[trigger] final(v)@[k])
                || final(v)@[k] == x),
{
    if !contains_id(v, x) {
        let ghost pre = v@;
        v.push(x);
        proof {
            assert(v@ == pre.push(x));
            lemma_push_contains(pre, x);
            assert forall|i: int, j: int| 0 <= i < j < v@.len() implies v@[i] != v@[j] by {
                if j == v@.len() - 1 {
                    assert(pre.contains(pre[i]));
                }
            }
            assert forall|k: int|
                0 <= k < v@.len() implies (pre.contains(#[trigger] v@[k]) || v@[k] == x) by {
                if k < pre.len() {
                    assert(pre[k] == v@[k]);
                    assert(pre.contains(v@[k]));
                }
            }
        }
    } else {
        proof {
            lemma_push_contains(v@, x);
            assert forall|k: int|
                0 <= k < v@.len() implies (v@.contains(#[trigger] v@[k])) by {}
        }
    }
}

/// The quorum test for a vote: the voters must be a strict majority of
/// the `from` block's members, the set that is giving up its say.
pub open spec fn spec_vote_quorum(from_b: Block, to_b: Block, voters: Seq<Name>) -> bool {
    is_quorum_spec(voters, from_b.members@)
}

impl Vote {
    /// A witnessing vote carries evidence across a section boundary instead
    /// of asserting succession.
    pub fn is_witnessing(&self, blocks: &Blocks) -> (r: bool)
        requires
            blocks.wf(),
            blocks.has(self.from),
            blocks.has(self.to),
        ensures
            r == !blocks.spec_get(self.to).spec_admissible_after(blocks.spec_get(self.from)),
    {
        !self.to.into_block(blocks).is_admissible_after(self.from.into_block(blocks))
    }

    /// Do `voters` form a quorum for this vote?
    pub fn is_quorum(&self, blocks: &Blocks, voters: &Vec<Name>) -> (r: bool)
        requires
            blocks.wf(),
            blocks.has(self.from),
            blocks.has(self.to),
        ensures
            r == spec_vote_quorum(
                blocks.spec_get(self.from),
                blocks.spec_get(self.to),
                voters@,
            ),
    {
        let from = self.from.into_block(blocks);
        is_quorum_of(voters, &from.members)
    }
}

/// The properties of a newly validated vote: a recorded edge whose voters
/// form a quorum and whose target is admissible after, or a neighbour of,
/// its source.
pub open spec fn valid_vote_props(
    store: Blocks,
    vc: VoteCounts,
    v: Vote,
    voters: Seq<Name>,
) -> bool {
    &&& store.has(v.from) && store.has(v.to)
    &&& vc.has_edge(v)
    &&& voters == vc.voters_of(v)
    &&& spec_vote_quorum(store.spec_get(v.from), store.spec_get(v.to), voters)
    &&& (store.spec_get(v.to).prefix.spec_neighbour(store.spec_get(v.from).prefix) || store
        .spec_get(v.to).spec_admissible_after(store.spec_get(v.from)))
}

impl Blocks {
    /// All votes recorded from `from` whose voters form a quorum and whose
    /// targets legally succeed (or neighbour) it.
    fn successors(&self, vote_counts: &VoteCounts, from: BlockId) -> (r: Vec<(Vote, Vec<Name>)>)
        requires
            self.wf(),
            vote_counts.wf(),
            vc_stored(*self, *vote_counts),
            self.has(from),
        ensures
            forall|k: int|
                0 <= k < r@.len() ==> (#[trigger] r@[k]).0.from == from && valid_vote_props(
                    *self,
                    *vote_counts,
                    r@[k].0,
                    r@[k].1@,
                ),
    {
        let mut out: Vec<(Vote, Vec<Name>)> = Vec::new();
        let mut i: usize = 0;
        while i < vote_counts.entries.len()
            invariant
                self.wf(),
                vote_counts.wf(),
                vc_stored(*self, *vote_counts),
                self.has(from),
                i <= vote_counts.entries@.len(),
                forall|k: int|
                    0 <= k < out@.len() ==> (#[trigger] out@[k]).0.from == from
                        && valid_vote_props(*self, *vote_counts, out@[k].0, out@[k].1@),
            decreases vote_counts.entries@.len() - i,
        {
            let vote = vote_counts.entries[i].0;
            if vote.from == from {
                let from_block = from.into_block(self);
                let succ = vote.to.into_block(self);
                if succ.prefix.is_neighbour(&from_block.prefix) || succ.is_admissible_after(
                    from_block,
                ) {
                    if vote.is_quorum(self, &vote_counts.entries[i].1) {
                        let voters = crate::members::copy_names(&vote_counts.entries[i].1);
                        let ghost pre = out@;
                        proof {
                            vote_counts.lemma_edge_at(i as int);
                        }
                        out.push((vote, voters));
                        proof {
                            assert(out@ == pre.push((vote, voters)));
                        }
                    }
                }
            }
            i = i + 1;
        }
        out
    }

    /// Compute the votes that become valid as a result of the given new
    /// votes: frontier expansion from the already-valid blocks. Every
    /// returned vote is a quorum-endorsed, admissible-or-witnessing edge
    /// recorded in `vote_counts`, whose source is valid or made valid by an
    /// earlier returned vote.
    pub fn new_valid_blocks(
        &self,
        valid_blocks: &Vec<BlockId>,
        vote_counts: &VoteCounts,
        new_votes: &Vec<Vote>,
    ) -> (r: Vec<(Vote, Vec<Name>)>)
        requires
            self.wf(),
            vote_counts.wf(),
            vc_stored(*self, *vote_counts),
            ids_stored(*self, valid_blocks@),
            forall|k: int|
                0 <= k < new_votes@.len() ==> self.has((#[trigger] new_votes@[k]).from)
                    && self.has(new_votes@[k].to),
        ensures
            forall|k: int|
                0 <= k < r@.len() ==> valid_vote_props(
                    *self,
                    *vote_counts,
                    (#[trigger] r@[k]).0,
                    r@[k].1@,
                ) && !valid_blocks@.contains(r@[k].0.to) && (valid_blocks@.contains(r@[k].0.from)
                    || exists|m: int| 0 <= m < k && (#[trigger] r@[m]).0.to == r@[k].0.from),
    {
        // The frontier: blocks just shown valid, waiting to branch out.
        // A dummy self-edge stands for an already-valid starting block.
        let mut frontier: Vec<(Vote, Vec<Name>)> = Vec::new();
        let mut results: Vec<(Vote, Vec<Name>)> = Vec::new();
        let mut visited: Vec<Vote> = Vec::new();
        let mut i: usize = 0;
        while i < new_votes.len()
            invariant
                i <= new_votes@.len(),
                forall|k: int|
                    0 <= k < frontier@.len() ==> (#[trigger] frontier@[k]).0.from
                        == frontier@[k].0.to && valid_blocks@.contains(frontier@[k].0.to),
            decreases new_votes@.len() - i,
        {
            let v = new_votes[i];
            if contains_id(valid_blocks, v.from) {
                let ghost pre = frontier@;
                let dummy = (Vote { from: v.from, to: v.from }, Vec::new());
                frontier.push(dummy);
                proof {
                    assert(frontier@[pre.len() as int].0.from == v.from);
                    assert(forall|k: int| 0 <= k < pre.len() ==> frontier@[k] == pre[k]);
                }
            }
            i = i + 1;
        }
        let ne = vote_counts.num_edges();
        let bound = if ne < usize::MAX - 2 {
            ne + 2
        } else {
            ne
        };
        let mut round: usize = 0;
        while round < bound && frontier.len() > 0
            invariant
                self.wf(),
                vote_counts.wf(),
                vc_stored(*self, *vote_counts),
                ids_stored(*self, valid_blocks@),
                round <= bound,
                forall|k: int|
                    0 <= k < frontier@.len() ==> ((#[trigger] frontier@[k]).0.from
                        == frontier@[k].0.to && valid_blocks@.contains(frontier@[k].0.to)) || (
                    valid_vote_props(*self, *vote_counts, frontier@[k].0, frontier@[k].1@) && (
                    valid_blocks@.contains(frontier@[k].0.from) || exists|m: int|
                        0 <= m < results@.len() && (#[trigger] results@[m]).0.to
                            == frontier@[k].0.from)),
                forall|k: int|
                    0 <= k < frontier@.len() ==> self.has((#[trigger] frontier@[k]).0.from)
                        && self.has(frontier@[k].0.to),
                forall|k: int|
                    0 <= k < results@.len() ==> valid_vote_props(
                        *self,
                        *vote_counts,
                        (#[trigger] results@[k]).0,
                        results@[k].1@,
                    ) && !valid_blocks@.contains(results@[k].0.to) && (valid_blocks@.contains(
                        results@[k].0.from,
                    ) || exists|m: int|
                        0 <= m < k && (#[trigger] results@[m]).0.to == results@[k].0.from),
            decreases bound - round,
        {
            let mut new_frontier: Vec<(Vote, Vec<Name>)> = Vec::new();
            let mut idx: usize = 0;
            while idx < frontier.len()
                invariant
                    self.wf(),
                    vote_counts.wf(),
                    vc_stored(*self, *vote_counts),
                    ids_stored(*self, valid_blocks@),
                    idx <= frontier@.len(),
                    forall|k: int|
                        0 <= k < frontier@.len() ==> ((#[trigger] frontier@[k]).0.from
                            == frontier@[k].0.to && valid_blocks@.contains(frontier@[k].0.to))
                            || (valid_vote_props(
                            *self,
                            *vote_counts,
                            frontier@[k].0,
                            frontier@[k].1@,
                        ) && (valid_blocks@.contains(frontier@[k].0.from) || exists|m: int|
                            0 <= m < results@.len() && (#[trigger] results@[m]).0.to
                                == frontier@[k].0.from)),
                    forall|k: int|
                        0 <= k < frontier@.len() ==> self.has((#[trigger] frontier@[k]).0.from)
                            && self.has(frontier@[k].0.to),
                    forall|k: int|
                        0 <= k < new_frontier@.len() ==> valid_vote_props(
                            *self,
                            *vote_counts,
                            (#[trigger] new_frontier@[k]).0,
                            new_frontier@[k].1@,
                        ) && (valid_blocks@.contains(new_frontier@[k].0.from) || exists|m: int|
                            0 <= m < results@.len() && (#[trigger] results@[m]).0.to
                                == new_frontier@[k].0.from),
                    forall|k: int|
                        0 <= k < new_frontier@.len() ==> self.has(
                            (#[trigger] new_frontier@[k]).0.from,
                        ) && self.has(new_frontier@[k].0.to),
                    forall|k: int|
                        0 <= k < results@.len() ==> valid_vote_props(
                            *self,
                            *vote_counts,
                            (#[trigger] results@[k]).0,
                            results@[k].1@,
                        ) && !valid_blocks@.contains(results@[k].0.to) && (valid_blocks@.contains(
                            results@[k].0.from,
                        ) || exists|m: int|
                            0 <= m < k && (#[trigger] results@[m]).0.to == results@[k].0.from),
                decreases frontier@.len() - idx,
            {
                let vote = frontier[idx].0;
                let ghost old_results = results@;
                visited.push(vote);
                // The frontier block is valid; record its vote if it is news.
                if !contains_id(valid_blocks, vote.to) {
                    let voters = crate::members::copy_names(&frontier[idx].1);
                    let ghost pre = results@;
                    results.push((vote, voters));
                    proof {
                        assert(results@ == pre.push((vote, voters)));
                        assert forall|k: int|
                            0 <= k < results@.len() implies valid_vote_props(
                            *self,
                            *vote_counts,
                            (#[trigger] results@[k]).0,
                            results@[k].1@,
                        ) && !valid_blocks@.contains(results@[k].0.to) && (valid_blocks@.contains(
                            results@[k].0.from,
                        ) || exists|m: int|
                            0 <= m < k && (#[trigger] results@[m]).0.to
                                == results@[k].0.from) by {
                            if k < pre.len() {
                                assert(results@[k] == pre[k]);
                                if !valid_blocks@.contains(pre[k].0.from) {
                                    let m = choose|m: int|
                                        0 <= m < k && (#[trigger] pre[m]).0.to == pre[k].0.from;
                                    assert(results@[m] == pre[m]);
                                    assert(results@[m].0.to == results@[k].0.from);
                                }
                            } else {
                                assert(results@[k] == (vote, voters));
                                assert(!(frontier@[idx as int].0.from == frontier@[idx as int].0.to
                                    && valid_blocks@.contains(frontier@[idx as int].0.to)));
                                if !valid_blocks@.contains(vote.from) {
                                    let m = choose|m: int|
                                        0 <= m < pre.len() && (#[trigger] pre[m]).0.to
                                            == vote.from;
                                    assert(results@[m] == pre[m]);
                                    assert(results@[m].0.to == vote.from);
                                }
                            }
                        }
                        assert(results@[results@.len() - 1].0.to == vote.to);
                    }
                }
                // Re-establish the support witnesses against the grown
                // result list.
                proof {
                    assert forall|k: int|
                        0 <= k < new_frontier@.len() implies valid_vote_props(
                        *self,
                        *vote_counts,
                        (#[trigger] new_frontier@[k]).0,
                        new_frontier@[k].1@,
                    ) && (valid_blocks@.contains(new_frontier@[k].0.from) || exists|m: int|
                        0 <= m < results@.len() && (#[trigger] results@[m]).0.to
                            == new_frontier@[k].0.from) by {
                        if !valid_blocks@.contains(new_frontier@[k].0.from) {
                            let m = choose|m: int|
                                0 <= m < old_results.len() && (#[trigger] old_results[m]).0.to
                                    == new_frontier@[k].0.from;
                            assert(results@[m] == old_results[m]);
                        }
                    }
                    assert forall|k: int|
                        0 <= k < frontier@.len() implies ((#[trigger] frontier@[k]).0.from
                        == frontier@[k].0.to && valid_blocks@.contains(frontier@[k].0.to)) || (
                    valid_vote_props(*self, *vote_counts, frontier@[k].0, frontier@[k].1@) && (
                    valid_blocks@.contains(frontier@[k].0.from) || exists|m: int|
                        0 <= m < results@.len() && (#[trigger] results@[m]).0.to
                            == frontier@[k].0.from)) by {
                        if !(frontier@[k].0.from == frontier@[k].0.to && valid_blocks@.contains(
                            frontier@[k].0.to,
                        )) && !valid_blocks@.contains(frontier@[k].0.from) {
                            let m = choose|m: int|
                                0 <= m < old_results.len() && (#[trigger] old_results[m]).0.to
                                    == frontier@[k].0.from;
                            assert(results@[m] == old_results[m]);
                        }
                    }
                }
                // Branch out to quorum-endorsed successors not yet seen.
                let succs = self.successors(vote_counts, vote.to);
                let mut si: usize = 0;
                while si < succs.len()
                    invariant
                        self.wf(),
                        vote_counts.wf(),
                        vc_stored(*self, *vote_counts),
                        ids_stored(*self, valid_blocks@),
                        si <= succs@.len(),
                        self.has(vote.to),
                        valid_blocks@.contains(vote.to) || (exists|m: int|
                            0 <= m < results@.len() && (#[trigger] results@[m]).0.to == vote.to),
                        forall|k: int|
                            0 <= k < succs@.len() ==> (#[trigger] succs@[k]).0.from == vote.to
                                && valid_vote_props(*self, *vote_counts, succs@[k].0, succs@[k].1@),
                        forall|k: int|
                            0 <= k < new_frontier@.len() ==> valid_vote_props(
                                *self,
                                *vote_counts,
                                (#[trigger] new_frontier@[k]).0,
                                new_frontier@[k].1@,
                            ) && (valid_blocks@.contains(new_frontier@[k].0.from) || exists|m: int|
                                0 <= m < results@.len() && (#[trigger] results@[m]).0.to
                                    == new_frontier@[k].0.from),
                        forall|k: int|
                            0 <= k < new_frontier@.len() ==> self.has(
                                (#[trigger] new_frontier@[k]).0.from,
                            ) && self.has(new_frontier@[k].0.to),
                    decreases succs@.len() - si,
                {
                    let sv = succs[si].0;
                    if !contains_vote(&visited, sv) {
                        let mut seen = false;
                        let mut ni: usize = 0;
                        while ni < new_frontier.len()
                            invariant
                                ni <= new_frontier@.len(),
                            decreases new_frontier@.len() - ni,
                        {
                            if new_frontier[ni].0 == sv {
                                seen = true;
                            }
                            ni = ni + 1;
                        }
                        if !seen {
                            let voters = crate::members::copy_names(&succs[si].1);
                            let ghost pre = new_frontier@;
                            new_frontier.push((sv, voters));
                            proof {
                                assert(new_frontier@ == pre.push((sv, voters)));
                                assert(succs@[si as int].0 == sv);
                                assert(succs@[si as int].1@ == voters@);
                            }
                        }
                    }
                    si = si + 1;
                }
                idx = idx + 1;
            }
            frontier = new_frontier;
            round = round + 1;
        }
        results
    }
}


/// A copy of an id list.
pub fn copy_ids(v: &Vec<BlockId>) -> (r: Vec<BlockId>)
    ensures
        r@ == v@,
{
    let mut out: Vec<BlockId> = Vec::new();
    let mut i: usize = 0;
    while i < v.len()
        invariant
            i <= v.len(),
            out@ == v@.take(i as int),
        decreases v.len() - i,
    {
        let e = v[i];
        out.push(e);
        assert(out@ == v@.take(i + 1 as int));
        i = i + 1;
    }
    proof {
        assert(v@.take(v@.len() as int) =~= v@);
    }
    out
}

/// Some candidate in the list outranks the block `id` points at.
pub open spec fn outranked_in(store: Blocks, cands: Seq<BlockId>, id: BlockId) -> bool {
    exists|k: int|
        0 <= k < cands.len() && store.spec_get(#[trigger] cands[k]).spec_outranks(
            store.spec_get(id),
        )
}

/// The namespace region of `p` is covered by the prefixes of the blocks in
/// `kept` whose version is strictly above `v`.
pub open spec fn covered_by_newer(store: Blocks, kept: Seq<BlockId>, p: Prefix, v: u64) -> bool {
    forall|n: Name|
        p.spec_matches(n) ==> exists|m: int|
            0 <= m < kept.len() && store.spec_get(#[trigger] kept[m]).version > v
                && store.spec_get(kept[m]).prefix.spec_matches(n)
}

/// Appending a block of version at most `v` leaves `covered_by_newer`
/// unchanged.
proof fn lemma_covered_newer_push(store: Blocks, kept: Seq<BlockId>, x: BlockId, p: Prefix, v: u64)
    requires
        store.spec_get(x).version <= v,
    ensures
        covered_by_newer(store, kept.push(x), p, v) == covered_by_newer(store, kept, p, v),
{
    if covered_by_newer(store, kept.push(x), p, v) {
        assert forall|n: Name| p.spec_matches(n) implies exists|m: int|
            0 <= m < kept.len() && store.spec_get(#[trigger] kept[m]).version > v
                && store.spec_get(kept[m]).prefix.spec_matches(n) by {
            let m = choose|m: int|
                0 <= m < kept.push(x).len() && store.spec_get(
                    #[trigger] kept.push(x)[m],
                ).version > v && store.spec_get(kept.push(x)[m]).prefix.spec_matches(n);
            assert(m < kept.len());
            assert(kept.push(x)[m] == kept[m]);
        }
        assert(covered_by_newer(store, kept, p, v));
    }
    if covered_by_newer(store, kept, p, v) {
        assert forall|n: Name| p.spec_matches(n) implies exists|m: int|
            0 <= m < kept.push(x).len() && store.spec_get(#[trigger] kept.push(x)[m]).version > v
                && store.spec_get(kept.push(x)[m]).prefix.spec_matches(n) by {
            let m = choose|m: int|
                0 <= m < kept.len() && store.spec_get(#[trigger] kept[m]).version > v
                    && store.spec_get(kept[m]).prefix.spec_matches(n);
            assert(kept.push(x)[m] == kept[m]);
        }
        assert(covered_by_newer(store, kept.push(x), p, v));
    }
}

/// When `pfxs` holds exactly the prefixes of the kept blocks of version
/// above `v`, covering by `pfxs` is covering by those blocks.
proof fn lemma_pfxs_covered_equiv(
    store: Blocks,
    kept: Seq<BlockId>,
    pfxs: Seq<Prefix>,
    p: Prefix,
    v: u64,
)
    requires
        forall|q: Prefix| #[trigger] pfxs.contains(q) ==> exists|m: int|
            0 <= m < kept.len() && store.spec_get(#[trigger] kept[m]).version > v
                && store.spec_get(kept[m]).prefix == q,
        forall|m: int|
            0 <= m < kept.len() && store.spec_get(#[trigger] kept[m]).version > v
                ==> pfxs.contains(store.spec_get(kept[m]).prefix),
    ensures
        crate::name::prefix_covered(p, pfxs) == covered_by_newer(store, kept, p, v),
{
    if crate::name::prefix_covered(p, pfxs) {
        assert forall|n: Name| p.spec_matches(n) implies exists|m: int|
            0 <= m < kept.len() && store.spec_get(#[trigger] kept[m]).version > v
                && store.spec_get(kept[m]).prefix.spec_matches(n) by {
            let q = choose|q: Prefix| #[trigger] pfxs.contains(q) && q.spec_matches(n);
            let m = choose|m: int|
                0 <= m < kept.len() && store.spec_get(#[trigger] kept[m]).version > v
                    && store.spec_get(kept[m]).prefix == q;
        }
        assert(covered_by_newer(store, kept, p, v));
    }
    if covered_by_newer(store, kept, p, v) {
        assert forall|n: Name| p.spec_matches(n) implies exists|q: Prefix|
            #[trigger] pfxs.contains(q) && q.spec_matches(n) by {
            let m = choose|m: int|
                0 <= m < kept.len() && store.spec_get(#[trigger] kept[m]).version > v
                    && store.spec_get(kept[m]).prefix.spec_matches(n);
            assert(pfxs.contains(store.spec_get(kept[m]).prefix));
        }
        assert(crate::name::prefix_covered(p, pfxs));
    }
}

impl Blocks {
    /// Order ids by the version of the block each points at, newest first.
    fn sort_by_version_desc(&self, ids: &Vec<BlockId>) -> (r: Vec<BlockId>)
        requires
            self.wf(),
            ids_stored(*self, ids@),
        ensures
            r@.to_multiset() == ids@.to_multiset(),
            r@.len() == ids@.len(),
            ids_stored(*self, r@),
            forall|i: int, j: int|
                0 <= i < j < r@.len() ==> self.spec_get(r@[i]).version >= self.spec_get(
                    r@[j],
                ).version,
            forall|y: BlockId| r@.contains(y) <==> ids@.contains(y),
            no_dup_ids(ids@) ==> no_dup_ids(r@),
    {
        broadcast use vstd::seq_lib::group_to_multiset_ensures;

        let mut remaining = copy_ids(ids);
        let mut out: Vec<BlockId> = Vec::new();
        while remaining.len() > 0
            invariant
                self.wf(),
                ids_stored(*self, ids@),
                ids_stored(*self, out@),
                ids_stored(*self, remaining@),
                out@.to_multiset().add(remaining@.to_multiset()) =~= ids@.to_multiset(),
                out@.len() + remaining@.len() == ids@.len(),
                forall|i: int, j: int|
                    0 <= i < j < out@.len() ==> self.spec_get(out@[i]).version >= self.spec_get(
                        out@[j],
                    ).version,
                forall|m: int, k: int|
                    0 <= m < out@.len() && 0 <= k < remaining@.len() ==> self.spec_get(
                        #[trigger] out@[m],
                    ).version >= self.spec_get(#[trigger] remaining@[k]).version,
            decreases remaining@.len(),
        {
            let mut mi: usize = 0;
            let mut i: usize = 1;
            while i < remaining.len()
                invariant
                    self.wf(),
                    ids_stored(*self, remaining@),
                    remaining@.len() > 0,
                    mi < i,
                    i <= remaining@.len(),
                    forall|k: int|
                        0 <= k < i ==> self.spec_get(remaining@[mi as int]).version
                            >= self.spec_get(#[trigger] remaining@[k]).version,
                decreases remaining@.len() - i,
            {
                if remaining[i].into_block(self).version > remaining[mi].into_block(
                    self,
                ).version {
                    mi = i;
                }
                i = i + 1;
            }
            let id = remaining[mi];
            let ghost pre_out = out@;
            let ghost pre_rem = remaining@;
            out.push(id);
            remaining.remove(mi);
            proof {
                broadcast use vstd::seq_lib::group_to_multiset_ensures;

                assert(out@ == pre_out.push(id));
                assert(pre_rem.contains(id));
                assert(remaining@ == pre_rem.remove(mi as int));
                assert(out@.to_multiset() =~= pre_out.to_multiset().insert(id));
                assert(pre_rem.to_multiset().contains(id));
                assert(remaining@.to_multiset() =~= pre_rem.to_multiset().remove(id));
                assert(out@.to_multiset().add(remaining@.to_multiset()) =~= ids@.to_multiset());
                assert forall|k: int|
                    0 <= k < remaining@.len() implies self.spec_get(out@[out@.len() - 1]).version
                    >= self.spec_get(#[trigger] remaining@[k]).version by {
                    if k < mi {
                        assert(remaining@[k] == pre_rem[k]);
                    } else {
                        assert(remaining@[k] == pre_rem[k + 1]);
                    }
                }
            }
        }
        proof {
            assert(remaining@.to_multiset() =~= Multiset::<BlockId>::empty());
            assert(out@.to_multiset() =~= ids@.to_multiset());
            assert forall|y: BlockId| out@.contains(y) <==> ids@.contains(y) by {
                assert(out@.contains(y) <==> out@.to_multiset().count(y) > 0);
                assert(ids@.contains(y) <==> ids@.to_multiset().count(y) > 0);
            }
            if no_dup_ids(ids@) {
                assert(ids@.no_duplicates());
                ids@.lemma_multiset_has_no_duplicates();
                out@.lemma_multiset_has_no_duplicates_conv();
                assert forall|i: int, j: int|
                    0 <= i < j < out@.len() implies out@[i] != out@[j] by {}
            }
        }
        out
    }

    /// Candidates for current blocks: walk the valid blocks newest first,
    /// keeping every block whose prefix is not yet covered by the prefixes
    /// kept at strictly higher versions. For any exact prefix, only the
    /// newest valid version survives.
    pub fn compute_current_candidate_blocks(&self, valid_blocks: &Vec<BlockId>) -> (r: Vec<
        BlockId,
    >)
        requires
            self.wf(),
            ids_stored(*self, valid_blocks@),
            no_dup_ids(valid_blocks@),
        ensures
            forall|id: BlockId| #[trigger] r@.contains(id) ==> valid_blocks@.contains(id),
            ids_stored(*self, r@),
            no_dup_ids(r@),
            forall|id1: BlockId, id2: BlockId|
                #[trigger] valid_blocks@.contains(id1) && #[trigger] r@.contains(id2)
                    && self.spec_get(id1).prefix == self.spec_get(id2).prefix ==> self.spec_get(
                    id2,
                ).version >= self.spec_get(id1).version,
            forall|id: BlockId|
                #[trigger] valid_blocks@.contains(id) ==> (r@.contains(id) <==> !covered_by_newer(
                    *self,
                    r@,
                    self.spec_get(id).prefix,
                    self.spec_get(id).version,
                )),
    {
        let s = self.sort_by_version_desc(valid_blocks);
        let mut kept: Vec<BlockId> = Vec::new();
        let mut pfxs: Vec<Prefix> = Vec::new();
        let mut pending: Vec<Prefix> = Vec::new();
        let mut cur_ver: u64 = 0;
        let mut k: usize = 0;
        while k < s.len()
            invariant
                self.wf(),
                ids_stored(*self, s@),
                no_dup_ids(s@),
                k <= s@.len(),
                forall|i: int, j: int|
                    0 <= i < j < s@.len() ==> self.spec_get(s@[i]).version >= self.spec_get(
                        s@[j],
                    ).version,
                k > 0 ==> cur_ver == self.spec_get(s@[k - 1]).version,
                forall|m: int| 0 <= m < pfxs@.len() ==> (#[trigger] pfxs@[m]).wf(),
                forall|m: int| 0 <= m < pending@.len() ==> (#[trigger] pending@[m]).wf(),
                forall|m: int| 0 <= m < kept@.len() ==> s@.take(k as int).contains(#[trigger] kept@[m]),
                no_dup_ids(kept@),
                forall|idx: int|
                    0 <= idx < k ==> (kept@.contains(#[trigger] s@[idx]) && (self.spec_get(
                        s@[idx],
                    ).version > cur_ver ==> pfxs@.contains(self.spec_get(s@[idx]).prefix)) && (
                    pfxs@.contains(self.spec_get(s@[idx]).prefix) || pending@.contains(
                        self.spec_get(s@[idx]).prefix,
                    ))) || (!kept@.contains(s@[idx]) && crate::name::prefix_covered(
                        self.spec_get(s@[idx]).prefix,
                        pfxs@,
                    )),
                forall|idx: int, m: int|
                    0 <= idx < k && 0 <= m < kept@.len() && self.spec_get(
                        #[trigger] s@[idx],
                    ).prefix == self.spec_get(#[trigger] kept@[m]).prefix ==> self.spec_get(
                        kept@[m],
                    ).version >= self.spec_get(s@[idx]).version,
                k == 0 ==> kept@.len() == 0 && pfxs@.len() == 0 && pending@.len() == 0,
                k > 0 ==> (forall|q: Prefix| #[trigger] pfxs@.contains(q) ==> exists|m: int|
                    0 <= m < kept@.len() && self.spec_get(#[trigger] kept@[m]).version > cur_ver
                        && self.spec_get(kept@[m]).prefix == q),
                k > 0 ==> (forall|m: int|
                    0 <= m < kept@.len() && self.spec_get(#[trigger] kept@[m]).version > cur_ver
                        ==> pfxs@.contains(self.spec_get(kept@[m]).prefix)),
                k > 0 ==> (forall|q: Prefix| #[trigger] pending@.contains(q) ==> exists|m: int|
                    0 <= m < kept@.len() && self.spec_get(#[trigger] kept@[m]).version == cur_ver
                        && self.spec_get(kept@[m]).prefix == q),
                k > 0 ==> (forall|m: int|
                    0 <= m < kept@.len() && self.spec_get(#[trigger] kept@[m]).version == cur_ver
                        ==> pending@.contains(self.spec_get(kept@[m]).prefix)),
                k > 0 ==> (forall|m: int|
                    0 <= m < kept@.len() ==> self.spec_get(#[trigger] kept@[m]).version
                        >= cur_ver),
                forall|idx: int|
                    0 <= idx < k ==> (kept@.contains(#[trigger] s@[idx]) <==> !covered_by_newer(
                        *self,
                        kept@,
                        self.spec_get(s@[idx]).prefix,
                        self.spec_get(s@[idx]).version,
                    )),
            decreases s@.len() - k,
        {
            let id = s[k];
            let blk = id.into_block(self);
            let v = blk.version;
            let ghost p = self.spec_get(id).prefix;
            if k == 0 || v < cur_ver {
                // A new (lower) version group starts: the prefixes kept in
                // the finished group now count as higher-version cover.
                let ghost oldpfxs = pfxs@;
                let ghost oldpending = pending@;
                let ghost oldcur = cur_ver;
                let mut j: usize = 0;
                while j < pending.len()
                    invariant
                        j <= pending@.len(),
                        pending@ == oldpending,
                        pfxs@ == oldpfxs + pending@.take(j as int),
                    decreases pending@.len() - j,
                {
                    let q = pending[j];
                    pfxs.push(q);
                    proof {
                        assert(pfxs@ =~= oldpfxs + pending@.take(j + 1 as int));
                    }
                    j = j + 1;
                }
                pending = Vec::new();
                cur_ver = v;
                proof {
                    assert(pfxs@ =~= oldpfxs + oldpending);
                    assert forall|q: Prefix| oldpfxs.contains(q) implies pfxs@.contains(q) by {
                        let m = choose|m: int| 0 <= m < oldpfxs.len() && oldpfxs[m] == q;
                        assert(pfxs@[m] == q);
                    }
                    assert forall|q: Prefix| oldpending.contains(q) implies pfxs@.contains(
                        q,
                    ) by {
                        let m = choose|m: int| 0 <= m < oldpending.len() && oldpending[m] == q;
                        assert(pfxs@[oldpfxs.len() + m] == q);
                    }
                    assert forall|m: int| 0 <= m < pfxs@.len() implies (
                    #[trigger] pfxs@[m]).wf() by {
                        if m < oldpfxs.len() {
                            assert(pfxs@[m] == oldpfxs[m]);
                        } else {
                            assert(pfxs@[m] == oldpending[m - oldpfxs.len()]);
                        }
                    }
                    assert forall|idx: int|
                        0 <= idx < k implies (kept@.contains(#[trigger] s@[idx]) && (
                    self.spec_get(s@[idx]).version > cur_ver ==> pfxs@.contains(
                        self.spec_get(s@[idx]).prefix,
                    )) && (pfxs@.contains(self.spec_get(s@[idx]).prefix) || pending@.contains(
                        self.spec_get(s@[idx]).prefix,
                    ))) || (!kept@.contains(s@[idx]) && crate::name::prefix_covered(
                        self.spec_get(s@[idx]).prefix,
                        pfxs@,
                    )) by {
                        if kept@.contains(s@[idx]) {
                            assert(oldpfxs.contains(self.spec_get(s@[idx]).prefix)
                                || oldpending.contains(self.spec_get(s@[idx]).prefix));
                        } else {
                            crate::name::lemma_covered_monotone(
                                self.spec_get(s@[idx]).prefix,
                                oldpfxs,
                                pfxs@,
                            );
                        }
                    }
                    // The grown prefix set records exactly the kept blocks,
                    // which all count as strictly newer than the new group.
                    if k > 0 {
                        assert forall|q: Prefix| #[trigger] pfxs@.contains(q) implies exists|
                            m: int,
                        |
                            0 <= m < kept@.len() && self.spec_get(#[trigger] kept@[m]).version > v
                                && self.spec_get(kept@[m]).prefix == q by {
                            let mi = choose|mi: int| 0 <= mi < pfxs@.len() && pfxs@[mi] == q;
                            if mi < oldpfxs.len() {
                                assert(oldpfxs[mi] == q);
                                assert(oldpfxs.contains(q));
                                let m = choose|m: int|
                                    0 <= m < kept@.len() && self.spec_get(
                                        #[trigger] kept@[m],
                                    ).version > oldcur && self.spec_get(kept@[m]).prefix == q;
                            } else {
                                assert(oldpending[mi - oldpfxs.len()] == q);
                                assert(oldpending.contains(q));
                                let m = choose|m: int|
                                    0 <= m < kept@.len() && self.spec_get(
                                        #[trigger] kept@[m],
                                    ).version == oldcur && self.spec_get(kept@[m]).prefix == q;
                            }
                        }
                        assert forall|m: int|
                            0 <= m < kept@.len() && self.spec_get(#[trigger] kept@[m]).version
                                > v implies pfxs@.contains(self.spec_get(kept@[m]).prefix) by {
                            if self.spec_get(kept@[m]).version > oldcur {
                                assert(oldpfxs.contains(self.spec_get(kept@[m]).prefix));
                            } else {
                                assert(self.spec_get(kept@[m]).version == oldcur);
                                assert(oldpending.contains(self.spec_get(kept@[m]).prefix));
                            }
                        }
                    }
                }
            }
            let covered = blk.prefix.is_covered_by(&pfxs);
            proof {
                assert(blk.prefix == p);
                assert(v == cur_ver);
            }
            if !covered {
                let ghost prekept = kept@;
                let ghost prepending = pending@;
                kept.push(id);
                pending.push(blk.prefix);
                proof {
                    lemma_push_contains(prekept, id);
                    lemma_push_contains(prepending, p);
                    // No already-processed block of the same prefix has a
                    // strictly higher version: it would cover `p`.
                    assert forall|idx: int|
                        0 <= idx < k && self.spec_get(#[trigger] s@[idx]).prefix
                            == p implies self.spec_get(s@[idx]).version <= v by {
                        if self.spec_get(s@[idx]).version > cur_ver {
                            if prekept.contains(s@[idx]) {
                                assert(pfxs@.contains(p));
                                crate::name::lemma_covered_by_member(p, p, pfxs@);
                                assert(false);
                            } else {
                                assert(crate::name::prefix_covered(p, pfxs@));
                                assert(false);
                            }
                        }
                    }
                    lemma_take_contains(s@, k as int);
                    assert forall|m: int|
                        0 <= m < kept@.len() implies s@.take(k + 1 as int).contains(
                        #[trigger] kept@[m],
                    ) by {
                        if m < prekept.len() {
                            assert(kept@[m] == prekept[m]);
                            assert(s@.take(k as int).contains(prekept[m]));
                        } else {
                            assert(kept@[m] == id);
                            assert(s@[k as int] == id);
                        }
                    }
                    assert forall|m1: int, m2: int|
                        0 <= m1 < m2 < kept@.len() implies kept@[m1] != kept@[m2] by {
                        if m2 == kept@.len() - 1 {
                            assert(kept@[m1] == prekept[m1]);
                            assert(s@.take(k as int).contains(prekept[m1]));
                            let idx = choose|idx: int|
                                0 <= idx < k && s@.take(k as int)[idx] == prekept[m1];
                            assert(s@[idx] == prekept[m1]);
                            assert(s@[idx] != s@[k as int]);
                        }
                    }
                    // The prefix and pending records extend to the new block.
                    assert(self.spec_get(id).version == cur_ver);
                    assert forall|q: Prefix| #[trigger] pfxs@.contains(q) implies exists|m: int|
                        0 <= m < kept@.len() && self.spec_get(#[trigger] kept@[m]).version
                            > cur_ver && self.spec_get(kept@[m]).prefix == q by {
                        let m = choose|m: int|
                            0 <= m < prekept.len() && self.spec_get(#[trigger] prekept[m]).version
                                > cur_ver && self.spec_get(prekept[m]).prefix == q;
                        assert(kept@[m] == prekept[m]);
                    }
                    assert forall|m: int|
                        0 <= m < kept@.len() && self.spec_get(#[trigger] kept@[m]).version
                            > cur_ver implies pfxs@.contains(self.spec_get(kept@[m]).prefix) by {
                        if m < prekept.len() {
                            assert(kept@[m] == prekept[m]);
                        } else {
                            assert(kept@[m] == id);
                        }
                    }
                    assert forall|q: Prefix| #[trigger] pending@.contains(q) implies exists|m: int|
                        0 <= m < kept@.len() && self.spec_get(#[trigger] kept@[m]).version
                            == cur_ver && self.spec_get(kept@[m]).prefix == q by {
                        if prepending.contains(q) {
                            let m = choose|m: int|
                                0 <= m < prekept.len() && self.spec_get(
                                    #[trigger] prekept[m],
                                ).version == cur_ver && self.spec_get(prekept[m]).prefix == q;
                            assert(kept@[m] == prekept[m]);
                        } else {
                            assert(q == p);
                            assert(kept@[kept@.len() - 1] == id);
                        }
                    }
                    assert forall|m: int|
                        0 <= m < kept@.len() && self.spec_get(#[trigger] kept@[m]).version
                            == cur_ver implies pending@.contains(
                        self.spec_get(kept@[m]).prefix,
                    ) by {
                        if m < prekept.len() {
                            assert(kept@[m] == prekept[m]);
                            assert(prepending.contains(self.spec_get(prekept[m]).prefix));
                        } else {
                            assert(kept@[m] == id);
                        }
                    }
                    assert forall|m: int|
                        0 <= m < kept@.len() implies self.spec_get(#[trigger] kept@[m]).version
                        >= cur_ver by {
                        if m < prekept.len() {
                            assert(kept@[m] == prekept[m]);
                        } else {
                            assert(kept@[m] == id);
                        }
                    }
                    // The kept decision of every processed block is kept.
                    assert forall|idx: int|
                        0 <= idx < k + 1 implies (kept@.contains(#[trigger] s@[idx])
                        <==> !covered_by_newer(
                        *self,
                        kept@,
                        self.spec_get(s@[idx]).prefix,
                        self.spec_get(s@[idx]).version,
                    )) by {
                        if idx < k {
                            assert(self.spec_get(s@[k as int]).version <= self.spec_get(
                                s@[idx],
                            ).version);
                            lemma_covered_newer_push(
                                *self,
                                prekept,
                                id,
                                self.spec_get(s@[idx]).prefix,
                                self.spec_get(s@[idx]).version,
                            );
                            assert(s@[idx] != s@[k as int]);
                            assert(kept@.contains(s@[idx]) <==> prekept.contains(s@[idx])) by {
                                lemma_push_contains(prekept, id);
                            }
                        } else {
                            lemma_pfxs_covered_equiv(*self, prekept, pfxs@, p, cur_ver);
                            assert(!covered_by_newer(*self, prekept, p, cur_ver));
                            lemma_covered_newer_push(*self, prekept, id, p, cur_ver);
                            assert(kept@.contains(s@[idx]));
                        }
                    }
                }
            } else {
                proof {
                    lemma_take_contains(s@, k as int);
                    assert(!kept@.contains(s@[k as int])) by {
                        if kept@.contains(s@[k as int]) {
                            let m = choose|m: int|
                                0 <= m < kept@.len() && kept@[m] == s@[k as int];
                            assert(s@.take(k as int).contains(kept@[m]));
                            let idx = choose|idx: int|
                                0 <= idx < k && s@.take(k as int)[idx] == kept@[m];
                            assert(s@[idx] == s@[k as int]);
                            assert(s@[idx] != s@[k as int]);
                        }
                    }
                    // The skipped block is covered by the kept newer blocks.
                    lemma_pfxs_covered_equiv(*self, kept@, pfxs@, p, cur_ver);
                    assert(covered_by_newer(*self, kept@, p, cur_ver));
                    assert(self.spec_get(s@[k as int]).version == cur_ver);
                }
            }
            k = k + 1;
        }
        proof {
            assert(s@.take(s@.len() as int) =~= s@);
            assert forall|id: BlockId| #[trigger] kept@.contains(id) implies valid_blocks@.contains(
                id,
            ) by {
                let m = choose|m: int| 0 <= m < kept@.len() && kept@[m] == id;
                assert(s@.take(k as int).contains(kept@[m]));
                assert(s@.contains(id));
            }
            assert forall|m: int| 0 <= m < kept@.len() implies self.has(#[trigger] kept@[m]) by {
                assert(s@.take(k as int).contains(kept@[m]));
                let idx = choose|idx: int|
                    0 <= idx < s@.len() && s@.take(k as int)[idx] == kept@[m];
                assert(s@[idx] == kept@[m]);
            }
            assert forall|id1: BlockId, id2: BlockId|
                #[trigger] valid_blocks@.contains(id1) && #[trigger] kept@.contains(id2)
                    && self.spec_get(id1).prefix == self.spec_get(id2).prefix implies self.spec_get(
                id2,
            ).version >= self.spec_get(id1).version by {
                assert(s@.contains(id1));
                let idx = choose|idx: int| 0 <= idx < s@.len() && s@[idx] == id1;
                let m = choose|m: int| 0 <= m < kept@.len() && kept@[m] == id2;
                assert(self.spec_get(kept@[m]).version >= self.spec_get(s@[idx]).version);
            }
            assert forall|id: BlockId| #[trigger] valid_blocks@.contains(id) implies (
            kept@.contains(id) <==> !covered_by_newer(
                *self,
                kept@,
                self.spec_get(id).prefix,
                self.spec_get(id).version,
            )) by {
                assert(s@.contains(id));
                let idx = choose|idx: int| 0 <= idx < s@.len() && s@[idx] == id;
            }
        }
        kept
    }

    /// The current blocks: the candidates no other candidate outranks.
    pub fn compute_current_blocks(&self, candidate_blocks: &Vec<BlockId>) -> (r: Vec<BlockId>)
        requires
            self.wf(),
            ids_stored(*self, candidate_blocks@),
            no_dup_ids(candidate_blocks@),
        ensures
            forall|id: BlockId|
                #[trigger] r@.contains(id) <==> (candidate_blocks@.contains(id) && !outranked_in(
                    *self,
                    candidate_blocks@,
                    id,
                )),
            ids_stored(*self, r@),
            no_dup_ids(r@),
    {
        let mut out: Vec<BlockId> = Vec::new();
        let mut i: usize = 0;
        while i < candidate_blocks.len()
            invariant
                self.wf(),
                ids_stored(*self, candidate_blocks@),
                no_dup_ids(candidate_blocks@),
                i <= candidate_blocks@.len(),
                ids_stored(*self, out@),
                forall|id: BlockId|
                    #[trigger] out@.contains(id) <==> (candidate_blocks@.take(i as int).contains(
                        id,
                    ) && !outranked_in(*self, candidate_blocks@, id)),
                no_dup_ids(out@),
            decreases candidate_blocks@.len() - i,
        {
            let id = candidate_blocks[i];
            let blk = id.into_block(self);
            let mut beaten = false;
            let mut j: usize = 0;
            while j < candidate_blocks.len()
                invariant
                    self.wf(),
                    ids_stored(*self, candidate_blocks@),
                    j <= candidate_blocks@.len(),
                    self.has(id),
                    blk == self.spec_get(id),
                    beaten ==> outranked_in(*self, candidate_blocks@, id),
                    !beaten ==> forall|m: int|
                        0 <= m < j ==> !self.spec_get(
                            #[trigger] candidate_blocks@[m],
                        ).spec_outranks(self.spec_get(id)),
                decreases candidate_blocks@.len() - j,
            {
                if candidate_blocks[j].into_block(self).outranks(blk) {
                    beaten = true;
                }
                j = j + 1;
            }
            proof {
                lemma_take_contains(candidate_blocks@, i as int);
                if !beaten {
                    assert(!outranked_in(*self, candidate_blocks@, id)) by {
                        if outranked_in(*self, candidate_blocks@, id) {
                            let m = choose|m: int|
                                0 <= m < candidate_blocks@.len() && self.spec_get(
                                    #[trigger] candidate_blocks@[m],
                                ).spec_outranks(self.spec_get(id));
                        }
                    }
                }
            }
            if !beaten {
                let ghost pre = out@;
                out.push(id);
                proof {
                    lemma_push_contains(pre, id);
                    assert(candidate_blocks@.take(i + 1 as int).contains(id)) by {
                        assert(candidate_blocks@.take(i + 1 as int)[i as int] == id);
                    }
                    assert forall|m1: int, m2: int|
                        0 <= m1 < m2 < out@.len() implies out@[m1] != out@[m2] by {
                        if m2 == out@.len() - 1 {
                            assert(pre.contains(pre[m1]));
                            assert(candidate_blocks@.take(i as int).contains(pre[m1]));
                            if pre[m1] == id {
                                let n = choose|n: int|
                                    0 <= n < i && candidate_blocks@.take(i as int)[n] == id;
                                assert(candidate_blocks@[n] == candidate_blocks@[i as int]);
                            }
                        }
                    }
                }
            }
            i = i + 1;
        }
        proof {
            assert(candidate_blocks@.take(candidate_blocks@.len() as int) =~= candidate_blocks@);
        }
        out
    }
}

/// The prefixes of distinct current blocks are pairwise incompatible:
/// within one prefix the selector keeps a single newest, largest block,
/// and a shorter compatible prefix always outranks a deeper one.
pub proof fn lemma_current_blocks_incompatible(
    store: Blocks,
    cands: Seq<BlockId>,
    current: Seq<BlockId>,
)
    requires
        store.wf(),
        ids_stored(store, cands),
        forall|id1: BlockId, id2: BlockId|
            #[trigger] cands.contains(id1) && #[trigger] cands.contains(id2) && store.spec_get(
                id1,
            ).prefix == store.spec_get(id2).prefix ==> store.spec_get(id2).version
                == store.spec_get(id1).version,
        forall|id: BlockId|
            #[trigger] current.contains(id) ==> cands.contains(id) && !outranked_in(
                store,
                cands,
                id,
            ),
    ensures
        forall|id1: BlockId, id2: BlockId|
            #[trigger] current.contains(id1) && #[trigger] current.contains(id2) && id1 != id2
                ==> !store.spec_get(id1).prefix.spec_compatible(store.spec_get(id2).prefix),
{
    assert forall|id1: BlockId, id2: BlockId|
        #[trigger] current.contains(id1) && #[trigger] current.contains(id2) && id1 != id2
            implies !store.spec_get(id1).prefix.spec_compatible(store.spec_get(id2).prefix) by {
        let b1 = store.spec_get(id1);
        let b2 = store.spec_get(id2);
        let k1 = choose|k: int| 0 <= k < cands.len() && cands[k] == id1;
        let k2 = choose|k: int| 0 <= k < cands.len() && cands[k] == id2;
        if b1.prefix.spec_compatible(b2.prefix) {
            if b1.prefix == b2.prefix {
                assert(b1.version == b2.version);
                if b1.members@.len() != b2.members@.len() {
                    if b1.members@.len() > b2.members@.len() {
                        assert(b1.spec_outranks(b2));
                        assert(store.spec_get(cands[k1]).spec_outranks(store.spec_get(id2)));
                        assert(outranked_in(store, cands, id2));
                    } else {
                        assert(b2.spec_outranks(b1));
                        assert(store.spec_get(cands[k2]).spec_outranks(store.spec_get(id1)));
                        assert(outranked_in(store, cands, id1));
                    }
                } else if b1.members@ != b2.members@ {
                    crate::members::lemma_lex_total(b1.members@, b2.members@);
                    if crate::members::names_lex_gt(b1.members@, b2.members@) {
                        assert(b1.spec_outranks(b2));
                        assert(store.spec_get(cands[k1]).spec_outranks(store.spec_get(id2)));
                        assert(outranked_in(store, cands, id2));
                    } else {
                        assert(b2.spec_outranks(b1));
                        assert(store.spec_get(cands[k2]).spec_outranks(store.spec_get(id1)));
                        assert(outranked_in(store, cands, id1));
                    }
                } else {
                    // Same prefix, version and members: the store holds one
                    // such block under one id.
                    assert(beq(b1, b2));
                    if id1.0 < id2.0 {
                        assert(!beq(store.blocks@[id1.0 as int], store.blocks@[id2.0 as int]));
                    } else {
                        assert(!beq(store.blocks@[id2.0 as int], store.blocks@[id1.0 as int]));
                    }
                }
            } else {
                if b1.prefix.bit_count == b2.prefix.bit_count {
                    crate::name::lemma_prefix_eq(b1.prefix, b2.prefix);
                } else if b1.prefix.bit_count < b2.prefix.bit_count {
                    assert(b1.spec_outranks(b2));
                    assert(store.spec_get(cands[k1]).spec_outranks(store.spec_get(id2)));
                    assert(outranked_in(store, cands, id2));
                } else {
                    assert(b2.prefix.spec_compatible(b1.prefix));
                    assert(b2.spec_outranks(b1));
                    assert(store.spec_get(cands[k2]).spec_outranks(store.spec_get(id1)));
                    assert(outranked_in(store, cands, id1));
                }
            }
        }
    }
}


impl Blocks {
    /// Copies of the blocks the given ids point at, in order.
    pub fn block_contents(&self, ids: &Vec<BlockId>) -> (r: Vec<Block>)
        requires
            self.wf(),
            ids_stored(*self, ids@),
        ensures
            r@.len() == ids@.len(),
            forall|k: int| 0 <= k < ids@.len() ==> beq(#[trigger] r@[k], self.spec_get(ids@[k])),
    {
        let mut out: Vec<Block> = Vec::new();
        let mut i: usize = 0;
        while i < ids.len()
            invariant
                self.wf(),
                ids_stored(*self, ids@),
                i <= ids@.len(),
                out@.len() == i,
                forall|k: int| 0 <= k < i ==> beq(#[trigger] out@[k], self.spec_get(ids@[k])),
            decreases ids@.len() - i,
        {
            let b = crate::block::clone_block(ids[i].into_block(self));
            out.push(b);
            i = i + 1;
        }
        out
    }

    /// The blocks among `ids` that we belong to: those we may legitimately
    /// vote on successors for.
    pub fn our_blocks(&self, ids: &Vec<BlockId>, our_name: Name) -> (r: Vec<BlockId>)
        requires
            self.wf(),
            ids_stored(*self, ids@),
        ensures
            r@ == ids@.filter(|id: BlockId| self.spec_get(id).members@.contains(our_name)),
            ids_stored(*self, r@),
    {
        let mut out: Vec<BlockId> = Vec::new();
        let mut i: usize = 0;
        proof {
            assert(ids@.take(0) =~= Seq::<BlockId>::empty());
            reveal(Seq::filter);
        }
        while i < ids.len()
            invariant
                self.wf(),
                ids_stored(*self, ids@),
                i <= ids@.len(),
                out@ == ids@.take(i as int).filter(
                    |id: BlockId| self.spec_get(id).members@.contains(our_name),
                ),
                ids_stored(*self, out@),
            decreases ids@.len() - i,
        {
            let id = ids[i];
            proof {
                assert(ids@.take(i + 1 as int).drop_last() =~= ids@.take(i as int));
                Seq::lemma_filter_push(
                    ids@.take(i as int),
                    id,
                    |id: BlockId| self.spec_get(id).members@.contains(our_name),
                );
                assert(ids@.take(i + 1 as int) == ids@.take(i as int).push(id));
            }
            if contains_name(&id.into_block(self).members, our_name) {
                out.push(id);
            }
            i = i + 1;
        }
        proof {
            assert(ids@.take(ids@.len() as int) =~= ids@);
        }
        out
    }

    /// The prefixes of the blocks among `ids` that we belong to.
    pub fn our_prefixes(&self, ids: &Vec<BlockId>, our_name: Name) -> (r: Vec<Prefix>)
        requires
            self.wf(),
            ids_stored(*self, ids@),
        ensures
            forall|p: Prefix|
                r@.contains(p) <==> exists|k: int|
                    0 <= k < ids@.len() && self.spec_get(#[trigger] ids@[k]).members@.contains(
                        our_name,
                    ) && self.spec_get(ids@[k]).prefix == p,
    {
        let mut out: Vec<Prefix> = Vec::new();
        let mut i: usize = 0;
        while i < ids.len()
            invariant
                self.wf(),
                ids_stored(*self, ids@),
                i <= ids@.len(),
                forall|p: Prefix|
                    out@.contains(p) <==> exists|k: int|
                        0 <= k < i && self.spec_get(#[trigger] ids@[k]).members@.contains(
                            our_name,
                        ) && self.spec_get(ids@[k]).prefix == p,
            decreases ids@.len() - i,
        {
            let id = ids[i];
            let blk = id.into_block(self);
            if contains_name(&blk.members, our_name) {
                let ghost pre = out@;
                out.push(blk.prefix);
                proof {
                    lemma_push_contains(pre, self.spec_get(ids@[i as int]).prefix);
                    assert forall|p: Prefix|
                        out@.contains(p) <==> exists|k: int|
                            0 <= k < i + 1 && self.spec_get(#[trigger] ids@[k]).members@.contains(
                                our_name,
                            ) && self.spec_get(ids@[k]).prefix == p by {
                        if out@.contains(p) {
                            if pre.contains(p) {
                            } else {
                                assert(p == self.spec_get(ids@[i as int]).prefix);
                                assert(self.spec_get(ids@[i as int]).members@.contains(our_name));
                            }
                        }
                    }
                }
            }
            i = i + 1;
        }
        out
    }

    /// The blocks among `ids` whose prefix matches our name, whether or not
    /// we appear among their members.
    pub fn section_blocks(&self, ids: &Vec<BlockId>, our_name: Name) -> (r: Vec<BlockId>)
        requires
            self.wf(),
            ids_stored(*self, ids@),
        ensures
            r@ == ids@.filter(|id: BlockId| self.spec_get(id).prefix.spec_matches(our_name)),
            ids_stored(*self, r@),
    {
        let mut out: Vec<BlockId> = Vec::new();
        let mut i: usize = 0;
        proof {
            assert(ids@.take(0) =~= Seq::<BlockId>::empty());
            reveal(Seq::filter);
        }
        while i < ids.len()
            invariant
                self.wf(),
                ids_stored(*self, ids@),
                i <= ids@.len(),
                out@ == ids@.take(i as int).filter(
                    |id: BlockId| self.spec_get(id).prefix.spec_matches(our_name),
                ),
                ids_stored(*self, out@),
            decreases ids@.len() - i,
        {
            let id = ids[i];
            proof {
                assert(ids@.take(i + 1 as int).drop_last() =~= ids@.take(i as int));
                Seq::lemma_filter_push(
                    ids@.take(i as int),
                    id,
                    |id: BlockId| self.spec_get(id).prefix.spec_matches(our_name),
                );
                assert(ids@.take(i + 1 as int) == ids@.take(i as int).push(id));
            }
            if id.into_block(self).prefix.matches(our_name) {
                out.push(id);
            }
            i = i + 1;
        }
        proof {
            assert(ids@.take(ids@.len() as int) =~= ids@);
        }
        out
    }

    /// The blocks among `ids` under exactly the given prefix.
    pub fn blocks_for_prefix(&self, ids: &Vec<BlockId>, prefix: &Prefix) -> (r: Vec<BlockId>)
        requires
            self.wf(),
            ids_stored(*self, ids@),
        ensures
            r@ == ids@.filter(|id: BlockId| self.spec_get(id).prefix == *prefix),
            ids_stored(*self, r@),
    {
        let mut out: Vec<BlockId> = Vec::new();
        let mut i: usize = 0;
        proof {
            assert(ids@.take(0) =~= Seq::<BlockId>::empty());
            reveal(Seq::filter);
        }
        while i < ids.len()
            invariant
                self.wf(),
                ids_stored(*self, ids@),
                i <= ids@.len(),
                out@ == ids@.take(i as int).filter(
                    |id: BlockId| self.spec_get(id).prefix == *prefix,
                ),
                ids_stored(*self, out@),
            decreases ids@.len() - i,
        {
            let id = ids[i];
            proof {
                assert(ids@.take(i + 1 as int).drop_last() =~= ids@.take(i as int));
                Seq::lemma_filter_push(
                    ids@.take(i as int),
                    id,
                    |id: BlockId| self.spec_get(id).prefix == *prefix,
                );
                assert(ids@.take(i + 1 as int) == ids@.take(i as int).push(id));
            }
            if crate::block::prefix_eq(&id.into_block(self).prefix, prefix) {
                out.push(id);
            }
            i = i + 1;
        }
        proof {
            assert(ids@.take(ids@.len() as int) =~= ids@);
        }
        out
    }

    /// The quorum-endorsed predecessors of `block`: every recorded edge into
    /// it whose voters form a quorum, with those voters.
    pub fn predecessors(&self, block: &BlockId, vote_counts: &VoteCounts) -> (r: Vec<
        (BlockId, Vote, Vec<Name>),
    >)
        requires
            self.wf(),
            vote_counts.wf(),
            vc_stored(*self, *vote_counts),
            self.has(*block),
        ensures
            forall|k: int|
                0 <= k < r@.len() ==> {
                    let (b, v, voters) = #[trigger] r@[k];
                    v.from == b && v.to == *block && vote_counts.has_edge(v) && voters@
                        == vote_counts.voters_of(v) && self.has(b) && spec_vote_quorum(
                        self.spec_get(v.from),
                        self.spec_get(v.to),
                        voters@,
                    )
                },
            forall|i: int|
                0 <= i < vote_counts.entries@.len() && (#[trigger] vote_counts.entries@[i]).0.to
                    == *block && spec_vote_quorum(
                    self.spec_get(vote_counts.entries@[i].0.from),
                    self.spec_get(vote_counts.entries@[i].0.to),
                    vote_counts.entries@[i].1@,
                ) ==> exists|k: int|
                    0 <= k < r@.len() && (#[trigger] r@[k]).1 == vote_counts.entries@[i].0,
    {
        let mut out: Vec<(BlockId, Vote, Vec<Name>)> = Vec::new();
        let mut i: usize = 0;
        while i < vote_counts.entries.len()
            invariant
                self.wf(),
                vote_counts.wf(),
                vc_stored(*self, *vote_counts),
                self.has(*block),
                i <= vote_counts.entries@.len(),
                forall|k: int|
                    0 <= k < out@.len() ==> {
                        let (b, v, voters) = #[trigger] out@[k];
                        v.from == b && v.to == *block && vote_counts.has_edge(v) && voters@
                            == vote_counts.voters_of(v) && self.has(b) && spec_vote_quorum(
                            self.spec_get(v.from),
                            self.spec_get(v.to),
                            voters@,
                        )
                    },
                forall|m: int|
                    0 <= m < i && (#[trigger] vote_counts.entries@[m]).0.to == *block
                        && spec_vote_quorum(
                        self.spec_get(vote_counts.entries@[m].0.from),
                        self.spec_get(vote_counts.entries@[m].0.to),
                        vote_counts.entries@[m].1@,
                    ) ==> exists|k: int|
                        0 <= k < out@.len() && (#[trigger] out@[k]).1
                            == vote_counts.entries@[m].0,
            decreases vote_counts.entries@.len() - i,
        {
            let vote = vote_counts.entries[i].0;
            let mut took = false;
            if vote.to == *block {
                if vote.is_quorum(self, &vote_counts.entries[i].1) {
                    let voters = crate::members::copy_names(&vote_counts.entries[i].1);
                    proof {
                        vote_counts.lemma_edge_at(i as int);
                    }
                    let ghost pre = out@;
                    out.push((vote.from, vote, voters));
                    took = true;
                    proof {
                        assert(out@[pre.len() as int].1 == vote);
                        assert forall|m: int|
                            0 <= m < i + 1 && (#[trigger] vote_counts.entries@[m]).0.to
                                == *block && spec_vote_quorum(
                                self.spec_get(vote_counts.entries@[m].0.from),
                                self.spec_get(vote_counts.entries@[m].0.to),
                                vote_counts.entries@[m].1@,
                            ) implies exists|k: int|
                            0 <= k < out@.len() && (#[trigger] out@[k]).1
                                == vote_counts.entries@[m].0 by {
                            if m < i {
                                let k = choose|k: int|
                                    0 <= k < pre.len() && (#[trigger] pre[k]).1
                                        == vote_counts.entries@[m].0;
                                assert(out@[k] == pre[k]);
                            } else {
                                assert(out@[pre.len() as int].1 == vote_counts.entries@[m].0);
                            }
                        }
                    }
                }
            }
            i = i + 1;
        }
        out
    }

    /// The votes along the history of `block` back to the last split: walk
    /// non-witnessing quorum edges backwards while the starting block's
    /// prefix still prefixes the older block's.
    pub fn chain_segment(&self, block: &BlockId, vote_counts: &VoteCounts) -> (r: Vec<
        (Vote, Vec<Name>),
    >)
        requires
            self.wf(),
            vote_counts.wf(),
            vc_stored(*self, *vote_counts),
            self.has(*block),
        ensures
            forall|k: int|
                0 <= k < r@.len() ==> {
                    let (v, voters) = #[trigger] r@[k];
                    vote_counts.has_edge(v) && voters@ == vote_counts.voters_of(v)
                        && spec_vote_quorum(
                        self.spec_get(v.from),
                        self.spec_get(v.to),
                        voters@,
                    ) && self.spec_get(v.to).spec_admissible_after(self.spec_get(v.from))
                },
            r@.len() > 0 ==> r@[0].0.to == *block,
            forall|k: int|
                0 <= k && k + 1 < r@.len() ==> (#[trigger] r@[k + 1]).0.to == r@[k].0.from,
            ({
                let last = if r@.len() > 0 {
                    r@[r@.len() - 1].0.from
                } else {
                    *block
                };
                ||| !self.spec_get(*block).prefix.spec_is_prefix_of(self.spec_get(last).prefix)
                ||| self.spec_get(last).version == 0
                ||| (forall|i: int|
                    0 <= i < vote_counts.entries@.len() && (
                    #[trigger] vote_counts.entries@[i]).0.to == last && spec_vote_quorum(
                        self.spec_get(vote_counts.entries@[i].0.from),
                        self.spec_get(vote_counts.entries@[i].0.to),
                        vote_counts.entries@[i].1@,
                    ) ==> !self.spec_get(last).spec_admissible_after(
                        self.spec_get(vote_counts.entries@[i].0.from),
                    ))
            }),
    {
        let mut segment: Vec<(Vote, Vec<Name>)> = Vec::new();
        let start = *block;
        let mut oldest = *block;
        let mut fuel = oldest.into_block(self).version;
        while fuel > 0
            invariant
                self.wf(),
                vote_counts.wf(),
                vc_stored(*self, *vote_counts),
                self.has(start),
                self.has(oldest),
                fuel == self.spec_get(oldest).version,
                forall|k: int|
                    0 <= k < segment@.len() ==> {
                        let (v, voters) = #[trigger] segment@[k];
                        vote_counts.has_edge(v) && voters@ == vote_counts.voters_of(v)
                            && spec_vote_quorum(
                            self.spec_get(v.from),
                            self.spec_get(v.to),
                            voters@,
                        ) && self.spec_get(v.to).spec_admissible_after(self.spec_get(v.from))
                    },
                segment@.len() > 0 ==> segment@[0].0.to == start,
                segment@.len() > 0 ==> segment@[segment@.len() - 1].0.from == oldest,
                segment@.len() == 0 ==> oldest == start,
                forall|k: int|
                    0 <= k && k + 1 < segment@.len() ==> (#[trigger] segment@[k + 1]).0.to
                        == segment@[k].0.from,
            ensures
                self.has(oldest),
                segment@.len() > 0 ==> segment@[segment@.len() - 1].0.from == oldest,
                segment@.len() == 0 ==> oldest == start,
                !self.spec_get(start).prefix.spec_is_prefix_of(self.spec_get(oldest).prefix)
                    || self.spec_get(oldest).version == 0 || (forall|i: int|
                    0 <= i < vote_counts.entries@.len() && (
                    #[trigger] vote_counts.entries@[i]).0.to == oldest && spec_vote_quorum(
                        self.spec_get(vote_counts.entries@[i].0.from),
                        self.spec_get(vote_counts.entries@[i].0.to),
                        vote_counts.entries@[i].1@,
                    ) ==> !self.spec_get(oldest).spec_admissible_after(
                        self.spec_get(vote_counts.entries@[i].0.from),
                    )),
            decreases fuel,
        {
            let still_ours = start.into_block(self).prefix.is_prefix_of(
                &oldest.into_block(self).prefix,
            ) && oldest.into_block(self).version > 0;
            if !still_ours {
                break ;
            }
            let preds = self.predecessors(&oldest, vote_counts);
            let mut found = false;
            let mut pi: usize = 0;
            let mut next = oldest;
            let mut next_vote = Vote { from: oldest, to: oldest };
            let mut next_voters: Vec<Name> = Vec::new();
            while pi < preds.len()
                invariant
                    self.wf(),
                    vote_counts.wf(),
                    vc_stored(*self, *vote_counts),
                    self.has(oldest),
                    pi <= preds@.len(),
                    forall|k: int|
                        0 <= k < preds@.len() ==> {
                            let (b, v, voters) = #[trigger] preds@[k];
                            v.from == b && v.to == oldest && vote_counts.has_edge(v) && voters@
                                == vote_counts.voters_of(v) && self.has(b) && spec_vote_quorum(
                                self.spec_get(v.from),
                                self.spec_get(v.to),
                                voters@,
                            )
                        },
                    found ==> self.has(next) && vote_counts.has_edge(next_vote) && next_voters@
                        == vote_counts.voters_of(next_vote) && next_vote.from == next
                        && next_vote.to == oldest && spec_vote_quorum(
                        self.spec_get(next_vote.from),
                        self.spec_get(next_vote.to),
                        next_voters@,
                    ) && self.spec_get(next_vote.to).spec_admissible_after(
                        self.spec_get(next_vote.from),
                    ),
                    !found ==> forall|k: int|
                        0 <= k < pi ==> !self.spec_get(
                            (#[trigger] preds@[k]).1.to,
                        ).spec_admissible_after(self.spec_get(preds@[k].1.from)),
                    forall|i: int|
                        0 <= i < vote_counts.entries@.len() && (
                        #[trigger] vote_counts.entries@[i]).0.to == oldest && spec_vote_quorum(
                            self.spec_get(vote_counts.entries@[i].0.from),
                            self.spec_get(vote_counts.entries@[i].0.to),
                            vote_counts.entries@[i].1@,
                        ) ==> exists|k: int|
                            0 <= k < preds@.len() && (#[trigger] preds@[k]).1
                                == vote_counts.entries@[i].0,
                decreases preds@.len() - pi,
            {
                let v = preds[pi].1;
                if !found && !v.is_witnessing(self) {
                    found = true;
                    next = preds[pi].0;
                    next_vote = v;
                    next_voters = crate::members::copy_names(&preds[pi].2);
                }
                pi = pi + 1;
            }
            if !found {
                proof {
                    assert forall|i: int|
                        0 <= i < vote_counts.entries@.len() && (
                        #[trigger] vote_counts.entries@[i]).0.to == oldest && spec_vote_quorum(
                            self.spec_get(vote_counts.entries@[i].0.from),
                            self.spec_get(vote_counts.entries@[i].0.to),
                            vote_counts.entries@[i].1@,
                        ) implies !self.spec_get(oldest).spec_admissible_after(
                        self.spec_get(vote_counts.entries@[i].0.from),
                    ) by {
                        let k = choose|k: int|
                            0 <= k < preds@.len() && (#[trigger] preds@[k]).1
                                == vote_counts.entries@[i].0;
                        assert(!self.spec_get(preds@[k].1.to).spec_admissible_after(
                            self.spec_get(preds@[k].1.from),
                        ));
                    }
                }
                break ;
            }
            // A non-witnessing edge is admissible, so the predecessor's
            // version is strictly lower: the walk terminates.
            proof {
                assert(self.spec_get(next_vote.to).version > self.spec_get(
                    next_vote.from,
                ).version);
            }
            let ghost preseg = segment@;
            segment.push((next_vote, next_voters));
            proof {
                assert forall|k: int|
                    0 <= k && k + 1 < segment@.len() implies (#[trigger] segment@[k + 1]).0.to
                    == segment@[k].0.from by {
                    if k + 1 < preseg.len() {
                        assert(segment@[k + 1] == preseg[k + 1]);
                        assert(segment@[k] == preseg[k]);
                    } else {
                        assert(segment@[k + 1].0 == next_vote);
                        if preseg.len() > 0 {
                            assert(segment@[k] == preseg[preseg.len() - 1]);
                        }
                    }
                }
            }
            let new_fuel = next.into_block(self).version;
            oldest = next;
            fuel = new_fuel;
        }
        segment
    }
}


/// An entry-for-entry copy of a vote-count map: same edges, same voters.
pub fn copy_vote_counts(vc: &VoteCounts) -> (r: VoteCounts)
    ensures
        r.entries@.len() == vc.entries@.len(),
        forall|k: int|
            0 <= k < r.entries@.len() ==> (#[trigger] r.entries@[k]).0 == vc.entries@[k].0
                && r.entries@[k].1@ == vc.entries@[k].1@,
        vc.wf() ==> r.wf(),
        vc.wf() ==> forall|v: Vote| r.has_edge(v) == vc.has_edge(v),
        vc.wf() ==> forall|v: Vote| r.voters_of(v) == vc.voters_of(v),
{
    let mut entries: Vec<(Vote, Vec<Name>)> = Vec::new();
    let mut i: usize = 0;
    while i < vc.entries.len()
        invariant
            i <= vc.entries@.len(),
            entries@.len() == i,
            forall|k: int|
                0 <= k < i ==> (#[trigger] entries@[k]).0 == vc.entries@[k].0 && entries@[k].1@
                    == vc.entries@[k].1@,
        decreases vc.entries@.len() - i,
    {
        let vote = vc.entries[i].0;
        let voters = crate::members::copy_names(&vc.entries[i].1);
        entries.push((vote, voters));
        i = i + 1;
    }
    let out = VoteCounts { entries };
    proof {
        if vc.wf() {
        assert(out.wf());
        assert forall|v: Vote| out.has_edge(v) == vc.has_edge(v) && out.voters_of(v)
            == vc.voters_of(v) by {
            if vc.has_edge(v) {
                let k = vc.edge_at(v);
                assert(vc.entries@[k].0 == v);
                assert(out.entries@[k].0 == v);
                out.lemma_edge_at(k);
                vc.lemma_edge_at(k);
            }
            if out.has_edge(v) {
                let k = out.edge_at(v);
                assert(out.entries@[k].0 == v);
                assert(vc.entries@[k].0 == v);
                out.lemma_edge_at(k);
                vc.lemma_edge_at(k);
            }
        }
        }
    }
    out
}

} // verus!
