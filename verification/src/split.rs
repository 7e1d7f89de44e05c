//! The split rule: a section whose two halves are both large enough, and
//! whose neighbourhood is healthy, votes to split into its two children.

use vstd::prelude::*;
use crate::block::{beq, clone_block, extends_one, Block, BlockId, Vote};
use crate::blocks::{ids_stored, Blocks};
use crate::members::{lemma_filter_ptwise, lemma_filter_subset, names_matching};
use crate::name::{bit_at, Name};

verus! {

/// Every current block whose prefix neighbours or is compatible with
/// `b.prefix` holds at least `min_split_size` members.
pub open spec fn spec_neighbours_ok(
    store: Blocks,
    current: Seq<BlockId>,
    b: Block,
    min_split_size: int,
) -> bool {
    forall|k: int|
        0 <= k < current.len() ==> ((store.spec_get(#[trigger] current[k]).prefix.spec_neighbour(
            b.prefix,
        ) || store.spec_get(current[k]).prefix.spec_compatible(b.prefix)) ==> store.spec_get(
            current[k],
        ).members@.len() >= min_split_size)
}

/// The two children of a split: one version step up, prefixes one bit
/// deeper (bit 0 and bit 1), membership partitioned by that bit.
pub open spec fn spec_split_pair(parent: Block, b0: Block, b1: Block) -> bool {
    &&& b0.version == parent.version + 1
    &&& b1.version == parent.version + 1
    &&& extends_one(b0.prefix, parent.prefix)
    &&& extends_one(b1.prefix, parent.prefix)
    &&& !bit_at(b0.prefix.name.0, parent.prefix.bit_count as int)
    &&& bit_at(b1.prefix.name.0, parent.prefix.bit_count as int)
    &&& b0.members@ == parent.members@.filter(|n: Name| b0.prefix.spec_matches(n))
    &&& b1.members@ == parent.members@.filter(|n: Name| !b0.prefix.spec_matches(n))
}

/// A split loses nobody and duplicates nobody: the two children's members
/// partition the parent's members.
pub proof fn lemma_split_preserves_members(parent: Block, b0: Block, b1: Block)
    requires
        spec_split_pair(parent, b0, b1),
    ensures
        forall|y: Name|
            parent.members@.contains(y) <==> (b0.members@.contains(y) || b1.members@.contains(y)),
        forall|y: Name| !(b0.members@.contains(y) && b1.members@.contains(y)),
{
    let p0 = |n: Name| b0.prefix.spec_matches(n);
    let p1 = |n: Name| !b0.prefix.spec_matches(n);
    lemma_filter_subset(parent.members@, p0);
    lemma_filter_subset(parent.members@, p1);
    assert forall|y: Name|
        parent.members@.contains(y) <==> (b0.members@.contains(y) || b1.members@.contains(
            y,
        )) by {
        if parent.members@.contains(y) {
            let k = choose|k: int| 0 <= k < parent.members@.len() && parent.members@[k] == y;
            if p0(y) {
                Seq::lemma_filter_contains(parent.members@, p0, k);
            } else {
                Seq::lemma_filter_contains(parent.members@, p1, k);
            }
        }
    }
    assert forall|y: Name| !(b0.members@.contains(y) && b1.members@.contains(y)) by {
        if b0.members@.contains(y) {
            let k = choose|k: int| 0 <= k < b0.members@.len() && b0.members@[k] == y;
            Seq::lemma_filter_pred(parent.members@, p0, k);
        }
        if b1.members@.contains(y) {
            let k = choose|k: int| 0 <= k < b1.members@.len() && b1.members@[k] == y;
            Seq::lemma_filter_pred(parent.members@, p1, k);
        }
    }
}

/// If the block can split, insert its two children and return the two
/// votes, else return nothing.
pub fn split_block(
    blocks: &mut Blocks,
    block_id: BlockId,
    current_blocks: &Vec<BlockId>,
    min_split_size: usize,
) -> (r: Vec<Vote>)
    requires
        old(blocks).wf(),
        old(blocks).has(block_id),
        ids_stored(*old(blocks), current_blocks@),
    ensures
        final(blocks).wf(),
        forall|j: BlockId|
            old(blocks).has(j) ==> final(blocks).has(j) && final(blocks).spec_get(j) == old(
                blocks,
            ).spec_get(j),
        r@.len() == 0 || r@.len() == 2,
        (r@.len() == 2) <==> {
            let b = old(blocks).spec_get(block_id);
            b.version < u64::MAX && b.prefix.bit_count < 64 && b.half0_count() >= min_split_size
                && b.members@.len() - b.half0_count() >= min_split_size && spec_neighbours_ok(
                *old(blocks),
                current_blocks@,
                b,
                min_split_size as int,
            )
        },
        r@.len() == 2 ==> r@[0].from == block_id && r@[1].from == block_id && final(blocks).has(
            r@[0].to,
        ) && final(blocks).has(r@[1].to) && spec_split_pair(
            old(blocks).spec_get(block_id),
            final(blocks).spec_get(r@[0].to),
            final(blocks).spec_get(r@[1].to),
        ),
{
    let b = clone_block(block_id.into_block(blocks));
    if !(b.version < u64::MAX && b.should_split(min_split_size) && neighbours_ok(
        blocks,
        &b,
        current_blocks,
        min_split_size,
    )) {
        return Vec::new();
    }
    let p0 = b.prefix.pushed(false);
    let p1 = b.prefix.pushed(true);
    let s0 = names_matching(&b.members, &p0);
    let mut s1: Vec<Name> = Vec::new();
    let mut i: usize = 0;
    proof {
        assert(b.members@.take(0) =~= Seq::<Name>::empty());
        reveal(Seq::filter);
    }
    while i < b.members.len()
        invariant
            p0.wf(),
            i <= b.members@.len(),
            s1@ == b.members@.take(i as int).filter(|n: Name| !p0.spec_matches(n)),
        decreases b.members@.len() - i,
    {
        let e = b.members[i];
        proof {
            assert(b.members@.take(i + 1 as int).drop_last() =~= b.members@.take(i as int));
            Seq::lemma_filter_push(b.members@.take(i as int), e, |n: Name| !p0.spec_matches(n));
            assert(b.members@.take(i + 1 as int) == b.members@.take(i as int).push(e));
        }
        if !p0.matches(e) {
            s1.push(e);
        }
        i = i + 1;
    }
    proof {
        assert(b.members@.take(b.members@.len() as int) =~= b.members@);
        crate::members::lemma_sorted_filter(b.members@, |n: Name| !p0.spec_matches(n));
    }
    let b0 = Block { prefix: p0, version: b.version + 1, members: s0 };
    let b1 = Block { prefix: p1, version: b.version + 1, members: s1 };
    let ghost gb0 = b0;
    let ghost gb1 = b1;
    let id0 = blocks.insert(b0);
    let id1 = blocks.insert(b1);
    let mut votes: Vec<Vote> = Vec::new();
    votes.push(Vote { from: block_id, to: id0 });
    votes.push(Vote { from: block_id, to: id1 });
    proof {
        assert(votes@.len() == 2);
        assert(votes@[0] == Vote { from: block_id, to: id0 });
        assert(votes@[1] == Vote { from: block_id, to: id1 });
        let f0 = blocks.spec_get(id0);
        let f1 = blocks.spec_get(id1);
        assert(beq(f0, gb0));
        assert(beq(f1, gb1));
        lemma_filter_ptwise(
            b.members@,
            |n: Name| f0.prefix.spec_matches(n),
            |n: Name| p0.spec_matches(n),
        );
        lemma_filter_ptwise(
            b.members@,
            |n: Name| !f0.prefix.spec_matches(n),
            |n: Name| !p0.spec_matches(n),
        );
        assert(spec_split_pair(old(blocks).spec_get(block_id), f0, f1));
    }
    votes
}

/// The block `id` points at can split now: both halves and all
/// neighbouring-or-compatible current blocks are large enough.
pub open spec fn spec_can_split(
    store: Blocks,
    current: Seq<BlockId>,
    id: BlockId,
    min_split_size: int,
) -> bool {
    let b = store.spec_get(id);
    &&& b.version < u64::MAX
    &&& b.prefix.bit_count < 64
    &&& b.half0_count() >= min_split_size
    &&& b.members@.len() - b.half0_count() >= min_split_size
    &&& spec_neighbours_ok(store, current, b, min_split_size)
}

/// Produce split votes for every current block we belong to that can
/// split: the votes come in pairs, one pair per splitting block, whose
/// targets partition the parent's members, and a pair is produced for
/// exactly the blocks that can split.
pub fn split_blocks(
    blocks: &mut Blocks,
    current_blocks: &Vec<BlockId>,
    our_name: Name,
    min_split_size: usize,
) -> (r: Vec<Vote>)
    requires
        old(blocks).wf(),
        ids_stored(*old(blocks), current_blocks@),
    ensures
        final(blocks).wf(),
        forall|j: BlockId|
            old(blocks).has(j) ==> final(blocks).has(j) && final(blocks).spec_get(j) == old(
                blocks,
            ).spec_get(j),
        r@.len() % 2 == 0,
        forall|k: int|
            0 <= k < r@.len() && k % 2 == 0 ==> {
                let v0 = #[trigger] r@[k];
                let v1 = r@[k + 1];
                &&& v0.from == v1.from
                &&& current_blocks@.contains(v0.from)
                &&& final(blocks).has(v0.from)
                &&& final(blocks).has(v0.to)
                &&& final(blocks).has(v1.to)
                &&& final(blocks).spec_get(v0.from).members@.contains(our_name)
                &&& spec_split_pair(
                    final(blocks).spec_get(v0.from),
                    final(blocks).spec_get(v0.to),
                    final(blocks).spec_get(v1.to),
                )
            },
        forall|id: BlockId|
            #[trigger] current_blocks@.contains(id) && final(blocks).spec_get(
                id,
            ).members@.contains(our_name) && spec_can_split(
                *final(blocks),
                current_blocks@,
                id,
                min_split_size as int,
            ) ==> exists|k: int|
                0 <= k < r@.len() && k % 2 == 0 && (#[trigger] r@[k]).from == id,
{
    let ours = blocks.our_blocks(current_blocks, our_name);
    proof {
        crate::members::lemma_filter_subset(
            current_blocks@,
            |id: BlockId| blocks.spec_get(id).members@.contains(our_name),
        );
        assert forall|k: int|
            0 <= k < ours@.len() implies current_blocks@.contains(#[trigger] ours@[k])
            && blocks.spec_get(ours@[k]).members@.contains(our_name) by {
            Seq::lemma_filter_pred(
                current_blocks@,
                |id: BlockId| blocks.spec_get(id).members@.contains(our_name),
                k,
            );
            assert(ours@.contains(ours@[k]));
        }
        assert forall|id: BlockId|
            current_blocks@.contains(id) && blocks.spec_get(id).members@.contains(
                our_name,
            ) implies ours@.contains(id) by {
            let m = choose|m: int| 0 <= m < current_blocks@.len() && current_blocks@[m] == id;
            Seq::lemma_filter_contains(
                current_blocks@,
                |id: BlockId| blocks.spec_get(id).members@.contains(our_name),
                m,
            );
        }
    }
    let mut votes: Vec<Vote> = Vec::new();
    let mut i: usize = 0;
    while i < ours.len()
        invariant
            blocks.wf(),
            ids_stored(*blocks, current_blocks@),
            ids_stored(*blocks, ours@),
            i <= ours@.len(),
            forall|j: BlockId|
                old(blocks).has(j) ==> blocks.has(j) && blocks.spec_get(j) == old(
                    blocks,
                ).spec_get(j),
            forall|k: int|
                0 <= k < ours@.len() ==> current_blocks@.contains(#[trigger] ours@[k])
                    && blocks.spec_get(ours@[k]).members@.contains(our_name),
            forall|id: BlockId|
                current_blocks@.contains(id) && blocks.spec_get(id).members@.contains(our_name)
                    ==> ours@.contains(id),
            votes@.len() % 2 == 0,
            forall|k: int|
                0 <= k < votes@.len() && k % 2 == 0 ==> {
                    let v0 = #[trigger] votes@[k];
                    let v1 = votes@[k + 1];
                    &&& v0.from == v1.from
                    &&& current_blocks@.contains(v0.from)
                    &&& blocks.has(v0.from)
                    &&& blocks.has(v0.to)
                    &&& blocks.has(v1.to)
                    &&& blocks.spec_get(v0.from).members@.contains(our_name)
                    &&& spec_split_pair(
                        blocks.spec_get(v0.from),
                        blocks.spec_get(v0.to),
                        blocks.spec_get(v1.to),
                    )
                },
            forall|m: int|
                0 <= m < i && spec_can_split(
                    *blocks,
                    current_blocks@,
                    #[trigger] ours@[m],
                    min_split_size as int,
                ) ==> exists|k: int|
                    0 <= k < votes@.len() && k % 2 == 0 && (#[trigger] votes@[k]).from
                        == ours@[m],
        decreases ours@.len() - i,
    {
        let id = ours[i];
        let ghost prestore = *blocks;
        let ghost prevotes = votes@;
        let vs = split_block(blocks, id, current_blocks, min_split_size);
        proof {
            // The store only grew: every recorded fact carries over.
            assert forall|k: int|
                0 <= k < votes@.len() && k % 2 == 0 implies {
                let v0 = #[trigger] votes@[k];
                let v1 = votes@[k + 1];
                &&& v0.from == v1.from
                &&& current_blocks@.contains(v0.from)
                &&& blocks.has(v0.from)
                &&& blocks.has(v0.to)
                &&& blocks.has(v1.to)
                &&& blocks.spec_get(v0.from).members@.contains(our_name)
                &&& spec_split_pair(
                    blocks.spec_get(v0.from),
                    blocks.spec_get(v0.to),
                    blocks.spec_get(v1.to),
                )
            } by {
                assert(blocks.spec_get(votes@[k].from) == prestore.spec_get(votes@[k].from));
                assert(blocks.spec_get(votes@[k].to) == prestore.spec_get(votes@[k].to));
                assert(blocks.spec_get(votes@[k + 1].to) == prestore.spec_get(
                    votes@[k + 1].to,
                ));
            }
        }
        if vs.len() == 2 {
            let v0 = vs[0];
            let v1 = vs[1];
            votes.push(v0);
            votes.push(v1);
            proof {
                assert(votes@[prevotes.len() as int] == v0);
                assert(votes@[prevotes.len() as int + 1] == v1);
            }
        }
        proof {
            assert forall|m: int|
                0 <= m < i + 1 && spec_can_split(
                    *blocks,
                    current_blocks@,
                    #[trigger] ours@[m],
                    min_split_size as int,
                ) implies exists|k: int|
                0 <= k < votes@.len() && k % 2 == 0 && (#[trigger] votes@[k]).from
                    == ours@[m] by {
                if m < i {
                    let k = choose|k: int|
                        0 <= k < prevotes.len() && k % 2 == 0 && (#[trigger] prevotes[k]).from
                            == ours@[m];
                    assert(votes@[k] == prevotes[k]);
                } else {
                    assert(spec_can_split(
                        prestore,
                        current_blocks@,
                        id,
                        min_split_size as int,
                    )) by {
                        assert(blocks.spec_get(id) == prestore.spec_get(id));
                        assert forall|c: int|
                            0 <= c < current_blocks@.len() implies blocks.spec_get(
                            #[trigger] current_blocks@[c],
                        ) == prestore.spec_get(current_blocks@[c]) by {}
                    }
                    assert(vs@.len() == 2);
                    assert(votes@[prevotes.len() as int].from == id);
                    assert(prevotes.len() % 2 == 0);
                }
            }
        }
        i = i + 1;
    }
    votes
}

/// True when every current block neighbouring or overlapping `block` can
/// afford the split.
fn neighbours_ok(
    blocks: &Blocks,
    block: &Block,
    current_blocks: &Vec<BlockId>,
    min_split_size: usize,
) -> (r: bool)
    requires
        blocks.wf(),
        ids_stored(*blocks, current_blocks@),
        block.wf(),
    ensures
        r == spec_neighbours_ok(*blocks, current_blocks@, *block, min_split_size as int),
{
    let mut i: usize = 0;
    while i < current_blocks.len()
        invariant
            blocks.wf(),
            ids_stored(*blocks, current_blocks@),
            block.wf(),
            i <= current_blocks@.len(),
            forall|k: int|
                0 <= k < i ==> ((blocks.spec_get(
                    #[trigger] current_blocks@[k],
                ).prefix.spec_neighbour(block.prefix) || blocks.spec_get(
                    current_blocks@[k],
                ).prefix.spec_compatible(block.prefix)) ==> blocks.spec_get(
                    current_blocks@[k],
                ).members@.len() >= min_split_size),
        decreases current_blocks@.len() - i,
    {
        let other = current_blocks[i].into_block(blocks);
        if other.prefix.is_neighbour(&block.prefix) || other.prefix.is_compatible(&block.prefix) {
            if other.members.len() < min_split_size {
                return false;
            }
        }
        i = i + 1;
    }
    true
}

} // verus!
