//! The merge rules: an undersized section, or one whose connected
//! membership has fallen to half, votes to merge with its sibling.

use vstd::prelude::*;
use crate::block::{beq, clone_block, extends_one, Block, BlockId, Vote};
use crate::blocks::{contains_vote, ids_stored, Blocks};
use crate::members::{count_in, union_names};
use crate::name::{bit_at, Name, Prefix};

verus! {

/// Two prefixes of the same positive depth that differ exactly in their
/// last bit.
pub open spec fn spec_siblings(p: Prefix, q: Prefix) -> bool {
    &&& p.bit_count == q.bit_count
    &&& p.bit_count > 0
    &&& bit_at(p.name.0, p.bit_count - 1) != bit_at(q.name.0, p.bit_count - 1)
    &&& forall|k: int|
        0 <= k < 64 && k != p.bit_count - 1 ==> bit_at(p.name.0, k) == bit_at(q.name.0, k)
}

/// The target of a merge of two sibling blocks: the parent prefix, a
/// version above both, and exactly the union of the members.
pub open spec fn spec_merge_target(a: Block, b: Block, t: Block) -> bool {
    &&& extends_one(a.prefix, t.prefix)
    &&& extends_one(b.prefix, t.prefix)
    &&& t.version == (if a.version >= b.version {
        a.version
    } else {
        b.version
    }) + 1
    &&& forall|y: Name| t.members@.contains(y) <==> (a.members@.contains(y) || b.members@.contains(y))
}

/// A prefix has at most one sibling: two prefixes that both differ from
/// `p` exactly in its last bit are equal.
pub proof fn lemma_sibling_unique(p: Prefix, q1: Prefix, q2: Prefix)
    requires
        spec_siblings(p, q1),
        spec_siblings(p, q2),
    ensures
        q1 == q2,
{
    assert forall|k: int| 0 <= k < 64 implies bit_at(q1.name.0, k) == bit_at(q2.name.0, k) by {
        if k != p.bit_count - 1 {
            assert(bit_at(q1.name.0, k) == bit_at(p.name.0, k));
            assert(bit_at(q2.name.0, k) == bit_at(p.name.0, k));
        }
    }
    crate::name::lemma_u64_bit_ext(q1.name.0, q2.name.0);
}

/// Build the block two sibling blocks merge into: their parent prefix, a
/// version above both, and the union of their members.
pub fn merged_block(b0: &Block, b1: &Block) -> (r: Block)
    requires
        b0.wf(),
        b1.wf(),
        spec_siblings(b0.prefix, b1.prefix),
        b0.version < u64::MAX,
        b1.version < u64::MAX,
    ensures
        r.wf(),
        spec_merge_target(*b0, *b1, r),
{
    let prefix = b0.prefix.popped();
    let version = if b0.version >= b1.version {
        b0.version
    } else {
        b1.version
    };
    let members = union_names(&b0.members, &b1.members);
    proof {
        assert(extends_one(b0.prefix, prefix));
        assert(extends_one(b1.prefix, prefix)) by {
            assert forall|k: int|
                0 <= k < prefix.bit_count implies bit_at(prefix.name.0, k) == bit_at(
                b1.prefix.name.0,
                k,
            ) by {
                assert(bit_at(prefix.name.0, k) == bit_at(b0.prefix.name.0, k));
                assert(bit_at(b0.prefix.name.0, k) == bit_at(b1.prefix.name.0, k));
            }
        }
    }
    Block { prefix, version: version + 1, members }
}

/// The connected part of the block's membership has fallen to half or
/// less.
pub open spec fn spec_lost_quorum(b: Block, connections: Seq<Name>) -> bool {
    b.members@.filter(|y: Name| connections.contains(y)).len() * 2 <= b.members@.len()
}

/// The size rule owes a merge vote from `cid`: we sit in the undersized
/// current block `cid`, and `sid` is a current block under its sibling
/// prefix.
pub open spec fn spec_merge_owed_own(
    store: Blocks,
    current: Seq<BlockId>,
    our_name: Name,
    min_section_size: int,
    cid: BlockId,
    sid: BlockId,
) -> bool {
    let c = store.spec_get(cid);
    let s = store.spec_get(sid);
    &&& current.contains(cid)
    &&& current.contains(sid)
    &&& c.prefix.bit_count > 0
    &&& c.members@.len() < min_section_size
    &&& c.members@.contains(our_name)
    &&& c.version < u64::MAX
    &&& s.version < u64::MAX
    &&& spec_siblings(c.prefix, s.prefix)
}

/// The force rule owes a merge vote from our block `oid`: the current
/// block `cid` under our sibling prefix has lost its quorum of live
/// connections.
pub open spec fn spec_merge_owed_force(
    store: Blocks,
    current: Seq<BlockId>,
    connections: Seq<Name>,
    our_name: Name,
    cid: BlockId,
    oid: BlockId,
) -> bool {
    let c = store.spec_get(cid);
    let o = store.spec_get(oid);
    &&& current.contains(cid)
    &&& current.contains(oid)
    &&& spec_lost_quorum(c, connections)
    &&& c.version < u64::MAX
    &&& o.members@.contains(our_name)
    &&& o.version < u64::MAX
    &&& spec_siblings(o.prefix, c.prefix)
}

/// The connected part of a block's membership has fallen to half or less.
pub fn lost_quorum(block: &Block, connections: &Vec<Name>) -> (r: bool)
    ensures
        r == spec_lost_quorum(*block, connections@),
{
    let num_active = count_in(&block.members, connections);
    proof {
        block.members@.lemma_filter_len(|y: Name| connections@.contains(y));
    }
    num_active <= block.members.len() / 2
}

/// One planned merge vote: cast from `from`, toward the merge of the two
/// current sibling blocks `ia` and `ib`.
struct MergePlan {
    from: BlockId,
    ia: BlockId,
    ib: BlockId,
    target: Block,
}

/// The planned vote is sound with respect to the store and current set.
spec fn plan_ok(store: Blocks, current: Seq<BlockId>, p: MergePlan) -> bool {
    &&& current.contains(p.from)
    &&& current.contains(p.ia)
    &&& current.contains(p.ib)
    &&& store.has(p.from) && store.has(p.ia) && store.has(p.ib)
    &&& p.from == p.ia || p.from == p.ib
    &&& spec_siblings(store.spec_get(p.ia).prefix, store.spec_get(p.ib).prefix)
    &&& p.target.wf()
    &&& spec_merge_target(store.spec_get(p.ia), store.spec_get(p.ib), p.target)
}

/// Produce merge votes for every undersized or quorum-starved current
/// block, as seen from our node. Every returned vote is cast from a
/// current block we are entitled to vote from, toward the merge of two
/// current sibling blocks.
pub fn merge_blocks(
    blocks: &mut Blocks,
    current_blocks: &Vec<BlockId>,
    connections: &Vec<Name>,
    our_name: Name,
    min_section_size: usize,
) -> (r: Vec<Vote>)
    requires
        old(blocks).wf(),
        ids_stored(*old(blocks), current_blocks@),
    ensures
        final(blocks).wf(),
        forall|j: BlockId|
            old(blocks).has(j) ==> final(blocks).has(j) && final(blocks).spec_get(j) == old(
                blocks,
            ).spec_get(j),
        forall|k: int|
            0 <= k < r@.len() ==> {
                let v = #[trigger] r@[k];
                &&& current_blocks@.contains(v.from)
                &&& final(blocks).has(v.from)
                &&& final(blocks).has(v.to)
                &&& exists|ia: BlockId, ib: BlockId|
                    #![auto]
                    current_blocks@.contains(ia) && current_blocks@.contains(ib) && (v.from == ia
                        || v.from == ib) && spec_siblings(
                        final(blocks).spec_get(ia).prefix,
                        final(blocks).spec_get(ib).prefix,
                    ) && spec_merge_target(
                        final(blocks).spec_get(ia),
                        final(blocks).spec_get(ib),
                        final(blocks).spec_get(v.to),
                    )
            },
        forall|cid: BlockId, sid: BlockId|
            #[trigger] spec_merge_owed_own(
                *final(blocks),
                current_blocks@,
                our_name,
                min_section_size as int,
                cid,
                sid,
            ) ==> exists|k: int|
                0 <= k < r@.len() && (#[trigger] r@[k]).from == cid && spec_merge_target(
                    final(blocks).spec_get(cid),
                    final(blocks).spec_get(sid),
                    final(blocks).spec_get(r@[k].to),
                ),
        forall|cid: BlockId, oid: BlockId|
            #[trigger] spec_merge_owed_force(
                *final(blocks),
                current_blocks@,
                connections@,
                our_name,
                cid,
                oid,
            ) ==> exists|k: int|
                0 <= k < r@.len() && (#[trigger] r@[k]).from == oid && spec_merge_target(
                    final(blocks).spec_get(cid),
                    final(blocks).spec_get(oid),
                    final(blocks).spec_get(r@[k].to),
                ),
{
    let ghost prestore = *blocks;
    let mut plans: Vec<MergePlan> = Vec::new();
    merge_rule(blocks, current_blocks, our_name, min_section_size, &mut plans);
    let ghost plans1 = plans@;
    force_merge_rule(blocks, current_blocks, connections, our_name, &mut plans);
    proof {
        // Both rules' owed plans survive in the combined list.
        assert forall|cid: BlockId, sid: BlockId|
            #[trigger] spec_merge_owed_own(
                prestore,
                current_blocks@,
                our_name,
                min_section_size as int,
                cid,
                sid,
            ) implies exists|pi: int|
            0 <= pi < plans@.len() && (#[trigger] plans@[pi]).from == cid && spec_merge_target(
                prestore.spec_get(cid),
                prestore.spec_get(sid),
                plans@[pi].target,
            ) by {
            let k = choose|k: int|
                0 <= k < plans1.len() && (#[trigger] plans1[k]).from == cid && spec_merge_target(
                    prestore.spec_get(cid),
                    prestore.spec_get(sid),
                    plans1[k].target,
                );
            assert(plans@[k] == plans1[k]);
        }
    }
    // Insert the planned targets and emit the (deduplicated) votes.
    let mut votes: Vec<Vote> = Vec::new();
    let mut i: usize = 0;
    while i < plans.len()
        invariant
            blocks.wf(),
            ids_stored(*blocks, current_blocks@),
            i <= plans@.len(),
            forall|j: BlockId|
                old(blocks).has(j) ==> blocks.has(j) && blocks.spec_get(j) == old(
                    blocks,
                ).spec_get(j),
            forall|k: int| 0 <= k < plans@.len() ==> plan_ok(*blocks, current_blocks@, #[trigger] plans@[k]),
            forall|pi: int|
                #![trigger plans@[pi]]
                0 <= pi < i ==> exists|k: int|
                    #![trigger votes@[k]]
                    0 <= k < votes@.len() && votes@[k].from == plans@[pi].from && beq(
                        blocks.spec_get(votes@[k].to),
                        plans@[pi].target,
                    ),
            forall|k: int|
                0 <= k < votes@.len() ==> {
                    let v = #[trigger] votes@[k];
                    &&& current_blocks@.contains(v.from)
                    &&& blocks.has(v.from)
                    &&& blocks.has(v.to)
                    &&& exists|ia: BlockId, ib: BlockId|
                        #![auto]
                        current_blocks@.contains(ia) && current_blocks@.contains(ib) && (v.from
                            == ia || v.from == ib) && spec_siblings(
                            blocks.spec_get(ia).prefix,
                            blocks.spec_get(ib).prefix,
                        ) && spec_merge_target(
                            blocks.spec_get(ia),
                            blocks.spec_get(ib),
                            blocks.spec_get(v.to),
                        )
                },
        decreases plans@.len() - i,
    {
        let ghost prestore = *blocks;
        let ghost prevotes = votes@;
        let target = clone_block(&plans[i].target);
        let target_id = blocks.insert(target);
        let vote = Vote { from: plans[i].from, to: target_id };
        proof {
            // The store only grew: every earlier fact carries over.
            assert forall|k: int|
                0 <= k < plans@.len() implies plan_ok(
                *blocks,
                current_blocks@,
                #[trigger] plans@[k],
            ) by {
                assert(plan_ok(prestore, current_blocks@, plans@[k]));
                assert(blocks.spec_get(plans@[k].ia) == prestore.spec_get(plans@[k].ia));
                assert(blocks.spec_get(plans@[k].ib) == prestore.spec_get(plans@[k].ib));
            }
            assert forall|k: int|
                0 <= k < votes@.len() implies {
                let v = #[trigger] votes@[k];
                &&& current_blocks@.contains(v.from)
                &&& blocks.has(v.from)
                &&& blocks.has(v.to)
                &&& exists|ia: BlockId, ib: BlockId|
                    #![auto]
                    current_blocks@.contains(ia) && current_blocks@.contains(ib) && (v.from == ia
                        || v.from == ib) && spec_siblings(
                        blocks.spec_get(ia).prefix,
                        blocks.spec_get(ib).prefix,
                    ) && spec_merge_target(
                        blocks.spec_get(ia),
                        blocks.spec_get(ib),
                        blocks.spec_get(v.to),
                    )
            } by {
                let v = votes@[k];
                let (ia, ib) = choose|ia: BlockId, ib: BlockId|
                    #![auto]
                    current_blocks@.contains(ia) && current_blocks@.contains(ib) && (v.from == ia
                        || v.from == ib) && spec_siblings(
                        prestore.spec_get(ia).prefix,
                        prestore.spec_get(ib).prefix,
                    ) && spec_merge_target(
                        prestore.spec_get(ia),
                        prestore.spec_get(ib),
                        prestore.spec_get(v.to),
                    );
                assert(blocks.spec_get(ia) == prestore.spec_get(ia));
                assert(blocks.spec_get(ib) == prestore.spec_get(ib));
                assert(blocks.spec_get(v.to) == prestore.spec_get(v.to));
            }
            // The inserted target realises the plan's merge target.
            let p = plans@[i as int];
            assert(beq(blocks.spec_get(target_id), p.target));
            assert(spec_merge_target(
                blocks.spec_get(p.ia),
                blocks.spec_get(p.ib),
                blocks.spec_get(target_id),
            ));
        }
        let dup = contains_vote(&votes, vote);
        if !dup {
            let ghost prev = votes@;
            votes.push(vote);
            proof {
                assert(votes@ == prev.push(vote));
                let p = plans@[i as int];
                assert(current_blocks@.contains(p.ia) && current_blocks@.contains(p.ib) && (
                vote.from == p.ia || vote.from == p.ib) && spec_siblings(
                    blocks.spec_get(p.ia).prefix,
                    blocks.spec_get(p.ib).prefix,
                ) && spec_merge_target(
                    blocks.spec_get(p.ia),
                    blocks.spec_get(p.ib),
                    blocks.spec_get(vote.to),
                ));
                assert(votes@[votes@.len() - 1] == vote);
                assert(forall|k: int| 0 <= k < prev.len() ==> votes@[k] == prev[k]);
            }
        }
        proof {
            // Each processed plan has a matching vote, new or already
            // emitted.
            assert forall|pi: int|
                #![trigger plans@[pi]]
                0 <= pi < i + 1 implies exists|k: int|
                #![trigger votes@[k]]
                0 <= k < votes@.len() && votes@[k].from == plans@[pi].from && beq(
                    blocks.spec_get(votes@[k].to),
                    plans@[pi].target,
                ) by {
                if pi < i {
                    let k = choose|k: int|
                        #![trigger prevotes[k]]
                        0 <= k < prevotes.len() && prevotes[k].from == plans@[pi].from && beq(
                            prestore.spec_get(prevotes[k].to),
                            plans@[pi].target,
                        );
                    assert(votes@[k] == prevotes[k]);
                    assert(blocks.spec_get(votes@[k].to) == prestore.spec_get(prevotes[k].to));
                } else {
                    let p = plans@[i as int];
                    assert(beq(blocks.spec_get(target_id), p.target));
                    if dup {
                        let k = choose|k: int|
                            0 <= k < prevotes.len() && prevotes[k] == vote;
                        assert(votes@[k] == vote);
                    } else {
                        assert(votes@[votes@.len() - 1] == vote);
                    }
                }
            }
        }
        i = i + 1;
    }
    proof {
        assert forall|cid: BlockId, sid: BlockId|
            #[trigger] spec_merge_owed_own(
                *blocks,
                current_blocks@,
                our_name,
                min_section_size as int,
                cid,
                sid,
            ) implies exists|k: int|
            0 <= k < votes@.len() && (#[trigger] votes@[k]).from == cid && spec_merge_target(
                blocks.spec_get(cid),
                blocks.spec_get(sid),
                blocks.spec_get(votes@[k].to),
            ) by {
            let mc = choose|mc: int|
                0 <= mc < current_blocks@.len() && current_blocks@[mc] == cid;
            let ms = choose|ms: int|
                0 <= ms < current_blocks@.len() && current_blocks@[ms] == sid;
            assert(prestore.has(cid) && prestore.has(sid));
            assert(blocks.spec_get(cid) == prestore.spec_get(cid));
            assert(blocks.spec_get(sid) == prestore.spec_get(sid));
            assert(spec_merge_owed_own(
                prestore,
                current_blocks@,
                our_name,
                min_section_size as int,
                cid,
                sid,
            ));
            let pi = choose|pi: int|
                0 <= pi < plans@.len() && (#[trigger] plans@[pi]).from == cid
                    && spec_merge_target(
                    prestore.spec_get(cid),
                    prestore.spec_get(sid),
                    plans@[pi].target,
                );
            let k = choose|k: int|
                #![trigger votes@[k]]
                0 <= k < votes@.len() && votes@[k].from == plans@[pi].from && beq(
                    blocks.spec_get(votes@[k].to),
                    plans@[pi].target,
                );
            let t1 = plans@[pi].target;
            let t2 = blocks.spec_get(votes@[k].to);
            assert(t2.prefix == t1.prefix && t2.version == t1.version && t2.members@
                == t1.members@);
            assert(spec_merge_target(blocks.spec_get(cid), blocks.spec_get(sid), t2));
        }
        assert forall|cid: BlockId, oid: BlockId|
            #[trigger] spec_merge_owed_force(
                *blocks,
                current_blocks@,
                connections@,
                our_name,
                cid,
                oid,
            ) implies exists|k: int|
            0 <= k < votes@.len() && (#[trigger] votes@[k]).from == oid && spec_merge_target(
                blocks.spec_get(cid),
                blocks.spec_get(oid),
                blocks.spec_get(votes@[k].to),
            ) by {
            let mc = choose|mc: int|
                0 <= mc < current_blocks@.len() && current_blocks@[mc] == cid;
            let mo = choose|mo: int|
                0 <= mo < current_blocks@.len() && current_blocks@[mo] == oid;
            assert(prestore.has(cid) && prestore.has(oid));
            assert(blocks.spec_get(cid) == prestore.spec_get(cid));
            assert(blocks.spec_get(oid) == prestore.spec_get(oid));
            assert(spec_merge_owed_force(
                prestore,
                current_blocks@,
                connections@,
                our_name,
                cid,
                oid,
            ));
            let pi = choose|pi: int|
                0 <= pi < plans@.len() && (#[trigger] plans@[pi]).from == oid
                    && spec_merge_target(
                    prestore.spec_get(cid),
                    prestore.spec_get(oid),
                    plans@[pi].target,
                );
            let k = choose|k: int|
                #![trigger votes@[k]]
                0 <= k < votes@.len() && votes@[k].from == plans@[pi].from && beq(
                    blocks.spec_get(votes@[k].to),
                    plans@[pi].target,
                );
            let t1 = plans@[pi].target;
            let t2 = blocks.spec_get(votes@[k].to);
            assert(t2.prefix == t1.prefix && t2.version == t1.version && t2.members@
                == t1.members@);
            assert(spec_merge_target(blocks.spec_get(cid), blocks.spec_get(oid), t2));
        }
    }
    votes
}

/// Plan merge votes for current blocks below the minimum section size:
/// one plan from the undersized block we sit in toward each current block
/// under its sibling prefix.
fn merge_rule(
    blocks: &Blocks,
    current_blocks: &Vec<BlockId>,
    our_name: Name,
    min_section_size: usize,
    plans: &mut Vec<MergePlan>,
)
    requires
        blocks.wf(),
        ids_stored(*blocks, current_blocks@),
        forall|k: int|
            0 <= k < old(plans)@.len() ==> plan_ok(
                *blocks,
                current_blocks@,
                #[trigger] old(plans)@[k],
            ),
    ensures
        forall|k: int|
            0 <= k < final(plans)@.len() ==> plan_ok(
                *blocks,
                current_blocks@,
                #[trigger] final(plans)@[k],
            ),
        final(plans)@.len() >= old(plans)@.len(),
        forall|k: int| 0 <= k < old(plans)@.len() ==> final(plans)@[k] == old(plans)@[k],
        forall|cid: BlockId, sid: BlockId|
            #[trigger] spec_merge_owed_own(
                *blocks,
                current_blocks@,
                our_name,
                min_section_size as int,
                cid,
                sid,
            ) ==> exists|k: int|
                0 <= k < final(plans)@.len() && (#[trigger] final(plans)@[k]).from == cid
                    && spec_merge_target(
                    blocks.spec_get(cid),
                    blocks.spec_get(sid),
                    final(plans)@[k].target,
                ),
{
    let mut ci: usize = 0;
    while ci < current_blocks.len()
        invariant
            blocks.wf(),
            ids_stored(*blocks, current_blocks@),
            ci <= current_blocks@.len(),
            forall|k: int|
                0 <= k < plans@.len() ==> plan_ok(*blocks, current_blocks@, #[trigger] plans@[k]),
            plans@.len() >= old(plans)@.len(),
            forall|k: int| 0 <= k < old(plans)@.len() ==> plans@[k] == old(plans)@[k],
            forall|m: int, sid: BlockId|
                0 <= m < ci && #[trigger] spec_merge_owed_own(
                    *blocks,
                    current_blocks@,
                    our_name,
                    min_section_size as int,
                    current_blocks@[m],
                    sid,
                ) ==> exists|k: int|
                    0 <= k < plans@.len() && (#[trigger] plans@[k]).from == current_blocks@[m]
                        && spec_merge_target(
                        blocks.spec_get(current_blocks@[m]),
                        blocks.spec_get(sid),
                        plans@[k].target,
                    ),
        decreases current_blocks@.len() - ci,
    {
        let cand_id = current_blocks[ci];
        let cand = clone_block(cand_id.into_block(blocks));
        let ghost preplans = plans@;
        let small = cand.prefix.bit_count() > 0 && cand.members.len() < min_section_size;
        let in_block = crate::members::contains_name(&cand.members, our_name);
        if small && cand.version < u64::MAX {
            if in_block {
                // We are in the undersized block: merge with every current
                // block under the sibling prefix.
                let sib = cand.prefix.sibling();
                if let Some(sibling_prefix) = sib {
                    let sibs = blocks.blocks_for_prefix(current_blocks, &sibling_prefix);
                    proof {
                        lemma_for_prefix_props(*blocks, current_blocks@, sibling_prefix, sibs@);
                    }
                    let mut si: usize = 0;
                    while si < sibs.len()
                        invariant
                            blocks.wf(),
                            ids_stored(*blocks, current_blocks@),
                            ids_stored(*blocks, sibs@),
                            si <= sibs@.len(),
                            blocks.has(cand_id),
                            current_blocks@.contains(cand_id),
                            cand.wf(),
                            beq(cand, blocks.spec_get(cand_id)),
                            cand.version < u64::MAX,
                            spec_siblings(cand.prefix, sibling_prefix),
                            forall|k: int|
                                0 <= k < sibs@.len() ==> current_blocks@.contains(
                                    #[trigger] sibs@[k],
                                ) && blocks.spec_get(sibs@[k]).prefix == sibling_prefix,
                            forall|k: int|
                                0 <= k < plans@.len() ==> plan_ok(
                                    *blocks,
                                    current_blocks@,
                                    #[trigger] plans@[k],
                                ),
                            plans@.len() >= preplans.len(),
                            forall|k: int| 0 <= k < preplans.len() ==> plans@[k] == preplans[k],
                            forall|m2: int|
                                0 <= m2 < si && blocks.spec_get(
                                    #[trigger] sibs@[m2],
                                ).version < u64::MAX ==> exists|k: int|
                                    0 <= k < plans@.len() && (#[trigger] plans@[k]).from == cand_id
                                        && spec_merge_target(
                                        blocks.spec_get(cand_id),
                                        blocks.spec_get(sibs@[m2]),
                                        plans@[k].target,
                                    ),
                        decreases sibs@.len() - si,
                    {
                        let sib_id = sibs[si];
                        let sib_block = clone_block(sib_id.into_block(blocks));
                        let ghost preinner = plans@;
                        if sib_block.version < u64::MAX {
                            let target = merged_block(&cand, &sib_block);
                            let plan = MergePlan { from: cand_id, ia: cand_id, ib: sib_id, target };
                            let ghost pre = plans@;
                            plans.push(plan);
                            proof {
                                assert(plans@ == pre.push(plan));
                                assert(spec_merge_target(
                                    blocks.spec_get(cand_id),
                                    blocks.spec_get(sib_id),
                                    plans@[plans@.len() - 1].target,
                                ));
                            }
                        }
                        proof {
                            assert forall|m2: int|
                                0 <= m2 < si + 1 && blocks.spec_get(
                                    #[trigger] sibs@[m2],
                                ).version < u64::MAX implies exists|k: int|
                                0 <= k < plans@.len() && (#[trigger] plans@[k]).from == cand_id
                                    && spec_merge_target(
                                    blocks.spec_get(cand_id),
                                    blocks.spec_get(sibs@[m2]),
                                    plans@[k].target,
                                ) by {
                                if m2 < si {
                                    let k = choose|k: int|
                                        0 <= k < preinner.len() && (#[trigger] preinner[k]).from
                                            == cand_id && spec_merge_target(
                                            blocks.spec_get(cand_id),
                                            blocks.spec_get(sibs@[m2]),
                                            preinner[k].target,
                                        );
                                    assert(plans@[k] == preinner[k]);
                                } else {
                                    assert(plans@[plans@.len() - 1].from == cand_id);
                                }
                            }
                        }
                        si = si + 1;
                    }
                    proof {
                        // Every owed sibling target now has its plan.
                        assert forall|sid: BlockId|
                            #[trigger] spec_merge_owed_own(
                                *blocks,
                                current_blocks@,
                                our_name,
                                min_section_size as int,
                                cand_id,
                                sid,
                            ) implies exists|k: int|
                            0 <= k < plans@.len() && (#[trigger] plans@[k]).from == cand_id
                                && spec_merge_target(
                                blocks.spec_get(cand_id),
                                blocks.spec_get(sid),
                                plans@[k].target,
                            ) by {
                            let c = blocks.spec_get(cand_id);
                            let s = blocks.spec_get(sid);
                            assert(spec_siblings(c.prefix, sibling_prefix));
                            lemma_sibling_unique(c.prefix, s.prefix, sibling_prefix);
                            assert(sibs@.contains(sid));
                            let m2 = choose|m2: int|
                                0 <= m2 < sibs@.len() && sibs@[m2] == sid;
                            assert(blocks.spec_get(sibs@[m2]).version < u64::MAX);
                        }
                    }
                }
            } else {
                // The undersized block is elsewhere: if it is the sibling
                // of an ancestor of one of our blocks, merge our block with
                // the blocks under our own sibling prefix.
                let sib = cand.prefix.sibling();
                if let Some(cand_sibling_pfx) = sib {
                    let ours = blocks.our_blocks(current_blocks, our_name);
                    proof {
                        lemma_ours_props(*blocks, current_blocks@, our_name, ours@);
                    }
                    let mut oi: usize = 0;
                    while oi < ours.len()
                        invariant
                            blocks.wf(),
                            ids_stored(*blocks, current_blocks@),
                            ids_stored(*blocks, ours@),
                            oi <= ours@.len(),
                            cand_sibling_pfx.wf(),
                            forall|k: int|
                                0 <= k < ours@.len() ==> current_blocks@.contains(
                                    #[trigger] ours@[k],
                                ),
                            forall|k: int|
                                0 <= k < plans@.len() ==> plan_ok(
                                    *blocks,
                                    current_blocks@,
                                    #[trigger] plans@[k],
                                ),
                            plans@.len() >= preplans.len(),
                            forall|k: int| 0 <= k < preplans.len() ==> plans@[k] == preplans[k],
                        decreases ours@.len() - oi,
                    {
                        let our_id = ours[oi];
                        let our_block = clone_block(our_id.into_block(blocks));
                        if cand_sibling_pfx.is_prefix_of(&our_block.prefix) && our_block.version
                            < u64::MAX {
                            let oursib = our_block.prefix.sibling();
                            if let Some(block_sibling) = oursib {
                                let sibs = blocks.blocks_for_prefix(current_blocks, &block_sibling);
                                proof {
                                    lemma_for_prefix_props(
                                        *blocks,
                                        current_blocks@,
                                        block_sibling,
                                        sibs@,
                                    );
                                }
                                let mut si: usize = 0;
                                while si < sibs.len()
                                    invariant
                                        blocks.wf(),
                                        ids_stored(*blocks, current_blocks@),
                                        ids_stored(*blocks, sibs@),
                                        si <= sibs@.len(),
                                        blocks.has(our_id),
                                        current_blocks@.contains(our_id),
                                        our_block.wf(),
                                        beq(our_block, blocks.spec_get(our_id)),
                                        our_block.version < u64::MAX,
                                        spec_siblings(our_block.prefix, block_sibling),
                                        forall|k: int|
                                            0 <= k < sibs@.len() ==> current_blocks@.contains(
                                                #[trigger] sibs@[k],
                                            ) && blocks.spec_get(sibs@[k]).prefix
                                                == block_sibling,
                                        forall|k: int|
                                            0 <= k < plans@.len() ==> plan_ok(
                                                *blocks,
                                                current_blocks@,
                                                #[trigger] plans@[k],
                                            ),
                                        plans@.len() >= preplans.len(),
                                        forall|k: int|
                                            0 <= k < preplans.len() ==> plans@[k] == preplans[k],
                                    decreases sibs@.len() - si,
                                {
                                    let sib_id = sibs[si];
                                    let sib_block = clone_block(sib_id.into_block(blocks));
                                    if sib_block.version < u64::MAX {
                                        let target = merged_block(&sib_block, &our_block);
                                        let plan = MergePlan {
                                            from: our_id,
                                            ia: sib_id,
                                            ib: our_id,
                                            target,
                                        };
                                        let ghost pre = plans@;
                                        plans.push(plan);
                                        proof {
                                            assert(plans@ == pre.push(plan));
                                            assert(spec_siblings(
                                                blocks.spec_get(sib_id).prefix,
                                                blocks.spec_get(our_id).prefix,
                                            ));
                                            assert(spec_merge_target(
                                                blocks.spec_get(sib_id),
                                                blocks.spec_get(our_id),
                                                plans@[plans@.len() - 1].target,
                                            ));
                                        }
                                    }
                                    si = si + 1;
                                }
                            }
                        }
                        oi = oi + 1;
                    }
                }
            }
        }
        proof {
            assert forall|m: int, sid: BlockId|
                0 <= m < ci + 1 && #[trigger] spec_merge_owed_own(
                    *blocks,
                    current_blocks@,
                    our_name,
                    min_section_size as int,
                    current_blocks@[m],
                    sid,
                ) implies exists|k: int|
                0 <= k < plans@.len() && (#[trigger] plans@[k]).from == current_blocks@[m]
                    && spec_merge_target(
                    blocks.spec_get(current_blocks@[m]),
                    blocks.spec_get(sid),
                    plans@[k].target,
                ) by {
                if m < ci {
                    let k = choose|k: int|
                        0 <= k < preplans.len() && (#[trigger] preplans[k]).from
                            == current_blocks@[m] && spec_merge_target(
                            blocks.spec_get(current_blocks@[m]),
                            blocks.spec_get(sid),
                            preplans[k].target,
                        );
                    assert(plans@[k] == preplans[k]);
                } else {
                    let c = blocks.spec_get(cand_id);
                    assert(cand.members@ == c.members@);
                    assert(in_block);
                    assert(small);
                    assert(cand.version < u64::MAX);
                }
            }
        }
        ci = ci + 1;
    }
}

/// Plan merge votes from each of our blocks whose sibling block has lost
/// its quorum of live connections.
fn force_merge_rule(
    blocks: &Blocks,
    current_blocks: &Vec<BlockId>,
    connections: &Vec<Name>,
    our_name: Name,
    plans: &mut Vec<MergePlan>,
)
    requires
        blocks.wf(),
        ids_stored(*blocks, current_blocks@),
        forall|k: int|
            0 <= k < old(plans)@.len() ==> plan_ok(
                *blocks,
                current_blocks@,
                #[trigger] old(plans)@[k],
            ),
    ensures
        forall|k: int|
            0 <= k < final(plans)@.len() ==> plan_ok(
                *blocks,
                current_blocks@,
                #[trigger] final(plans)@[k],
            ),
        final(plans)@.len() >= old(plans)@.len(),
        forall|k: int| 0 <= k < old(plans)@.len() ==> final(plans)@[k] == old(plans)@[k],
        forall|cid: BlockId, oid: BlockId|
            #[trigger] spec_merge_owed_force(
                *blocks,
                current_blocks@,
                connections@,
                our_name,
                cid,
                oid,
            ) ==> exists|k: int|
                0 <= k < final(plans)@.len() && (#[trigger] final(plans)@[k]).from == oid
                    && spec_merge_target(
                    blocks.spec_get(cid),
                    blocks.spec_get(oid),
                    final(plans)@[k].target,
                ),
{
    let mut ci: usize = 0;
    while ci < current_blocks.len()
        invariant
            blocks.wf(),
            ids_stored(*blocks, current_blocks@),
            ci <= current_blocks@.len(),
            forall|k: int|
                0 <= k < plans@.len() ==> plan_ok(*blocks, current_blocks@, #[trigger] plans@[k]),
            plans@.len() >= old(plans)@.len(),
            forall|k: int| 0 <= k < old(plans)@.len() ==> plans@[k] == old(plans)@[k],
            forall|m: int, oid: BlockId|
                0 <= m < ci && #[trigger] spec_merge_owed_force(
                    *blocks,
                    current_blocks@,
                    connections@,
                    our_name,
                    current_blocks@[m],
                    oid,
                ) ==> exists|k: int|
                    0 <= k < plans@.len() && (#[trigger] plans@[k]).from == oid
                        && spec_merge_target(
                        blocks.spec_get(current_blocks@[m]),
                        blocks.spec_get(oid),
                        plans@[k].target,
                    ),
        decreases current_blocks@.len() - ci,
    {
        let cand_id = current_blocks[ci];
        let cand = clone_block(cand_id.into_block(blocks));
        let ghost preplans = plans@;
        let lq = lost_quorum(&cand, connections);
        if lq && cand.version < u64::MAX {
            let ours = blocks.our_blocks(current_blocks, our_name);
            proof {
                lemma_ours_props(*blocks, current_blocks@, our_name, ours@);
            }
            let mut oi: usize = 0;
            while oi < ours.len()
                invariant
                    blocks.wf(),
                    ids_stored(*blocks, current_blocks@),
                    ids_stored(*blocks, ours@),
                    oi <= ours@.len(),
                    blocks.has(cand_id),
                    current_blocks@.contains(cand_id),
                    cand.wf(),
                    beq(cand, blocks.spec_get(cand_id)),
                    cand.version < u64::MAX,
                    forall|k: int|
                        0 <= k < ours@.len() ==> current_blocks@.contains(#[trigger] ours@[k]),
                    forall|k: int|
                        0 <= k < plans@.len() ==> plan_ok(
                            *blocks,
                            current_blocks@,
                            #[trigger] plans@[k],
                        ),
                    plans@.len() >= preplans.len(),
                    forall|k: int| 0 <= k < preplans.len() ==> plans@[k] == preplans[k],
                    forall|m2: int|
                        0 <= m2 < oi && blocks.spec_get(#[trigger] ours@[m2]).version < u64::MAX
                            && spec_siblings(
                            blocks.spec_get(ours@[m2]).prefix,
                            blocks.spec_get(cand_id).prefix,
                        ) ==> exists|k: int|
                            0 <= k < plans@.len() && (#[trigger] plans@[k]).from == ours@[m2]
                                && spec_merge_target(
                                blocks.spec_get(cand_id),
                                blocks.spec_get(ours@[m2]),
                                plans@[k].target,
                            ),
                decreases ours@.len() - oi,
            {
                let our_id = ours[oi];
                let our_block = clone_block(our_id.into_block(blocks));
                let ghost preinner = plans@;
                let sib = our_block.prefix.sibling();
                if let Some(our_sibling) = sib {
                    if crate::block::prefix_eq(&our_sibling, &cand.prefix) && our_block.version
                        < u64::MAX {
                        let target = merged_block(&cand, &our_block);
                        let plan = MergePlan { from: our_id, ia: cand_id, ib: our_id, target };
                        let ghost pre = plans@;
                        plans.push(plan);
                        proof {
                            assert(plans@ == pre.push(plan));
                            assert(spec_siblings(
                                blocks.spec_get(cand_id).prefix,
                                blocks.spec_get(our_id).prefix,
                            ));
                            assert(spec_merge_target(
                                blocks.spec_get(cand_id),
                                blocks.spec_get(our_id),
                                plans@[plans@.len() - 1].target,
                            ));
                        }
                    }
                }
                proof {
                    assert forall|m2: int|
                        0 <= m2 < oi + 1 && blocks.spec_get(
                            #[trigger] ours@[m2],
                        ).version < u64::MAX && spec_siblings(
                            blocks.spec_get(ours@[m2]).prefix,
                            blocks.spec_get(cand_id).prefix,
                        ) implies exists|k: int|
                        0 <= k < plans@.len() && (#[trigger] plans@[k]).from == ours@[m2]
                            && spec_merge_target(
                            blocks.spec_get(cand_id),
                            blocks.spec_get(ours@[m2]),
                            plans@[k].target,
                        ) by {
                        if m2 < oi {
                            let k = choose|k: int|
                                0 <= k < preinner.len() && (#[trigger] preinner[k]).from
                                    == ours@[m2] && spec_merge_target(
                                    blocks.spec_get(cand_id),
                                    blocks.spec_get(ours@[m2]),
                                    preinner[k].target,
                                );
                            assert(plans@[k] == preinner[k]);
                        } else {
                            let o = blocks.spec_get(our_id);
                            let c = blocks.spec_get(cand_id);
                            assert(our_block.prefix == o.prefix);
                            assert(spec_siblings(o.prefix, c.prefix));
                            assert(our_block.prefix.bit_count > 0);
                            let q = sib->Some_0;
                            assert(spec_siblings(o.prefix, q));
                            lemma_sibling_unique(o.prefix, q, c.prefix);
                            assert(q == cand.prefix);
                        }
                    }
                }
                oi = oi + 1;
            }
            proof {
                // Every owed force-merge vote from one of our blocks has
                // its plan.
                assert forall|oid: BlockId|
                    #[trigger] spec_merge_owed_force(
                        *blocks,
                        current_blocks@,
                        connections@,
                        our_name,
                        cand_id,
                        oid,
                    ) implies exists|k: int|
                    0 <= k < plans@.len() && (#[trigger] plans@[k]).from == oid
                        && spec_merge_target(
                        blocks.spec_get(cand_id),
                        blocks.spec_get(oid),
                        plans@[k].target,
                    ) by {
                    assert(ours@.contains(oid));
                    let mo = choose|mo: int| 0 <= mo < ours@.len() && ours@[mo] == oid;
                    assert(blocks.spec_get(ours@[mo]).version < u64::MAX);
                    assert(spec_siblings(
                        blocks.spec_get(ours@[mo]).prefix,
                        blocks.spec_get(cand_id).prefix,
                    ));
                }
            }
        }
        proof {
            assert forall|m: int, oid: BlockId|
                0 <= m < ci + 1 && #[trigger] spec_merge_owed_force(
                    *blocks,
                    current_blocks@,
                    connections@,
                    our_name,
                    current_blocks@[m],
                    oid,
                ) implies exists|k: int|
                0 <= k < plans@.len() && (#[trigger] plans@[k]).from == oid && spec_merge_target(
                    blocks.spec_get(current_blocks@[m]),
                    blocks.spec_get(oid),
                    plans@[k].target,
                ) by {
                if m < ci {
                    let k = choose|k: int|
                        0 <= k < preplans.len() && (#[trigger] preplans[k]).from == oid
                            && spec_merge_target(
                            blocks.spec_get(current_blocks@[m]),
                            blocks.spec_get(oid),
                            preplans[k].target,
                        );
                    assert(plans@[k] == preplans[k]);
                } else {
                    let c = blocks.spec_get(cand_id);
                    assert(cand.members@ == c.members@);
                    assert(lq);
                    assert(cand.version < u64::MAX);
                }
            }
        }
        ci = ci + 1;
    }
}

/// Properties of a `blocks_for_prefix` result, element by element.
proof fn lemma_for_prefix_props(
    store: Blocks,
    current: Seq<BlockId>,
    prefix: Prefix,
    sibs: Seq<BlockId>,
)
    requires
        sibs == current.filter(|id: BlockId| store.spec_get(id).prefix == prefix),
    ensures
        forall|k: int|
            0 <= k < sibs.len() ==> current.contains(#[trigger] sibs[k]) && store.spec_get(
                sibs[k],
            ).prefix == prefix,
        forall|id: BlockId|
            current.contains(id) && store.spec_get(id).prefix == prefix ==> #[trigger] sibs.contains(
                id,
            ),
{
    crate::members::lemma_filter_subset(current, |id: BlockId| store.spec_get(id).prefix == prefix);
    assert forall|k: int|
        0 <= k < sibs.len() implies current.contains(#[trigger] sibs[k]) && store.spec_get(
        sibs[k],
    ).prefix == prefix by {
        Seq::lemma_filter_pred(current, |id: BlockId| store.spec_get(id).prefix == prefix, k);
        assert(sibs.contains(sibs[k]));
    }
    assert forall|id: BlockId|
        current.contains(id) && store.spec_get(id).prefix == prefix implies #[trigger] sibs.contains(
        id,
    ) by {
        let mi = choose|mi: int| 0 <= mi < current.len() && current[mi] == id;
        Seq::lemma_filter_contains(current, |id2: BlockId| store.spec_get(id2).prefix == prefix, mi);
    }
}

/// Properties of an `our_blocks` result, element by element.
proof fn lemma_ours_props(store: Blocks, current: Seq<BlockId>, our_name: Name, ours: Seq<BlockId>)
    requires
        ours == current.filter(|id: BlockId| store.spec_get(id).members@.contains(our_name)),
    ensures
        forall|k: int|
            0 <= k < ours.len() ==> current.contains(#[trigger] ours[k]) && store.spec_get(
                ours[k],
            ).members@.contains(our_name),
        forall|id: BlockId|
            current.contains(id) && store.spec_get(id).members@.contains(our_name)
                ==> #[trigger] ours.contains(id),
{
    crate::members::lemma_filter_subset(
        current,
        |id: BlockId| store.spec_get(id).members@.contains(our_name),
    );
    assert forall|k: int|
        0 <= k < ours.len() implies current.contains(#[trigger] ours[k]) && store.spec_get(
        ours[k],
    ).members@.contains(our_name) by {
        Seq::lemma_filter_pred(
            current,
            |id: BlockId| store.spec_get(id).members@.contains(our_name),
            k,
        );
        assert(ours.contains(ours[k]));
    }
    assert forall|id: BlockId|
        current.contains(id) && store.spec_get(id).members@.contains(our_name)
            implies #[trigger] ours.contains(id) by {
        let mi = choose|mi: int| 0 <= mi < current.len() && current[mi] == id;
        Seq::lemma_filter_contains(
            current,
            |id2: BlockId| store.spec_get(id2).members@.contains(our_name),
            mi,
        );
    }
}

} // verus!
