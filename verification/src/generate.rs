//! Generating an initial network: sections of freshly named nodes, each
//! starting from the same genesis set of version-0 blocks.

use vstd::prelude::*;
use crate::block::{Block, BlockId, Vote};
use crate::blocks::{copy_ids, ids_stored, no_dup_ids, push_unique_id, Blocks};
use crate::members::{insert_name, sorted_names};
use crate::name::{prefix_covered, Name, Prefix};
use crate::node::Node;
use crate::params::NodeParams;
use crate::random::random_name;

verus! {

/// The prefixes named by a section layout.
pub open spec fn section_prefixes(sections: Seq<(Prefix, usize)>) -> Seq<Prefix> {
    sections.map_values(|s: (Prefix, usize)| s.0)
}

/// The block `id` points at is a starting block for the section `sec`:
/// version zero, the section's prefix, and at most the requested number of
/// members, all inside the prefix (fewer only if random names collided,
/// and at least one whenever any were requested).
pub open spec fn genesis_block_props(store: Blocks, id: BlockId, sec: (Prefix, usize)) -> bool {
    &&& store.spec_get(id).prefix == sec.0
    &&& store.spec_get(id).version == 0
    &&& store.spec_get(id).members@.len() <= sec.1
    &&& (sec.1 > 0 ==> store.spec_get(id).members@.len() > 0)
    &&& forall|y: Name| store.spec_get(id).members@.contains(y) ==> sec.0.spec_matches(y)
}

/// The id set holds a starting block for `sec` whose members all carry a
/// name in `names`.
spec fn section_genesis(
    store: Blocks,
    ids: Seq<BlockId>,
    names: Seq<Name>,
    sec: (Prefix, usize),
) -> bool {
    exists|id: BlockId|
        #![auto]
        ids.contains(id) && genesis_block_props(store, id, sec) && (forall|y: Name|
            store.spec_get(id).members@.contains(y) ==> names.contains(y))
}

/// The id set holds a starting block for `sec`, every member of which is
/// one of the returned nodes.
pub open spec fn section_started(
    store: Blocks,
    ids: Seq<BlockId>,
    nodes: Seq<Node>,
    sec: (Prefix, usize),
) -> bool {
    exists|id: BlockId|
        #![auto]
        ids.contains(id) && genesis_block_props(store, id, sec) && (forall|y: Name|
            store.spec_get(id).members@.contains(y) ==> exists|q: int|
                0 <= q < nodes.len() && (#[trigger] nodes[q]).our_name == y)
}

/// Build the starting nodes for sections of the requested sizes, with a
/// genesis block per section. The given prefixes must tile the namespace:
/// cover it completely without overlapping. Each section gets one
/// version-0 block whose members all match its prefix (fewer than asked
/// only if the random names collide), every member is a returned node, and
/// every node starts at step zero with the genesis set as its valid and
/// current blocks and an empty vote graph.
#[verifier::rlimit(100)]
pub fn generate_network(
    blocks: &mut Blocks,
    sections: &Vec<(Prefix, usize)>,
    params: &NodeParams,
) -> (r: (Vec<Node>, Vec<BlockId>))
    requires
        old(blocks).wf(),
        forall|k: int| 0 <= k < sections@.len() ==> (#[trigger] sections@[k]).0.wf(),
        prefix_covered(
            Prefix { bit_count: 0, name: Name(0) },
            section_prefixes(sections@),
        ),
        forall|i: int, j: int|
            0 <= i < j < sections@.len() ==> !(#[trigger] sections@[i]).0.spec_compatible(
                (#[trigger] sections@[j]).0,
            ),
        params.min_section_size + params.split_buffer <= usize::MAX,
    ensures
        final(blocks).wf(),
        ids_stored(*final(blocks), r.1@),
        no_dup_ids(r.1@),
        forall|k: int| 0 <= k < r.0@.len() ==> (#[trigger] r.0@[k]).wf(*final(blocks)),
        forall|m: int|
            0 <= m < sections@.len() ==> section_started(
                *final(blocks),
                r.1@,
                r.0@,
                #[trigger] sections@[m],
            ),
        forall|k: int|
            0 <= k < r.1@.len() ==> final(blocks).spec_get(#[trigger] r.1@[k]).version == 0 && (
            exists|m: int|
                0 <= m < sections@.len() && final(blocks).spec_get(r.1@[k]).prefix == (
                #[trigger] sections@[m]).0),
        forall|k: int|
            0 <= k < r.0@.len() ==> (#[trigger] r.0@[k]).step_created == 0
                && r.0@[k].valid_blocks@ == r.1@ && r.0@[k].current_blocks@ == r.1@
                && r.0@[k].prev_current_blocks@.len() == 0 && r.0@[k].recent_votes@.len() == 0 && (
            forall|v: Vote| !r.0@[k].vote_counts.has_edge(v)),
{
    let mut current_blocks: Vec<BlockId> = Vec::new();
    let mut all_names: Vec<Name> = Vec::new();
    let mut s: usize = 0;
    while s < sections.len()
        invariant
            blocks.wf(),
            forall|k: int| 0 <= k < sections@.len() ==> (#[trigger] sections@[k]).0.wf(),
            forall|i: int, j: int|
                0 <= i < j < sections@.len() ==> !(#[trigger] sections@[i]).0.spec_compatible(
                    (#[trigger] sections@[j]).0,
                ),
            s <= sections@.len(),
            ids_stored(*blocks, current_blocks@),
            no_dup_ids(current_blocks@),
            forall|k: int|
                0 <= k < current_blocks@.len() ==> blocks.spec_get(
                    #[trigger] current_blocks@[k],
                ).version == 0 && (exists|m: int|
                    0 <= m < s && blocks.spec_get(current_blocks@[k]).prefix == (
                    #[trigger] sections@[m]).0),
            forall|m: int|
                0 <= m < s ==> section_genesis(
                    *blocks,
                    current_blocks@,
                    all_names@,
                    #[trigger] sections@[m],
                ),
        decreases sections@.len() - s,
    {
        let prefix = sections[s].0;
        let size = sections[s].1;
        let mut members: Vec<Name> = Vec::new();
        let mut n: usize = 0;
        while n < size
            invariant
                forall|k: int| 0 <= k < sections@.len() ==> (#[trigger] sections@[k]).0.wf(),
                s < sections@.len(),
                prefix == sections@[s as int].0,
                sorted_names(members@),
                n <= size,
                members@.len() <= n,
                n > 0 ==> members@.len() > 0,
                forall|y: Name| members@.contains(y) ==> prefix.spec_matches(y),
            decreases size - n,
        {
            let name = prefix.substituted_in(random_name());
            let ghost pre = members@;
            members = insert_name(&members, name);
            proof {
                assert forall|y: Name| members@.contains(y) implies prefix.spec_matches(y) by {
                    assert(pre.contains(y) || y == name);
                }
                assert(members@.contains(name));
            }
            n = n + 1;
        }
        let ghost oldall = all_names@;
        let mut ni: usize = 0;
        while ni < members.len()
            invariant
                ni <= members@.len(),
                all_names@ == oldall + members@.take(ni as int),
            decreases members@.len() - ni,
        {
            let e = members[ni];
            all_names.push(e);
            proof {
                assert(all_names@ =~= oldall + members@.take(ni + 1 as int));
            }
            ni = ni + 1;
        }
        proof {
            assert(members@.take(members@.len() as int) =~= members@);
            assert(all_names@ == oldall + members@);
            assert forall|y: Name| oldall.contains(y) implies all_names@.contains(y) by {
                let q = choose|q: int| 0 <= q < oldall.len() && oldall[q] == y;
                assert(all_names@[q] == y);
            }
            assert forall|y: Name| members@.contains(y) implies all_names@.contains(y) by {
                let q = choose|q: int| 0 <= q < members@.len() && members@[q] == y;
                assert(all_names@[oldall.len() + q] == y);
            }
        }
        let block = Block { prefix, version: 0, members };
        let ghost gb = block;
        let ghost prestore = *blocks;
        let id = blocks.insert(block);
        let ghost pre = current_blocks@;
        push_unique_id(&mut current_blocks, id);
        proof {
            assert forall|k: int|
                0 <= k < current_blocks@.len() implies blocks.has(
                #[trigger] current_blocks@[k],
            ) by {
                if pre.contains(current_blocks@[k]) {
                    let m = choose|m: int| 0 <= m < pre.len() && pre[m] == current_blocks@[k];
                }
            }
            assert forall|k: int|
                0 <= k < current_blocks@.len() implies blocks.spec_get(
                #[trigger] current_blocks@[k],
            ).version == 0 && (exists|m: int|
                0 <= m < s + 1 && blocks.spec_get(current_blocks@[k]).prefix == (
                #[trigger] sections@[m]).0) by {
                if pre.contains(current_blocks@[k]) {
                    let m0 = choose|m0: int| 0 <= m0 < pre.len() && pre[m0] == current_blocks@[k];
                    assert(prestore.spec_get(pre[m0]).version == 0);
                    let m = choose|m: int|
                        0 <= m < s && prestore.spec_get(pre[m0]).prefix == (
                        #[trigger] sections@[m]).0;
                    assert(blocks.spec_get(current_blocks@[k]) == prestore.spec_get(pre[m0]));
                } else {
                    assert(current_blocks@[k] == id);
                    assert(blocks.spec_get(id).prefix == sections@[s as int].0);
                }
            }
            assert forall|m: int|
                0 <= m < s + 1 implies section_genesis(
                *blocks,
                current_blocks@,
                all_names@,
                #[trigger] sections@[m],
            ) by {
                if m < s {
                    assert(section_genesis(prestore, pre, oldall, sections@[m]));
                    let id2 = choose|id2: BlockId|
                        #![auto]
                        pre.contains(id2) && genesis_block_props(prestore, id2, sections@[m]) && (
                        forall|y: Name|
                            prestore.spec_get(id2).members@.contains(y) ==> oldall.contains(y));
                    let m0 = choose|m0: int| 0 <= m0 < pre.len() && pre[m0] == id2;
                    assert(prestore.has(id2));
                    assert(blocks.spec_get(id2) == prestore.spec_get(id2));
                    assert(current_blocks@.contains(id2));
                    assert(genesis_block_props(*blocks, id2, sections@[m]));
                    assert forall|y: Name|
                        blocks.spec_get(id2).members@.contains(y) implies all_names@.contains(
                        y,
                    ) by {
                        assert(prestore.spec_get(id2).members@.contains(y));
                        assert(oldall.contains(y));
                    }
                } else {
                    assert(current_blocks@.contains(id));
                    assert(blocks.spec_get(id).prefix == gb.prefix);
                    assert(blocks.spec_get(id).members@ == gb.members@);
                    assert(genesis_block_props(*blocks, id, sections@[m]));
                    assert forall|y: Name|
                        blocks.spec_get(id).members@.contains(y) implies all_names@.contains(
                        y,
                    ) by {
                        assert(members@.contains(y));
                    }
                }
            }
        }
        s = s + 1;
    }
    let mut nodes: Vec<Node> = Vec::new();
    let mut i: usize = 0;
    while i < all_names.len()
        invariant
            blocks.wf(),
            ids_stored(*blocks, current_blocks@),
            no_dup_ids(current_blocks@),
            params.min_section_size + params.split_buffer <= usize::MAX,
            i <= all_names@.len(),
            nodes@.len() == i,
            forall|k: int| 0 <= k < nodes@.len() ==> (#[trigger] nodes@[k]).wf(*blocks),
            forall|k: int|
                0 <= k < nodes@.len() ==> (#[trigger] nodes@[k]).our_name == all_names@[k]
                    && nodes@[k].step_created == 0 && nodes@[k].valid_blocks@ == current_blocks@
                    && nodes@[k].current_blocks@ == current_blocks@
                    && nodes@[k].prev_current_blocks@.len() == 0
                    && nodes@[k].recent_votes@.len() == 0 && (forall|v: Vote|
                    !nodes@[k].vote_counts.has_edge(v)),
        decreases all_names@.len() - i,
    {
        let name = all_names[i];
        let node = Node::new(name, blocks, copy_ids(&current_blocks), *params, 0);
        nodes.push(node);
        i = i + 1;
    }
    proof {
        assert forall|m: int|
            0 <= m < sections@.len() implies section_started(
            *blocks,
            current_blocks@,
            nodes@,
            #[trigger] sections@[m],
        ) by {
            assert(section_genesis(*blocks, current_blocks@, all_names@, sections@[m]));
            let id = choose|id: BlockId|
                #![auto]
                current_blocks@.contains(id) && genesis_block_props(*blocks, id, sections@[m]) && (
                forall|y: Name|
                    blocks.spec_get(id).members@.contains(y) ==> all_names@.contains(y));
            assert forall|y: Name|
                blocks.spec_get(id).members@.contains(y) implies exists|q: int|
                0 <= q < nodes@.len() && (#[trigger] nodes@[q]).our_name == y by {
                assert(all_names@.contains(y));
                let q = choose|q: int| 0 <= q < all_names@.len() && all_names@[q] == y;
                assert(nodes@[q].our_name == y);
            }
        }
    }
    (nodes, current_blocks)
}

} // verus!
