//! The global consistency oracle: do all live nodes agree on the map from
//! prefixes to blocks?

use vstd::prelude::*;
use crate::block::{beq, Block, BlockId};
use crate::blocks::{ids_stored, no_dup_ids, push_unique_id, Blocks};
use crate::name::{Name, Prefix};
use crate::node::Node;

verus! {

/// Some node holds this block as current.
pub open spec fn somewhere_current(nodes: Seq<Node>, id: BlockId) -> bool {
    exists|n: int| 0 <= n < nodes.len() && (#[trigger] nodes[n]).current_blocks@.contains(id)
}

/// A name belongs to a live node.
pub open spec fn is_live(nodes: Seq<Node>, y: Name) -> bool {
    exists|n: int| 0 <= n < nodes.len() && (#[trigger] nodes[n]).our_name == y
}

/// The network is consistent: current blocks agree per prefix, current
/// prefixes do not overlap, sections are large enough, and every current
/// member is alive.
pub open spec fn consistent(store: Blocks, nodes: Seq<Node>, min_section_size: int) -> bool {
    &&& forall|id1: BlockId, id2: BlockId|
        #[trigger] somewhere_current(nodes, id1) && #[trigger] somewhere_current(nodes, id2)
            && store.spec_get(id1).prefix == store.spec_get(id2).prefix ==> id1 == id2
    &&& forall|id1: BlockId, id2: BlockId|
        #[trigger] somewhere_current(nodes, id1) && #[trigger] somewhere_current(nodes, id2)
            && store.spec_get(id1).prefix != store.spec_get(id2).prefix
            ==> !store.spec_get(id1).prefix.spec_compatible(store.spec_get(id2).prefix)
    &&& (single_section(store, nodes) ==> forall|id: BlockId|
        #[trigger] somewhere_current(nodes, id) ==> store.spec_get(id).members@.len() * 2
            > min_section_size)
    &&& (!single_section(store, nodes) ==> forall|id: BlockId|
        #[trigger] somewhere_current(nodes, id) ==> store.spec_get(id).members@.len()
            >= min_section_size)
    &&& forall|id: BlockId, y: Name|
        #[trigger] somewhere_current(nodes, id) && #[trigger] store.spec_get(
            id,
        ).members@.contains(y) ==> is_live(nodes, y)
}

/// All current blocks anywhere share one prefix.
pub open spec fn single_section(store: Blocks, nodes: Seq<Node>) -> bool {
    forall|id1: BlockId, id2: BlockId|
        #[trigger] somewhere_current(nodes, id1) && #[trigger] somewhere_current(nodes, id2)
            ==> store.spec_get(id1).prefix == store.spec_get(id2).prefix
}

/// The map entry `e` records a block that some node holds as current,
/// keyed by that block's own prefix.
pub open spec fn entry_current(store: Blocks, nodes: Seq<Node>, e: (Prefix, Block)) -> bool {
    exists|id: BlockId|
        #[trigger] somewhere_current(nodes, id) && e.0 == store.spec_get(id).prefix && beq(
            e.1,
            store.spec_get(id),
        )
}

/// The map `m` has an entry recording the block `id` points at.
pub open spec fn has_entry(store: Blocks, m: Seq<(Prefix, Block)>, id: BlockId) -> bool {
    exists|q: int|
        #![trigger m[q]]
        0 <= q < m.len() && m[q].0 == store.spec_get(id).prefix && beq(
            m[q].1,
            store.spec_get(id),
        )
}

/// `m` is exactly the agreed map: each entry is a block that some node
/// holds as current, keyed by its own prefix, and every block that is
/// current anywhere appears as an entry.
pub open spec fn agreed_map(store: Blocks, nodes: Seq<Node>, m: Seq<(Prefix, Block)>) -> bool {
    &&& forall|q: int| 0 <= q < m.len() ==> entry_current(store, nodes, #[trigger] m[q])
    &&& forall|id: BlockId| #[trigger] somewhere_current(nodes, id) ==> has_entry(store, m, id)
}

/// Check that all nodes agree on a consistent view of the network;
/// success returns the agreed map from prefixes to blocks.
#[verifier::rlimit(60)]
pub fn check_consistency(blocks: &Blocks, nodes: &Vec<Node>, min_section_size: usize) -> (r:
    Result<Vec<(Prefix, Block)>, ()>)
    requires
        blocks.wf(),
        forall|n: int| 0 <= n < nodes@.len() ==> (#[trigger] nodes@[n]).wf(*blocks),
    ensures
        r is Ok <==> consistent(*blocks, nodes@, min_section_size as int),
        r matches Ok(m) ==> agreed_map(*blocks, nodes@, m@),
{
    // Gather every block that is current somewhere.
    let mut all_cur: Vec<BlockId> = Vec::new();
    let mut n: usize = 0;
    while n < nodes.len()
        invariant
            blocks.wf(),
            forall|m: int| 0 <= m < nodes@.len() ==> (#[trigger] nodes@[m]).wf(*blocks),
            n <= nodes@.len(),
            no_dup_ids(all_cur@),
            ids_stored(*blocks, all_cur@),
            forall|id: BlockId|
                #[trigger] all_cur@.contains(id) <==> exists|m: int|
                    0 <= m < n && (#[trigger] nodes@[m]).current_blocks@.contains(id),
        decreases nodes@.len() - n,
    {
        let node = &nodes[n];
        let mut c: usize = 0;
        while c < node.current_blocks.len()
            invariant
                blocks.wf(),
                forall|m: int| 0 <= m < nodes@.len() ==> (#[trigger] nodes@[m]).wf(*blocks),
                n < nodes@.len(),
                node == &nodes@[n as int],
                c <= node.current_blocks@.len(),
                no_dup_ids(all_cur@),
                ids_stored(*blocks, all_cur@),
                forall|id: BlockId|
                    #[trigger] all_cur@.contains(id) <==> ((exists|m: int|
                        0 <= m < n && (#[trigger] nodes@[m]).current_blocks@.contains(id))
                        || nodes@[n as int].current_blocks@.take(c as int).contains(id)),
            decreases node.current_blocks@.len() - c,
        {
            let id = node.current_blocks[c];
            proof {
                crate::members::lemma_take_contains(nodes@[n as int].current_blocks@, c as int);
                assert(nodes@[n as int].current_blocks@.contains(id));
            }
            let ghost pre = all_cur@;
            push_unique_id(&mut all_cur, id);
            proof {
                assert forall|k: int|
                    0 <= k < all_cur@.len() implies blocks.has(#[trigger] all_cur@[k]) by {
                    if pre.contains(all_cur@[k]) {
                        let m = choose|m: int| 0 <= m < pre.len() && pre[m] == all_cur@[k];
                    } else {
                        assert(all_cur@[k] == id);
                    }
                }
            }
            c = c + 1;
        }
        proof {
            assert(nodes@[n as int].current_blocks@.take(
                nodes@[n as int].current_blocks@.len() as int,
            ) =~= nodes@[n as int].current_blocks@);
            assert forall|id: BlockId|
                #[trigger] all_cur@.contains(id) <==> exists|m: int|
                    0 <= m < n + 1 && (#[trigger] nodes@[m]).current_blocks@.contains(id) by {
                if all_cur@.contains(id) {
                    if exists|m: int|
                        0 <= m < n && (#[trigger] nodes@[m]).current_blocks@.contains(id) {
                        let m = choose|m: int|
                            0 <= m < n && (#[trigger] nodes@[m]).current_blocks@.contains(id);
                    }
                }
                if exists|m: int|
                    0 <= m < n + 1 && (#[trigger] nodes@[m]).current_blocks@.contains(id) {
                    let m = choose|m: int|
                        0 <= m < n + 1 && (#[trigger] nodes@[m]).current_blocks@.contains(id);
                }
            }
        }
        n = n + 1;
    }
    proof {
        assert forall|id: BlockId|
            #[trigger] all_cur@.contains(id) <==> somewhere_current(nodes@, id) by {}
    }
    // (a) One block per prefix, and (b) pairwise incompatible prefixes.
    let mut i: usize = 0;
    while i < all_cur.len()
        invariant
            blocks.wf(),
            no_dup_ids(all_cur@),
            ids_stored(*blocks, all_cur@),
            forall|id: BlockId| all_cur@.contains(id) <==> somewhere_current(nodes@, id),
            i <= all_cur@.len(),
            forall|a: int, b: int|
                0 <= a < all_cur@.len() && 0 <= b < all_cur@.len() && a != b && a < i
                    ==> blocks.spec_get(#[trigger] all_cur@[a]).prefix != blocks.spec_get(
                    #[trigger] all_cur@[b],
                ).prefix && !blocks.spec_get(all_cur@[a]).prefix.spec_compatible(
                    blocks.spec_get(all_cur@[b]).prefix,
                ),
        decreases all_cur@.len() - i,
    {
        let b1 = all_cur[i].into_block(blocks);
        let mut j: usize = 0;
        while j < all_cur.len()
            invariant
                blocks.wf(),
                no_dup_ids(all_cur@),
                ids_stored(*blocks, all_cur@),
                i < all_cur@.len(),
                b1 == blocks.spec_get(all_cur@[i as int]),
                forall|id: BlockId| all_cur@.contains(id) <==> somewhere_current(nodes@, id),
                j <= all_cur@.len(),
                forall|b: int|
                    0 <= b < j && b != i ==> blocks.spec_get(
                        #[trigger] all_cur@[b],
                    ).prefix != b1.prefix && !b1.prefix.spec_compatible(
                        blocks.spec_get(all_cur@[b]).prefix,
                    ),
        decreases all_cur@.len() - j,
        {
            if j != i {
                let b2 = all_cur[j].into_block(blocks);
                if b1.prefix.is_compatible(&b2.prefix) {
                    proof {
                        let idi = all_cur@[i as int];
                        let idj = all_cur@[j as int];
                        assert(all_cur@.contains(idi));
                        assert(all_cur@.contains(idj));
                        assert(somewhere_current(nodes@, idi));
                        assert(somewhere_current(nodes@, idj));
                        assert(idi != idj);
                        if consistent(*blocks, nodes@, min_section_size as int) {
                            if blocks.spec_get(idi).prefix == blocks.spec_get(idj).prefix {
                                assert(idi == idj);
                            } else {
                                assert(!blocks.spec_get(idi).prefix.spec_compatible(
                                    blocks.spec_get(idj).prefix,
                                ));
                            }
                            assert(false);
                        }
                    }
                    return Err(());
                }
                proof {
                    assert(b1.prefix != b2.prefix) by {
                        if b1.prefix == b2.prefix {
                            assert(b1.prefix.spec_compatible(b2.prefix));
                        }
                    }
                }
            }
            j = j + 1;
        }
        i = i + 1;
    }
    // (c) Section sizes.
    let single = all_cur.len() <= 1;
    proof {
        if all_cur@.len() <= 1 {
            assert(single_section(*blocks, nodes@));
        } else {
            assert(all_cur@.contains(all_cur@[0]));
            assert(all_cur@.contains(all_cur@[1]));
            assert(blocks.spec_get(all_cur@[0]).prefix != blocks.spec_get(all_cur@[1]).prefix);
            assert(!single_section(*blocks, nodes@));
        }
    }
    let mut k: usize = 0;
    while k < all_cur.len()
        invariant
            blocks.wf(),
            ids_stored(*blocks, all_cur@),
            forall|id: BlockId| all_cur@.contains(id) <==> somewhere_current(nodes@, id),
            single == (all_cur@.len() <= 1),
            all_cur@.len() <= 1 ==> single_section(*blocks, nodes@),
            all_cur@.len() > 1 ==> !single_section(*blocks, nodes@),
            k <= all_cur@.len(),
            forall|a: int|
                0 <= a < k ==> (if all_cur@.len() <= 1 {
                    blocks.spec_get(#[trigger] all_cur@[a]).members@.len() * 2
                        > min_section_size
                } else {
                    blocks.spec_get(#[trigger] all_cur@[a]).members@.len() >= min_section_size
                }),
            forall|a: int, b: int|
                0 <= a < all_cur@.len() && 0 <= b < all_cur@.len() && a != b
                    ==> blocks.spec_get(#[trigger] all_cur@[a]).prefix != blocks.spec_get(
                    #[trigger] all_cur@[b],
                ).prefix && !blocks.spec_get(all_cur@[a]).prefix.spec_compatible(
                    blocks.spec_get(all_cur@[b]).prefix,
                ),
        decreases all_cur@.len() - k,
    {
        let blk = all_cur[k].into_block(blocks);
        let bad = if single {
            (blk.members.len() as u128) * 2 <= (min_section_size as u128)
        } else {
            blk.members.len() < min_section_size
        };
        proof {
            assert(all_cur@.contains(all_cur@[k as int]));
        }
        if bad {
            return Err(());
        }
        k = k + 1;
    }
    // (d) Every member of a current block is a live node.
    let mut k2: usize = 0;
    while k2 < all_cur.len()
        invariant
            blocks.wf(),
            ids_stored(*blocks, all_cur@),
            forall|id: BlockId| all_cur@.contains(id) <==> somewhere_current(nodes@, id),
            k2 <= all_cur@.len(),
            forall|a: int, y: Name|
                0 <= a < k2 && #[trigger] blocks.spec_get(all_cur@[a]).members@.contains(y)
                    ==> is_live(nodes@, y),
        decreases all_cur@.len() - k2,
    {
        let blk = all_cur[k2].into_block(blocks);
        let mut m: usize = 0;
        while m < blk.members.len()
            invariant
                blocks.wf(),
                ids_stored(*blocks, all_cur@),
                forall|id: BlockId| all_cur@.contains(id) <==> somewhere_current(nodes@, id),
                k2 < all_cur@.len(),
                blk == blocks.spec_get(all_cur@[k2 as int]),
                m <= blk.members@.len(),
                forall|a: int| 0 <= a < m ==> is_live(nodes@, #[trigger] blk.members@[a]),
            decreases blk.members@.len() - m,
        {
            let y = blk.members[m];
            let mut alive = false;
            let mut q: usize = 0;
            while q < nodes.len()
                invariant
                    q <= nodes@.len(),
                    alive ==> is_live(nodes@, y),
                    !alive ==> forall|p: int|
                        0 <= p < q ==> (#[trigger] nodes@[p]).our_name != y,
                decreases nodes@.len() - q,
            {
                if nodes[q].our_name == y {
                    alive = true;
                    proof {
                        assert(nodes@[q as int].our_name == y);
                    }
                }
                q = q + 1;
            }
            if !alive {
                proof {
                    assert(all_cur@.contains(all_cur@[k2 as int]));
                    assert(blk.members@.contains(y));
                    assert(!is_live(nodes@, y)) by {
                        if is_live(nodes@, y) {
                            let p = choose|p: int|
                                0 <= p < nodes@.len() && (#[trigger] nodes@[p]).our_name == y;
                        }
                    }
                    assert(!consistent(*blocks, nodes@, min_section_size as int));
                }
                return Err(());
            }
            m = m + 1;
        }
        k2 = k2 + 1;
    }
    // Consistent: return the agreed map.
    let mut map: Vec<(Prefix, Block)> = Vec::new();
    let mut o: usize = 0;
    while o < all_cur.len()
        invariant
            blocks.wf(),
            ids_stored(*blocks, all_cur@),
            forall|id: BlockId| all_cur@.contains(id) <==> somewhere_current(nodes@, id),
            o <= all_cur@.len(),
            map@.len() == o,
            forall|q: int|
                0 <= q < o ==> (#[trigger] map@[q]).0 == blocks.spec_get(all_cur@[q]).prefix
                    && beq(map@[q].1, blocks.spec_get(all_cur@[q])),
        decreases all_cur@.len() - o,
    {
        let id = all_cur[o];
        let blk = crate::block::clone_block(id.into_block(blocks));
        map.push((blk.prefix, blk));
        o = o + 1;
    }
    proof {
        assert forall|id1: BlockId, id2: BlockId|
            #[trigger] somewhere_current(nodes@, id1) && #[trigger] somewhere_current(
                nodes@,
                id2,
            ) && blocks.spec_get(id1).prefix == blocks.spec_get(id2).prefix implies id1
            == id2 by {
            assert(all_cur@.contains(id1));
            assert(all_cur@.contains(id2));
            let a = choose|a: int| 0 <= a < all_cur@.len() && all_cur@[a] == id1;
            let b = choose|b: int| 0 <= b < all_cur@.len() && all_cur@[b] == id2;
            if a != b {
                assert(blocks.spec_get(all_cur@[a]).prefix != blocks.spec_get(
                    all_cur@[b],
                ).prefix);
            }
        }
        assert forall|id1: BlockId, id2: BlockId|
            #[trigger] somewhere_current(nodes@, id1) && #[trigger] somewhere_current(
                nodes@,
                id2,
            ) && blocks.spec_get(id1).prefix != blocks.spec_get(id2).prefix implies !blocks
            .spec_get(id1).prefix.spec_compatible(blocks.spec_get(id2).prefix) by {
            assert(all_cur@.contains(id1));
            assert(all_cur@.contains(id2));
            let a = choose|a: int| 0 <= a < all_cur@.len() && all_cur@[a] == id1;
            let b = choose|b: int| 0 <= b < all_cur@.len() && all_cur@[b] == id2;
            assert(a != b);
        }
        assert forall|id: BlockId| #[trigger] somewhere_current(nodes@, id) implies (
        if all_cur@.len() <= 1 {
            blocks.spec_get(id).members@.len() * 2 > min_section_size
        } else {
            blocks.spec_get(id).members@.len() >= min_section_size
        }) by {
            assert(all_cur@.contains(id));
            let a = choose|a: int| 0 <= a < all_cur@.len() && all_cur@[a] == id;
        }
        assert forall|id: BlockId, y: Name|
            #[trigger] somewhere_current(nodes@, id) && #[trigger] blocks.spec_get(
                id,
            ).members@.contains(y) implies is_live(nodes@, y) by {
            assert(all_cur@.contains(id));
            let a = choose|a: int| 0 <= a < all_cur@.len() && all_cur@[a] == id;
            assert(blocks.spec_get(all_cur@[a]).members@.contains(y));
        }
        if all_cur@.len() > 1 {
            assert(all_cur@.contains(all_cur@[0]));
            assert(all_cur@.contains(all_cur@[1]));
            assert(!single_section(*blocks, nodes@));
        }
        assert(consistent(*blocks, nodes@, min_section_size as int));
        assert forall|q: int| 0 <= q < map@.len() implies entry_current(
            *blocks,
            nodes@,
            #[trigger] map@[q],
        ) by {
            let wid = all_cur@[q];
            assert(all_cur@.contains(wid));
            assert(somewhere_current(nodes@, wid));
            assert(map@[q].0 == blocks.spec_get(wid).prefix && beq(map@[q].1, blocks.spec_get(wid)));
        }
        assert forall|id: BlockId| #[trigger] somewhere_current(nodes@, id) implies has_entry(
            *blocks,
            map@,
            id,
        ) by {
            assert(all_cur@.contains(id));
            let a = choose|a: int| 0 <= a < all_cur@.len() && all_cur@[a] == id;
            assert(map@[a].0 == blocks.spec_get(id).prefix && beq(map@[a].1, blocks.spec_get(id)));
        }
        assert(agreed_map(*blocks, nodes@, map@));
    }
    Ok(map)
}

} // verus!
