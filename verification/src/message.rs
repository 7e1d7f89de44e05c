//! Message variants exchanged between nodes, and the policy that selects
//! each variant's recipients.

use vstd::prelude::*;
use crate::block::{BlockId, Vote};
use crate::blocks::{ids_stored, Blocks, VoteCounts};
use crate::members::{contains_name, sorted_names, union_names};
use crate::name::{Name, Prefix};

verus! {

/// A message in flight from `sender` to `recipient`.
pub struct Message {
    pub sender: Name,
    pub recipient: Name,
    pub content: MessageContent,
}

/// The kinds of message a node sends or receives.
pub enum MessageContent {
    /// Vote for a block to succeed another block.
    VoteMsg(Vote),
    /// Notification that the listed members all endorse this vote.
    VoteAgreedMsg((Vote, Vec<Name>)),
    /// A collection of agreed votes, sent as proof material.
    VoteBundle(Vec<(Vote, Vec<Name>)>),
    /// Request for a proof of the given block, with our current blocks.
    RequestProof(BlockId, Vec<BlockId>),
    /// The sender could not prove the requested block.
    NoProof(BlockId),
    /// Sent by a joining node to the section members.
    NodeJoined,
    /// Brings a joining node up to date with the sender's vote graph.
    BootstrapMsg(VoteCounts),
    /// Connection established (or requested) between two nodes.
    Connect,
    /// Connection dropped between two nodes.
    Disconnect,
}

/// XOR distance between the lower bounds of two prefixes.
pub open spec fn spec_prefix_dist(p1: Prefix, p2: Prefix) -> u64 {
    p1.name.0 ^ p2.name.0
}

/// The candidate block's prefix is compatible with the `from` or `to`
/// prefix of the agreed vote.
pub open spec fn compat_from_to(store: Blocks, id: BlockId, fp: Prefix, tp: Prefix) -> bool {
    store.spec_get(id).prefix.spec_compatible(fp) || store.spec_get(id).prefix.spec_compatible(tp)
}

/// Among the current blocks compatible with `fp` or `tp`, the one closest
/// to `b1p` by XOR distance (first such in list order) matches `our_name`.
pub open spec fn closest_section_is_ours(
    store: Blocks,
    currents: Seq<BlockId>,
    b1p: Prefix,
    fp: Prefix,
    tp: Prefix,
    our_name: Name,
) -> bool {
    exists|j: int|
        0 <= j < currents.len() && compat_from_to(store, #[trigger] currents[j], fp, tp) && (
        forall|k: int|
            0 <= k < currents.len() && compat_from_to(store, #[trigger] currents[k], fp, tp)
                ==> spec_prefix_dist(b1p, store.spec_get(currents[j]).prefix) < spec_prefix_dist(
                b1p,
                store.spec_get(currents[k]).prefix,
            ) || (spec_prefix_dist(b1p, store.spec_get(currents[j]).prefix) == spec_prefix_dist(
                b1p,
                store.spec_get(currents[k]).prefix,
            ) && j <= k)) && store.spec_get(currents[j]).prefix.spec_matches(our_name)
}

/// A current block should receive the agreement: its prefix neighbours the
/// vote's `from` or `to` prefix, and our section is the closest compatible
/// one.
pub open spec fn agreed_target(
    store: Blocks,
    currents: Seq<BlockId>,
    i: int,
    fp: Prefix,
    tp: Prefix,
    our_name: Name,
) -> bool {
    &&& 0 <= i < currents.len()
    &&& (store.spec_get(currents[i]).prefix.spec_neighbour(fp) || store.spec_get(
        currents[i],
    ).prefix.spec_neighbour(tp))
    &&& closest_section_is_ours(
        store,
        currents,
        store.spec_get(currents[i]).prefix,
        fp,
        tp,
        our_name,
    )
}

impl MessageContent {
    /// The blocks this content refers to are all in the store.
    pub open spec fn ids_ok(self, store: Blocks) -> bool {
        match self {
            MessageContent::VoteMsg(v) => store.has(v.from) && store.has(v.to),
            MessageContent::VoteAgreedMsg((v, _)) => store.has(v.from) && store.has(v.to),
            _ => true,
        }
    }

    /// The set of nodes this content should be sent to: vote messages go to
    /// the `from` and `to` members; agreements go to the neighbour sections
    /// our section is responsible for informing; everything else goes to
    /// every member of every current block.
    pub fn recipients(&self, blocks: &Blocks, current_blocks: &Vec<BlockId>, our_name: Name) -> (r:
        Vec<Name>)
        requires
            blocks.wf(),
            ids_stored(*blocks, current_blocks@),
            self.ids_ok(*blocks),
        ensures
            sorted_names(r@),
            match *self {
                MessageContent::VoteMsg(v) => forall|n: Name|
                    r@.contains(n) <==> (blocks.spec_get(v.from).members@.contains(n)
                        || blocks.spec_get(v.to).members@.contains(n)),
                MessageContent::VoteAgreedMsg((v, _)) => forall|n: Name|
                    r@.contains(n) <==> ((blocks.spec_get(v.from).members@.contains(our_name)
                        || blocks.spec_get(v.to).members@.contains(our_name)) && exists|i: int|
                        agreed_target(
                            *blocks,
                            current_blocks@,
                            i,
                            blocks.spec_get(v.from).prefix,
                            blocks.spec_get(v.to).prefix,
                            our_name,
                        ) && blocks.spec_get(#[trigger] current_blocks@[i]).members@.contains(n)),
                _ => forall|n: Name|
                    r@.contains(n) <==> exists|i: int|
                        0 <= i < current_blocks@.len() && blocks.spec_get(
                            #[trigger] current_blocks@[i],
                        ).members@.contains(n),
            },
    {
        match self {
            MessageContent::VoteMsg(vote) => {
                let from = vote.from.into_block(blocks);
                let to = vote.to.into_block(blocks);
                union_names(&from.members, &to.members)
            },
            MessageContent::VoteAgreedMsg((vote, _)) => {
                let from = vote.from.into_block(blocks);
                let to = vote.to.into_block(blocks);
                let ghost fp = from.prefix;
                let ghost tp = to.prefix;
                // Only broadcast agreement if we are in `from` or `to`.
                if !contains_name(&from.members, our_name) && !contains_name(
                    &to.members,
                    our_name,
                ) {
                    let empty: Vec<Name> = Vec::new();
                    return empty;
                }
                let mut acc: Vec<Name> = Vec::new();
                let mut i: usize = 0;
                while i < current_blocks.len()
                    invariant
                        blocks.wf(),
                        ids_stored(*blocks, current_blocks@),
                        blocks.has(vote.from),
                        blocks.has(vote.to),
                        *from == blocks.spec_get(vote.from),
                        *to == blocks.spec_get(vote.to),
                        from.prefix.wf(),
                        to.prefix.wf(),
                        fp == blocks.spec_get(vote.from).prefix,
                        tp == blocks.spec_get(vote.to).prefix,
                        i <= current_blocks@.len(),
                        sorted_names(acc@),
                        forall|n: Name|
                            acc@.contains(n) <==> exists|m: int|
                                m < i && agreed_target(
                                    *blocks,
                                    current_blocks@,
                                    m,
                                    fp,
                                    tp,
                                    our_name,
                                ) && blocks.spec_get(
                                    #[trigger] current_blocks@[m],
                                ).members@.contains(n),
                    decreases current_blocks@.len() - i,
                {
                    let b1 = current_blocks[i].into_block(blocks);
                    let cond1 = b1.prefix.is_neighbour(&from.prefix) || b1.prefix.is_neighbour(
                        &to.prefix,
                    );
                    let mut cond2 = false;
                    if cond1 {
                        // Find the first closest compatible current block.
                        let mut best: usize = 0;
                        let mut have_best = false;
                        let mut k: usize = 0;
                        while k < current_blocks.len()
                            invariant
                                blocks.wf(),
                                ids_stored(*blocks, current_blocks@),
                                blocks.has(vote.from),
                                blocks.has(vote.to),
                                *from == blocks.spec_get(vote.from),
                                *to == blocks.spec_get(vote.to),
                                from.prefix.wf(),
                                to.prefix.wf(),
                                fp == blocks.spec_get(vote.from).prefix,
                                tp == blocks.spec_get(vote.to).prefix,
                                i < current_blocks@.len(),
                                b1 == blocks.spec_get(current_blocks@[i as int]),
                                k <= current_blocks@.len(),
                                have_best ==> best < k && compat_from_to(
                                    *blocks,
                                    current_blocks@[best as int],
                                    fp,
                                    tp,
                                ),
                                have_best ==> forall|m: int|
                                    0 <= m < k && compat_from_to(
                                        *blocks,
                                        #[trigger] current_blocks@[m],
                                        fp,
                                        tp,
                                    ) ==> spec_prefix_dist(
                                        b1.prefix,
                                        blocks.spec_get(current_blocks@[best as int]).prefix,
                                    ) < spec_prefix_dist(
                                        b1.prefix,
                                        blocks.spec_get(current_blocks@[m]).prefix,
                                    ) || (spec_prefix_dist(
                                        b1.prefix,
                                        blocks.spec_get(current_blocks@[best as int]).prefix,
                                    ) == spec_prefix_dist(
                                        b1.prefix,
                                        blocks.spec_get(current_blocks@[m]).prefix,
                                    ) && best <= m),
                                !have_best ==> forall|m: int|
                                    0 <= m < k ==> !compat_from_to(
                                        *blocks,
                                        #[trigger] current_blocks@[m],
                                        fp,
                                        tp,
                                    ),
                            decreases current_blocks@.len() - k,
                        {
                            let b2 = current_blocks[k].into_block(blocks);
                            if b2.prefix.is_compatible(&from.prefix) || b2.prefix.is_compatible(
                                &to.prefix,
                            ) {
                                if !have_best {
                                    best = k;
                                    have_best = true;
                                } else {
                                    let dbest = b1.prefix.name.0 ^ current_blocks[best].into_block(
                                        blocks,
                                    ).prefix.name.0;
                                    let dk = b1.prefix.name.0 ^ b2.prefix.name.0;
                                    if dk < dbest {
                                        best = k;
                                    }
                                }
                            }
                            k = k + 1;
                        }
                        if have_best {
                            cond2 = current_blocks[best].into_block(blocks).prefix.matches(
                                our_name,
                            );
                            proof {
                                if cond2 {
                                    assert(closest_section_is_ours(
                                        *blocks,
                                        current_blocks@,
                                        b1.prefix,
                                        fp,
                                        tp,
                                        our_name,
                                    ));
                                } else {
                                    // The closest choice is unique, so no
                                    // other witness can exist.
                                    if closest_section_is_ours(
                                        *blocks,
                                        current_blocks@,
                                        b1.prefix,
                                        fp,
                                        tp,
                                        our_name,
                                    ) {
                                        let j = choose|j: int|
                                            0 <= j < current_blocks@.len() && compat_from_to(
                                                *blocks,
                                                #[trigger] current_blocks@[j],
                                                fp,
                                                tp,
                                            ) && (forall|m: int|
                                                0 <= m < current_blocks@.len() && compat_from_to(
                                                    *blocks,
                                                    #[trigger] current_blocks@[m],
                                                    fp,
                                                    tp,
                                                ) ==> spec_prefix_dist(
                                                    b1.prefix,
                                                    blocks.spec_get(current_blocks@[j]).prefix,
                                                ) < spec_prefix_dist(
                                                    b1.prefix,
                                                    blocks.spec_get(current_blocks@[m]).prefix,
                                                ) || (spec_prefix_dist(
                                                    b1.prefix,
                                                    blocks.spec_get(current_blocks@[j]).prefix,
                                                ) == spec_prefix_dist(
                                                    b1.prefix,
                                                    blocks.spec_get(current_blocks@[m]).prefix,
                                                ) && j <= m)) && blocks.spec_get(
                                                current_blocks@[j],
                                            ).prefix.spec_matches(our_name);
                                        assert(j == best as int);
                                        assert(false);
                                    }
                                }
                            }
                        } else {
                            proof {
                                if closest_section_is_ours(
                                    *blocks,
                                    current_blocks@,
                                    b1.prefix,
                                    fp,
                                    tp,
                                    our_name,
                                ) {
                                    let j = choose|j: int|
                                        0 <= j < current_blocks@.len() && compat_from_to(
                                            *blocks,
                                            #[trigger] current_blocks@[j],
                                            fp,
                                            tp,
                                        );
                                    assert(false);
                                }
                            }
                        }
                    }
                    if cond1 && cond2 {
                        let merged = union_names(&acc, &b1.members);
                        proof {
                            assert(agreed_target(*blocks, current_blocks@, i as int, fp, tp, our_name));
                            assert forall|n: Name|
                                merged@.contains(n) <==> exists|m: int|
                                    m < i + 1 && agreed_target(
                                        *blocks,
                                        current_blocks@,
                                        m,
                                        fp,
                                        tp,
                                        our_name,
                                    ) && blocks.spec_get(
                                        #[trigger] current_blocks@[m],
                                    ).members@.contains(n) by {
                                if merged@.contains(n) {
                                    if acc@.contains(n) {
                                        let m = choose|m: int|
                                            m < i && agreed_target(
                                                *blocks,
                                                current_blocks@,
                                                m,
                                                fp,
                                                tp,
                                                our_name,
                                            ) && blocks.spec_get(
                                                #[trigger] current_blocks@[m],
                                            ).members@.contains(n);
                                        assert(m < i + 1);
                                    } else {
                                        assert(blocks.spec_get(
                                            current_blocks@[i as int],
                                        ).members@.contains(n));
                                    }
                                }
                            }
                        }
                        acc = merged;
                    } else {
                        proof {
                            assert(!agreed_target(
                                *blocks,
                                current_blocks@,
                                i as int,
                                fp,
                                tp,
                                our_name,
                            ));
                            assert forall|n: Name|
                                acc@.contains(n) <==> exists|m: int|
                                    m < i + 1 && agreed_target(
                                        *blocks,
                                        current_blocks@,
                                        m,
                                        fp,
                                        tp,
                                        our_name,
                                    ) && blocks.spec_get(
                                        #[trigger] current_blocks@[m],
                                    ).members@.contains(n) by {}
                        }
                    }
                    i = i + 1;
                }
                acc
            },
            _ => {
                // Everything else goes to every member of every current
                // block.
                let mut acc: Vec<Name> = Vec::new();
                let mut i: usize = 0;
                while i < current_blocks.len()
                    invariant
                        blocks.wf(),
                        ids_stored(*blocks, current_blocks@),
                        i <= current_blocks@.len(),
                        sorted_names(acc@),
                        forall|n: Name|
                            acc@.contains(n) <==> exists|m: int|
                                0 <= m < i && blocks.spec_get(
                                    #[trigger] current_blocks@[m],
                                ).members@.contains(n),
                    decreases current_blocks@.len() - i,
                {
                    let b = current_blocks[i].into_block(blocks);
                    let merged = union_names(&acc, &b.members);
                    proof {
                        assert forall|n: Name|
                            merged@.contains(n) <==> exists|m: int|
                                0 <= m < i + 1 && blocks.spec_get(
                                    #[trigger] current_blocks@[m],
                                ).members@.contains(n) by {
                            if merged@.contains(n) {
                                if acc@.contains(n) {
                                    let m = choose|m: int|
                                        0 <= m < i && blocks.spec_get(
                                            #[trigger] current_blocks@[m],
                                        ).members@.contains(n);
                                } else {
                                    assert(blocks.spec_get(
                                        current_blocks@[i as int],
                                    ).members@.contains(n));
                                }
                            }
                        }
                    }
                    acc = merged;
                    i = i + 1;
                }
                acc
            },
        }
    }
}

} // verus!
