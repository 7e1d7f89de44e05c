//! Tests of the block store, the current-block selector and the vote
//! chain walker.

use ewok::block::{Block, Vote};
use ewok::blocks::{Blocks, VoteCounts};
use ewok::name::{Name, Prefix};

fn short_name(name: u8) -> Name {
    Name((name as u64) << (64 - 8))
}

fn names(mut xs: Vec<u64>) -> Vec<Name> {
    xs.sort();
    xs.dedup();
    xs.into_iter().map(Name).collect()
}

#[test]
fn covering() {
    let mut blocks = Blocks::new();
    let block1 = blocks.insert(Block {
        prefix: Prefix::empty(),
        version: 0,
        members: names(vec![0, short_name(0b10000000).0]),
    });
    let block2 = blocks.insert(Block {
        prefix: Prefix::short(1, 0),
        version: 1,
        members: names(vec![0]),
    });
    let valid_blocks = vec![block1, block2];

    let expected_current = vec![block1];

    let candidates = blocks.compute_current_candidate_blocks(&valid_blocks);
    let current_blocks = blocks.compute_current_blocks(&candidates);

    assert_eq!(expected_current, current_blocks);
}

#[test]
fn segment() {
    let b1_members = names(vec![0, 1, 2, 3 & (1 << 63), 4 & (1 << 63)]);
    let b1 = Block {
        prefix: Prefix::empty(),
        version: 0,
        members: b1_members.clone(),
    };
    let b2_members = names(vec![0, 1, 2]);
    let b2 = Block {
        prefix: Prefix::short(1, 0),
        version: 1,
        members: b2_members.clone(),
    };
    let b3_members = names(vec![0, 1, 2, 5]);
    let b3 = Block {
        prefix: Prefix::short(1, 0),
        version: 2,
        members: b3_members.clone(),
    };
    let mut blocks = Blocks::new();
    let b1_id = blocks.insert(b1);
    let b2_id = blocks.insert(b2);
    let b3_id = blocks.insert(b3);

    let mut votes = VoteCounts::new();
    let v12 = Vote { from: b1_id, to: b2_id };
    let v23 = Vote { from: b2_id, to: b3_id };
    votes.add_vote(v12, &b1_members);
    votes.add_vote(v23, &b2_members);

    let segment_votes = blocks.chain_segment(&b3_id, &votes);

    assert_eq!(segment_votes.len(), 2);
    let mut seen12 = false;
    let mut seen23 = false;
    for (vote, voters) in &segment_votes {
        if *vote == v12 {
            assert_eq!(*voters, b1_members);
            seen12 = true;
        } else if *vote == v23 {
            assert_eq!(*voters, b2_members);
            seen23 = true;
        } else {
            panic!("unexpected vote in segment");
        }
    }
    assert!(seen12 && seen23);
}

#[test]
fn duplicate_insert_same_id() {
    let mut blocks = Blocks::new();
    let b = Block {
        prefix: Prefix::short(1, 0),
        version: 3,
        members: names(vec![1, 2, 3]),
    };
    let b_again = Block {
        prefix: Prefix::short(1, 0),
        version: 3,
        members: names(vec![1, 2, 3]),
    };
    let id1 = blocks.insert(b);
    let id2 = blocks.insert(b_again);
    assert_eq!(id1, id2);
    assert_eq!(blocks.len(), 1);
}

#[test]
fn selector_prefers_shorter_prefix() {
    // A shorter compatible prefix outranks a deeper one of the same
    // version, so the namespace region keeps a single representative.
    let mut blocks = Blocks::new();
    let deep = blocks.insert(Block {
        prefix: Prefix::short(2, 0b00000000),
        version: 5,
        members: names(vec![1, 2, 3]),
    });
    let shallow = blocks.insert(Block {
        prefix: Prefix::short(1, 0),
        version: 5,
        members: names(vec![1, 2, 3, 4]),
    });
    let valid = vec![deep, shallow];
    let cands = blocks.compute_current_candidate_blocks(&valid);
    let current = blocks.compute_current_blocks(&cands);
    assert_eq!(current, vec![shallow]);
}

#[test]
fn newly_valid_from_quorum_edge() {
    // A quorum-endorsed admissible edge from a valid block makes its
    // target valid; a minority edge does not.
    let mut blocks = Blocks::new();
    let genesis = blocks.insert(Block {
        prefix: Prefix::empty(),
        version: 0,
        members: names(vec![1, 2, 3, 4, 5]),
    });
    let next = blocks.insert(Block {
        prefix: Prefix::empty(),
        version: 1,
        members: names(vec![1, 2, 3, 4, 5, 6]),
    });
    let vote = Vote { from: genesis, to: next };

    let mut votes = VoteCounts::new();
    votes.add_vote(vote, &names(vec![1, 2]));
    let valid = vec![genesis];
    let out = blocks.new_valid_blocks(&valid, &votes, &vec![vote]);
    assert!(out.is_empty());

    votes.add_vote(vote, &names(vec![3]));
    let out = blocks.new_valid_blocks(&valid, &votes, &vec![vote]);
    assert_eq!(out.len(), 1);
    assert_eq!(out[0].0, vote);
    assert_eq!(out[0].1, names(vec![1, 2, 3]));
}

#[test]
fn quorum_rule_is_strict_majority() {
    let voters = names(vec![1, 2, 3]);
    let members = names(vec![1, 2, 3, 4, 5]);
    assert!(ewok::blocks::is_quorum_of(&voters, &members));
    let too_few = names(vec![1, 2]);
    assert!(!ewok::blocks::is_quorum_of(&too_few, &members));
    // Outsiders do not count towards the quorum.
    let outsiders = names(vec![6, 7, 8]);
    assert!(!ewok::blocks::is_quorum_of(&outsiders, &members));
}

#[test]
fn selector_keeps_one_block_per_region() {
    // Conflicting same-prefix candidates: the larger membership wins, and
    // the survivors' prefixes never overlap.
    let mut blocks = Blocks::new();
    let small = blocks.insert(Block {
        prefix: Prefix::short(1, 0),
        version: 2,
        members: names(vec![1, 2, 3]),
    });
    let big = blocks.insert(Block {
        prefix: Prefix::short(1, 0),
        version: 2,
        members: names(vec![1, 2, 3, 4]),
    });
    let other = blocks.insert(Block {
        prefix: Prefix::short(1, 0b10000000),
        version: 1,
        members: names(vec![(1 << 63) + 1, (1 << 63) + 2]),
    });
    let valid = vec![small, big, other];
    let cands = blocks.compute_current_candidate_blocks(&valid);
    let current = blocks.compute_current_blocks(&cands);
    assert!(current.contains(&big));
    assert!(!current.contains(&small));
    assert!(current.contains(&other));
    for a in &current {
        for b in &current {
            if a != b {
                let pa = blocks.get(a).unwrap().prefix;
                let pb = blocks.get(b).unwrap().prefix;
                assert!(!pa.is_compatible(&pb));
            }
        }
    }
}

#[test]
fn voters_only_grow() {
    let mut votes = VoteCounts::new();
    let edge = Vote { from: ewok::block::BlockId(0), to: ewok::block::BlockId(1) };
    votes.add_vote(edge, &names(vec![3]));
    votes.add_vote(edge, &names(vec![1]));
    assert_eq!(votes.get_voters(edge).unwrap(), &names(vec![1, 3]));
    // Recording the same voter again changes nothing.
    votes.add_vote(edge, &names(vec![3]));
    assert_eq!(votes.get_voters(edge).unwrap(), &names(vec![1, 3]));
}
