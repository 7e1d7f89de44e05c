//! Tests of peer-state tracking, candidates and the consistency oracle.

use ewok::block::Block;
use ewok::blocks::Blocks;
use ewok::candidate::Candidate;
use ewok::consistency::check_consistency;
use ewok::name::{Name, Prefix};
use ewok::node::Node;
use ewok::params::{CandidateParams, NodeParams};
use ewok::message::{Message, MessageContent};
use ewok::peer_state::{nodes_in_all, nodes_in_any};

fn names(mut xs: Vec<u64>) -> Vec<Name> {
    xs.sort();
    xs.dedup();
    xs.into_iter().map(Name).collect()
}

#[test]
fn current_blocks() {
    let block = Block::genesis(Name(0));

    let block1 = Block {
        prefix: block.prefix,
        version: block.version,
        members: names(vec![1, 2, 3, 4, 5]),
    };
    let block2 = Block {
        prefix: block.prefix,
        version: block.version,
        members: names(vec![1, 3, 5]),
    };

    let blocks = vec![block1, block2];

    assert_eq!(nodes_in_all(&blocks), names(vec![1, 3, 5]));
    assert_eq!(nodes_in_any(&blocks), names(vec![1, 2, 3, 4, 5]));
}

#[test]
fn candidate_lifecycle() {
    let params = CandidateParams::default();
    let block = Block {
        prefix: Prefix::empty(),
        version: 0,
        members: names(vec![1, 2, 3]),
    };
    let mut cand = Candidate::new(&params, 5);
    assert!(!cand.has_timed_out(&params, 5));
    assert!(cand.has_timed_out(&params, 5 + params.approval_timeout + 1));
    assert!(!cand.should_add_to_block(&params, 5));
    // One vote is not a quorum of three members; two are.
    assert!(cand.add_approval_vote(&block, Name(1), 6).is_none());
    let voters = cand.add_approval_vote(&block, Name(2), 7);
    assert_eq!(voters, Some(names(vec![1, 2])));
    // Resource proof completes some time within the configured window.
    let mut done = false;
    for step in 7..=7 + params.resource_proof_max {
        if cand.check_resource_proof(&params, step) {
            done = true;
            break;
        }
    }
    assert!(done);
    assert!(cand.should_add_to_block(&params, 8 + params.resource_proof_max));
}

#[test]
fn consistency_accepts_agreement() {
    let mut blocks = Blocks::new();
    let id = blocks.insert(Block {
        prefix: Prefix::empty(),
        version: 0,
        members: names(vec![1, 2, 3, 4, 5, 6, 7, 8]),
    });
    let params = NodeParams::default();
    let mut nodes = Vec::new();
    for n in 1..=8u64 {
        nodes.push(Node::new(Name(n), &blocks, vec![id], params, 0));
    }
    let map = check_consistency(&blocks, &nodes, params.min_section_size).unwrap();
    assert_eq!(map.len(), 1);
    assert_eq!(map[0].0, Prefix::empty());
    assert_eq!(map[0].1.members, names(vec![1, 2, 3, 4, 5, 6, 7, 8]));
}

#[test]
fn consistency_rejects_overlap() {
    // Two current prefixes that overlap are inconsistent.
    let mut blocks = Blocks::new();
    let wide = blocks.insert(Block {
        prefix: Prefix::empty(),
        version: 0,
        members: names(vec![1, 2, 3, 4, 5, 6, 7, 8]),
    });
    let narrow = blocks.insert(Block {
        prefix: Prefix::short(1, 0),
        version: 1,
        members: names(vec![1, 2, 3, 4, 5, 6, 7, 8]),
    });
    let params = NodeParams::default();
    let mut nodes = Vec::new();
    for n in 1..=8u64 {
        nodes.push(Node::new(Name(n), &blocks, vec![wide, narrow], params, 0));
    }
    assert!(check_consistency(&blocks, &nodes, params.min_section_size).is_err());
}

#[test]
fn consistency_rejects_small_section() {
    let mut blocks = Blocks::new();
    let id = blocks.insert(Block {
        prefix: Prefix::short(1, 0),
        version: 0,
        members: names(vec![1, 2, 3]),
    });
    let other = blocks.insert(Block {
        prefix: Prefix::short(1, 0b10000000),
        version: 0,
        members: names(vec![1 << 63, (1 << 63) + 1, (1 << 63) + 2, (1 << 63) + 3, (1 << 63) + 4, (1 << 63) + 5, (1 << 63) + 6, (1 << 63) + 7]),
    });
    let params = NodeParams::default();
    let mut nodes = Vec::new();
    for n in 1..=3u64 {
        nodes.push(Node::new(Name(n), &blocks, vec![id, other], params, 0));
    }
    for n in 0..8u64 {
        nodes.push(Node::new(Name((1 << 63) + n), &blocks, vec![id, other], params, 0));
    }
    // Section 0 has only 3 members, below the default minimum of 8.
    assert!(check_consistency(&blocks, &nodes, params.min_section_size).is_err());
}

#[test]
fn consistency_rejects_dead_member() {
    let mut blocks = Blocks::new();
    let id = blocks.insert(Block {
        prefix: Prefix::empty(),
        version: 0,
        members: names(vec![1, 2, 3, 4, 5, 6, 7, 8]),
    });
    let params = NodeParams::default();
    let mut nodes = Vec::new();
    for n in 1..=7u64 {
        nodes.push(Node::new(Name(n), &blocks, vec![id], params, 0));
    }
    // Name 8 is in the block but not alive.
    assert!(check_consistency(&blocks, &nodes, params.min_section_size).is_err());
}

#[test]
fn connect_and_disconnect_are_idempotent() {
    let mut blocks = Blocks::new();
    let id = blocks.insert(Block {
        prefix: Prefix::empty(),
        version: 0,
        members: names(vec![1, 2]),
    });
    let params = NodeParams::default();
    let mut node = Node::new(Name(1), &blocks, vec![id], params, 0);

    let connect = Message {
        sender: Name(9),
        recipient: Name(1),
        content: MessageContent::Connect,
    };
    let replies = node.handle_message(connect, &blocks, 1);
    assert!(node.connections.contains(&Name(9)));
    // A fresh connect is answered symmetrically.
    assert_eq!(replies.len(), 1);
    assert!(matches!(replies[0].content, MessageContent::Connect));
    assert_eq!(replies[0].recipient, Name(9));

    // A repeated connect needs no reply.
    let connect_again = Message {
        sender: Name(9),
        recipient: Name(1),
        content: MessageContent::Connect,
    };
    let replies = node.handle_message(connect_again, &blocks, 2);
    assert!(replies.is_empty());

    // Disconnects drop the connection; a duplicate is ignored.
    for step in 3..5 {
        let disconnect = Message {
            sender: Name(9),
            recipient: Name(1),
            content: MessageContent::Disconnect,
        };
        let replies = node.handle_message(disconnect, &blocks, step);
        assert!(replies.is_empty());
        assert!(!node.connections.contains(&Name(9)));
    }
}

#[test]
fn vote_message_recipients() {
    let mut blocks = Blocks::new();
    let from = blocks.insert(Block {
        prefix: Prefix::empty(),
        version: 0,
        members: names(vec![1, 2, 3]),
    });
    let to = blocks.insert(Block {
        prefix: Prefix::empty(),
        version: 1,
        members: names(vec![1, 2, 3, 4]),
    });
    let content = MessageContent::VoteMsg(ewok::block::Vote { from, to });
    let current = vec![from];
    let recipients = content.recipients(&blocks, &current, Name(1));
    // Vote messages go to the members of both endpoint blocks.
    assert_eq!(recipients, names(vec![1, 2, 3, 4]));
}
