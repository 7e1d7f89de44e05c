//! Tests of the prefix algebra, the block rules, the vote graph laws and
//! the network model.

use ewok::block::{Block, Vote};
use ewok::blocks::{Blocks, VoteCounts};
use ewok::merge::merged_block;
use ewok::message::Message;
use ewok::message::MessageContent;
use ewok::name::{Name, Prefix};
use ewok::network::receive_from_conn;
use ewok::node::Node;
use ewok::params::{quorum, NodeParams};
use ewok::split::split_block;

fn names(mut xs: Vec<u64>) -> Vec<Name> {
    xs.sort();
    xs.dedup();
    xs.into_iter().map(Name).collect()
}

#[test]
fn test_quorum() {
    assert_eq!(501, quorum(1000));
    assert_eq!(6, quorum(10));
    assert_eq!(5, quorum(9));
    assert_eq!(3, quorum(4));
    assert_eq!(2, quorum(3));
    assert_eq!(2, quorum(2));
}

#[test]
fn prefix_algebra() {
    let p0 = Prefix::short(1, 0);
    let p1 = Prefix::short(1, 0b10000000);
    let p00 = Prefix::short(2, 0);
    let p01 = Prefix::short(2, 0b01000000);
    assert!(p0.is_prefix_of(&p00));
    assert!(p0.is_compatible(&p00));
    assert!(!p0.is_compatible(&p1));
    assert!(p00.is_neighbour(&p01));
    assert!(!p00.is_neighbour(&p00));
    assert_eq!(p0.sibling(), Some(p1));
    assert_eq!(Prefix::empty().sibling(), None);
    assert_eq!(p00.popped(), p0);
    assert_eq!(p0.pushed(false), p00);
    assert!(p0.matches(Name(0)));
    assert!(!p0.matches(Name(1 << 63)));
    // {00, 01, 1} covers the namespace; {00, 1} leaves a hole.
    let full = vec![p00, p01, p1];
    let holed = vec![p00, p1];
    assert!(Prefix::empty().is_covered_by(&full));
    assert!(!Prefix::empty().is_covered_by(&holed));
}

#[test]
fn admissibility_cases() {
    let base = Block {
        prefix: Prefix::short(1, 0),
        version: 3,
        members: names(vec![1, 2, 3, 4]),
    };
    // Single add and single drop.
    let added = base.add_node(Name(5));
    assert!(added.is_admissible_after(&base));
    let dropped = base.remove_node(Name(4));
    assert!(dropped.is_admissible_after(&base));
    // Two changes at once are not admissible.
    let two_changes = Block {
        prefix: base.prefix,
        version: 4,
        members: names(vec![1, 2]),
    };
    assert!(!two_changes.is_admissible_after(&base));
    // A version that does not increase is not admissible.
    let stale = Block {
        prefix: base.prefix,
        version: 3,
        members: names(vec![1, 2, 3, 4, 5]),
    };
    assert!(!stale.is_admissible_after(&base));
}

#[test]
fn split_preserves_members() {
    let mut blocks = Blocks::new();
    let low = 0u64;
    let high = 1u64 << 62;
    let members = names(vec![
        low + 1,
        low + 2,
        low + 3,
        high + 1,
        high + 2,
        high + 3,
    ]);
    let parent = Block {
        prefix: Prefix::short(1, 0),
        version: 7,
        members: members.clone(),
    };
    let parent_id = blocks.insert(parent);
    let current = vec![parent_id];
    let votes = split_block(&mut blocks, parent_id, &current, 3);
    assert_eq!(votes.len(), 2);
    let b0 = blocks.get(&votes[0].to).unwrap().clone();
    let b1 = blocks.get(&votes[1].to).unwrap().clone();
    assert_eq!(b0.version, 8);
    assert_eq!(b1.version, 8);
    // The two halves partition the parent's members.
    let mut rejoined: Vec<u64> = b0.members.iter().chain(b1.members.iter()).map(|n| n.0).collect();
    rejoined.sort();
    let original: Vec<u64> = members.iter().map(|n| n.0).collect();
    assert_eq!(rejoined, original);
    for n in &b0.members {
        assert!(!b1.members.contains(n));
    }
}

#[test]
fn split_needs_both_halves() {
    // All members on one side: no split.
    let mut blocks = Blocks::new();
    let members = names(vec![1, 2, 3, 4, 5, 6]);
    let parent = Block {
        prefix: Prefix::short(1, 0),
        version: 7,
        members,
    };
    let parent_id = blocks.insert(parent);
    let current = vec![parent_id];
    let votes = split_block(&mut blocks, parent_id, &current, 3);
    assert!(votes.is_empty());
}

#[test]
fn merge_preserves_members() {
    let b0 = Block {
        prefix: Prefix::short(2, 0b00000000),
        version: 4,
        members: names(vec![1, 2, 3]),
    };
    let b1 = Block {
        prefix: Prefix::short(2, 0b01000000),
        version: 9,
        members: names(vec![(1 << 62) + 1, (1 << 62) + 2, 3]),
    };
    let merged = merged_block(&b0, &b1);
    assert_eq!(merged.prefix, Prefix::short(1, 0));
    assert_eq!(merged.version, 10);
    let expected = names(vec![1, 2, 3, (1 << 62) + 1, (1 << 62) + 2]);
    assert_eq!(merged.members, expected);
}

#[test]
fn bootstrap_is_idempotent() {
    let mut blocks = Blocks::new();
    let a = blocks.insert(Block {
        prefix: Prefix::empty(),
        version: 0,
        members: names(vec![1, 2, 3]),
    });
    let b = blocks.insert(Block {
        prefix: Prefix::empty(),
        version: 1,
        members: names(vec![1, 2, 3, 4]),
    });
    let vote = Vote { from: a, to: b };
    let mut incoming = VoteCounts::new();
    incoming.add_vote(vote, &names(vec![1, 2]));

    let mut node = Node::new(Name(1), &blocks, vec![a], NodeParams::default(), 0);
    node.apply_bootstrap_msg(&blocks, &incoming);
    let once = node.vote_counts.get_voters(vote).unwrap().clone();
    node.apply_bootstrap_msg(&blocks, &incoming);
    let twice = node.vote_counts.get_voters(vote).unwrap().clone();
    assert_eq!(once, twice);
    assert_eq!(once, names(vec![1, 2]));
}

fn test_message(tag: bool) -> Message {
    Message {
        sender: Name(0),
        recipient: Name(1),
        content: if tag {
            MessageContent::Connect
        } else {
            MessageContent::Disconnect
        },
    }
}

#[test]
fn in_order_delivery_diff_step() {
    let max_delay = 20;
    let start_step = 45;
    let end_step = start_step + max_delay;

    for _ in 0..50 {
        let mut conn_messages = vec![
            (50u64, vec![test_message(true)]),
            (51u64, vec![test_message(false)]),
        ];

        let delivered = receive_from_conn(
            &mut conn_messages,
            1,
            2,
            max_delay,
            start_step,
            end_step,
        );

        // The disconnect may never arrive before the connect.
        if let Some(first_message) = delivered.first() {
            assert!(!matches!(first_message.content, MessageContent::Disconnect));
        }
    }
}

#[test]
fn in_order_delivery_same_step() {
    let max_delay = 20;
    let start_step = 45;
    let end_step = start_step + max_delay;

    for _ in 0..50 {
        let mut conn_messages = vec![
            (50u64, vec![test_message(true), test_message(false)]),
        ];

        let delivered = receive_from_conn(
            &mut conn_messages,
            1,
            2,
            max_delay,
            start_step,
            end_step,
        );

        // The disconnect may never arrive before the connect.
        if let Some(first_message) = delivered.first() {
            assert!(!matches!(first_message.content, MessageContent::Disconnect));
        }
    }
}

#[test]
fn deadline_forces_delivery() {
    // A message sent exactly max_delay steps ago always leaves the queue.
    let mut conn_messages = vec![(30u64, vec![test_message(true)])];
    let delivered = receive_from_conn(&mut conn_messages, 0, 1, 20, 30, 50);
    assert_eq!(delivered.len(), 1);
    assert!(conn_messages.is_empty());
    // With probability zero and no deadline pressure, nothing moves.
    let mut quiet = vec![(40u64, vec![test_message(true)])];
    let held = receive_from_conn(&mut quiet, 0, 1, 20, 30, 49);
    assert!(held.is_empty());
    assert_eq!(quiet.len(), 1);
}

#[test]
fn randomness_wrappers_behave() {
    assert!(!ewok::random::do_with_ratio(0, 1));
    assert!(ewok::random::do_with_ratio(5, 5));
    for _ in 0..32 {
        let v = ewok::random::rand_int(10, 14);
        assert!((10..14).contains(&v));
    }
    let mut v = names(vec![5, 9, 1, 7, 3]);
    let before = v.clone();
    ewok::random::shuffle(&mut v);
    let mut after = v.clone();
    after.sort_by_key(|n| n.0);
    assert_eq!(after, before);
}
