//! Membership events injected by the driver, and how they are announced
//! to the nodes.

use vstd::prelude::*;
use crate::message::{Message, MessageContent};
use crate::name::{Name, Prefix};
use crate::node::Node;

verus! {

/// A membership event.
#[derive(Clone, Copy)]
pub enum Event {
    /// A node with this name joins.
    AddNode(Name),
    /// The node with this name leaves.
    RemoveNode(Name),
    /// Some currently alive node in this prefix leaves.
    RemoveNodeFrom(Prefix),
}

impl Event {
    /// Turn the event into one notification per live node: a join message
    /// from the joiner, or a disconnect from the leaver.
    pub fn broadcast(&self, nodes: &Vec<Node>) -> (r: Vec<Message>)
        requires
            !(self matches Event::RemoveNodeFrom(_)),
        ensures
            r@.len() == nodes@.len(),
            forall|k: int|
                0 <= k < r@.len() ==> (#[trigger] r@[k]).recipient == nodes@[k].our_name,
            self matches Event::AddNode(n) ==> forall|k: int|
                0 <= k < r@.len() ==> (#[trigger] r@[k]).sender == n && r@[k].content
                    matches MessageContent::NodeJoined,
            self matches Event::RemoveNode(n) ==> forall|k: int|
                0 <= k < r@.len() ==> (#[trigger] r@[k]).sender == n && r@[k].content
                    matches MessageContent::Disconnect,
    {
        let mut out: Vec<Message> = Vec::new();
        let mut i: usize = 0;
        while i < nodes.len()
            invariant
                !(self matches Event::RemoveNodeFrom(_)),
                i <= nodes@.len(),
                out@.len() == i,
                forall|k: int|
                    0 <= k < out@.len() ==> (#[trigger] out@[k]).recipient
                        == nodes@[k].our_name,
                self matches Event::AddNode(n) ==> forall|k: int|
                    0 <= k < out@.len() ==> (#[trigger] out@[k]).sender == n && out@[k].content
                        matches MessageContent::NodeJoined,
                self matches Event::RemoveNode(n) ==> forall|k: int|
                    0 <= k < out@.len() ==> (#[trigger] out@[k]).sender == n && out@[k].content
                        matches MessageContent::Disconnect,
            decreases nodes@.len() - i,
        {
            let recipient = nodes[i].our_name;
            let msg = match self {
                Event::AddNode(name) => Message {
                    sender: *name,
                    recipient,
                    content: MessageContent::NodeJoined,
                },
                Event::RemoveNode(name) => Message {
                    sender: *name,
                    recipient,
                    content: MessageContent::Disconnect,
                },
                Event::RemoveNodeFrom(_) => Message {
                    sender: recipient,
                    recipient,
                    content: MessageContent::Disconnect,
                },
            };
            out.push(msg);
            i = i + 1;
        }
        out
    }

    /// Resolve a prefix-level removal to a concrete live node, if any
    /// matches; other events pass through unchanged.
    pub fn normalise(self, nodes: &Vec<Node>) -> (r: Option<Event>)
        ensures
            !(self matches Event::RemoveNodeFrom(_)) ==> r == Some(self),
            self is RemoveNodeFrom && self->RemoveNodeFrom_0.wf() ==> match r {
                Some(ev) => ev matches Event::RemoveNode(n)
                    && self->RemoveNodeFrom_0.spec_matches(n) && exists|k: int|
                    0 <= k < nodes@.len() && (#[trigger] nodes@[k]).our_name == n,
                None => forall|k: int|
                    0 <= k < nodes@.len() ==> !self->RemoveNodeFrom_0.spec_matches(
                        (#[trigger] nodes@[k]).our_name,
                    ),
            },
            self matches Event::RemoveNodeFrom(p) ==> (r is None || exists|k: int|
                0 <= k < nodes@.len() && r == Some(
                    Event::RemoveNode((#[trigger] nodes@[k]).our_name),
                )),
            r matches Some(ev) ==> !(ev matches Event::RemoveNodeFrom(_)),
    {
        match self {
            Event::RemoveNodeFrom(prefix) => {
                if prefix.bit_count > 64 {
                    return None;
                }
                let canonical = Prefix::new(prefix.bit_count, prefix.name);
                proof {
                    if prefix.wf() {
                        crate::name::lemma_prefix_eq(canonical, prefix);
                    }
                }
                match select_node_to_remove(canonical, nodes) {
                    Some(name) => {
                        proof {
                            let k = choose|k: int|
                                0 <= k < nodes@.len() && (#[trigger] nodes@[k]).our_name == name
                                    && canonical.spec_matches(name);
                        }
                        Some(Event::RemoveNode(name))
                    },
                    None => None,
                }
            },
            _ => Some(self),
        }
    }
}

/// The first live node whose name matches the prefix.
fn select_node_to_remove(prefix: Prefix, nodes: &Vec<Node>) -> (r: Option<Name>)
    requires
        prefix.wf(),
    ensures
        r matches Some(n) ==> exists|k: int|
            0 <= k < nodes@.len() && (#[trigger] nodes@[k]).our_name == n
                && prefix.spec_matches(n),
        r is None ==> forall|k: int|
            0 <= k < nodes@.len() ==> !prefix.spec_matches((#[trigger] nodes@[k]).our_name),
{
    let mut i: usize = 0;
    while i < nodes.len()
        invariant
            prefix.wf(),
            i <= nodes@.len(),
            forall|k: int|
                0 <= k < i ==> !prefix.spec_matches((#[trigger] nodes@[k]).our_name),
        decreases nodes@.len() - i,
    {
        let name = nodes[i].our_name;
        if prefix.matches(name) {
            proof {
                assert(nodes@[i as int].our_name == name);
            }
            return Some(name);
        }
        i = i + 1;
    }
    None
}

} // verus!
