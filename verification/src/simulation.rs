//! The simulation driver: a discrete-step phase machine that injects
//! scheduled membership events, moves messages through the network model,
//! and checks global consistency at the end.

use vstd::prelude::*;
use crate::block::{Block, BlockId};
use crate::blocks::{copy_ids, ids_stored, no_dup_ids, Blocks};
use crate::consistency::{check_consistency, consistent};
use crate::event::Event;
use crate::event_schedule::EventSchedule;
use crate::generate::generate_network;
use crate::message::{Message, MessageContent};
use crate::name::{Name, Prefix};
use crate::network::Network;
use crate::node::{lemma_wf_monotone, Node};
use crate::params::{quorum, NodeParams, SimulationParams};
use crate::random::shuffle;

verus! {

/// Extra steps allowed in the finishing phase before giving up.
pub const MAX_EXTRA_STEPS: u64 = 1000;

/// The coarse state of the driver, deciding which events fire.
#[derive(Clone, Copy)]
pub enum Phase {
    /// Building the initial population.
    Starting,
    /// Random joins growing the network.
    Growth,
    /// Steady churn for a fixed number of steps.
    Stable {
        /// First step of the stable phase.
        since_step: u64,
    },
    /// Random drops shrinking the network.
    Shrinking,
    /// No more events; drain the queues and stop.
    Finishing {
        /// First step of the finishing phase.
        since_step: u64,
    },
}

/// An unordered pair of disconnected nodes, stored lowest name first.
pub struct DisconnectedPair {
    /// The smaller of the two names.
    pub lower: Name,
    /// The larger of the two names.
    pub higher: Name,
}

impl DisconnectedPair {
    /// Make a pair from two distinct names.
    pub fn new(x: Name, y: Name) -> (r: DisconnectedPair)
        requires
            x != y,
        ensures
            r.lower.0 < r.higher.0,
            (r.lower == x && r.higher == y) || (r.lower == y && r.higher == x),
    {
        if x.0 < y.0 {
            DisconnectedPair { lower: x, higher: y }
        } else {
            DisconnectedPair { lower: y, higher: x }
        }
    }

    /// The smaller name of the pair.
    pub fn lower(&self) -> (r: Name)
        ensures
            r == self.lower,
    {
        self.lower
    }

    /// The larger name of the pair.
    pub fn higher(&self) -> (r: Name)
        ensures
            r == self.higher,
    {
        self.higher
    }
}

/// Pick a node to remove whose own section can afford the loss: the
/// section must keep a quorum (or the whole minimum size, if it is the
/// only section) of live members after the removal. Names are tried in a
/// random order, so any qualifying node may come back.
pub fn find_node_to_remove(
    blocks: &Blocks,
    nodes: &Vec<Node>,
    min_section_size: usize,
) -> (r: Option<Name>)
    requires
        blocks.wf(),
        forall|k: int| 0 <= k < nodes@.len() ==> (#[trigger] nodes@[k]).wf(*blocks),
    ensures
        r matches Some(n) ==> exists|k: int|
            0 <= k < nodes@.len() && (#[trigger] nodes@[k]).our_name == n,
{
    let mut names: Vec<Name> = Vec::new();
    let mut i: usize = 0;
    while i < nodes.len()
        invariant
            i <= nodes@.len(),
            forall|y: Name|
                #[trigger] names@.contains(y) ==> exists|k: int|
                    0 <= k < nodes@.len() && (#[trigger] nodes@[k]).our_name == y,
        decreases nodes@.len() - i,
    {
        let ghost pre = names@;
        let y = nodes[i].our_name;
        names.push(y);
        proof {
            crate::members::lemma_push_contains(pre, y);
            assert(nodes@[i as int].our_name == y);
        }
        i = i + 1;
    }
    let ghost before = names@;
    shuffle(&mut names);
    proof {
        broadcast use vstd::seq_lib::group_to_multiset_ensures;

        assert forall|y: Name| #[trigger] names@.contains(y) implies exists|k: int|
            0 <= k < nodes@.len() && (#[trigger] nodes@[k]).our_name == y by {
            assert(names@.to_multiset().count(y) > 0);
            assert(before.to_multiset().count(y) > 0);
            assert(before.contains(y));
        }
    }
    let mut j: usize = 0;
    while j < names.len()
        invariant
            blocks.wf(),
            forall|k: int| 0 <= k < nodes@.len() ==> (#[trigger] nodes@[k]).wf(*blocks),
            j <= names@.len(),
            forall|y: Name|
                #[trigger] names@.contains(y) ==> exists|k: int|
                    0 <= k < nodes@.len() && (#[trigger] nodes@[k]).our_name == y,
        decreases names@.len() - j,
    {
        let name = names[j];
        proof {
            assert(names@.contains(names@[j as int]));
        }
        // Find the node and its own current block.
        let mut ni: usize = 0;
        let mut found: Option<usize> = None;
        while ni < nodes.len()
            invariant
                ni <= nodes@.len(),
                found matches Some(f) ==> f < nodes@.len() && nodes@[f as int].our_name == name,
            decreases nodes@.len() - ni,
        {
            if found.is_none() && nodes[ni].our_name == name {
                found = Some(ni);
                proof {
                    assert(nodes@[ni as int].our_name == name);
                }
            }
            ni = ni + 1;
        }
        if let Some(f) = found {
            let node = &nodes[f];
            let ours = node.our_current_blocks(blocks);
            if ours.len() > 0 {
                proof {
                    crate::members::lemma_filter_subset(
                        node.current_blocks@,
                        |id: BlockId| blocks.spec_get(id).members@.contains(node.our_name),
                    );
                    assert(ours@.contains(ours@[0]));
                }
                let blk = ours[0].into_block(blocks);
                // Count this block's members that are alive.
                let mut num_live: usize = 0;
                let mut mi: usize = 0;
                while mi < blk.members.len()
                    invariant
                        mi <= blk.members@.len(),
                        num_live <= mi,
                    decreases blk.members@.len() - mi,
                {
                    let y = blk.members[mi];
                    let mut alive = false;
                    let mut q: usize = 0;
                    while q < nodes.len()
                        invariant
                            q <= nodes@.len(),
                        decreases nodes@.len() - q,
                    {
                        if nodes[q].our_name == y {
                            alive = true;
                        }
                        q = q + 1;
                    }
                    if alive {
                        num_live = num_live + 1;
                    }
                    mi = mi + 1;
                }
                let min_nodes = if blk.prefix.bit_count() == 0 {
                    min_section_size
                } else {
                    let qn = quorum(blk.members.len());
                    if qn < usize::MAX {
                        qn + 1
                    } else {
                        qn
                    }
                };
                if num_live > min_nodes {
                    proof {
                        assert(nodes@[f as int].our_name == name);
                    }
                    return Some(name);
                }
            }
        }
        j = j + 1;
    }
    None
}

/// The whole simulation: the shared block store, the nodes, the network
/// and the phase machine.
pub struct Simulation {
    /// The shared, append-only block store.
    pub blocks: Blocks,
    /// The live nodes.
    pub nodes: Vec<Node>,
    /// The blocks every joining node starts from.
    pub genesis_set: Vec<BlockId>,
    /// The in-process network.
    pub network: Network,
    /// Driver parameters.
    pub params: SimulationParams,
    /// Node parameters.
    pub node_params: NodeParams,
    /// The current phase.
    pub phase: Phase,
    /// Pairs of nodes whose mutual connection is down, awaiting a
    /// reconnect.
    pub disconnected: Vec<(Name, Name)>,
    /// The schedule of events to inject.
    pub event_schedule: EventSchedule,
}

impl Simulation {
    /// Everything in the simulation is well-formed and points into the
    /// shared store.
    pub open spec fn wf(self) -> bool {
        &&& self.blocks.wf()
        &&& forall|k: int| 0 <= k < self.nodes@.len() ==> (#[trigger] self.nodes@[k]).wf(self.blocks)
        &&& ids_stored(self.blocks, self.genesis_set@)
        &&& no_dup_ids(self.genesis_set@)
        &&& self.network.wf()
        &&& self.network.max_delay == self.params.max_delay
        &&& self.event_schedule.wf()
        &&& self.network.prob_num == self.params.prob_deliver_num
        &&& self.network.prob_den == self.params.prob_deliver_den
        &&& self.params.max_delay >= 1
        &&& self.params.prob_deliver_den > 0
        &&& self.params.prob_deliver_num <= self.params.prob_deliver_den
        &&& self.node_params.min_section_size + self.node_params.split_buffer <= usize::MAX
    }

    /// A simulation started from sections of the given sizes.
    pub fn new_from(
        sections: Vec<(Prefix, usize)>,
        event_schedule: EventSchedule,
        params: SimulationParams,
        node_params: NodeParams,
    ) -> (r: Simulation)
        requires
            forall|k: int| 0 <= k < sections@.len() ==> (#[trigger] sections@[k]).0.wf(),
            crate::name::prefix_covered(
                Prefix { bit_count: 0, name: Name(0) },
                crate::generate::section_prefixes(sections@),
            ),
            forall|i: int, j: int|
                0 <= i < j < sections@.len() ==> !(#[trigger] sections@[i]).0.spec_compatible(
                    (#[trigger] sections@[j]).0,
                ),
            event_schedule.wf(),
            params.max_delay >= 1,
            params.prob_deliver_den > 0,
            params.prob_deliver_num <= params.prob_deliver_den,
            node_params.min_section_size + node_params.split_buffer <= usize::MAX,
        ensures
            r.wf(),
            r.params == params,
            r.node_params == node_params,
    {
        let mut blocks = Blocks::new();
        let (nodes, genesis_set) = generate_network(&mut blocks, &sections, &node_params);
        let network = Network::new(
            params.max_delay,
            params.prob_deliver_num,
            params.prob_deliver_den,
        );
        Simulation {
            blocks,
            nodes,
            genesis_set,
            network,
            params,
            node_params,
            phase: Phase::Starting,
            disconnected: Vec::new(),
            event_schedule,
        }
    }

    /// A simulation started from a single seed node.
    pub fn new(params: SimulationParams, node_params: NodeParams) -> (r: Simulation)
        requires
            params.max_delay >= 1,
            params.prob_deliver_den > 0,
            params.prob_deliver_num <= params.prob_deliver_den,
            node_params.min_section_size + node_params.split_buffer <= usize::MAX,
        ensures
            r.wf(),
            r.params == params,
            r.node_params == node_params,
    {
        let mut sections: Vec<(Prefix, usize)> = Vec::new();
        sections.push((Prefix::empty(), 1usize));
        proof {
            let ghost e = Prefix { bit_count: 0, name: Name(0) };
            assert(sections@[0].0 == e);
            assert(crate::generate::section_prefixes(sections@)[0] == e);
            assert(crate::generate::section_prefixes(sections@).contains(e));
            crate::name::lemma_covered_by_member(
                e,
                e,
                crate::generate::section_prefixes(sections@),
            );
        }
        Self::new_from(sections, EventSchedule::empty(), params, node_params)
    }

    /// Register a joining node, started from the genesis set.
    fn apply_add_node(&mut self, joining: Name, step: u64)
        requires
            old(self).wf(),
        ensures
            final(self).wf(),
            final(self).blocks == old(self).blocks,
            final(self).network == old(self).network,
            final(self).params == old(self).params,
            final(self).node_params == old(self).node_params,
            final(self).phase == old(self).phase,
    {
        let node = Node::new(
            joining,
            &self.blocks,
            copy_ids(&self.genesis_set),
            self.node_params,
            step,
        );
        // Replace any existing node of the same name.
        self.apply_remove_node(joining);
        let ghost pre = self.nodes@;
        self.nodes.push(node);
        proof {
            assert forall|k: int|
                0 <= k < self.nodes@.len() implies (#[trigger] self.nodes@[k]).wf(
                self.blocks,
            ) by {
                if k < pre.len() {
                    assert(self.nodes@[k] == pre[k]);
                }
            }
        }
    }

    /// Remove a leaving node from the table.
    fn apply_remove_node(&mut self, leaving: Name)
        requires
            old(self).wf(),
        ensures
            final(self).wf(),
            final(self).blocks == old(self).blocks,
            final(self).network == old(self).network,
            final(self).params == old(self).params,
            final(self).node_params == old(self).node_params,
            final(self).phase == old(self).phase,
    {
        let mut kept: Vec<Node> = Vec::new();
        while self.nodes.len() > 0
            invariant
                old(self).wf(),
                self.blocks == old(self).blocks,
                self.network == old(self).network,
                self.params == old(self).params,
                self.node_params == old(self).node_params,
                self.phase == old(self).phase,
                self.genesis_set == old(self).genesis_set,
                self.event_schedule == old(self).event_schedule,
                forall|k: int| 0 <= k < self.nodes@.len() ==> (#[trigger] self.nodes@[k]).wf(self.blocks),
                forall|k: int| 0 <= k < kept@.len() ==> (#[trigger] kept@[k]).wf(self.blocks),
            decreases self.nodes@.len(),
        {
            let ghost pre = self.nodes@;
            let node = self.nodes.remove(0);
            proof {
                assert(self.nodes@ =~= pre.drop_first());
                assert(pre[0].wf(self.blocks));
                assert forall|k: int|
                    0 <= k < self.nodes@.len() implies (#[trigger] self.nodes@[k]).wf(
                    self.blocks,
                ) by {
                    assert(self.nodes@[k] == pre[k + 1]);
                }
            }
            if node.our_name.0 != leaving.0 {
                kept.push(node);
            }
        }
        self.nodes = kept;
        // Forget pending reconnects that involve the departed node.
        let mut kept_pairs: Vec<(Name, Name)> = Vec::new();
        let mut pi: usize = 0;
        while pi < self.disconnected.len()
            invariant
                pi <= self.disconnected@.len(),
            decreases self.disconnected@.len() - pi,
        {
            let (a, b) = self.disconnected[pi];
            if a.0 != leaving.0 && b.0 != leaving.0 {
                kept_pairs.push((a, b));
            }
            pi = pi + 1;
        }
        self.disconnected = kept_pairs;
    }

    /// Inject arbitrary membership events at this step: resolve each to a
    /// concrete node, announce it to every live node and apply it to the
    /// node table. This is how a caller drives random churn: it samples
    /// the events, the driver replays them.
    pub fn inject_events(&mut self, events: Vec<Event>, step: u64, Ghost(lo): Ghost<int>)
        requires
            old(self).wf(),
            old(self).network.steps_in(lo, step as int),
            lo <= step as int,
        ensures
            final(self).wf(),
            final(self).network.steps_in(lo, step as int),
            final(self).network.max_delay == old(self).network.max_delay,
            final(self).network.prob_num == old(self).network.prob_num,
            final(self).network.prob_den == old(self).network.prob_den,
            final(self).params == old(self).params,
            final(self).node_params == old(self).node_params,
            final(self).phase == old(self).phase,
            final(self).blocks == old(self).blocks,
    {
        let mut i: usize = 0;
        while i < events.len()
            invariant
                self.wf(),
                self.network.steps_in(lo, step as int),
                lo <= step as int,
                self.network.max_delay == old(self).network.max_delay,
                self.network.prob_num == old(self).network.prob_num,
                self.network.prob_den == old(self).network.prob_den,
                self.params == old(self).params,
                self.node_params == old(self).node_params,
                self.phase == old(self).phase,
                self.blocks == old(self).blocks,
                i <= events@.len(),
            decreases events@.len() - i,
        {
            let ev = events[i];
            match ev.normalise(&self.nodes) {
                Some(ev) => {
                    let msgs = ev.broadcast(&self.nodes);
                    self.network.send(step, msgs, Ghost(lo));
                    match ev {
                        Event::AddNode(name) => self.apply_add_node(name, step),
                        Event::RemoveNode(name) => self.apply_remove_node(name),
                        Event::RemoveNodeFrom(_) => {},
                    }
                },
                None => {},
            }
            i = i + 1;
        }
    }

    /// Inject the scheduled events for this step.
    pub fn generate_events(&mut self, step: u64, Ghost(lo): Ghost<int>)
        requires
            old(self).wf(),
            old(self).network.steps_in(lo, step as int),
            lo <= step as int,
        ensures
            final(self).wf(),
            final(self).network.steps_in(lo, step as int),
            final(self).network.max_delay == old(self).network.max_delay,
            final(self).network.prob_num == old(self).network.prob_num,
            final(self).network.prob_den == old(self).network.prob_den,
            final(self).params == old(self).params,
            final(self).node_params == old(self).node_params,
            final(self).phase == old(self).phase,
            final(self).blocks == old(self).blocks,
    {
        let events = self.event_schedule.get_events(step);
        self.inject_events(events, step, Ghost(lo));
    }

    /// The next step's phase: starting and growth complete on network
    /// size, the stable phase on elapsed steps, and shrinking once one
    /// more removal would take the population to half the minimum.
    pub fn phase_for_next_step(&self, step: u64) -> (r: Phase)
        ensures
            r == self.spec_phase_next(step),
    {
        match self.phase {
            Phase::Starting => {
                if self.nodes.len() >= self.params.starting_complete {
                    if self.params.grow_join_enabled {
                        Phase::Growth
                    } else {
                        Phase::Stable { since_step: if step < u64::MAX { step + 1 } else { step } }
                    }
                } else {
                    Phase::Starting
                }
            },
            Phase::Growth => {
                if self.nodes.len() >= self.params.grow_complete {
                    Phase::Stable { since_step: if step < u64::MAX { step + 1 } else { step } }
                } else {
                    Phase::Growth
                }
            },
            Phase::Stable { since_step } => {
                if step >= since_step && step - since_step >= self.params.stable_steps {
                    if self.params.shrink_drop_enabled {
                        Phase::Shrinking
                    } else {
                        Phase::Finishing {
                            since_step: if step < u64::MAX {
                                step + 1
                            } else {
                                step
                            },
                        }
                    }
                } else {
                    Phase::Stable { since_step }
                }
            },
            Phase::Shrinking => {
                if self.nodes.len() >= 1 && ((self.nodes.len() - 1) as u128) * 2
                    <= (self.node_params.min_section_size as u128) {
                    Phase::Finishing {
                        since_step: if step < u64::MAX {
                            step + 1
                        } else {
                            step
                        },
                    }
                } else {
                    Phase::Shrinking
                }
            },
            Phase::Finishing { since_step } => Phase::Finishing { since_step },
        }
    }

    /// The phase transition relation realised by `phase_for_next_step`.
    pub open spec fn spec_phase_next(self, step: u64) -> Phase {
        let bumped = if step < u64::MAX {
            (step + 1) as u64
        } else {
            step
        };
        match self.phase {
            Phase::Starting => if self.nodes@.len() >= self.params.starting_complete {
                if self.params.grow_join_enabled {
                    Phase::Growth
                } else {
                    Phase::Stable { since_step: bumped }
                }
            } else {
                Phase::Starting
            },
            Phase::Growth => if self.nodes@.len() >= self.params.grow_complete {
                Phase::Stable { since_step: bumped }
            } else {
                Phase::Growth
            },
            Phase::Stable { since_step } => if step >= since_step + self.params.stable_steps {
                if self.params.shrink_drop_enabled {
                    Phase::Shrinking
                } else {
                    Phase::Finishing { since_step: bumped }
                }
            } else {
                Phase::Stable { since_step }
            },
            Phase::Shrinking => if self.nodes@.len() >= 1 && (self.nodes@.len() - 1) * 2
                <= self.node_params.min_section_size {
                Phase::Finishing { since_step: bumped }
            } else {
                Phase::Shrinking
            },
            Phase::Finishing { since_step } => Phase::Finishing { since_step },
        }
    }

    /// Drive one whole step: inject the scheduled events plus the given
    /// extra ones, apply the requested connectivity churn (paired
    /// disconnects, and reconnects of previously disconnected pairs),
    /// deliver the due messages, retire nodes that failed to join, and
    /// let every node update its state and vote. Returns whether some
    /// node's valid set breached the conflicting-block bound. A caller
    /// samples the churn per phase and drives this in a loop, stepping
    /// `step` by one each time.
    pub fn step_once(
        &mut self,
        step: u64,
        extra_events: Vec<Event>,
        disconnects: Vec<(Name, Name)>,
        reconnects: Vec<(Name, Name)>,
    ) -> (breach: bool)
        requires
            old(self).wf(),
            old(self).network.steps_in(
                if step >= old(self).params.max_delay {
                    step - old(self).params.max_delay
                } else {
                    0
                },
                step as int,
            ),
        ensures
            final(self).wf(),
            final(self).params == old(self).params,
            final(self).node_params == old(self).node_params,
            final(self).phase == old(self).phase,
            final(self).network.steps_in(
                if step + 1 >= old(self).params.max_delay {
                    step + 1 - old(self).params.max_delay
                } else {
                    0
                },
                step as int,
            ),
    {
        let ghost lo_pre: int = if step >= self.params.max_delay {
            step - self.params.max_delay
        } else {
            0
        };
        let ghost lo_post: int = if step + 1 >= self.params.max_delay {
            step + 1 - self.params.max_delay
        } else {
            0
        };
        let mut finishing = false;
        match self.phase {
            Phase::Finishing { .. } => {
                finishing = true;
            },
            _ => {},
        }
        if !finishing {
            self.generate_events(step, Ghost(lo_pre));
        }
        self.inject_events(extra_events, step, Ghost(lo_pre));
        // Connectivity churn: break the requested pairs...
        let mut di: usize = 0;
        while di < disconnects.len()
            invariant
                self.wf(),
                self.network.steps_in(lo_pre, step as int),
                lo_pre <= step as int,
                self.params == old(self).params,
                self.node_params == old(self).node_params,
                self.phase == old(self).phase,
                di <= disconnects@.len(),
            decreases disconnects@.len() - di,
        {
            let (a, b) = disconnects[di];
            if a.0 != b.0 {
                let mut msgs: Vec<Message> = Vec::new();
                msgs.push(
                    Message {
                        sender: a,
                        recipient: b,
                        content: MessageContent::Disconnect,
                    },
                );
                msgs.push(
                    Message {
                        sender: b,
                        recipient: a,
                        content: MessageContent::Disconnect,
                    },
                );
                self.network.send(step, msgs, Ghost(lo_pre));
                let mut present = false;
                let mut pi: usize = 0;
                while pi < self.disconnected.len()
                    invariant
                        pi <= self.disconnected@.len(),
                    decreases self.disconnected@.len() - pi,
                {
                    let (x, y) = self.disconnected[pi];
                    if (x.0 == a.0 && y.0 == b.0) || (x.0 == b.0 && y.0 == a.0) {
                        present = true;
                    }
                    pi = pi + 1;
                }
                if !present {
                    self.disconnected.push((a, b));
                }
            }
            di = di + 1;
        }
        // ... and mend the requested previously broken ones.
        let mut ri: usize = 0;
        while ri < reconnects.len()
            invariant
                self.wf(),
                self.network.steps_in(lo_pre, step as int),
                lo_pre <= step as int,
                self.params == old(self).params,
                self.node_params == old(self).node_params,
                self.phase == old(self).phase,
                ri <= reconnects@.len(),
            decreases reconnects@.len() - ri,
        {
            let (a, b) = reconnects[ri];
            let mut kept_pairs: Vec<(Name, Name)> = Vec::new();
            let mut was_down = false;
            let mut pi: usize = 0;
            while pi < self.disconnected.len()
                invariant
                    pi <= self.disconnected@.len(),
                decreases self.disconnected@.len() - pi,
            {
                let (x, y) = self.disconnected[pi];
                if (x.0 == a.0 && y.0 == b.0) || (x.0 == b.0 && y.0 == a.0) {
                    was_down = true;
                } else {
                    kept_pairs.push((x, y));
                }
                pi = pi + 1;
            }
            if was_down {
                self.disconnected = kept_pairs;
                let mut msgs: Vec<Message> = Vec::new();
                msgs.push(
                    Message {
                        sender: a,
                        recipient: b,
                        content: MessageContent::Connect,
                    },
                );
                msgs.push(
                    Message {
                        sender: b,
                        recipient: a,
                        content: MessageContent::Connect,
                    },
                );
                self.network.send(step, msgs, Ghost(lo_pre));
            }
            ri = ri + 1;
        }
        // Deliver the due messages to their recipients.
        let mut delivered = self.network.receive(step);
        while delivered.len() > 0
            invariant
                self.wf(),
                self.network.steps_in(lo_post, step as int),
                lo_post == if step + 1 >= self.params.max_delay {
                    step + 1 - self.params.max_delay
                } else {
                    0
                },
                self.params == old(self).params,
                self.node_params == old(self).node_params,
                self.phase == old(self).phase,
            decreases delivered@.len(),
        {
            let message = delivered.remove(0);
            let recipient = message.recipient;
            let mut ni: usize = 0;
            let mut found: Option<usize> = None;
            while ni < self.nodes.len()
                invariant
                    found matches Some(f) ==> f < self.nodes@.len(),
                    ni <= self.nodes@.len(),
                decreases self.nodes@.len() - ni,
            {
                if found.is_none() && self.nodes[ni].our_name == recipient {
                    found = Some(ni);
                }
                ni = ni + 1;
            }
            if let Some(f) = found {
                let mut node = self.nodes.remove(f);
                let replies = node.handle_message(message, &self.blocks, step);
                self.nodes.insert(f, node);
                self.network.send(step, replies, Ghost(lo_post));
                proof {
                    assert forall|k: int|
                        0 <= k < self.nodes@.len() implies (#[trigger] self.nodes@[k]).wf(
                        self.blocks,
                    ) by {}
                }
            }
        }
        // Shut down nodes that have failed to join.
        let mut to_shutdown: Vec<Name> = Vec::new();
        let mut si: usize = 0;
        while si < self.nodes.len()
            invariant
                self.wf(),
                self.network.steps_in(lo_post, step as int),
                lo_post == if step + 1 >= self.params.max_delay {
                    step + 1 - self.params.max_delay
                } else {
                    0
                },
                self.params == old(self).params,
                self.node_params == old(self).node_params,
                self.phase == old(self).phase,
                si <= self.nodes@.len(),
            decreases self.nodes@.len() - si,
        {
            if self.nodes[si].should_shutdown(&self.blocks, step) {
                to_shutdown.push(self.nodes[si].our_name);
            }
            si = si + 1;
        }
        while to_shutdown.len() > 0
            invariant
                self.wf(),
                self.network.steps_in(lo_post, step as int),
                lo_post == if step + 1 >= self.params.max_delay {
                    step + 1 - self.params.max_delay
                } else {
                    0
                },
                self.params == old(self).params,
                self.node_params == old(self).node_params,
                self.phase == old(self).phase,
            decreases to_shutdown@.len(),
        {
            let name = to_shutdown.remove(0);
            self.apply_remove_node(name);
            let removal = Event::RemoveNode(name);
            let msgs = removal.broadcast(&self.nodes);
            self.network.send(step, msgs, Ghost(lo_post));
        }
        // Let each node update its state and emit new votes.
        let mut breach = false;
        let mut vi: usize = 0;
        while vi < self.nodes.len()
            invariant
                self.wf(),
                self.network.steps_in(lo_post, step as int),
                lo_post == if step + 1 >= self.params.max_delay {
                    step + 1 - self.params.max_delay
                } else {
                    0
                },
                self.params == old(self).params,
                self.node_params == old(self).node_params,
                self.phase == old(self).phase,
                vi <= self.nodes@.len(),
            decreases self.nodes@.len() - vi,
        {
            let ghost pre_nodes = self.nodes@;
            let mut node = self.nodes.remove(vi);
            let ghost others = self.nodes@;
            let ghost pre_store = self.blocks;
            proof {
                assert(pre_nodes[vi as int].wf(self.blocks));
                assert forall|k: int|
                    0 <= k < others.len() implies (#[trigger] others[k]).wf(self.blocks) by {
                    if k < vi {
                        assert(others[k] == pre_nodes[k]);
                    } else {
                        assert(others[k] == pre_nodes[k + 1]);
                    }
                }
            }
            let mut msgs = node.update_state(&mut self.blocks, step);
            let more = node.broadcast_new_votes(&mut self.blocks, step);
            let node_breach = node.check_conflicting_block_count(&self.blocks);
            proof {
                assert forall|k: int|
                    0 <= k < others.len() implies (#[trigger] others[k]).wf(self.blocks) by {
                    lemma_wf_monotone(others[k], pre_store, self.blocks);
                }
            }
            self.nodes.insert(vi, node);
            self.network.send(step, msgs, Ghost(lo_post));
            self.network.send(step, more, Ghost(lo_post));
            proof {
                assert forall|k: int|
                    0 <= k < self.nodes@.len() implies (#[trigger] self.nodes@[k]).wf(
                    self.blocks,
                ) by {
                    if k < vi {
                        assert(self.nodes@[k] == others[k]);
                    } else if k > vi {
                        assert(self.nodes@[k] == others[k - 1]);
                    }
                }
            }
            if node_breach {
                breach = true;
            }
            vi = vi + 1;
        }
        breach
    }

    /// Run the simulation on its schedule alone to completion. Success
    /// means the final consistency check passed: all surviving nodes
    /// agree on a non-overlapping, sufficiently large map of sections.
    pub fn run(&mut self) -> (r: Result<Vec<(Prefix, Block)>, ()>)
        requires
            old(self).wf(),
            old(self).network.queues@.len() == 0,
        ensures
            final(self).wf(),
            r is Ok ==> consistent(
                final(self).blocks,
                final(self).nodes@,
                final(self).node_params.min_section_size as int,
            ),
    {
        let limit = sat_add(
            sat_add(
                sat_add(self.event_schedule.last_step(), self.params.stable_steps),
                sat_add(self.node_params.join_timeout, MAX_EXTRA_STEPS),
            ),
            sat_add(MAX_EXTRA_STEPS, 100),
        );
        let mut step: u64 = 0;
        let mut no_op_step_count: u64 = 0;
        let mut aborted = false;
        while step < limit
            invariant
                self.wf(),
                self.params == old(self).params,
                self.node_params == old(self).node_params,
                self.network.steps_in(
                    if step >= self.params.max_delay {
                        (step - self.params.max_delay) as int
                    } else {
                        0
                    },
                    step as int,
                ),
            ensures
                self.wf(),
                self.node_params == old(self).node_params,
            decreases limit - step,
        {
            match self.phase {
                Phase::Finishing { since_step } => {
                    if step > since_step && step - since_step > MAX_EXTRA_STEPS {
                        break ;
                    }
                    if self.network.queue_is_empty() {
                        if no_op_step_count > self.node_params.join_timeout {
                            break ;
                        }
                        if no_op_step_count < u64::MAX {
                            no_op_step_count = no_op_step_count + 1;
                        }
                    } else {
                        no_op_step_count = 0;
                    }
                },
                _ => {},
            }
            let breach = self.step_once(step, Vec::new(), Vec::new(), Vec::new());
            if breach {
                // Too many conflicting blocks for one prefix and version:
                // a consensus fault.
                aborted = true;
                break ;
            }
            self.phase = self.phase_for_next_step(step);
            step = step + 1;
        }
        let result = check_consistency(&self.blocks, &self.nodes, self.node_params.min_section_size);
        if aborted {
            match result {
                Ok(_) => {
                    // A conflicting-block breach is a failure even if the
                    // final picture happens to look consistent.
                    Err(())
                },
                Err(_) => Err(()),
            }
        } else {
            result
        }
    }

}

/// Saturating addition on step counters.
fn sat_add(a: u64, b: u64) -> (r: u64)
    ensures
        r == if a + b <= u64::MAX {
            a + b
        } else {
            u64::MAX as int
        },
{
    if a <= u64::MAX - b {
        a + b
    } else {
        u64::MAX
    }
}

} // verus!
