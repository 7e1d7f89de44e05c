//! Per-peer confirmation tracking: how far each known peer has made it
//! into our current blocks, and whether we are connected to it.

use vstd::prelude::*;
use crate::block::Block;
use crate::members::{contains_name, sorted_names, union_names};
use crate::name::Name;
use crate::params::NodeParams;

verus! {

/// What we know about one peer.
pub enum PeerState {
    /// Appeared in all current blocks at some point.
    Confirmed,
    /// Appeared in at least one current block at some point.
    PartiallyConfirmed {
        /// Step at which the peer first appeared in a current block.
        since: u64,
    },
    /// Waiting to join; not yet in any current block.
    Unconfirmed {
        /// Step at which the peer asked to join.
        join_step: u64,
    },
    /// Was confirmed, then dropped from some current blocks.
    PartiallyLost {
        /// Step at which the loss was noticed.
        since: u64,
    },
    /// Currently disconnected from us.
    Disconnected {
        /// Step at which the disconnection was noticed.
        since: u64,
        /// The state the peer was in before the disconnection.
        previous_state: Box<PeerState>,
    },
}

/// The states of all known peers.
pub struct PeerStates {
    /// One entry per known peer.
    pub states: Vec<(Name, PeerState)>,
    /// Timeouts and thresholds.
    pub params: NodeParams,
}

impl PeerStates {
    /// Each peer appears once.
    pub open spec fn wf(self) -> bool {
        forall|i: int, j: int|
            0 <= i < j < self.states@.len() ==> (#[trigger] self.states@[i]).0 != (
            #[trigger] self.states@[j]).0
    }

    /// A peer is known.
    pub open spec fn knows(self, name: Name) -> bool {
        exists|i: int| 0 <= i < self.states@.len() && (#[trigger] self.states@[i]).0 == name
    }

    /// The index of a known peer.
    pub open spec fn index_of(self, name: Name) -> int {
        choose|i: int| 0 <= i < self.states@.len() && (#[trigger] self.states@[i]).0 == name
    }

    /// An empty table.
    pub fn new(params: NodeParams) -> (r: PeerStates)
        ensures
            r.wf(),
            r.states@.len() == 0,
            r.params == params,
    {
        PeerStates { states: Vec::new(), params }
    }

    /// Names of all known peers.
    pub fn all_peers(&self) -> (r: Vec<Name>)
        ensures
            r@.len() == self.states@.len(),
            forall|k: int| 0 <= k < r@.len() ==> r@[k] == (#[trigger] self.states@[k]).0,
    {
        let mut out: Vec<Name> = Vec::new();
        let mut i: usize = 0;
        while i < self.states.len()
            invariant
                i <= self.states@.len(),
                out@.len() == i,
                forall|k: int| 0 <= k < i ==> out@[k] == (#[trigger] self.states@[k]).0,
            decreases self.states@.len() - i,
        {
            out.push(self.states[i].0);
            i = i + 1;
        }
        out
    }

    /// Find the index of a peer, if known.
    fn find(&self, name: Name) -> (r: Option<usize>)
        requires
            self.wf(),
        ensures
            r matches Some(i) ==> i < self.states@.len() && self.states@[i as int].0 == name
                && self.knows(name),
            r is None ==> !self.knows(name),
    {
        let mut i: usize = 0;
        while i < self.states.len()
            invariant
                i <= self.states@.len(),
                forall|k: int| 0 <= k < i ==> (#[trigger] self.states@[k]).0 != name,
            decreases self.states@.len() - i,
        {
            if self.states[i].0 == name {
                proof {
                    assert(self.states@[i as int].0 == name);
                }
                return Some(i);
            }
            i = i + 1;
        }
        proof {
            if self.knows(name) {
                let k = self.index_of(name);
            }
        }
        None
    }

    /// A peer announced itself: record it as unconfirmed unless known.
    pub fn node_joined(&mut self, name: Name, step: u64)
        requires
            old(self).wf(),
        ensures
            final(self).wf(),
            final(self).knows(name),
            old(self).knows(name) ==> *final(self) == *old(self),
    {
        match self.find(name) {
            Some(_) => {},
            None => {
                let ghost pre = self.states@;
                self.states.push((name, PeerState::Unconfirmed { join_step: step }));
                proof {
                    assert(self.states@[pre.len() as int].0 == name);
                    assert forall|i: int, j: int|
                        0 <= i < j < self.states@.len() implies (#[trigger] self.states@[i]).0
                        != (#[trigger] self.states@[j]).0 by {
                        if j == self.states@.len() - 1 {
                            assert(self.states@[i] == pre[i]);
                            if pre[i].0 == name {
                                assert(old(self).knows(name));
                            }
                        }
                    }
                }
            },
        }
    }

    /// The peer turned up in one current block, but not yet all: upgrade
    /// an unconfirmed peer, downgrade a confirmed one, and mark a
    /// long-stuck partially confirmed one as partially lost.
    pub fn in_some_current(&mut self, name: Name, step: u64)
        requires
            old(self).wf(),
        ensures
            final(self).wf(),
            final(self).knows(name),
            final(self).params == old(self).params,
            !old(self).knows(name) ==> final(self).states@ == old(self).states@.push(
                (name, PeerState::PartiallyConfirmed { since: step }),
            ),
            old(self).knows(name) ==> final(self).states@.len() == old(self).states@.len(),
            forall|k: int|
                0 <= k < old(self).states@.len() && (#[trigger] old(self).states@[k]).0 != name
                    ==> final(self).states@[k] == old(self).states@[k],
            forall|k: int|
                0 <= k < old(self).states@.len() && (#[trigger] old(self).states@[k]).0 == name
                    ==> final(self).states@[k].0 == name && final(self).states@[k].1 == (
                if old(self).states@[k].1 is Unconfirmed {
                    PeerState::PartiallyConfirmed { since: step }
                } else if old(self).states@[k].1 is Confirmed {
                    PeerState::PartiallyLost { since: step }
                } else if old(self).states@[k].1 is PartiallyConfirmed && old(
                    self,
                ).states@[k].1->PartiallyConfirmed_since + old(self).params.join_timeout < step {
                    PeerState::PartiallyLost { since: step }
                } else {
                    old(self).states@[k].1
                }),
    {
        match self.find(name) {
            None => {
                let ghost pre = self.states@;
                self.states.push((name, PeerState::PartiallyConfirmed { since: step }));
                proof {
                    assert(self.states@[pre.len() as int].0 == name);
                    assert forall|i: int, j: int|
                        0 <= i < j < self.states@.len() implies (#[trigger] self.states@[i]).0
                        != (#[trigger] self.states@[j]).0 by {
                        if j == self.states@.len() - 1 {
                            assert(self.states@[i] == pre[i]);
                            if pre[i].0 == name {
                                assert(old(self).knows(name));
                            }
                        }
                    }
                }
            },
            Some(i) => {
                let new_state: Option<PeerState> = match &self.states[i].1 {
                    PeerState::Unconfirmed { .. } => Some(
                        PeerState::PartiallyConfirmed { since: step },
                    ),
                    PeerState::Confirmed => Some(PeerState::PartiallyLost { since: step }),
                    PeerState::PartiallyConfirmed { since } => {
                        let s = *since;
                        let cutoff = if step >= self.params.join_timeout {
                            step - self.params.join_timeout
                        } else {
                            0
                        };
                        if s < cutoff {
                            Some(PeerState::PartiallyLost { since: step })
                        } else {
                            None
                        }
                    },
                    _ => None,
                };
                if let Some(st) = new_state {
                    let name0 = self.states[i].0;
                    let ghost pre = self.states@;
                    self.states.set(i, (name0, st));
                    proof {
                        assert(self.states@[i as int].0 == name);
                        assert forall|a: int, b: int|
                            0 <= a < b < self.states@.len() implies (
                        #[trigger] self.states@[a]).0 != (#[trigger] self.states@[b]).0 by {
                            assert(pre[a].0 != pre[b].0);
                        }
                    }
                } else {
                    proof {
                        assert(self.states@[i as int].0 == name);
                    }
                }
            },
        }
    }

    /// The peer appears in every current block: confirm it.
    pub fn in_all_current(&mut self, name: Name, step: u64)
        requires
            old(self).wf(),
        ensures
            final(self).wf(),
            final(self).knows(name),
            final(self).params == old(self).params,
            !old(self).knows(name) ==> final(self).states@ == old(self).states@.push(
                (name, PeerState::Confirmed),
            ),
            old(self).knows(name) ==> final(self).states@.len() == old(self).states@.len(),
            forall|k: int|
                0 <= k < old(self).states@.len() && (#[trigger] old(self).states@[k]).0 != name
                    ==> final(self).states@[k] == old(self).states@[k],
            forall|k: int|
                0 <= k < old(self).states@.len() && (#[trigger] old(self).states@[k]).0 == name
                    ==> final(self).states@[k].0 == name && final(self).states@[k].1 == (
                if old(self).states@[k].1 is Unconfirmed || old(self).states@[k].1
                    is PartiallyConfirmed || old(self).states@[k].1 is PartiallyLost {
                    PeerState::Confirmed
                } else {
                    old(self).states@[k].1
                }),
    {
        match self.find(name) {
            None => {
                let ghost pre = self.states@;
                self.states.push((name, PeerState::Confirmed));
                proof {
                    assert(self.states@[pre.len() as int].0 == name);
                    assert forall|i: int, j: int|
                        0 <= i < j < self.states@.len() implies (#[trigger] self.states@[i]).0
                        != (#[trigger] self.states@[j]).0 by {
                        if j == self.states@.len() - 1 {
                            assert(self.states@[i] == pre[i]);
                            if pre[i].0 == name {
                                assert(old(self).knows(name));
                            }
                        }
                    }
                }
            },
            Some(i) => {
                let promote = match &self.states[i].1 {
                    PeerState::PartiallyConfirmed { .. } => true,
                    PeerState::PartiallyLost { .. } => true,
                    PeerState::Unconfirmed { .. } => true,
                    _ => false,
                };
                if promote {
                    let name0 = self.states[i].0;
                    let ghost pre = self.states@;
                    self.states.set(i, (name0, PeerState::Confirmed));
                    proof {
                        assert(self.states@[i as int].0 == name);
                        assert forall|a: int, b: int|
                            0 <= a < b < self.states@.len() implies (
                        #[trigger] self.states@[a]).0 != (#[trigger] self.states@[b]).0 by {
                            assert(pre[a].0 != pre[b].0);
                        }
                    }
                } else {
                    proof {
                        assert(self.states@[i as int].0 == name);
                    }
                }
            },
        }
    }

    /// Record a disconnection, keeping the previous state for later
    /// recovery. A second disconnection is ignored, and an unknown peer
    /// changes nothing.
    pub fn disconnected(&mut self, name: Name, step: u64)
        requires
            old(self).wf(),
        ensures
            final(self).wf(),
            !old(self).knows(name) ==> *final(self) == *old(self),
            final(self).states@.len() == old(self).states@.len(),
            final(self).params == old(self).params,
            forall|k: int|
                0 <= k < old(self).states@.len() && (#[trigger] old(self).states@[k]).0 != name
                    ==> final(self).states@[k] == old(self).states@[k],
            forall|k: int|
                0 <= k < old(self).states@.len() && (#[trigger] old(self).states@[k]).0 == name
                    ==> final(self).states@[k].0 == name && (if old(self).states@[k].1
                    is Disconnected {
                    final(self).states@[k].1 == old(self).states@[k].1
                } else {
                    final(self).states@[k].1 matches PeerState::Disconnected {
                        since,
                        previous_state,
                    } && since == step && *previous_state == old(self).states@[k].1
                }),
    {
        match self.find(name) {
            None => {},
            Some(i) => {
                let already = match &self.states[i].1 {
                    PeerState::Disconnected { .. } => true,
                    _ => false,
                };
                if !already {
                    let name0 = self.states[i].0;
                    let prev = clone_state(&self.states[i].1);
                    let ghost pre = self.states@;
                    self.states.set(
                        i,
                        (
                            name0,
                            PeerState::Disconnected {
                                since: step,
                                previous_state: Box::new(prev),
                            },
                        ),
                    );
                    proof {
                        assert forall|a: int, b: int|
                            0 <= a < b < self.states@.len() implies (
                        #[trigger] self.states@[a]).0 != (#[trigger] self.states@[b]).0 by {
                            assert(pre[a].0 != pre[b].0);
                        }
                    }
                }
            },
        }
    }

    /// Record a reconnection: restore the state held before the
    /// disconnection. An out-of-order reconnect (or an unknown peer) is
    /// ignored.
    pub fn reconnected(&mut self, name: Name, step: u64)
        requires
            old(self).wf(),
        ensures
            final(self).wf(),
            !old(self).knows(name) ==> *final(self) == *old(self),
            final(self).states@.len() == old(self).states@.len(),
            final(self).params == old(self).params,
            forall|k: int|
                0 <= k < old(self).states@.len() && (#[trigger] old(self).states@[k]).0 != name
                    ==> final(self).states@[k] == old(self).states@[k],
            forall|k: int|
                0 <= k < old(self).states@.len() && (#[trigger] old(self).states@[k]).0 == name
                    ==> final(self).states@[k].0 == name && (if old(self).states@[k].1
                    is Disconnected {
                    final(self).states@[k].1 == *old(
                        self,
                    ).states@[k].1->Disconnected_previous_state
                } else {
                    final(self).states@[k].1 == old(self).states@[k].1
                }),
    {
        match self.find(name) {
            None => {},
            Some(i) => {
                let restored: Option<PeerState> = match &self.states[i].1 {
                    PeerState::Disconnected { previous_state, .. } => Some(
                        clone_state(previous_state),
                    ),
                    _ => None,
                };
                if let Some(st) = restored {
                    let name0 = self.states[i].0;
                    let ghost pre = self.states@;
                    self.states.set(i, (name0, st));
                    proof {
                        assert forall|a: int, b: int|
                            0 <= a < b < self.states@.len() implies (
                        #[trigger] self.states@[a]).0 != (#[trigger] self.states@[b]).0 by {
                            assert(pre[a].0 != pre[b].0);
                        }
                    }
                }
            },
        }
    }

    /// Unconfirmed peers whose join is recent enough that we should keep
    /// voting to add them.
    pub fn nodes_to_add(&self, step: u64) -> (r: Vec<Name>)
        ensures
            forall|y: Name|
                #[trigger] r@.contains(y) <==> exists|k: int|
                    0 <= k < self.states@.len() && (#[trigger] self.states@[k]).0 == y
                        && self.states@[k].1 is Unconfirmed
                        && self.states@[k].1->Unconfirmed_join_step + self.params.join_timeout
                        >= step,
    {
        let mut out: Vec<Name> = Vec::new();
        let mut i: usize = 0;
        let cutoff = if step >= self.params.join_timeout {
            step - self.params.join_timeout
        } else {
            0
        };
        while i < self.states.len()
            invariant
                cutoff == if step >= self.params.join_timeout {
                    step - self.params.join_timeout
                } else {
                    0
                },
                i <= self.states@.len(),
                forall|y: Name|
                    #[trigger] out@.contains(y) <==> exists|k: int|
                        0 <= k < i && (#[trigger] self.states@[k]).0 == y
                            && self.states@[k].1 is Unconfirmed
                            && self.states@[k].1->Unconfirmed_join_step
                            + self.params.join_timeout >= step,
            decreases self.states@.len() - i,
        {
            let keep = match &self.states[i].1 {
                PeerState::Unconfirmed { join_step } => *join_step >= cutoff,
                _ => false,
            };
            let name = self.states[i].0;
            if keep {
                let ghost pre = out@;
                out.push(name);
                proof {
                    crate::members::lemma_push_contains(pre, name);
                    assert(0 <= (i as int) && (i as int) < self.states@.len()
                        && self.states@[i as int].0 == name
                        && self.states@[i as int].1 is Unconfirmed
                        && self.states@[i as int].1->Unconfirmed_join_step
                        + self.params.join_timeout >= step);
                    assert forall|y: Name|
                        #[trigger] out@.contains(y) <==> exists|k: int|
                            0 <= k < i + 1 && (#[trigger] self.states@[k]).0 == y
                                && self.states@[k].1 is Unconfirmed
                                && self.states@[k].1->Unconfirmed_join_step
                                + self.params.join_timeout >= step by {
                        if out@.contains(y) && !pre.contains(y) {
                            assert(y == name);
                        }
                        if !out@.contains(y) {
                            if exists|k: int|
                                0 <= k < i + 1 && (#[trigger] self.states@[k]).0 == y
                                    && self.states@[k].1 is Unconfirmed
                                    && self.states@[k].1->Unconfirmed_join_step
                                    + self.params.join_timeout >= step {
                                let k = choose|k: int|
                                    0 <= k < i + 1 && (#[trigger] self.states@[k]).0 == y
                                        && self.states@[k].1 is Unconfirmed
                                        && self.states@[k].1->Unconfirmed_join_step
                                        + self.params.join_timeout >= step;
                                assert(k < i);
                            }
                        }
                    }
                }
            } else {
                proof {
                    assert forall|y: Name|
                        #[trigger] out@.contains(y) <==> exists|k: int|
                            0 <= k < i + 1 && (#[trigger] self.states@[k]).0 == y
                                && self.states@[k].1 is Unconfirmed
                                && self.states@[k].1->Unconfirmed_join_step
                                + self.params.join_timeout >= step by {
                        if !out@.contains(y) {
                            if exists|k: int|
                                0 <= k < i + 1 && (#[trigger] self.states@[k]).0 == y
                                    && self.states@[k].1 is Unconfirmed
                                    && self.states@[k].1->Unconfirmed_join_step
                                    + self.params.join_timeout >= step {
                                let k = choose|k: int|
                                    0 <= k < i + 1 && (#[trigger] self.states@[k]).0 == y
                                        && self.states@[k].1 is Unconfirmed
                                        && self.states@[k].1->Unconfirmed_join_step
                                        + self.params.join_timeout >= step;
                                assert(k < i);
                            }
                        }
                    }
                }
            }
            i = i + 1;
        }
        out
    }

    /// Peers we should vote to drop: disconnected ones, and ones whose
    /// partial loss has outlasted the join timeout.
    pub fn nodes_to_drop(&self, step: u64) -> (r: Vec<Name>)
        ensures
            forall|y: Name|
                #[trigger] r@.contains(y) <==> exists|k: int|
                    0 <= k < self.states@.len() && (#[trigger] self.states@[k]).0 == y && (
                    self.states@[k].1 is Disconnected || (self.states@[k].1 is PartiallyLost
                        && self.states@[k].1->PartiallyLost_since + self.params.join_timeout
                        < step)),
    {
        let mut out: Vec<Name> = Vec::new();
        let mut i: usize = 0;
        let cutoff = if step >= self.params.join_timeout {
            step - self.params.join_timeout
        } else {
            0
        };
        while i < self.states.len()
            invariant
                cutoff == if step >= self.params.join_timeout {
                    step - self.params.join_timeout
                } else {
                    0
                },
                i <= self.states@.len(),
                forall|y: Name|
                    #[trigger] out@.contains(y) <==> exists|k: int|
                        0 <= k < i && (#[trigger] self.states@[k]).0 == y && (
                        self.states@[k].1 is Disconnected || (self.states@[k].1
                            is PartiallyLost && self.states@[k].1->PartiallyLost_since
                            + self.params.join_timeout < step)),
            decreases self.states@.len() - i,
        {
            let keep = match &self.states[i].1 {
                PeerState::Disconnected { .. } => true,
                PeerState::PartiallyLost { since } => *since < cutoff,
                _ => false,
            };
            let name = self.states[i].0;
            proof {
                assert(keep == (self.states@[i as int].1 is Disconnected || (
                self.states@[i as int].1 is PartiallyLost
                    && self.states@[i as int].1->PartiallyLost_since
                    + self.params.join_timeout < step)));
            }
            if keep {
                let ghost pre = out@;
                out.push(name);
                proof {
                    crate::members::lemma_push_contains(pre, name);
                    assert forall|y: Name|
                        #[trigger] out@.contains(y) <==> exists|k: int|
                            0 <= k < i + 1 && (#[trigger] self.states@[k]).0 == y && (
                            self.states@[k].1 is Disconnected || (self.states@[k].1
                                is PartiallyLost && self.states@[k].1->PartiallyLost_since
                                + self.params.join_timeout < step)) by {
                        if out@.contains(y) && !pre.contains(y) {
                            assert(y == name);
                            assert(self.states@[i as int].0 == y);
                        }
                        if !out@.contains(y) {
                            if exists|k: int|
                                0 <= k < i + 1 && (#[trigger] self.states@[k]).0 == y && (
                                self.states@[k].1 is Disconnected || (self.states@[k].1
                                    is PartiallyLost
                                    && self.states@[k].1->PartiallyLost_since
                                    + self.params.join_timeout < step)) {
                                let k = choose|k: int|
                                    0 <= k < i + 1 && (#[trigger] self.states@[k]).0 == y && (
                                    self.states@[k].1 is Disconnected || (self.states@[k].1
                                        is PartiallyLost
                                        && self.states@[k].1->PartiallyLost_since
                                        + self.params.join_timeout < step));
                                assert(k < i);
                            }
                        }
                    }
                }
            } else {
                proof {
                    assert forall|y: Name|
                        #[trigger] out@.contains(y) <==> exists|k: int|
                            0 <= k < i + 1 && (#[trigger] self.states@[k]).0 == y && (
                            self.states@[k].1 is Disconnected || (self.states@[k].1
                                is PartiallyLost && self.states@[k].1->PartiallyLost_since
                                + self.params.join_timeout < step)) by {
                        if !out@.contains(y) {
                            if exists|k: int|
                                0 <= k < i + 1 && (#[trigger] self.states@[k]).0 == y && (
                                self.states@[k].1 is Disconnected || (self.states@[k].1
                                    is PartiallyLost
                                    && self.states@[k].1->PartiallyLost_since
                                    + self.params.join_timeout < step)) {
                                let k = choose|k: int|
                                    0 <= k < i + 1 && (#[trigger] self.states@[k]).0 == y && (
                                    self.states@[k].1 is Disconnected || (self.states@[k].1
                                        is PartiallyLost
                                        && self.states@[k].1->PartiallyLost_since
                                        + self.params.join_timeout < step));
                                assert(k < i);
                            }
                        }
                    }
                }
            }
            i = i + 1;
        }
        out
    }

    /// The peer is known and currently marked disconnected.
    pub fn is_disconnected_from(&self, name: &Name) -> (r: bool)
        requires
            self.wf(),
        ensures
            r == exists|k: int|
                0 <= k < self.states@.len() && (#[trigger] self.states@[k]).0 == *name
                    && self.states@[k].1 matches PeerState::Disconnected { .. },
    {
        match self.find(*name) {
            None => {
                proof {
                    if exists|k: int|
                        0 <= k < self.states@.len() && (#[trigger] self.states@[k]).0 == *name
                            && self.states@[k].1 matches PeerState::Disconnected { .. } {
                        let k = choose|k: int|
                            0 <= k < self.states@.len() && (#[trigger] self.states@[k]).0
                                == *name && self.states@[k].1
                                matches PeerState::Disconnected { .. };
                    }
                }
                false
            },
            Some(i) => {
                let r = match &self.states[i].1 {
                    PeerState::Disconnected { .. } => true,
                    _ => false,
                };
                proof {
                    if !r {
                        if exists|k: int|
                            0 <= k < self.states@.len() && (#[trigger] self.states@[k]).0
                                == *name && self.states@[k].1
                                matches PeerState::Disconnected { .. } {
                            let k = choose|k: int|
                                0 <= k < self.states@.len() && (#[trigger] self.states@[k]).0
                                    == *name && self.states@[k].1
                                    matches PeerState::Disconnected { .. };
                            if k != i {
                                assert(false);
                            }
                        }
                    }
                }
                r
            },
        }
    }
}

/// A value copy of a peer state.
fn clone_state(s: &PeerState) -> (r: PeerState)
    ensures
        r == *s,
    decreases s,
{
    match s {
        PeerState::Confirmed => PeerState::Confirmed,
        PeerState::PartiallyConfirmed { since } => PeerState::PartiallyConfirmed {
            since: *since,
        },
        PeerState::Unconfirmed { join_step } => PeerState::Unconfirmed { join_step: *join_step },
        PeerState::PartiallyLost { since } => PeerState::PartiallyLost { since: *since },
        PeerState::Disconnected { since, previous_state } => PeerState::Disconnected {
            since: *since,
            previous_state: Box::new(clone_state(previous_state)),
        },
    }
}

/// The nodes appearing in every one of the given blocks.
pub fn nodes_in_all(blocks: &Vec<Block>) -> (r: Vec<Name>)
    ensures
        blocks@.len() == 0 ==> r@.len() == 0,
        blocks@.len() > 0 ==> forall|y: Name|
            r@.contains(y) <==> forall|k: int|
                0 <= k < blocks@.len() ==> (#[trigger] blocks@[k]).members@.contains(y),
{
    if blocks.len() == 0 {
        return Vec::new();
    }
    let first = &blocks[0];
    let mut out: Vec<Name> = Vec::new();
    let mut i: usize = 0;
    while i < first.members.len()
        invariant
            blocks@.len() > 0,
            first == &blocks@[0],
            i <= first.members@.len(),
            forall|y: Name|
                out@.contains(y) <==> (first.members@.take(i as int).contains(y) && forall|
                k: int,
            |
                    0 <= k < blocks@.len() ==> (#[trigger] blocks@[k]).members@.contains(y)),
        decreases first.members@.len() - i,
    {
        let y = first.members[i];
        let mut everywhere = true;
        let mut k: usize = 0;
        while k < blocks.len()
            invariant
                k <= blocks@.len(),
                everywhere ==> forall|m: int|
                    0 <= m < k ==> (#[trigger] blocks@[m]).members@.contains(y),
                !everywhere ==> exists|m: int|
                    0 <= m < blocks@.len() && !(#[trigger] blocks@[m]).members@.contains(y),
            decreases blocks@.len() - k,
        {
            if !contains_name(&blocks[k].members, y) {
                proof {
                    assert(!blocks@[k as int].members@.contains(y));
                }
                everywhere = false;
            }
            k = k + 1;
        }
        let ghost pre = out@;
        if everywhere {
            out.push(y);
        }
        proof {
            crate::members::lemma_take_contains(first.members@, i as int);
            if everywhere {
                crate::members::lemma_push_contains(pre, y);
                assert(first.members@[i as int] == y);
            } else {
                let m = choose|m: int|
                    0 <= m < blocks@.len() && !(#[trigger] blocks@[m]).members@.contains(y);
                assert forall|z: Name|
                    out@.contains(z) <==> (first.members@.take(i + 1 as int).contains(z)
                        && forall|k2: int|
                        0 <= k2 < blocks@.len() ==> (#[trigger] blocks@[k2]).members@.contains(
                            z,
                        )) by {
                    if !out@.contains(z) && first.members@.take(i + 1 as int).contains(z) {
                        if z == y {
                            assert(!blocks@[m].members@.contains(y));
                        }
                    }
                }
            }
        }
        i = i + 1;
    }
    proof {
        assert(first.members@.take(first.members@.len() as int) =~= first.members@);
        if blocks@.len() > 0 {
            assert forall|y: Name|
                out@.contains(y) <==> forall|k: int|
                    0 <= k < blocks@.len() ==> (#[trigger] blocks@[k]).members@.contains(y) by {
                if !out@.contains(y) {
                    if forall|k: int|
                        0 <= k < blocks@.len() ==> (#[trigger] blocks@[k]).members@.contains(
                            y,
                        ) {
                        assert(blocks@[0].members@.contains(y));
                    }
                }
            }
        }
    }
    out
}

/// The nodes appearing in any of the given blocks.
pub fn nodes_in_any(blocks: &Vec<Block>) -> (r: Vec<Name>)
    requires
        forall|k: int| 0 <= k < blocks@.len() ==> sorted_names((#[trigger] blocks@[k]).members@),
    ensures
        sorted_names(r@),
        forall|y: Name|
            r@.contains(y) <==> exists|k: int|
                0 <= k < blocks@.len() && (#[trigger] blocks@[k]).members@.contains(y),
{
    let mut acc: Vec<Name> = Vec::new();
    let mut i: usize = 0;
    while i < blocks.len()
        invariant
            forall|k: int|
                0 <= k < blocks@.len() ==> sorted_names((#[trigger] blocks@[k]).members@),
            i <= blocks@.len(),
            sorted_names(acc@),
            forall|y: Name|
                acc@.contains(y) <==> exists|k: int|
                    0 <= k < i && (#[trigger] blocks@[k]).members@.contains(y),
        decreases blocks@.len() - i,
    {
        let merged = union_names(&acc, &blocks[i].members);
        proof {
            assert forall|y: Name|
                merged@.contains(y) <==> exists|k: int|
                    0 <= k < i + 1 && (#[trigger] blocks@[k]).members@.contains(y) by {
                if merged@.contains(y) {
                    if acc@.contains(y) {
                        let k = choose|k: int|
                            0 <= k < i && (#[trigger] blocks@[k]).members@.contains(y);
                    } else {
                        assert(blocks@[i as int].members@.contains(y));
                    }
                }
            }
        }
        acc = merged;
        i = i + 1;
    }
    acc
}

} // verus!
