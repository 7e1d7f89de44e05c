//! Blocks: version-stamped snapshots of a section's membership, and votes,
//! the directed edges between them.

use vstd::prelude::*;
use crate::name::{bit_at, first_bits_eq, lemma_prefix_eq, Name, Prefix};
use crate::members::{
    count_not_in, insert_name, names_eq, names_matching, remove_name, sorted_names,
};

verus! {

/// Identifier of a block inside a [`crate::blocks::Blocks`] store.
#[derive(PartialEq, Eq, Structural, Clone, Copy, Debug)]
pub struct BlockId(pub usize);

/// A block: a snapshot of the membership of the section under `prefix`,
/// stamped with a version. Blocks are immutable; change is expressed by a
/// successor block with a higher version.
#[derive(Clone, Debug)]
pub struct Block {
    pub prefix: Prefix,
    pub version: u64,
    pub members: Vec<Name>,
}

/// A vote: a directed edge from one block to another, asserting that `to`
/// should succeed `from` (or witnessing it from a neighbour section).
#[derive(PartialEq, Eq, Structural, Clone, Copy, Debug)]
pub struct Vote {
    pub from: BlockId,
    pub to: BlockId,
}

/// Structural sameness of two blocks: same prefix, version and member list.
pub open spec fn beq(a: Block, b: Block) -> bool {
    a.prefix == b.prefix && a.version == b.version && a.members@ == b.members@
}

impl Block {
    /// Well-formed: a well-formed prefix and a strictly ordered member list.
    pub open spec fn wf(self) -> bool {
        self.prefix.wf() && sorted_names(self.members@)
    }

    /// The spec-level count of members that fall in the `bit == false` half
    /// of this block's prefix.
    pub open spec fn half0_count(self) -> int {
        self.members@.filter(
            |n: Name|
                self.prefix.spec_matches(n) && !bit_at(n.0, self.prefix.bit_count as int),
        ).len() as int
    }

    /// `self` may directly succeed `other`: one version step and exactly one
    /// of a single add/drop, one half of a split, or a merge.
    pub open spec fn spec_admissible_after(self, other: Block) -> bool {
        &&& self.version > other.version
        &&& if self.prefix == other.prefix {
            self.members@.filter(|y: Name| !other.members@.contains(y)).len()
                + other.members@.filter(|y: Name| !self.members@.contains(y)).len() == 1
        } else if extends_one(self.prefix, other.prefix) {
            self.members@ == other.members@.filter(|n: Name| self.prefix.spec_matches(n))
        } else if extends_one(other.prefix, self.prefix) {
            other.members@ == self.members@.filter(|n: Name| other.prefix.spec_matches(n))
        } else {
            false
        }
    }

    /// `self` should be dropped from the current set in favour of `other`:
    /// same prefix and a larger (or lexicographically greater) membership,
    /// or a strictly shorter compatible prefix.
    pub open spec fn spec_outranks(self, other: Block) -> bool {
        if self.prefix == other.prefix {
            if self.members@.len() != other.members@.len() {
                self.members@.len() > other.members@.len()
            } else {
                crate::members::names_lex_gt(self.members@, other.members@)
            }
        } else {
            self.prefix.spec_compatible(other.prefix) && self.prefix.bit_count
                < other.prefix.bit_count
        }
    }

    /// Create the genesis block: the empty prefix, version 0 and a single
    /// seed member.
    pub fn genesis(name: Name) -> (r: Self)
        ensures
            r.wf(),
            r.prefix.bit_count == 0,
            r.version == 0,
            r.members@ == seq![name],
    {
        let mut members: Vec<Name> = Vec::new();
        members.push(name);
        assert(members@ =~= seq![name]);
        Block { prefix: Prefix::empty(), version: 0, members }
    }

    /// A new block with `added` as an extra member and the version stepped.
    pub fn add_node(&self, added: Name) -> (r: Self)
        requires
            self.wf(),
            self.version < u64::MAX,
        ensures
            r.wf(),
            r.prefix == self.prefix,
            r.version == self.version + 1,
            forall|y: Name| r.members@.contains(y) <==> (self.members@.contains(y) || y == added),
    {
        let members = insert_name(&self.members, added);
        Block { prefix: self.prefix, version: self.version + 1, members }
    }

    /// A new block with `removed` taken out and the version stepped.
    pub fn remove_node(&self, removed: Name) -> (r: Self)
        requires
            self.wf(),
            self.version < u64::MAX,
            self.members@.contains(removed),
        ensures
            r.wf(),
            r.prefix == self.prefix,
            r.version == self.version + 1,
            forall|y: Name|
                r.members@.contains(y) <==> (self.members@.contains(y) && y != removed),
    {
        let members = remove_name(&self.members, removed);
        Block { prefix: self.prefix, version: self.version + 1, members }
    }

    /// Is this block admissible directly after `other`?
    pub fn is_admissible_after(&self, other: &Block) -> (r: bool)
        requires
            self.wf(),
            other.wf(),
        ensures
            r == self.spec_admissible_after(*other),
    {
        if self.version <= other.version {
            return false;
        }
        if prefix_eq(&self.prefix, &other.prefix) {
            // Add/remove case: symmetric difference of exactly one name.
            let d = count_not_in(&self.members, &other.members);
            let e = count_not_in(&other.members, &self.members);
            (d == 1 && e == 0) || (d == 0 && e == 1)
        } else {
            let sp = self.prefix.popped();
            let split_case = prefix_eq(&sp, &other.prefix);
            proof {
                lemma_popped_matches(self.prefix, other.prefix, sp, split_case);
            }
            if split_case {
                // Split case.
                let filtered = names_matching(&other.members, &self.prefix);
                names_eq(&self.members, &filtered)
            } else {
                let op = other.prefix.popped();
                let merge_case = prefix_eq(&op, &self.prefix);
                proof {
                    lemma_popped_matches(other.prefix, self.prefix, op, merge_case);
                }
                if merge_case {
                    // Merge case.
                    let filtered = names_matching(&self.members, &other.prefix);
                    names_eq(&other.members, &filtered)
                } else {
                    false
                }
            }
        }
    }

    /// `other` should be removed from the current blocks when `self` is a
    /// current candidate.
    pub fn outranks(&self, other: &Block) -> (r: bool)
        requires
            self.wf(),
            other.wf(),
        ensures
            r == self.spec_outranks(*other),
    {
        if prefix_eq(&self.prefix, &other.prefix) {
            if self.members.len() != other.members.len() {
                self.members.len() > other.members.len()
            } else {
                crate::members::names_gt(&self.members, &other.members)
            }
        } else {
            self.prefix.is_compatible(&other.prefix) && self.prefix.bit_count()
                < other.prefix.bit_count()
        }
    }

    /// Both halves of the membership under the two pushed prefixes hold at
    /// least `min_split_size` nodes.
    pub fn should_split(&self, min_split_size: usize) -> (r: bool)
        requires
            self.wf(),
        ensures
            r == (self.prefix.bit_count < 64 && self.half0_count() >= min_split_size
                && self.members@.len() - self.half0_count() >= min_split_size),
    {
        if self.prefix.bit_count() >= 64 {
            return false;
        }
        let p0 = self.prefix.pushed(false);
        let half0 = names_matching(&self.members, &p0);
        proof {
            crate::members::lemma_filter_ptwise(
                self.members@,
                |n: Name| p0.spec_matches(n),
                |n: Name|
                    self.prefix.spec_matches(n) && !bit_at(n.0, self.prefix.bit_count as int),
            );
            self.members@.lemma_filter_len(
                |n: Name|
                    self.prefix.spec_matches(n) && !bit_at(n.0, self.prefix.bit_count as int),
            );
        }
        let len0 = half0.len();
        let len1 = self.members.len() - len0;
        len0 >= min_split_size && len1 >= min_split_size
    }
}

/// An explicit copy of a block.
pub fn clone_block(b: &Block) -> (r: Block)
    ensures
        r.prefix == b.prefix,
        r.version == b.version,
        r.members@ == b.members@,
        beq(r, *b),
{
    Block { prefix: b.prefix, version: b.version, members: crate::members::copy_names(&b.members) }
}

/// `child` is `parent` with exactly one more bit.
pub open spec fn extends_one(child: Prefix, parent: Prefix) -> bool {
    child.bit_count == parent.bit_count + 1 && parent.spec_is_prefix_of(child)
}

/// Structural equality of prefixes.
pub fn prefix_eq(a: &Prefix, b: &Prefix) -> (r: bool)
    ensures
        r == (*a == *b),
{
    a.bit_count == b.bit_count && a.name.0 == b.name.0
}

/// For well-formed distinct prefixes, equality of `popped(child)` (already
/// computed as `sp`) with `parent` says exactly that `child` extends
/// `parent` by one bit.
proof fn lemma_popped_matches(child: Prefix, parent: Prefix, sp: Prefix, sp_is_parent: bool)
    requires
        child.wf(),
        parent.wf(),
        sp.wf(),
        child != parent,
        child.bit_count > 0 ==> sp.bit_count == child.bit_count - 1 && first_bits_eq(
            sp.name.0,
            child.name.0,
            child.bit_count - 1,
        ),
        child.bit_count == 0 ==> sp == child,
        sp_is_parent == (sp == parent),
    ensures
        sp_is_parent == extends_one(child, parent),
{
    if child.bit_count == 0 {
        assert(!sp_is_parent);
        assert(!extends_one(child, parent));
    } else {
        if sp_is_parent {
            assert(first_bits_eq(parent.name.0, child.name.0, parent.bit_count as int));
            assert(extends_one(child, parent));
        } else {
            if extends_one(child, parent) {
                assert(sp.bit_count == parent.bit_count);
                assert(first_bits_eq(sp.name.0, parent.name.0, parent.bit_count as int));
                lemma_prefix_eq(sp, parent);
                assert(false);
            }
        }
    }
}

} // verus!
