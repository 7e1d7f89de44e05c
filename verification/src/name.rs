//! Names and binary prefixes over the 64-bit identifier space.

use vstd::prelude::*;
use vstd::std_specs::bits::{axiom_u64_leading_zeros, u64_leading_zeros};

verus! {

/// Node names are 64-bit values.
#[derive(PartialEq, Eq, Structural, Clone, Copy, Hash, Debug)]
pub struct Name(pub u64);

/// The bit of `x` at position `i`, counting from the most significant bit
/// (position 0 is the highest-order bit).
pub open spec fn bit_at(x: u64, i: int) -> bool {
    (x >> ((63 - i) as u64)) & 1u64 == 1u64
}

/// The first `n` bits of `a` and `b` (from the most significant end) agree.
pub open spec fn first_bits_eq(a: u64, b: u64, n: int) -> bool {
    forall|k: int| 0 <= k < n ==> bit_at(a, k) == bit_at(b, k)
}

proof fn lemma_xor_bit(a: u64, b: u64, j: u64)
    by (bit_vector)
    requires
        j < 64,
    ensures
        (((a ^ b) >> j) & 1u64 == 0u64) <==> (((a >> j) & 1u64) == ((b >> j) & 1u64)),
        ((a ^ b) >> j) & 1u64 == 0u64 || ((a ^ b) >> j) & 1u64 == 1u64,
        ((a >> j) & 1u64 == 0u64) || ((a >> j) & 1u64 == 1u64),
        ((b >> j) & 1u64 == 0u64) || ((b >> j) & 1u64 == 1u64),
{
}

proof fn lemma_xor_zero(a: u64, b: u64)
    by (bit_vector)
    ensures
        a ^ b == 0 ==> a == b,
{
}

proof fn lemma_set_bit(x: u64, j: u64)
    by (bit_vector)
    requires
        j < 64,
    ensures
        forall|k: u64|
            k < 64 ==> #[trigger] ((x | (1u64 << j)) >> k) & 1u64 == (if k == j {
                1u64
            } else {
                (x >> k) & 1u64
            }),
{
}

proof fn lemma_clear_bit(x: u64, j: u64)
    by (bit_vector)
    requires
        j < 64,
    ensures
        forall|k: u64|
            k < 64 ==> #[trigger] ((x & !(1u64 << j)) >> k) & 1u64 == (if k == j {
                0u64
            } else {
                (x >> k) & 1u64
            }),
{
}

proof fn lemma_flip_bit(x: u64, j: u64)
    by (bit_vector)
    requires
        j < 64,
    ensures
        forall|k: u64|
            k < 64 && k != j ==> #[trigger] ((x ^ (1u64 << j)) >> k) & 1u64 == (x >> k) & 1u64,
        ((x ^ (1u64 << j)) >> j) & 1u64 != (x >> j) & 1u64,
        ((x ^ (1u64 << j)) >> j) & 1u64 == 0u64 || ((x ^ (1u64 << j)) >> j) & 1u64 == 1u64,
        (x >> j) & 1u64 == 0u64 || (x >> j) & 1u64 == 1u64,
{
}

proof fn lemma_test_bit(x: u64, j: u64)
    by (bit_vector)
    requires
        j < 64,
    ensures
        (x & (1u64 << j) != 0) <==> ((x >> j) & 1u64 == 1u64),
{
}

proof fn lemma_mask_keep_low(x: u64, n: u64)
    by (bit_vector)
    requires
        n < 64,
    ensures
        forall|k: u64|
            k < 64 ==> #[trigger] ((x & !(!0u64 >> n)) >> k) & 1u64 == (if k >= (64 - n) {
                (x >> k) & 1u64
            } else {
                0u64
            }),
{
}

proof fn lemma_mask_set_low(x: u64, n: u64)
    by (bit_vector)
    requires
        n < 64,
    ensures
        forall|k: u64|
            k < 64 ==> #[trigger] ((x | (!0u64 >> n)) >> k) & 1u64 == (if k >= (64 - n) {
                (x >> k) & 1u64
            } else {
                1u64
            }),
{
}

/// Two values whose first 64 bits agree are equal.
pub proof fn lemma_u64_bit_ext(a: u64, b: u64)
    requires
        forall|k: int| 0 <= k < 64 ==> bit_at(a, k) == bit_at(b, k),
    ensures
        a == b,
{
    let x = a ^ b;
    if x != 0 {
        axiom_u64_leading_zeros(x);
        let lz = u64_leading_zeros(x);
        assert(0 <= lz < 64);
        let j = (63 - lz) as u64;
        assert(j == (63u64 - lz as u64) as u64);
        assert((x >> j) & 1u64 != 0u64);
        lemma_xor_bit(a, b, j);
        assert(bit_at(a, lz) != bit_at(b, lz));
        assert(false);
    } else {
        lemma_xor_zero(a, b);
    }
}

impl Name {
    /// Length of the common prefix of `self` and `other`; for example, 4 when
    /// `self` starts `11111111...` and `other` starts `11110000...`.
    pub fn common_prefix(&self, other: Self) -> (r: usize)
        ensures
            r <= 64,
            first_bits_eq(self.0, other.0, r as int),
            r < 64 ==> bit_at(self.0, r as int) != bit_at(other.0, r as int),
    {
        let x = self.0 ^ other.0;
        let lz = x.leading_zeros() as usize;
        proof {
            axiom_u64_leading_zeros(x);
            assert forall|k: int| 0 <= k < lz implies bit_at(self.0, k) == bit_at(other.0, k) by {
                let j = (63 - k) as u64;
                assert(64 - u64_leading_zeros(x) <= j < 64);
                assert((x >> j) & 1u64 == 0u64);
                lemma_xor_bit(self.0, other.0, j);
            }
            if lz == 64 {
                assert(x == 0);
                lemma_xor_zero(self.0, other.0);
            } else {
                let j = (63 - lz) as u64;
                assert(j == (63u64 - u64_leading_zeros(x) as u64) as u64);
                assert((x >> j) & 1u64 != 0u64);
                lemma_xor_bit(self.0, other.0, j);
            }
        }
        lz
    }

    /// Compares the distance of the arguments to `self`: `Less` when `lhs` is
    /// closer by XOR distance, `Greater` when `rhs` is, `Equal` when they are
    /// equal.
    pub fn cmp_distance(&self, lhs: Self, rhs: Self) -> (r: core::cmp::Ordering)
        ensures
            r == core::cmp::Ordering::Less <==> (lhs.0 ^ self.0) < (rhs.0 ^ self.0),
            r == core::cmp::Ordering::Greater <==> (lhs.0 ^ self.0) > (rhs.0 ^ self.0),
            r == core::cmp::Ordering::Equal <==> lhs.0 ^ self.0 == rhs.0 ^ self.0,
    {
        let a = lhs.0 ^ self.0;
        let b = rhs.0 ^ self.0;
        if a < b {
            core::cmp::Ordering::Less
        } else if a > b {
            core::cmp::Ordering::Greater
        } else {
            core::cmp::Ordering::Equal
        }
    }

    /// Returns `true` if the `i`-th bit (from the most significant end) is 1.
    pub fn bit(&self, i: usize) -> (r: bool)
        requires
            i < 64,
        ensures
            r == bit_at(self.0, i as int),
    {
        let pow_i = 1u64 << (63 - i) as u64;
        proof {
            lemma_test_bit(self.0, (63 - i) as u64);
        }
        self.0 & pow_i != 0
    }

    /// Returns a copy of `self` with the `i`-th bit set to `bit`; unchanged
    /// when `i` is past the last bit.
    pub fn with_bit(self, i: usize, bit: bool) -> (r: Self)
        ensures
            i < 64 ==> forall|k: int|
                0 <= k < 64 ==> bit_at(r.0, k) == (if k == i as int {
                    bit
                } else {
                    bit_at(self.0, k)
                }),
            i >= 64 ==> r == self,
    {
        if i >= 64 {
            return self;
        }
        let j = (63 - i) as u64;
        let pow_i = 1u64 << j;
        let out = if bit {
            proof {
                lemma_set_bit(self.0, j);
            }
            Name(self.0 | pow_i)
        } else {
            proof {
                lemma_clear_bit(self.0, j);
            }
            Name(self.0 & !pow_i)
        };
        proof {
            assert forall|k: int| 0 <= k < 64 implies bit_at(out.0, k) == (if k == i as int {
                bit
            } else {
                bit_at(self.0, k)
            }) by {
                let kj = (63 - k) as u64;
                assert(kj < 64);
                assert((out.0 >> kj) & 1u64 == (if kj == j {
                    if bit {
                        1u64
                    } else {
                        0u64
                    }
                } else {
                    (self.0 >> kj) & 1u64
                }));
                lemma_xor_bit(out.0, self.0, kj);
            }
        }
        out
    }

    /// Returns a copy of `self` with the `i`-th bit flipped; unchanged when
    /// `i` is past the last bit.
    pub fn with_flipped_bit(self, i: usize) -> (r: Self)
        ensures
            i < 64 ==> forall|k: int|
                0 <= k < 64 ==> bit_at(r.0, k) == (if k == i as int {
                    !bit_at(self.0, k)
                } else {
                    bit_at(self.0, k)
                }),
            i >= 64 ==> r == self,
    {
        if i >= 64 {
            return self;
        }
        let j = (63 - i) as u64;
        let pow_i = 1u64 << j;
        let out = Name(self.0 ^ pow_i);
        proof {
            lemma_flip_bit(self.0, j);
            assert forall|k: int| 0 <= k < 64 implies bit_at(out.0, k) == (if k == i as int {
                !bit_at(self.0, k)
            } else {
                bit_at(self.0, k)
            }) by {
                let kj = (63 - k) as u64;
                assert(kj < 64);
                if kj != j {
                    assert((out.0 >> kj) & 1u64 == (self.0 >> kj) & 1u64);
                }
                lemma_xor_bit(out.0, self.0, kj);
            }
        }
        out
    }

    /// Returns a copy of `self` with the first `n` bits preserved and the
    /// remaining bits all set to 0 (`val == false`) or all to 1
    /// (`val == true`).
    pub fn set_remaining(self, n: usize, val: bool) -> (r: Self)
        ensures
            n < 64 ==> forall|k: int|
                0 <= k < 64 ==> bit_at(r.0, k) == (if k < n as int {
                    bit_at(self.0, k)
                } else {
                    val
                }),
            n >= 64 ==> r == self,
    {
        if n >= 64 {
            return self;
        }
        let nj = n as u64;
        let mask = !0u64 >> nj;
        let out = if val {
            proof {
                lemma_mask_set_low(self.0, nj);
            }
            Name(self.0 | mask)
        } else {
            proof {
                lemma_mask_keep_low(self.0, nj);
            }
            Name(self.0 & !mask)
        };
        proof {
            assert forall|k: int| 0 <= k < 64 implies bit_at(out.0, k) == (if k < n as int {
                bit_at(self.0, k)
            } else {
                val
            }) by {
                let kj = (63 - k) as u64;
                assert(kj < 64);
                assert(k < n as int <==> kj >= 64 - nj);
                assert((out.0 >> kj) & 1u64 == (if kj >= 64 - nj {
                    (self.0 >> kj) & 1u64
                } else {
                    if val {
                        1u64
                    } else {
                        0u64
                    }
                }));
                lemma_xor_bit(out.0, self.0, kj);
            }
        }
        out
    }
}

/// A binary prefix: the part of the namespace consisting of all names whose
/// first `bit_count` bits equal those of `name`. The trailing bits of `name`
/// are kept at zero, so structural equality is equality of prefixes.
#[derive(PartialEq, Eq, Structural, Clone, Copy, Debug)]
pub struct Prefix {
    pub bit_count: usize,
    pub name: Name,
}

impl Prefix {
    /// Well-formed: at most 64 bits, and all bits past `bit_count` are zero.
    pub open spec fn wf(self) -> bool {
        self.bit_count <= 64 && forall|k: int|
            self.bit_count <= k < 64 ==> !bit_at(self.name.0, k)
    }

    /// `name` lies in the namespace of this prefix.
    pub open spec fn spec_matches(self, name: Name) -> bool {
        first_bits_eq(self.name.0, name.0, self.bit_count as int)
    }

    /// Every name of `self` is also a name of `other`.
    pub open spec fn spec_is_prefix_of(self, other: Prefix) -> bool {
        first_bits_eq(self.name.0, other.name.0, self.bit_count as int)
    }

    /// One of the two prefixes is a prefix of the other.
    pub open spec fn spec_compatible(self, other: Prefix) -> bool {
        first_bits_eq(
            self.name.0,
            other.name.0,
            if self.bit_count <= other.bit_count {
                self.bit_count as int
            } else {
                other.bit_count as int
            },
        )
    }

    /// The two prefixes differ in exactly one bit position below their
    /// common depth.
    pub open spec fn spec_neighbour(self, other: Prefix) -> bool {
        let m = if self.bit_count <= other.bit_count {
            self.bit_count as int
        } else {
            other.bit_count as int
        };
        exists|d: int|
            0 <= d < m && bit_at(self.name.0, d) != bit_at(other.name.0, d) && (forall|k: int|
                0 <= k < m && k != d ==> bit_at(self.name.0, k) == bit_at(other.name.0, k))
    }

    /// Creates a new `Prefix` from the first `bit_count` bits of `name`,
    /// with the insignificant bits set to 0.
    pub fn new(bit_count: usize, name: Name) -> (r: Prefix)
        requires
            bit_count <= 64,
        ensures
            r.wf(),
            r.bit_count == bit_count,
            first_bits_eq(r.name.0, name.0, bit_count as int),
    {
        Prefix { bit_count, name: name.set_remaining(bit_count, false) }
    }

    /// The empty prefix, covering the whole namespace.
    pub fn empty() -> (r: Prefix)
        ensures
            r.wf(),
            r.bit_count == 0,
            r == (Prefix { bit_count: 0, name: Name(0) }),
    {
        proof {
            assert(forall|k: int| 0 <= k < 64 ==> !bit_at(0u64, k)) by {
                assert(forall|j: u64| j < 64 ==> #[trigger] (0u64 >> j) & 1u64 == 0u64)
                    by (bit_vector);
            }
        }
        Prefix { bit_count: 0, name: Name(0) }
    }

    /// Creates a `Prefix` whose leading byte is `name`.
    pub fn short(bit_count: usize, name: u8) -> (r: Prefix)
        requires
            bit_count <= 64,
        ensures
            r.wf(),
            r.bit_count == bit_count,
            first_bits_eq(r.name.0, (name as u64) << 56u64, bit_count as int),
    {
        let long_name = (name as u64) << 56u64;
        Prefix::new(bit_count, Name(long_name))
    }

    /// Length of the common prefix of this prefix's canonical name and
    /// the given name.
    pub fn common_prefix(&self, name: Name) -> (r: usize)
        ensures
            r <= 64,
            first_bits_eq(self.name.0, name.0, r as int),
            r < 64 ==> bit_at(self.name.0, r as int) != bit_at(name.0, r as int),
    {
        self.name.common_prefix(name)
    }

    /// Returns `self` with an appended bit: `0` when `bit` is `false`, `1`
    /// when `bit` is `true`.
    pub fn pushed(self, bit: bool) -> (r: Prefix)
        requires
            self.wf(),
            self.bit_count < 64,
        ensures
            r.wf(),
            r.bit_count == self.bit_count + 1,
            first_bits_eq(r.name.0, self.name.0, self.bit_count as int),
            bit_at(r.name.0, self.bit_count as int) == bit,
    {
        let name = self.name.with_bit(self.bit_count, bit);
        Prefix { bit_count: self.bit_count + 1, name }
    }

    /// Returns the prefix made of the first `bit_count - 1` bits of `self`,
    /// or `self` when it is already empty.
    pub fn popped(self) -> (r: Prefix)
        requires
            self.wf(),
        ensures
            r.wf(),
            self.bit_count > 0 ==> r.bit_count == self.bit_count - 1 && first_bits_eq(
                r.name.0,
                self.name.0,
                self.bit_count - 1,
            ),
            self.bit_count == 0 ==> r == self,
    {
        if self.bit_count > 0 {
            let name = self.name.with_bit(self.bit_count - 1, false);
            Prefix { bit_count: self.bit_count - 1, name }
        } else {
            self
        }
    }

    /// The number of bits in the prefix.
    pub fn bit_count(&self) -> (r: usize)
        ensures
            r == self.bit_count,
    {
        self.bit_count
    }

    /// Returns `true` if `self` is a prefix of `other` or vice versa.
    pub fn is_compatible(&self, other: &Prefix) -> (r: bool)
        requires
            self.wf(),
            other.wf(),
        ensures
            r == self.spec_compatible(*other),
    {
        let i = self.name.common_prefix(other.name);
        let r = i >= self.bit_count || i >= other.bit_count;
        proof {
            let m = if self.bit_count <= other.bit_count {
                self.bit_count as int
            } else {
                other.bit_count as int
            };
            if !r {
                assert(i < m);
                assert(bit_at(self.name.0, i as int) != bit_at(other.name.0, i as int));
            }
        }
        r
    }

    /// Returns `true` if every name matching `self` also matches `other`.
    pub fn is_prefix_of(&self, other: &Prefix) -> (r: bool)
        requires
            self.wf(),
        ensures
            r == self.spec_is_prefix_of(*other),
    {
        let i = self.name.common_prefix(other.name);
        proof {
            if i < self.bit_count {
                assert(bit_at(self.name.0, i as int) != bit_at(other.name.0, i as int));
            }
        }
        i >= self.bit_count
    }

    /// Returns `true` if the `other` prefix differs from this one in exactly
    /// one bit below their common depth.
    pub fn is_neighbour(&self, other: &Prefix) -> (r: bool)
        requires
            self.wf(),
            other.wf(),
        ensures
            r == self.spec_neighbour(*other),
    {
        let ghost m = if self.bit_count <= other.bit_count {
            self.bit_count as int
        } else {
            other.bit_count as int
        };
        let i = self.name.common_prefix(other.name);
        if i >= self.bit_count || i >= other.bit_count {
            proof {
                assert forall|d: int|
                    0 <= d < m implies bit_at(self.name.0, d) == bit_at(other.name.0, d) by {}
            }
            false
        } else {
            let flipped = self.name.with_flipped_bit(i);
            let j = flipped.common_prefix(other.name);
            let r = j >= self.bit_count || j >= other.bit_count;
            proof {
                assert(i < m);
                if r {
                    // `i` is the single differing position.
                    assert forall|k: int|
                        0 <= k < m && k != i as int implies bit_at(self.name.0, k) == bit_at(
                        other.name.0,
                        k,
                    ) by {
                        assert(bit_at(flipped.0, k) == bit_at(other.name.0, k));
                    }
                    assert(self.spec_neighbour(*other));
                } else {
                    // A second differing position exists: no single bit works.
                    assert(j < m);
                    if self.spec_neighbour(*other) {
                        let d = choose|d: int|
                            0 <= d < m && bit_at(self.name.0, d) != bit_at(other.name.0, d) && (
                            forall|k: int|
                                0 <= k < m && k != d ==> bit_at(self.name.0, k) == bit_at(
                                    other.name.0,
                                    k,
                                ));
                        assert(d == i as int);
                        assert(bit_at(flipped.0, j as int) != bit_at(other.name.0, j as int));
                        if j as int == i as int {
                            assert(bit_at(flipped.0, i as int) == !bit_at(self.name.0, i as int));
                            assert(false);
                        } else {
                            assert(bit_at(flipped.0, j as int) == bit_at(self.name.0, j as int));
                            assert(bit_at(self.name.0, j as int) == bit_at(other.name.0, j as int));
                            assert(false);
                        }
                    }
                }
            }
            r
        }
    }

    /// Returns `true` if this is a prefix of the given `name`.
    pub fn matches(&self, name: Name) -> (r: bool)
        requires
            self.wf(),
        ensures
            r == self.spec_matches(name),
    {
        let i = self.name.common_prefix(name);
        proof {
            if i < self.bit_count {
                assert(bit_at(self.name.0, i as int) != bit_at(name.0, i as int));
            }
        }
        i >= self.bit_count
    }

    /// Returns the given `name` with its first bits replaced by `self`.
    pub fn substituted_in(&self, name: Name) -> (r: Name)
        requires
            self.wf(),
        ensures
            forall|k: int|
                0 <= k < 64 ==> bit_at(r.0, k) == (if k < self.bit_count as int {
                    bit_at(self.name.0, k)
                } else {
                    bit_at(name.0, k)
                }),
            self.spec_matches(r),
    {
        let mut out = name;
        let mut i: usize = 0;
        while i < self.bit_count
            invariant
                self.wf(),
                i <= self.bit_count,
                forall|k: int|
                    0 <= k < 64 ==> bit_at(out.0, k) == (if k < i as int {
                        bit_at(self.name.0, k)
                    } else {
                        bit_at(name.0, k)
                    }),
            decreases self.bit_count - i,
        {
            let b = self.name.bit(i);
            out = out.with_bit(i, b);
            i = i + 1;
        }
        out
    }

    /// Returns the sibling of `self` (the prefix differing only in its last
    /// bit), if `self` is not empty.
    pub fn sibling(&self) -> (r: Option<Prefix>)
        requires
            self.wf(),
        ensures
            self.bit_count == 0 ==> r is None,
            self.bit_count > 0 ==> (r matches Some(p) && p.wf() && p.bit_count == self.bit_count
                && bit_at(p.name.0, self.bit_count - 1) != bit_at(self.name.0, self.bit_count - 1)
                && (forall|k: int|
                0 <= k < 64 && k != self.bit_count - 1 ==> bit_at(p.name.0, k) == bit_at(
                    self.name.0,
                    k,
                ))),
    {
        if self.bit_count > 0 {
            let name = self.name.with_flipped_bit(self.bit_count - 1);
            Some(Prefix { name, bit_count: self.bit_count })
        } else {
            None
        }
    }
}

/// Every name matching `p` is matched by some prefix in `qs`: the set `qs`
/// covers the namespace region of `p`.
pub open spec fn prefix_covered(p: Prefix, qs: Seq<Prefix>) -> bool {
    forall|n: Name|
        p.spec_matches(n) ==> exists|q: Prefix| #[trigger] qs.contains(q) && q.spec_matches(n)
}

/// A region covered by a set stays covered by any superset.
pub proof fn lemma_covered_monotone(p: Prefix, s1: Seq<Prefix>, s2: Seq<Prefix>)
    requires
        forall|q: Prefix| s1.contains(q) ==> s2.contains(q),
        prefix_covered(p, s1),
    ensures
        prefix_covered(p, s2),
{
    assert forall|n: Name| p.spec_matches(n) implies exists|q: Prefix|
        #[trigger] s2.contains(q) && q.spec_matches(n) by {
        let q = choose|q: Prefix| #[trigger] s1.contains(q) && q.spec_matches(n);
        assert(s2.contains(q) && q.spec_matches(n));
    }
}

/// A prefix in the set covers itself.
pub proof fn lemma_covered_by_member(p: Prefix, q: Prefix, qs: Seq<Prefix>)
    requires
        qs.contains(q),
        q.spec_compatible(p),
        q.bit_count <= p.bit_count,
    ensures
        prefix_covered(p, qs),
{
    assert forall|n: Name| p.spec_matches(n) implies exists|q2: Prefix|
        #[trigger] qs.contains(q2) && q2.spec_matches(n) by {
        assert(q.spec_matches(n)) by {
            assert forall|k: int| 0 <= k < q.bit_count implies bit_at(q.name.0, k) == bit_at(
                n.0,
                k,
            ) by {
                assert(bit_at(q.name.0, k) == bit_at(p.name.0, k));
                assert(bit_at(p.name.0, k) == bit_at(n.0, k));
            }
        }
        assert(qs.contains(q) && q.spec_matches(n));
    }
}

impl Prefix {
    /// Returns whether the namespace described by `self` is covered by the
    /// prefixes in the given set.
    pub fn is_covered_by(&self, prefixes: &Vec<Prefix>) -> (r: bool)
        requires
            self.wf(),
            forall|k: int| 0 <= k < prefixes@.len() ==> (#[trigger] prefixes@[k]).wf(),
        ensures
            r == prefix_covered(*self, prefixes@),
    {
        let mut max_len: usize = 0;
        let mut i: usize = 0;
        while i < prefixes.len()
            invariant
                i <= prefixes@.len(),
                max_len <= 64,
                forall|k: int| 0 <= k < prefixes@.len() ==> (#[trigger] prefixes@[k]).wf(),
                forall|k: int| 0 <= k < i ==> (#[trigger] prefixes@[k]).bit_count <= max_len,
            decreases prefixes@.len() - i,
        {
            let bc = prefixes[i].bit_count;
            if bc > max_len {
                max_len = bc;
            }
            i = i + 1;
        }
        self.is_covered_by_impl(prefixes, max_len)
    }

    /// Recursive worker for [`Prefix::is_covered_by`]: either a single
    /// prefix of the set subsumes `self`, or both children are covered.
    fn is_covered_by_impl(&self, prefixes: &Vec<Prefix>, max_prefix_len: usize) -> (r: bool)
        requires
            self.wf(),
            max_prefix_len <= 64,
            forall|k: int| 0 <= k < prefixes@.len() ==> (#[trigger] prefixes@[k]).wf(),
            forall|k: int|
                0 <= k < prefixes@.len() ==> (#[trigger] prefixes@[k]).bit_count
                    <= max_prefix_len,
        ensures
            r == prefix_covered(*self, prefixes@),
        decreases 64 - self.bit_count,
    {
        let mut i: usize = 0;
        while i < prefixes.len()
            invariant
                self.wf(),
                i <= prefixes@.len(),
                forall|k: int| 0 <= k < prefixes@.len() ==> (#[trigger] prefixes@[k]).wf(),
                forall|k: int|
                    0 <= k < i ==> !((#[trigger] prefixes@[k]).spec_compatible(*self)
                        && prefixes@[k].bit_count <= self.bit_count),
            decreases prefixes@.len() - i,
        {
            let q = prefixes[i];
            if q.is_compatible(self) && q.bit_count <= self.bit_count {
                proof {
                    assert(prefixes@.contains(q));
                    lemma_covered_by_member(*self, q, prefixes@);
                }
                return true;
            }
            i = i + 1;
        }
        if self.bit_count >= max_prefix_len {
            // Deeper than every prefix in the set, and none subsumes it:
            // the canonical name of `self` is matched by no set member.
            proof {
                let n = self.name;
                assert(self.spec_matches(n));
                assert forall|q: Prefix| prefixes@.contains(q) implies !q.spec_matches(n) by {
                    if q.spec_matches(n) {
                        let k = choose|k: int| 0 <= k < prefixes@.len() && prefixes@[k] == q;
                        assert(q.spec_compatible(*self));
                        assert(false);
                    }
                }
                assert(!prefix_covered(*self, prefixes@)) by {
                    if prefix_covered(*self, prefixes@) {
                        let q = choose|q: Prefix|
                            #[trigger] prefixes@.contains(q) && q.spec_matches(n);
                        assert(!q.spec_matches(n));
                    }
                }
            }
            false
        } else {
            let p0 = self.pushed(false);
            let p1 = self.pushed(true);
            let r0 = p0.is_covered_by_impl(prefixes, max_prefix_len);
            let r1 = p1.is_covered_by_impl(prefixes, max_prefix_len);
            proof {
                // A name of `self` is a name of one of the two children.
                assert forall|n: Name|
                    self.spec_matches(n) implies p0.spec_matches(n) || p1.spec_matches(n) by {
                    if bit_at(n.0, self.bit_count as int) {
                        assert(p1.spec_matches(n));
                    } else {
                        assert(p0.spec_matches(n));
                    }
                }
                assert(forall|n: Name| p0.spec_matches(n) ==> self.spec_matches(n));
                assert(forall|n: Name| p1.spec_matches(n) ==> self.spec_matches(n));
                if r0 && r1 {
                    assert(prefix_covered(*self, prefixes@));
                } else if !r0 {
                    let n = choose|n: Name|
                        p0.spec_matches(n) && !(exists|q: Prefix|
                            #[trigger] prefixes@.contains(q) && q.spec_matches(n));
                    assert(p0.spec_matches(p0.name));
                    assert(self.spec_matches(n));
                    assert(!prefix_covered(*self, prefixes@));
                } else {
                    let n = choose|n: Name|
                        p1.spec_matches(n) && !(exists|q: Prefix|
                            #[trigger] prefixes@.contains(q) && q.spec_matches(n));
                    assert(p1.spec_matches(p1.name));
                    assert(self.spec_matches(n));
                    assert(!prefix_covered(*self, prefixes@));
                }
            }
            r0 && r1
        }
    }
}

/// Well-formed prefixes with the same length whose significant bits agree
/// are equal.
pub proof fn lemma_prefix_eq(p: Prefix, q: Prefix)
    requires
        p.wf(),
        q.wf(),
        p.bit_count == q.bit_count,
        first_bits_eq(p.name.0, q.name.0, p.bit_count as int),
    ensures
        p == q,
{
    assert forall|k: int| 0 <= k < 64 implies bit_at(p.name.0, k) == bit_at(q.name.0, k) by {
        if k >= p.bit_count {
            assert(!bit_at(p.name.0, k));
            assert(!bit_at(q.name.0, k));
        }
    }
    lemma_u64_bit_ext(p.name.0, q.name.0);
}

} // verus!
