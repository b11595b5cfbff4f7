//! Names and prefixes of the 64-bit name space.
//!
//! A name is a 64-bit unsigned integer. A prefix is a bit string of length
//! 0 to 64 that identifies a subtree of the binary name space: it matches a
//! name when its bits equal the name's most-significant bits.

use vstd::prelude::*;

verus! {

/// A name in the 64-bit name space.
pub type Name = u64;

/// A prefix of the name space: the top `len` bits of `bits`.
/// In a well-formed prefix all lower bits of `bits` are zero.
#[derive(Clone, Copy, PartialEq, Eq, Structural, Debug, Hash)]
pub struct Prefix {
    pub bits: u64,
    pub len: u64,
}

impl Prefix {
    /// Well-formed: length at most 64 and the bits below the prefix are zero.
    pub open spec fn wf(self) -> bool {
        &&& self.len <= 64
        &&& (self.len == 64 || self.bits & (u64::MAX >> self.len) == 0)
    }

    /// The prefix matches a name when its bits equal the name's top `len` bits.
    pub open spec fn spec_matches(self, name: Name) -> bool {
        self.len == 0 || ((name ^ self.bits) >> ((64 - self.len) as u64)) == 0
    }

    /// The two children of a prefix: the prefix extended by a zero bit and by
    /// a one bit.
    pub open spec fn spec_split(self) -> (Prefix, Prefix) {
        (
            Prefix { bits: self.bits, len: (self.len + 1) as u64 },
            Prefix {
                bits: self.bits | (1u64 << ((63 - self.len) as u64)),
                len: (self.len + 1) as u64,
            },
        )
    }

    /// The sibling: the same prefix with its last bit flipped.
    pub open spec fn spec_sibling(self) -> Prefix {
        Prefix { bits: self.bits ^ (1u64 << ((64 - self.len) as u64)), len: self.len }
    }

    /// The parent: the prefix with its last bit dropped.
    pub open spec fn spec_shorten(self) -> Prefix {
        Prefix {
            bits: self.bits & !(u64::MAX >> ((self.len - 1) as u64)),
            len: (self.len - 1) as u64,
        }
    }

    /// `self` is an ancestor of `other` (or equal to it): `other` extends it.
    pub open spec fn spec_is_ancestor(self, other: Prefix) -> bool {
        self.len <= other.len && self.spec_matches(other.bits)
    }

    /// The name with its top `len` bits replaced by the prefix's bits.
    pub open spec fn spec_substituted_in(self, name: Name) -> Name {
        if self.len == 0 {
            name
        } else if self.len == 64 {
            self.bits
        } else {
            self.bits | (name & (u64::MAX >> self.len))
        }
    }

    /// Whether the prefix is well-formed.
    pub fn is_wf(&self) -> (r: bool)
        ensures
            r == self.wf(),
    {
        self.len <= 64 && (self.len == 64 || self.bits & (u64::MAX >> self.len) == 0)
    }

    /// The empty prefix, which matches every name.
    pub fn empty() -> (r: Prefix)
        ensures
            r == (Prefix { bits: 0u64, len: 0u64 }),
            r.wf(),
    {
        proof {
            assert(0u64 & (u64::MAX >> 0u64) == 0) by (bit_vector);
        }
        Prefix { bits: 0, len: 0 }
    }

    /// Whether the prefix's bits equal the name's most-significant bits.
    pub fn matches(&self, name: Name) -> (r: bool)
        requires
            self.wf(),
        ensures
            r == self.spec_matches(name),
    {
        self.len == 0 || ((name ^ self.bits) >> ((64 - self.len) as u64)) == 0
    }

    /// Both children of the prefix.
    pub fn split(&self) -> (r: (Prefix, Prefix))
        requires
            self.wf(),
            self.len < 64,
        ensures
            r == self.spec_split(),
            r.0.wf(),
            r.1.wf(),
            r.0.len == self.len + 1,
            r.1.len == self.len + 1,
            r.0 != r.1,
    {
        proof {
            lemma_split_wf(*self);
        }
        (
            Prefix { bits: self.bits, len: self.len + 1 },
            Prefix { bits: self.bits | (1u64 << ((63 - self.len) as u64)), len: self.len + 1 },
        )
    }

    /// The sibling prefix.
    pub fn sibling(&self) -> (r: Prefix)
        requires
            self.wf(),
            1 <= self.len,
        ensures
            r == self.spec_sibling(),
            r.wf(),
            r.len == self.len,
    {
        proof {
            lemma_family_wf(*self);
        }
        Prefix { bits: self.bits ^ (1u64 << ((64 - self.len) as u64)), len: self.len }
    }

    /// The parent prefix.
    pub fn shorten(&self) -> (r: Prefix)
        requires
            self.wf(),
            1 <= self.len,
        ensures
            r == self.spec_shorten(),
            r.wf(),
            r.len == self.len - 1,
    {
        proof {
            lemma_family_wf(*self);
        }
        Prefix { bits: self.bits & !(u64::MAX >> (self.len - 1)), len: self.len - 1 }
    }

    /// Whether `self` is an ancestor of `other` (equality included).
    pub fn is_ancestor(&self, other: &Prefix) -> (r: bool)
        requires
            self.wf(),
            other.wf(),
        ensures
            r == self.spec_is_ancestor(*other),
    {
        self.len <= other.len && self.matches(other.bits)
    }

    /// The name with its top bits replaced by the prefix's bits.
    pub fn substituted_in(&self, name: Name) -> (r: Name)
        requires
            self.wf(),
        ensures
            r == self.spec_substituted_in(name),
            self.spec_matches(r),
    {
        proof {
            lemma_substituted_in_matches(*self, name);
        }
        if self.len == 0 {
            name
        } else if self.len == 64 {
            self.bits
        } else {
            self.bits | (name & (u64::MAX >> self.len))
        }
    }
}

proof fn bv_split_wf(bits: u64, len: u64)
    by (bit_vector)
    requires
        len < 64,
        bits & (u64::MAX >> len) == 0,
    ensures
        len + 1 == 64 || bits & (u64::MAX >> ((len + 1) as u64)) == 0,
        len + 1 == 64 || (bits | (1u64 << ((63 - len) as u64))) & (u64::MAX >> ((len + 1) as u64))
            == 0,
        bits | (1u64 << ((63 - len) as u64)) != bits,
{
}

/// Both children of a well-formed prefix are well-formed and distinct.
proof fn lemma_split_wf(p: Prefix)
    requires
        p.wf(),
        p.len < 64,
    ensures
        p.spec_split().0.wf(),
        p.spec_split().1.wf(),
        p.spec_split().0 != p.spec_split().1,
{
    bv_split_wf(p.bits, p.len);
}

proof fn bv_family_wf(bits: u64, len: u64)
    by (bit_vector)
    requires
        1 <= len,
        len <= 64,
        len == 64 || bits & (u64::MAX >> len) == 0,
    ensures
        len == 64 || (bits ^ (1u64 << ((64 - len) as u64))) & (u64::MAX >> len) == 0,
        len - 1 == 64 || (bits & !(u64::MAX >> ((len - 1) as u64))) & (u64::MAX >> ((len
            - 1) as u64)) == 0,
{
}

/// The sibling and the parent of a well-formed prefix are well-formed.
pub proof fn lemma_family_wf(p: Prefix)
    requires
        p.wf(),
        1 <= p.len,
    ensures
        p.spec_sibling().wf(),
        p.spec_shorten().wf(),
{
    bv_family_wf(p.bits, p.len);
}

proof fn bv_split_partition(bits: u64, len: u64, name: u64)
    by (bit_vector)
    requires
        len < 64,
        bits & (u64::MAX >> len) == 0,
    ensures
        (len == 0 || ((name ^ bits) >> ((64 - len) as u64)) == 0) == (((name ^ bits) >> ((63
            - len) as u64)) == 0 || ((name ^ (bits | (1u64 << ((63 - len) as u64)))) >> ((63
            - len) as u64)) == 0),
        !((((name ^ bits) >> ((63 - len) as u64)) == 0) && (((name ^ (bits | (1u64 << ((63
            - len) as u64)))) >> ((63 - len) as u64)) == 0)),
{
}

/// A prefix's two children match disjoint sets of names whose union is
/// exactly the set of names the prefix matches.
pub proof fn lemma_split_partitions_names(p: Prefix, name: Name)
    requires
        p.wf(),
        p.len < 64,
    ensures
        p.spec_matches(name) == (p.spec_split().0.spec_matches(name)
            || p.spec_split().1.spec_matches(name)),
        !(p.spec_split().0.spec_matches(name) && p.spec_split().1.spec_matches(name)),
{
    bv_split_partition(p.bits, p.len, name);
}

proof fn bv_shorten_split(bits: u64, len: u64)
    by (bit_vector)
    requires
        1 <= len,
        len <= 64,
        len == 64 || bits & (u64::MAX >> len) == 0,
    ensures
        (bits & !(u64::MAX >> ((len - 1) as u64))) == bits || (bits & !(u64::MAX >> ((len
            - 1) as u64))) == (bits ^ (1u64 << ((64 - len) as u64))),
        (bits & !(u64::MAX >> ((len - 1) as u64))) == bits ==> (bits & !(u64::MAX >> ((len
            - 1) as u64))) | (1u64 << ((64 - len) as u64)) == (bits ^ (1u64 << ((64
            - len) as u64))),
        (bits & !(u64::MAX >> ((len - 1) as u64))) == (bits ^ (1u64 << ((64 - len) as u64))) ==> (
        bits & !(u64::MAX >> ((len - 1) as u64))) | (1u64 << ((64 - len) as u64)) == bits,
{
}

/// Splitting the parent of a prefix yields exactly the prefix and its sibling
/// (in one of the two orders).
pub proof fn lemma_shorten_split(p: Prefix)
    requires
        p.wf(),
        1 <= p.len,
    ensures
        p.spec_shorten().spec_split() == (p, p.spec_sibling()) || p.spec_shorten().spec_split()
            == (p.spec_sibling(), p),
{
    bv_shorten_split(p.bits, p.len);
    assert(63 - (p.len - 1) == 64 - p.len);
}

proof fn bv_substituted_matches(bits: u64, len: u64, name: u64)
    by (bit_vector)
    requires
        1 <= len,
        len < 64,
        bits & (u64::MAX >> len) == 0,
    ensures
        (((bits | (name & (u64::MAX >> len))) ^ bits) >> ((64 - len) as u64)) == 0,
{
}

proof fn bv_xor_self(bits: u64)
    by (bit_vector)
    ensures
        ((bits ^ bits) >> 0u64) == 0,
{
}

/// Substituting a prefix into a name produces a name the prefix matches.
pub proof fn lemma_substituted_in_matches(p: Prefix, name: Name)
    requires
        p.wf(),
    ensures
        p.spec_matches(p.spec_substituted_in(name)),
{
    if p.len == 0 {
    } else if p.len == 64 {
        bv_xor_self(p.bits);
    } else {
        bv_substituted_matches(p.bits, p.len, name);
    }
}

proof fn bv_ancestor_matches(abits: u64, alen: u64, bbits: u64, blen: u64, name: u64)
    by (bit_vector)
    requires
        1 <= alen,
        alen <= blen,
        blen <= 64,
        ((bbits ^ abits) >> ((64 - alen) as u64)) == 0,
        ((name ^ bbits) >> ((64 - blen) as u64)) == 0,
    ensures
        ((name ^ abits) >> ((64 - alen) as u64)) == 0,
{
}

/// A name matched by a prefix is matched by every ancestor of that prefix.
pub proof fn lemma_ancestor_matches(a: Prefix, b: Prefix, name: Name)
    requires
        a.wf(),
        b.wf(),
        a.spec_is_ancestor(b),
        b.spec_matches(name),
    ensures
        a.spec_matches(name),
{
    if a.len == 0 {
    } else {
        bv_ancestor_matches(a.bits, a.len, b.bits, b.len, name);
    }
}

} // verus!
