//! Sets of small natural numbers, stored by the `bit_set` crate.
//!
//! Verus cannot read `bit_set::BitSet` itself (its block type parameter is
//! bounded by a trait of that crate), so the library keeps one in a private
//! field of a type of its own. Every operation below makes one call into
//! `bit_set`; its contract states what that call does to the elements, which
//! [`bits`] names.
use vstd::prelude::*;

verus! {

/// A finite set of `usize`, held in a `bit_set::BitSet`.
#[derive(Debug)]
#[verifier::external_body]
pub struct BitSet {
    inner: bit_set::BitSet,
}

/// The elements of a [`BitSet`].
pub uninterp spec fn bits(s: BitSet) -> Set<usize>;

impl View for BitSet {
    type V = Set<usize>;

    open spec fn view(&self) -> Set<usize> {
        bits(*self)
    }
}

/// The set that `bit_set::BitSet::from_bytes` builds: byte `i` gives the
/// elements `8 i .. 8 i + 8`, most significant bit first.
pub open spec fn bytes_to_set(bytes: Seq<u8>) -> Set<usize> {
    Set::new(|i: usize| i < 8 * bytes.len() && (bytes[(i / 8) as int] >> ((7 - (i % 8)) as u8)) & 1u8 == 1u8)
}

/// Whether `s` lists its elements in strictly increasing order.
pub open spec fn strictly_increasing(s: Seq<usize>) -> bool {
    forall|i: int, j: int| 0 <= i < j < s.len() ==> s[i] < s[j]
}

impl BitSet {
    /// `bit_set::BitSet::new`: the empty set.
    #[verifier::external_body]
    pub fn new() -> (r: BitSet)
        ensures
            bits(r) == Set::<usize>::empty(),
    {
        BitSet { inner: bit_set::BitSet::new() }
    }

    /// `bit_set::BitSet::with_capacity`: the empty set, with room reserved for
    /// `nbits` elements.
    #[verifier::external_body]
    pub fn with_capacity(nbits: usize) -> (r: BitSet)
        ensures
            bits(r) == Set::<usize>::empty(),
    {
        BitSet { inner: bit_set::BitSet::with_capacity(nbits) }
    }

    /// `bit_set::BitSet::from_bytes`: bit `7 - j` of byte `i` stands for the
    /// element `8 i + j`.
    #[verifier::external_body]
    pub fn from_bytes(bytes: &[u8]) -> (r: BitSet)
        requires
            8 * bytes@.len() <= usize::MAX,
        ensures
            bits(r) == bytes_to_set(bytes@),
    {
        BitSet { inner: bit_set::BitSet::from_bytes(bytes) }
    }

    /// `bit_set::BitSet::insert`: adds `value`; returns whether it was absent.
    #[verifier::external_body]
    pub fn insert(&mut self, value: usize) -> (r: bool)
        requires
            value < usize::MAX,
        ensures
            bits(*final(self)) == bits(*old(self)).insert(value),
            r == !bits(*old(self)).contains(value),
    {
        self.inner.insert(value)
    }

    /// `bit_set::BitSet::remove`: removes `value`; returns whether it was
    /// present.
    #[verifier::external_body]
    pub fn remove(&mut self, value: usize) -> (r: bool)
        ensures
            bits(*final(self)) == bits(*old(self)).remove(value),
            r == bits(*old(self)).contains(value),
    {
        self.inner.remove(value)
    }

    /// `bit_set::BitSet::contains`.
    #[verifier::external_body]
    pub fn contains(&self, value: usize) -> (r: bool)
        ensures
            r == bits(*self).contains(value),
    {
        self.inner.contains(value)
    }

    /// `bit_set::BitSet::count`: the number of elements. The set is finite.
    #[verifier::external_body]
    pub fn len(&self) -> (r: usize)
        ensures
            r as int == (if bits(*self).finite() { bits(*self).len() as int } else { -1 }),
    {
        self.inner.count()
    }

    /// `bit_set::BitSet::is_empty`.
    #[verifier::external_body]
    pub fn is_empty(&self) -> (r: bool)
        ensures
            r == (bits(*self) == Set::<usize>::empty()),
    {
        self.inner.is_empty()
    }

    /// `bit_set::BitSet::is_subset`.
    #[verifier::external_body]
    pub fn is_subset(&self, other: &BitSet) -> (r: bool)
        ensures
            r == bits(*self).subset_of(bits(*other)),
    {
        self.inner.is_subset(&other.inner)
    }

    /// `bit_set::BitSet::union_with`.
    #[verifier::external_body]
    pub fn union_with(&mut self, other: &BitSet)
        ensures
            bits(*final(self)) == bits(*old(self)).union(bits(*other)),
    {
        self.inner.union_with(&other.inner)
    }

    /// `bit_set::BitSet::intersect_with`.
    #[verifier::external_body]
    pub fn intersect_with(&mut self, other: &BitSet)
        ensures
            bits(*final(self)) == bits(*old(self)).intersect(bits(*other)),
    {
        self.inner.intersect_with(&other.inner)
    }

    /// `bit_set::BitSet::difference_with`.
    #[verifier::external_body]
    pub fn difference_with(&mut self, other: &BitSet)
        ensures
            bits(*final(self)) == bits(*old(self)).difference(bits(*other)),
    {
        self.inner.difference_with(&other.inner)
    }

    /// `bit_set::BitSet::iter`, collected: the elements in increasing order,
    /// which is the order in which the iterator walks the bit blocks.
    #[verifier::external_body]
    pub fn to_vec(&self) -> (r: Vec<usize>)
        ensures
            strictly_increasing(r@),
            r@.to_set() == bits(*self),
            r@.len() as int == (if bits(*self).finite() { bits(*self).len() as int } else { -1 }),
    {
        self.inner.iter().collect()
    }

    /// `PartialEq` of `bit_set::BitSet`: the two iterators yield the same
    /// elements.
    #[verifier::external_body]
    pub fn set_eq(&self, other: &BitSet) -> (r: bool)
        ensures
            r == (bits(*self) == bits(*other)),
    {
        self.inner == other.inner
    }

    /// `Clone` of `bit_set::BitSet`.
    #[verifier::external_body]
    pub fn duplicate(&self) -> (r: BitSet)
        ensures
            bits(r) == bits(*self),
    {
        BitSet { inner: self.inner.clone() }
    }
}

impl Clone for BitSet {
    fn clone(&self) -> (r: Self)
        ensures
            r@ == self@,
    {
        self.duplicate()
    }
}

impl PartialEq for BitSet {
    fn eq(&self, other: &Self) -> (r: bool) {
        self.set_eq(other)
    }
}

impl vstd::std_specs::cmp::PartialEqSpecImpl for BitSet {
    open spec fn obeys_eq_spec() -> bool {
        true
    }

    open spec fn eq_spec(&self, other: &Self) -> bool {
        self@ == other@
    }
}

impl Eq for BitSet {
}

} // verus!

