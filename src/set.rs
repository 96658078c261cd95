//! The set itself, its element encoding and its iterator.

use vstd::prelude::*;

use crate::bits::{
    ascending, ascending_from, bit_set, has_bit, lemma_ascending_agree, lemma_ascending_from,
    lemma_ascending_len, lemma_ascending_skip, lemma_bit_set_and, lemma_bit_set_and_not,
    lemma_bit_set_empty, lemma_bit_set_injective, lemma_bit_set_or, lemma_bit_set_single,
    lemma_bit_set_xor, lemma_bit_set_zero,
};
use crate::text::{braced, debug_text, format_entries, texts};

verus! {

/// A type whose values map to bit positions below 32 and back.
///
/// `to_u32` must give each variant its own position below 32; `from_u32`
/// need only be right on positions that `to_u32` gives for some value.
pub trait CLike: Sized {
    /// The position that `to_u32` returns for this value. An impl written
    /// outside Verus gives it the same body as `to_u32`.
    spec fn spec_index(&self) -> u32;

    /// The value's bit position.
    fn to_u32(&self) -> (r: u32)
        ensures
            r == self.spec_index(),
    ;

    /// The value whose bit position is `v`.
    fn from_u32(v: u32) -> (r: Self)
        requires
            exists|e: Self| #[trigger] e.spec_index() == v,
        ensures
            r.spec_index() == v,
    ;
}

/// Some value of `E` has bit position `i`.
pub open spec fn encodes<E: CLike>(i: u32) -> bool {
    exists|e: E| #[trigger] e.spec_index() == i
}

/// The bit positions of `s`, element by element.
pub open spec fn indices<E: CLike>(s: Seq<E>) -> Seq<u32> {
    s.map_values(|e: E| e.spec_index())
}

/// The one-bit mask for an element.
fn bit<E: CLike>(e: &E) -> (r: u32)
    requires
        e.spec_index() < 32,
    ensures
        r == 1u32 << e.spec_index(),
        bit_set(r) == Set::<u32>::empty().insert(e.spec_index()),
{
    let value = e.to_u32();
    proof {
        lemma_bit_set_single(value);
    }
    1u32 << value
}

/// Relies on `u32::count_ones`: the number of one bits of `x`.
#[verifier::external_body]
fn count_ones(x: u32) -> (r: u32)
    ensures
        r == ascending(bit_set(x)).len(),
{
    x.count_ones()
}

/// A set of values of a C-like enum, one bit per variant.
#[derive(PartialEq, Eq, PartialOrd, Ord, Hash)]
pub struct EnumSet<E: CLike> {
    bits: u32,
    phantom: core::marker::PhantomData<E>,
}

impl<E: CLike> Clone for EnumSet<E> {
    fn clone(&self) -> (r: Self)
        ensures
            r == *self,
    {
        *self
    }
}

impl<E: CLike> Copy for EnumSet<E> {
}

impl<E: CLike> View for EnumSet<E> {
    type V = Set<u32>;

    /// The bit positions of the members.
    closed spec fn view(&self) -> Set<u32> {
        bit_set(self.bits)
    }
}

impl<E: CLike> EnumSet<E> {
    /// Every bit that is set stands for some value of `E`.
    #[verifier::type_invariant]
    closed spec fn inv(self) -> bool {
        forall|i: u32| #[trigger] has_bit(self.bits, i) ==> encodes::<E>(i)
    }

    /// The set with mask `bits`.
    closed spec fn with_bits(bits: u32) -> Self {
        EnumSet { bits, phantom: core::marker::PhantomData }
    }

    /// `e` is a member.
    pub open spec fn spec_contains(self, e: E) -> bool {
        self@.contains(e.spec_index())
    }

    /// The members of `self` or `other`.
    pub closed spec fn spec_union(self, other: Self) -> Self {
        Self::with_bits(self.bits | other.bits)
    }

    /// The members of both `self` and `other`.
    pub closed spec fn spec_intersection(self, other: Self) -> Self {
        Self::with_bits(self.bits & other.bits)
    }

    /// The members of `self` that are not members of `other`.
    pub closed spec fn spec_difference(self, other: Self) -> Self {
        Self::with_bits(self.bits & !other.bits)
    }

    /// The members of exactly one of `self` and `other`.
    pub closed spec fn spec_symmetric_difference(self, other: Self) -> Self {
        Self::with_bits(self.bits ^ other.bits)
    }

    /// `self` with `e` added.
    pub closed spec fn spec_insert(self, e: E) -> Self {
        Self::with_bits(self.bits | (1u32 << e.spec_index()))
    }

    /// `self` with `e` taken out.
    pub closed spec fn spec_remove(self, e: E) -> Self {
        Self::with_bits(self.bits & !(1u32 << e.spec_index()))
    }

    /// The empty set.
    pub closed spec fn spec_empty() -> Self {
        Self::with_bits(0)
    }

    /// Two sets are equal exactly when they have the same members.
    pub proof fn lemma_view_eq(a: Self, b: Self)
        ensures
            (a == b) <==> (a@ == b@),
    {
        if a@ == b@ {
            lemma_bit_set_injective(a.bits, b.bits);
        }
    }

    /// Union and intersection do not depend on the order of their operands.
    pub proof fn lemma_commutative(a: Self, b: Self)
        ensures
            a.spec_union(b) == b.spec_union(a),
            a.spec_intersection(b) == b.spec_intersection(a),
    {
        let x = a.bits;
        let y = b.bits;
        assert(x | y == y | x) by (bit_vector);
        assert(x & y == y & x) by (bit_vector);
    }

    /// A set united or intersected with itself is itself.
    pub proof fn lemma_idempotent(a: Self)
        ensures
            a.spec_union(a) == a,
            a.spec_intersection(a) == a,
    {
        let x = a.bits;
        assert(x | x == x) by (bit_vector);
        assert(x & x == x) by (bit_vector);
    }

    /// What is left of `a` after taking out `b` shares nothing with `b`.
    pub proof fn lemma_difference_disjoint(a: Self, b: Self)
        ensures
            a.spec_difference(b)@.disjoint(b@),
    {
        lemma_bit_set_and_not(a.bits, b.bits);
    }

    /// The intersection is what the difference leaves out.
    pub proof fn lemma_intersection_by_difference(a: Self, b: Self)
        ensures
            a.spec_intersection(b) == a.spec_difference(a.spec_difference(b)),
    {
        let x = a.bits;
        let y = b.bits;
        assert(x & y == x & !(x & !y)) by (bit_vector);
    }

    /// The symmetric difference is the union of the two one-sided differences.
    pub proof fn lemma_symmetric_difference_by_differences(a: Self, b: Self)
        ensures
            a.spec_symmetric_difference(b) == a.spec_difference(b).spec_union(b.spec_difference(a)),
    {
        let x = a.bits;
        let y = b.bits;
        assert(x ^ y == (x & !y) | (y & !x)) by (bit_vector);
    }

    /// The symmetric difference is the union less the intersection.
    pub proof fn lemma_symmetric_difference_by_union(a: Self, b: Self)
        ensures
            a.spec_symmetric_difference(b) == a.spec_union(b).spec_difference(a.spec_intersection(b)),
    {
        let x = a.bits;
        let y = b.bits;
        assert(x ^ y == (x | y) & !(x & y)) by (bit_vector);
    }

    /// The number of members is the number of elements a full iteration yields.
    pub proof fn lemma_len_is_iteration_count(a: Self)
        ensures
            a@.len() == ascending(a@).len(),
    {
        lemma_ascending_len(a@);
    }

    /// An inserted value is a member, inserting it again changes nothing (and
    /// the second insertion reports that it was there), and once removed it is
    /// no longer a member.
    pub proof fn lemma_insert_remove(a: Self, e: E)
        requires
            e.spec_index() < 32,
        ensures
            a.spec_insert(e).spec_contains(e),
            a.spec_insert(e).spec_insert(e) == a.spec_insert(e),
            !a.spec_insert(e).spec_remove(e).spec_contains(e),
            !a.spec_remove(e).spec_contains(e),
    {
        let k = e.spec_index();
        let b = 1u32 << k;
        lemma_bit_set_single(k);
        lemma_bit_set_or(a.bits, b);
        lemma_bit_set_or(a.bits | b, b);
        lemma_bit_set_and_not(a.bits | b, b);
        lemma_bit_set_and_not(a.bits, b);
        let x = a.bits;
        assert((x | b) | b == x | b) by (bit_vector);
        assert(bit_set(b).contains(k));
    }

    fn new_with_bits(bits: u32) -> (r: Self)
        requires
            forall|i: u32| #[trigger] has_bit(bits, i) ==> encodes::<E>(i),
        ensures
            r == Self::with_bits(bits),
    {
        EnumSet { bits, phantom: core::marker::PhantomData }
    }

    /// Returns an empty `EnumSet`.
    pub fn new() -> (r: Self)
        ensures
            r == Self::spec_empty(),
            r@ == Set::<u32>::empty(),
    {
        proof {
            lemma_bit_set_zero();
        }
        Self::new_with_bits(0)
    }

    /// Returns the number of elements in the set.
    pub fn len(&self) -> (r: usize)
        ensures
            r == self@.len(),
    {
        proof {
            lemma_ascending_len(self@);
        }
        count_ones(self.bits) as usize
    }

    /// Checks if the set is empty.
    pub fn is_empty(&self) -> (r: bool)
        ensures
            r == (self@ == Set::<u32>::empty()),
    {
        proof {
            lemma_bit_set_empty(self.bits);
        }
        self.bits == 0
    }

    /// Removes all elements from the set.
    pub fn clear(&mut self)
        ensures
            *final(self) == Self::spec_empty(),
            final(self)@ == Set::<u32>::empty(),
    {
        proof {
            lemma_bit_set_zero();
        }
        *self = Self::new_with_bits(0);
    }

    /// Returns `true` if the set has no elements in common with `other`.
    pub fn is_disjoint(&self, other: &Self) -> (r: bool)
        ensures
            r == self@.disjoint(other@),
    {
        proof {
            lemma_bit_set_and(self.bits, other.bits);
            lemma_bit_set_empty(self.bits & other.bits);
            if self@.intersect(other@) == Set::<u32>::empty() {
                assert forall|i: u32| !(self@.contains(i) && other@.contains(i)) by {
                    assert(!self@.intersect(other@).contains(i));
                }
            } else {
                assert(!(self@.intersect(other@) =~= Set::<u32>::empty()));
            }
        }
        (self.bits & other.bits) == 0
    }

    /// Returns `true` if the set is a superset of `other`.
    pub fn is_superset(&self, other: &Self) -> (r: bool)
        ensures
            r == other@.subset_of(self@),
    {
        proof {
            lemma_bit_set_and(self.bits, other.bits);
            if (self.bits & other.bits) == other.bits {
                assert forall|i: u32| other@.contains(i) implies self@.contains(i) by {
                    assert(bit_set(self.bits & other.bits).contains(i));
                }
            }
            if other@.subset_of(self@) {
                assert(bit_set(self.bits & other.bits) =~= bit_set(other.bits));
                lemma_bit_set_injective(self.bits & other.bits, other.bits);
            }
        }
        (self.bits & other.bits) == other.bits
    }

    /// Returns `true` if the set is a subset of `other`.
    pub fn is_subset(&self, other: &Self) -> (r: bool)
        ensures
            r == self@.subset_of(other@),
    {
        other.is_superset(self)
    }

    /// Returns the union of the set and `other`.
    pub fn union(&self, other: Self) -> (r: Self)
        ensures
            r == self.spec_union(other),
            r@ == self@.union(other@),
    {
        proof {
            use_type_invariant(self);
            use_type_invariant(&other);
            lemma_bit_set_or(self.bits, other.bits);
            assert forall|i: u32| #[trigger] has_bit(self.bits | other.bits, i) implies encodes::<E>(i) by {
                assert(bit_set(self.bits | other.bits).contains(i));
                assert(bit_set(self.bits).contains(i) || bit_set(other.bits).contains(i));
            }
        }
        Self::new_with_bits(self.bits | other.bits)
    }

    /// Returns the intersection of the set and `other`.
    pub fn intersection(&self, other: Self) -> (r: Self)
        ensures
            r == self.spec_intersection(other),
            r@ == self@.intersect(other@),
    {
        proof {
            use_type_invariant(self);
            lemma_bit_set_and(self.bits, other.bits);
            assert forall|i: u32| #[trigger] has_bit(self.bits & other.bits, i) implies encodes::<E>(i) by {
                assert(bit_set(self.bits & other.bits).contains(i));
                assert(bit_set(self.bits).contains(i));
            }
        }
        Self::new_with_bits(self.bits & other.bits)
    }

    /// Returns the difference between the set and `other`.
    pub fn difference(&self, other: Self) -> (r: Self)
        ensures
            r == self.spec_difference(other),
            r@ == self@.difference(other@),
    {
        proof {
            use_type_invariant(self);
            lemma_bit_set_and_not(self.bits, other.bits);
            assert forall|i: u32| #[trigger] has_bit(self.bits & !other.bits, i) implies encodes::<E>(i) by {
                assert(bit_set(self.bits & !other.bits).contains(i));
                assert(bit_set(self.bits).contains(i));
            }
        }
        Self::new_with_bits(self.bits & !other.bits)
    }

    /// Returns the symmetric difference between the set and `other`.
    pub fn symmetric_difference(&self, other: Self) -> (r: Self)
        ensures
            r == self.spec_symmetric_difference(other),
            r@ == self@.difference(other@).union(other@.difference(self@)),
    {
        proof {
            use_type_invariant(self);
            use_type_invariant(&other);
            lemma_bit_set_xor(self.bits, other.bits);
            assert forall|i: u32| #[trigger] has_bit(self.bits ^ other.bits, i) implies encodes::<E>(i) by {
                assert(bit_set(self.bits ^ other.bits).contains(i));
                assert(bit_set(self.bits).contains(i) || bit_set(other.bits).contains(i));
            }
        }
        Self::new_with_bits(self.bits ^ other.bits)
    }

    /// Adds the given value to the set.
    ///
    /// Returns `true` if the value was not already present in the set.
    pub fn insert(&mut self, value: E) -> (r: bool)
        requires
            value.spec_index() < 32,
        ensures
            r == !old(self).spec_contains(value),
            *final(self) == old(self).spec_insert(value),
            final(self)@ == old(self)@.insert(value.spec_index()),
    {
        let result = !self.contains(&value);
        let b = bit(&value);
        proof {
            use_type_invariant(&*self);
            lemma_bit_set_or(self.bits, b);
            assert forall|i: u32| #[trigger] has_bit(self.bits | b, i) implies encodes::<E>(i) by {
                assert(bit_set(self.bits | b).contains(i));
                if i == value.spec_index() {
                    assert(value.spec_index() == i);
                } else {
                    assert(bit_set(self.bits).contains(i));
                }
            }
            assert(bit_set(self.bits | b) =~= self@.insert(value.spec_index()));
        }
        *self = Self::new_with_bits(self.bits | b);
        result
    }

    /// Removes a value from the set.
    ///
    /// Returns `true` if the value was present in the set.
    pub fn remove(&mut self, value: &E) -> (r: bool)
        requires
            value.spec_index() < 32,
        ensures
            r == old(self).spec_contains(*value),
            *final(self) == old(self).spec_remove(*value),
            final(self)@ == old(self)@.remove(value.spec_index()),
    {
        let result = self.contains(value);
        let b = bit(value);
        proof {
            use_type_invariant(&*self);
            lemma_bit_set_and_not(self.bits, b);
            assert forall|i: u32| #[trigger] has_bit(self.bits & !b, i) implies encodes::<E>(i) by {
                assert(bit_set(self.bits & !b).contains(i));
                assert(bit_set(self.bits).contains(i));
            }
            assert(bit_set(self.bits & !b) =~= self@.remove(value.spec_index()));
        }
        *self = Self::new_with_bits(self.bits & !b);
        result
    }

    /// Returns `true` if the set contains the given value.
    pub fn contains(&self, value: &E) -> (r: bool)
        requires
            value.spec_index() < 32,
        ensures
            r == self.spec_contains(*value),
    {
        let b = bit(value);
        proof {
            lemma_bit_set_and(self.bits, b);
            lemma_bit_set_empty(self.bits & b);
            let k = value.spec_index();
            if self@.contains(k) {
                assert(bit_set(self.bits & b).contains(k));
            } else {
                assert(bit_set(self.bits & b) =~= Set::<u32>::empty());
            }
        }
        (self.bits & b) != 0
    }

    /// Inserts each of `values` in turn.
    pub fn extend(&mut self, values: Vec<E>)
        requires
            forall|k: int| 0 <= k < values@.len() ==> #[trigger] values@[k].spec_index() < 32,
        ensures
            final(self)@ == old(self)@.union(indices(values@).to_set()),
    {
        let mut values = values;
        let ghost all = values@;
        let ghost n = all.len();
        proof {
            assert(indices(all.take(0)).to_set() =~= Set::<u32>::empty());
            assert(old(self)@.union(Set::<u32>::empty()) =~= old(self)@);
        }
        while values.len() > 0
            invariant
                n == all.len(),
                values@.len() <= n,
                forall|k: int| 0 <= k < all.len() ==> #[trigger] all[k].spec_index() < 32,
                values@ == all.subrange(n - values@.len(), n as int),
                self@ == old(self)@.union(indices(all.take(n - values@.len())).to_set()),
            decreases values@.len(),
        {
            let ghost i = n - values@.len();
            let e = values.remove(0);
            proof {
                assert(e == all[i]);
                assert(values@ =~= all.subrange(i + 1, n as int));
                assert(indices(all.take(i + 1)).to_set() =~= indices(all.take(i)).to_set().insert(
                    e.spec_index(),
                )) by {
                    let q = indices(all.take(i));
                    let x = e.spec_index();
                    assert(indices(all.take(i + 1)) =~= q.push(x));
                    q.lemma_push_to_set_commute(x);
                }
            }
            self.insert(e);
            proof {
                assert(self@ =~= old(self)@.union(indices(all.take(i + 1)).to_set()));
            }
        }
        proof {
            assert(all.take(n as int) =~= all);
        }
    }

    /// The set holding exactly `values`.
    pub fn from_iter(values: Vec<E>) -> (r: Self)
        requires
            forall|k: int| 0 <= k < values@.len() ==> #[trigger] values@[k].spec_index() < 32,
        ensures
            r@ == indices(values@).to_set(),
    {
        let mut r = Self::new();
        r.extend(values);
        proof {
            assert(Set::<u32>::empty().union(indices(values@).to_set()) =~= indices(values@).to_set());
        }
        r
    }

    /// Returns an iterator over the set's elements.
    pub fn iter(&self) -> (r: Iter<E>)
        ensures
            r@ == ascending(self@),
    {
        proof {
            use_type_invariant(self);
            lemma_bit_set_zero();
        }
        Iter { index: 0, bits: self.bits, phantom: core::marker::PhantomData }
    }
}

impl<E: CLike + core::fmt::Debug> EnumSet<E> {
    /// The members' `Debug` texts in ascending bit order, as `{A, C}`.
    pub fn debug_string(&self) -> (r: String)
        ensures
            exists|items: Seq<Seq<char>>| #[trigger] braced(items) == r@ && items.len() == self@.len(),
    {
        let elems = self.iter().collect();
        let mut entries: Vec<String> = Vec::new();
        let mut i: usize = 0;
        while i < elems.len()
            invariant
                i <= elems@.len(),
                entries@.len() == i,
            decreases elems@.len() - i,
        {
            entries.push(debug_text(&elems[i]));
            i = i + 1;
        }
        let r = format_entries(&entries);
        proof {
            lemma_ascending_len(self@);
            assert(braced(texts(entries@)) == r@ && texts(entries@).len() == self@.len());
        }
        r
    }
}

/// The empty set.
impl<E: CLike> Default for EnumSet<E> {
    fn default() -> (r: Self)
        ensures
            r == Self::spec_empty(),
            r@ == Set::<u32>::empty(),
    {
        Self::new()
    }
}

impl<E: CLike> vstd::std_specs::ops::SubSpecImpl for EnumSet<E> {
    open spec fn obeys_sub_spec() -> bool {
        true
    }

    open spec fn sub_req(self, rhs: Self) -> bool {
        true
    }

    open spec fn sub_spec(self, rhs: Self) -> Self {
        self.spec_difference(rhs)
    }
}

/// `a - b` is `a.difference(b)`.
impl<E: CLike> core::ops::Sub for EnumSet<E> {
    type Output = Self;

    fn sub(self, other: Self) -> (r: Self)
        ensures
            r == self.spec_difference(other),
            r@ == self@.difference(other@),
    {
        self.difference(other)
    }
}

impl<E: CLike> vstd::std_specs::ops::BitOrSpecImpl for EnumSet<E> {
    open spec fn obeys_bitor_spec() -> bool {
        true
    }

    open spec fn bitor_req(self, rhs: Self) -> bool {
        true
    }

    open spec fn bitor_spec(self, rhs: Self) -> Self {
        self.spec_union(rhs)
    }
}

/// `a | b` is `a.union(b)`.
impl<E: CLike> core::ops::BitOr for EnumSet<E> {
    type Output = Self;

    fn bitor(self, other: Self) -> (r: Self)
        ensures
            r == self.spec_union(other),
            r@ == self@.union(other@),
    {
        self.union(other)
    }
}

impl<E: CLike> vstd::std_specs::ops::BitAndSpecImpl for EnumSet<E> {
    open spec fn obeys_bitand_spec() -> bool {
        true
    }

    open spec fn bitand_req(self, rhs: Self) -> bool {
        true
    }

    open spec fn bitand_spec(self, rhs: Self) -> Self {
        self.spec_intersection(rhs)
    }
}

/// `a & b` is `a.intersection(b)`.
impl<E: CLike> core::ops::BitAnd for EnumSet<E> {
    type Output = Self;

    fn bitand(self, other: Self) -> (r: Self)
        ensures
            r == self.spec_intersection(other),
            r@ == self@.intersect(other@),
    {
        self.intersection(other)
    }
}

impl<E: CLike> vstd::std_specs::ops::BitXorSpecImpl for EnumSet<E> {
    open spec fn obeys_bitxor_spec() -> bool {
        true
    }

    open spec fn bitxor_req(self, rhs: Self) -> bool {
        true
    }

    open spec fn bitxor_spec(self, rhs: Self) -> Self {
        self.spec_symmetric_difference(rhs)
    }
}

/// `a ^ b` is `a.symmetric_difference(b)`.
impl<E: CLike> core::ops::BitXor for EnumSet<E> {
    type Output = Self;

    fn bitxor(self, other: Self) -> (r: Self)
        ensures
            r == self.spec_symmetric_difference(other),
            r@ == self@.difference(other@).union(other@.difference(self@)),
    {
        self.symmetric_difference(other)
    }
}

/// An iterator over an `EnumSet`, from the lowest bit position up.
pub struct Iter<E: CLike> {
    index: u32,
    bits: u32,
    phantom: core::marker::PhantomData<E>,
}

impl<E: CLike> View for Iter<E> {
    type V = Seq<u32>;

    /// The bit positions still to come, in the order they come.
    closed spec fn view(&self) -> Seq<u32> {
        ascending(bit_set(self.bits))
    }
}

impl<E: CLike> Clone for Iter<E> {
    fn clone(&self) -> (r: Self)
        ensures
            r@ == self@,
    {
        proof {
            use_type_invariant(self);
        }
        Iter { index: self.index, bits: self.bits, phantom: core::marker::PhantomData }
    }
}

impl<E: CLike> Iter<E> {
    /// The bits below the scan position are spent, and every bit left
    /// stands for some value of `E`.
    #[verifier::type_invariant]
    closed spec fn inv(self) -> bool {
        &&& self.index <= 32
        &&& forall|j: u32| j < self.index ==> !#[trigger] has_bit(self.bits, j)
        &&& forall|i: u32| #[trigger] has_bit(self.bits, i) ==> encodes::<E>(i)
    }

    /// Returns the next element, or `None` once every element has been returned.
    pub fn next(&mut self) -> (r: Option<E>)
        ensures
            old(self)@.len() == 0 ==> r is None && final(self)@ == old(self)@,
            old(self)@.len() > 0 ==> r is Some && r->0.spec_index() == old(self)@[0]
                && final(self)@ == old(self)@.drop_first(),
    {
        proof {
            use_type_invariant(&*self);
        }
        let bits = self.bits;
        if bits == 0 {
            proof {
                lemma_bit_set_zero();
                lemma_ascending_from(bit_set(bits), 0);
                if self@.len() > 0 {
                    assert(self@.contains(self@[0]));
                }
            }
            return None;
        }
        let mut index = self.index;
        proof {
            vstd::std_specs::bits::axiom_u32_trailing_zeros(bits);
            let t = vstd::std_specs::bits::u32_trailing_zeros(bits);
            assert(has_bit(bits, t));
        }
        while (bits >> index) & 1 == 0
            invariant
                index < 32,
                bits != 0,
                forall|j: u32| j < index ==> !#[trigger] has_bit(bits, j),
                has_bit(bits, vstd::std_specs::bits::u32_trailing_zeros(bits)),
            decreases 32 - index,
        {
            proof {
                assert(!has_bit(bits, index));
                let t = vstd::std_specs::bits::u32_trailing_zeros(bits);
                if t <= index {
                    assert(has_bit(bits, t));
                }
            }
            index = index + 1;
        }
        let elem = E::from_u32(index);
        let rest = bits & !(1u32 << index);
        proof {
            let s = bit_set(bits);
            lemma_bit_set_single(index);
            lemma_bit_set_and_not(bits, 1u32 << index);
            let s2 = bit_set(rest);
            assert(s2 =~= s.remove(index));
            lemma_ascending_skip(s, 0, index as nat);
            lemma_ascending_skip(s2, 0, (index + 1) as nat);
            lemma_ascending_agree(s, s2, (index + 1) as nat);
            assert(ascending_from(s, index as nat) == seq![index] + ascending_from(s, (index + 1) as nat));
            assert(ascending(s).drop_first() =~= ascending(s2));
            assert forall|i: u32| #[trigger] has_bit(rest, i) implies encodes::<E>(i) by {
                assert(s2.contains(i));
                assert(s.contains(i));
            }
            assert forall|j: u32| j < index + 1 implies !#[trigger] has_bit(rest, j) by {
                if j < index {
                    assert(!s.contains(j));
                }
                assert(!s2.contains(j));
            }
        }
        *self = Iter { index: index + 1, bits: rest, phantom: core::marker::PhantomData };
        Some(elem)
    }

    /// The number of elements still to come, as a lower and an upper bound.
    pub fn size_hint(&self) -> (r: (usize, Option<usize>))
        ensures
            r.0 == self@.len(),
            r.1 == Some(r.0),
    {
        proof {
            lemma_ascending_len(bit_set(self.bits));
        }
        let exact = count_ones(self.bits) as usize;
        (exact, Some(exact))
    }

    /// Returns the remaining elements, in order.
    pub fn collect(self) -> (r: Vec<E>)
        ensures
            r@.len() == self@.len(),
            forall|k: int| 0 <= k < r@.len() ==> #[trigger] r@[k].spec_index() == self@[k],
    {
        let mut it = self;
        let mut out: Vec<E> = Vec::new();
        let ghost all = self@;
        loop
            invariant
                out@.len() + it@.len() == all.len(),
                it@ == all.subrange(out@.len() as int, all.len() as int),
                forall|k: int| 0 <= k < out@.len() ==> #[trigger] out@[k].spec_index() == all[k],
            ensures
                out@.len() == all.len(),
                forall|k: int| 0 <= k < out@.len() ==> #[trigger] out@[k].spec_index() == all[k],
            decreases it@.len(),
        {
            match it.next() {
                Some(e) => out.push(e),
                None => break,
            }
        }
        out
    }
}

} // verus!
