//! The mathematical model of a 32-bit mask: the set of positions whose bit
//! is one, and those positions listed in ascending order.

use vstd::prelude::*;

verus! {

/// Bit `i` of `bits` is one (only positions below 32 exist).
pub open spec fn has_bit(bits: u32, i: u32) -> bool {
    i < 32 && (bits >> i) & 1u32 == 1u32
}

/// The positions whose bit is one.
pub open spec fn bit_set(bits: u32) -> Set<u32> {
    Set::new(|i: u32| has_bit(bits, i))
}

/// The members of `s` in `[i, 32)`, in ascending order.
pub open spec fn ascending_from(s: Set<u32>, i: nat) -> Seq<u32>
    decreases 32 - i,
{
    if i >= 32 {
        Seq::empty()
    } else if s.contains(i as u32) {
        seq![i as u32] + ascending_from(s, i + 1)
    } else {
        ascending_from(s, i + 1)
    }
}

/// The members of `s` below 32, in ascending order.
pub open spec fn ascending(s: Set<u32>) -> Seq<u32> {
    ascending_from(s, 0)
}

/// The listing holds exactly the members of `s` in `[i, 32)`, each once, in
/// strictly ascending order.
pub proof fn lemma_ascending_from(s: Set<u32>, i: nat)
    requires
        i <= 32,
    ensures
        forall|j: u32| #[trigger]
            ascending_from(s, i).contains(j) <==> (i <= j < 32 && s.contains(j)),
        forall|a: int, b: int|
            0 <= a < b < ascending_from(s, i).len() ==> #[trigger] ascending_from(s, i)[a]
                < #[trigger] ascending_from(s, i)[b],
        forall|a: int| 0 <= a < ascending_from(s, i).len() ==> i <= #[trigger] ascending_from(s, i)[a],
    decreases 32 - i,
{
    if i < 32 {
        lemma_ascending_from(s, i + 1);
        let rest = ascending_from(s, i + 1);
        if s.contains(i as u32) {
            let whole = seq![i as u32] + rest;
            assert forall|j: u32| #[trigger] whole.contains(j) <==> (i <= j < 32 && s.contains(j)) by {
                if whole.contains(j) {
                    let k = choose|k: int| 0 <= k < whole.len() && whole[k] == j;
                    if k > 0 {
                        assert(rest[k - 1] == j);
                        assert(rest.contains(j));
                    }
                }
                if i <= j < 32 && s.contains(j) {
                    if j == i {
                        assert(whole[0] == j);
                    } else {
                        assert(rest.contains(j));
                        let k = choose|k: int| 0 <= k < rest.len() && rest[k] == j;
                        assert(whole[k + 1] == j);
                    }
                }
            }
            assert forall|a: int| 0 <= a < whole.len() implies i <= #[trigger] whole[a] by {
                if a > 0 {
                    assert(whole[a] == rest[a - 1]);
                }
            }
            assert forall|a: int, b: int| 0 <= a < b < whole.len() implies #[trigger] whole[a]
                < #[trigger] whole[b] by {
                assert(whole[b] == rest[b - 1]);
                if a > 0 {
                    assert(whole[a] == rest[a - 1]);
                }
            }
        }
    } else {
        assert forall|j: u32| #[trigger]
            ascending_from(s, i).contains(j) implies (i <= j < 32 && s.contains(j)) by {
            assert(ascending_from(s, i).len() == 0);
        }
    }
}

/// Starting the listing below a stretch with no members changes nothing.
pub proof fn lemma_ascending_skip(s: Set<u32>, i: nat, k: nat)
    requires
        i <= k <= 32,
        forall|j: u32| i <= j < k ==> !#[trigger] s.contains(j),
    ensures
        ascending_from(s, i) == ascending_from(s, k),
    decreases k - i,
{
    if i < k {
        assert(!s.contains(i as u32));
        lemma_ascending_skip(s, i + 1, k);
    }
}

/// Two sets that agree on `[i, 32)` list the same from `i`.
pub proof fn lemma_ascending_agree(s: Set<u32>, t: Set<u32>, i: nat)
    requires
        forall|j: u32| i <= j < 32 ==> (#[trigger] s.contains(j) == t.contains(j)),
    ensures
        ascending_from(s, i) == ascending_from(t, i),
    decreases 32 - i,
{
    if i < 32 {
        assert(s.contains(i as u32) == t.contains(i as u32));
        lemma_ascending_agree(s, t, i + 1);
    }
}

/// A set of positions below 32 is finite, and its listing has one entry per member.
pub proof fn lemma_ascending_len(s: Set<u32>)
    requires
        forall|j: u32| #[trigger] s.contains(j) ==> j < 32,
    ensures
        s.finite(),
        ascending(s).to_set() == s,
        ascending(s).len() == s.len(),
{
    let q = ascending(s);
    lemma_ascending_from(s, 0);
    assert(q.to_set() =~= s);
    assert(q.no_duplicates()) by {
        assert forall|a: int, b: int| 0 <= a < q.len() && 0 <= b < q.len() && a != b implies q[a]
            != q[b] by {
            if a < b {
                assert(q[a] < q[b]);
            } else {
                assert(q[b] < q[a]);
            }
        }
    }
    q.unique_seq_to_set();
}

/// A mask is determined by its set of positions.
pub proof fn lemma_bit_set_injective(a: u32, b: u32)
    requires
        bit_set(a) == bit_set(b),
    ensures
        a == b,
{
    if a != b {
        let x = a ^ b;
        assert(x != 0) by (bit_vector)
            requires
                a != b,
                x == a ^ b,
        ;
        vstd::std_specs::bits::axiom_u32_trailing_zeros(x);
        let t = vstd::std_specs::bits::u32_trailing_zeros(x);
        assert(has_bit(a, t) != has_bit(b, t)) by (bit_vector)
            requires
                t < 32,
                x == a ^ b,
                (x >> t) & 1u32 == 1u32,
        ;
        assert(bit_set(a).contains(t) == has_bit(a, t));
        assert(bit_set(b).contains(t) == has_bit(b, t));
    }
}

/// No position of the zero mask is one.
pub proof fn lemma_bit_set_zero()
    ensures
        forall|i: u32| !#[trigger] has_bit(0, i),
        bit_set(0) == Set::<u32>::empty(),
{
    assert forall|i: u32| !has_bit(0, i) by {
        assert(!has_bit(0, i)) by (bit_vector);
    }
    assert(bit_set(0) =~= Set::<u32>::empty());
}

/// A mask is zero exactly when it has no positions.
pub proof fn lemma_bit_set_empty(x: u32)
    ensures
        (x == 0) <==> (bit_set(x) == Set::<u32>::empty()),
{
    lemma_bit_set_zero();
    if bit_set(x) == Set::<u32>::empty() {
        lemma_bit_set_injective(x, 0);
    }
}

/// The mask `1 << k` has the one position `k`.
pub proof fn lemma_bit_set_single(k: u32)
    requires
        k < 32,
    ensures
        bit_set(1u32 << k) == Set::<u32>::empty().insert(k),
{
    assert forall|i: u32| has_bit(1u32 << k, i) == (i == k) by {
        assert(has_bit(1u32 << k, i) == (i == k)) by (bit_vector)
            requires
                k < 32,
        ;
    }
    assert(bit_set(1u32 << k) =~= Set::<u32>::empty().insert(k));
}

/// Or-ing two masks unites their positions.
pub proof fn lemma_bit_set_or(a: u32, b: u32)
    ensures
        bit_set(a | b) == bit_set(a).union(bit_set(b)),
{
    assert forall|i: u32| has_bit(a | b, i) == (has_bit(a, i) || has_bit(b, i)) by {
        assert(has_bit(a | b, i) == (has_bit(a, i) || has_bit(b, i))) by (bit_vector);
    }
    assert(bit_set(a | b) =~= bit_set(a).union(bit_set(b)));
}

/// And-ing two masks intersects their positions.
pub proof fn lemma_bit_set_and(a: u32, b: u32)
    ensures
        bit_set(a & b) == bit_set(a).intersect(bit_set(b)),
{
    assert forall|i: u32| has_bit(a & b, i) == (has_bit(a, i) && has_bit(b, i)) by {
        assert(has_bit(a & b, i) == (has_bit(a, i) && has_bit(b, i))) by (bit_vector);
    }
    assert(bit_set(a & b) =~= bit_set(a).intersect(bit_set(b)));
}

/// Clearing the bits of `b` from `a` takes `b`'s positions out of `a`'s.
pub proof fn lemma_bit_set_and_not(a: u32, b: u32)
    ensures
        bit_set(a & !b) == bit_set(a).difference(bit_set(b)),
{
    assert forall|i: u32| has_bit(a & !b, i) == (has_bit(a, i) && !has_bit(b, i)) by {
        assert(has_bit(a & !b, i) == (has_bit(a, i) && !has_bit(b, i))) by (bit_vector);
    }
    assert(bit_set(a & !b) =~= bit_set(a).difference(bit_set(b)));
}

/// Xor-ing two masks keeps the positions of exactly one of them.
pub proof fn lemma_bit_set_xor(a: u32, b: u32)
    ensures
        bit_set(a ^ b) == bit_set(a).difference(bit_set(b)).union(
            bit_set(b).difference(bit_set(a)),
        ),
{
    assert forall|i: u32| has_bit(a ^ b, i) == (has_bit(a, i) != has_bit(b, i)) by {
        assert(has_bit(a ^ b, i) == (has_bit(a, i) != has_bit(b, i))) by (bit_vector);
    }
    assert(bit_set(a ^ b) =~= bit_set(a).difference(bit_set(b)).union(
        bit_set(b).difference(bit_set(a)),
    ));
}

} // verus!
