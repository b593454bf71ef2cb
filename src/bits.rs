//! Bit vectors from the `bit-vec` crate, seen through the sequence of bits they hold.
use bit_vec::BitVec;
use vstd::prelude::*;

verus! {

#[verifier::external_type_specification]
#[verifier::external_body]
#[verifier::reject_recursive_types(B)]
pub struct ExBitVec<B>(BitVec<B>);

/// The bits held by a bit vector, from index zero upward.
pub uninterp spec fn bits_of(b: BitVec) -> Seq<bool>;

/// Relies on `BitVec::from_elem`: `nbits` bits, each equal to `bit`.
#[verifier::external_body]
pub(crate) fn bv_from_elem(nbits: usize, bit: bool) -> (r: BitVec)
    ensures
        bits_of(r) == Seq::new(nbits as nat, |i: int| bit),
{
    BitVec::from_elem(nbits, bit)
}

/// Relies on `BitVec::len`: the number of bits.
#[verifier::external_body]
pub(crate) fn bv_len(b: &BitVec) -> (r: usize)
    ensures
        r == bits_of(*b).len(),
{
    b.len()
}

/// Relies on `BitVec::get`: the bit at `i`, or `None` past the end.
#[verifier::external_body]
pub(crate) fn bv_get(b: &BitVec, i: usize) -> (r: Option<bool>)
    ensures
        i < bits_of(*b).len() ==> r == Some(bits_of(*b)[i as int]),
        i >= bits_of(*b).len() ==> r.is_none(),
{
    b.get(i)
}

/// Relies on `BitVec::set`: overwrites the bit at `i`; it panics past the end.
#[verifier::external_body]
pub(crate) fn bv_set(b: &mut BitVec, i: usize, x: bool)
    requires
        i < bits_of(*old(b)).len(),
    ensures
        bits_of(*final(b)) == bits_of(*old(b)).update(i as int, x),
{
    b.set(i, x)
}

/// Relies on `BitVec::negate`: flips every bit.
#[verifier::external_body]
pub(crate) fn bv_negate(b: &mut BitVec)
    ensures
        bits_of(*final(b)) == Seq::new(bits_of(*old(b)).len(), |i: int| !bits_of(*old(b))[i]),
{
    b.negate()
}

/// Relies on `BitVec::and`: bitwise and with a vector of the same length (it panics
/// otherwise); the returned flag says whether anything changed and is not used.
#[verifier::external_body]
pub(crate) fn bv_and(b: &mut BitVec, other: &BitVec)
    requires
        bits_of(*old(b)).len() == bits_of(*other).len(),
    ensures
        bits_of(*final(b)) == Seq::new(
            bits_of(*old(b)).len(),
            |i: int| bits_of(*old(b))[i] && bits_of(*other)[i],
        ),
{
    b.and(other);
}

/// Relies on `BitVec::or`: bitwise or with a vector of the same length (it panics
/// otherwise); the returned flag says whether anything changed and is not used.
#[verifier::external_body]
pub(crate) fn bv_or(b: &mut BitVec, other: &BitVec)
    requires
        bits_of(*old(b)).len() == bits_of(*other).len(),
    ensures
        bits_of(*final(b)) == Seq::new(
            bits_of(*old(b)).len(),
            |i: int| bits_of(*old(b))[i] || bits_of(*other)[i],
        ),
{
    b.or(other);
}

/// Relies on `BitVec::none`: whether no bit is set.
#[verifier::external_body]
pub(crate) fn bv_none(b: &BitVec) -> (r: bool)
    ensures
        r == (forall|i: int| 0 <= i < bits_of(*b).len() ==> !bits_of(*b)[i]),
{
    b.none()
}

/// Relies on `BitVec::all`: whether every bit is set.
#[verifier::external_body]
pub(crate) fn bv_all(b: &BitVec) -> (r: bool)
    ensures
        r == (forall|i: int| 0 <= i < bits_of(*b).len() ==> bits_of(*b)[i]),
{
    b.all()
}

/// Relies on `BitVec`'s `Clone`: a copy with the same bits.
#[verifier::external_body]
pub(crate) fn bv_clone(b: &BitVec) -> (r: BitVec)
    ensures
        bits_of(r) == bits_of(*b),
{
    b.clone()
}

/// The number of set bits among the first `n` of `s`.
pub open spec fn count_set(s: Seq<bool>, n: nat) -> nat
    decreases n,
{
    if n == 0 {
        0
    } else {
        count_set(s, (n - 1) as nat) + if s[n - 1] { 1nat } else { 0nat }
    }
}

pub proof fn lemma_count_set_bound(s: Seq<bool>, n: nat)
    ensures
        count_set(s, n) <= n,
    decreases n,
{
    if n > 0 {
        lemma_count_set_bound(s, (n - 1) as nat);
    }
}

pub proof fn lemma_count_set_some_set(s: Seq<bool>, n: nat, i: int)
    requires
        0 <= i < n,
        s[i],
    ensures
        count_set(s, n) > 0,
    decreases n,
{
    if i < n - 1 {
        lemma_count_set_some_set(s, (n - 1) as nat, i);
    }
}

pub proof fn lemma_count_set_some_clear(s: Seq<bool>, n: nat, i: int)
    requires
        0 <= i < n,
        !s[i],
    ensures
        count_set(s, n) < n,
    decreases n,
{
    if i < n - 1 {
        lemma_count_set_some_clear(s, (n - 1) as nat, i);
    } else {
        lemma_count_set_bound(s, (n - 1) as nat);
    }
}

/// The number of set bits.
pub fn popcount(b: &BitVec) -> (r: usize)
    ensures
        r == count_set(bits_of(*b), bits_of(*b).len()),
{
    let n = bv_len(b);
    let mut count: usize = 0;
    let mut i: usize = 0;
    while i < n
        invariant
            n == bits_of(*b).len(),
            i <= n,
            count == count_set(bits_of(*b), i as nat),
        decreases n - i,
    {
        proof {
            lemma_count_set_bound(bits_of(*b), i as nat);
        }
        if let Some(true) = bv_get(b, i) {
            count = count + 1;
        }
        i = i + 1;
    }
    count
}

} // verus!
