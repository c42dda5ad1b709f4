//! Unordered pairs of trace elements.
//!
//! Two pairs are equal when they hold the same two elements, in either
//! order.  Maps keyed by pairs store the orientation in which a pair was
//! first met, packed into a `u128` (`pair_code`).
use vstd::prelude::*;

verus! {

/// `2^64`: the packing radix of `pair_code`.
pub open spec fn radix() -> int {
    0x1_0000_0000_0000_0000
}

/// The map key of the oriented pair `(a, b)`.
pub open spec fn pair_code(a: usize, b: usize) -> u128 {
    (a as int * radix() + b as int) as u128
}

/// First element of the oriented pair packed in `k`.
pub open spec fn code_first(k: u128) -> int {
    k as int / radix()
}

/// Second element of the oriented pair packed in `k`.
pub open spec fn code_second(k: u128) -> int {
    k as int % radix()
}

/// `k` packs a pair of two `usize` values.
pub open spec fn is_pair_code(k: u128) -> bool {
    code_first(k) <= usize::MAX && code_second(k) <= usize::MAX
}

pub proof fn lemma_pair_code(a: usize, b: usize)
    ensures
        a as int * radix() + b as int <= u128::MAX,
        code_first(pair_code(a, b)) == a,
        code_second(pair_code(a, b)) == b,
        is_pair_code(pair_code(a, b)),
{
    assert(usize::MAX <= u64::MAX);
    assert(a as int * radix() <= u64::MAX as int * radix()) by (nonlinear_arith)
        requires
            a <= u64::MAX,
            radix() > 0,
    ;
    let x = a as int * radix() + b as int;
    vstd::arithmetic::div_mod::lemma_fundamental_div_mod_converse(x, radix(), a as int, b as int);
}

/// Packing is injective.
pub proof fn lemma_pair_code_injective(a: usize, b: usize, c: usize, d: usize)
    ensures
        pair_code(a, b) == pair_code(c, d) <==> (a == c && b == d),
{
    lemma_pair_code(a, b);
    lemma_pair_code(c, d);
}

pub proof fn lemma_code_roundtrip(k: u128)
    requires
        is_pair_code(k),
    ensures
        pair_code(code_first(k) as usize, code_second(k) as usize) == k,
{
    vstd::arithmetic::div_mod::lemma_fundamental_div_mod(k as int, radix());
}

/// Packs `(a, b)`.
pub fn pair_code_of(a: usize, b: usize) -> (k: u128)
    ensures
        k == pair_code(a, b),
{
    proof {
        lemma_pair_code(a, b);
    }
    (a as u128) * 0x1_0000_0000_0000_0000u128 + (b as u128)
}

/// Unpacks a key made by `pair_code_of`.
pub fn pair_of_code(k: u128) -> (p: (usize, usize))
    requires
        is_pair_code(k),
    ensures
        p.0 == code_first(k),
        p.1 == code_second(k),
        pair_code(p.0, p.1) == k,
{
    proof {
        lemma_code_roundtrip(k);
    }
    ((k / 0x1_0000_0000_0000_0000u128) as usize, (k % 0x1_0000_0000_0000_0000u128) as usize)
}

/// An unordered pair of trace elements.
#[derive(Debug, Clone, Copy)]
pub struct Pair(pub usize, pub usize);

/// Two pairs hold the same two elements, in either order.
pub open spec fn same_pair(p: Pair, q: Pair) -> bool {
    (p.0 == q.0 && p.1 == q.1) || (p.0 == q.1 && p.1 == q.0)
}

/// The elements of a pair, larger first: the order in which a pair is hashed.
pub open spec fn ordered(p: Pair) -> (usize, usize) {
    if p.0 > p.1 {
        (p.0, p.1)
    } else {
        (p.1, p.0)
    }
}

impl Pair {
    /// The values a pair feeds to a hasher, in order: its larger element,
    /// then its smaller one, so that equal pairs hash alike.
    pub fn hash_key(&self) -> (r: (usize, usize))
        ensures
            r == ordered(*self),
    {
        let a = self.0;
        let b = self.1;
        if a > b {
            (a, b)
        } else {
            (b, a)
        }
    }

    /// The key of this pair, in this orientation, in a pair map.
    pub fn code(&self) -> (k: u128)
        ensures
            k == pair_code(self.0, self.1),
    {
        pair_code_of(self.0, self.1)
    }
}

impl PartialEq for Pair {
    fn eq(&self, other: &Pair) -> (r: bool) {
        let a = self.0;
        let b = self.1;
        let c = other.0;
        let d = other.1;
        if a > b {
            if c > d {
                a == c && b == d
            } else {
                a == d && b == c
            }
        } else {
            if c > d {
                b == c && a == d
            } else {
                b == d && a == c
            }
        }
    }
}

impl vstd::std_specs::cmp::PartialEqSpecImpl for Pair {
    open spec fn obeys_eq_spec() -> bool {
        true
    }

    open spec fn eq_spec(&self, other: &Pair) -> bool {
        same_pair(*self, *other)
    }
}

impl Eq for Pair {
}

/// Pair equality is an equivalence: reflexive, symmetric and transitive,
/// and a pair equals its own reverse.
pub proof fn law_pair_eq_equivalence(p: Pair, q: Pair, r: Pair)
    ensures
        same_pair(p, p),
        same_pair(p, Pair(p.1, p.0)),
        same_pair(p, q) ==> same_pair(q, p),
        same_pair(p, q) && same_pair(q, r) ==> same_pair(p, r),
{
}

/// Equal pairs hash alike, and pairs that hash alike are equal.
pub proof fn law_pair_hash_consistent(p: Pair, q: Pair)
    ensures
        same_pair(p, q) <==> ordered(p) == ordered(q),
{
}

} // verus!
