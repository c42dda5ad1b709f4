//! Affinities: for every ordered pair `(a, b)` of elements that switched,
//! the joint frequency of the pair over the single frequency of `a`,
//! listed from the highest affinity down.
use vstd::prelude::*;
use std::collections::HashMap;
use crate::pair::{Pair, code_first, code_second, is_pair_code, pair_of_code};
use crate::keys::keys_of;
use vstd::multiset::Multiset;

verus! {

/// An ordered pair with the two counts whose quotient is its affinity:
/// `joint / single`.
#[derive(Debug, Clone, Copy)]
pub struct Node {
    pub pair: Pair,
    pub joint: usize,
    pub single: usize,
}

/// `a` has a strictly higher affinity than `b` (`0 / 0` aside, a zero
/// single frequency stands for an infinite affinity).
pub open spec fn higher(a: Node, b: Node) -> bool {
    a.joint * b.single > b.joint * a.single
}

/// `a` and `b` have the same affinity.
pub open spec fn same_affinity(a: Node, b: Node) -> bool {
    a.joint * b.single == b.joint * a.single
}

/// The affinity of a node is a number (not `0 / 0`).
pub open spec fn defined(a: Node) -> bool {
    a.joint > 0 || a.single > 0
}

/// Ties in affinity are listed by pair, then by counts.
pub open spec fn tie_before(a: Node, b: Node) -> bool {
    ||| a.pair.0 < b.pair.0
    ||| a.pair.0 == b.pair.0 && a.pair.1 < b.pair.1
    ||| a.pair.0 == b.pair.0 && a.pair.1 == b.pair.1 && a.joint < b.joint
    ||| a.pair.0 == b.pair.0 && a.pair.1 == b.pair.1 && a.joint == b.joint && a.single <= b.single
}

/// `a` is listed no later than `b`: a higher affinity first, ties by
/// `tie_before`; nodes whose affinity is `0 / 0` come after all others,
/// among themselves by `tie_before`.
pub open spec fn listed_before(a: Node, b: Node) -> bool {
    if defined(a) && defined(b) {
        higher(a, b) || (same_affinity(a, b) && tie_before(a, b))
    } else if defined(a) {
        true
    } else if defined(b) {
        false
    } else {
        tie_before(a, b)
    }
}

/// Nodes listed in order.
pub open spec fn listed(s: Seq<Node>) -> bool {
    forall|i: int, j: int| 0 <= i < j < s.len() ==> listed_before(#[trigger] s[i], #[trigger] s[j])
}

/// `a * b`, exactly.
pub fn cross(a: usize, b: usize) -> (r: u128)
    ensures
        r == a * b,
{
    assert(a * b <= u64::MAX * u64::MAX) by (nonlinear_arith)
        requires
            a <= u64::MAX,
            b <= u64::MAX,
    ;
    (a as u128) * (b as u128)
}

/// Decides `listed_before`.
fn goes_first(a: &Node, b: &Node) -> (r: bool)
    ensures
        r == listed_before(*a, *b),
{
    let x = cross(a.joint, b.single);
    let y = cross(b.joint, a.single);
    let da = a.joint > 0 || a.single > 0;
    let db = b.joint > 0 || b.single > 0;
    if da && !db {
        true
    } else if !da && db {
        false
    } else if da && x != y {
        x > y
    } else if a.pair.0 != b.pair.0 {
        a.pair.0 < b.pair.0
    } else if a.pair.1 != b.pair.1 {
        a.pair.1 < b.pair.1
    } else if a.joint != b.joint {
        a.joint < b.joint
    } else {
        a.single <= b.single
    }
}

proof fn lemma_listed_total(a: Node, b: Node)
    ensures
        listed_before(a, b) || listed_before(b, a),
{
}

proof fn lemma_listed_transitive(a: Node, b: Node, c: Node)
    requires
        listed_before(a, b),
        listed_before(b, c),
    ensures
        listed_before(a, c),
{
    if defined(a) && defined(b) && defined(c) {
        lemma_listed_transitive_defined(a, b, c);
    }
}

proof fn lemma_listed_transitive_defined(a: Node, b: Node, c: Node)
    requires
        defined(a),
        defined(b),
        defined(c),
        listed_before(a, b),
        listed_before(b, c),
    ensures
        listed_before(a, c),
{
    let (ja, sa, jb, sb, jc, sc) = (a.joint as int, a.single as int, b.joint as int, b.single as int, c.joint as int, c.single as int);
    assert(ja * sb >= jb * sa);
    assert(jb * sc >= jc * sb);
    if sb > 0 {
        assert(ja * sc >= jc * sa) by (nonlinear_arith)
            requires
                ja * sb >= jb * sa,
                jb * sc >= jc * sb,
                sb > 0,
                sa >= 0,
                sc >= 0,
                ja >= 0,
                jc >= 0,
        ;
        if sc == 0 {
            assert(jc > 0);
            assert(jc * sb > 0) by (nonlinear_arith)
                requires
                    jc > 0,
                    sb > 0,
            ;
            assert(false) by (nonlinear_arith)
                requires
                    jb * sc >= jc * sb,
                    sc == 0,
                    jc * sb > 0,
            ;
        }
        if ja * sb > jb * sa {
            assert(ja * sc > jc * sa) by (nonlinear_arith)
                requires
                    ja * sb > jb * sa,
                    jb * sc >= jc * sb,
                    sb > 0,
                    sa >= 0,
                    sc > 0,
                    ja >= 0,
                    jc >= 0,
            ;
        }
        if jb * sc > jc * sb {
            if sa == 0 {
                assert(ja > 0);
                assert(ja * sc > jc * sa) by (nonlinear_arith)
                    requires
                        sa == 0,
                        ja > 0,
                        sc > 0,
                ;
            } else {
                assert(ja * sc > jc * sa) by (nonlinear_arith)
                    requires
                        ja * sb >= jb * sa,
                        jb * sc > jc * sb,
                        sb > 0,
                        sa > 0,
                        sc > 0,
                        ja >= 0,
                        jc >= 0,
                ;
            }
        }
    } else {
        assert(jb > 0);
        assert(sa == 0) by (nonlinear_arith)
            requires
                ja * sb >= jb * sa,
                sb == 0,
                jb > 0,
                sa >= 0,
        ;
        assert(ja > 0);
        assert(ja * sc >= jc * sa) by (nonlinear_arith)
            requires
                sa == 0,
                ja >= 0,
                sc >= 0,
        ;
        if jb * sc > jc * sb {
            assert(sc > 0) by (nonlinear_arith)
                requires
                    jb * sc > jc * sb,
                    sb == 0,
                    sc >= 0,
            ;
            assert(ja * sc > jc * sa) by (nonlinear_arith)
                requires
                    sa == 0,
                    ja > 0,
                    sc > 0,
            ;
        }
        if ja * sb > jb * sa {
            assert(false) by (nonlinear_arith)
                requires
                    ja * sb > jb * sa,
                    sb == 0,
                    sa == 0,
            ;
        }
    }
}

/// Merges two listed runs into one.
fn merge(left: Vec<Node>, right: Vec<Node>) -> (r: Vec<Node>)
    requires
        listed(left@),
        listed(right@),
    ensures
        listed(r@),
        r@.to_multiset() == left@.to_multiset().add(right@.to_multiset()),
{
    broadcast use vstd::seq_lib::group_to_multiset_ensures;
    let mut r: Vec<Node> = Vec::new();
    let mut i: usize = 0;
    let mut j: usize = 0;
    proof {
        assert(left@.take(0) =~= Seq::<Node>::empty());
        assert(right@.take(0) =~= Seq::<Node>::empty());
        assert(r@.to_multiset() =~= Multiset::empty());
    }
    while i < left.len() || j < right.len()
        invariant
            i <= left.len(),
            j <= right.len(),
            listed(left@),
            listed(right@),
            listed(r@),
            r@.to_multiset() == left@.take(i as int).to_multiset().add(right@.take(j as int).to_multiset()),
            r@.len() > 0 && i < left.len() ==> listed_before(r@.last(), left@[i as int]),
            r@.len() > 0 && j < right.len() ==> listed_before(r@.last(), right@[j as int]),
        decreases left.len() + right.len() - i - j,
    {
        let take_left = if i < left.len() && j < right.len() {
            goes_first(&left[i], &right[j])
        } else {
            i < left.len()
        };
        let ghost old_r = r@;
        if take_left {
            let x = left[i];
            r.push(x);
            proof {
                assert(left@.take(i + 1) =~= left@.take(i as int).push(x));
                broadcast use vstd::multiset::group_multiset_axioms;
                vstd::seq_lib::to_multiset_build(old_r, x);
                vstd::seq_lib::to_multiset_build(left@.take(i as int), x);
                assert(r@ == old_r.push(x));
                assert(r@.to_multiset() =~= left@.take(i + 1).to_multiset().add(right@.take(j as int).to_multiset()));
                if i + 1 < left.len() {
                    assert(listed_before(left@[i as int], left@[i + 1]));
                }
                if j < right.len() {
                    lemma_listed_total(left@[i as int], right@[j as int]);
                }
                assert forall|a: int, b: int| 0 <= a < b < r@.len() implies listed_before(#[trigger] r@[a], #[trigger] r@[b]) by {
                    if b == r@.len() - 1 && a < b {
                        if a < old_r.len() - 1 {
                            lemma_listed_transitive(r@[a], old_r.last(), x);
                        }
                    } else {
                        assert(r@[a] == old_r[a] && r@[b] == old_r[b]);
                    }
                }
            }
            i = i + 1;
        } else {
            let x = right[j];
            r.push(x);
            proof {
                assert(right@.take(j + 1) =~= right@.take(j as int).push(x));
                broadcast use vstd::multiset::group_multiset_axioms;
                vstd::seq_lib::to_multiset_build(old_r, x);
                vstd::seq_lib::to_multiset_build(right@.take(j as int), x);
                assert(r@ == old_r.push(x));
                assert(r@.to_multiset() =~= left@.take(i as int).to_multiset().add(right@.take(j + 1).to_multiset()));
                if j + 1 < right.len() {
                    assert(listed_before(right@[j as int], right@[j + 1]));
                }
                if i < left.len() {
                    lemma_listed_total(left@[i as int], right@[j as int]);
                }
                assert forall|a: int, b: int| 0 <= a < b < r@.len() implies listed_before(#[trigger] r@[a], #[trigger] r@[b]) by {
                    if b == r@.len() - 1 && a < b {
                        if a < old_r.len() - 1 {
                            lemma_listed_transitive(r@[a], old_r.last(), x);
                        }
                    } else {
                        assert(r@[a] == old_r[a] && r@[b] == old_r[b]);
                    }
                }
            }
            j = j + 1;
        }
    }
    proof {
        assert(left@.take(i as int) =~= left@);
        assert(right@.take(j as int) =~= right@);
    }
    r
}

/// Lists nodes from the highest affinity down (a merge sort).
fn sort_nodes(v: Vec<Node>) -> (r: Vec<Node>)
    requires
    ensures
        listed(r@),
        r@.to_multiset() == v@.to_multiset(),
    decreases v@.len(),
{
    broadcast use vstd::seq_lib::group_to_multiset_ensures;
    if v.len() <= 1 {
        return v;
    }
    let mut left = v;
    let ghost whole = left@;
    let mid = left.len() / 2;
    let right = left.split_off(mid);
    proof {
        assert(whole =~= left@ + right@);
        vstd::seq_lib::lemma_multiset_commutative(left@, right@);
    }
    let left = sort_nodes(left);
    let right = sort_nodes(right);
    merge(left, right)
}

/// The node of the pair keyed `k` that leads with the key's first element.
pub open spec fn forward_node(k: u128, single: Map<usize, usize>, joint: Map<u128, usize>) -> Node {
    Node {
        pair: Pair(code_first(k) as usize, code_second(k) as usize),
        joint: joint[k],
        single: single[code_first(k) as usize],
    }
}

/// The node of the pair keyed `k` that leads with the key's second element.
pub open spec fn backward_node(k: u128, single: Map<usize, usize>, joint: Map<u128, usize>) -> Node {
    Node {
        pair: Pair(code_second(k) as usize, code_first(k) as usize),
        joint: joint[k],
        single: single[code_second(k) as usize],
    }
}

/// Both nodes of each key of `ks`, in order.
pub open spec fn nodes_of(ks: Seq<u128>, single: Map<usize, usize>, joint: Map<u128, usize>) -> Seq<Node>
    decreases ks.len(),
{
    if ks.len() == 0 {
        Seq::empty()
    } else {
        nodes_of(ks.drop_last(), single, joint).push(forward_node(ks.last(), single, joint)).push(
            backward_node(ks.last(), single, joint),
        )
    }
}

/// Every pair can be given its two affinities: both its elements have a
/// single frequency.
pub open spec fn pairs_have_singles(single: Map<usize, usize>, joint: Map<u128, usize>) -> bool {
    forall|k: u128| #[trigger] joint.contains_key(k) ==> {
        &&& is_pair_code(k)
        &&& single.contains_key(code_first(k) as usize)
        &&& single.contains_key(code_second(k) as usize)
    }
}

/// `s` lists both nodes of every pair of `joint` once, highest affinity
/// first.
pub open spec fn affinity_list(s: Seq<Node>, single: Map<usize, usize>, joint: Map<u128, usize>) -> bool {
    &&& listed(s)
    &&& exists|ks: Seq<u128>|
        {
            &&& ks.no_duplicates()
            &&& forall|k: u128| joint.contains_key(k) <==> #[trigger] ks.contains(k)
            &&& s.to_multiset() == nodes_of(ks, single, joint).to_multiset()
        }
}

/// The nodes of `ks` are exactly the two nodes of each of its keys.
pub proof fn lemma_nodes_of_members(ks: Seq<u128>, single: Map<usize, usize>, joint: Map<u128, usize>)
    ensures
        forall|i: int|
            0 <= i < ks.len() ==> nodes_of(ks, single, joint).contains(forward_node(#[trigger] ks[i], single, joint))
                && nodes_of(ks, single, joint).contains(backward_node(ks[i], single, joint)),
        forall|n: Node|
            #[trigger] nodes_of(ks, single, joint).contains(n) ==> exists|i: int|
                0 <= i < ks.len() && (n == forward_node(#[trigger] ks[i], single, joint) || n == backward_node(
                    ks[i],
                    single,
                    joint,
                )),
    decreases ks.len(),
{
    if ks.len() > 0 {
        let p = ks.drop_last();
        lemma_nodes_of_members(p, single, joint);
        let np = nodes_of(p, single, joint);
        let f = forward_node(ks.last(), single, joint);
        let b = backward_node(ks.last(), single, joint);
        let nk = nodes_of(ks, single, joint);
        assert(nk == np.push(f).push(b));
        assert(nk[np.len() as int] == f);
        assert(nk[np.len() as int + 1] == b);
        assert forall|i: int| 0 <= i < ks.len() implies nk.contains(forward_node(#[trigger] ks[i], single, joint))
            && nk.contains(backward_node(ks[i], single, joint)) by {
            if i < p.len() {
                assert(p[i] == ks[i]);
                let x = choose|x: int| 0 <= x < np.len() && np[x] == forward_node(p[i], single, joint);
                assert(nk[x] == np[x]);
                let y = choose|y: int| 0 <= y < np.len() && np[y] == backward_node(p[i], single, joint);
                assert(nk[y] == np[y]);
            }
        }
        assert forall|n: Node| #[trigger] nk.contains(n) implies exists|i: int|
            0 <= i < ks.len() && (n == forward_node(#[trigger] ks[i], single, joint) || n == backward_node(
                ks[i],
                single,
                joint,
            )) by {
            let x = choose|x: int| 0 <= x < nk.len() && nk[x] == n;
            if x < np.len() {
                assert(np[x] == n);
                assert(np.contains(n));
                let i = choose|i: int|
                    0 <= i < p.len() && (n == forward_node(#[trigger] p[i], single, joint) || n == backward_node(
                        p[i],
                        single,
                        joint,
                    ));
                assert(p[i] == ks[i]);
            } else {
                assert(ks[ks.len() - 1] == ks.last());
            }
        }
    }
}

/// The affinities of all pairs, highest first, those that are `0 / 0`
/// last; `None` when some pair has an element without single frequency.
pub fn get_affinities(single_frequencies: HashMap<usize, usize>, joint_frequencies: HashMap<u128, usize>) -> (r:
    Option<Vec<Node>>)
    ensures
        r is Some <==> pairs_have_singles(single_frequencies@, joint_frequencies@),
        r matches Some(v) ==> affinity_list(v@, single_frequencies@, joint_frequencies@),
{
    let ghost sm = single_frequencies@;
    let ghost jm = joint_frequencies@;
    let keys = keys_of(&joint_frequencies);
    let mut nodes: Vec<Node> = Vec::new();
    let mut i: usize = 0;
    while i < keys.len()
        invariant
            i <= keys.len(),
            sm == single_frequencies@,
            jm == joint_frequencies@,
            keys@.no_duplicates(),
            forall|k: u128| jm.contains_key(k) <==> #[trigger] keys@.contains(k),
            nodes@ == nodes_of(keys@.take(i as int), sm, jm),
            forall|x: int| 0 <= x < i ==> {
                let k = #[trigger] keys@[x];
                &&& is_pair_code(k)
                &&& sm.contains_key(code_first(k) as usize)
                &&& sm.contains_key(code_second(k) as usize)
            },
        decreases keys.len() - i,
    {
        let k = keys[i];
        proof {
            assert(keys@.contains(k));
            assert(keys@.take(i + 1).drop_last() =~= keys@.take(i as int));
        }
        if k / 0x1_0000_0000_0000_0000u128 > usize::MAX as u128 || k % 0x1_0000_0000_0000_0000u128 > usize::MAX as u128 {
            return None;
        }
        let (a, b) = pair_of_code(k);
        let j = *joint_frequencies.get(&k).unwrap();
        let sa = match single_frequencies.get(&a) {
            Some(x) => *x,
            None => {
                return None;
            },
        };
        let sb = match single_frequencies.get(&b) {
            Some(x) => *x,
            None => {
                return None;
            },
        };
        nodes.push(Node { pair: Pair(a, b), joint: j, single: sa });
        nodes.push(Node { pair: Pair(b, a), joint: j, single: sb });
        proof {
            assert(nodes@ =~= nodes_of(keys@.take(i + 1), sm, jm));
        }
        i = i + 1;
    }
    proof {
        assert(keys@.take(keys.len() as int) =~= keys@);
        assert forall|k: u128| #[trigger] jm.contains_key(k) implies {
            &&& is_pair_code(k)
            &&& sm.contains_key(code_first(k) as usize)
            &&& sm.contains_key(code_second(k) as usize)
        } by {
            assert(keys@.contains(k));
            let x = choose|x: int| 0 <= x < keys@.len() && keys@[x] == k;
            assert(keys@[x] == k);
        }
    }
    let sorted = sort_nodes(nodes);
    Some(sorted)
}

} // verus!
