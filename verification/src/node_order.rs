//! Comparison of nodes and of word nodes by affinity, the way
//! floating-point quotients compare: a `0 / 0` affinity is unordered and
//! equal to nothing.
use vstd::prelude::*;
use std::cmp::Ordering;
use vstd::std_specs::cmp::PartialEqSpecImpl;
use vstd::std_specs::cmp::PartialOrdSpecImpl;
use crate::affinity::{Node, cross, defined, higher, same_affinity, listed};
use crate::words::WordNode;

verus! {

/// What comparing the affinities of `a` and `b` gives.
pub open spec fn affinity_order(a: Node, b: Node) -> Option<Ordering> {
    if !defined(a) || !defined(b) {
        None
    } else if higher(a, b) {
        Some(Ordering::Greater)
    } else if same_affinity(a, b) {
        Some(Ordering::Equal)
    } else {
        Some(Ordering::Less)
    }
}

impl PartialEq for Node {
    fn eq(&self, other: &Node) -> (r: bool) {
        let x = cross(self.joint, other.single);
        let y = cross(other.joint, self.single);
        (self.joint > 0 || self.single > 0) && (other.joint > 0 || other.single > 0) && x == y
    }
}

impl PartialEqSpecImpl for Node {
    open spec fn obeys_eq_spec() -> bool {
        true
    }

    open spec fn eq_spec(&self, other: &Node) -> bool {
        defined(*self) && defined(*other) && same_affinity(*self, *other)
    }
}

impl PartialOrd for Node {
    fn partial_cmp(&self, other: &Node) -> (r: Option<Ordering>) {
        let x = cross(self.joint, other.single);
        let y = cross(other.joint, self.single);
        if !(self.joint > 0 || self.single > 0) || !(other.joint > 0 || other.single > 0) {
            None
        } else if x > y {
            Some(Ordering::Greater)
        } else if x == y {
            Some(Ordering::Equal)
        } else {
            Some(Ordering::Less)
        }
    }
}

impl PartialOrdSpecImpl for Node {
    open spec fn obeys_partial_cmp_spec() -> bool {
        true
    }

    open spec fn partial_cmp_spec(&self, other: &Node) -> Option<Ordering> {
        affinity_order(*self, *other)
    }
}

impl PartialEq for WordNode {
    fn eq(&self, other: &WordNode) -> (r: bool) {
        self.node == other.node
    }
}

impl PartialEqSpecImpl for WordNode {
    open spec fn obeys_eq_spec() -> bool {
        true
    }

    open spec fn eq_spec(&self, other: &WordNode) -> bool {
        defined(self.node) && defined(other.node) && same_affinity(self.node, other.node)
    }
}

impl PartialOrd for WordNode {
    fn partial_cmp(&self, other: &WordNode) -> (r: Option<Ordering>) {
        self.node.partial_cmp(&other.node)
    }
}

impl PartialOrdSpecImpl for WordNode {
    open spec fn obeys_partial_cmp_spec() -> bool {
        true
    }

    open spec fn partial_cmp_spec(&self, other: &WordNode) -> Option<Ordering> {
        affinity_order(self.node, other.node)
    }
}

/// Comparing nodes is consistent: two nodes compare equal exactly when
/// they are `==`, and swapping them turns greater into less.
pub proof fn law_node_order_consistent(a: Node, b: Node)
    ensures
        (affinity_order(a, b) == Some(Ordering::Equal)) == (defined(a) && defined(b) && same_affinity(a, b)),
        (affinity_order(a, b) == Some(Ordering::Greater)) == (affinity_order(b, a) == Some(Ordering::Less)),
        (affinity_order(a, b) is None) == (affinity_order(b, a) is None),
{
}

/// A listed sequence of nodes is in descending order: no node compares
/// below a node listed after it, and nodes whose affinity is `0 / 0` come
/// after all others.
pub proof fn law_listed_descending(s: Seq<Node>)
    requires
        listed(s),
    ensures
        forall|i: int, j: int|
            0 <= i < j < s.len() ==> affinity_order(#[trigger] s[i], #[trigger] s[j]) != Some(Ordering::Less),
        forall|i: int, j: int| 0 <= i < j < s.len() && defined(#[trigger] s[j]) ==> defined(#[trigger] s[i]),
{
}

} // verus!
