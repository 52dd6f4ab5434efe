//! A small binary tree: symmetrical generation and in-place inversion.

use vstd::prelude::*;

verus! {

/// A binary-tree node holding a `u32` value.
#[derive(Debug)]
pub struct Node {
    pub value: u32,
    pub left: Option<Box<Node>>,
    pub right: Option<Box<Node>>,
}

impl Node {
    pub fn new_with_value(value: u32) -> (r: Self)
        ensures
            r.value == value,
            r.left is None,
            r.right is None,
    {
        Node { value, left: None, right: None }
    }
}

impl Default for Node {
    fn default() -> (r: Self)
        ensures
            r.value == 0,
            r.left is None,
            r.right is None,
    {
        Node { value: 0, left: None, right: None }
    }
}

/// The height of a tree, for termination measures.
pub open spec fn tree_height(n: Node) -> nat
    decreases n,
{
    1 + max_nat(subtree_height(n.left), subtree_height(n.right))
}

pub open spec fn subtree_height(n: Option<Box<Node>>) -> nat
    decreases n,
{
    match n {
        None => 0,
        Some(b) => tree_height(*b),
    }
}

pub open spec fn max_nat(a: nat, b: nat) -> nat {
    if a >= b {
        a
    } else {
        b
    }
}

/// `b` is the mirror image of `a`: same values, left and right exchanged at
/// every node.
pub open spec fn is_mirror(a: Node, b: Node) -> bool
    decreases a,
{
    &&& a.value == b.value
    &&& subtree_mirror(a.left, b.right)
    &&& subtree_mirror(a.right, b.left)
}

pub open spec fn subtree_mirror(a: Option<Box<Node>>, b: Option<Box<Node>>) -> bool
    decreases a,
{
    match (a, b) {
        (None, None) => true,
        (Some(x), Some(y)) => is_mirror(*x, *y),
        _ => false,
    }
}

/// `2^n`.
pub open spec fn two_pow(n: nat) -> nat
    decreases n,
{
    if n == 0 {
        1
    } else {
        2 * two_pow((n - 1) as nat)
    }
}

proof fn lemma_two_pow_pos(n: nat)
    ensures
        two_pow(n) >= 1,
    decreases n,
{
    if n > 0 {
        lemma_two_pow_pos((n - 1) as nat);
    }
}

proof fn lemma_two_pow_mono(a: nat, b: nat)
    requires
        a <= b,
    ensures
        two_pow(a) <= two_pow(b),
    decreases b,
{
    if a < b {
        lemma_two_pow_mono(a, (b - 1) as nat);
    }
}

/// A complete binary tree of `levels` levels rooted at a node labelled
/// `label`, the children of label `k` labelled `2k` and `2k + 1`: the
/// labels run 1, 2, 3, ... in level order from the root.
pub open spec fn complete_from(n: Node, label: nat, levels: nat) -> bool
    decreases levels,
{
    if levels <= 1 {
        n.value == label && n.left is None && n.right is None
    } else {
        &&& n.value == label
        &&& n.left is Some && complete_from(*(n.left->0), 2 * label, (levels - 1) as nat)
        &&& n.right is Some && complete_from(*(n.right->0), 2 * label + 1, (levels - 1) as nat)
    }
}

/// Builds the complete subtree rooted at `label` with `levels` levels.
fn build_complete(label: u32, levels: u32) -> (r: Node)
    requires
        1 <= levels,
        1 <= label,
        (label + 1) * two_pow((levels - 1) as nat) <= two_pow(32),
    ensures
        complete_from(r, label as nat, levels as nat),
    decreases levels,
{
    if levels == 1 {
        Node::new_with_value(label)
    } else {
        proof {
            let p1 = two_pow((levels - 1) as nat);
            let p2 = two_pow((levels - 2) as nat);
            lemma_two_pow_pos((levels - 2) as nat);
            assert(p1 == 2 * p2);
            assert((label + 1) * p1 == ((label + 1) * 2) * p2) by (nonlinear_arith)
                requires
                    p1 == 2 * p2,
            ;
            assert(((label + 1) * 2) * p2 >= (label + 1) * 2) by (nonlinear_arith)
                requires
                    p2 >= 1,
                    label >= 1,
            ;
            assert((label + 1) * 2 <= two_pow(32));
            assert(two_pow(32) == 0x1_0000_0000) by {
                reveal_with_fuel(two_pow, 33);
            }
            assert(2 * (label as int) + 1 < 0x1_0000_0000);
            assert((2 * label + 2) * p2 <= two_pow(32));
            assert((2 * label + 1 + 1) * p2 <= two_pow(32));
            assert((2 * label + 1) * p2 <= (2 * label + 2) * p2) by (nonlinear_arith)
                requires
                    p2 >= 0,
                    label >= 1,
            ;
            assert((2 * label + 1) * p2 <= two_pow(32));
        }
        let left = build_complete(2 * label, levels - 1);
        let right = build_complete(2 * label + 1, levels - 1);
        Node { value: label, left: Some(Box::new(left)), right: Some(Box::new(right)) }
    }
}

/// Generates a symmetrical (complete) binary tree with `num_levels` levels,
/// labelled in level order starting from 1 at the root. Zero levels gives a
/// single default node.
pub fn generate_symmetrical_iteratively(num_levels: u32) -> (r: Node)
    requires
        num_levels <= 32,
    ensures
        num_levels == 0 ==> r.value == 0 && r.left is None && r.right is None,
        num_levels >= 1 ==> complete_from(r, 1, num_levels as nat),
{
    if num_levels == 0 {
        return Node::default();
    }
    proof {
        assert(2 * two_pow((num_levels - 1) as nat) == two_pow(num_levels as nat));
        lemma_two_pow_mono(num_levels as nat, 32);
    }
    build_complete(1, num_levels)
}

/// Inverts a tree in place: left and right are exchanged at every node.
pub fn invert_in_place_iteratively(root: &mut Node)
    ensures
        is_mirror(*old(root), *final(root)),
    decreases tree_height(*old(root)),
{
    let ghost before = *root;
    core::mem::swap(&mut root.left, &mut root.right);
    match &mut root.left {
        Some(l) => {
            proof {
                assert(tree_height(**l) < tree_height(before));
            }
            invert_in_place_iteratively(&mut **l);
        },
        None => {},
    }
    match &mut root.right {
        Some(r) => {
            proof {
                assert(tree_height(**r) < tree_height(before));
            }
            invert_in_place_iteratively(&mut **r);
        },
        None => {},
    }
}

} // verus!
