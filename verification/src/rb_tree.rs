//! The start of a red-black tree: its nodes and their rotations.
use core::cmp::Ordering;
use vstd::prelude::*;

verus! {

/// A red-black tree.
pub struct RBTree<T> {
    root: Option<Box<RBNode<T>>>,
}

/// A node of a red-black tree, with its color.
pub struct RBNode<T> {
    value: T,
    left: Option<Box<RBNode<T>>>,
    right: Option<Box<RBNode<T>>>,
    red: bool,
}

/// The values of the subtree `n`, in order.
pub closed spec fn values<T>(n: Option<Box<RBNode<T>>>) -> Seq<T>
    decreases n,
{
    match n {
        None => seq![],
        Some(b) => values(b.left) + seq![b.value] + values(b.right),
    }
}

impl<T> RBNode<T> {
    /// The node's value.
    pub closed spec fn value_of(&self) -> T {
        self.value
    }

    /// Whether the node is red.
    pub closed spec fn is_red(&self) -> bool {
        self.red
    }

    /// The values of the subtree rooted at this node, in order.
    pub closed spec fn subtree_values(&self) -> Seq<T> {
        values(self.left) + seq![self.value] + values(self.right)
    }

    /// Whether the node has a right child.
    pub closed spec fn has_right(&self) -> bool {
        self.right is Some
    }

    /// Whether the node has a left child.
    pub closed spec fn has_left(&self) -> bool {
        self.left is Some
    }

    /// A black node without children.
    pub fn new(value: T) -> (n: Self)
        ensures
            n.value_of() == value,
            !n.is_red(),
            n.subtree_values() == seq![value],
            !n.has_left(),
            !n.has_right(),
    {
        let n = RBNode { value, left: None, right: None, red: false };
        assert(n.subtree_values() =~= seq![value]);
        n
    }

    /// Rotates the subtree left: the right child becomes its root, with the node's color,
    /// and the node, now red, its left child. The order of the values is kept.
    pub fn rotate_left(node: Box<RBNode<T>>) -> (r: Box<RBNode<T>>)
        requires
            node.has_right(),
        ensures
            r.subtree_values() == node.subtree_values(),
            r.is_red() == node.is_red(),
            r.has_left(),
    {
        let mut node = node;
        let mut right = match node.right.take() {
            Some(r) => r,
            None => {
                return node;
            },
        };
        let ghost rl = values(right.left);
        node.right = right.left.take();
        right.red = node.red;
        node.red = true;
        let ghost lv = values(node.left) + seq![node.value] + rl;
        right.left = Some(node);
        assert(right.subtree_values() =~= lv + seq![right.value] + values(right.right));
        right
    }

    /// Rotates the subtree right: the left child becomes its root, with the node's color,
    /// and the node, now red, its right child. The order of the values is kept.
    pub fn rotate_right(node: Box<RBNode<T>>) -> (r: Box<RBNode<T>>)
        requires
            node.has_left(),
        ensures
            r.subtree_values() == node.subtree_values(),
            r.is_red() == node.is_red(),
            r.has_right(),
    {
        let mut node = node;
        let mut left = match node.left.take() {
            Some(l) => l,
            None => {
                return node;
            },
        };
        let ghost lr = values(left.right);
        node.left = left.right.take();
        left.red = node.red;
        node.red = true;
        let ghost rv = lr + seq![node.value] + values(node.right);
        left.right = Some(node);
        assert(left.subtree_values() =~= values(left.left) + seq![left.value] + rv);
        left
    }
}

/// Whether a search of the subtree `node` can run off the tree, where `answers(v, o)` says
/// that the search may answer `o` at the value `v`: at each node it meets it can answer
/// `less`, going left, or `greater`, going right, until it reaches a missing child.
pub closed spec fn runs_off<T, R>(
    node: Option<Box<RBNode<T>>>,
    answers: spec_fn(T, R) -> bool,
    less: R,
    greater: R,
) -> bool
    decreases node,
{
    match node {
        None => true,
        Some(b) => {
            ||| answers(b.value, less) && runs_off(b.left, answers, less, greater)
            ||| answers(b.value, greater) && runs_off(b.right, answers, less, greater)
        },
    }
}

/// The values of a node's subtree hold its own value and those of its children's subtrees.
proof fn lemma_subtree_contains<T>(node: Option<Box<RBNode<T>>>)
    requires
        node is Some,
    ensures
        values(node).contains(node->0.value),
        forall|v: T| #[trigger] values(node->0.left).contains(v) ==> values(node).contains(v),
        forall|v: T| #[trigger] values(node->0.right).contains(v) ==> values(node).contains(v),
{
    let b = node->0;
    let l = values(b.left);
    let r = values(b.right);
    let s = values(node);
    assert(s == l + seq![b.value] + r);
    assert(s[l.len() as int] == b.value);
    assert forall|v: T| #[trigger] l.contains(v) implies s.contains(v) by {
        let i = choose|i: int| 0 <= i < l.len() && l[i] == v;
        assert(s[i] == v);
    }
    assert forall|v: T| #[trigger] r.contains(v) implies s.contains(v) by {
        let i = choose|i: int| 0 <= i < r.len() && r[i] == v;
        assert(s[l.len() + 1 + i] == v);
    }
}

/// The value that the search steered by `f` meets in the subtree `node`: `Less` sends the
/// search left, `Greater` right, and `Equal` ends it.
fn node_search_with<'a, T, F: Fn(&T) -> Ordering>(node: &'a Option<Box<RBNode<T>>>, f: &F) -> (r: Option<&'a T>)
    requires
        forall|v: T| #[trigger] f.requires((&v,)),
    ensures
        r matches Some(v) ==> values(*node).contains(*v) && f.ensures((v,), Ordering::Equal),
        r is None ==> runs_off(
            *node,
            |v: T, o: Ordering| f.ensures((&v,), o),
            Ordering::Less,
            Ordering::Greater,
        ),
    decreases *node,
{
    match node {
        None => None,
        Some(b) => {
            let o = f(&b.value);
            proof {
                lemma_subtree_contains(*node);
            }
            match o {
                Ordering::Less => node_search_with(&b.left, f),
                Ordering::Greater => node_search_with(&b.right, f),
                Ordering::Equal => Some(&b.value),
            }
        },
    }
}

impl<T> RBTree<T> {
    /// The values of the tree, in order.
    pub closed spec fn items(&self) -> Seq<T> {
        values(self.root)
    }

    /// The value that the search steered by `f` meets, if any: `f` compares what is sought
    /// with a value, `Less` sending the search to smaller values and `Greater` to larger ones,
    /// and `Equal` ends it.
    pub fn search_with<F: Fn(&T) -> Ordering>(&self, f: F) -> (r: Option<&T>)
        requires
            forall|v: T| #[trigger] f.requires((&v,)),
        ensures
            r matches Some(v) ==> self.items().contains(*v) && f.ensures((v,), Ordering::Equal),
            r is None ==> self.misses_with(f),
    {
        node_search_with(&self.root, &f)
    }

    /// Whether the search steered by `f` can run off the tree: at each value it meets, `f`
    /// can answer `Less` (go to smaller values) or `Greater` (go to larger ones), until it
    /// reaches a missing child.
    pub closed spec fn misses_with<F: Fn(&T) -> Ordering>(&self, f: F) -> bool {
        runs_off(self.root, |v: T, o: Ordering| f.ensures((&v,), o), Ordering::Less, Ordering::Greater)
    }

    /// An empty tree.
    pub fn new() -> (t: Self)
        ensures
            t.items() == Seq::<T>::empty(),
    {
        RBTree { root: None }
    }
}

} // verus!
