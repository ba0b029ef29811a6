//! A scapegoat tree stored in an array: the node at index `i` has its children at `2i` and
//! `2i + 1`, the root is at index 1. Entries are ordered by a `u64` key.
//!
//! Scapegoat trees are flexible as to their balancing: they support any `α` with
//! `1/2 < α < 1`. A high `α` means fewer rebuilds, so quicker insertion but slower lookups,
//! and the other way round for a low `α`.
use core::cmp::Ordering;
use vstd::prelude::*;

verus! {

/// The entry at index `i` of the array `t`, if there is one.
pub open spec fn node_at<V>(t: Seq<Option<(u64, V)>>, i: int) -> Option<(u64, V)> {
    if 0 <= i < t.len() {
        t[i]
    } else {
        None
    }
}

/// The measure on which the in-order walk of `t` from index `i` recurses.
pub open spec fn walk_measure(len: int, i: int) -> int {
    if i < len {
        len - i
    } else {
        0
    }
}

/// The entries of the subtree rooted at index `i`, in order: left subtree, node, right
/// subtree. A missing node ends the walk, whatever lies below it.
pub open spec fn inorder<V>(t: Seq<Option<(u64, V)>>, i: int) -> Seq<(u64, V)>
    decreases walk_measure(t.len() as int, i),
{
    if 1 <= i < t.len() && t[i] is Some {
        inorder(t, 2 * i) + seq![t[i]->0] + inorder(t, 2 * i + 1)
    } else {
        seq![]
    }
}

/// Whether index `j` lies in the subtree rooted at index `a`.
pub open spec fn desc(j: int, a: int) -> bool
    decreases j,
{
    if a < 1 || j < a {
        false
    } else if j == a {
        true
    } else {
        desc(j / 2, a)
    }
}

/// The entries that come before and after the subtree rooted at `s` in the in-order walk
/// from the root.
pub open spec fn around<V>(t: Seq<Option<(u64, V)>>, s: int) -> (Seq<(u64, V)>, Seq<(u64, V)>)
    decreases s,
{
    if s <= 1 {
        (seq![], seq![])
    } else {
        let p = s / 2;
        let (pre, post) = around(t, p);
        if s == 2 * p {
            (pre, seq![node_at(t, p)->0] + inorder(t, 2 * p + 1) + post)
        } else {
            (pre + inorder(t, 2 * p) + seq![node_at(t, p)->0], post)
        }
    }
}

/// Whether the subtree of `idx` holds the entries `s` laid out balanced: the median entry
/// (the lower one of two) at `idx`, the entries before it laid out the same way below the
/// left child, those after it below the right child.
pub open spec fn laid_out<V>(t: Seq<Option<(u64, V)>>, idx: int, s: Seq<(u64, V)>) -> bool
    decreases s.len(),
{
    if s.len() == 0 {
        node_at(t, idx) is None
    } else {
        let m = (s.len() - 1) / 2;
        &&& node_at(t, idx) == Some(s[m])
        &&& laid_out(t, 2 * idx, s.take(m))
        &&& laid_out(t, 2 * idx + 1, s.skip(m + 1))
    }
}

/// The first ancestor above `node` that is too deep for its size, counting that `node` lies
/// `i` levels below the entry where the walk up began: the first `p`, `k` levels up, whose
/// subtree holds `n` entries with `k > h_α(n)` (`α = num / den`). The root ends the walk.
pub open spec fn scapegoat_from<V>(t: Seq<Option<(u64, V)>>, node: int, i: int, num: int, den: int) -> Option<int>
    decreases node,
{
    if node <= 1 {
        None
    } else {
        let p = node / 2;
        if i + 1 > shrink_steps(inorder(t, p).len() as int, num, den) {
            Some(p)
        } else {
            scapegoat_from(t, p, i + 1, num, den)
        }
    }
}

/// Whether a search from index `i` can run off the tree, where `answers(e, o)` says that the
/// search may answer `o` at the entry `e`: at each entry it meets it can answer `less`,
/// going to the left child, or `greater`, going to the right child, until it reaches an index
/// without an entry.
pub open spec fn search_runs_off<V, R>(
    t: Seq<Option<(u64, V)>>,
    i: int,
    answers: spec_fn((u64, V), R) -> bool,
    less: R,
    greater: R,
) -> bool
    decreases walk_measure(t.len() as int, i),
{
    if i < 1 || node_at(t, i) is None {
        true
    } else {
        let e = node_at(t, i)->0;
        ||| answers(e, less) && search_runs_off(t, 2 * i, answers, less, greater)
        ||| answers(e, greater) && search_runs_off(t, 2 * i + 1, answers, less, greater)
    }
}

/// How `a` compares with `b`.
pub open spec fn key_order(a: u64, b: u64) -> Ordering {
    if a < b {
        Ordering::Less
    } else if a == b {
        Ordering::Equal
    } else {
        Ordering::Greater
    }
}

/// Whether `t1` is `t0` with the subtree of `p` rebuilt balanced, where its balanced layout
/// stays within half the range of `usize`; elsewhere `t1` is `t0`.
pub open spec fn rebuilt_at<V>(t0: Seq<Option<(u64, V)>>, t1: Seq<Option<(u64, V)>>, p: int) -> bool {
    if inorder(t0, p).len() <= (usize::MAX / 2) as int / (p + 1) {
        &&& laid_out(t1, p, inorder(t0, p))
        &&& agree_outside(t0, t1, p)
    } else {
        t1 == t0
    }
}

/// The rank of the entry at `s` in the walk from the root: how many entries come before it.
pub open spec fn rank_of<V>(t: Seq<Option<(u64, V)>>, s: int) -> int {
    (around(t, s).0.len() + inorder(t, 2 * s).len()) as int
}

/// Whether `t1` and `t2` have entries at the same indices.
pub open spec fn same_shape<V>(t1: Seq<Option<(u64, V)>>, t2: Seq<Option<(u64, V)>>) -> bool {
    &&& t1.len() == t2.len()
    &&& forall|j: int|
        #![trigger node_at(t1, j)]
        #![trigger node_at(t2, j)]
        (node_at(t1, j) is Some) == (node_at(t2, j) is Some)
}

/// The keys of `s` strictly increase.
pub open spec fn sorted_keys<V>(s: Seq<(u64, V)>) -> bool {
    forall|i: int, j: int| 0 <= i < j < s.len() ==> s[i].0 < s[j].0
}

/// Whether some entry of `s` has the key `key`.
pub open spec fn has_key<V>(s: Seq<(u64, V)>, key: u64) -> bool {
    exists|j: int| 0 <= j < s.len() && #[trigger] s[j].0 == key
}

/// What inserting `(key, value)` by key does to the entries `a`, leaving `b`: either they
/// stay, or the entry goes in at one place; entries ordered by key stay ordered, and stay
/// exactly when the key is already there.
pub open spec fn insert_outcome<V>(a: Seq<(u64, V)>, b: Seq<(u64, V)>, key: u64, value: V) -> bool {
    &&& b == a || exists|pos: int| 0 <= pos <= a.len() && b == a.insert(pos, (key, value))
    &&& sorted_keys(a) ==> sorted_keys(b)
    &&& sorted_keys(a) ==> (has_key(a, key) <==> b == a)
}

/// The entries `b` are `a` with `(key, value)` at its place by key: after every smaller key
/// and before every larger one.
pub open spec fn inserted_in_order<V>(a: Seq<(u64, V)>, b: Seq<(u64, V)>, key: u64, value: V) -> bool {
    exists|pos: int|
        0 <= pos <= a.len() && b == a.insert(pos, (key, value)) && (forall|j: int|
            0 <= j < pos ==> #[trigger] a[j].0 < key) && (forall|j: int|
            pos <= j < a.len() ==> #[trigger] a[j].0 > key)
}

/// Whether `t1` and `t2` hold the same entries at every index of the subtree of `a`.
pub open spec fn agree_within<V>(t1: Seq<Option<(u64, V)>>, t2: Seq<Option<(u64, V)>>, a: int) -> bool {
    forall|j: int| #[trigger] desc(j, a) ==> node_at(t1, j) == node_at(t2, j)
}

/// Whether `t1` and `t2` hold the same entries at every index outside the subtree of `s`.
pub open spec fn agree_outside<V>(t1: Seq<Option<(u64, V)>>, t2: Seq<Option<(u64, V)>>, s: int) -> bool {
    forall|j: int| !#[trigger] desc(j, s) ==> node_at(t1, j) == node_at(t2, j)
}

/// Whether the subtree of `a` holds no entry.
pub open spec fn empty_within<V>(t: Seq<Option<(u64, V)>>, a: int) -> bool {
    forall|j: int| #[trigger] desc(j, a) ==> node_at(t, j) is None
}

/// Every index strictly above `s` on its path to the root holds an entry.
pub open spec fn path_full<V>(t: Seq<Option<(u64, V)>>, s: int) -> bool {
    forall|a: int| #[trigger] desc(s, a) && a != s ==> node_at(t, a) is Some
}

/// The walk from `i` unfolds once, whatever the length of the array.
pub proof fn lemma_inorder_unfold<V>(t: Seq<Option<(u64, V)>>, i: int)
    ensures
        inorder(t, i) == if i >= 1 && node_at(t, i) is Some {
            inorder(t, 2 * i) + seq![node_at(t, i)->0] + inorder(t, 2 * i + 1)
        } else {
            Seq::<(u64, V)>::empty()
        },
{
}

proof fn lemma_desc_self(a: int)
    requires
        a >= 1,
    ensures
        desc(a, a),
{
}

proof fn lemma_desc_ge(j: int, a: int)
    ensures
        desc(j, a) ==> j >= a && a >= 1,
{
}

/// A child lies below its parent.
proof fn lemma_desc_child(j: int, a: int)
    requires
        a >= 1,
        desc(j, 2 * a) || desc(j, 2 * a + 1),
    ensures
        desc(j, a),
    decreases j,
{
    if j == 2 * a || j == 2 * a + 1 {
        assert(j / 2 == a);
        assert(desc(j / 2, a));
    } else {
        lemma_desc_child(j / 2, a);
    }
}

/// What lies below a node lies below each node above it.
proof fn lemma_desc_trans(j: int, b: int, a: int)
    requires
        desc(j, b),
        desc(b, a),
    ensures
        desc(j, a),
    decreases j,
{
    if j != b {
        lemma_desc_trans(j / 2, b, a);
    }
}

/// The nodes above an index form a chain.
proof fn lemma_desc_chain(j: int, a: int, b: int)
    requires
        desc(j, a),
        desc(j, b),
        a <= b,
    ensures
        desc(b, a),
    decreases j,
{
    if j != b {
        assert(j != a);
        lemma_desc_chain(j / 2, a, b);
    }
}

/// The subtrees of two children of one node do not meet.
proof fn lemma_desc_siblings(j: int, p: int)
    requires
        p >= 1,
    ensures
        !(desc(j, 2 * p) && desc(j, 2 * p + 1)),
{
    if desc(j, 2 * p) && desc(j, 2 * p + 1) {
        lemma_desc_chain(j, 2 * p, 2 * p + 1);
        assert((2 * p + 1) / 2 == p);
        assert(desc(p, 2 * p));
        lemma_desc_ge(p, 2 * p);
    }
}

/// Two arrays that agree within a subtree walk it alike.
pub proof fn lemma_agree_inorder<V>(t1: Seq<Option<(u64, V)>>, t2: Seq<Option<(u64, V)>>, a: int)
    requires
        agree_within(t1, t2, a),
    ensures
        inorder(t1, a) == inorder(t2, a),
    decreases walk_measure((t1.len() + t2.len()) as int, a),
{
    lemma_inorder_unfold(t1, a);
    lemma_inorder_unfold(t2, a);
    if a >= 1 {
        lemma_desc_self(a);
        if node_at(t1, a) is Some {
            assert forall|j: int| #[trigger] desc(j, 2 * a) implies node_at(t1, j) == node_at(t2, j) by {
                lemma_desc_child(j, a);
            }
            assert forall|j: int| #[trigger] desc(j, 2 * a + 1) implies node_at(t1, j) == node_at(t2, j) by {
                lemma_desc_child(j, a);
            }
            lemma_agree_inorder(t1, t2, 2 * a);
            lemma_agree_inorder(t1, t2, 2 * a + 1);
        }
    }
}

/// A subtree without entries walks to nothing.
pub proof fn lemma_empty_inorder<V>(t: Seq<Option<(u64, V)>>, a: int)
    requires
        a >= 1,
        node_at(t, a) is None,
    ensures
        inorder(t, a) == Seq::<(u64, V)>::empty(),
{
    lemma_inorder_unfold(t, a);
}

/// Where every node above `s` holds an entry, the walk from the root is the entries before
/// the subtree of `s`, the walk of that subtree, and the entries after it.
pub proof fn lemma_around<V>(t: Seq<Option<(u64, V)>>, s: int)
    requires
        s >= 1,
        path_full(t, s),
    ensures
        inorder(t, 1) == around(t, s).0 + inorder(t, s) + around(t, s).1,
    decreases s,
{
    if s > 1 {
        let p = s / 2;
        assert(desc(s, p)) by {
            assert(desc(p, p));
        }
        assert forall|a: int| #[trigger] desc(p, a) && a != p implies node_at(t, a) is Some by {
            lemma_desc_trans(s, p, a);
            lemma_desc_ge(p, a);
        }
        lemma_around(t, p);
        assert(node_at(t, p) is Some);
        lemma_inorder_unfold(t, p);
        let (pre, post) = around(t, p);
        if s == 2 * p {
            assert(inorder(t, 1) =~= pre + inorder(t, s) + (seq![node_at(t, p)->0] + inorder(
                t,
                2 * p + 1,
            ) + post));
        } else {
            assert(inorder(t, 1) =~= (pre + inorder(t, 2 * p) + seq![node_at(t, p)->0])
                + inorder(t, s) + post);
        }
    }
}

/// What comes before and after the subtree of `s` depends only on the entries outside it.
pub proof fn lemma_around_frame<V>(t1: Seq<Option<(u64, V)>>, t2: Seq<Option<(u64, V)>>, s: int)
    requires
        s >= 1,
        agree_outside(t1, t2, s),
    ensures
        around(t1, s) == around(t2, s),
    decreases s,
{
    if s > 1 {
        let p = s / 2;
        assert(desc(s, p)) by {
            assert(desc(p, p));
        }
        assert forall|j: int| !#[trigger] desc(j, p) implies node_at(t1, j) == node_at(
            t2,
            j,
        ) by {
            if desc(j, s) {
                lemma_desc_trans(j, s, p);
            }
        }
        lemma_around_frame(t1, t2, p);
        assert(!desc(p, s));
        let sib = if s == 2 * p {
            2 * p + 1
        } else {
            2 * p
        };
        assert forall|j: int| #[trigger] desc(j, sib) implies node_at(t1, j) == node_at(t2, j) by {
            lemma_desc_siblings(j, p);
            lemma_desc_ge(j, sib);
        }
        lemma_agree_inorder(t1, t2, sib);
    }
}

/// Every entry strictly below `a` has an entry as its parent.
pub open spec fn local_no_orphans<V>(t: Seq<Option<(u64, V)>>, a: int) -> bool {
    forall|j: int|
        #[trigger] desc(j, a) && j != a && node_at(t, j) is Some ==> node_at(t, j / 2) is Some
}

/// Every index from 1 on lies in the subtree of the root.
proof fn lemma_desc_root(j: int)
    requires
        j >= 1,
    ensures
        desc(j, 1),
    decreases j,
{
    if j > 1 {
        lemma_desc_root(j / 2);
    }
}

/// Below a node without an entry there is none, where nothing is orphaned.
proof fn lemma_no_orphans_empty<V>(t: Seq<Option<(u64, V)>>, a: int)
    requires
        a >= 1,
        node_at(t, a) is None,
        local_no_orphans(t, a),
    ensures
        empty_within(t, a),
{
    assert forall|j: int| #[trigger] desc(j, a) implies node_at(t, j) is None by {
        lemma_no_orphans_empty_at(t, a, j);
    }
}

proof fn lemma_no_orphans_empty_at<V>(t: Seq<Option<(u64, V)>>, a: int, j: int)
    requires
        a >= 1,
        node_at(t, a) is None,
        local_no_orphans(t, a),
        desc(j, a),
    ensures
        node_at(t, j) is None,
    decreases j,
{
    if j != a {
        lemma_no_orphans_empty_at(t, a, j / 2);
    }
}

/// A child's subtree inherits the absence of orphans.
proof fn lemma_local_child<V>(t: Seq<Option<(u64, V)>>, a: int, c: int)
    requires
        a >= 1,
        c == 2 * a || c == 2 * a + 1,
        local_no_orphans(t, a),
    ensures
        local_no_orphans(t, c),
{
    assert forall|j: int|
        #[trigger] desc(j, c) && j != c && node_at(t, j) is Some implies node_at(t, j / 2) is Some by {
        lemma_desc_child(j, a);
        lemma_desc_ge(j, c);
    }
}

/// The absence of orphans in a subtree depends only on the entries in it.
proof fn lemma_local_agree<V>(t1: Seq<Option<(u64, V)>>, t2: Seq<Option<(u64, V)>>, a: int)
    requires
        a >= 1,
        agree_within(t1, t2, a),
        local_no_orphans(t1, a),
    ensures
        local_no_orphans(t2, a),
{
    assert forall|j: int|
        #[trigger] desc(j, a) && j != a && node_at(t2, j) is Some implies node_at(t2, j / 2) is Some by {
        assert(desc(j / 2, a));
    }
}

/// Replacing the subtree of `s` by one without orphans, below an entry, leaves no orphans.
proof fn lemma_local_replace<V>(t1: Seq<Option<(u64, V)>>, t2: Seq<Option<(u64, V)>>, s: int)
    requires
        s >= 1,
        agree_outside(t1, t2, s),
        local_no_orphans(t1, 1),
        local_no_orphans(t2, s),
        s == 1 || node_at(t2, s / 2) is Some,
    ensures
        local_no_orphans(t2, 1),
{
    assert forall|j: int|
        #[trigger] desc(j, 1) && j != 1 && node_at(t2, j) is Some implies node_at(t2, j / 2) is Some by {
        lemma_desc_ge(j, 1);
        if desc(j, s) {
            if j != s {
                assert(desc(j / 2, s));
            }
        } else {
            lemma_desc_root(j / 2);
            if desc(j / 2, s) {
                assert(desc(j, j / 2)) by {
                    assert(desc(j / 2, j / 2));
                }
                lemma_desc_trans(j, j / 2, s);
            }
        }
    }
}

/// How many times `x` can be scaled by `num / den` (rounding down) and stay at least one:
/// the height bound `⌊log_(1/α) x⌋` with `α = num / den`, counted in whole steps.
pub open spec fn shrink_steps(x: int, num: int, den: int) -> int
    decreases x,
{
    if x <= 0 || num <= 0 || den <= num {
        0
    } else {
        let y = x * num / den;
        if y <= 0 || y >= x {
            0
        } else {
            1 + shrink_steps(y, num, den)
        }
    }
}

/// The number of binary digits of `n` (0 for 0).
pub open spec fn bit_length(n: int) -> nat
    decreases n,
{
    if n <= 0 {
        0
    } else {
        1 + bit_length(n / 2)
    }
}

/// The index of the median of the inclusive range `left..=right`.
pub open spec fn median_spec(left: int, right: int) -> int {
    (left + right) / 2
}

/// The index of the median of the inclusive range `left..=right`.
pub fn median(left: usize, right: usize) -> (m: usize)
    requires
        left + right <= usize::MAX,
    ensures
        m == median_spec(left as int, right as int),
{
    (left + right) / 2
}

/// The index of the left child of `parent`.
pub fn left(parent: usize) -> (c: usize)
    requires
        2 * parent <= usize::MAX,
    ensures
        c == 2 * parent,
{
    2 * parent
}

/// The index of the right child of `parent`.
pub fn right(parent: usize) -> (c: usize)
    requires
        2 * parent + 1 <= usize::MAX,
    ensures
        c == 2 * parent + 1,
{
    2 * parent + 1
}

/// The index of the other child of `child`'s parent.
pub fn sibling(child: usize) -> (s: usize)
    requires
        child < usize::MAX,
    ensures
        s == if child % 2 == 0 {
            child + 1
        } else {
            child - 1
        },
{
    if child % 2 == 0 {
        child + 1
    } else {
        child - 1
    }
}

/// The number of binary digits of `n`.
pub fn log2(n: usize) -> (count: usize)
    ensures
        count == bit_length(n as int),
{
    let mut x = n;
    let mut count: usize = 0;
    proof {
        lemma_bit_length_le(n as int);
    }
    while x > 0
        invariant
            count + bit_length(x as int) == bit_length(n as int),
            bit_length(n as int) <= n,
        decreases x,
    {
        x = x / 2;
        count += 1;
    }
    count
}

proof fn lemma_bit_length_le(n: int)
    requires
        n >= 0,
    ensures
        bit_length(n) <= n,
    decreases n,
{
    if n > 0 {
        lemma_bit_length_le(n / 2);
    }
}

proof fn lemma_shrink_steps_le(x: int, num: int, den: int)
    requires
        x >= 0,
    ensures
        0 <= shrink_steps(x, num, den) <= x,
    decreases x,
{
    if x > 0 && num > 0 && den > num {
        let y = x * num / den;
        if y > 0 && y < x {
            lemma_shrink_steps_le(y, num, den);
        }
    }
}

/// The index of the root.
pub const ROOT: usize = 1;

/// A scapegoat tree of entries `(key, value)`.
///
/// [`ScapegoatTree::insert`] keeps the entries in key order; [`ScapegoatTree::insert_rank`]
/// puts an entry at a given place in the order, whatever its key.
pub struct ScapegoatTree<V> {
    tree: Vec<Option<(u64, V)>>,
    alpha_num: u32,
    alpha_den: u32,
    size: usize,
    max_size: usize,
}

impl<V> ScapegoatTree<V> {
    /// The entries, in order.
    pub closed spec fn items(&self) -> Seq<(u64, V)> {
        inorder(self.tree@, 1)
    }

    /// The number of slots of the array that holds the tree.
    pub closed spec fn slot_count(&self) -> nat {
        self.tree@.len()
    }

    /// The balance factor `α`, as numerator and denominator.
    pub closed spec fn alpha(&self) -> (int, int) {
        (self.alpha_num as int, self.alpha_den as int)
    }

    /// The tree is well formed: no entry is cut off from the root, the size is counted
    /// right, the array can grow, and `0 < α < 1`.
    pub closed spec fn wf(&self) -> bool {
        &&& local_no_orphans(self.tree@, 1)
        &&& node_at(self.tree@, 0) is None
        &&& self.size == inorder(self.tree@, 1).len()
        &&& self.tree@.len() <= usize::MAX / 2
        &&& 0 < self.alpha_num < self.alpha_den
        &&& self.size <= self.max_size
    }

    /// An empty tree with the balance factor `α = alpha_num / alpha_den`.
    pub fn new(alpha_num: u32, alpha_den: u32) -> (t: Self)
        requires
            0 < alpha_num < alpha_den,
        ensures
            t.wf(),
            t.items() == Seq::<(u64, V)>::empty(),
            t.alpha() == (alpha_num as int, alpha_den as int),
            t.slot_count() == 0,
    {
        ScapegoatTree { tree: Vec::new(), alpha_num, alpha_den, size: 0, max_size: 0 }
    }

    /// The number of slots of the array that holds the tree.
    pub fn slots(&self) -> (n: usize)
        ensures
            n == self.slot_count(),
    {
        self.tree.len()
    }

    /// The number of entries.
    pub fn len(&self) -> (n: usize)
        requires
            self.wf(),
        ensures
            n == self.items().len(),
    {
        self.size
    }

    /// `⌊log_(1/α) n⌋`, counted in whole steps of scaling by `α`.
    fn h_alpha(&self, n: usize) -> (h: usize)
        requires
            0 < self.alpha_num < self.alpha_den,
        ensures
            h == shrink_steps(n as int, self.alpha_num as int, self.alpha_den as int),
    {
        let num = self.alpha_num as u128;
        let den = self.alpha_den as u128;
        let ghost gn = self.alpha_num as int;
        let ghost gd = self.alpha_den as int;
        let mut x: u128 = n as u128;
        let mut k: usize = 0;
        proof {
            lemma_shrink_steps_le(n as int, gn, gd);
        }
        while x > 0
            invariant
                num == gn,
                den == gd,
                0 < gn < gd,
                x <= n,
                k + shrink_steps(x as int, gn, gd) == shrink_steps(n as int, gn, gd),
                shrink_steps(n as int, gn, gd) <= n,
                num <= 0xffff_ffffu128,
            ensures
                k == shrink_steps(n as int, gn, gd),
            decreases x,
        {
            assert(x * num <= x * 0xffff_ffffu128) by (nonlinear_arith)
                requires
                    num <= 0xffff_ffffu128,
            ;
            assert(x * 0xffff_ffffu128 <= 0xffff_ffff_ffff_ffffu128 * 0xffff_ffffu128) by (nonlinear_arith)
                requires
                    x <= 0xffff_ffff_ffff_ffffu128,
            ;
            let prod = x * num;
            let y = prod / den;
            assert(y < x) by (nonlinear_arith)
                requires
                    prod == x * num,
                    y == prod / den,
                    0 < num < den,
                    x > 0,
            ;
            if y == 0 {
                break;
            }
            proof {
                lemma_shrink_steps_le(y as int, gn, gd);
            }
            k += 1;
            x = y;
        }
        k
    }

    fn is_valid(&self, idx: usize) -> (b: bool)
        ensures
            b == (node_at(self.tree@, idx as int) is Some),
    {
        idx < self.tree.len() && self.tree[idx].is_some()
    }

    /// The number of entries in the subtree of `idx`.
    fn count(&self, idx: usize) -> (n: usize)
        requires
            self.tree@.len() <= usize::MAX / 2,
            inorder(self.tree@, idx as int).len() <= usize::MAX,
        ensures
            n == inorder(self.tree@, idx as int).len(),
        decreases walk_measure(self.tree@.len() as int, idx as int),
    {
        proof {
            lemma_inorder_unfold(self.tree@, idx as int);
        }
        if idx == 0 || !self.is_valid(idx) {
            return 0;
        }
        let l = self.count(left(idx));
        let r = self.count(right(idx));
        l + 1 + r
    }

    /// Finds the entry of rank `rank` in the subtree of `idx`: its index, or else how far
    /// past the end of the subtree the rank lies.
    fn select(&self, idx: usize, rank: usize) -> (r: Result<usize, usize>)
        requires
            idx >= 1,
            self.tree@.len() <= usize::MAX / 2,
            path_full(self.tree@, idx as int),
        ensures
            match r {
                Ok(j) => {
                    &&& rank < inorder(self.tree@, idx as int).len()
                    &&& j < self.tree@.len()
                    &&& node_at(self.tree@, j as int) == Some(inorder(self.tree@, idx as int)[rank as int])
                    &&& desc(j as int, idx as int)
                    &&& path_full(self.tree@, j as int)
                    &&& around(self.tree@, j as int).0.len() + inorder(self.tree@, 2 * j).len()
                        == around(self.tree@, idx as int).0.len() + rank
                },
                Err(k) => rank >= inorder(self.tree@, idx as int).len() && k == rank - inorder(
                    self.tree@,
                    idx as int,
                ).len(),
            },
        decreases walk_measure(self.tree@.len() as int, idx as int),
    {
        let ghost t = self.tree@;
        proof {
            lemma_inorder_unfold(t, idx as int);
        }
        if !self.is_valid(idx) {
            return Err(rank);
        }
        let l = left(idx);
        let rt = right(idx);
        proof {
            lemma_path_child(t, idx as int, l as int);
            lemma_path_child(t, idx as int, rt as int);
        }
        match self.select(l, rank) {
            Ok(j) => {
                proof {
                    lemma_desc_child(j as int, idx as int);
                    assert(around(t, l as int).0 == around(t, idx as int).0);
                }
                Ok(j)
            },
            Err(k) => {
                if k == 0 {
                    proof {
                        lemma_desc_self(idx as int);
                    }
                    return Ok(idx);
                }
                match self.select(rt, k - 1) {
                    Ok(j) => {
                        proof {
                            lemma_desc_child(j as int, idx as int);
                            assert((2 * idx + 1) / 2 == idx);
                        }
                        Ok(j)
                    },
                    Err(k2) => Err(k2),
                }
            },
        }
    }

    /// Puts `value` at index `idx`, growing the array with empty slots where needed.
    fn put(&mut self, idx: usize, value: (u64, V))
        requires
            idx >= 1,
            idx < usize::MAX / 2,
        ensures
            final(self).tree@.len() == if idx < old(self).tree@.len() {
                old(self).tree@.len() as int
            } else {
                idx + 1
            },
            forall|j: int|
                #![trigger node_at(final(self).tree@, j)]
                node_at(final(self).tree@, j) == if j == idx {
                    Some(value)
                } else {
                    node_at(old(self).tree@, j)
                },
            final(self).size == old(self).size,
            final(self).max_size == old(self).max_size,
            final(self).alpha_num == old(self).alpha_num,
            final(self).alpha_den == old(self).alpha_den,
    {
        let ghost t0 = self.tree@;
        while self.tree.len() <= idx
            invariant
                self.tree@.len() <= idx + 1 || self.tree@.len() == t0.len(),
                self.tree@.len() >= t0.len(),
                forall|j: int| 0 <= j < t0.len() ==> #[trigger] self.tree@[j] == t0[j],
                forall|j: int| t0.len() <= j < self.tree@.len() ==> #[trigger] self.tree@[j] is None,
                self.size == old(self).size,
                self.max_size == old(self).max_size,
                self.alpha_num == old(self).alpha_num,
                self.alpha_den == old(self).alpha_den,
            decreases idx + 1 - self.tree@.len(),
        {
            self.tree.push(None);
        }
        self.tree.set(idx, Some(value));
    }

    /// Finds the empty slot at which an entry of rank `rank` in the subtree of `idx` goes,
    /// or else how far past the end of the subtree the rank lies.
    fn slot_for_rank(&self, idx: usize, rank: usize) -> (r: Result<usize, usize>)
        requires
            idx >= 1,
            self.tree@.len() <= usize::MAX / 2,
            path_full(self.tree@, idx as int),
        ensures
            match r {
                Ok(s) => {
                    &&& rank <= inorder(self.tree@, idx as int).len()
                    &&& node_at(self.tree@, s as int) is None
                    &&& s >= 2
                    &&& s < 2 * self.tree@.len()
                    &&& desc(s as int, idx as int)
                    &&& path_full(self.tree@, s as int)
                    &&& around(self.tree@, s as int).0.len() == around(self.tree@, idx as int).0.len()
                        + rank
                },
                Err(k) => {
                    &&& rank >= inorder(self.tree@, idx as int).len()
                    &&& k == rank - inorder(self.tree@, idx as int).len()
                    &&& node_at(self.tree@, idx as int) is Some ==> rank > inorder(
                        self.tree@,
                        idx as int,
                    ).len()
                },
            },
        decreases walk_measure(self.tree@.len() as int, idx as int),
    {
        let ghost t = self.tree@;
        proof {
            lemma_inorder_unfold(t, idx as int);
        }
        if !self.is_valid(idx) {
            return Err(rank);
        }
        let l = left(idx);
        let rt = right(idx);
        proof {
            lemma_path_child(t, idx as int, l as int);
            lemma_path_child(t, idx as int, rt as int);
        }
        match self.slot_for_rank(l, rank) {
            Ok(s) => {
                proof {
                    lemma_desc_child(s as int, idx as int);
                }
                Ok(s)
            },
            Err(k) => {
                if k == 0 {
                    proof {
                        assert(desc(l as int, l as int));
                        lemma_desc_child(l as int, idx as int);
                    }
                    return Ok(l);
                }
                match self.slot_for_rank(rt, k - 1) {
                    Ok(s) => {
                        proof {
                            lemma_desc_child(s as int, idx as int);
                            assert((2 * idx + 1) / 2 == idx);
                        }
                        Ok(s)
                    },
                    Err(k2) => {
                        if k2 == 0 {
                            proof {
                                assert(desc(rt as int, rt as int));
                                lemma_desc_child(rt as int, idx as int);
                                assert((2 * idx + 1) / 2 == idx);
                            }
                            return Ok(rt);
                        }
                        Err(k2)
                    },
                }
            },
        }
    }

    /// Inserts the entry `(key, value)` so that it gets the rank `rank`, if `rank` is at
    /// most the number of entries; otherwise does nothing.
    pub fn insert_rank(&mut self, rank: usize, key: u64, value: V)
        requires
            old(self).wf(),
            old(self).items().len() < usize::MAX / 4,
            old(self).items().len() > 0 || rank > 0,
        ensures
            final(self).wf(),
            final(self).alpha() == old(self).alpha(),
            rank > old(self).items().len() ==> final(self).items() == old(self).items(),
            rank <= old(self).items().len() ==> final(self).items() == old(self).items().insert(
                rank as int,
                (key, value),
            ),
    {
        if rank > self.size {
            return;
        }
        let ghost t = self.tree@;
        proof {
            lemma_path_root(t);
            lemma_inorder_unfold(t, 1);
        }
        let s = match self.slot_for_rank(ROOT, rank) {
            Ok(s) => s,
            Err(_) => {
                return;
            },
        };
        if s >= usize::MAX / 2 {
            self.insert_by_rebuild(rank, (key, value));
            return;
        }
        self.put(s, (key, value));
        proof {
            lemma_put_slot(t, self.tree@, s as int, (key, value));
            assert(around(t, 1).0 == Seq::<(u64, V)>::empty());
            let (pre, post) = around(t, s as int);
            assert((pre + post).insert(rank as int, (key, value)) =~= pre + seq![(key, value)] + post);
        }
        self.size = self.size + 1;
        if self.size > self.max_size {
            self.max_size = self.size;
        }
        let depth = log2(s);
        let limit = self.h_alpha(self.size);
        if depth >= limit {
            self.scapegoat(s);
        }
    }

    /// Inserts the entry `(key, value)` by its key, unless the search for the key ends at an
    /// entry with that key. In a tree whose keys increase, the entry goes between the smaller
    /// and the larger keys, and is left out exactly when the key is present.
    pub fn insert(&mut self, key: u64, value: V)
        requires
            old(self).wf(),
            old(self).items().len() < usize::MAX / 4,
        ensures
            final(self).wf(),
            final(self).alpha() == old(self).alpha(),
            insert_outcome(old(self).items(), final(self).items(), key, value),
    {
        let ghost t = self.tree@;
        let ghost items = inorder(t, 1);
        let mut node: usize = ROOT;
        let mut depth: usize = 0;
        proof {
            lemma_path_root(t);
        }
        while self.is_valid(node)
            invariant
                self.tree@ == t,
                self.wf(),
                items == inorder(t, 1),
                node >= 1,
                node == 1 || node < 2 * t.len(),
                depth <= node,
                path_full(t, node as int),
                items == around(t, node as int).0 + inorder(t, node as int) + around(t, node as int).1,
                sorted_keys(items) ==> (forall|k: int|
                    0 <= k < around(t, node as int).0.len() ==> #[trigger] around(t, node as int).0[k].0
                        < key),
                sorted_keys(items) ==> (forall|k: int|
                    0 <= k < around(t, node as int).1.len() ==> #[trigger] around(t, node as int).1[k].0
                        > key),
            decreases walk_measure(t.len() as int, node as int),
        {
            let ghost pre = around(t, node as int).0;
            let ghost post = around(t, node as int).1;
            proof {
                lemma_inorder_unfold(t, node as int);
            }
            let ghost lo = inorder(t, 2 * node);
            let ghost hi = inorder(t, 2 * node + 1);
            let k = match &self.tree[node] {
                Some(e) => e.0,
                None => 0,
            };
            let ghost e = node_at(t, node as int)->0;
            assert(items =~= pre + lo + seq![e] + hi + post);
            if key == k {
                proof {
                    assert(items[(pre.len() + lo.len()) as int] == e);
                }
                return;
            }
            proof {
                lemma_path_child(t, node as int, 2 * node);
                lemma_path_child(t, node as int, 2 * node + 1);
                assert((2 * node + 1) / 2 == node);
                assert(around(t, 2 * node).0 == pre);
                assert(around(t, 2 * node).1 == seq![e] + hi + post);
                assert(around(t, 2 * node + 1).0 == pre + lo + seq![e]);
                assert(around(t, 2 * node + 1).1 == post);
                if sorted_keys(items) {
                    assert forall|i: int| 0 <= i < (seq![e] + hi + post).len() implies #[trigger] (seq![e]
                        + hi + post)[i].0 >= e.0 by {
                        if i > 0 {
                            assert((seq![e] + hi + post)[i] == items[pre.len() + lo.len() + i]);
                            assert(items[(pre.len() + lo.len()) as int] == e);
                        }
                    }
                    assert forall|i: int| 0 <= i < (pre + lo + seq![e]).len() implies #[trigger] (pre + lo
                        + seq![e])[i].0 <= e.0 by {
                        if i < pre.len() + lo.len() {
                            assert((pre + lo + seq![e])[i] == items[i]);
                            assert(items[(pre.len() + lo.len()) as int] == e);
                        }
                    }
                }
            }
            if key < k {
                node = left(node);
            } else {
                node = right(node);
            }
            depth += 1;
            proof {
                assert(items =~= around(t, node as int).0 + inorder(t, node as int) + around(
                    t,
                    node as int,
                ).1);
            }
        }
        let ghost pre = around(t, node as int).0;
        let ghost post = around(t, node as int).1;
        proof {
            lemma_inorder_unfold(t, node as int);
            lemma_insert_between(items, pre, post, (key, value));
        }
        if node >= usize::MAX / 2 {
            let pos = self.key_rank(key);
            proof {
                if sorted_keys(items) {
                    if pos < pre.len() {
                        assert(items[pos as int] == pre[pos as int]);
                    }
                    if pos > pre.len() {
                        assert(items[pre.len() as int] == post[0]);
                    }
                }
            }
            self.insert_by_rebuild(pos, (key, value));
            return;
        }
        self.put(node, (key, value));
        proof {
            lemma_put_slot(t, self.tree@, node as int, (key, value));
            assert(items.insert(pre.len() as int, (key, value)) =~= pre + seq![(key, value)] + post);
            assert(inorder(self.tree@, 1).len() == items.len() + 1);
        }
        self.size = self.size + 1;
        if self.size > self.max_size {
            self.max_size = self.size;
        }
        let limit = self.h_alpha(self.size);
        if depth >= limit {
            self.scapegoat(node);
        }
    }

    /// The number of entries, from the first on, whose keys are smaller than `key`.
    fn key_rank(&self, key: u64) -> (pos: usize)
        requires
            self.wf(),
        ensures
            pos <= self.items().len(),
            forall|j: int| 0 <= j < pos ==> #[trigger] self.items()[j].0 < key,
            pos < self.items().len() ==> self.items()[pos as int].0 >= key,
    {
        let n = self.size;
        let mut i: usize = 0;
        while i < n
            invariant
                self.wf(),
                n == self.items().len(),
                i <= n,
                forall|j: int| 0 <= j < i ==> #[trigger] self.items()[j].0 < key,
            decreases n - i,
        {
            match self.get(i) {
                Some(e) => {
                    if e.0 >= key {
                        return i;
                    }
                },
                None => {
                    return i;
                },
            }
            i += 1;
        }
        i
    }

    /// Lays the whole tree out anew, balanced, with the entry `e` inserted at rank `pos`.
    fn insert_by_rebuild(&mut self, pos: usize, e: (u64, V))
        requires
            old(self).wf(),
            pos <= old(self).items().len(),
            old(self).items().len() < usize::MAX / 4,
        ensures
            final(self).wf(),
            final(self).alpha() == old(self).alpha(),
            final(self).items() == old(self).items().insert(pos as int, e),
    {
        let ghost t0 = self.tree@;
        let ghost items = inorder(t0, 1);
        let mut pulled: Vec<Option<(u64, V)>> = Vec::new();
        self.take_subtree(ROOT, &mut pulled);
        let ghost t1 = self.tree@;
        assert(pulled@ =~= items.map_values(|x: (u64, V)| Some(x)));
        pulled.insert(pos, Some(e));
        let n = pulled.len();
        self.put_subtree(ROOT, 0, n - 1, &mut pulled);
        proof {
            let p = items.map_values(|x: (u64, V)| Some(x)).insert(pos as int, Some(e));
            assert(unwrap_all(p.subrange(0, n as int)) =~= items.insert(pos as int, e));
            assert(!desc(0, 1));
            assert(node_at(self.tree@, 0) == node_at(t1, 0));
            assert(node_at(t1, 0) == node_at(t0, 0));
        }
        self.size = self.size + 1;
        if self.size > self.max_size {
            self.max_size = self.size;
        }
    }

    /// Moves the entries of the subtree of `idx`, in order, to the end of `out`, leaving the
    /// subtree empty.
    fn take_subtree(&mut self, idx: usize, out: &mut Vec<Option<(u64, V)>>)
        requires
            idx >= 1,
            old(self).tree@.len() <= usize::MAX / 2,
            local_no_orphans(old(self).tree@, idx as int),
        ensures
            final(self).tree@.len() == old(self).tree@.len(),
            agree_outside(old(self).tree@, final(self).tree@, idx as int),
            empty_within(final(self).tree@, idx as int),
            final(out)@ == old(out)@ + inorder(old(self).tree@, idx as int).map_values(
                |e: (u64, V)| Some(e),
            ),
            final(self).size == old(self).size,
            final(self).max_size == old(self).max_size,
            final(self).alpha_num == old(self).alpha_num,
            final(self).alpha_den == old(self).alpha_den,
        decreases walk_measure(old(self).tree@.len() as int, idx as int),
    {
        let ghost t0 = self.tree@;
        let ghost out0 = out@;
        proof {
            lemma_inorder_unfold(t0, idx as int);
        }
        if !self.is_valid(idx) {
            proof {
                lemma_no_orphans_empty(t0, idx as int);
                assert(out@ =~= out0 + inorder(t0, idx as int).map_values(|e: (u64, V)| Some(e)));
            }
            return;
        }
        let l = left(idx);
        let r = right(idx);
        proof {
            lemma_local_child(t0, idx as int, l as int);
            lemma_local_child(t0, idx as int, r as int);
        }
        self.take_subtree(l, out);
        let ghost t1 = self.tree@;
        let ghost out1 = out@;
        proof {
            assert(!desc(idx as int, l as int)) by {
                lemma_desc_ge(idx as int, l as int);
            }
            assert(agree_within(t0, t1, r as int)) by {
                assert forall|j: int| #[trigger] desc(j, r as int) implies node_at(t0, j) == node_at(
                    t1,
                    j,
                ) by {
                    lemma_desc_siblings(j, idx as int);
                    lemma_desc_ge(j, r as int);
                }
            }
            lemma_local_agree(t0, t1, r as int);
            lemma_agree_inorder(t0, t1, r as int);
        }
        let e = self.tree[idx].take();
        out.push(e);
        let ghost t2 = self.tree@;
        proof {
            assert(agree_within(t1, t2, r as int)) by {
                assert forall|j: int| #[trigger] desc(j, r as int) implies node_at(t1, j) == node_at(
                    t2,
                    j,
                ) by {
                    lemma_desc_ge(j, r as int);
                }
            }
            lemma_local_agree(t1, t2, r as int);
            lemma_agree_inorder(t1, t2, r as int);
        }
        self.take_subtree(r, out);
        let ghost t3 = self.tree@;
        proof {
            assert(!desc(idx as int, r as int)) by {
                lemma_desc_ge(idx as int, r as int);
            }
            assert forall|j: int| !#[trigger] desc(j, idx as int) implies node_at(t0, j)
                == node_at(t3, j) by {
                if desc(j, l as int) {
                    lemma_desc_child(j, idx as int);
                }
                if desc(j, r as int) {
                    lemma_desc_child(j, idx as int);
                }
                assert(j != idx);
            }
            assert forall|j: int| #[trigger] desc(j, idx as int) implies node_at(t3, j) is None by {
                if j == idx {
                } else {
                    lemma_desc_split(j, idx as int);
                    if desc(j, l as int) {
                        lemma_desc_siblings(j, idx as int);
                        lemma_desc_ge(j, l as int);
                        assert(node_at(t1, j) is None);
                    }
                }
            }
            let f = |e: (u64, V)| Some(e);
            assert(inorder(t0, idx as int) == inorder(t0, l as int) + seq![node_at(t0, idx as int)->0]
                + inorder(t0, r as int));
            assert(out@ =~= out0 + inorder(t0, idx as int).map_values(f));
        }
    }

    /// Lays out the entries `subtree[lo..=hi]` as a balanced subtree at the empty index
    /// `idx`, the median at `idx`, taking them out of `subtree`.
    #[verifier::rlimit(40)]
    fn put_subtree(&mut self, idx: usize, lo: usize, hi: usize, subtree: &mut Vec<Option<(u64, V)>>)
        requires
            idx >= 1,
            lo <= hi < old(subtree)@.len(),
            hi < usize::MAX / 2,
            forall|k: int| lo <= k <= hi ==> #[trigger] old(subtree)@[k] is Some,
            empty_within(old(self).tree@, idx as int),
            (idx + 1) * (hi - lo + 1) <= usize::MAX / 2,
            old(self).tree@.len() <= usize::MAX / 2,
        ensures
            agree_outside(old(self).tree@, final(self).tree@, idx as int),
            inorder(final(self).tree@, idx as int) == unwrap_all(
                old(subtree)@.subrange(lo as int, hi + 1),
            ),
            laid_out(final(self).tree@, idx as int, unwrap_all(old(subtree)@.subrange(lo as int, hi + 1))),
            local_no_orphans(final(self).tree@, idx as int),
            node_at(final(self).tree@, idx as int) is Some,
            final(self).tree@.len() <= usize::MAX / 2,
            final(subtree)@.len() == old(subtree)@.len(),
            forall|k: int|
                0 <= k < old(subtree)@.len() && !(lo <= k <= hi) ==> #[trigger] final(subtree)@[k]
                    == old(subtree)@[k],
            final(self).size == old(self).size,
            final(self).max_size == old(self).max_size,
            final(self).alpha_num == old(self).alpha_num,
            final(self).alpha_den == old(self).alpha_den,
        decreases hi - lo,
    {
        let ghost t0 = self.tree@;
        let ghost s0 = subtree@;
        proof {
            lemma_half_bounds(idx as int, lo as int, hi as int);
        }
        let m = median(lo, hi);
        let e = subtree[m].take();
        let v = match e {
            Some(v) => v,
            None => {
                return;
            },
        };
        let ghost s1 = subtree@;
        self.put(idx, v);
        let ghost t1 = self.tree@;
        let l = left(idx);
        let r = right(idx);
        proof {
            assert(empty_within(t1, l as int)) by {
                assert forall|j: int| #[trigger] desc(j, l as int) implies node_at(t1, j) is None by {
                    lemma_desc_child(j, idx as int);
                    lemma_desc_ge(j, l as int);
                }
            }
            assert(empty_within(t1, r as int)) by {
                assert forall|j: int| #[trigger] desc(j, r as int) implies node_at(t1, j) is None by {
                    lemma_desc_child(j, idx as int);
                    lemma_desc_ge(j, r as int);
                }
            }
        }
        if lo < m {
            self.put_subtree(l, lo, m - 1, subtree);
        }
        let ghost t2 = self.tree@;
        let ghost s2 = subtree@;
        proof {
            assert(empty_within(t2, r as int)) by {
                assert forall|j: int| #[trigger] desc(j, r as int) implies node_at(t2, j) is None by {
                    lemma_desc_siblings(j, idx as int);
                    lemma_desc_ge(j, r as int);
                }
            }
        }
        if m < hi {
            self.put_subtree(r, m + 1, hi, subtree);
        }
        let ghost t3 = self.tree@;
        proof {
            let seg = unwrap_all(s0.subrange(lo as int, hi + 1));
            let lseg = unwrap_all(s0.subrange(lo as int, m as int));
            let rseg = unwrap_all(s0.subrange(m + 1, hi + 1));
            assert(seg =~= lseg + seq![v] + rseg);
            assert(!desc(idx as int, l as int)) by {
                lemma_desc_ge(idx as int, l as int);
            }
            assert(!desc(idx as int, r as int)) by {
                lemma_desc_ge(idx as int, r as int);
            }
            assert(agree_within(t2, t3, l as int)) by {
                assert forall|j: int| #[trigger] desc(j, l as int) implies node_at(t2, j) == node_at(
                    t3,
                    j,
                ) by {
                    lemma_desc_siblings(j, idx as int);
                    lemma_desc_ge(j, l as int);
                }
            }
            lemma_agree_inorder(t2, t3, l as int);
            if lo < m {
                assert(s1.subrange(lo as int, m as int) =~= s0.subrange(lo as int, m as int));
                lemma_laid_out_frame(t2, t3, l as int, lseg);
            }
            if lo == m {
                assert(desc(l as int, l as int));
                assert(node_at(t3, l as int) is None);
                lemma_empty_inorder(t3, l as int);
                assert(lseg =~= Seq::<(u64, V)>::empty());
            } else {
                assert(s2.subrange(m + 1, hi + 1) =~= s0.subrange(m + 1, hi + 1));
            }
            if m == hi {
                assert(desc(r as int, r as int));
                assert(node_at(t3, r as int) is None);
                lemma_empty_inorder(t3, r as int);
                assert(rseg =~= Seq::<(u64, V)>::empty());
            }
            lemma_inorder_unfold(t3, idx as int);
            assert(node_at(t3, idx as int) == Some(v));
            if m < hi {
                assert(s2.subrange(m + 1, hi + 1) =~= s0.subrange(m + 1, hi + 1));
            }
            lemma_laid_out_join(t3, idx as int, seg, v, lseg, rseg);
            assert forall|j: int| !#[trigger] desc(j, idx as int) implies node_at(t0, j)
                == node_at(t3, j) by {
                if desc(j, l as int) {
                    lemma_desc_child(j, idx as int);
                }
                if desc(j, r as int) {
                    lemma_desc_child(j, idx as int);
                }
            }
            assert forall|j: int|
                #[trigger] desc(j, idx as int) && j != idx && node_at(t3, j) is Some implies node_at(
                t3,
                j / 2,
            ) is Some by {
                lemma_desc_split(j, idx as int);
                if desc(j, l as int) {
                    lemma_desc_siblings(j, idx as int);
                    if j != l {
                        assert(desc(j / 2, l as int));
                        lemma_desc_siblings(j / 2, idx as int);
                        lemma_desc_ge(j / 2, l as int);
                    }
                } else {
                    if j != r {
                        assert(desc(j / 2, r as int));
                    } else {
                        assert(j / 2 == idx);
                    }
                }
            }
        }
    }

    /// Rebuilds the subtree of `sg`, which holds `n` entries, as a balanced one. It is left
    /// as it is where its balanced layout would reach beyond half the range of `usize`.
    fn rebuild(&mut self, sg: usize, n: usize)
        requires
            old(self).wf(),
            sg >= 1,
            path_full(old(self).tree@, sg as int),
            node_at(old(self).tree@, sg as int) is Some,
            n == inorder(old(self).tree@, sg as int).len(),
        ensures
            final(self).wf(),
            final(self).items() == old(self).items(),
            final(self).alpha() == old(self).alpha(),
            rebuilt_at(old(self).tree@, final(self).tree@, sg as int),
            n > (usize::MAX / 2) as int / (sg + 1) ==> *final(self) == *old(self),
    {
        let half: usize = usize::MAX / 2;
        let sg1: usize = sg + 1;
        let bound: usize = half / sg1;
        if n == 0 || n > bound {
            return;
        }
        assert(sg1 * n <= half) by (nonlinear_arith)
            requires
                bound == half / sg1,
                n <= bound,
                sg1 >= 1,
        ;
        let ghost t0 = self.tree@;
        proof {
            lemma_local_sub(t0, sg as int);
        }
        let mut pulled: Vec<Option<(u64, V)>> = Vec::new();
        self.take_subtree(sg, &mut pulled);
        let ghost t1 = self.tree@;
        let ghost p0 = pulled@;
        assert(p0 =~= inorder(t0, sg as int).map_values(|e: (u64, V)| Some(e)));
        let count = pulled.len();
        self.put_subtree(sg, 0, count - 1, &mut pulled);
        let ghost t2 = self.tree@;
        proof {
            assert(unwrap_all(p0.subrange(0, count as int)) =~= inorder(t0, sg as int));
            assert(agree_outside(t0, t2, sg as int));
            assert forall|a: int| #[trigger] desc(sg as int, a) && a != sg implies node_at(t2, a)
                is Some by {
                lemma_desc_ge(sg as int, a);
                if desc(a, sg as int) {
                    lemma_desc_ge(a, sg as int);
                }
            }
            lemma_around(t0, sg as int);
            lemma_around(t2, sg as int);
            lemma_around_frame(t0, t2, sg as int);
            if sg > 1 {
                assert(desc(sg as int, sg as int / 2)) by {
                    assert(desc(sg as int / 2, sg as int / 2));
                }
                assert(!desc(sg as int / 2, sg as int));
            }
            lemma_local_replace(t0, t2, sg as int);
            assert(!desc(0, sg as int));
        }
    }

    /// Rebuilds the lowest subtree above the entry at `node` (a leaf) that is too deep for
    /// its size: the first ancestor, `i` levels up, whose subtree holds `n` entries with
    /// `i > h_α(n)`. At the root nothing more is tried.
    fn scapegoat(&mut self, leaf: usize)
        requires
            old(self).wf(),
            leaf >= 1,
            node_at(old(self).tree@, leaf as int) is Some,
            inorder(old(self).tree@, leaf as int).len() == 1,
            path_full(old(self).tree@, leaf as int),
        ensures
            final(self).wf(),
            final(self).items() == old(self).items(),
            final(self).alpha() == old(self).alpha(),
            scapegoat_from(old(self).tree@, leaf as int, 0, old(self).alpha_num as int, old(self).alpha_den as int)
                is None ==> *final(self) == *old(self),
            scapegoat_from(old(self).tree@, leaf as int, 0, old(self).alpha_num as int, old(self).alpha_den as int)
                matches Some(p) ==> rebuilt_at(old(self).tree@, final(self).tree@, p),
    {
        let ghost t = self.tree@;
        let ghost node0 = leaf;
        let mut node = leaf;
        let mut i: usize = 0;
        let mut size: usize = 1;
        proof {
            if node > 1 {
                lemma_sibling_path(t, node as int);
            }
        }
        let mut size_sibling: usize = if node > 1 {
            self.count(sibling(node))
        } else {
            0
        };
        while node > 1
            invariant
                *self == *old(self),
                node0 == leaf,
                self.tree@ == t,
                t == old(self).tree@,
                self.wf(),
                scapegoat_from(t, node as int, i as int, self.alpha_num as int, self.alpha_den as int)
                    == scapegoat_from(t, node0 as int, 0, self.alpha_num as int, self.alpha_den as int),
                self.alpha_num == old(self).alpha_num,
                self.alpha_den == old(self).alpha_den,
                node >= 1,
                i + node <= node0,
                node_at(t, node as int) is Some,
                path_full(t, node as int),
                size == inorder(t, node as int).len(),
                node > 1 ==> size_sibling == inorder(
                    t,
                    if node % 2 == 0 {
                        node + 1
                    } else {
                        node - 1
                    },
                ).len(),
            decreases node,
        {
            let ghost child = node;
            proof {
                lemma_path_parent(t, child as int);
            }
            node = node / 2;
            i += 1;
            proof {
                assert(desc(child as int, node as int)) by {
                    assert(desc(node as int, node as int));
                }
                lemma_inorder_unfold(t, node as int);
                lemma_around(t, node as int);
                assert(desc(node as int, node as int));
            }
            size = 1 + size + size_sibling;
            let limit = self.h_alpha(size);
            if i > limit {
                proof {
                    assert(scapegoat_from(
                        t,
                        child as int,
                        i - 1,
                        self.alpha_num as int,
                        self.alpha_den as int,
                    ) == Some(node as int));
                }
                self.rebuild(node, size);
                return;
            }
            proof {
                if node > 1 {
                    lemma_sibling_path(t, node as int);
                }
            }
            size_sibling = if node > 1 {
                self.count(sibling(node))
            } else {
                0
            };
        }
    }

    /// The value of the entry of rank `rank` (counted from 0, in order), to change in place,
    /// if there is such an entry. The keys stay as they are.
    pub fn get_mut(&mut self, rank: usize) -> (r: Option<&mut V>)
        requires
            old(self).wf(),
        ensures
            rank >= old(self).items().len() ==> r is None && *final(self) == *old(self),
            rank < old(self).items().len() ==> (r matches Some(v) && *v == old(self).items()[rank as int].1),
            rank < old(self).items().len() ==> (r matches Some(v) && final(self).items() == old(self).items().update(
                rank as int,
                (old(self).items()[rank as int].0, *final(v)),
            )),
            final(self).wf(),
            final(self).alpha() == old(self).alpha(),
    {
        if rank >= self.size {
            return None;
        }
        proof {
            lemma_path_root(self.tree@);
        }
        let j = match self.select(ROOT, rank) {
            Ok(j) => j,
            Err(_) => {
                return None;
            },
        };
        let ghost t = self.tree@;
        let slot = &mut self.tree[j];
        match slot {
            Some(e) => {
                let k = e.0;
                let v = &mut e.1;
                proof {
                    lemma_update_value(t, j as int, rank as int, (k, *final(v)));
                }
                Some(v)
            },
            None => None,
        }
    }

    /// Finds the index of an entry with the key `key` on the search path, if the search
    /// meets one.
    fn find(&self, key: u64) -> (r: Option<usize>)
        requires
            self.wf(),
        ensures
            r matches Some(j) ==> j < self.tree@.len() && node_at(self.tree@, j as int) is Some
                && (node_at(self.tree@, j as int)->0).0 == key && (exists|i: int|
                0 <= i < self.items().len() && self.items()[i] == node_at(self.tree@, j as int)->0)
                && path_full(self.tree@, j as int) && j >= 1 && around(self.tree@, j as int).0.len()
                + inorder(self.tree@, 2 * j).len() < self.items().len() && self.items()[(around(
                self.tree@,
                j as int,
            ).0.len() + inorder(self.tree@, 2 * j).len()) as int] == node_at(self.tree@, j as int)->0,
            sorted_keys(self.items()) ==> (r is None <==> forall|i: int|
                0 <= i < self.items().len() ==> self.items()[i].0 != key),
    {
        let ghost t = self.tree@;
        let ghost items = inorder(t, 1);
        let mut node: usize = ROOT;
        proof {
            lemma_path_root(t);
        }
        while self.is_valid(node)
            invariant
                self.tree@ == t,
                self.wf(),
                items == inorder(t, 1),
                node >= 1,
                node == 1 || node < 2 * t.len(),
                path_full(t, node as int),
                items == around(t, node as int).0 + inorder(t, node as int) + around(t, node as int).1,
                sorted_keys(items) ==> (forall|k: int|
                    0 <= k < around(t, node as int).0.len() ==> #[trigger] around(t, node as int).0[k].0
                        < key),
                sorted_keys(items) ==> (forall|k: int|
                    0 <= k < around(t, node as int).1.len() ==> #[trigger] around(t, node as int).1[k].0
                        > key),
            decreases walk_measure(t.len() as int, node as int),
        {
            let ghost pre = around(t, node as int).0;
            let ghost post = around(t, node as int).1;
            proof {
                lemma_inorder_unfold(t, node as int);
            }
            let ghost lo = inorder(t, 2 * node);
            let ghost hi = inorder(t, 2 * node + 1);
            let k = match &self.tree[node] {
                Some(e) => e.0,
                None => 0,
            };
            let ghost e = node_at(t, node as int)->0;
            assert(items =~= pre + lo + seq![e] + hi + post);
            if key == k {
                proof {
                    let pos = (pre.len() + lo.len()) as int;
                    assert(pos < items.len());
                    assert(items[pos] == e);
                    assert(lo == inorder(t, 2 * node));
                    assert(0 <= pos < self.items().len() && self.items()[pos] == node_at(t, node as int)->0);
                    assert(e.0 == key);
                }
                return Some(node);
            }
            proof {
                lemma_path_child(t, node as int, 2 * node);
                lemma_path_child(t, node as int, 2 * node + 1);
                assert((2 * node + 1) / 2 == node);
                assert(around(t, 2 * node).0 == pre);
                assert(around(t, 2 * node).1 == seq![e] + hi + post);
                assert(around(t, 2 * node + 1).0 == pre + lo + seq![e]);
                assert(around(t, 2 * node + 1).1 == post);
                if sorted_keys(items) {
                    assert forall|i: int| 0 <= i < (seq![e] + hi + post).len() implies #[trigger] (seq![e]
                        + hi + post)[i].0 >= e.0 by {
                        if i > 0 {
                            assert((seq![e] + hi + post)[i] == items[pre.len() + lo.len() + i]);
                            assert(items[(pre.len() + lo.len()) as int] == e);
                        }
                    }
                    assert forall|i: int| 0 <= i < (pre + lo + seq![e]).len() implies #[trigger] (pre + lo
                        + seq![e])[i].0 <= e.0 by {
                        if i < pre.len() + lo.len() {
                            assert((pre + lo + seq![e])[i] == items[i]);
                            assert(items[(pre.len() + lo.len()) as int] == e);
                        }
                    }
                }
            }
            if key < k {
                node = left(node);
            } else {
                node = right(node);
            }
            proof {
                assert(items =~= around(t, node as int).0 + inorder(t, node as int) + around(
                    t,
                    node as int,
                ).1);
            }
        }
        proof {
            lemma_inorder_unfold(t, node as int);
            let pre = around(t, node as int).0;
            let post = around(t, node as int).1;
            if sorted_keys(items) {
                assert forall|i: int| 0 <= i < items.len() implies items[i].0 != key by {
                    if i < pre.len() {
                        assert(items[i] == pre[i]);
                    } else {
                        assert(items[i] == post[i - pre.len()]);
                    }
                }
            }
        }
        None
    }

    /// The value of an entry with the key `key` that the search for it meets, if any. In a
    /// tree whose keys increase, there is a result exactly when the key is present.
    pub fn search(&self, key: u64) -> (r: Option<&V>)
        requires
            self.wf(),
        ensures
            r matches Some(v) ==> exists|i: int|
                0 <= i < self.items().len() && self.items()[i] == (key, *v),
            sorted_keys(self.items()) ==> (r is None <==> forall|i: int|
                0 <= i < self.items().len() ==> self.items()[i].0 != key),
    {
        match self.find(key) {
            Some(j) => match &self.tree[j] {
                Some(e) => Some(&e.1),
                None => None,
            },
            None => None,
        }
    }

    /// The value of an entry with the key `key` that the search for it meets, to change in
    /// place, if any. In a tree whose keys increase, there is a result exactly when the key is
    /// present.
    pub fn search_mut(&mut self, key: u64) -> (r: Option<&mut V>)
        requires
            old(self).wf(),
        ensures
            final(self).wf(),
            final(self).alpha() == old(self).alpha(),
            r is None ==> *final(self) == *old(self),
            r matches Some(v) ==> exists|i: int|
                0 <= i < old(self).items().len() && old(self).items()[i] == (key, *v)
                    && final(self).items() == old(self).items().update(i, (key, *final(v))),
            sorted_keys(old(self).items()) ==> (r is None <==> forall|i: int|
                0 <= i < old(self).items().len() ==> old(self).items()[i].0 != key),
    {
        let ghost t = self.tree@;
        match self.find(key) {
            Some(j) => {
                let v = self.value_at_mut(j);
                proof {
                    assert(old(self).items()[rank_of(t, j as int)] == (key, *v));
                }
                Some(v)
            },
            None => None,
        }
    }

    /// The value of the entry at index `j`, to change in place; its key stays.
    fn value_at_mut(&mut self, j: usize) -> (r: &mut V)
        requires
            old(self).wf(),
            j >= 1,
            node_at(old(self).tree@, j as int) is Some,
            path_full(old(self).tree@, j as int),
        ensures
            *r == (node_at(old(self).tree@, j as int)->0).1,
            0 <= rank_of(old(self).tree@, j as int) < old(self).items().len(),
            old(self).items()[rank_of(old(self).tree@, j as int)] == node_at(old(self).tree@, j as int)->0,
            final(self).wf(),
            final(self).alpha() == old(self).alpha(),
            final(self).items() == old(self).items().update(
                rank_of(old(self).tree@, j as int),
                ((node_at(old(self).tree@, j as int)->0).0, *final(r)),
            ),
    {
        let ghost t = self.tree@;
        proof {
            lemma_rank_entry(t, j as int);
        }
        let e = self.tree[j].as_mut().unwrap();
        let k = e.0;
        let v = &mut e.1;
        proof {
            lemma_update_value(t, j as int, rank_of(t, j as int), (k, *final(v)));
        }
        v
    }

    /// Removes the entry with the key `key` that the search for it meets, if any, and returns
    /// its value; the other entries keep their order. In a tree whose keys increase, an entry
    /// is removed exactly when the key is present.
    ///
    /// An entry with children changes places with its neighbour in order from below it (the
    /// one before it where it sits at an even index or has no right child, else the one after
    /// it) until it is a leaf, and is then taken out. When fewer than `α` times the largest
    /// number of entries since the last full rebuild are left, the whole tree is rebuilt.
    pub fn delete(&mut self, key: u64) -> (r: Option<V>)
        requires
            old(self).wf(),
        ensures
            final(self).wf(),
            final(self).alpha() == old(self).alpha(),
            r is None ==> *final(self) == *old(self),
            r matches Some(v) ==> exists|i: int|
                0 <= i < old(self).items().len() && old(self).items()[i] == (key, v)
                    && final(self).items() == old(self).items().remove(i),
            sorted_keys(old(self).items()) ==> (r is None <==> forall|i: int|
                0 <= i < old(self).items().len() ==> old(self).items()[i].0 != key),
            sorted_keys(old(self).items()) ==> sorted_keys(final(self).items()),
    {
        let ghost t0 = self.tree@;
        let j = match self.find(key) {
            Some(j) => j,
            None => {
                return None;
            },
        };
        let e = self.remove_at(j);
        proof {
            let i = rank_of(t0, j as int);
            assert(old(self).items()[i] == (key, e.1));
        }
        Some(e.1)
    }

    /// Takes the entry at index `j` out of the tree and returns it; the other entries keep
    /// their order. It changes places with its neighbour in order from below it (the one
    /// before it where it sits at an even index or has no right child, else the one after it)
    /// until it is a leaf, and is then taken out. When fewer than `α` times the largest number
    /// of entries since the last full rebuild are left, the whole tree is rebuilt.
    fn remove_at(&mut self, j: usize) -> (e: (u64, V))
        requires
            old(self).wf(),
            j >= 1,
            node_at(old(self).tree@, j as int) is Some,
            path_full(old(self).tree@, j as int),
        ensures
            final(self).wf(),
            final(self).alpha() == old(self).alpha(),
            e == node_at(old(self).tree@, j as int)->0,
            0 <= rank_of(old(self).tree@, j as int) < old(self).items().len(),
            old(self).items()[rank_of(old(self).tree@, j as int)] == e,
            final(self).items() == old(self).items().remove(rank_of(old(self).tree@, j as int)),
            sorted_keys(old(self).items()) ==> sorted_keys(final(self).items()),
    {
        let ghost t0 = self.tree@;
        let ghost items0 = inorder(t0, 1);
        proof {
            lemma_rank_entry(t0, j as int);
        }
        let ghost rank0 = rank_of(t0, j as int);
        let ghost e0 = node_at(t0, j as int)->0;
        let mut x = j;
        let ghost mut rank = rank0;
        loop
            invariant
                self.tree@.len() == t0.len(),
                t0.len() <= usize::MAX / 2,
                local_no_orphans(self.tree@, 1),
                node_at(self.tree@, 0) is None,
                x >= 1,
                node_at(self.tree@, x as int) == Some(e0),
                path_full(self.tree@, x as int),
                rank == rank_of(self.tree@, x as int),
                0 <= rank0 < items0.len(),
                inorder(self.tree@, 1).len() == items0.len(),
                inorder(self.tree@, 1).remove(rank) == items0.remove(rank0),
                self.size == old(self).size,
                self.max_size == old(self).max_size,
                self.alpha_num == old(self).alpha_num,
                self.alpha_den == old(self).alpha_den,
            ensures
                node_at(self.tree@, 2 * x) is None,
                node_at(self.tree@, 2 * x + 1) is None,
            decreases self.tree@.len() - x,
        {
            let has_left = self.is_valid(left(x));
            let has_right = self.is_valid(right(x));
            if !has_left && !has_right {
                break;
            }
            let ghost t = self.tree@;
            let q = if has_left && (x % 2 == 0 || !has_right) {
                proof {
                    lemma_path_child(t, x as int, 2 * x);
                    assert((2 * x) / 2 == x);
                }
                self.rightmost(left(x))
            } else {
                proof {
                    lemma_path_child(t, x as int, 2 * x + 1);
                    assert((2 * x + 1) / 2 == x);
                }
                self.leftmost(right(x))
            };
            let ghost rq = rank_of(t, q as int);
            assert(rq == rank - 1 || rq == rank + 1);
            let ex = self.tree[x].take();
            let eq = self.tree[q].take();
            self.tree.set(x, eq);
            self.tree.set(q, ex);
            proof {
                lemma_swap_entries(t, x as int, q as int);
                let t2 = self.tree@;
                assert(t2 =~= t.update(x as int, t[q as int]).update(q as int, t[x as int]));
                lemma_rank_entry(t, q as int);
                lemma_rank_entry(t, x as int);
                let items = inorder(t, 1);
                let eqv = t[q as int]->0;
                assert(items.update(rank, eqv).update(rq, e0).remove(rq) =~= items.remove(rank));
                assert forall|a: int| #[trigger] desc(q as int, a) && a != q implies node_at(t2, a)
                    is Some by {
                    assert(node_at(t, a) is Some);
                }
                lemma_shape_around_len(t, t2, q as int);
                lemma_shape_inorder_len(t, t2, 2 * q);
                rank = rq;
            }
            x = q;
        }
        let ghost t = self.tree@;
        proof {
            lemma_local_sub(t, x as int);
        }
        let mut out: Vec<Option<(u64, V)>> = Vec::new();
        self.take_subtree(x, &mut out);
        proof {
            lemma_inorder_unfold(t, x as int);
            lemma_empty_inorder(t, 2 * x);
            lemma_empty_inorder(t, 2 * x + 1);
            assert(inorder(t, x as int) =~= seq![e0]);
            assert(out@ =~= seq![Some(e0)]);
        }
        let e = out.pop().unwrap().unwrap();
        proof {
            let t3 = self.tree@;
            assert forall|a: int| #[trigger] desc(x as int, a) && a != x implies node_at(t3, a)
                is Some by {
                lemma_desc_ge(x as int, a);
                if desc(a, x as int) {
                    lemma_desc_ge(a, x as int);
                }
            }
            lemma_around(t, x as int);
            lemma_around(t3, x as int);
            lemma_around_frame(t, t3, x as int);
            lemma_desc_self(x as int);
            lemma_empty_inorder(t3, x as int);
            let (pre, post) = around(t, x as int);
            assert(inorder(t, 1) =~= pre + seq![e0] + post);
            assert(inorder(t, 1).remove(rank) =~= pre + post);
            assert(inorder(t3, 1) =~= pre + post);
            if x > 1 {
                assert(desc(x as int, x as int / 2)) by {
                    assert(desc(x as int / 2, x as int / 2));
                }
            }
            lemma_local_replace(t, t3, x as int);
            assert(!desc(0, x as int));
        }
        self.size = self.size - 1;
        let size = self.size as u128;
        let den = self.alpha_den as u128;
        let num = self.alpha_num as u128;
        let max = self.max_size as u128;
        assert(size * den <= 0xffff_ffff_ffff_ffffu128 * 0xffff_ffffu128) by (nonlinear_arith)
            requires
                size <= 0xffff_ffff_ffff_ffffu128,
                den <= 0xffff_ffffu128,
        ;
        assert(num * max <= 0xffff_ffffu128 * 0xffff_ffff_ffff_ffffu128) by (nonlinear_arith)
            requires
                max <= 0xffff_ffff_ffff_ffffu128,
                num <= 0xffff_ffffu128,
        ;
        if size * den < num * max {
            if self.size > 0 {
                proof {
                    lemma_path_root(self.tree@);
                    lemma_inorder_unfold(self.tree@, 1);
                }
                self.rebuild(ROOT, self.size);
            }
            self.max_size = self.size;
        }
        proof {
            lemma_sorted_remove(items0, rank0);
        }
        e
    }

    /// The index of the last entry, in order, of the subtree of `a`: the end of the path of
    /// right children from `a`. Its rank is one less than that of whatever follows the
    /// subtree.
    fn rightmost(&self, a: usize) -> (q: usize)
        requires
            a >= 1,
            self.tree@.len() <= usize::MAX / 2,
            node_at(self.tree@, a as int) is Some,
            path_full(self.tree@, a as int),
        ensures
            q >= a,
            node_at(self.tree@, q as int) is Some,
            node_at(self.tree@, 2 * q + 1) is None,
            path_full(self.tree@, q as int),
            rank_of(self.tree@, q as int) + 1 == around(self.tree@, a as int).0.len() + inorder(
                self.tree@,
                a as int,
            ).len(),
    {
        let ghost t = self.tree@;
        let mut q = a;
        while self.is_valid(right(q))
            invariant
                self.tree@ == t,
                t.len() <= usize::MAX / 2,
                a >= 1,
                q >= a,
                node_at(t, q as int) is Some,
                path_full(t, q as int),
                around(t, q as int).0.len() + inorder(t, q as int).len() == around(t, a as int).0.len()
                    + inorder(t, a as int).len(),
            decreases t.len() - q,
        {
            proof {
                lemma_inorder_unfold(t, q as int);
                lemma_path_child(t, q as int, 2 * q + 1);
                assert((2 * q + 1) / 2 == q);
            }
            q = right(q);
        }
        proof {
            lemma_inorder_unfold(t, q as int);
            lemma_empty_inorder(t, 2 * q + 1);
        }
        q
    }

    /// The index of the first entry, in order, of the subtree of `a`: the end of the path of
    /// left children from `a`. Its rank is the number of entries before the subtree.
    fn leftmost(&self, a: usize) -> (q: usize)
        requires
            a >= 1,
            self.tree@.len() <= usize::MAX / 2,
            node_at(self.tree@, a as int) is Some,
            path_full(self.tree@, a as int),
        ensures
            q >= a,
            node_at(self.tree@, q as int) is Some,
            node_at(self.tree@, 2 * q) is None,
            path_full(self.tree@, q as int),
            rank_of(self.tree@, q as int) == around(self.tree@, a as int).0.len(),
    {
        let ghost t = self.tree@;
        let mut q = a;
        while self.is_valid(left(q))
            invariant
                self.tree@ == t,
                t.len() <= usize::MAX / 2,
                a >= 1,
                q >= a,
                node_at(t, q as int) is Some,
                path_full(t, q as int),
                around(t, q as int).0.len() == around(t, a as int).0.len(),
            decreases t.len() - q,
        {
            proof {
                lemma_path_child(t, q as int, 2 * q);
                assert((2 * q) / 2 == q);
            }
            q = left(q);
        }
        proof {
            lemma_empty_inorder(t, 2 * q);
        }
        q
    }

    /// The entry of rank `rank` (counted from 0, in order), if there is one.
    pub fn get(&self, rank: usize) -> (r: Option<&(u64, V)>)
        requires
            self.wf(),
        ensures
            rank < self.items().len() ==> (r matches Some(e) && *e == self.items()[rank as int]),
            rank >= self.items().len() ==> r is None,
    {
        if rank >= self.size {
            return None;
        }
        proof {
            lemma_path_root(self.tree@);
        }
        match self.select(ROOT, rank) {
            Ok(j) => match &self.tree[j] {
                Some(e) => Some(e),
                None => None,
            },
            Err(_) => None,
        }
    }
}

impl<V> ScapegoatTree<V> {
    /// Whether a search may stand at index `node`: every index above it holds an entry.
    spec fn walk_ok(&self, node: usize) -> bool {
        &&& node >= 1
        &&& node == 1 || node < 2 * self.tree@.len()
        &&& path_full(self.tree@, node as int)
    }

    /// How far a search standing at index `node` may still go down.
    spec fn walk_left(&self, node: usize) -> int {
        walk_measure(self.tree@.len() as int, node as int)
    }

    /// Whether index `j` holds an entry that a search can reach.
    spec fn found_at(&self, j: usize) -> bool {
        &&& j >= 1
        &&& node_at(self.tree@, j as int) is Some
        &&& path_full(self.tree@, j as int)
    }

    /// The entry at index `j`.
    spec fn entry_at(&self, j: usize) -> (u64, V) {
        node_at(self.tree@, j as int)->0
    }

    /// The rank of the entry at index `j`.
    spec fn rank_at(&self, j: usize) -> int {
        rank_of(self.tree@, j as int)
    }

    /// Whether a search steered by `f` from index `node` can run off the tree.
    spec fn runs_off_from<R, F: Fn(&(u64, V)) -> R>(&self, node: usize, f: F, less: R, greater: R) -> bool {
        search_runs_off(self.tree@, node as int, |e: (u64, V), o: R| f.ensures((&e,), o), less, greater)
    }

    /// Whether the search steered by `f` can run off the tree: at each entry it meets, `f`
    /// can answer `Less` (go to smaller keys) or `Greater` (go to larger keys), until it
    /// reaches a place without an entry.
    pub closed spec fn misses_with<F: Fn(&(u64, V)) -> Ordering>(&self, f: F) -> bool {
        self.runs_off_from(1, f, Ordering::Less, Ordering::Greater)
    }

    proof fn lemma_runs_off_step<R, F: Fn(&(u64, V)) -> R>(
        &self,
        node: usize,
        c: usize,
        f: F,
        less: R,
        greater: R,
        o: R,
    )
        requires
            node >= 1,
            node_at(self.tree@, node as int) is Some,
            f.ensures((&node_at(self.tree@, node as int)->0,), o),
            (o == less && c == 2 * node) || (o == greater && c == 2 * node + 1),
        ensures
            self.runs_off_from(c, f, less, greater) ==> self.runs_off_from(node, f, less, greater),
    {
    }

    proof fn lemma_runs_off_end<R, F: Fn(&(u64, V)) -> R>(&self, node: usize, f: F, less: R, greater: R)
        requires
            node_at(self.tree@, node as int) is None,
        ensures
            self.runs_off_from(node, f, less, greater),
    {
    }

    proof fn lemma_walk_root(&self)
        ensures
            self.walk_ok(1),
    {
        lemma_path_root(self.tree@);
    }

    proof fn lemma_walk_child(&self, node: usize, c: usize)
        requires
            self.walk_ok(node),
            node_at(self.tree@, node as int) is Some,
            c == 2 * node || c == 2 * node + 1,
        ensures
            self.walk_ok(c),
            self.walk_left(c) < self.walk_left(node),
    {
        lemma_path_child(self.tree@, node as int, c as int);
    }

    proof fn lemma_found(&self, j: usize)
        requires
            self.found_at(j),
        ensures
            0 <= self.rank_at(j) < self.items().len(),
            self.items()[self.rank_at(j)] == self.entry_at(j),
            self.items().contains(self.entry_at(j)),
    {
        lemma_rank_entry(self.tree@, j as int);
    }

    /// In a tree whose keys increase, a search steered by a comparator that answers as `key`
    /// compares with an entry's key runs off the tree only where no entry has the key `key`.
    pub proof fn lemma_misses_absent<F: Fn(&(u64, V)) -> Ordering>(&self, f: F, key: u64)
        requires
            self.wf(),
            sorted_keys(self.items()),
            forall|e: (u64, V), o: Ordering| #[trigger] f.ensures((&e,), o) ==> o == key_order(key, e.0),
            self.misses_with(f),
        ensures
            forall|i: int| 0 <= i < self.items().len() ==> self.items()[i].0 != key,
    {
        let answers = |e: (u64, V), o: Ordering| f.ensures((&e,), o);
        assert forall|e: (u64, V), o: Ordering| #[trigger] answers(e, o) implies (o == Ordering::Less
            ==> key < e.0) && (o == Ordering::Greater ==> key > e.0) by {
            assert(f.ensures((&e,), o));
        }
        lemma_runs_off_absent(self.tree@, 1, answers, Ordering::Less, Ordering::Greater, key);
    }

    /// In a tree whose keys increase, a search steered by a comparator that answers as `key`
    /// compares with an entry's key cannot run off the tree where an entry has the key: so
    /// `search_with` finds an entry for every key that an insert put there.
    pub proof fn lemma_present_not_missed<F: Fn(&(u64, V)) -> Ordering>(&self, f: F, key: u64)
        requires
            self.wf(),
            sorted_keys(self.items()),
            forall|e: (u64, V), o: Ordering| #[trigger] f.ensures((&e,), o) ==> o == key_order(key, e.0),
            has_key(self.items(), key),
        ensures
            !self.misses_with(f),
    {
        if self.misses_with(f) {
            self.lemma_misses_absent(f, key);
            let j = choose|j: int| 0 <= j < self.items().len() && #[trigger] self.items()[j].0 == key;
            assert(self.items()[j].0 != key);
        }
    }

    /// Walks down from the root, steered by `f`, to an entry for which it gives `Equal`.
    fn find_with<F: Fn(&(u64, V)) -> Ordering>(&self, f: F) -> (r: Option<usize>)
        requires
            self.wf(),
            forall|e: (u64, V)| #[trigger] f.requires((&e,)),
        ensures
            r matches Some(j) ==> self.found_at(j) && f.ensures((&self.entry_at(j),), Ordering::Equal),
            r is None ==> self.misses_with(f),
    {
        let mut node: usize = ROOT;
        proof {
            self.lemma_walk_root();
        }
        while self.is_valid(node)
            invariant
                self.wf(),
                self.walk_ok(node),
                forall|e: (u64, V)| #[trigger] f.requires((&e,)),
                self.runs_off_from(node, f, Ordering::Less, Ordering::Greater) ==> self.misses_with(f),
            decreases self.walk_left(node),
        {
            let e = self.tree[node].as_ref().unwrap();
            let o = f(e);
            match o {
                Ordering::Less => {
                    let c = left(node);
                    proof {
                        self.lemma_walk_child(node, c);
                        self.lemma_runs_off_step(node, c, f, Ordering::Less, Ordering::Greater, o);
                    }
                    node = c;
                },
                Ordering::Greater => {
                    let c = right(node);
                    proof {
                        self.lemma_walk_child(node, c);
                        self.lemma_runs_off_step(node, c, f, Ordering::Less, Ordering::Greater, o);
                    }
                    node = c;
                },
                Ordering::Equal => {
                    return Some(node);
                },
            }
        }
        proof {
            self.lemma_runs_off_end(node, f, Ordering::Less, Ordering::Greater);
        }
        None
    }

    /// The entry that the search steered by `f` meets, if any: `f` compares what is sought
    /// with an entry, `Less` sending the search to smaller keys and `Greater` to larger ones,
    /// and `Equal` ends it.
    pub fn search_with<F: Fn(&(u64, V)) -> Ordering>(&self, f: F) -> (r: Option<&(u64, V)>)
        requires
            self.wf(),
            forall|e: (u64, V)| #[trigger] f.requires((&e,)),
        ensures
            r matches Some(e) ==> self.items().contains(*e) && f.ensures((e,), Ordering::Equal),
            r is None ==> self.misses_with(f),
    {
        match self.find_with(f) {
            Some(j) => {
                proof {
                    self.lemma_found(j);
                }
                self.tree[j].as_ref()
            },
            None => None,
        }
    }

    /// The value of the entry that the search steered by `f` meets, to change in place, if
    /// any; its key stays.
    pub fn search_with_mut<F: Fn(&(u64, V)) -> Ordering>(&mut self, f: F) -> (r: Option<&mut V>)
        requires
            old(self).wf(),
            forall|e: (u64, V)| #[trigger] f.requires((&e,)),
        ensures
            final(self).wf(),
            final(self).alpha() == old(self).alpha(),
            r is None ==> *final(self) == *old(self),
            r matches Some(v) ==> exists|i: int|
                0 <= i < old(self).items().len() && old(self).items()[i].1 == *v && f.ensures(
                    (&old(self).items()[i],),
                    Ordering::Equal,
                ) && final(self).items() == old(self).items().update(
                    i,
                    (old(self).items()[i].0, *final(v)),
                ),
            r is None ==> old(self).misses_with(f),
    {
        match self.find_with(f) {
            Some(j) => {
                proof {
                    self.lemma_found(j);
                }
                let ghost i = self.rank_at(j);
                let v = self.value_at_mut(j);
                proof {
                    assert(old(self).items()[i].1 == *v);
                }
                Some(v)
            },
            None => None,
        }
    }

    /// Removes the entry that the search steered by `f` meets, if any, and returns it; the
    /// other entries keep their order.
    pub fn delete_with<F: Fn(&(u64, V)) -> Ordering>(&mut self, f: F) -> (r: Option<(u64, V)>)
        requires
            old(self).wf(),
            forall|e: (u64, V)| #[trigger] f.requires((&e,)),
        ensures
            final(self).wf(),
            final(self).alpha() == old(self).alpha(),
            r is None ==> *final(self) == *old(self),
            r matches Some(e) ==> f.ensures((&e,), Ordering::Equal) && exists|i: int|
                0 <= i < old(self).items().len() && old(self).items()[i] == e
                    && final(self).items() == old(self).items().remove(i),
            r is None ==> old(self).misses_with(f),
            sorted_keys(old(self).items()) ==> sorted_keys(final(self).items()),
    {
        match self.find_with(f) {
            Some(j) => {
                proof {
                    self.lemma_found(j);
                }
                let ghost i = self.rank_at(j);
                let e = self.remove_at(j);
                proof {
                    assert(old(self).items()[i] == e);
                }
                Some(e)
            },
            None => None,
        }
    }
}

/// The root has no node above it.
proof fn lemma_path_root<V>(t: Seq<Option<(u64, V)>>)
    ensures
        path_full(t, 1),
{
    assert forall|a: int| #[trigger] desc(1, a) && a != 1 implies node_at(t, a) is Some by {
        lemma_desc_ge(1, a);
    }
}

/// Below an entry whose path is full, the path of its child is full.
proof fn lemma_path_child<V>(t: Seq<Option<(u64, V)>>, a: int, c: int)
    requires
        a >= 1,
        c == 2 * a || c == 2 * a + 1,
        path_full(t, a),
        node_at(t, a) is Some,
    ensures
        path_full(t, c),
{
    assert forall|b: int| #[trigger] desc(c, b) && b != c implies node_at(t, b) is Some by {
        assert(c / 2 == a);
        assert(desc(a, b));
    }
}

/// The absence of orphans below the root holds in every subtree.
proof fn lemma_local_sub<V>(t: Seq<Option<(u64, V)>>, s: int)
    requires
        s >= 1,
        local_no_orphans(t, 1),
    ensures
        local_no_orphans(t, s),
{
    assert forall|j: int|
        #[trigger] desc(j, s) && j != s && node_at(t, j) is Some implies node_at(t, j / 2) is Some by {
        lemma_desc_ge(j, s);
        lemma_desc_root(j);
    }
}

/// Putting an entry into an empty slot below a full path inserts it into the walk from the
/// root at the slot's place, and leaves no orphans.
proof fn lemma_put_slot<V>(t: Seq<Option<(u64, V)>>, t2: Seq<Option<(u64, V)>>, s: int, e: (u64, V))
    requires
        s >= 1,
        node_at(t, s) is None,
        path_full(t, s),
        local_no_orphans(t, 1),
        node_at(t, 0) is None,
        forall|j: int|
            #![trigger node_at(t2, j)]
            node_at(t2, j) == if j == s {
                Some(e)
            } else {
                node_at(t, j)
            },
    ensures
        inorder(t, 1) == around(t, s).0 + around(t, s).1,
        inorder(t2, 1) == around(t, s).0 + seq![e] + around(t, s).1,
        inorder(t2, s) == seq![e],
        path_full(t2, s),
        local_no_orphans(t2, 1),
        node_at(t2, 0) is None,
{
    lemma_local_sub(t, s);
    lemma_no_orphans_empty(t, s);
    assert(agree_outside(t, t2, s)) by {
        assert forall|j: int| !#[trigger] desc(j, s) implies node_at(t, j) == node_at(t2, j) by {
            if j == s {
                assert(desc(s, s));
            }
        }
    }
    assert forall|a: int| #[trigger] desc(s, a) && a != s implies node_at(t2, a) is Some by {
        assert(node_at(t, a) is Some);
    }
    lemma_around(t, s);
    lemma_around(t2, s);
    lemma_around_frame(t, t2, s);
    lemma_empty_inorder(t, s);
    assert(desc(2 * s, s)) by {
        assert(desc(s, s));
    }
    assert(desc(2 * s + 1, s)) by {
        assert(desc(s, s));
        assert((2 * s + 1) / 2 == s);
    }
    assert(node_at(t2, 2 * s) is None);
    assert(node_at(t2, 2 * s + 1) is None);
    lemma_empty_inorder(t2, 2 * s);
    lemma_empty_inorder(t2, 2 * s + 1);
    lemma_inorder_unfold(t2, s);
    assert(inorder(t2, s) =~= seq![e]);
    assert(local_no_orphans(t2, s)) by {
        assert forall|j: int|
            #[trigger] desc(j, s) && j != s && node_at(t2, j) is Some implies node_at(t2, j / 2) is Some by {
            assert(node_at(t, j) is None);
        }
    }
    if s > 1 {
        assert(desc(s, s / 2)) by {
            assert(desc(s / 2, s / 2));
        }
    }
    lemma_local_replace(t, t2, s);
    assert(node_at(t2, 0) == node_at(t, 0));
}

/// An index strictly below `a` lies below one of `a`'s children.
proof fn lemma_desc_split(j: int, a: int)
    requires
        desc(j, a),
        j != a,
    ensures
        desc(j, 2 * a) || desc(j, 2 * a + 1),
    decreases j,
{
    lemma_desc_ge(j, a);
    if j / 2 == a {
        assert(desc(j, j));
    } else {
        lemma_desc_split(j / 2, a);
        assert(desc(j, j / 2)) by {
            assert(desc(j / 2, j / 2));
        }
        if desc(j / 2, 2 * a) {
            lemma_desc_trans(j, j / 2, 2 * a);
        } else {
            lemma_desc_trans(j, j / 2, 2 * a + 1);
        }
    }
}

/// The halves of a range laid out below the children of `idx` stay below the bound of the
/// whole range laid out below `idx`.
proof fn lemma_half_bounds(idx: int, lo: int, hi: int)
    requires
        idx >= 1,
        0 <= lo <= hi,
    ensures
        (2 * idx + 1) * ((lo + hi) / 2 - lo) <= (idx + 1) * (hi - lo + 1),
        (2 * idx + 2) * (hi - (lo + hi) / 2) <= (idx + 1) * (hi - lo + 1),
        idx + 1 <= (idx + 1) * (hi - lo + 1),
{
    let m = (lo + hi) / 2;
    let n = hi - lo + 1;
    let a = m - lo;
    let b = hi - m;
    assert(2 * a <= n - 1);
    assert(2 * b <= n);
    assert((2 * idx + 1) * a <= (idx + 1) * (2 * a)) by (nonlinear_arith)
        requires
            idx >= 1,
            a >= 0,
    ;
    assert((idx + 1) * (2 * a) <= (idx + 1) * n) by (nonlinear_arith)
        requires
            idx >= 1,
            2 * a <= n,
    ;
    assert((2 * idx + 2) * b == (idx + 1) * (2 * b)) by (nonlinear_arith);
    assert((idx + 1) * (2 * b) <= (idx + 1) * n) by (nonlinear_arith)
        requires
            idx >= 1,
            2 * b <= n,
    ;
    assert(idx + 1 <= (idx + 1) * n) by (nonlinear_arith)
        requires
            idx >= 1,
            n >= 1,
    ;
}

/// The entries held by a run of slots.
pub open spec fn unwrap_all<V>(s: Seq<Option<(u64, V)>>) -> Seq<(u64, V)> {
    s.map_values(|o: Option<(u64, V)>| o->0)
}

/// The sibling of an entry below a full path has a full path too, and its subtree is part
/// of the walk from the root.
proof fn lemma_sibling_path<V>(t: Seq<Option<(u64, V)>>, node: int)
    requires
        node > 1,
        path_full(t, node),
    ensures
        ({
            let sib = if node % 2 == 0 {
                node + 1
            } else {
                node - 1
            };
            path_full(t, sib) && inorder(t, sib).len() <= inorder(t, 1).len()
        }),
{
    let p = node / 2;
    let sib = if node % 2 == 0 {
        node + 1
    } else {
        node - 1
    };
    assert(desc(node, p)) by {
        assert(desc(p, p));
    }
    assert forall|a: int| #[trigger] desc(p, a) && a != p implies node_at(t, a) is Some by {
        lemma_desc_trans(node, p, a);
        lemma_desc_ge(p, a);
    }
    assert(node_at(t, p) is Some);
    assert(sib / 2 == p);
    lemma_path_child(t, p, sib);
    lemma_around(t, sib);
}

/// The parent of an index below a full path holds an entry and has a full path.
proof fn lemma_path_parent<V>(t: Seq<Option<(u64, V)>>, c: int)
    requires
        c > 1,
        path_full(t, c),
    ensures
        path_full(t, c / 2),
        node_at(t, c / 2) is Some,
{
    let p = c / 2;
    assert(desc(c, p)) by {
        assert(desc(p, p));
    }
    assert forall|a: int| #[trigger] desc(p, a) && a != p implies node_at(t, a) is Some by {
        lemma_desc_trans(c, p, a);
        lemma_desc_ge(p, a);
    }
}

/// Changing the value of the entry at `j`, of rank `rank`, changes the walk from the root at
/// that rank only, and keeps the shape of the tree.
proof fn lemma_update_value<V>(t: Seq<Option<(u64, V)>>, j: int, rank: int, e: (u64, V))
    requires
        0 <= j < t.len(),
        j >= 1,
        node_at(t, j) is Some,
        path_full(t, j),
        around(t, j).0.len() + inorder(t, 2 * j).len() == rank,
        local_no_orphans(t, 1),
        node_at(t, 0) is None,
    ensures
        inorder(t.update(j, Some(e)), 1) == inorder(t, 1).update(rank, e),
        local_no_orphans(t.update(j, Some(e)), 1),
        node_at(t.update(j, Some(e)), 0) is None,
{
    let t2 = t.update(j, Some(e));
    assert(agree_outside(t, t2, j)) by {
        assert forall|i: int| !#[trigger] desc(i, j) implies node_at(t, i) == node_at(t2, i) by {
            if i == j {
                assert(desc(j, j));
            }
        }
    }
    assert(desc(2 * j, j)) by {
        assert(desc(j, j));
    }
    assert(desc(2 * j + 1, j)) by {
        assert(desc(j, j));
        assert((2 * j + 1) / 2 == j);
    }
    assert(agree_within(t, t2, 2 * j)) by {
        assert forall|i: int| #[trigger] desc(i, 2 * j) implies node_at(t, i) == node_at(t2, i) by {
            lemma_desc_ge(i, 2 * j);
        }
    }
    assert(agree_within(t, t2, 2 * j + 1)) by {
        assert forall|i: int| #[trigger] desc(i, 2 * j + 1) implies node_at(t, i) == node_at(t2, i) by {
            lemma_desc_ge(i, 2 * j + 1);
        }
    }
    lemma_agree_inorder(t, t2, 2 * j);
    lemma_agree_inorder(t, t2, 2 * j + 1);
    assert forall|a: int| #[trigger] desc(j, a) && a != j implies node_at(t2, a) is Some by {
        assert(node_at(t, a) is Some);
    }
    lemma_around(t, j);
    lemma_around(t2, j);
    lemma_around_frame(t, t2, j);
    lemma_inorder_unfold(t, j);
    lemma_inorder_unfold(t2, j);
    let (pre, post) = around(t, j);
    let lo = inorder(t, 2 * j);
    let hi = inorder(t, 2 * j + 1);
    assert(inorder(t2, 1) =~= (pre + lo + seq![node_at(t, j)->0] + hi + post).update(rank, e));
    assert(inorder(t, 1) =~= pre + lo + seq![node_at(t, j)->0] + hi + post);
    assert forall|i: int|
        #[trigger] desc(i, 1) && i != 1 && node_at(t2, i) is Some implies node_at(t2, i / 2) is Some by {
        assert(node_at(t, i) is Some);
    }
}

/// Whether a subtree is laid out balanced depends only on the entries in it.
proof fn lemma_laid_out_frame<V>(t1: Seq<Option<(u64, V)>>, t2: Seq<Option<(u64, V)>>, a: int, s: Seq<(u64, V)>)
    requires
        a >= 1,
        agree_within(t1, t2, a),
        laid_out(t1, a, s),
    ensures
        laid_out(t2, a, s),
    decreases s.len(),
{
    assert(desc(a, a)) by {
        lemma_desc_self(a);
    }
    if s.len() > 0 {
        let m = (s.len() - 1) / 2;
        assert(agree_within(t1, t2, 2 * a)) by {
            assert forall|j: int| #[trigger] desc(j, 2 * a) implies node_at(t1, j) == node_at(t2, j) by {
                lemma_desc_child(j, a);
            }
        }
        assert(agree_within(t1, t2, 2 * a + 1)) by {
            assert forall|j: int| #[trigger] desc(j, 2 * a + 1) implies node_at(t1, j) == node_at(t2, j) by {
                lemma_desc_child(j, a);
            }
        }
        lemma_laid_out_frame(t1, t2, 2 * a, s.take(m));
        lemma_laid_out_frame(t1, t2, 2 * a + 1, s.skip(m + 1));
    }
}

/// An entry at `idx` with the entries before it laid out below the left child and those
/// after it below the right child, as many before as the median leaves, is a balanced layout.
proof fn lemma_laid_out_join<V>(
    t: Seq<Option<(u64, V)>>,
    idx: int,
    seg: Seq<(u64, V)>,
    v: (u64, V),
    lseg: Seq<(u64, V)>,
    rseg: Seq<(u64, V)>,
)
    requires
        node_at(t, idx) == Some(v),
        seg == lseg + seq![v] + rseg,
        lseg.len() == (seg.len() - 1) / 2,
        laid_out(t, 2 * idx, lseg),
        laid_out(t, 2 * idx + 1, rseg),
    ensures
        laid_out(t, idx, seg),
{
    let m = (seg.len() - 1) / 2;
    assert(seg[m] == v);
    assert(seg.take(m) =~= lseg);
    assert(seg.skip(m + 1) =~= rseg);
}

/// An entry put between entries whose keys are smaller and entries whose keys are larger
/// keeps them ordered, and its key was not among them.
proof fn lemma_insert_between<V>(items: Seq<(u64, V)>, pre: Seq<(u64, V)>, post: Seq<(u64, V)>, e: (u64, V))
    requires
        items == pre + post,
        sorted_keys(items) ==> (forall|k: int| 0 <= k < pre.len() ==> #[trigger] pre[k].0 < e.0),
        sorted_keys(items) ==> (forall|k: int| 0 <= k < post.len() ==> #[trigger] post[k].0 > e.0),
    ensures
        items.insert(pre.len() as int, e) == pre + seq![e] + post,
        sorted_keys(items) ==> sorted_keys(items.insert(pre.len() as int, e)),
        sorted_keys(items) ==> forall|i: int| 0 <= i < items.len() ==> items[i].0 != e.0,
{
    let n2 = items.insert(pre.len() as int, e);
    assert(n2 =~= pre + seq![e] + post);
    if sorted_keys(items) {
        assert forall|i: int, j: int| 0 <= i < j < n2.len() implies n2[i].0 < n2[j].0 by {
            if j < pre.len() {
                assert(n2[i] == items[i] && n2[j] == items[j]);
            } else if j == pre.len() {
                assert(n2[i] == pre[i]);
            } else if i < pre.len() {
                assert(n2[i] == pre[i]);
                assert(n2[j] == post[j - pre.len() - 1]);
            } else if i == pre.len() {
                assert(n2[j] == post[j - pre.len() - 1]);
            } else {
                assert(n2[i] == items[i - 1] && n2[j] == items[j - 1]);
            }
        }
        assert forall|i: int| 0 <= i < items.len() implies items[i].0 != e.0 by {
            if i < pre.len() {
                assert(items[i] == pre[i]);
            } else {
                assert(items[i] == post[i - pre.len()]);
            }
        }
    }
}

/// In a subtree whose keys increase, a search that runs off the tree, answering `less` only
/// where `key` is smaller than the entry's key and `greater` only where it is larger, passes
/// no entry with the key `key`: the subtree holds none.
proof fn lemma_runs_off_absent<V, R>(
    t: Seq<Option<(u64, V)>>,
    i: int,
    answers: spec_fn((u64, V), R) -> bool,
    less: R,
    greater: R,
    key: u64,
)
    requires
        sorted_keys(inorder(t, i)),
        search_runs_off(t, i, answers, less, greater),
        forall|e: (u64, V), o: R|
            #[trigger] answers(e, o) ==> (o == less ==> key < e.0) && (o == greater ==> key > e.0),
    ensures
        forall|k: int| 0 <= k < inorder(t, i).len() ==> inorder(t, i)[k].0 != key,
    decreases walk_measure(t.len() as int, i),
{
    lemma_inorder_unfold(t, i);
    if i >= 1 && node_at(t, i) is Some {
        let e = node_at(t, i)->0;
        let l = inorder(t, 2 * i);
        let r = inorder(t, 2 * i + 1);
        let s = inorder(t, i);
        assert(s == l + seq![e] + r);
        assert(s[l.len() as int] == e);
        assert(sorted_keys(l)) by {
            assert forall|a: int, b: int| 0 <= a < b < l.len() implies l[a].0 < l[b].0 by {
                assert(s[a] == l[a] && s[b] == l[b]);
            }
        }
        assert(sorted_keys(r)) by {
            assert forall|a: int, b: int| 0 <= a < b < r.len() implies r[a].0 < r[b].0 by {
                assert(s[l.len() + 1 + a] == r[a] && s[l.len() + 1 + b] == r[b]);
            }
        }
        if answers(e, less) && search_runs_off(t, 2 * i, answers, less, greater) {
            lemma_runs_off_absent(t, 2 * i, answers, less, greater, key);
            assert forall|k: int| 0 <= k < s.len() implies s[k].0 != key by {
                if k > l.len() {
                    assert(s[k] == r[k - l.len() - 1]);
                } else if k < l.len() {
                    assert(s[k] == l[k]);
                }
            }
        } else {
            lemma_runs_off_absent(t, 2 * i + 1, answers, less, greater, key);
            assert forall|k: int| 0 <= k < s.len() implies s[k].0 != key by {
                if k > l.len() {
                    assert(s[k] == r[k - l.len() - 1]);
                } else if k < l.len() {
                    assert(s[k] == l[k]);
                }
            }
        }
    }
}

/// Arrays of the same shape walk to sequences of the same length.
proof fn lemma_shape_inorder_len<V>(t1: Seq<Option<(u64, V)>>, t2: Seq<Option<(u64, V)>>, a: int)
    requires
        same_shape(t1, t2),
    ensures
        inorder(t1, a).len() == inorder(t2, a).len(),
    decreases walk_measure(t1.len() as int, a),
{
    lemma_inorder_unfold(t1, a);
    lemma_inorder_unfold(t2, a);
    if a >= 1 && node_at(t1, a) is Some {
        assert(node_at(t2, a) is Some);
        lemma_shape_inorder_len(t1, t2, 2 * a);
        lemma_shape_inorder_len(t1, t2, 2 * a + 1);
    }
}

/// Arrays of the same shape have as many entries before and after each subtree.
proof fn lemma_shape_around_len<V>(t1: Seq<Option<(u64, V)>>, t2: Seq<Option<(u64, V)>>, s: int)
    requires
        same_shape(t1, t2),
    ensures
        around(t1, s).0.len() == around(t2, s).0.len(),
        around(t1, s).1.len() == around(t2, s).1.len(),
    decreases s,
{
    if s > 1 {
        let p = s / 2;
        lemma_shape_around_len(t1, t2, p);
        lemma_shape_inorder_len(t1, t2, 2 * p);
        lemma_shape_inorder_len(t1, t2, 2 * p + 1);
    }
}

/// The entry at `s` stands at its rank in the walk from the root.
proof fn lemma_rank_entry<V>(t: Seq<Option<(u64, V)>>, s: int)
    requires
        s >= 1,
        path_full(t, s),
        node_at(t, s) is Some,
    ensures
        0 <= rank_of(t, s) < inorder(t, 1).len(),
        inorder(t, 1)[rank_of(t, s)] == node_at(t, s)->0,
{
    lemma_around(t, s);
    lemma_inorder_unfold(t, s);
    let (pre, post) = around(t, s);
    let lo = inorder(t, 2 * s);
    let hi = inorder(t, 2 * s + 1);
    assert(inorder(t, 1) =~= pre + lo + seq![node_at(t, s)->0] + hi + post);
    assert(inorder(t, 1)[rank_of(t, s)] == (pre + lo + seq![node_at(t, s)->0] + hi + post)[(pre.len()
        + lo.len()) as int]);
}

/// Exchanging the entries at `x` and `q` exchanges them in the walk from the root, at their
/// ranks, and keeps the shape of the tree.
proof fn lemma_swap_entries<V>(t: Seq<Option<(u64, V)>>, x: int, q: int)
    requires
        1 <= x < t.len(),
        1 <= q < t.len(),
        x != q,
        node_at(t, x) is Some,
        node_at(t, q) is Some,
        path_full(t, x),
        path_full(t, q),
        local_no_orphans(t, 1),
        node_at(t, 0) is None,
    ensures
        inorder(t.update(x, t[q]).update(q, t[x]), 1) == inorder(t, 1).update(
            rank_of(t, x),
            t[q]->0,
        ).update(rank_of(t, q), t[x]->0),
        local_no_orphans(t.update(x, t[q]).update(q, t[x]), 1),
        node_at(t.update(x, t[q]).update(q, t[x]), 0) is None,
        same_shape(t, t.update(x, t[q]).update(q, t[x])),
{
    let ex = t[x]->0;
    let eq = t[q]->0;
    let t1 = t.update(x, Some(eq));
    lemma_update_value(t, x, rank_of(t, x), eq);
    assert(same_shape(t, t1));
    assert forall|a: int| #[trigger] desc(q, a) && a != q implies node_at(t1, a) is Some by {
        assert(node_at(t, a) is Some);
    }
    lemma_shape_around_len(t, t1, q);
    lemma_shape_inorder_len(t, t1, 2 * q);
    lemma_update_value(t1, q, rank_of(t, q), ex);
    let t2 = t1.update(q, Some(ex));
    assert(t2 =~= t.update(x, t[q]).update(q, t[x]));
    assert(same_shape(t, t2));
}

/// One insert by key into entries ordered by key: they stay ordered (so no key occurs
/// twice), the key is there afterwards, and the entries stay as they were when the key was
/// already there, and otherwise gain `(key, value)` at its place by key, one entry more.
pub proof fn lemma_insert_keeps_order<V>(a: Seq<(u64, V)>, b: Seq<(u64, V)>, key: u64, value: V)
    requires
        sorted_keys(a),
        insert_outcome(a, b, key, value),
    ensures
        sorted_keys(b),
        has_key(b, key),
        has_key(a, key) ==> b == a,
        !has_key(a, key) ==> b.len() == a.len() + 1 && inserted_in_order(a, b, key, value),
{
    if !has_key(a, key) {
        let pos = choose|pos: int| 0 <= pos <= a.len() && b == a.insert(pos, (key, value));
        lemma_sorted_insert_rank(a, pos, (key, value));
        assert(b[pos].0 == key);
    }
}

/// Any run of inserts by key into a new tree keeps its entries ordered by key, so that no
/// key occurs twice: `hist[0]` are the entries of the new tree and `hist[i + 1]` those after
/// inserting `(keys[i], values[i])`. Each inserted key is there afterwards; an insert of a
/// key that is already there changes nothing, and any other adds the entry at its place by
/// key.
pub proof fn lemma_inserts_keep_order<V>(hist: Seq<Seq<(u64, V)>>, keys: Seq<u64>, values: Seq<V>)
    requires
        hist.len() == keys.len() + 1,
        values.len() == keys.len(),
        hist[0] == Seq::<(u64, V)>::empty(),
        forall|i: int|
            0 <= i < keys.len() ==> insert_outcome(#[trigger] hist[i], hist[i + 1], keys[i], values[i]),
    ensures
        forall|k: int| 0 <= k < hist.len() ==> sorted_keys(#[trigger] hist[k]),
        forall|i: int|
            0 <= i < keys.len() ==> has_key(#[trigger] hist[i + 1], keys[i]) && (has_key(
                hist[i],
                keys[i],
            ) ==> hist[i + 1] == hist[i]) && (!has_key(hist[i], keys[i]) ==> hist[i + 1].len()
                == hist[i].len() + 1 && inserted_in_order(hist[i], hist[i + 1], keys[i], values[i])),
    decreases keys.len(),
{
    if keys.len() > 0 {
        let n = keys.len() - 1;
        let h0 = hist.drop_last();
        let k0 = keys.drop_last();
        let v0 = values.drop_last();
        assert forall|i: int| 0 <= i < k0.len() implies insert_outcome(
            #[trigger] h0[i],
            h0[i + 1],
            k0[i],
            v0[i],
        ) by {
            assert(h0[i] == hist[i] && h0[i + 1] == hist[i + 1] && k0[i] == keys[i] && v0[i]
                == values[i]);
            assert(insert_outcome(hist[i], hist[i + 1], keys[i], values[i]));
        }
        lemma_inserts_keep_order(h0, k0, v0);
        assert(h0[n] == hist[n]);
        assert(sorted_keys(hist[n]));
        assert(insert_outcome(hist[n], hist[n + 1], keys[n], values[n]));
        lemma_insert_keeps_order(hist[n], hist[n + 1], keys[n], values[n]);
        assert forall|k: int| 0 <= k < hist.len() implies sorted_keys(#[trigger] hist[k]) by {
            if k < h0.len() {
                assert(h0[k] == hist[k]);
            }
        }
        assert forall|i: int| 0 <= i < keys.len() implies has_key(#[trigger] hist[i + 1], keys[i])
            && (has_key(hist[i], keys[i]) ==> hist[i + 1] == hist[i]) && (!has_key(
            hist[i],
            keys[i],
        ) ==> hist[i + 1].len() == hist[i].len() + 1 && inserted_in_order(
            hist[i],
            hist[i + 1],
            keys[i],
            values[i],
        )) by {
            if i < n {
                assert(h0[i] == hist[i] && h0[i + 1] == hist[i + 1] && k0[i] == keys[i] && v0[i]
                    == values[i]);
            }
        }
    }
}

/// Taking an entry out of entries ordered by key leaves them ordered.
pub proof fn lemma_sorted_remove<V>(items: Seq<(u64, V)>, i: int)
    requires
        0 <= i < items.len(),
    ensures
        sorted_keys(items) ==> sorted_keys(items.remove(i)),
{
    if sorted_keys(items) {
        let n = items.remove(i);
        assert forall|a: int, b: int| 0 <= a < b < n.len() implies n[a].0 < n[b].0 by {
            let a0 = if a < i { a } else { a + 1 };
            let b0 = if b < i { b } else { b + 1 };
            assert(n[a] == items[a0] && n[b] == items[b0]);
        }
    }
}

/// In entries ordered by key, removing the entry that has the key of one just inserted gives
/// back the entries as they were: a delete by key undoes an insert of a key that was absent.
pub proof fn lemma_delete_undoes_insert<V>(items: Seq<(u64, V)>, pos: int, e: (u64, V), i: int)
    requires
        0 <= pos <= items.len(),
        sorted_keys(items.insert(pos, e)),
        0 <= i <= items.len(),
        items.insert(pos, e)[i].0 == e.0,
    ensures
        i == pos,
        items.insert(pos, e).remove(i) == items,
{
    let n = items.insert(pos, e);
    assert(n[pos] == e);
    if i != pos {
        assert(n[i].0 != n[pos].0);
    }
    assert(n.remove(i) =~= items);
}

/// After an entry is inserted at rank `r`, reading rank `r` gives it back, the entries
/// before keep their ranks and those after move one rank up.
pub proof fn lemma_get_after_insert_rank<V>(items: Seq<(u64, V)>, r: int, e: (u64, V))
    requires
        0 <= r <= items.len(),
    ensures
        items.insert(r, e)[r] == e,
        items.insert(r, e).len() == items.len() + 1,
        forall|i: int| 0 <= i < r ==> #[trigger] items.insert(r, e)[i] == items[i],
        forall|i: int| r < i <= items.len() ==> #[trigger] items.insert(r, e)[i] == items[i - 1],
{
}

/// In entries ordered by key, an entry inserted so that the order is kept gets as its rank
/// the number of smaller keys: all keys before it are smaller, all after it larger.
pub proof fn lemma_sorted_insert_rank<V>(items: Seq<(u64, V)>, pos: int, e: (u64, V))
    requires
        0 <= pos <= items.len(),
        sorted_keys(items.insert(pos, e)),
    ensures
        forall|i: int| 0 <= i < pos ==> #[trigger] items[i].0 < e.0,
        forall|i: int| pos <= i < items.len() ==> #[trigger] items[i].0 > e.0,
{
    let n = items.insert(pos, e);
    assert forall|i: int| 0 <= i < pos implies #[trigger] items[i].0 < e.0 by {
        assert(n[i] == items[i] && n[pos] == e);
    }
    assert forall|i: int| pos <= i < items.len() implies #[trigger] items[i].0 > e.0 by {
        assert(n[i + 1] == items[i] && n[pos] == e);
    }
}

} // verus!
