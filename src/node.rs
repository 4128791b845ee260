//! The tree cell and the algorithms on it: lookup, insertion with rotations, removal by
//! rotating a node down to a leaf.
use vstd::prelude::*;
use vstd::std_specs::cmp::OrdSpec;
use core::cmp::Ordering;
use crate::order::{lemma_order_laws, lt, total_order};

verus! {

/// A tree cell. It owns its two subtrees.
#[derive(Debug)]
pub struct Node<K, V> {
    pub key: K,
    pub value: V,
    pub priority: u64,
    pub left: Option<Box<Node<K, V>>>,
    pub right: Option<Box<Node<K, V>>>,
}

/// The entries held by a subtree slot.
pub open spec fn link_map<K, V>(t: Option<Box<Node<K, V>>>) -> Map<K, V>
    decreases t,
{
    match t {
        None => Map::empty(),
        Some(n) => link_map(n.left).union_prefer_right(link_map(n.right)).insert(n.key, n.value),
    }
}

/// The priority of each key held by a subtree slot.
pub open spec fn link_prios<K, V>(t: Option<Box<Node<K, V>>>) -> Map<K, u64>
    decreases t,
{
    match t {
        None => Map::empty(),
        Some(n) => link_prios(n.left).union_prefer_right(link_prios(n.right)).insert(n.key, n.priority),
    }
}

/// The priority that key `k` holds after an insertion with priority `p` into a tree whose
/// priorities are `m`: a stored priority is never lowered.
pub open spec fn raised_prio<K>(m: Map<K, u64>, k: K, p: u64) -> u64 {
    if m.dom().contains(k) && m[k] > p {
        m[k]
    } else {
        p
    }
}

/// The larger of two priorities.
pub open spec fn max_prio(a: u64, b: u64) -> u64 {
    if a >= b {
        a
    } else {
        b
    }
}

/// The priorities and the entries of a subtree slot have the same keys.
pub proof fn lemma_prios_dom<K, V>(t: Option<Box<Node<K, V>>>)
    ensures
        link_prios(t).dom() == link_map(t).dom(),
    decreases t,
{
    match t {
        None => {
            assert(link_prios(t).dom() =~= link_map(t).dom());
        },
        Some(n) => {
            lemma_prios_dom(n.left);
            lemma_prios_dom(n.right);
            assert(link_prios(t).dom() =~= link_map(t).dom());
        },
    }
}

/// The subtree slot with the value under `k` replaced by `v`, found by descending along the
/// key order; every key, priority and link stays.
pub open spec fn link_with_value<K: Ord, V>(t: Option<Box<Node<K, V>>>, k: K, v: V) -> Option<Box<Node<K, V>>>
    decreases t,
{
    match t {
        None => None,
        Some(n) => if n.key == k {
            Some(Box::new(Node { key: n.key, value: v, priority: n.priority, left: n.left, right: n.right }))
        } else if lt(k, n.key) {
            Some(Box::new(Node { key: n.key, value: n.value, priority: n.priority, left: link_with_value(n.left, k, v), right: n.right }))
        } else {
            Some(Box::new(Node { key: n.key, value: n.value, priority: n.priority, left: n.left, right: link_with_value(n.right, k, v) }))
        },
    }
}

/// Replacing a value keeps every priority.
pub proof fn lemma_with_value_prios<K: Ord, V>(t: Option<Box<Node<K, V>>>, k: K, v: V)
    ensures
        link_prios(link_with_value(t, k, v)) == link_prios(t),
    decreases t,
{
    match t {
        None => {},
        Some(n) => {
            lemma_with_value_prios(n.left, k, v);
            lemma_with_value_prios(n.right, k, v);
            assert(link_prios(link_with_value(t, k, v)) =~= link_prios(t));
        },
    }
}

/// The number of cells in a subtree slot.
pub open spec fn link_count<K, V>(t: Option<Box<Node<K, V>>>) -> nat
    decreases t,
{
    match t {
        None => 0,
        Some(n) => link_count(n.left) + link_count(n.right) + 1,
    }
}

/// Every key on the left of a cell is smaller than its key, every key on its right larger.
pub open spec fn link_bst<K: Ord, V>(t: Option<Box<Node<K, V>>>) -> bool
    decreases t,
{
    match t {
        None => true,
        Some(n) => {
            &&& forall|k: K| #[trigger] link_map(n.left).dom().contains(k) ==> lt(k, n.key)
            &&& forall|k: K| #[trigger] link_map(n.right).dom().contains(k) ==> lt(n.key, k)
            &&& link_bst(n.left)
            &&& link_bst(n.right)
        },
    }
}

/// The subtree slot is empty, or its top cell has a priority of at most `p`.
pub open spec fn prio_le<K, V>(t: Option<Box<Node<K, V>>>, p: u64) -> bool {
    match t {
        None => true,
        Some(n) => n.priority <= p,
    }
}

/// No cell has a priority above that of its parent.
pub open spec fn link_heap<K, V>(t: Option<Box<Node<K, V>>>) -> bool
    decreases t,
{
    match t {
        None => true,
        Some(n) => {
            &&& prio_le(n.left, n.priority)
            &&& prio_le(n.right, n.priority)
            &&& link_heap(n.left)
            &&& link_heap(n.right)
        },
    }
}

/// A well-formed treap: a search tree over the keys and a max-heap over the priorities.
pub open spec fn link_wf<K: Ord, V>(t: Option<Box<Node<K, V>>>) -> bool {
    link_bst(t) && link_heap(t)
}

/// The entries of a subtree slot in key order (an in-order walk).
pub open spec fn in_order<K, V>(t: Option<Box<Node<K, V>>>) -> Seq<(K, V)>
    decreases t,
{
    match t {
        None => Seq::empty(),
        Some(n) => in_order(n.left) + seq![(n.key, n.value)] + in_order(n.right),
    }
}

/// The entries of a subtree slot in the order a work-list walk gives them: the cell, then
/// its right subtree, then its left one.
pub open spec fn walk_order<K, V>(t: Option<Box<Node<K, V>>>) -> Seq<(K, V)>
    decreases t,
{
    match t {
        None => Seq::empty(),
        Some(n) => seq![(n.key, n.value)] + walk_order(n.right) + walk_order(n.left),
    }
}

/// The value that `m` held under `k` before an insertion or a removal.
pub open spec fn previous<K, V>(m: Map<K, V>, k: K) -> Option<V> {
    if m.dom().contains(k) {
        Some(m[k])
    } else {
        None
    }
}

/// What an insertion with priority `p` does to the top of a subtree: into an empty slot it
/// puts a leaf with priority `p`; otherwise the top priority becomes the larger of the old
/// top priority and `p`, and both children of the new top stay at or below the old top
/// priority.
pub open spec fn raised<K, V>(before: Option<Box<Node<K, V>>>, after: Node<K, V>, p: u64) -> bool {
    match before {
        None => after.priority == p && after.left is None && after.right is None,
        Some(o) => {
            &&& after.priority == max_prio(o.priority, p)
            &&& prio_le(after.left, o.priority)
            &&& prio_le(after.right, o.priority)
        },
    }
}

/// The top of the slot `after` holds the priority of one of the children of `before`.
pub open spec fn promoted_child<K, V>(before: Node<K, V>, after: Option<Box<Node<K, V>>>) -> bool {
    match after {
        None => true,
        Some(a) => {
            ||| (before.left matches Some(l) && a.priority == l.priority)
            ||| (before.right matches Some(r) && a.priority == r.priority)
        },
    }
}

/// Which cell comes up when the top cell `before` is rotated away: the left child when the
/// right one is absent or has no higher priority, else the right child; an empty slot when
/// there are no children. The child that comes up keeps its outer subtree.
pub open spec fn rotated_towards<K, V>(before: Node<K, V>, after: Option<Box<Node<K, V>>>) -> bool {
    match (before.left, before.right) {
        (None, None) => after is None,
        (Some(l), None) => after matches Some(f) && f.key == l.key && f.priority == l.priority && f.left == l.left,
        (None, Some(r)) => after matches Some(f) && f.key == r.key && f.priority == r.priority && f.right == r.right,
        (Some(l), Some(r)) => if r.priority <= l.priority {
            after matches Some(f) && f.key == l.key && f.priority == l.priority && f.left == l.left
        } else {
            after matches Some(f) && f.key == r.key && f.priority == r.priority && f.right == r.right
        },
    }
}

/// The top priority of the slot `after` is at most that of the slot `before`.
pub open spec fn top_le<K, V>(after: Option<Box<Node<K, V>>>, before: Option<Box<Node<K, V>>>) -> bool {
    match after {
        None => true,
        Some(a) => match before {
            None => false,
            Some(b) => a.priority <= b.priority,
        },
    }
}

/// Which step takes a cell that is to be removed one level further down.
enum RemovalCases {
    RemoveNode,
    RotateLeft,
    RotateRight,
}

impl<K, V> Node<K, V> {
    /// The slot that holds this cell alone, with its subtrees.
    pub open spec fn link(self) -> Option<Box<Node<K, V>>> {
        Some(Box::new(self))
    }

    /// The cell after a right rotation: its left child comes up, and it becomes that
    /// child's right child.
    pub open spec fn rotated_right(self) -> Node<K, V>
        recommends
            self.left is Some,
    {
        let p = self.left.unwrap();
        Node {
            key: p.key,
            value: p.value,
            priority: p.priority,
            left: p.left,
            right: Some(
                Box::new(
                    Node {
                        key: self.key,
                        value: self.value,
                        priority: self.priority,
                        left: p.right,
                        right: self.right,
                    },
                ),
            ),
        }
    }

    /// The cell after a left rotation: the mirror image of a right rotation.
    pub open spec fn rotated_left(self) -> Node<K, V>
        recommends
            self.right is Some,
    {
        let q = self.right.unwrap();
        Node {
            key: q.key,
            value: q.value,
            priority: q.priority,
            left: Some(
                Box::new(
                    Node {
                        key: self.key,
                        value: self.value,
                        priority: self.priority,
                        left: self.left,
                        right: q.left,
                    },
                ),
            ),
            right: q.right,
        }
    }
}

/// Looking a key up in a search tree: it is at the top, or on the side that the order
/// points to, and never on the other side.
pub proof fn lemma_lookup_side<K: Ord, V>(n: Node<K, V>, key: K)
    requires
        total_order::<K>(),
        link_bst(n.link()),
    ensures
        lt(key, n.key) ==> (link_map(n.link()).dom().contains(key) == link_map(n.left).dom().contains(key)
            && (link_map(n.left).dom().contains(key) ==> link_map(n.link())[key] == link_map(n.left)[key])),
        lt(n.key, key) ==> (link_map(n.link()).dom().contains(key) == link_map(n.right).dom().contains(key)
            && (link_map(n.right).dom().contains(key) ==> link_map(n.link())[key] == link_map(n.right)[key])),
        !link_map(n.left).dom().contains(n.key),
        !link_map(n.right).dom().contains(n.key),
{
    lemma_order_laws::<K>();
    if lt(key, n.key) && link_map(n.right).dom().contains(key) {
        assert(lt(n.key, key));
    }
    if lt(n.key, key) && link_map(n.left).dom().contains(key) {
        assert(lt(key, n.key));
    }
    if link_map(n.left).dom().contains(n.key) {
        assert(lt(n.key, n.key));
    }
    if link_map(n.right).dom().contains(n.key) {
        assert(lt(n.key, n.key));
    }
}

/// A right rotation keeps the entries and the search order.
pub proof fn lemma_rotate_right<K: Ord, V>(n: Node<K, V>)
    requires
        total_order::<K>(),
        n.left is Some,
        link_bst(n.link()),
    ensures
        link_map(n.rotated_right().link()) == link_map(n.link()),
        link_prios(n.rotated_right().link()) == link_prios(n.link()),
        link_bst(n.rotated_right().link()),
        link_count(n.rotated_right().link()) == link_count(n.link()),
{
    lemma_order_laws::<K>();
    reveal_with_fuel(link_bst, 2);
    reveal_with_fuel(link_map, 2);
    reveal_with_fuel(link_count, 3);
    reveal_with_fuel(link_prios, 2);
    let p = n.left.unwrap();
    let r = n.rotated_right();
    let q = r.right.unwrap();
    lemma_lookup_side(*p, n.key);
    lemma_lookup_side(n, p.key);
    assert(link_map(n.left).dom().contains(p.key));
    assert(lt(p.key, n.key));
    assert forall|k: K| #[trigger] link_map(q.left).dom().contains(k) implies lt(k, q.key) by {
        assert(link_map(n.left).dom().contains(k));
    }
    assert forall|k: K| #[trigger] link_map(r.right).dom().contains(k) implies lt(r.key, k) by {
        if link_map(q.left).dom().contains(k) {
        } else if link_map(q.right).dom().contains(k) {
            assert(lt(n.key, k));
        }
    }
    lemma_prios_dom(p.left);
    lemma_prios_dom(p.right);
    lemma_prios_dom(n.right);
    assert(link_prios(r.link()) =~= link_prios(n.link())) by {
        assert forall|k: K| link_map(q.left).dom().contains(k) implies !link_map(n.right).dom().contains(k) by {
            assert(lt(k, n.key));
        }
        assert forall|k: K| link_map(p.left).dom().contains(k) implies !link_map(n.right).dom().contains(k)
            && !link_map(p.right).dom().contains(k) by {
            assert(lt(k, p.key));
            assert(lt(k, n.key));
        }
    }
    assert(link_map(r.link()) =~= link_map(n.link())) by {
        assert forall|k: K| link_map(q.left).dom().contains(k) implies !link_map(n.right).dom().contains(k) by {
            assert(lt(k, n.key));
        }
        assert forall|k: K| link_map(p.left).dom().contains(k) implies !link_map(n.right).dom().contains(k)
            && !link_map(p.right).dom().contains(k) by {
            assert(lt(k, p.key));
            assert(lt(k, n.key));
        }
    }
}

/// A left rotation keeps the entries and the search order.
pub proof fn lemma_rotate_left<K: Ord, V>(n: Node<K, V>)
    requires
        total_order::<K>(),
        n.right is Some,
        link_bst(n.link()),
    ensures
        link_map(n.rotated_left().link()) == link_map(n.link()),
        link_prios(n.rotated_left().link()) == link_prios(n.link()),
        link_bst(n.rotated_left().link()),
        link_count(n.rotated_left().link()) == link_count(n.link()),
{
    lemma_order_laws::<K>();
    reveal_with_fuel(link_bst, 2);
    reveal_with_fuel(link_map, 2);
    reveal_with_fuel(link_count, 3);
    reveal_with_fuel(link_prios, 2);
    let q = n.right.unwrap();
    let r = n.rotated_left();
    let p = r.left.unwrap();
    lemma_lookup_side(*q, n.key);
    lemma_lookup_side(n, q.key);
    assert(link_map(n.right).dom().contains(q.key));
    assert(lt(n.key, q.key));
    assert forall|k: K| #[trigger] link_map(p.right).dom().contains(k) implies lt(p.key, k) by {
        assert(link_map(n.right).dom().contains(k));
    }
    assert forall|k: K| #[trigger] link_map(r.left).dom().contains(k) implies lt(k, r.key) by {
        if link_map(p.right).dom().contains(k) {
        } else if link_map(p.left).dom().contains(k) {
            assert(lt(k, n.key));
        }
    }
    lemma_prios_dom(q.left);
    lemma_prios_dom(q.right);
    lemma_prios_dom(n.left);
    assert(link_prios(r.link()) =~= link_prios(n.link())) by {
        assert forall|k: K| link_map(p.right).dom().contains(k) implies !link_map(n.left).dom().contains(k) by {
            assert(lt(n.key, k));
        }
        assert forall|k: K| link_map(q.right).dom().contains(k) implies !link_map(n.left).dom().contains(k)
            && !link_map(q.left).dom().contains(k) by {
            assert(lt(q.key, k));
            assert(lt(n.key, k));
        }
    }
    assert(link_map(r.link()) =~= link_map(n.link())) by {
        assert forall|k: K| link_map(p.right).dom().contains(k) implies !link_map(n.left).dom().contains(k) by {
            assert(lt(n.key, k));
        }
        assert forall|k: K| link_map(q.right).dom().contains(k) implies !link_map(n.left).dom().contains(k)
            && !link_map(q.left).dom().contains(k) by {
            assert(lt(q.key, k));
            assert(lt(n.key, k));
        }
    }
}

/// Under heap order no priority in a subtree is above that of its top cell, and the top
/// cell's key carries its own priority.
pub proof fn lemma_top_is_max<K, V>(n: Node<K, V>)
    requires
        link_heap(n.link()),
    ensures
        forall|k: K| #[trigger] link_prios(n.link()).dom().contains(k) ==> link_prios(n.link())[k] <= n.priority,
        link_prios(n.link()).dom().contains(n.key),
        link_prios(n.link())[n.key] == n.priority,
    decreases n,
{
    if let Some(l) = n.left {
        lemma_top_is_max(*l);
        assert(l.link() == n.left);
    }
    if let Some(r) = n.right {
        lemma_top_is_max(*r);
        assert(r.link() == n.right);
    }
    let m = link_prios(n.link());
    assert forall|k: K| #[trigger] m.dom().contains(k) implies m[k] <= n.priority by {
        if k != n.key {
            if link_prios(n.right).dom().contains(k) {
                assert(m[k] == link_prios(n.right)[k]);
            } else {
                assert(m[k] == link_prios(n.left)[k]);
            }
        }
    }
}

/// No two keys share a priority.
pub open spec fn distinct_prios<K>(m: Map<K, u64>) -> bool {
    forall|a: K, b: K| #[trigger] m.dom().contains(a) && #[trigger] m.dom().contains(b) && a != b ==> m[a] != m[b]
}

/// A search tree in heap order is fixed by its entries and their priorities once no two
/// priorities are equal: the key of highest priority is at the top, the smaller keys form
/// its left subtree and the larger ones its right subtree.
pub proof fn lemma_shape_unique<K: Ord, V>(a: Option<Box<Node<K, V>>>, b: Option<Box<Node<K, V>>>)
    requires
        total_order::<K>(),
        link_wf(a),
        link_wf(b),
        link_map(a) == link_map(b),
        link_prios(a) == link_prios(b),
        distinct_prios(link_prios(a)),
    ensures
        a == b,
    decreases a,
{
    lemma_order_laws::<K>();
    lemma_prios_dom(a);
    lemma_prios_dom(b);
    match (a, b) {
        (None, None) => {},
        (None, Some(y)) => {
            assert(link_map(b).dom().contains(y.key));
        },
        (Some(x), None) => {
            assert(link_map(a).dom().contains(x.key));
        },
        (Some(x), Some(y)) => {
            assert(x.link() == a);
            assert(y.link() == b);
            lemma_top_is_max(*x);
            lemma_top_is_max(*y);
            assert(x.key == y.key);
            lemma_lookup_side(*x, x.key);
            lemma_lookup_side(*y, y.key);
            lemma_prios_dom(x.left);
            lemma_prios_dom(x.right);
            lemma_prios_dom(y.left);
            lemma_prios_dom(y.right);
            assert forall|k: K| #[trigger] link_map(x.left).dom().contains(k) <==> link_map(y.left).dom().contains(k) by {
                if link_map(x.left).dom().contains(k) {
                    assert(lt(k, x.key));
                    assert(link_map(a).dom().contains(k));
                    if link_map(y.right).dom().contains(k) {
                        assert(lt(y.key, k));
                    }
                }
                if link_map(y.left).dom().contains(k) {
                    assert(lt(k, y.key));
                    assert(link_map(b).dom().contains(k));
                    if link_map(x.right).dom().contains(k) {
                        assert(lt(x.key, k));
                    }
                }
            }
            assert forall|k: K| #[trigger] link_map(x.right).dom().contains(k) <==> link_map(y.right).dom().contains(k) by {
                if link_map(x.right).dom().contains(k) {
                    assert(lt(x.key, k));
                    assert(link_map(a).dom().contains(k));
                    if link_map(y.left).dom().contains(k) {
                        assert(lt(k, y.key));
                    }
                }
                if link_map(y.right).dom().contains(k) {
                    assert(lt(y.key, k));
                    assert(link_map(b).dom().contains(k));
                    if link_map(x.left).dom().contains(k) {
                        assert(lt(k, x.key));
                    }
                }
            }
            assert forall|k: K| link_map(x.left).dom().contains(k) implies !link_map(x.right).dom().contains(k)
                && !link_map(y.right).dom().contains(k) by {
                assert(lt(k, x.key));
            }
            assert forall|k: K| link_map(x.right).dom().contains(k) implies !link_map(x.left).dom().contains(k)
                && !link_map(y.left).dom().contains(k) by {
                assert(lt(x.key, k));
            }
            assert forall|k: K| #[trigger] link_map(x.left).dom().contains(k) implies link_map(x.left)[k] == link_map(y.left)[k]
                && link_prios(x.left)[k] == link_prios(y.left)[k] by {
                assert(lt(k, x.key));
                lemma_lookup_side(*x, k);
                lemma_lookup_side(*y, k);
                assert(link_prios(a)[k] == link_prios(x.left)[k]);
                assert(link_prios(b)[k] == link_prios(y.left)[k]);
            }
            assert forall|k: K| #[trigger] link_map(x.right).dom().contains(k) implies link_map(x.right)[k] == link_map(y.right)[k]
                && link_prios(x.right)[k] == link_prios(y.right)[k] by {
                assert(lt(x.key, k));
                lemma_lookup_side(*x, k);
                lemma_lookup_side(*y, k);
                assert(link_prios(a)[k] == link_prios(x.right)[k]);
                assert(link_prios(b)[k] == link_prios(y.right)[k]);
            }
            assert(link_map(x.left).dom() =~= link_map(y.left).dom());
            assert(link_map(x.right).dom() =~= link_map(y.right).dom());
            assert(link_map(x.left) =~= link_map(y.left));
            assert(link_map(x.right) =~= link_map(y.right));
            assert(link_prios(x.left) =~= link_prios(y.left));
            assert(link_prios(x.right) =~= link_prios(y.right));
            assert forall|p: K, q: K| #[trigger] link_prios(x.left).dom().contains(p) && #[trigger] link_prios(
                x.left,
            ).dom().contains(q) && p != q implies link_prios(x.left)[p] != link_prios(x.left)[q] by {
                assert(link_prios(a).dom().contains(p) && link_prios(a).dom().contains(q));
                assert(link_prios(a)[p] == link_prios(x.left)[p]);
                assert(link_prios(a)[q] == link_prios(x.left)[q]);
            }
            assert forall|p: K, q: K| #[trigger] link_prios(x.right).dom().contains(p) && #[trigger] link_prios(
                x.right,
            ).dom().contains(q) && p != q implies link_prios(x.right)[p] != link_prios(x.right)[q] by {
                assert(link_prios(a).dom().contains(p) && link_prios(a).dom().contains(q));
                assert(link_prios(a)[p] == link_prios(x.right)[p]);
                assert(link_prios(a)[q] == link_prios(x.right)[q]);
            }
            lemma_shape_unique(x.left, y.left);
            lemma_shape_unique(x.right, y.right);
            assert(x.value == link_map(a)[x.key]);
            assert(y.value == link_map(b)[y.key]);
            assert(x.priority == y.priority);
            assert(*x == *y);
        },
    }
}

impl<K: Ord, V> Node<K, V> {
    /// A fresh cell with no children.
    pub fn new(key: K, value: V, priority: u64) -> (n: Node<K, V>)
        ensures
            n.key == key,
            n.value == value,
            n.priority == priority,
            n.left is None,
            n.right is None,
    {
        Node { key, value, priority, left: None, right: None }
    }

    /// The value stored under `key` in this subtree, if any.
    pub fn get(&self, key: &K) -> (r: Option<&V>)
        requires
            total_order::<K>(),
            link_bst(self.link()),
        ensures
            match r {
                Some(v) => link_map(self.link()).dom().contains(*key) && *v == link_map(self.link())[*key],
                None => !link_map(self.link()).dom().contains(*key),
            },
        decreases self,
    {
        proof {
            lemma_order_laws::<K>();
            lemma_lookup_side(*self, *key);
        }
        match key.cmp(&self.key) {
            Ordering::Equal => Some(&self.value),
            Ordering::Less => match &self.left {
                None => None,
                Some(n) => {
                    assert(n.link() == self.left);
                    n.get(key)
                },
            },
            Ordering::Greater => match &self.right {
                None => None,
                Some(n) => {
                    assert(n.link() == self.right);
                    n.get(key)
                },
            },
        }
    }

    /// A mutable borrow of the value stored under `key` in this subtree, if any.
    pub fn get_mut(&mut self, key: &K) -> (r: Option<&mut V>)
        requires
            total_order::<K>(),
            link_wf(old(self).link()),
        ensures
            match r {
                Some(v) => {
                    &&& link_map(old(self).link()).dom().contains(*key)
                    &&& *v == link_map(old(self).link())[*key]
                    &&& link_wf(final(self).link())
                    &&& link_map(final(self).link()) == link_map(old(self).link()).insert(*key, *final(v))
                    &&& final(self).link() == link_with_value(old(self).link(), *key, *final(v))
                },
                None => {
                    &&& !link_map(old(self).link()).dom().contains(*key)
                    &&& *final(self) == *old(self)
                },
            },
        decreases link_count(old(self).link()),
    {
        proof {
            lemma_order_laws::<K>();
            lemma_lookup_side(*self, *key);
            reveal_with_fuel(link_heap, 2);
            reveal_with_fuel(link_bst, 2);
        }
        match key.cmp(&self.key) {
            Ordering::Equal => {
                let r = &mut self.value;
                proof {
                    assert(link_map(old(self).link()).insert(*key, *final(r)) =~= link_map(
                        Node { value: *final(r), ..*old(self) }.link(),
                    ));
                }
                Some(r)
            },
            Ordering::Less => match &mut self.left {
                None => None,
                Some(n) => {
                    let r = n.get_mut(key);
                    r
                },
            },
            Ordering::Greater => match &mut self.right {
                None => None,
                Some(n) => {
                    let r = n.get_mut(key);
                    r
                },
            },
        }
    }

    /// Inserts the fresh cell `new` into the subtree slot, or replaces the value under its
    /// key; returns the value that was replaced.
    pub fn insert_or_replace(subtree: &mut Option<Box<Node<K, V>>>, new: Node<K, V>) -> (r: Option<V>)
        requires
            total_order::<K>(),
            link_wf(*old(subtree)),
            new.left is None,
            new.right is None,
        ensures
            link_wf(*final(subtree)),
            link_map(*final(subtree)) == link_map(*old(subtree)).insert(new.key, new.value),
            link_prios(*final(subtree)) == link_prios(*old(subtree)).insert(
                new.key,
                raised_prio(link_prios(*old(subtree)), new.key, new.priority),
            ),
            r == previous(link_map(*old(subtree)), new.key),
            *final(subtree) is Some,
            raised(*old(subtree), *(*final(subtree)).unwrap(), new.priority),
        decreases link_count(*old(subtree)), 1nat,
    {
        if subtree.is_none() {
            *subtree = Some(Box::new(new));
            None
        } else {
            match subtree {
                Some(node) => {
                    assert(node.link() == *old(subtree));
                    node.insert(new)
                },
                None => None,
            }
        }
    }

    /// Inserts the fresh cell `node` into this subtree, or replaces the value under its key;
    /// rotates on the way back up wherever a child has come to outrank its parent.
    pub fn insert(&mut self, node: Node<K, V>) -> (r: Option<V>)
        requires
            total_order::<K>(),
            link_wf(old(self).link()),
            node.left is None,
            node.right is None,
        ensures
            link_wf(final(self).link()),
            link_map(final(self).link()) == link_map(old(self).link()).insert(node.key, node.value),
            link_prios(final(self).link()) == link_prios(old(self).link()).insert(
                node.key,
                raised_prio(link_prios(old(self).link()), node.key, node.priority),
            ),
            r == previous(link_map(old(self).link()), node.key),
            raised(old(self).link(), *final(self), node.priority),
            node.key == old(self).key ==> {
                &&& final(self).key == old(self).key
                &&& final(self).left == old(self).left
                &&& final(self).right == old(self).right
            },
        decreases link_count(old(self).link()), 0nat,
    {
        proof {
            lemma_order_laws::<K>();
            lemma_lookup_side(*self, node.key);
            reveal_with_fuel(link_heap, 2);
            reveal_with_fuel(link_bst, 2);
        }
        let ghost k = node.key;
        let ghost v = node.value;
        let ghost p = node.priority;
        proof {
            lemma_prios_dom(self.left);
            lemma_prios_dom(self.right);
        }
        match node.key.cmp(&self.key) {
            Ordering::Equal => {
                if self.priority < node.priority {
                    self.priority = node.priority;
                }
                let mut value = node.value;
                std::mem::swap(&mut self.value, &mut value);
                proof {
                    assert(link_map(self.link()) =~= link_map(old(self).link()).insert(k, v));
                    assert(link_prios(self.link()) =~= link_prios(old(self).link()).insert(
                        k,
                        raised_prio(link_prios(old(self).link()), k, p),
                    ));
                }
                Some(value)
            },
            Ordering::Less => {
                let old_value = Node::insert_or_replace(&mut self.left, node);
                proof {
                    assert forall|x: K| #[trigger] link_map(self.left).dom().contains(x) implies lt(x, self.key) by {
                        if x != k {
                            assert(link_map(old(self).left).dom().contains(x));
                        }
                    }
                    assert(link_map(self.link()) =~= link_map(old(self).link()).insert(k, v));
                    assert(link_prios(self.link()) =~= link_prios(old(self).link()).insert(
                        k,
                        raised_prio(link_prios(old(self).link()), k, p),
                    ));
                }
                if self.is_heap_property_violated(&self.left) {
                    proof {
                        lemma_rotate_right(*self);
                    }
                    self.right_rotate();
                }
                old_value
            },
            Ordering::Greater => {
                let old_value = Node::insert_or_replace(&mut self.right, node);
                proof {
                    assert forall|x: K| #[trigger] link_map(self.right).dom().contains(x) implies lt(self.key, x) by {
                        if x != k {
                            assert(link_map(old(self).right).dom().contains(x));
                        }
                    }
                    assert(link_map(self.link()) =~= link_map(old(self).link()).insert(k, v));
                    assert(link_prios(self.link()) =~= link_prios(old(self).link()).insert(
                        k,
                        raised_prio(link_prios(old(self).link()), k, p),
                    ));
                }
                if self.is_heap_property_violated(&self.right) {
                    proof {
                        lemma_rotate_left(*self);
                    }
                    self.left_rotate();
                }
                old_value
            },
        }
    }

    /// Removes `key` from the subtree slot; returns the value it had, if it was there.
    pub fn remove(subtree: &mut Option<Box<Node<K, V>>>, key: &K) -> (r: Option<V>)
        requires
            total_order::<K>(),
            link_wf(*old(subtree)),
        ensures
            link_wf(*final(subtree)),
            link_map(*final(subtree)) == link_map(*old(subtree)).remove(*key),
            r == previous(link_map(*old(subtree)), *key),
            top_le(*final(subtree), *old(subtree)),
            link_prios(*final(subtree)) == link_prios(*old(subtree)).remove(*key),
            r is None ==> *final(subtree) == *old(subtree),
        decreases link_count(*old(subtree)),
    {
        proof {
            lemma_order_laws::<K>();
            reveal_with_fuel(link_heap, 2);
            reveal_with_fuel(link_bst, 2);
        }
        let ord = match &*subtree {
            None => {
                proof {
                    assert(link_map(*old(subtree)) =~= link_map(*old(subtree)).remove(*key));
                }
                return None;
            },
            Some(node) => key.cmp(&node.key),
        };
        match ord {
            Ordering::Equal => Node::rotate_down(subtree),
            Ordering::Less => match subtree {
                Some(node) => {
                    proof {
                        lemma_lookup_side(**node, *key);
                    }
                    let r = Node::remove(&mut node.left, key);
                    proof {
                        let o = old(subtree).unwrap();
                        assert forall|x: K| #[trigger] link_map(node.left).dom().contains(x) implies lt(x, node.key) by {
                            assert(link_map(o.left).dom().contains(x));
                        }
                        assert(link_map(node.link()) =~= link_map(*old(subtree)).remove(*key));
                        lemma_prios_dom(o.left);
                        lemma_prios_dom(o.right);
                        assert(link_prios(node.link()) =~= link_prios(*old(subtree)).remove(*key));
                    }
                    r
                },
                None => None,
            },
            Ordering::Greater => match subtree {
                Some(node) => {
                    proof {
                        lemma_lookup_side(**node, *key);
                    }
                    let r = Node::remove(&mut node.right, key);
                    proof {
                        let o = old(subtree).unwrap();
                        assert forall|x: K| #[trigger] link_map(node.right).dom().contains(x) implies lt(node.key, x) by {
                            assert(link_map(o.right).dom().contains(x));
                        }
                        assert(link_map(node.link()) =~= link_map(*old(subtree)).remove(*key));
                        lemma_prios_dom(o.left);
                        lemma_prios_dom(o.right);
                        assert(link_prios(node.link()) =~= link_prios(*old(subtree)).remove(*key));
                    }
                    r
                },
                None => None,
            },
        }
    }

    /// Removes the top cell of the slot: rotates it towards the child of higher priority
    /// (the left one on a tie) until it has no children, then detaches it.
    fn rotate_down(subtree: &mut Option<Box<Node<K, V>>>) -> (r: Option<V>)
        requires
            total_order::<K>(),
            *old(subtree) is Some,
            link_bst(*old(subtree)),
            link_heap(old(subtree).unwrap().left),
            link_heap(old(subtree).unwrap().right),
        ensures
            link_wf(*final(subtree)),
            link_map(*final(subtree)) == link_map(*old(subtree)).remove(old(subtree).unwrap().key),
            r == Some(old(subtree).unwrap().value),
            link_prios(*final(subtree)) == link_prios(*old(subtree)).remove(old(subtree).unwrap().key),
            promoted_child(*old(subtree).unwrap(), *final(subtree)),
            rotated_towards(*old(subtree).unwrap(), *final(subtree)),
        decreases link_count(*old(subtree)),
    {
        proof {
            lemma_order_laws::<K>();
            reveal_with_fuel(link_heap, 3);
            reveal_with_fuel(link_bst, 3);
            reveal_with_fuel(link_count, 3);
            reveal_with_fuel(link_map, 2);
            reveal_with_fuel(link_prios, 2);
        }
        let case = match &*subtree {
            None => RemovalCases::RemoveNode,
            Some(root) => match (&root.left, &root.right) {
                (None, None) => RemovalCases::RemoveNode,
                (Some(left), Some(right)) => {
                    if left.priority >= right.priority {
                        RemovalCases::RotateRight
                    } else {
                        RemovalCases::RotateLeft
                    }
                },
                (Some(_), None) => RemovalCases::RotateRight,
                (None, Some(_)) => RemovalCases::RotateLeft,
            },
        };
        match case {
            RemovalCases::RemoveNode => match subtree.take() {
                Some(n) => {
                    proof {
                        assert(link_map(*old(subtree)).remove(n.key) =~= Map::empty());
                        assert(link_prios(*old(subtree)).remove(n.key) =~= Map::empty());
                    }
                    Some(n.value)
                },
                None => None,
            },
            RemovalCases::RotateLeft => match subtree {
                Some(n) => {
                    proof {
                        lemma_rotate_left(**n);
                        lemma_lookup_side(**n, n.key);
                    }
                    n.left_rotate();
                    let ghost top = **n;
                    let r = Node::rotate_down(&mut n.left);
                    proof {
                        let o = old(subtree).unwrap();
                        assert forall|x: K| #[trigger] link_map(n.left).dom().contains(x) implies lt(x, n.key) by {
                            assert(link_map(top.left).dom().contains(x));
                        }
                        assert(link_map(n.link()) =~= link_map(*old(subtree)).remove(o.key));
                        lemma_prios_dom(top.left);
                        lemma_prios_dom(top.right);
                        assert(link_prios(n.link()) =~= link_prios(*old(subtree)).remove(o.key));
                    }
                    r
                },
                None => None,
            },
            RemovalCases::RotateRight => match subtree {
                Some(n) => {
                    proof {
                        lemma_rotate_right(**n);
                        lemma_lookup_side(**n, n.key);
                    }
                    n.right_rotate();
                    let ghost top = **n;
                    let r = Node::rotate_down(&mut n.right);
                    proof {
                        let o = old(subtree).unwrap();
                        assert forall|x: K| #[trigger] link_map(n.right).dom().contains(x) implies lt(n.key, x) by {
                            assert(link_map(top.right).dom().contains(x));
                        }
                        assert(link_map(n.link()) =~= link_map(*old(subtree)).remove(o.key));
                        lemma_prios_dom(top.left);
                        lemma_prios_dom(top.right);
                        assert(link_prios(n.link()) =~= link_prios(*old(subtree)).remove(o.key));
                    }
                    r
                },
                None => None,
            },
        }
    }

    /// The child in `subtree` outranks this cell.
    fn is_heap_property_violated(&self, subtree: &Option<Box<Node<K, V>>>) -> (r: bool)
        ensures
            r == !prio_le(*subtree, self.priority),
    {
        match subtree {
            None => false,
            Some(b) => self.priority < b.priority,
        }
    }

    //       q               p
    //      / \             / \
    //     p  C   --->     A  q
    //    / \                / \
    //   A  B               B  C
    /// Brings the left child up in place of this cell. Only the links move.
    fn right_rotate(&mut self)
        requires
            old(self).left is Some,
        ensures
            *final(self) == old(self).rotated_right(),
    {
        let left = self.left.take();
        if let Some(mut node) = left {
            std::mem::swap(self, &mut *node);
            std::mem::swap(&mut self.right, &mut node.left);
            self.right = Some(node);
        }
    }

    //     p               q
    //    / \             / \
    //   A  q   --->     p  C
    //     / \          / \
    //    B  C         A  B
    /// Brings the right child up in place of this cell. Only the links move.
    fn left_rotate(&mut self)
        requires
            old(self).right is Some,
        ensures
            *final(self) == old(self).rotated_left(),
    {
        let right = self.right.take();
        if let Some(mut node) = right {
            std::mem::swap(self, &mut *node);
            std::mem::swap(&mut self.left, &mut node.right);
            self.left = Some(node);
        }
    }
}

} // verus!
