//! The map: the root slot of a treap and the number of its entries.
use vstd::prelude::*;
use crate::node::{
    in_order, link_bst, link_count, link_heap, link_map, link_prios, link_wf, previous,
    distinct_prios, lemma_shape_unique, lemma_with_value_prios, link_with_value, raised_prio, walk_order, Node,
};
use crate::order::{lt, total_order};
use vstd::seq_lib::to_multiset_contains;
use crate::walk::{lemma_in_order, lemma_walk_order, lists_in_key_order};

verus! {

/// A map based on a randomized treap.
#[derive(Debug)]
pub struct TreapMap<K, V> {
    root: Option<Box<Node<K, V>>>,
    size: usize,
}

/// Relies on `rand::random::<u64>`: a priority drawn from the thread-local generator.
/// Nothing is known of its value.
#[verifier::external_body]
fn random_priority() -> (p: u64) {
    rand::random::<u64>()
}

/// The map `m` after inserting the pairs of `s` in turn.
pub open spec fn with_entries<K, V>(m: Map<K, V>, s: Seq<(K, V)>) -> Map<K, V>
    decreases s.len(),
{
    if s.len() == 0 {
        m
    } else {
        with_entries(m, s.drop_last()).insert(s.last().0, s.last().1)
    }
}

impl<K, V> View for TreapMap<K, V> {
    type V = Map<K, V>;

    closed spec fn view(&self) -> Map<K, V> {
        link_map(self.root)
    }
}

impl<K: Ord, V> TreapMap<K, V> {
    /// The root slot of the tree.
    pub closed spec fn tree(&self) -> Option<Box<Node<K, V>>> {
        self.root
    }

    /// The tree is a treap, and the counter holds the number of its entries.
    pub closed spec fn wf(&self) -> bool {
        &&& link_wf(self.root)
        &&& link_map(self.root).dom().finite()
        &&& self.size == link_map(self.root).len()
    }

    /// The number of entries that the treap counts.
    pub closed spec fn counted(&self) -> nat {
        self.size as nat
    }

    /// The priority stored with each key.
    pub closed spec fn priorities(&self) -> Map<K, u64> {
        link_prios(self.root)
    }

    /// The entries by increasing key, as the ordered iterator yields them.
    pub open spec fn ordered_entries(&self) -> Seq<(K, V)> {
        in_order(self.tree())
    }

    /// The entries in the order of the unordered iterators.
    pub open spec fn unordered_entries(&self) -> Seq<(K, V)> {
        walk_order(self.tree())
    }

    /// Create an empty treap.
    pub fn new() -> (t: TreapMap<K, V>)
        ensures
            t.wf(),
            t@ == Map::<K, V>::empty(),
    {
        let t = TreapMap { root: None, size: 0 };
        proof {
            assert(link_map(t.root) =~= Map::empty());
        }
        t
    }

    /// Return the number of elements in the treap.
    pub fn len(&self) -> (n: usize)
        requires
            self.wf(),
        ensures
            n == self@.len(),
    {
        self.size
    }

    /// Return true if the treap contains no elements.
    pub fn is_empty(&self) -> (b: bool)
        requires
            self.wf(),
        ensures
            b == (self@.len() == 0),
    {
        self.size == 0
    }

    /// Removes all elements from the treap.
    pub fn clear(&mut self)
        ensures
            final(self).wf(),
            final(self)@ == Map::<K, V>::empty(),
    {
        self.root.take();
        self.size = 0;
        proof {
            assert(link_map(self.root) =~= Map::empty());
        }
    }

    /// Borrow the value corresponding to the given key if it exists in the treap.
    pub fn get(&self, key: &K) -> (r: Option<&V>)
        requires
            total_order::<K>(),
            self.wf(),
        ensures
            match r {
                Some(v) => self@.dom().contains(*key) && *v == self@[*key],
                None => !self@.dom().contains(*key),
            },
    {
        match &self.root {
            None => None,
            Some(n) => {
                assert(n.link() == self.root);
                n.get(key)
            },
        }
    }

    /// Return a mutable reference to the value corresponding to the given key if it exists in
    /// the treap.
    pub fn get_mut(&mut self, key: &K) -> (r: Option<&mut V>)
        requires
            total_order::<K>(),
            old(self).wf(),
        ensures
            match r {
                Some(v) => {
                    &&& old(self)@.dom().contains(*key)
                    &&& *v == old(self)@[*key]
                    &&& final(self).wf()
                    &&& final(self)@ == old(self)@.insert(*key, *final(v))
                    &&& final(self).tree() == link_with_value(old(self).tree(), *key, *final(v))
                    &&& final(self).priorities() == old(self).priorities()
                },
                None => {
                    &&& !old(self)@.dom().contains(*key)
                    &&& *final(self) == *old(self)
                },
            },
    {
        proof {
            lemma_in_order(self.root);
        }
        match &mut self.root {
            Some(n) => {
                assert(n.link() == old(self).root);
                let r = n.get_mut(key);
                proof {
                    if r is Some {
                        assert(old(self)@.insert(*key, *final(r.unwrap())).dom() =~= old(self)@.dom());
                        lemma_with_value_prios(old(self).root, *key, *final(r.unwrap()));
                    }
                }
                r
            },
            None => None,
        }
    }

    /// Returns true if the key is present in the treap.
    pub fn contains_key(&self, key: &K) -> (b: bool)
        requires
            total_order::<K>(),
            self.wf(),
        ensures
            b == self@.dom().contains(*key),
    {
        self.get(key).is_some()
    }

    /// Insert a value with a given key and a given priority. Returns the previous value if
    /// the key is already in the treap; the stored priority of that key then becomes the
    /// larger of the two.
    pub fn insert_with_priority(&mut self, key: K, value: V, priority: u64) -> (r: Option<V>)
        requires
            total_order::<K>(),
            old(self).wf(),
            old(self)@.len() < usize::MAX,
        ensures
            final(self).wf(),
            final(self)@ == old(self)@.insert(key, value),
            final(self).priorities() == old(self).priorities().insert(
                key,
                raised_prio(old(self).priorities(), key, priority),
            ),
            r == previous(old(self)@, key),
    {
        let res = Node::insert_or_replace(&mut self.root, Node::new(key, value, priority));
        proof {
            lemma_in_order(self.root);
        }
        if res.is_none() {
            self.size = self.size + 1;
        }
        res
    }

    /// Insert a value with a given key, under a priority drawn at random. Returns the previous
    /// value if the key is already in the treap.
    pub fn insert(&mut self, key: K, value: V) -> (r: Option<V>)
        requires
            total_order::<K>(),
            old(self).wf(),
            old(self)@.len() < usize::MAX,
        ensures
            final(self).wf(),
            final(self)@ == old(self)@.insert(key, value),
            final(self).priorities().remove(key) == old(self).priorities().remove(key),
            final(self).priorities().dom().contains(key),
            old(self).priorities().dom().contains(key) ==> final(self).priorities()[key]
                >= old(self).priorities()[key],
            r == previous(old(self)@, key),
    {
        let priority = random_priority();
        let r = self.insert_with_priority(key, value, priority);
        proof {
            assert(self.priorities().remove(key) =~= old(self).priorities().remove(key));
        }
        r
    }

    /// Remove the given key from the treap and return the value associated with it if any.
    pub fn remove(&mut self, key: &K) -> (r: Option<V>)
        requires
            total_order::<K>(),
            old(self).wf(),
        ensures
            final(self).wf(),
            final(self)@ == old(self)@.remove(*key),
            r == previous(old(self)@, *key),
            final(self).priorities() == old(self).priorities().remove(*key),
            r is None ==> *final(self) == *old(self),
    {
        let res = Node::remove(&mut self.root, key);
        proof {
            lemma_in_order(self.root);
        }
        if res.is_some() {
            self.size = self.size - 1;
        }
        res
    }

    /// Returns an iterator over keys and values in the treap that gives the keys in sorted
    /// order.
    pub fn iter_ordered(&self) -> (it: OrderedIter<'_, K, V>)
        ensures
            it@ == self.ordered_entries(),
    {
        let nodes = match &self.root {
            None => Vec::new(),
            Some(n) => {
                let mut v = Vec::new();
                v.push(Traversal::Left(&**n));
                v
            },
        };
        let it = OrderedIter { nodes };
        proof {
            if self.root is Some {
                lemma_pending_steps_push(Seq::empty(), it.nodes@.last());
                assert(it.nodes@ =~= Seq::empty().push(it.nodes@.last()));
                assert(step_entries(it.nodes@.last()) == in_order(self.root));
                assert(pending_steps(it.nodes@) =~= in_order(self.root));
            }
        }
        it
    }

    /// Returns an iterator over keys and values in the treap. The order is arbitrary.
    pub fn iter(&self) -> (it: Iter<'_, K, V>)
        ensures
            it@ == self.unordered_entries(),
    {
        let nodes = match &self.root {
            None => Vec::new(),
            Some(n) => {
                let mut v = Vec::new();
                v.push(&**n);
                v
            },
        };
        let it = Iter { nodes };
        proof {
            if self.root is Some {
                assert(it.nodes@.drop_last() =~= Seq::empty());
                assert(it.nodes@.last().link() == self.root);
                assert(it.nodes@.len() == 1);
                assert(pending_walk(it.nodes@.drop_last()) == Seq::<(K, V)>::empty());
                assert(pending_walk(it.nodes@) == walk_order(it.nodes@.last().link()) + pending_walk(it.nodes@.drop_last()));
                assert(pending_walk(it.nodes@) =~= walk_order(self.root));
            }
        }
        it
    }

    /// Returns an iterator over keys and mutable values in the treap. The order is arbitrary.
    pub fn iter_mut(&mut self) -> (it: IterMut<'_, K, V>)
        ensures
            it@ == old(self).unordered_entries(),
            final(self).counted() == old(self).counted(),
            match old(self).tree() {
                None => it.slots().len() == 0 && final(self).tree() == old(self).tree(),
                Some(_) => {
                    &&& it.slots().len() == 1
                    &&& final(self).tree() == Some(Box::new(*final(it.slots()[0])))
                },
            },
    {
        let ghost root = self.root;
        match &mut self.root {
            None => {
                let it = IterMut { nodes: Vec::new() };
                proof {
                    assert(pending_walk_mut(it.nodes@) =~= walk_order(root));
                }
                it
            },
            Some(n) => {
                let b: &mut Node<K, V> = &mut **n;
                let mut nodes: Vec<&mut Node<K, V>> = Vec::new();
                assert(nodes@.len() == 0);
                nodes.push(b);
                proof {
                    assert(nodes@.len() == 1);
                    assert(nodes@.last().link() == root);
                    assert(nodes@.drop_last() =~= Seq::empty());
                    assert(pending_walk_mut(nodes@.drop_last()) == Seq::<(K, V)>::empty());
                    assert(pending_walk_mut(nodes@) =~= walk_order(root));
                }
                IterMut { nodes }
            },
        }
    }

    /// Returns an iterator that moves keys and values out of the treap. The order is
    /// arbitrary.
    pub fn into_iter(self) -> (it: IntoIter<K, V>)
        ensures
            it@ == self.unordered_entries(),
    {
        let nodes = match self.root {
            None => Vec::new(),
            Some(n) => {
                let mut v = Vec::new();
                v.push(*n);
                v
            },
        };
        let it = IntoIter { nodes };
        proof {
            if self.root is Some {
                lemma_pending_owned_push(Seq::empty(), it.nodes@.last());
                assert(it.nodes@ =~= Seq::empty().push(it.nodes@.last()));
                assert(it.nodes@.last().link() == self.root);
                assert(pending_owned(it.nodes@) =~= walk_order(self.root));
            }
        }
        it
    }
    /// Inserts each pair of `items` in turn, as repeated calls of `insert` would.
    pub fn extend(&mut self, items: Vec<(K, V)>)
        requires
            total_order::<K>(),
            old(self).wf(),
            old(self)@.len() + items@.len() < usize::MAX,
        ensures
            final(self).wf(),
            final(self)@ == with_entries(old(self)@, items@),
    {
        let ghost all = items@;
        let ghost n = items@.len();
        let mut items = items;
        let mut reversed: Vec<(K, V)> = Vec::new();
        while items.len() > 0
            invariant
                items@ == all.subrange(0, items@.len() as int),
                reversed@.len() == n - items@.len(),
                items@.len() <= n,
                n == all.len(),
                forall|j: int| 0 <= j < reversed@.len() ==> #[trigger] reversed@[j] == all[n - 1 - j],
            decreases items@.len(),
        {
            let item = items.pop().unwrap();
            reversed.push(item);
        }
        while reversed.len() > 0
            invariant
                total_order::<K>(),
                self.wf(),
                reversed@.len() <= n,
                n == all.len(),
                old(self)@.len() + n < usize::MAX,
                self@.len() <= old(self)@.len() + (n - reversed@.len()),
                forall|j: int| 0 <= j < reversed@.len() ==> #[trigger] reversed@[j] == all[n - 1 - j],
                self@ == with_entries(old(self)@, all.subrange(0, n - reversed@.len())),
            decreases reversed@.len(),
        {
            let ghost i = n - reversed@.len();
            let (key, value) = reversed.pop().unwrap();
            proof {
                assert((key, value) == all[i]);
                assert(all.subrange(0, i + 1).drop_last() =~= all.subrange(0, i));
                self.lemma_len_insert(key, value);
            }
            self.insert(key, value);
        }
    }

    /// A treap holding the pairs of `items`, inserted in turn.
    pub fn from_iter(items: Vec<(K, V)>) -> (t: TreapMap<K, V>)
        requires
            total_order::<K>(),
            items@.len() < usize::MAX,
        ensures
            t.wf(),
            t@ == with_entries(Map::empty(), items@),
    {
        let mut t = TreapMap::new();
        t.extend(items);
        t
    }

    /// The value under `key`, which must be present.
    pub fn index(&self, key: &K) -> (v: &V)
        requires
            total_order::<K>(),
            self.wf(),
            self@.dom().contains(*key),
        ensures
            *v == self@[*key],
    {
        self.get(key).unwrap()
    }

    /// A mutable borrow of the value under `key`, which must be present.
    pub fn index_mut(&mut self, key: &K) -> (v: &mut V)
        requires
            total_order::<K>(),
            old(self).wf(),
            old(self)@.dom().contains(*key),
        ensures
            *v == old(self)@[*key],
            final(self).wf(),
            final(self)@ == old(self)@.insert(*key, *final(v)),
            final(self).tree() == link_with_value(old(self).tree(), *key, *final(v)),
            final(self).priorities() == old(self).priorities(),
    {
        self.get_mut(key).unwrap()
    }

    /// An insertion adds at most one entry.
    proof fn lemma_len_insert(&self, key: K, value: V)
        requires
            self.wf(),
        ensures
            self@.insert(key, value).len() <= self@.len() + 1,
    {
        if self@.dom().contains(key) {
            assert(self@.insert(key, value).dom() =~= self@.dom());
        }
    }
}


impl<K: Ord, V> Default for TreapMap<K, V> {
    fn default() -> (t: TreapMap<K, V>)
        ensures
            t.wf(),
            t@ == Map::<K, V>::empty(),
    {
        TreapMap::new()
    }
}

/// Search tree order and heap order hold of every well-formed treap: at every cell, each key
/// in the left subtree is smaller than the cell's key and each key in the right subtree is
/// larger; no child has a priority above its parent's. The map is the tree's entries.
pub proof fn lemma_search_tree_and_heap<K: Ord, V>(t: &TreapMap<K, V>)
    requires
        t.wf(),
    ensures
        link_bst(t.tree()),
        link_heap(t.tree()),
        t@ == link_map(t.tree()),
        t@.dom().finite(),
{
}

/// The shape of a treap depends only on its entries and their priorities, not on the order
/// of the insertions and removals that led to it, once no two priorities are equal: two
/// well-formed treaps that agree on both have the same tree.
pub proof fn lemma_shape_determined<K: Ord, V>(a: &TreapMap<K, V>, b: &TreapMap<K, V>)
    requires
        total_order::<K>(),
        a.wf(),
        b.wf(),
        a@ == b@,
        a.priorities() == b.priorities(),
        distinct_prios(a.priorities()),
    ensures
        a.tree() == b.tree(),
{
    lemma_shape_unique(a.root, b.root);
}

/// The length of a treap is the number of entries that each of its iterators yields in all.
pub proof fn lemma_len_is_iteration_count<K: Ord, V>(t: &TreapMap<K, V>)
    requires
        total_order::<K>(),
        t.wf(),
    ensures
        t.ordered_entries().len() == t@.len(),
        t.unordered_entries().len() == t@.len(),
{
    lemma_in_order(t.tree());
    lemma_walk_order(t.tree());
}

/// After `insert(k, v)`, looking `k` up gives `v`.
pub proof fn lemma_insert_then_get<K: Ord, V>(before: &TreapMap<K, V>, after: &TreapMap<K, V>, k: K, v: V)
    requires
        after@ == before@.insert(k, v),
    ensures
        after@.dom().contains(k),
        after@[k] == v,
{
}

/// Inserting the same pair twice: the second insertion returns the first value and leaves
/// the length and the entries as they were.
pub proof fn lemma_insert_twice<K: Ord, V>(
    start: &TreapMap<K, V>,
    once: &TreapMap<K, V>,
    twice: &TreapMap<K, V>,
    k: K,
    v: V,
)
    requires
        start.wf(),
        once@ == start@.insert(k, v),
        twice@ == once@.insert(k, v),
    ensures
        previous(once@, k) == Some(v),
        twice@ == once@,
        twice@.len() == once@.len(),
{
    assert(twice@ =~= once@);
}

/// After `remove(k)`, looking `k` up finds nothing, and removing it again returns nothing
/// and changes nothing.
pub proof fn lemma_remove_then_get<K: Ord, V>(
    start: &TreapMap<K, V>,
    once: &TreapMap<K, V>,
    twice: &TreapMap<K, V>,
    k: K,
)
    requires
        once@ == start@.remove(k),
        twice@ == once@.remove(k),
    ensures
        !once@.dom().contains(k),
        previous(once@, k) is None,
        twice@ == once@,
{
    assert(twice@ =~= once@);
}

/// The ordered iterator yields the entries of the treap once each, by strictly increasing
/// key.
pub proof fn lemma_ordered_keys_increase<K: Ord, V>(t: &TreapMap<K, V>)
    requires
        total_order::<K>(),
        t.wf(),
    ensures
        lists_in_key_order(t.ordered_entries(), t@),
        forall|i: int, j: int|
            0 <= i < j < t.ordered_entries().len() ==> lt(
                #[trigger] t.ordered_entries()[i].0,
                #[trigger] t.ordered_entries()[j].0,
            ),
{
    lemma_in_order(t.tree());
}

/// The unordered iterators yield the same entries as the ordered one, each as often.
pub proof fn lemma_unordered_same_entries<K: Ord, V>(t: &TreapMap<K, V>)
    ensures
        t.unordered_entries().to_multiset() == t.ordered_entries().to_multiset(),
        forall|e: (K, V)| t.unordered_entries().contains(e) <==> t.ordered_entries().contains(e),
{
    lemma_walk_order(t.tree());
    assert forall|e: (K, V)| t.unordered_entries().contains(e) <==> t.ordered_entries().contains(e) by {
        to_multiset_contains(t.unordered_entries(), e);
        to_multiset_contains(t.ordered_entries(), e);
    }
}

/// An iterator over a treap's entries. The order is not by key.
pub struct Iter<'a, K, V> {
    nodes: Vec<&'a Node<K, V>>,
}

/// An owning iterator over a treap's entries. The order is not by key.
pub struct IntoIter<K, V> {
    nodes: Vec<Node<K, V>>,
}

/// A step of the in-order walk.
pub enum Traversal<T> {
    /// Walk the left subtree of the cell, then emit the cell.
    Left(T),
    /// Emit the cell, then walk its right subtree.
    Right(T),
}

/// An iterator over a treap's entries in key order.
pub struct OrderedIter<'a, K, V> {
    nodes: Vec<Traversal<&'a Node<K, V>>>,
}

/// What a work-list of subtrees has yet to yield, the top of the list first.
pub open spec fn pending_walk<K, V>(s: Seq<&Node<K, V>>) -> Seq<(K, V)>
    decreases s.len(),
{
    if s.len() == 0 {
        Seq::empty()
    } else {
        walk_order(s.last().link()) + pending_walk(s.drop_last())
    }
}

/// What a work-list of owned subtrees has yet to yield, the top of the list first.
pub open spec fn pending_owned<K, V>(s: Seq<Node<K, V>>) -> Seq<(K, V)>
    decreases s.len(),
{
    if s.len() == 0 {
        Seq::empty()
    } else {
        walk_order(s.last().link()) + pending_owned(s.drop_last())
    }
}

/// What one step of the in-order walk yields.
pub open spec fn step_entries<K, V>(t: Traversal<&Node<K, V>>) -> Seq<(K, V)> {
    match t {
        Traversal::Left(n) => in_order(n.link()),
        Traversal::Right(n) => seq![(n.key, n.value)] + in_order(n.right),
    }
}

/// What a stack of in-order steps has yet to yield, the top of the stack first.
pub open spec fn pending_steps<K, V>(s: Seq<Traversal<&Node<K, V>>>) -> Seq<(K, V)>
    decreases s.len(),
{
    if s.len() == 0 {
        Seq::empty()
    } else {
        step_entries(s.last()) + pending_steps(s.drop_last())
    }
}

/// A bound on the work left in a stack of in-order steps.
pub open spec fn steps_weight<K, V>(s: Seq<Traversal<&Node<K, V>>>) -> nat
    decreases s.len(),
{
    if s.len() == 0 {
        0
    } else {
        (match s.last() {
            Traversal::Left(n) => 2 * link_count(n.link()),
            Traversal::Right(n) => 2 * link_count(n.right) + 1,
        }) + steps_weight(s.drop_last())
    }
}

/// Pushing a subtree on a work-list puts its walk in front of what was pending.
proof fn lemma_pending_walk_push<K, V>(s: Seq<&Node<K, V>>, n: &Node<K, V>)
    ensures
        pending_walk(s.push(n)) == walk_order(n.link()) + pending_walk(s),
        pending_walk(Seq::<&Node<K, V>>::empty()) == Seq::<(K, V)>::empty(),
{
    assert(s.push(n).drop_last() =~= s);
}

/// Pushing an owned subtree on a work-list puts its walk in front of what was pending.
proof fn lemma_pending_owned_push<K, V>(s: Seq<Node<K, V>>, n: Node<K, V>)
    ensures
        pending_owned(s.push(n)) == walk_order(n.link()) + pending_owned(s),
        pending_owned(Seq::<Node<K, V>>::empty()) == Seq::<(K, V)>::empty(),
{
    assert(s.push(n).drop_last() =~= s);
}

/// Pushing an in-order step puts what it yields in front of what was pending.
proof fn lemma_pending_steps_push<K, V>(s: Seq<Traversal<&Node<K, V>>>, t: Traversal<&Node<K, V>>)
    ensures
        pending_steps(s.push(t)) == step_entries(t) + pending_steps(s),
        steps_weight(s.push(t)) == (match t {
            Traversal::Left(n) => 2 * link_count(n.link()),
            Traversal::Right(n) => 2 * link_count(n.right) + 1,
        }) + steps_weight(s),
        pending_steps(Seq::<Traversal<&Node<K, V>>>::empty()) == Seq::<(K, V)>::empty(),
{
    assert(s.push(t).drop_last() =~= s);
}

impl<'a, K, V> View for Iter<'a, K, V> {
    type V = Seq<(K, V)>;

    closed spec fn view(&self) -> Seq<(K, V)> {
        pending_walk(self.nodes@)
    }
}

impl<K, V> View for IntoIter<K, V> {
    type V = Seq<(K, V)>;

    closed spec fn view(&self) -> Seq<(K, V)> {
        pending_owned(self.nodes@)
    }
}

impl<'a, K, V> View for OrderedIter<'a, K, V> {
    type V = Seq<(K, V)>;

    closed spec fn view(&self) -> Seq<(K, V)> {
        pending_steps(self.nodes@)
    }
}

impl<'a, K, V> Iter<'a, K, V> {
    /// Yields the next entry: pops a subtree off the work-list, pushes its children, and
    /// yields its top entry.
    pub fn next(&mut self) -> (r: Option<(&'a K, &'a V)>)
        ensures
            match r {
                None => old(self)@.len() == 0 && final(self)@ == old(self)@,
                Some(e) => {
                    &&& old(self)@.len() > 0
                    &&& (*e.0, *e.1) == old(self)@[0]
                    &&& final(self)@ == old(self)@.drop_first()
                },
            },
    {
        match self.nodes.pop() {
            None => None,
            Some(node) => {
                proof {
                    lemma_pending_walk_push(self.nodes@, node);
                }
                let ghost rest = pending_walk(self.nodes@);
                if let Some(boxed) = &node.left {
                    proof {
                        lemma_pending_walk_push(self.nodes@, &**boxed);
                    }
                    self.nodes.push(&**boxed);
                }
                let ghost mid = pending_walk(self.nodes@);
                assert(mid == walk_order(node.left) + rest);
                if let Some(boxed) = &node.right {
                    proof {
                        lemma_pending_walk_push(self.nodes@, &**boxed);
                    }
                    self.nodes.push(&**boxed);
                }
                proof {
                    assert(pending_walk(self.nodes@) == walk_order(node.right) + mid);
                    assert(pending_walk(old(self).nodes@) =~= seq![(node.key, node.value)] + pending_walk(self.nodes@));
                }
                Some((&node.key, &node.value))
            },
        }
    }
}

impl<K, V> IntoIter<K, V> {
    /// Yields the next entry: pops a subtree off the work-list, pushes its children, and
    /// yields its top entry.
    pub fn next(&mut self) -> (r: Option<(K, V)>)
        ensures
            match r {
                None => old(self)@.len() == 0 && final(self)@ == old(self)@,
                Some(e) => {
                    &&& old(self)@.len() > 0
                    &&& e == old(self)@[0]
                    &&& final(self)@ == old(self)@.drop_first()
                },
            },
    {
        match self.nodes.pop() {
            None => None,
            Some(node) => {
                proof {
                    lemma_pending_owned_push(self.nodes@, node);
                }
                let ghost rest = pending_owned(self.nodes@);
                let ghost whole = node;
                let Node { key, value, priority: _, left, right } = node;
                if let Some(boxed) = left {
                    proof {
                        lemma_pending_owned_push(self.nodes@, *boxed);
                    }
                    self.nodes.push(*boxed);
                }
                let ghost mid = pending_owned(self.nodes@);
                assert(mid == walk_order(whole.left) + rest);
                if let Some(boxed) = right {
                    proof {
                        lemma_pending_owned_push(self.nodes@, *boxed);
                    }
                    self.nodes.push(*boxed);
                }
                proof {
                    assert(pending_owned(self.nodes@) == walk_order(whole.right) + mid);
                    assert(pending_owned(old(self).nodes@) =~= seq![(key, value)] + pending_owned(self.nodes@));
                }
                Some((key, value))
            },
        }
    }
}

impl<'a, K, V> OrderedIter<'a, K, V> {
    /// Yields the entry with the next larger key. A `Left` step stands for a whole subtree
    /// and is replaced by the `Right` step of its top cell under the `Left` step of its left
    /// child; a `Right` step yields its cell and leaves the `Left` step of its right child.
    pub fn next(&mut self) -> (r: Option<(&'a K, &'a V)>)
        ensures
            match r {
                None => old(self)@.len() == 0 && final(self)@ == old(self)@,
                Some(e) => {
                    &&& old(self)@.len() > 0
                    &&& (*e.0, *e.1) == old(self)@[0]
                    &&& final(self)@ == old(self)@.drop_first()
                },
            },
    {
        loop
            invariant
                pending_steps(self.nodes@) == pending_steps(old(self).nodes@),
            decreases steps_weight(self.nodes@),
        {
            let ghost before = self.nodes@;
            match self.nodes.pop() {
                None => {
                    return None;
                },
                Some(Traversal::Left(node)) => {
                    proof {
                        lemma_pending_steps_push(self.nodes@, Traversal::Left(node));
                        lemma_pending_steps_push(self.nodes@, Traversal::Right(node));
                    }
                    let ghost rest = pending_steps(self.nodes@);
                    assert(pending_steps(before) == in_order(node.left) + seq![(node.key, node.value)]
                        + in_order(node.right) + rest);
                    self.nodes.push(Traversal::Right(node));
                    let ghost mid = pending_steps(self.nodes@);
                    assert(mid == seq![(node.key, node.value)] + in_order(node.right) + rest);
                    if let Some(node_box) = &node.left {
                        proof {
                            lemma_pending_steps_push(self.nodes@, Traversal::Left(&**node_box));
                        }
                        self.nodes.push(Traversal::Left(&**node_box));
                        assert(pending_steps(self.nodes@) == in_order(node.left) + mid);
                    }
                    proof {
                        reveal_with_fuel(link_count, 2);
                        assert(pending_steps(self.nodes@) == in_order(node.left) + mid);
                        assert(pending_steps(before) =~= pending_steps(self.nodes@));
                    }
                },
                Some(Traversal::Right(node)) => {
                    proof {
                        lemma_pending_steps_push(self.nodes@, Traversal::Right(node));
                    }
                    let ghost rest = pending_steps(self.nodes@);
                    if let Some(node_box) = &node.right {
                        proof {
                            lemma_pending_steps_push(self.nodes@, Traversal::Left(&**node_box));
                        }
                        self.nodes.push(Traversal::Left(&**node_box));
                    }
                    proof {
                        assert(pending_steps(self.nodes@) == in_order(node.right) + rest);
                        assert(pending_steps(before) =~= seq![(node.key, node.value)] + pending_steps(self.nodes@));
                    }
                    return Some((&node.key, &node.value));
                },
            }
        }
    }
}


/// What a work-list of mutably borrowed subtrees has yet to yield, the top of the list first.
pub open spec fn pending_walk_mut<K, V>(s: Seq<&mut Node<K, V>>) -> Seq<(K, V)>
    decreases s.len(),
{
    if s.len() == 0 {
        Seq::empty()
    } else {
        walk_order((*s.last()).link()) + pending_walk_mut(s.drop_last())
    }
}

/// A mutable iterator over a treap's entries. The order is not by key.
pub struct IterMut<'a, K, V> {
    nodes: Vec<&'a mut Node<K, V>>,
}

impl<'a, K, V> View for IterMut<'a, K, V> {
    type V = Seq<(K, V)>;

    closed spec fn view(&self) -> Seq<(K, V)> {
        pending_walk_mut(self.nodes@)
    }
}

impl<'a, K, V> IterMut<'a, K, V> {
    /// The borrowed subtrees on the work-list, its top last.
    pub closed spec fn slots(&self) -> Seq<&'a mut Node<K, V>> {
        self.nodes@
    }

    /// Yields the next entry, its value borrowed mutably: pops a subtree off the work-list,
    /// pushes its children, and yields its top entry. Once the borrows end, the popped cell
    /// holds its key, priority and links as before, the value written through the yielded
    /// reference, and as children what becomes of the pushed subtrees.
    pub fn next(&mut self) -> (r: Option<(&'a K, &'a mut V)>)
        ensures
            match r {
                None => old(self)@.len() == 0 && final(self)@ == old(self)@,
                Some(e) => {
                    &&& old(self)@.len() > 0
                    &&& (*e.0, *e.1) == old(self)@[0]
                    &&& final(self)@ == old(self)@.drop_first()
                    &&& old(self).slots().len() > 0
                    &&& {
                        let n = old(self).slots().len() - 1;
                        let top = *old(self).slots()[n];
                        let l: int = if top.left is Some { 1 } else { 0 };
                        &&& final(self).slots().len() == n + l + (if top.right is Some { 1int } else { 0 })
                        &&& forall|i: int| 0 <= i < n ==> final(self).slots()[i] == old(self).slots()[i]
                        &&& *final(old(self).slots()[n]) == Node {
                            key: top.key,
                            value: *final(e.1),
                            priority: top.priority,
                            left: if top.left is Some {
                                Some(Box::new(*final(final(self).slots()[n])))
                            } else {
                                None
                            },
                            right: if top.right is Some {
                                Some(Box::new(*final(final(self).slots()[n + l])))
                            } else {
                                None
                            },
                        }
                    }
                },
            },
    {
        match self.nodes.pop() {
            None => None,
            Some(node) => {
                let ghost rest = self.nodes@;
                let ghost top = *node;
                proof {
                    assert(old(self).nodes@.drop_last() =~= rest);
                    assert(pending_walk_mut(old(self).nodes@) == walk_order(top.link()) + pending_walk_mut(rest));
                }
                match &mut node.left {
                    Some(boxed) => {
                        let b: &'a mut Node<K, V> = &mut **boxed;
                        self.nodes.push(b);
                        proof {
                            assert(self.nodes@.drop_last() =~= rest);
                        }
                    },
                    None => {},
                }
                let ghost mid = self.nodes@;
                proof {
                    assert(pending_walk_mut(mid) == walk_order(top.left) + pending_walk_mut(rest));
                }
                match &mut node.right {
                    Some(boxed) => {
                        let b: &'a mut Node<K, V> = &mut **boxed;
                        self.nodes.push(b);
                        proof {
                            assert(self.nodes@.drop_last() =~= mid);
                        }
                    },
                    None => {},
                }
                proof {
                    assert(pending_walk_mut(self.nodes@) == walk_order(top.right) + pending_walk_mut(mid));
                    assert(pending_walk_mut(old(self).nodes@) =~= seq![(top.key, top.value)] + pending_walk_mut(self.nodes@));
                }
                Some((&node.key, &mut node.value))
            },
        }
    }
}

} // verus!
