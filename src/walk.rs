//! What the two traversal orders of a subtree hold: the in-order walk lists a search tree's
//! entries by increasing key, and the work-list walk lists the same entries in another order.
use vstd::prelude::*;
use vstd::seq_lib::lemma_multiset_commutative;
use vstd::set_lib::lemma_set_disjoint_lens;
use crate::node::{in_order, link_bst, link_count, link_map, walk_order, Node};
use crate::order::{lemma_order_laws, lt, total_order};

verus! {

/// `s` lists the entries of `m` once each, by strictly increasing key.
pub open spec fn lists_in_key_order<K: Ord, V>(s: Seq<(K, V)>, m: Map<K, V>) -> bool {
    &&& s.len() == m.len()
    &&& forall|i: int, j: int| 0 <= i < j < s.len() ==> lt(#[trigger] s[i].0, #[trigger] s[j].0)
    &&& forall|i: int|
        0 <= i < s.len() ==> m.dom().contains(#[trigger] s[i].0) && m[s[i].0] == s[i].1
}

/// The in-order walk of a search tree lists its entries by increasing key; it has one entry
/// per cell, and the tree's map is finite.
pub proof fn lemma_in_order<K: Ord, V>(t: Option<Box<Node<K, V>>>)
    requires
        total_order::<K>(),
        link_bst(t),
    ensures
        link_map(t).dom().finite(),
        lists_in_key_order(in_order(t), link_map(t)),
        in_order(t).len() == link_count(t),
    decreases t,
{
    lemma_order_laws::<K>();
    match t {
        None => {
            assert(link_map(t) =~= Map::empty());
        },
        Some(n) => {
            lemma_in_order(n.left);
            lemma_in_order(n.right);
            let lm = link_map(n.left);
            let rm = link_map(n.right);
            let ls = in_order(n.left);
            let rs = in_order(n.right);
            let s = in_order(t);
            assert(lm.dom().disjoint(rm.dom())) by {
                assert forall|k: K| lm.dom().contains(k) implies !rm.dom().contains(k) by {
                    if rm.dom().contains(k) {
                        assert(lt(k, n.key) && lt(n.key, k));
                    }
                }
            }
            lemma_set_disjoint_lens(lm.dom(), rm.dom());
            assert(lm.union_prefer_right(rm).dom() =~= lm.dom() + rm.dom());
            assert(!(lm.dom() + rm.dom()).contains(n.key)) by {
                if lm.dom().contains(n.key) {
                    assert(lt(n.key, n.key));
                }
                if rm.dom().contains(n.key) {
                    assert(lt(n.key, n.key));
                }
            }
            assert(link_map(t).dom() =~= (lm.dom() + rm.dom()).insert(n.key));
            assert forall|i: int| 0 <= i < s.len() implies link_map(t).dom().contains(#[trigger] s[i].0)
                && link_map(t)[s[i].0] == s[i].1 by {
                if i < ls.len() {
                    assert(s[i] == ls[i]);
                    assert(lt(ls[i].0, n.key));
                    if rm.dom().contains(ls[i].0) {
                        assert(lt(n.key, ls[i].0));
                    }
                } else if i > ls.len() {
                    assert(s[i] == rs[i - ls.len() - 1]);
                    assert(rm.dom().contains(s[i].0));
                    assert(lt(n.key, s[i].0));
                }
            }
            assert forall|i: int, j: int| 0 <= i < j < s.len() implies lt(#[trigger] s[i].0, #[trigger] s[j].0) by {
                if i < ls.len() {
                    assert(lm.dom().contains(ls[i].0));
                    assert(lt(s[i].0, n.key));
                }
                if j > ls.len() {
                    assert(s[j] == rs[j - ls.len() - 1]);
                    assert(rm.dom().contains(s[j].0));
                    assert(lt(n.key, s[j].0));
                }
                if i > ls.len() {
                    assert(s[i] == rs[i - ls.len() - 1]);
                    assert(s[j] == rs[j - ls.len() - 1]);
                }
            }
        },
    }
}

/// The work-list walk and the in-order walk hold the same entries, each as often.
pub proof fn lemma_walk_order<K, V>(t: Option<Box<Node<K, V>>>)
    ensures
        walk_order(t).to_multiset() == in_order(t).to_multiset(),
        walk_order(t).len() == in_order(t).len(),
    decreases t,
{
    match t {
        None => {},
        Some(n) => {
            lemma_walk_order(n.left);
            lemma_walk_order(n.right);
            let e = seq![(n.key, n.value)];
            let l = walk_order(n.left);
            let r = walk_order(n.right);
            let li = in_order(n.left);
            let ri = in_order(n.right);
            lemma_multiset_commutative(e + r, l);
            lemma_multiset_commutative(e, r);
            lemma_multiset_commutative(li + e, ri);
            lemma_multiset_commutative(li, e);
            assert(walk_order(t).to_multiset() =~= in_order(t).to_multiset());
        },
    }
}

} // verus!
