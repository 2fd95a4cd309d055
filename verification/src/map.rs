//! The trie itself: the node representation, the locate and splice
//! algorithms, and the public map facade.

use crate::bits::{prefix_below, routes_left};
use vstd::prelude::*;

verus! {

/// A node of the trie: either a terminal leaf holding one entry, or an
/// internal node that owns two subtrees and records the bit position at
/// which they diverge together with the bit-prefix below that position
/// that every key underneath shares.
enum Node<V> {
    Leaf { key: u64, value: V },
    Internal { key_prefix: u64, branch_bit: u64, left: Box<Node<V>>, right: Box<Node<V>> },
}

/// A map from `u64` keys to values of an arbitrary type `V`, stored as a
/// compressed binary trie that branches on the lowest diverging bit.
pub struct PatriciaTreeMap<V> {
    size: usize,
    root: Option<Box<Node<V>>>,
}

impl<V> Node<V> {
    /// The entries stored in this subtree, as a mathematical map.
    spec fn as_map(self) -> Map<u64, V>
        decreases self,
    {
        match self {
            Node::Leaf { key, value } => Map::empty().insert(key, value),
            Node::Internal { left, right, .. } => (*left).as_map().union_prefer_right(
                (*right).as_map(),
            ),
        }
    }

    /// The structural invariant: every internal node branches on a bit
    /// position below 64, stores exactly the bits below that position that
    /// all its keys share, and routes each key by that bit, left when the
    /// bit is clear.
    spec fn wf(self) -> bool
        decreases self,
    {
        match self {
            Node::Leaf { .. } => true,
            Node::Internal { key_prefix, branch_bit, left, right } => {
                &&& branch_bit < 64
                &&& key_prefix == prefix_below(key_prefix, branch_bit)
                &&& (*left).wf()
                &&& (*right).wf()
                &&& forall|k: u64| #[trigger]
                    (*left).as_map().dom().contains(k) ==> prefix_below(k, branch_bit)
                        == key_prefix && routes_left(k, branch_bit)
                &&& forall|k: u64| #[trigger]
                    (*right).as_map().dom().contains(k) ==> prefix_below(k, branch_bit)
                        == key_prefix && !routes_left(k, branch_bit)
            },
        }
    }

    /// A subtree stores finitely many entries.
    proof fn lemma_as_map_finite(self)
        ensures
            self.as_map().dom().finite(),
        decreases self,
    {
        match self {
            Node::Leaf { .. } => {},
            Node::Internal { left, right, .. } => {
                (*left).lemma_as_map_finite();
                (*right).lemma_as_map_finite();
                assert(self.as_map().dom() =~= (*left).as_map().dom().union(
                    (*right).as_map().dom(),
                ));
            },
        }
    }

    /// A subtree stores at least one entry.
    proof fn lemma_as_map_nonempty(self)
        ensures
            self.as_map().len() > 0,
        decreases self,
    {
        self.lemma_as_map_finite();
        match self {
            Node::Leaf { key, .. } => {
                assert(self.as_map().dom() =~= Set::empty().insert(key));
            },
            Node::Internal { left, right, .. } => {
                (*left).lemma_as_map_nonempty();
                let k = (*left).as_map().dom().choose();
                assert((*left).as_map().dom().contains(k));
                assert(self.as_map().dom().contains(k));
                vstd::set::axiom_set_remove_len(self.as_map().dom(), k);
            },
        }
    }
}

impl<V> Node<V> {
    /// Locate `key` in a well-formed subtree, read-only: walk down by the
    /// branch bits until reaching the leaf where the key must reside or an
    /// internal node whose shared prefix the key does not match, which
    /// proves the key absent.
    fn get_node<'a>(node: &'a Node<V>, key: u64) -> (r: Option<&'a V>)
        requires
            node.wf(),
        ensures
            node.as_map().dom().contains(key) ==> (r matches Some(v) && *v == node.as_map()[key]),
            !node.as_map().dom().contains(key) ==> r is None,
        decreases node,
    {
        match node {
            Node::Leaf { key: k0, value: v0 } => {
                if *k0 == key {
                    Some(v0)
                } else {
                    None
                }
            },
            Node::Internal { key_prefix, branch_bit, left, right } => {
                if PatriciaTreeMap::<V>::get_prefix(key, *branch_bit) != *key_prefix {
                    // The key's path diverges here: nothing below can match it.
                    proof {
                        if node.as_map().dom().contains(key) {
                            assert((*left).as_map().dom().contains(key) || (
                            *right).as_map().dom().contains(key));
                        }
                    }
                    None
                } else if PatriciaTreeMap::<V>::is_left(key, *branch_bit) {
                    proof {
                        assert(!(*right).as_map().dom().contains(key));
                        if (*left).as_map().dom().contains(key) {
                            assert(node.as_map()[key] == (*left).as_map()[key]);
                        } else {
                            assert(!node.as_map().dom().contains(key));
                        }
                    }
                    Self::get_node(&**left, key)
                } else {
                    proof {
                        assert(!(*left).as_map().dom().contains(key));
                        if (*right).as_map().dom().contains(key) {
                            assert(node.as_map()[key] == (*right).as_map()[key]);
                        } else {
                            assert(!node.as_map().dom().contains(key));
                        }
                    }
                    Self::get_node(&**right, key)
                }
            },
        }
    }
}

impl<V> Node<V> {
    /// Splice a fresh leaf for `key` next to the subtree `sub`, every key
    /// of which diverges from `key` at exactly bit `branch_bit`: a new
    /// internal node branches there, the leaf taking the side given by
    /// that bit of `key` and `sub` relocated wholesale to the other.
    fn graft(branch_bit: u64, key: u64, value: V, sub: Box<Node<V>>) -> (r: Box<Node<V>>)
        requires
            branch_bit < 64,
            sub.wf(),
            forall|k: u64| #[trigger]
                sub.as_map().dom().contains(k) ==> prefix_below(k, branch_bit) == prefix_below(
                    key,
                    branch_bit,
                ) && routes_left(k, branch_bit) != routes_left(key, branch_bit),
        ensures
            r.wf(),
            r.as_map() == sub.as_map().insert(key, value),
    {
        let ghost sub_map = sub.as_map();
        proof {
            crate::bits::lemma_prefix_idempotent(key, branch_bit);
            assert(!sub_map.dom().contains(key));
        }
        let key_prefix = PatriciaTreeMap::<V>::get_prefix(key, branch_bit);
        let leaf = Box::new(Node::Leaf { key, value });
        let ghost leaf_map = leaf.as_map();
        proof {
            assert(leaf_map.dom() =~= Set::empty().insert(key));
        }
        if PatriciaTreeMap::<V>::is_left(key, branch_bit) {
            let r = Box::new(Node::Internal { key_prefix, branch_bit, left: leaf, right: sub });
            proof {
                let ghost n = *r;
                if let Node::Internal { key_prefix: kp2, branch_bit: bb2, left: l2, right: r2 } =
                    n {
                    assert(bb2 < 64);
                    assert(kp2 == prefix_below(kp2, bb2));
                    assert((*l2).wf());
                    assert((*r2).wf());
                    assert((*l2).as_map() == leaf_map);
                    assert((*r2).as_map() == sub_map);
                    assert(forall|k: u64| #[trigger]
                        (*l2).as_map().dom().contains(k) ==> prefix_below(k, bb2) == kp2
                            && routes_left(k, bb2));
                    assert(forall|k: u64| #[trigger]
                        (*r2).as_map().dom().contains(k) ==> prefix_below(k, bb2) == kp2
                            && !routes_left(k, bb2));
                }
                assert(r.wf());
                assert(r.as_map() =~= sub_map.insert(key, value));
            }
            r
        } else {
            let r = Box::new(Node::Internal { key_prefix, branch_bit, left: sub, right: leaf });
            proof {
                let ghost n = *r;
                if let Node::Internal { key_prefix: kp2, branch_bit: bb2, left: l2, right: r2 } =
                    n {
                    assert(bb2 < 64);
                    assert(kp2 == prefix_below(kp2, bb2));
                    assert((*l2).wf());
                    assert((*r2).wf());
                    assert((*l2).as_map() == sub_map);
                    assert((*r2).as_map() == leaf_map);
                    assert(forall|k: u64| #[trigger]
                        (*l2).as_map().dom().contains(k) ==> prefix_below(k, bb2) == kp2
                            && routes_left(k, bb2));
                    assert(forall|k: u64| #[trigger]
                        (*r2).as_map().dom().contains(k) ==> prefix_below(k, bb2) == kp2
                            && !routes_left(k, bb2));
                }
                assert(r.wf());
                assert(r.as_map() =~= sub_map.insert(key, value));
            }
            r
        }
    }

    /// Insert `key` into an owned, well-formed subtree: overwrite the
    /// value when the leaf holding `key` is found, otherwise splice a new
    /// internal node at the unique attachment point the locate walk stops
    /// at. Returns the new subtree and the previous value, if any.
    fn insert_node(node: Box<Node<V>>, key: u64, value: V) -> (res: (Box<Node<V>>, Option<V>))
        requires
            node.wf(),
        ensures
            res.0.wf(),
            res.0.as_map() == node.as_map().insert(key, value),
            res.1 == (if node.as_map().dom().contains(key) {
                Some(node.as_map()[key])
            } else {
                None::<V>
            }),
        decreases node,
    {
        let ghost orig = *node;
        match *node {
            Node::Leaf { key: k0, value: v0 } => {
                if k0 == key {
                    // Same key: the value is replaced, the shape is kept.
                    let r = Box::new(Node::Leaf { key, value });
                    proof {
                        assert(r.as_map() =~= orig.as_map().insert(key, value));
                    }
                    (r, Some(v0))
                } else {
                    let diff = k0 ^ key;
                    proof {
                        assert(k0 ^ key != 0) by (bit_vector)
                            requires
                                k0 != key,
                        ;
                    }
                    let bb = crate::bits::lowest_set_bit(diff);
                    let sub = Box::new(Node::Leaf { key: k0, value: v0 });
                    proof {
                        crate::bits::lemma_diverge_routes(k0, key, bb);
                        assert(sub.as_map().dom() =~= Set::empty().insert(k0));
                    }
                    let r = Self::graft(bb, key, value, sub);
                    (r, None)
                }
            },
            Node::Internal { key_prefix, branch_bit, left, right } => {
                let p = PatriciaTreeMap::<V>::get_prefix(key, branch_bit);
                if p != key_prefix {
                    // Prefix mismatch: the whole subtree diverges from the
                    // key at some bit below `branch_bit`.
                    let diff = key_prefix ^ key;
                    proof {
                        crate::bits::lemma_prefix_mismatch_sets_low(key_prefix, key, branch_bit);
                    }
                    let bb = crate::bits::lowest_set_bit(diff);
                    let ghost left0 = left.as_map();
                    let ghost right0 = right.as_map();
                    let sub = Box::new(
                        Node::Internal { key_prefix, branch_bit, left, right },
                    );
                    proof {
                        crate::bits::lemma_lowest_bit_below(diff, bb, branch_bit);
                        crate::bits::lemma_diverge_routes(key_prefix, key, bb);
                        assert forall|k: u64| #[trigger]
                            sub.as_map().dom().contains(k) implies prefix_below(k, bb)
                            == prefix_below(key, bb) && routes_left(k, bb) != routes_left(
                            key,
                            bb,
                        ) by {
                            assert(left0.dom().contains(k) || right0.dom().contains(k));
                            assert(prefix_below(k, branch_bit) == key_prefix);
                            crate::bits::lemma_prefix_refines(k, key_prefix, bb, branch_bit);
                        }
                        assert(!sub.as_map().dom().contains(key));
                    }
                    let r = Self::graft(bb, key, value, sub);
                    (r, None)
                } else if PatriciaTreeMap::<V>::is_left(key, branch_bit) {
                    let ghost left0 = (*left).as_map();
                    let ghost right0 = (*right).as_map();
                    proof {
                        assert(!right0.dom().contains(key));
                        if left0.dom().contains(key) {
                            assert(orig.as_map()[key] == left0[key]);
                        } else {
                            assert(!orig.as_map().dom().contains(key));
                        }
                    }
                    let (nl, prev) = Self::insert_node(left, key, value);
                    proof {
                        assert forall|k: u64| #[trigger]
                            nl.as_map().dom().contains(k) implies prefix_below(k, branch_bit)
                            == key_prefix && routes_left(k, branch_bit) by {
                            if k != key {
                                assert(left0.dom().contains(k));
                            }
                        }
                    }
                    let r = Box::new(
                        Node::Internal { key_prefix, branch_bit, left: nl, right },
                    );
                    proof {
                        assert(r.as_map() =~= orig.as_map().insert(key, value));
                    }
                    (r, prev)
                } else {
                    let ghost left0 = (*left).as_map();
                    let ghost right0 = (*right).as_map();
                    proof {
                        assert(!left0.dom().contains(key));
                        if right0.dom().contains(key) {
                            assert(orig.as_map()[key] == right0[key]);
                        } else {
                            assert(!orig.as_map().dom().contains(key));
                        }
                    }
                    let (nr, prev) = Self::insert_node(right, key, value);
                    proof {
                        assert forall|k: u64| #[trigger]
                            nr.as_map().dom().contains(k) implies prefix_below(k, branch_bit)
                            == key_prefix && !routes_left(k, branch_bit) by {
                            if k != key {
                                assert(right0.dom().contains(k));
                            }
                        }
                    }
                    let r = Box::new(
                        Node::Internal { key_prefix, branch_bit, left, right: nr },
                    );
                    proof {
                        assert(r.as_map() =~= orig.as_map().insert(key, value));
                    }
                    (r, prev)
                }
            },
        }
    }
}

/// The entries of an optional root, as a mathematical map: the empty map
/// when there is no root.
spec fn root_map<V>(root: Option<Box<Node<V>>>) -> Map<u64, V> {
    match root {
        None => Map::empty(),
        Some(node) => (*node).as_map(),
    }
}

impl<V> View for PatriciaTreeMap<V> {
    type V = Map<u64, V>;

    closed spec fn view(&self) -> Map<u64, V> {
        root_map(self.root)
    }
}

impl<V> PatriciaTreeMap<V> {
    /// The whole-map invariant: the root subtree (if any) is well formed
    /// and `size` counts the stored entries.
    #[verifier::type_invariant]
    spec fn wf(self) -> bool {
        &&& match self.root {
            None => true,
            Some(node) => (*node).wf(),
        }
        &&& root_map(self.root).dom().finite()
        &&& self.size == root_map(self.root).len()
    }

    /// The bits of `key` strictly below `branch_bit`, compared against a
    /// node's stored prefix to detect divergence.
    fn get_prefix(key: u64, branch_bit: u64) -> (p: u64)
        requires
            branch_bit < 64,
        ensures
            p == prefix_below(key, branch_bit),
    {
        proof {
            assert(1u64 << branch_bit >= 1 && key & ((1u64 << branch_bit) - 1) as u64
                == prefix_below(key, branch_bit)) by (bit_vector)
                requires
                    branch_bit < 64,
            ;
        }
        let mask: u64 = (1u64 << branch_bit) - 1;
        key & mask
    }

    /// Whether `key` belongs in the left subtree of a node branching on
    /// `branch_bit`, i.e. whether that bit of the key is clear.
    fn is_left(key: u64, branch_bit: u64) -> (r: bool)
        requires
            branch_bit < 64,
        ensures
            r == routes_left(key, branch_bit),
    {
        key & (1u64 << branch_bit) == 0
    }

    /// An empty map.
    pub fn new() -> (m: Self)
        ensures
            m@ == Map::<u64, V>::empty(),
    {
        PatriciaTreeMap { size: 0, root: None }
    }

    /// The number of entries, i.e. of distinct keys ever inserted.
    pub fn len(&self) -> (n: usize)
        ensures
            n == self@.len(),
    {
        proof {
            use_type_invariant(&*self);
        }
        self.size
    }

    /// Whether the map stores no entry at all.
    pub fn is_empty(&self) -> (r: bool)
        ensures
            r == (self@.len() == 0),
            r <==> self@ == Map::<u64, V>::empty(),
    {
        proof {
            use_type_invariant(&*self);
            match &self.root {
                None => {
                    assert(self@ =~= Map::<u64, V>::empty());
                },
                Some(node) => {
                    (**node).lemma_as_map_nonempty();
                    assert(self@ != Map::<u64, V>::empty()) by {
                        assert(Map::<u64, V>::empty().len() == 0);
                    }
                },
            }
        }
        self.len() == 0
    }

    /// Look `key` up; the stored value exactly when the key is present.
    /// Never mutates the tree.
    pub fn get(&self, key: u64) -> (r: Option<&V>)
        ensures
            r == (if self@.dom().contains(key) {
                Some(&self@[key])
            } else {
                None::<&V>
            }),
    {
        proof {
            use_type_invariant(&*self);
        }
        match &self.root {
            None => None,
            Some(node) => Node::<V>::get_node(&**node, key),
        }
    }

    /// Insert `key` with `value`; the previous value exactly when the key
    /// was already present, in which case the value is overwritten in
    /// place and the size is unchanged. Always succeeds. The one bound is
    /// the machine limit on the size counter itself.
    pub fn insert(&mut self, key: u64, value: V) -> (prev: Option<V>)
        requires
            old(self)@.len() < usize::MAX,
        ensures
            final(self)@ == old(self)@.insert(key, value),
            prev == (if old(self)@.dom().contains(key) {
                Some(old(self)@[key])
            } else {
                None::<V>
            }),
    {
        proof {
            use_type_invariant(&*self);
        }
        let mut taken = PatriciaTreeMap { size: 0, root: None };
        std::mem::swap(&mut taken, self);
        let PatriciaTreeMap { size, root } = taken;
        let (new_root, prev) = match root {
            None => (Box::new(Node::Leaf { key, value }), None),
            Some(node) => Node::<V>::insert_node(node, key, value),
        };
        proof {
            assert(new_root.as_map().dom() == root_map(old(self).root).dom().insert(key));
            if prev is None {
                assert(root_map(old(self).root).dom().insert(key).len() == size + 1);
            } else {
                assert(root_map(old(self).root).dom().insert(key) =~= root_map(
                    old(self).root,
                ).dom());
            }
        }
        let new_size = if prev.is_some() {
            size
        } else {
            size + 1
        };
        *self = PatriciaTreeMap { size: new_size, root: Some(new_root) };
        prev
    }

    /// Whether `key` is present.
    pub fn contains(&self, key: u64) -> (r: bool)
        ensures
            r == self@.dom().contains(key),
    {
        self.get(key).is_some()
    }
}

impl<V> Default for PatriciaTreeMap<V> {
    /// An empty map, as `new` gives.
    fn default() -> (m: Self)
        ensures
            m@ == Map::<u64, V>::empty(),
    {
        Self::new()
    }
}

} // verus!
