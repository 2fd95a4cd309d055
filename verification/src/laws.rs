//! Laws of the map as a whole, stated over the mathematical model that the
//! public contracts use: what any sequence of insertions, applied to an
//! empty map, leaves behind.
//!
//! `PatriciaTreeMap::new` yields the view `Map::empty()`, and each
//! `PatriciaTreeMap::insert` of `(k, v)` turns the view `m` into
//! `m.insert(k, v)`, so after a sequence `ops` of insertions the view is
//! exactly `applied(ops)`; the lemmas here say what that map holds.

use vstd::prelude::*;

verus! {

/// The map left behind by inserting the pairs of `ops` in order into an
/// empty map.
pub open spec fn applied<V>(ops: Seq<(u64, V)>) -> Map<u64, V>
    decreases ops.len(),
{
    if ops.len() == 0 {
        Map::empty()
    } else {
        applied(ops.drop_last()).insert(ops.last().0, ops.last().1)
    }
}

/// The set of keys that occur in `ops`.
pub open spec fn key_set<V>(ops: Seq<(u64, V)>) -> Set<u64>
    decreases ops.len(),
{
    if ops.len() == 0 {
        Set::empty()
    } else {
        key_set(ops.drop_last()).insert(ops.last().0)
    }
}

/// The value of the last pair of `ops` whose key is `key`, if any.
pub open spec fn last_value<V>(ops: Seq<(u64, V)>, key: u64) -> Option<V>
    decreases ops.len(),
{
    if ops.len() == 0 {
        None
    } else if ops.last().0 == key {
        Some(ops.last().1)
    } else {
        last_value(ops.drop_last(), key)
    }
}

/// After any sequence of insertions into an empty map, the stored keys are
/// exactly the keys that occur in the sequence: no false positives and no
/// false negatives, and a key never inserted is absent.
pub proof fn lemma_applied_dom<V>(ops: Seq<(u64, V)>)
    ensures
        applied(ops).dom() == key_set(ops),
        applied(ops).dom().finite(),
    decreases ops.len(),
{
    if ops.len() == 0 {
        assert(applied(ops).dom() =~= key_set(ops));
    } else {
        lemma_applied_dom(ops.drop_last());
        assert(applied(ops).dom() =~= key_set(ops));
    }
}

/// After any sequence of insertions into an empty map, the length of the
/// map is the number of distinct keys in the sequence.
pub proof fn lemma_len_counts_distinct_keys<V>(ops: Seq<(u64, V)>)
    ensures
        applied(ops).len() == key_set(ops).len(),
{
    lemma_applied_dom(ops);
}

/// Each key stored after a sequence of insertions holds the value of its
/// last occurrence in the sequence, whatever was inserted for other keys
/// before, after or in between; a key with no occurrence is absent.
pub proof fn lemma_last_write_wins<V>(ops: Seq<(u64, V)>, key: u64)
    ensures
        last_value(ops, key) == (if applied(ops).dom().contains(key) {
            Some(applied(ops)[key])
        } else {
            None::<V>
        }),
    decreases ops.len(),
{
    if ops.len() > 0 {
        lemma_last_write_wins(ops.drop_last(), key);
    }
}

/// The final content depends only on each key's last written value: two
/// insertion sequences whose per-key last writes agree — however the
/// writes to different keys are interleaved — leave the same map behind.
pub proof fn lemma_order_independent<V>(a: Seq<(u64, V)>, b: Seq<(u64, V)>)
    requires
        forall|k: u64| last_value(a, k) == last_value(b, k),
    ensures
        applied(a) == applied(b),
{
    let ma = applied(a);
    let mb = applied(b);
    assert forall|k: u64| #[trigger]
        ma.dom().contains(k) implies mb.dom().contains(k) && ma[k] == mb[k] by {
        lemma_last_write_wins(a, k);
        lemma_last_write_wins(b, k);
    }
    assert forall|k: u64| #[trigger] mb.dom().contains(k) implies ma.dom().contains(k) by {
        lemma_last_write_wins(a, k);
        lemma_last_write_wins(b, k);
    }
    assert(ma =~= mb);
}

/// Inserting a key twice: the first insertion is visible to the second,
/// the second overwrites the first, and the set of stored keys does not
/// grow again.
pub proof fn lemma_overwrite<V>(m: Map<u64, V>, key: u64, v1: V, v2: V)
    ensures
        m.insert(key, v1).dom().contains(key),
        m.insert(key, v1)[key] == v1,
        m.insert(key, v1).insert(key, v2)[key] == v2,
        m.insert(key, v1).insert(key, v2).dom() == m.insert(key, v1).dom(),
{
    assert(m.insert(key, v1).insert(key, v2).dom() =~= m.insert(key, v1).dom());
}

} // verus!
