//! The synchronization pass: once per scheduling phase the external store
//! reports which entities lost the tracked attribute and which hold a
//! changed value, and one pass drives the index's primitives to restore
//! the lockstep invariant. Removals are applied strictly before any
//! re-insertion, so an entity that lost the attribute and regained it in
//! the same batch is never treated as stale.

use vstd::prelude::*;

use crate::index::ComponentIndex;
use crate::key::IndexKey;

verus! {

/// The reverse map after removing every entity of `removed`, in order.
pub open spec fn rev_after_removals(m: Map<u64, u64>, removed: Seq<u64>) -> Map<u64, u64>
    decreases removed.len(),
{
    if removed.len() == 0 {
        m
    } else {
        rev_after_removals(m, removed.drop_last()).remove(removed.last())
    }
}

/// The reverse map after rebinding each (entity, key) pair, in order.
pub open spec fn rev_after_changes(m: Map<u64, u64>, changes: Seq<(u64, u64)>) -> Map<u64, u64>
    decreases changes.len(),
{
    if changes.len() == 0 {
        m
    } else {
        rev_after_changes(m, changes.drop_last()).insert(changes.last().0, changes.last().1)
    }
}

/// The changed set with each attribute value replaced by its extracted key.
pub open spec fn extracted_pairs<C: IndexKey>(changed: Seq<(u64, C)>) -> Seq<(u64, u64)> {
    changed.map_values(|p: (u64, C)| (p.0, p.1.key_spec()))
}

/// Whether `e` is the entity of some pair of the changed set.
pub open spec fn is_changed_entity(changes: Seq<(u64, u64)>, e: u64) -> bool {
    exists|i: int| 0 <= i < changes.len() && changes[i].0 == e
}

impl ComponentIndex {
    /// One synchronization pass: removes every entity of `removed`, then
    /// rebinds every entity of `changed` to the key extracted from its new
    /// value, in that strict order. Together with the invariant, the
    /// stated reverse map pins which entity stands in which bucket; the
    /// order inside a bucket is not part of the index's meaning.
    pub fn synchronize<C: IndexKey>(&mut self, removed: &Vec<u64>, changed: &Vec<(u64, C)>)
        requires
            old(self).inv(),
        ensures
            final(self).inv(),
            final(self).rev_view() == rev_after_changes(
                rev_after_removals(old(self).rev_view(), removed@),
                extracted_pairs(changed@),
            ),
    {
        let ghost pre = *old(self);
        let mut i: usize = 0;
        while i < removed.len()
            invariant
                i <= removed@.len(),
                self.inv(),
                self.rev_view() == rev_after_removals(pre.rev_view(), removed@.take(i as int)),
            decreases removed@.len() - i,
        {
            self.remove(removed[i]);
            proof {
                let t1 = removed@.take(i as int + 1);
                assert(t1.drop_last() =~= removed@.take(i as int));
                assert(t1.last() == removed@[i as int]);
            }
            i += 1;
        }
        proof {
            assert(removed@.take(removed@.len() as int) =~= removed@);
        }
        let ghost base = rev_after_removals(pre.rev_view(), removed@);
        let mut j: usize = 0;
        while j < changed.len()
            invariant
                j <= changed@.len(),
                self.inv(),
                self.rev_view() == rev_after_changes(
                    base,
                    extracted_pairs(changed@.take(j as int)),
                ),
            decreases changed@.len() - j,
        {
            let k = changed[j].1.key();
            self.update(changed[j].0, k);
            proof {
                let p1 = extracted_pairs(changed@.take(j as int + 1));
                assert(p1.drop_last() =~= extracted_pairs(changed@.take(j as int)));
                assert(p1.last() == (changed@[j as int].0, changed@[j as int].1.key_spec()));
            }
            j += 1;
        }
        proof {
            assert(changed@.take(changed@.len() as int) =~= changed@);
            assert(extracted_pairs(changed@.take(changed@.len() as int)) =~= extracted_pairs(
                changed@,
            ));
        }
    }
}

/// Law: one pass resolves the whole delta. Given the removed set and the
/// changed set applied in one pass, an entity of the removed set that is
/// not also among the changed pairs ends up entirely absent from the
/// index, and each changed entity ends up present exactly under the key
/// extracted from its new value.
pub proof fn lemma_synchronize_resolves(
    pre_rev: Map<u64, u64>,
    post: ComponentIndex,
    removed: Seq<u64>,
    changes: Seq<(u64, u64)>,
)
    requires
        post.inv(),
        post.rev_view() == rev_after_changes(rev_after_removals(pre_rev, removed), changes),
        forall|i: int, j: int| 0 <= i < j < changes.len() ==> changes[i].0 != changes[j].0,
    ensures
        forall|e: u64|
            removed.contains(e) && !is_changed_entity(changes, e) ==> !post.rev_view().contains_key(
                e,
            ),
        forall|e: u64, k: u64|
            removed.contains(e) && !is_changed_entity(changes, e) ==> !(#[trigger] post.bucket(
                k,
            ).contains(e)),
        forall|i: int|
            0 <= i < changes.len() ==> post.rev_view().contains_key(#[trigger] changes[i].0)
                && post.rev_view()[changes[i].0] == changes[i].1,
        forall|i: int|
            0 <= i < changes.len() ==> (#[trigger] post.bucket(changes[i].1)).contains(
                changes[i].0,
            ),
        forall|i: int, k: u64|
            0 <= i < changes.len() && k != changes[i].1 ==> !(#[trigger] post.bucket(k).contains(
                changes[i].0,
            )),
{
    let base = rev_after_removals(pre_rev, removed);
    lemma_removals_absent(pre_rev, removed);
    assert forall|e: u64|
        removed.contains(e) && !is_changed_entity(changes, e) implies !post.rev_view().contains_key(
        e,
    ) by {
        lemma_changes_untouched(base, changes, e);
    };
    assert forall|i: int| 0 <= i < changes.len() implies post.rev_view().contains_key(
        #[trigger] changes[i].0,
    ) && post.rev_view()[changes[i].0] == changes[i].1 by {
        lemma_changes_bind(base, changes, i);
    };
    assert forall|e: u64, k: u64|
        removed.contains(e) && !is_changed_entity(changes, e) implies !(#[trigger] post.bucket(
        k,
    ).contains(e)) by {
        lemma_changes_untouched(base, changes, e);
        assert(post.bucket(k).contains(e) <==> (post.rev_view().contains_key(e)
            && post.rev_view()[e] == k));
    };
    assert forall|i: int| 0 <= i < changes.len() implies (#[trigger] post.bucket(
        changes[i].1,
    )).contains(changes[i].0) by {
        assert(post.bucket(changes[i].1).contains(changes[i].0) <==> (
        post.rev_view().contains_key(changes[i].0) && post.rev_view()[changes[i].0] == changes[
            i
        ].1));
    };
    assert forall|i: int, k: u64|
        0 <= i < changes.len() && k != changes[i].1 implies !(#[trigger] post.bucket(k).contains(
        changes[i].0,
    )) by {
        assert(post.bucket(k).contains(changes[i].0) <==> (post.rev_view().contains_key(
            changes[i].0,
        ) && post.rev_view()[changes[i].0] == k));
    };
}

/// After the removal sweep, every removed entity is out of the reverse map.
proof fn lemma_removals_absent(m: Map<u64, u64>, removed: Seq<u64>)
    ensures
        forall|e: u64|
            removed.contains(e) ==> !rev_after_removals(m, removed).contains_key(e),
    decreases removed.len(),
{
    if removed.len() > 0 {
        let sub = removed.drop_last();
        lemma_removals_absent(m, sub);
        assert forall|e: u64|
            removed.contains(e) implies !rev_after_removals(m, removed).contains_key(e) by {
            if e != removed.last() {
                let i = choose|i: int| 0 <= i < removed.len() && removed[i] == e;
                assert(sub[i] == e);
                assert(sub.contains(e));
            }
        };
    }
}

/// The change sweep touches no entity outside the changed set.
proof fn lemma_changes_untouched(m: Map<u64, u64>, changes: Seq<(u64, u64)>, e: u64)
    requires
        !is_changed_entity(changes, e),
    ensures
        rev_after_changes(m, changes).contains_key(e) == m.contains_key(e),
        m.contains_key(e) ==> rev_after_changes(m, changes)[e] == m[e],
    decreases changes.len(),
{
    if changes.len() > 0 {
        let sub = changes.drop_last();
        assert(!is_changed_entity(sub, e)) by {
            if is_changed_entity(sub, e) {
                let i = choose|i: int| 0 <= i < sub.len() && sub[i].0 == e;
                assert(changes[i].0 == e);
            }
        };
        lemma_changes_untouched(m, sub, e);
        assert(changes[changes.len() - 1].0 != e);
    }
}

/// The change sweep binds each changed entity to its pair's key; with the
/// entities pairwise distinct, no later pair overwrites an earlier one.
proof fn lemma_changes_bind(m: Map<u64, u64>, changes: Seq<(u64, u64)>, i: int)
    requires
        0 <= i < changes.len(),
        forall|a: int, b: int| 0 <= a < b < changes.len() ==> changes[a].0 != changes[b].0,
    ensures
        rev_after_changes(m, changes).contains_key(changes[i].0),
        rev_after_changes(m, changes)[changes[i].0] == changes[i].1,
    decreases changes.len(),
{
    let sub = changes.drop_last();
    if i == changes.len() - 1 {
    } else {
        lemma_changes_bind(m, sub, i);
        assert(changes[changes.len() - 1].0 != changes[i].0);
    }
}

} // verus!
