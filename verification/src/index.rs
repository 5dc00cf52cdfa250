//! The index proper: a forward map from key to the entities holding it and
//! a reverse map from entity to its one live key, kept in lockstep.

use std::collections::HashMap;
use vstd::prelude::*;

use crate::forward::{mm_contents, mm_get_vec, mm_insert, mm_new, mm_remove};

verus! {

broadcast use vstd::std_specs::hash::group_hash_axioms;

/// The secondary index over one tracked attribute.
///
/// `forward` buckets entities by derived key; `reverse` gives each indexed
/// entity its current key. The two are mutated only together, through
/// `insert`, `remove` and `update`, and `inv` is the lockstep invariant
/// they keep.
pub struct ComponentIndex {
    forward: multimap::MultiMap<u64, u64>,
    reverse: HashMap<u64, u64>,
}

impl ComponentIndex {
    /// The reverse side: each indexed entity mapped to its one live key.
    pub closed spec fn rev_view(self) -> Map<u64, u64> {
        self.reverse@
    }

    /// The entities bucketed under `k`, in insertion order; empty for an
    /// unknown key.
    pub closed spec fn bucket(self, k: u64) -> Seq<u64> {
        if mm_contents(self.forward).contains_key(k) {
            mm_contents(self.forward)[k]
        } else {
            Seq::<u64>::empty()
        }
    }

    /// Whether `e` currently holds an entry in the index.
    pub open spec fn indexed(self, e: u64) -> bool {
        self.rev_view().contains_key(e)
    }

    /// Bidirectional consistency: an entity stands in the bucket of its
    /// reverse entry and in no other, and in that bucket exactly once.
    pub open spec fn inv(self) -> bool {
        &&& forall|k: u64, e: u64|
            #[trigger] self.bucket(k).contains(e) <==> (self.rev_view().contains_key(e)
                && self.rev_view()[e] == k)
        &&& forall|k: u64| (#[trigger] self.bucket(k)).no_duplicates()
    }

    /// Creates an empty index.
    pub fn new() -> (r: Self)
        ensures
            r.inv(),
            r.rev_view() == Map::<u64, u64>::empty(),
            forall|k: u64| #[trigger] r.bucket(k) == Seq::<u64>::empty(),
    {
        Self::default()
    }

    /// Returns every entity currently mapped to `component_key`, in
    /// insertion order; the empty vector is the answer for an unknown key.
    pub fn get(&self, component_key: u64) -> (r: Vec<u64>)
        ensures
            r@ == self.bucket(component_key),
    {
        let mut out: Vec<u64> = Vec::new();
        match mm_get_vec(&self.forward, &component_key) {
            None => {},
            Some(v) => {
                let mut i: usize = 0;
                while i < v.len()
                    invariant
                        i <= v@.len(),
                        v@ == self.bucket(component_key),
                        out@ == v@.take(i as int),
                    decreases v@.len() - i,
                {
                    out.push(v[i]);
                    proof {
                        assert(v@.take(i + 1 as int) =~= v@.take(i as int).push(v@[i as int]));
                    }
                    i += 1;
                }
                proof {
                    assert(v@.take(v@.len() as int) =~= v@);
                }
            },
        }
        out
    }

    /// Adds `entity` to the bucket of `component_key` and records the key
    /// as the entity's one live key. An entity that already holds a key
    /// must be removed first; `insert` alone never clears a prior mapping.
    ///
    /// Laws stated below: the entity appears in the bucket it was inserted
    /// under (round trip with `get`), and every entity already in a bucket
    /// stays there (multiplicity).
    pub fn insert(&mut self, component_key: u64, entity: u64)
        requires
            old(self).inv(),
            !old(self).indexed(entity),
        ensures
            final(self).inv(),
            final(self).rev_view() == old(self).rev_view().insert(entity, component_key),
            forall|k: u64|
                #[trigger] final(self).bucket(k) == (if k == component_key {
                    old(self).bucket(k).push(entity)
                } else {
                    old(self).bucket(k)
                }),
            final(self).bucket(component_key).contains(entity),
            forall|k: u64, x: u64|
                old(self).bucket(k).contains(x) ==> #[trigger] final(self).bucket(k).contains(x),
    {
        let ghost pre = *old(self);
        mm_insert(&mut self.forward, component_key, entity);
        self.reverse.insert(entity, component_key);
        proof {
            let post = *self;
            lemma_push_contains(pre.bucket(component_key), entity);
            assert(forall|k: u64|
                #[trigger] post.bucket(k) == (if k == component_key {
                    pre.bucket(k).push(entity)
                } else {
                    pre.bucket(k)
                }));
            assert(!pre.bucket(component_key).contains(entity));
            lemma_push_no_duplicates(pre.bucket(component_key), entity);
            assert forall|k: u64, e: u64| #[trigger]
                post.bucket(k).contains(e) <==> (post.rev_view().contains_key(e)
                    && post.rev_view()[e] == k) by {
                assert(pre.bucket(k).contains(e) <==> (pre.rev_view().contains_key(e)
                    && pre.rev_view()[e] == k));
            };
        }
    }

    /// Deletes `entity` from the bucket of its current key and drops its
    /// reverse entry; a no-op when the entity is not indexed, so removal
    /// notifications may arrive more than once or for entities never seen.
    ///
    /// Laws stated below: afterwards no bucket contains the entity (both
    /// sides cleared), a removal of an absent entity changes nothing
    /// (idempotence), and every other entity keeps its bucket
    /// (multiplicity).
    pub fn remove(&mut self, entity: u64)
        requires
            old(self).inv(),
        ensures
            final(self).inv(),
            final(self).rev_view() == old(self).rev_view().remove(entity),
            forall|k: u64|
                #[trigger] final(self).bucket(k) == old(self).bucket(k).filter(
                    |x: u64| x != entity,
                ),
            !final(self).indexed(entity),
            forall|k: u64| !(#[trigger] final(self).bucket(k)).contains(entity),
            !old(self).indexed(entity) ==> final(self).rev_view() == old(self).rev_view() && (
            forall|k: u64| #[trigger] final(self).bucket(k) == old(self).bucket(k)),
            forall|k: u64, x: u64|
                x != entity ==> ((#[trigger] final(self).bucket(k).contains(x)) <==> old(
                    self,
                ).bucket(k).contains(x)),
    {
        let ghost pre = *old(self);
        let prior: Option<u64> = match self.reverse.get(&entity) {
            Some(k) => Some(*k),
            None => None,
        };
        match prior {
            None => {
                proof {
                    assert(pre.rev_view().remove(entity) =~= pre.rev_view());
                    assert forall|k: u64|
                        #[trigger] pre.bucket(k) == pre.bucket(k).filter(|x: u64| x != entity) by {
                        assert(!pre.bucket(k).contains(entity));
                        lemma_filter_ne_identity(pre.bucket(k), entity);
                    };
                    lemma_buckets_filtered(pre, *self, entity);
                }
            },
            Some(k0) => {
                self.reverse.remove(&entity);
                let taken = mm_remove(&mut self.forward, &k0);
                match taken {
                    None => {
                        proof {
                            assert(pre.bucket(k0).contains(entity));
                            assert(false);
                        }
                    },
                    Some(b) => {
                        proof {
                            assert(b@ == pre.bucket(k0));
                            assert(b@.take(0) =~= Seq::<u64>::empty());
                            reveal(Seq::filter);
                            assert(self.bucket(k0) =~= b@.take(0).filter(|x: u64| x != entity));
                        }
                        let mut i: usize = 0;
                        while i < b.len()
                            invariant
                                i <= b@.len(),
                                b@ == pre.bucket(k0),
                                self.reverse@ == pre.rev_view().remove(entity),
                                self.bucket(k0) == b@.take(i as int).filter(|x: u64| x != entity),
                                forall|k: u64|
                                    k != k0 ==> #[trigger] self.bucket(k) == pre.bucket(k),
                            decreases b@.len() - i,
                        {
                            let v = b[i];
                            let ghost mid = *self;
                            if v != entity {
                                mm_insert(&mut self.forward, k0, v);
                            }
                            proof {
                                reveal(Seq::filter);
                                let t1 = b@.take(i as int + 1);
                                assert(t1.drop_last() =~= b@.take(i as int));
                                assert(t1.last() == b@[i as int]);
                                assert forall|k: u64|
                                    k != k0 implies #[trigger] self.bucket(k) == pre.bucket(k) by {
                                    assert(mid.bucket(k) == pre.bucket(k));
                                    assert(mm_contents(self.forward).contains_key(k)
                                        == mm_contents(mid.forward).contains_key(k));
                                };
                            }
                            i += 1;
                        }
                        proof {
                            assert(b@.take(b@.len() as int) =~= b@);
                            assert(self.bucket(k0) == pre.bucket(k0).filter(|x: u64| x != entity));
                            assert forall|k: u64|
                                #[trigger] self.bucket(k) == pre.bucket(k).filter(
                                    |x: u64| x != entity,
                                ) by {
                                if k != k0 {
                                    assert(!pre.bucket(k).contains(entity));
                                    lemma_filter_ne_identity(pre.bucket(k), entity);
                                }
                            };
                            lemma_buckets_filtered(pre, *self, entity);
                        }
                    },
                }
            },
        }
    }

    /// Moves `entity` to the bucket of `new_key`: an unconditional removal
    /// followed by an insertion, the one safe way to change an entity's
    /// key. The exclusive borrow makes the move atomic for readers: no
    /// observable state has the entity in neither bucket or in both.
    ///
    /// Laws stated below: afterwards the entity is in the bucket of
    /// `new_key` and in no other, so a read of the prior key no longer
    /// sees it.
    pub fn update(&mut self, entity: u64, new_key: u64)
        requires
            old(self).inv(),
        ensures
            final(self).inv(),
            final(self).rev_view() == old(self).rev_view().insert(entity, new_key),
            forall|k: u64|
                #[trigger] final(self).bucket(k) == (if k == new_key {
                    old(self).bucket(k).filter(|x: u64| x != entity).push(entity)
                } else {
                    old(self).bucket(k).filter(|x: u64| x != entity)
                }),
            final(self).bucket(new_key).contains(entity),
            forall|k: u64| k != new_key ==> !(#[trigger] final(self).bucket(k)).contains(entity),
    {
        let ghost pre = *old(self);
        self.remove(entity);
        self.insert(new_key, entity);
        proof {
            assert(pre.rev_view().remove(entity).insert(entity, new_key) =~= pre.rev_view().insert(
                entity,
                new_key,
            ));
            assert forall|k: u64| k != new_key implies !(#[trigger] self.bucket(k)).contains(
                entity,
            ) by {
                assert(self.bucket(k).contains(entity) <==> (self.rev_view().contains_key(entity)
                    && self.rev_view()[entity] == k));
            };
        }
    }
}

impl Default for ComponentIndex {
    /// Creates an empty index: both sides hold nothing.
    fn default() -> (r: Self)
        ensures
            r.inv(),
            r.rev_view() == Map::<u64, u64>::empty(),
            forall|k: u64| #[trigger] r.bucket(k) == Seq::<u64>::empty(),
    {
        let r = ComponentIndex { forward: mm_new(), reverse: HashMap::new() };
        proof {
            assert(r.rev_view() =~= Map::<u64, u64>::empty());
        }
        r
    }
}

/// Every element of `s.push(v)` is an element of `s` or is `v`.
proof fn lemma_push_contains(s: Seq<u64>, v: u64)
    ensures
        forall|x: u64| #[trigger] s.push(v).contains(x) <==> (s.contains(x) || x == v),
{
    assert forall|x: u64| #[trigger] s.push(v).contains(x) implies (s.contains(x) || x == v) by {
        let i = choose|i: int| 0 <= i < s.push(v).len() && s.push(v)[i] == x;
        if i < s.len() {
            assert(s[i] == x);
        }
    };
    assert forall|x: u64| (s.contains(x) || x == v) implies #[trigger] s.push(v).contains(x) by {
        if s.contains(x) {
            let i = choose|i: int| 0 <= i < s.len() && s[i] == x;
            assert(s.push(v)[i] == x);
        } else {
            assert(s.push(v)[s.len() as int] == x);
        }
    };
}

/// Pushing a fresh element keeps a sequence duplicate-free.
proof fn lemma_push_no_duplicates(s: Seq<u64>, v: u64)
    requires
        s.no_duplicates(),
        !s.contains(v),
    ensures
        s.push(v).no_duplicates(),
{
    let t = s.push(v);
    assert forall|i: int, j: int|
        (0 <= i < t.len() && 0 <= j < t.len() && i != j) implies t[i] != t[j] by {
        if i < s.len() && j < s.len() {
            assert(t[i] == s[i] && t[j] == s[j]);
        } else if i < s.len() {
            assert(t[i] == s[i] && t[j] == v);
            if s[i] == v {
                assert(s.contains(v));
            }
        } else if j < s.len() {
            assert(t[j] == s[j] && t[i] == v);
            if s[j] == v {
                assert(s.contains(v));
            }
        }
    };
}

/// Filtering keeps exactly the elements that satisfy the predicate, and
/// keeps a duplicate-free sequence duplicate-free.
proof fn lemma_filter_membership(s: Seq<u64>, pred: spec_fn(u64) -> bool)
    ensures
        forall|x: u64| #[trigger] s.filter(pred).contains(x) <==> (s.contains(x) && pred(x)),
        s.no_duplicates() ==> s.filter(pred).no_duplicates(),
    decreases s.len(),
{
    reveal(Seq::filter);
    if s.len() == 0 {
        assert(forall|x: u64| !s.contains(x));
        assert(forall|x: u64| !s.filter(pred).contains(x));
    } else {
        let sub = s.drop_last();
        let last = s.last();
        lemma_filter_membership(sub, pred);
        assert(sub.push(last) =~= s);
        lemma_push_contains(sub, last);
        if pred(last) {
            lemma_push_contains(sub.filter(pred), last);
        }
        if s.no_duplicates() {
            assert(sub.no_duplicates());
            assert(!sub.contains(last)) by {
                if sub.contains(last) {
                    let i = choose|i: int| 0 <= i < sub.len() && sub[i] == last;
                    assert(s[i] == s[s.len() - 1]);
                }
            };
            if pred(last) {
                assert(!sub.filter(pred).contains(last));
                lemma_push_no_duplicates(sub.filter(pred), last);
            }
        }
    }
}

/// Filtering out an element that a sequence does not contain leaves the
/// sequence as it is.
proof fn lemma_filter_ne_identity(s: Seq<u64>, e: u64)
    requires
        !s.contains(e),
    ensures
        s.filter(|x: u64| x != e) == s,
    decreases s.len(),
{
    reveal(Seq::filter);
    if s.len() == 0 {
        assert(s.filter(|x: u64| x != e) =~= s);
    } else {
        let sub = s.drop_last();
        assert(!sub.contains(e)) by {
            if sub.contains(e) {
                let i = choose|i: int| 0 <= i < sub.len() && sub[i] == e;
                assert(s[i] == e);
                assert(s.contains(e));
            }
        };
        lemma_filter_ne_identity(sub, e);
        assert(s.last() != e) by {
            assert(s[s.len() - 1] == s.last());
            if s.last() == e {
                assert(s.contains(e));
            }
        };
        assert(s.filter(|x: u64| x != e) =~= s);
    }
}

/// When every bucket of `post` is the matching bucket of `pre` with one
/// entity filtered out, and the reverse entry of that entity is gone, the
/// lockstep invariant carries over and the entity is in no bucket.
proof fn lemma_buckets_filtered(pre: ComponentIndex, post: ComponentIndex, entity: u64)
    requires
        pre.inv(),
        post.rev_view() == pre.rev_view().remove(entity),
        forall|k: u64|
            #[trigger] post.bucket(k) == pre.bucket(k).filter(|x: u64| x != entity),
    ensures
        post.inv(),
        forall|k: u64| !(#[trigger] post.bucket(k)).contains(entity),
        forall|k: u64, x: u64|
            x != entity ==> ((#[trigger] post.bucket(k).contains(x)) <==> pre.bucket(k).contains(
                x,
            )),
{
    assert forall|k: u64, e: u64| #[trigger]
        post.bucket(k).contains(e) <==> (post.rev_view().contains_key(e) && post.rev_view()[e]
            == k) by {
        lemma_filter_membership(pre.bucket(k), |x: u64| x != entity);
        assert(pre.bucket(k).contains(e) <==> (pre.rev_view().contains_key(e) && pre.rev_view()[e]
            == k));
    };
    assert forall|k: u64| (#[trigger] post.bucket(k)).no_duplicates() by {
        lemma_filter_membership(pre.bucket(k), |x: u64| x != entity);
        assert(pre.bucket(k).no_duplicates());
    };
    assert forall|k: u64| !(#[trigger] post.bucket(k)).contains(entity) by {
        lemma_filter_membership(pre.bucket(k), |x: u64| x != entity);
    };
    assert forall|k: u64, x: u64|
        x != entity implies ((#[trigger] post.bucket(k).contains(x)) <==> pre.bucket(k).contains(
        x,
    )) by {
        lemma_filter_membership(pre.bucket(k), |x: u64| x != entity);
    };
}

} // verus!
