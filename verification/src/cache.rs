//! The executable cache and its verified operations.

use crate::model::{
    chain, dist, init_model, lemma_percentage_bounds, limit_for, model_inv, move_distance_of,
    put_model, slot_of, update_model, Model, INITIAL_MOVE_RATIO, STEP_COUNT,
};
use std::collections::HashMap;
use vstd::prelude::*;
use vstd::std_specs::hash::obeys_key_model;

verus! {

/// A resident entry: the value and the entry's current ring slot.
struct CacheEntry<V> {
    value: V,
    index: usize,
}

/// The position ring and the shared adaptive tuning state.
struct Lru<K> {
    ring: Vec<K>,
    top: usize,
    max_pointer: usize,
    move_ratio: usize,
    min_update_distance: usize,
    min_update_limit: usize,
    long_distance: usize,
}

impl<K> Lru<K> {
    /// Recompute the ceiling `min_update_distance` may grow toward; called
    /// whenever `move_ratio` changes.
    fn set_min_update_limit(&mut self)
        requires
            old(self).move_ratio <= 99,
            (old(self).max_pointer + 1) * 100 <= usize::MAX,
        ensures
            *final(self) == (Lru {
                min_update_limit: final(self).min_update_limit,
                ..*old(self)
            }),
            final(self).min_update_limit == limit_for(
                old(self).max_pointer + 1,
                old(self).move_ratio as int,
            ),
    {
        proof {
            crate::model::lemma_percentage_bounds(self.max_pointer as int, self.move_ratio as int);
        }
        self.min_update_limit = 1 + self.max_pointer - (self.max_pointer * self.move_ratio) / 100;
    }
}

/// A fixed-capacity key/value cache with approximate least-recently-used
/// eviction: a circular ring of keys encodes recency by slot position, and a
/// hit may advance its entry toward the `top` cursor by a bounded swap chain.
#[verifier::reject_recursive_types(K)]
pub struct SwapCache<K, V> {
    mapping: HashMap<K, CacheEntry<V>>,
    lru: Lru<K>,
}

impl<K, V> View for SwapCache<K, V> {
    type V = Model<K, V>;

    closed spec fn view(&self) -> Model<K, V> {
        Model {
            values: self.mapping@.map_values(|e: CacheEntry<V>| e.value),
            ring: self.lru.ring@,
            top: self.lru.top as int,
            cap: self.lru.max_pointer + 1,
            move_ratio: self.lru.move_ratio as int,
            min_update_distance: self.lru.min_update_distance as int,
            min_update_limit: self.lru.min_update_limit as int,
            long_distance: self.lru.long_distance as int,
        }
    }
}

impl<K: Copy + Eq + core::hash::Hash, V> SwapCache<K, V> {
    /// Every key's recorded slot holds that key, and every occupied slot
    /// belongs to a resident key: ring and map never diverge.
    spec fn positions_consistent(&self) -> bool {
        &&& forall|k: K|
            self.mapping@.contains_key(k) ==> {
                &&& (#[trigger] self.mapping@[k]).index < self.lru.ring@.len()
                &&& self.lru.ring@[self.mapping@[k].index as int] == k
            }
        &&& forall|i: int|
            0 <= i < self.lru.ring@.len() ==> {
                &&& self.mapping@.contains_key(#[trigger] self.lru.ring@[i])
                &&& self.mapping@[self.lru.ring@[i]].index == i
            }
    }

    /// Well-formedness: the hash map behaves as a map of keys (the standard
    /// hashable-key assumption), ring and map are consistent, the model
    /// invariant holds, and the capacity is small enough that the percentage
    /// arithmetic cannot overflow.
    pub closed spec fn wf(&self) -> bool {
        &&& obeys_key_model::<K>()
        &&& self.positions_consistent()
        &&& model_inv(self@)
        &&& (self.lru.max_pointer + 1) * 100 <= usize::MAX
    }

    /// Construct a cache of capacity `size`; capacity 0 is rejected.
    pub fn new(size: usize) -> (result: Option<SwapCache<K, V>>)
        requires
            obeys_key_model::<K>(),
            size * 100 <= usize::MAX,
        ensures
            match result {
                Some(cache) => size >= 1 && cache.wf() && cache@ == init_model::<K, V>(
                    size as int,
                ),
                None => size == 0,
            },
    {
        if size < 1 {
            return None;
        }
        let mut cache = SwapCache {
            mapping: HashMap::new(),
            lru: Lru {
                ring: Vec::new(),
                top: 0,
                max_pointer: size - 1,
                move_ratio: INITIAL_MOVE_RATIO,
                min_update_distance: (size * INITIAL_MOVE_RATIO) / 100,
                min_update_limit: 0,
                long_distance: size / 4,
            },
        };
        cache.lru.set_min_update_limit();
        proof {
            assert(cache@.values =~= Map::<K, V>::empty());
            assert(cache@.values.dom() =~= cache@.ring.to_set());
            assert(cache@ == init_model::<K, V>(size as int));
        }
        Some(cache)
    }

    /// Insert `key` with `value`. A key already resident is left untouched —
    /// neither its value nor its position changes. Otherwise the new entry
    /// takes the slot at `top`; once the ring is full that slot's previous
    /// occupant is evicted. `top` then advances by one, wrapping at the
    /// capacity.
    pub fn put(&mut self, key: K, value: V)
        requires
            old(self).wf(),
        ensures
            final(self).wf(),
            final(self)@ == put_model(old(self)@, key, value),
    {
        if self.mapping.contains_key(&key) {
            return;
        }
        let ghost m0 = self.mapping@;
        let ghost ring0 = self.lru.ring@;
        let top = self.lru.top;
        self.mapping.insert(key, CacheEntry { value, index: top });
        if self.lru.ring.len() <= top {
            self.lru.ring.push(key);
            proof {
                assert(ring0.to_set().contains(key) ==> ring0.contains(key));
                assert forall|k: K| self.mapping@.contains_key(k) implies {
                    &&& (#[trigger] self.mapping@[k]).index < self.lru.ring@.len()
                    &&& self.lru.ring@[self.mapping@[k].index as int] == k
                } by {
                    if k != key {
                        assert(m0.contains_key(k));
                        assert(ring0[m0[k].index as int] == k);
                    }
                }
                assert forall|i: int| 0 <= i < self.lru.ring@.len() implies {
                    &&& self.mapping@.contains_key(#[trigger] self.lru.ring@[i])
                    &&& self.mapping@[self.lru.ring@[i]].index == i
                } by {
                    if i < ring0.len() {
                        assert(self.lru.ring@[i] == ring0[i]);
                        assert(ring0.to_set().contains(ring0[i]));
                    }
                }
            }
        } else {
            let dead_key = self.lru.ring[top];
            proof {
                assert(old(self)@.ring.to_set().contains(dead_key));
            }
            self.mapping.remove(&dead_key);
            self.lru.ring.set(top, key);
            if self.lru.min_update_distance > self.lru.move_ratio / 100 {
                self.lru.min_update_distance = self.lru.min_update_distance - 1;
            }
            proof {
                assert(ring0.to_set().contains(key) ==> ring0.contains(key));
                assert forall|k: K| self.mapping@.contains_key(k) implies {
                    &&& (#[trigger] self.mapping@[k]).index < self.lru.ring@.len()
                    &&& self.lru.ring@[self.mapping@[k].index as int] == k
                } by {
                    if k != key {
                        assert(m0.contains_key(k));
                        assert(ring0[m0[k].index as int] == k);
                        assert(ring0[top as int] == dead_key);
                        assert(m0[k].index != top);
                    }
                }
                assert forall|i: int| 0 <= i < self.lru.ring@.len() implies {
                    &&& self.mapping@.contains_key(#[trigger] self.lru.ring@[i])
                    &&& self.mapping@[self.lru.ring@[i]].index == i
                } by {
                    if i != top {
                        assert(self.lru.ring@[i] == ring0[i]);
                        assert(ring0.to_set().contains(ring0[i]));
                        assert(m0[ring0[i]].index == i);
                        assert(ring0[i] != dead_key);
                    }
                }
                assert(self@.values =~= put_model(old(self)@, key, value).values);
            }
        }
        self.lru.top = top + 1;
        if self.lru.top > self.lru.max_pointer {
            self.lru.top = 0;
        }
        proof {
            assert(self.lru.ring@.no_duplicates()) by {
                assert forall|i: int, j: int|
                    0 <= i < self.lru.ring@.len() && 0 <= j < self.lru.ring@.len() && i
                        != j implies self.lru.ring@[i] != self.lru.ring@[j] by {
                    assert(self.mapping@[self.lru.ring@[i]].index == i);
                    assert(self.mapping@[self.lru.ring@[j]].index == j);
                }
            }
            assert(self@.values.dom() =~= self@.ring.to_set()) by {
                assert forall|a: K| self@.values.dom().contains(a) implies self@.ring.to_set().contains(
                    a,
                ) by {
                    assert(self.lru.ring@[self.mapping@[a].index as int] == a);
                    assert(self@.ring.contains(a));
                }
                assert forall|a: K| self@.ring.to_set().contains(a) implies self@.values.dom().contains(
                    a,
                ) by {
                    let i = choose|i: int| 0 <= i < self@.ring.len() && self@.ring[i] == a;
                    assert(self.mapping@.contains_key(self.lru.ring@[i]));
                }
            }
            assert(self@ =~= put_model(old(self)@, key, value));
        }
    }

    /// Look up `key`; on a hit, advance its entry toward `top` when it sits
    /// further away than `min_update_distance`, swapping intervening keys
    /// backward, then adjust the tuning parameters. A miss changes nothing.
    ///
    /// The chain advances exactly `move_distance` slots in increments of
    /// `step` (the last increment may be shorter) and wraps modulo the
    /// capacity, so it can never overshoot past `top` or leave the occupied
    /// part of the ring.
    fn update(&mut self, key: &K, count: usize) -> (found: bool)
        requires
            old(self).wf(),
            count >= 1,
        ensures
            final(self).wf(),
            found == old(self)@.values.contains_key(*key),
            final(self)@ == update_model(old(self)@, *key, count as int),
            !found ==> *final(self) == *old(self),
    {
        let ghost mm = old(self)@;
        let ghost k = *key;
        let current_start = match self.mapping.get(key) {
            None => {
                return false;
            },
            Some(e) => e.index,
        };
        let ghost c0 = current_start as int;
        proof {
            assert(mm.ring[c0] == k);
            assert(exists|i: int| 0 <= i < mm.ring.len() && mm.ring[i] == k);
            let i0 = slot_of(mm.ring, k);
            assert(0 <= i0 < mm.ring.len() && mm.ring[i0] == k);
            assert(self.mapping@[mm.ring[i0]].index == i0);
            assert(slot_of(mm.ring, k) == c0);
        }
        let top = self.lru.top;
        let maxp = self.lru.max_pointer;
        let distance = if current_start <= top {
            top - current_start
        } else {
            top + maxp - current_start
        };
        proof {
            assert(distance == dist(c0, top as int, maxp as int));
        }
        if distance <= self.lru.min_update_distance {
            return true;
        }
        proof {
            lemma_percentage_bounds(distance as int, self.lru.move_ratio as int);
            vstd::arithmetic::div_mod::lemma_fundamental_div_mod(
                distance as int * self.lru.move_ratio as int,
                100,
            );
            vstd::arithmetic::div_mod::lemma_mod_bound(
                distance as int * self.lru.move_ratio as int,
                100,
            );
            vstd::arithmetic::mul::lemma_mul_inequality(
                self.lru.move_ratio as int,
                99,
                distance as int,
            );
            vstd::arithmetic::mul::lemma_mul_is_commutative(
                distance as int,
                self.lru.move_ratio as int,
            );
        }
        let move_distance = (distance * self.lru.move_ratio) / 100;
        let pre_step = move_distance / count;
        let step_size = if pre_step < 1 {
            1
        } else {
            pre_step
        };
        let ghost md = move_distance as int;
        let ghost step = step_size as int;
        proof {
            // 100 * md <= distance * move_ratio <= 99 * distance, so md < distance.
            assert(100 * md <= 99 * (distance as int));
            assert(md < distance);
            assert(move_distance_of(distance as int, mm.move_ratio, count as int) == (md, step));
        }
        let cap = maxp + 1;
        let ghost len = self.lru.ring@.len() as int;
        let ghost mc0 = self.mapping@;
        let ghost rc0 = self.lru.ring@;
        let mut current_index = current_start;
        let mut remaining = move_distance;
        while remaining > 0
            invariant
                old(self).wf(),
                count >= 1,
                self.lru.top == old(self).lru.top,
                self.lru.max_pointer == old(self).lru.max_pointer,
                self.lru.move_ratio == old(self).lru.move_ratio,
                self.lru.min_update_distance == old(self).lru.min_update_distance,
                self.lru.min_update_limit == old(self).lru.min_update_limit,
                self.lru.long_distance == old(self).lru.long_distance,
                top == old(self).lru.top,
                maxp == old(self).lru.max_pointer,
                cap == maxp + 1,
                mm == old(self)@,
                mc0 == old(self).mapping@,
                rc0 == old(self).lru.ring@,
                self.lru.ring@.len() == len,
                len == rc0.len(),
                len <= cap,
                len < cap ==> top == len,
                len == cap ==> top < cap,
                0 <= c0 < len,
                mc0.contains_key(k),
                mc0[k].index == c0,
                distance == dist(c0, top as int, maxp as int),
                distance > old(self).lru.min_update_distance,
                0 <= md < distance,
                distance <= maxp,
                step >= 1,
                step == step_size,
                md == move_distance,
                len < cap ==> c0 + md < len,
                remaining <= md,
                current_index < len,
                current_index as int == (if c0 + (md - remaining) < cap {
                    c0 + (md - remaining)
                } else {
                    c0 + (md - remaining) - cap
                }),
                self.mapping@.dom() =~= mc0.dom(),
                forall|q: K|
                    mc0.contains_key(q) ==> (#[trigger] self.mapping@[q]).value == mc0[q].value,
                self.mapping@[k].index == c0,
                forall|q: K|
                    self.mapping@.contains_key(q) && q != k ==> {
                        &&& (#[trigger] self.mapping@[q]).index < len
                        &&& self.lru.ring@[self.mapping@[q].index as int] == q
                    },
                forall|q: K|
                    self.mapping@.contains_key(q) && (#[trigger] self.mapping@[q]).index
                        == current_index ==> q == k,
                forall|i: int|
                    0 <= i < len && i != current_index ==> {
                        &&& self.mapping@.contains_key(#[trigger] self.lru.ring@[i])
                        &&& self.mapping@[self.lru.ring@[i]].index == i
                    },
                forall|i: int|
                    0 <= i < len && #[trigger] self.lru.ring@[i] == k ==> i == c0
                        && current_index as int == c0,
                chain(rc0, c0, md as nat, step as nat, cap as int) == chain(
                    self.lru.ring@,
                    current_index as int,
                    remaining as nat,
                    step as nat,
                    cap as int,
                ),
            decreases remaining,
        {
            let ghost rem_pre = remaining as int;
            let ghost cur_pre = current_index as int;
            let ghost ring_pre = self.lru.ring@;
            let adv = if step_size <= remaining {
                step_size
            } else {
                remaining
            };
            let mut next_index = current_index + adv;
            if next_index >= cap {
                next_index -= cap;
            }
            proof {
                assert(1 <= adv <= remaining);
                assert(next_index < len);
                assert(next_index != current_index);
                assert(next_index as int != c0);
                assert(self.mapping@.contains_key(self.lru.ring@[next_index as int]));
                assert(self.lru.ring@[next_index as int] != k);
            }
            let demoted = self.lru.ring[next_index];
            let entry = self.mapping.remove(&demoted).unwrap();
            self.mapping.insert(
                demoted,
                CacheEntry { value: entry.value, index: current_index },
            );
            self.lru.ring.set(current_index, demoted);
            current_index = next_index;
            remaining = remaining - adv;
            proof {
                assert(self.mapping@.dom() =~= mc0.dom());
                assert forall|q: K|
                    self.mapping@.contains_key(q) && q != k implies {
                    &&& (#[trigger] self.mapping@[q]).index < len
                    &&& self.lru.ring@[self.mapping@[q].index as int] == q
                } by {
                    if q != demoted {
                        assert(self.mapping@[q].index != cur_pre);
                        assert(self.mapping@[q].index != next_index ==> self.lru.ring@[self.mapping@[q].index as int]
                            == ring_pre[self.mapping@[q].index as int]);
                        if self.mapping@[q].index == next_index {
                            assert(ring_pre[next_index as int] == demoted);
                        }
                    }
                }
                assert forall|i: int|
                    0 <= i < len && i != current_index implies {
                    &&& self.mapping@.contains_key(#[trigger] self.lru.ring@[i])
                    &&& self.mapping@[self.lru.ring@[i]].index == i
                } by {
                    if i == cur_pre {
                        assert(self.lru.ring@[i] == demoted);
                    } else {
                        assert(self.lru.ring@[i] == ring_pre[i]);
                        assert(mc0.dom().contains(ring_pre[i]));
                        if ring_pre[i] == demoted {
                            assert(false);
                        }
                    }
                }
                assert forall|q: K|
                    self.mapping@.contains_key(q) && (#[trigger] self.mapping@[q]).index
                        == current_index implies q == k by {
                    if q != k && q != demoted {
                        assert(self.lru.ring@[self.mapping@[q].index as int] == q);
                        assert(ring_pre[next_index as int] == demoted);
                    }
                }
                assert forall|i: int|
                    0 <= i < len && #[trigger] self.lru.ring@[i] == k implies i == c0
                    && current_index as int == c0 by {
                    if i == cur_pre {
                        assert(self.lru.ring@[i] == demoted);
                    } else {
                        assert(self.lru.ring@[i] == ring_pre[i]);
                    }
                }
                assert(chain(ring_pre, cur_pre, rem_pre as nat, step as nat, cap as int) == chain(
                    self.lru.ring@,
                    current_index as int,
                    remaining as nat,
                    step as nat,
                    cap as int,
                ));
            }
        }
        let ghost ring_exit = self.lru.ring@;
        let ghost map_exit = self.mapping@;
        if self.lru.min_update_distance < self.lru.min_update_limit {
            self.lru.min_update_distance = self.lru.min_update_distance + 1;
        }
        if distance < self.lru.long_distance && self.lru.move_ratio >= 1 {
            self.lru.move_ratio = self.lru.move_ratio - 1;
            self.lru.set_min_update_limit();
        } else if self.lru.move_ratio < 99 {
            self.lru.move_ratio = self.lru.move_ratio + 1;
            self.lru.set_min_update_limit();
        }
        let ghost cur_final = current_index as int;
        let entry = self.mapping.remove(key).unwrap();
        self.mapping.insert(*key, CacheEntry { value: entry.value, index: current_index });
        self.lru.ring.set(current_index, *key);
        proof {
            assert(self.mapping@.dom() =~= mc0.dom());
            assert forall|q: K| self.mapping@.contains_key(q) implies {
                &&& (#[trigger] self.mapping@[q]).index < self.lru.ring@.len()
                &&& self.lru.ring@[self.mapping@[q].index as int] == q
            } by {
                if q != k {
                    assert(self.mapping@[q].index != cur_final);
                }
            }
            assert forall|i: int| 0 <= i < self.lru.ring@.len() implies {
                &&& self.mapping@.contains_key(#[trigger] self.lru.ring@[i])
                &&& self.mapping@[self.lru.ring@[i]].index == i
            } by {
                if i != cur_final {
                    assert(self.lru.ring@[i] == ring_exit[i]);
                    assert(ring_exit[i] != k);
                    assert(map_exit.contains_key(ring_exit[i]));
                    assert(map_exit[ring_exit[i]].index == i);
                }
            }
            assert(self.lru.ring@.no_duplicates()) by {
                assert forall|i: int, j: int|
                    0 <= i < self.lru.ring@.len() && 0 <= j < self.lru.ring@.len() && i
                        != j implies self.lru.ring@[i] != self.lru.ring@[j] by {
                    assert(self.mapping@[self.lru.ring@[i]].index == i);
                    assert(self.mapping@[self.lru.ring@[j]].index == j);
                }
            }
            assert(self@.values.dom() =~= self@.ring.to_set()) by {
                assert forall|a: K| self@.values.dom().contains(a) implies self@.ring.to_set().contains(
                    a,
                ) by {
                    assert(self.lru.ring@[self.mapping@[a].index as int] == a);
                    assert(self@.ring.contains(a));
                }
                assert forall|a: K| self@.ring.to_set().contains(a) implies self@.values.dom().contains(
                    a,
                ) by {
                    let i = choose|i: int| 0 <= i < self@.ring.len() && self@.ring[i] == a;
                    assert(self.mapping@.contains_key(self.lru.ring@[i]));
                }
            }
            assert(self@.values =~= update_model(mm, k, count as int).values);
            assert(self@.ring =~= update_model(mm, k, count as int).ring);
            assert(self@ =~= update_model(mm, k, count as int));
        }
        true
    }

    /// Consistency: in every well-formed cache — and every reachable cache is
    /// well-formed, since `new` establishes `wf` and `put` and `get` preserve
    /// it — the resident keys are exactly the keys in the ring, each sits at
    /// the single slot `slot_of` names, and the map and the ring have the
    /// same size.
    pub proof fn lemma_consistency(&self)
        requires
            self.wf(),
        ensures
            model_inv(self@),
            self@.ring.no_duplicates(),
            self@.values.dom() == self@.ring.to_set(),
            self@.values.len() == self@.ring.len(),
            forall|k: K|
                #[trigger] self@.values.contains_key(k) ==> 0 <= slot_of(self@.ring, k)
                    < self@.ring.len() && self@.ring[slot_of(self@.ring, k)] == k,
    {
        self@.ring.unique_seq_to_set();
        assert forall|k: K| #[trigger] self@.values.contains_key(k) implies 0 <= slot_of(
            self@.ring,
            k,
        ) < self@.ring.len() && self@.ring[slot_of(self@.ring, k)] == k by {
            assert(self@.ring.to_set().contains(k));
            assert(self@.ring.contains(k));
            assert(exists|i: int| 0 <= i < self@.ring.len() && self@.ring[i] == k);
        }
    }

    /// Look up `key`, returning a reference to its value on a hit and
    /// repositioning the entry as [`Self::update`] describes. On a miss the
    /// cache is left exactly as it was.
    pub fn get(&mut self, key: &K) -> (result: Option<&V>)
        requires
            old(self).wf(),
        ensures
            final(self).wf(),
            final(self)@ == update_model(old(self)@, *key, STEP_COUNT as int),
            match result {
                Some(v) => old(self)@.values.contains_key(*key) && *v == old(
                    self,
                )@.values[*key],
                None => !old(self)@.values.contains_key(*key),
            },
            !old(self)@.values.contains_key(*key) ==> *final(self) == *old(self),
    {
        let found = self.update(key, STEP_COUNT);
        if !found {
            return None;
        }
        match self.mapping.get(key) {
            Some(e) => Some(&e.value),
            None => None,
        }
    }
}

} // verus!
