//! The mathematical model of the cache and its transitions.
//!
//! A cache state is abstracted as a [`Model`]: the key/value contents, the
//! ring of keys ordered by slot, the `top` cursor, and the adaptive tuning
//! parameters. The executable operations promise to take the concrete state
//! exactly along these spec-level transitions.

use vstd::prelude::*;

verus! {

/// Number of increments a reposition is subdivided into: the swap chain
/// advances in steps of roughly `move_distance / STEP_COUNT` slots.
pub const STEP_COUNT: usize = 10;

/// Initial value of `move_ratio`, as a percentage.
pub const INITIAL_MOVE_RATIO: usize = 50;

/// Abstract state of a cache.
///
/// `ring` lists the resident keys by slot; an entry's position is its index
/// in `ring`. `cap` is the fixed capacity, `top` the next-write cursor.
/// The remaining fields are the shared adaptive tuning parameters.
#[verifier::ext_equal]
#[verifier::reject_recursive_types(K)]
pub ghost struct Model<K, V> {
    pub values: Map<K, V>,
    pub ring: Seq<K>,
    pub top: int,
    pub cap: int,
    pub move_ratio: int,
    pub min_update_distance: int,
    pub min_update_limit: int,
    pub long_distance: int,
}

/// The state of a freshly constructed cache of capacity `size`.
pub open spec fn init_model<K, V>(size: int) -> Model<K, V> {
    Model {
        values: Map::empty(),
        ring: Seq::empty(),
        top: 0,
        cap: size,
        move_ratio: INITIAL_MOVE_RATIO as int,
        min_update_distance: (size * INITIAL_MOVE_RATIO) / 100,
        min_update_limit: limit_for(size, INITIAL_MOVE_RATIO as int),
        long_distance: size / 4,
    }
}

/// The ceiling `min_update_distance` may grow toward, as a function of the
/// capacity and the current `move_ratio`.
pub open spec fn limit_for(cap: int, move_ratio: int) -> int {
    1 + (cap - 1) - ((cap - 1) * move_ratio) / 100
}

/// Circular distance from slot `pos` back to the cursor `top`, with
/// `maxp = cap - 1`: staleness grows with distance.
pub open spec fn dist(pos: int, top: int, maxp: int) -> int {
    if pos <= top {
        top - pos
    } else {
        top + maxp - pos
    }
}

/// The slot of key `k` in ring `r` (meaningful when `r` holds `k` exactly once).
pub open spec fn slot_of<K>(r: Seq<K>, k: K) -> int {
    choose|i: int| 0 <= i < r.len() && r[i] == k
}

/// The cursor after one advance, wrapping from the last slot to 0.
pub open spec fn next_top(top: int, cap: int) -> int {
    if top + 1 > cap - 1 {
        0
    } else {
        top + 1
    }
}

/// The invariant every reachable model satisfies: the ring never exceeds the
/// capacity and holds each resident key exactly once, `top` tracks the fill
/// point until the ring is full, and the tuning parameters stay in range with
/// `min_update_limit` derived from `move_ratio`.
pub open spec fn model_inv<K, V>(m: Model<K, V>) -> bool {
    &&& 1 <= m.cap
    &&& m.ring.len() <= m.cap
    &&& (m.ring.len() < m.cap ==> m.top == m.ring.len())
    &&& (m.ring.len() == m.cap ==> 0 <= m.top < m.cap)
    &&& m.ring.no_duplicates()
    &&& m.values.dom() =~= m.ring.to_set()
    &&& 0 <= m.move_ratio <= 99
    &&& m.min_update_limit == limit_for(m.cap, m.move_ratio)
    &&& 0 <= m.min_update_distance
    &&& m.long_distance == m.cap / 4
}

/// The state after `put(k, v)`: a no-op when `k` is already resident; an
/// append at `top` while the ring is still growing; otherwise an overwrite of
/// the slot at `top`, evicting the key found there and loosening
/// `min_update_distance` by one (floored at `move_ratio / 100`).
pub open spec fn put_model<K, V>(m: Model<K, V>, k: K, v: V) -> Model<K, V> {
    if m.values.contains_key(k) {
        m
    } else if m.ring.len() < m.cap {
        Model {
            values: m.values.insert(k, v),
            ring: m.ring.push(k),
            top: next_top(m.top, m.cap),
            ..m
        }
    } else {
        Model {
            values: m.values.remove(m.ring[m.top]).insert(k, v),
            ring: m.ring.update(m.top, k),
            top: next_top(m.top, m.cap),
            min_update_distance: if m.min_update_distance > m.move_ratio / 100 {
                m.min_update_distance - 1
            } else {
                m.min_update_distance
            },
            ..m
        }
    }
}

/// The swap chain: starting from `cur`, advance by `step` slots at a time
/// (the final increment may be shorter) until `remaining` is exhausted,
/// wrapping modulo `cap`; each slot the cursor lands on has its key swapped
/// back into the slot just vacated. Returns the ring after the swaps and the
/// final cursor, whose slot still holds the last demoted key until the caller
/// writes the repositioned key there.
pub open spec fn chain<K>(r: Seq<K>, cur: int, remaining: nat, step: nat, cap: int) -> (Seq<K>,
    int)
    decreases remaining,
{
    if remaining == 0 {
        (r, cur)
    } else {
        let adv = if step < 1 {
            1
        } else if step <= remaining {
            step as int
        } else {
            remaining as int
        };
        let nxt = if cur + adv >= cap {
            cur + adv - cap
        } else {
            cur + adv
        };
        chain(r.update(cur, r[nxt]), nxt, (remaining - adv) as nat, step, cap)
    }
}

/// Adaptive tuning applied once per reposition: widen the cheap-hit window if
/// below its ceiling, then nudge `move_ratio` down after a near hit and up
/// after a far one, recomputing `min_update_limit` whenever `move_ratio`
/// changes.
pub open spec fn tune_model<K, V>(m: Model<K, V>, d: int) -> Model<K, V> {
    let m1 = if m.min_update_distance < m.min_update_limit {
        Model { min_update_distance: m.min_update_distance + 1, ..m }
    } else {
        m
    };
    if d < m1.long_distance && m1.move_ratio >= 1 {
        Model {
            move_ratio: m1.move_ratio - 1,
            min_update_limit: limit_for(m1.cap, m1.move_ratio - 1),
            ..m1
        }
    } else if m1.move_ratio < 99 {
        Model {
            move_ratio: m1.move_ratio + 1,
            min_update_limit: limit_for(m1.cap, m1.move_ratio + 1),
            ..m1
        }
    } else {
        m1
    }
}

/// How far a hit at distance `d` advances its entry toward `top`.
pub open spec fn move_distance_of(d: int, move_ratio: int, count: int) -> (int, int) {
    let md = (d * move_ratio) / 100;
    let step = if md / count < 1 {
        1
    } else {
        md / count
    };
    (md, step)
}

/// A percentage `ratio` of `base` is never negative, never above `base`, and
/// the product itself stays at most `100 * base`.
pub proof fn lemma_percentage_bounds(base: int, ratio: int)
    requires
        0 <= base,
        0 <= ratio <= 100,
    ensures
        0 <= base * ratio <= 100 * base,
        0 <= (base * ratio) / 100 <= base,
{
    vstd::arithmetic::mul::lemma_mul_is_commutative(base, ratio);
    vstd::arithmetic::mul::lemma_mul_inequality(ratio, 100, base);
    vstd::arithmetic::mul::lemma_mul_nonnegative(base, ratio);
    vstd::arithmetic::div_mod::lemma_div_is_ordered(base * ratio, 100 * base, 100);
    vstd::arithmetic::div_mod::lemma_div_multiples_vanish(base, 100);
    vstd::arithmetic::div_mod::lemma_div_is_ordered(0, base * ratio, 100);
}

/// The state after a hit on `k` (`update` with subdivision `count`): a miss
/// or a hit within `min_update_distance` of `top` leaves the state unchanged;
/// otherwise the entry advances `move_distance` slots toward `top` through
/// the swap chain and the tuning parameters adjust.
pub open spec fn update_model<K, V>(m: Model<K, V>, k: K, count: int) -> Model<K, V> {
    if !m.values.contains_key(k) {
        m
    } else {
        let c0 = slot_of(m.ring, k);
        let d = dist(c0, m.top, m.cap - 1);
        if d <= m.min_update_distance {
            m
        } else {
            let mds = move_distance_of(d, m.move_ratio, count);
            let rf = chain(m.ring, c0, mds.0 as nat, mds.1 as nat, m.cap);
            let tuned = tune_model(m, d);
            Model { ring: rf.0.update(rf.1, k), ..tuned }
        }
    }
}

} // verus!
