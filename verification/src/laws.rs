//! Laws of the cache, stated and proved over the model.

use crate::model::{
    init_model, lemma_percentage_bounds, limit_for, model_inv, put_model, update_model, Model,
    STEP_COUNT,
};
use vstd::prelude::*;

verus! {

/// Tuning bounds: in every state satisfying the invariant — and every
/// reachable state does, since construction establishes it and each operation
/// preserves it — `move_ratio` lies in `[0, 99]` and `min_update_limit`
/// equals `1 + (cap - 1) - ((cap - 1) * move_ratio) / 100`.
pub proof fn lemma_tuning_bounds<K, V>(m: Model<K, V>)
    requires
        model_inv(m),
    ensures
        0 <= m.move_ratio <= 99,
        m.min_update_limit == 1 + (m.cap - 1) - ((m.cap - 1) * m.move_ratio) / 100,
{
}

/// Hit or miss, a lookup never changes which keys are resident nor their
/// values: only ring positions and the tuning parameters move.
pub proof fn lemma_get_preserves_contents<K, V>(m: Model<K, V>, k: K, count: int)
    ensures
        update_model(m, k, count).values == m.values,
{
}

/// One cache operation: an insert or a lookup.
pub ghost enum Op<K, V> {
    Put(K, V),
    Get(K),
}

/// The model transition of one operation.
pub open spec fn apply_op<K, V>(m: Model<K, V>, op: Op<K, V>) -> Model<K, V> {
    match op {
        Op::Put(k, v) => put_model(m, k, v),
        Op::Get(k) => update_model(m, k, STEP_COUNT as int),
    }
}

/// The model after a sequence of operations, applied in order.
pub open spec fn apply_ops<K, V>(m: Model<K, V>, ops: Seq<Op<K, V>>) -> Model<K, V>
    decreases ops.len(),
{
    if ops.len() == 0 {
        m
    } else {
        apply_ops(apply_op(m, ops[0]), ops.skip(1))
    }
}

/// The part of the invariant the tuning parameters need: `move_ratio` in
/// range and `min_update_limit` derived from it.
pub open spec fn tuning_inv<K, V>(m: Model<K, V>) -> bool {
    &&& 1 <= m.cap
    &&& 0 <= m.move_ratio <= 99
    &&& m.min_update_limit == limit_for(m.cap, m.move_ratio)
    &&& 0 <= m.min_update_distance
}

/// A single operation keeps the tuning parameters in range and the capacity
/// fixed.
proof fn lemma_tuning_inv_step<K, V>(m: Model<K, V>, op: Op<K, V>)
    requires
        tuning_inv(m),
    ensures
        tuning_inv(apply_op(m, op)),
        apply_op(m, op).cap == m.cap,
{
}

proof fn lemma_tuning_inv_ops<K, V>(m: Model<K, V>, ops: Seq<Op<K, V>>)
    requires
        tuning_inv(m),
    ensures
        tuning_inv(apply_ops(m, ops)),
        apply_ops(m, ops).cap == m.cap,
    decreases ops.len(),
{
    if ops.len() > 0 {
        lemma_tuning_inv_step(m, ops[0]);
        lemma_tuning_inv_ops(apply_op(m, ops[0]), ops.skip(1));
    }
}

/// Tuning bounds over histories: after any finite sequence of puts and gets
/// on a fresh cache, `move_ratio` lies in `[0, 99]` and `min_update_limit`
/// equals `1 + (cap - 1) - ((cap - 1) * move_ratio) / 100`.
pub proof fn lemma_tuning_bounded_over_ops<K, V>(cap: int, ops: Seq<Op<K, V>>)
    requires
        1 <= cap,
    ensures
        ({
            let m = apply_ops(init_model::<K, V>(cap), ops);
            &&& 0 <= m.move_ratio <= 99
            &&& m.min_update_limit == 1 + (cap - 1) - ((cap - 1) * m.move_ratio) / 100
            &&& m.cap == cap
        }),
{
    lemma_percentage_bounds(cap, 50);
    assert(tuning_inv(init_model::<K, V>(cap)));
    lemma_tuning_inv_ops(init_model::<K, V>(cap), ops);
}

/// The state after putting `keys` with `vals`, pairwise in order.
pub open spec fn puts_model<K, V>(m: Model<K, V>, keys: Seq<K>, vals: Seq<V>) -> Model<K, V>
    decreases keys.len(),
{
    if keys.len() == 0 {
        m
    } else {
        puts_model(put_model(m, keys[0], vals[0]), keys.skip(1), vals.skip(1))
    }
}

/// Folding one more put at the end of a sequence of puts.
proof fn lemma_puts_model_snoc<K, V>(m: Model<K, V>, keys: Seq<K>, vals: Seq<V>)
    requires
        keys.len() > 0,
        vals.len() == keys.len(),
    ensures
        puts_model(m, keys, vals) == put_model(
            puts_model(m, keys.drop_last(), vals.drop_last()),
            keys.last(),
            vals.last(),
        ),
    decreases keys.len(),
{
    let m1 = put_model(m, keys[0], vals[0]);
    if keys.len() == 1 {
        assert(keys.drop_last() =~= Seq::<K>::empty());
        assert(vals.drop_last() =~= Seq::<V>::empty());
        assert(keys.skip(1) =~= Seq::<K>::empty());
        assert(vals.skip(1) =~= Seq::<V>::empty());
        assert(puts_model(m1, Seq::<K>::empty(), Seq::<V>::empty()) == m1);
        assert(puts_model(m, Seq::<K>::empty(), Seq::<V>::empty()) == m);
        assert(keys.last() == keys[0] && vals.last() == vals[0]);
    } else {
        lemma_puts_model_snoc(m1, keys.skip(1), vals.skip(1));
        assert(keys.skip(1).drop_last() =~= keys.drop_last().skip(1));
        assert(vals.skip(1).drop_last() =~= vals.drop_last().skip(1));
        assert(keys.skip(1).last() == keys.last());
        assert(vals.skip(1).last() == vals.last());
        assert(keys.drop_last()[0] == keys[0] && vals.drop_last()[0] == vals[0]);
        assert(puts_model(m, keys, vals) == puts_model(m1, keys.skip(1), vals.skip(1)));
        assert(puts_model(m, keys.drop_last(), vals.drop_last()) == puts_model(
            m1,
            keys.drop_last().skip(1),
            vals.drop_last().skip(1),
        ));
    }
}

/// While a fresh cache is filling — no more distinct keys put than the
/// capacity — the ring is exactly the sequence of keys put (so its length is
/// the number of distinct puts so far), each key holds its value, and `top`
/// tracks the fill point.
pub proof fn lemma_fill<K, V>(cap: int, keys: Seq<K>, vals: Seq<V>)
    requires
        1 <= cap,
        keys.no_duplicates(),
        keys.len() <= cap,
        vals.len() == keys.len(),
    ensures
        ({
            let m = puts_model(init_model::<K, V>(cap), keys, vals);
            &&& m.ring == keys
            &&& m.values.dom() == keys.to_set()
            &&& forall|j: int| 0 <= j < keys.len() ==> m.values[keys[j]] == vals[j]
            &&& m.top == (if keys.len() < cap {
                keys.len() as int
            } else {
                0
            })
            &&& m.cap == cap
        }),
    decreases keys.len(),
{
    let m = puts_model(init_model::<K, V>(cap), keys, vals);
    if keys.len() == 0 {
        assert(m.ring =~= keys);
        assert(m.values.dom() =~= keys.to_set());
    } else {
        let prefix = keys.drop_last();
        let vprefix = vals.drop_last();
        assert(prefix.no_duplicates());
        lemma_fill::<K, V>(cap, prefix, vprefix);
        lemma_puts_model_snoc(init_model::<K, V>(cap), keys, vals);
        let mp = puts_model(init_model::<K, V>(cap), prefix, vprefix);
        assert(!prefix.contains(keys.last()));
        assert(mp.values.dom() == prefix.to_set());
        assert(!mp.values.contains_key(keys.last()));
        assert(mp.ring.len() == prefix.len() < cap);
        assert(m == put_model(mp, keys.last(), vals.last()));
        assert(m.ring =~= keys);
        assert(m.values.dom() =~= keys.to_set());
        assert forall|j: int| 0 <= j < keys.len() implies m.values[keys[j]] == vals[j] by {
            if j < prefix.len() {
                assert(prefix[j] == keys[j] && keys[j] != keys.last());
                assert(mp.values[keys[j]] == vprefix[j]);
            }
        }
    }
}

/// Capacity bound: putting `capacity + 1` distinct keys into a fresh cache,
/// with no intervening gets, evicts exactly the earliest key — every later
/// key is resident with its value — and residency never exceeds the capacity
/// at any prefix of the sequence.
pub proof fn lemma_capacity_bound<K, V>(cap: int, keys: Seq<K>, vals: Seq<V>)
    requires
        1 <= cap,
        keys.no_duplicates(),
        keys.len() == cap + 1,
        vals.len() == keys.len(),
    ensures
        ({
            let m = puts_model(init_model::<K, V>(cap), keys, vals);
            &&& !m.values.contains_key(keys[0])
            &&& forall|j: int| 1 <= j <= cap ==> #[trigger] m.values.contains_key(keys[j])
            &&& forall|j: int| 1 <= j <= cap ==> m.values[#[trigger] keys[j]] == vals[j]
            &&& m.values.len() == cap
        }),
        forall|i: int|
            0 <= i <= cap + 1 ==> #[trigger] puts_model(
                init_model::<K, V>(cap),
                keys.take(i),
                vals.take(i),
            ).values.len() <= cap,
{
    let init = init_model::<K, V>(cap);
    let full_keys = keys.drop_last();
    let full_vals = vals.drop_last();
    assert(full_keys.no_duplicates());
    lemma_fill::<K, V>(cap, full_keys, full_vals);
    lemma_puts_model_snoc(init, keys, vals);
    let mp = puts_model(init, full_keys, full_vals);
    let m = puts_model(init, keys, vals);
    full_keys.unique_seq_to_set();
    assert(mp.values.dom().len() == cap);
    assert(mp.ring.len() == cap);
    assert(!full_keys.contains(keys.last()));
    assert(!mp.values.contains_key(keys.last()));
    assert(m == put_model(mp, keys.last(), vals.last()));
    // The victim is the key at `top == 0`: the earliest key put.
    assert(mp.ring[0] == keys[0]);
    assert(m.values == mp.values.remove(keys[0]).insert(keys.last(), vals.last()));
    assert(!m.values.contains_key(keys[0]));
    assert forall|j: int| 1 <= j <= cap implies #[trigger] m.values.contains_key(keys[j]) by {
        if j == cap {
            assert(keys[j] == keys.last());
        } else {
            assert(full_keys[j] == keys[j]);
            assert(full_keys.to_set().contains(keys[j]));
            assert(keys[j] != keys[0] && keys[j] != keys.last());
        }
    }
    assert forall|j: int| 1 <= j <= cap implies m.values[#[trigger] keys[j]] == vals[j] by {
        if j == cap {
            assert(keys[j] == keys.last() && vals[j] == vals.last());
        } else {
            assert(full_keys[j] == keys[j] && full_vals[j] == vals[j]);
            assert(full_keys.to_set().contains(keys[j]));
            assert(keys[j] != keys[0] && keys[j] != keys.last());
            assert(mp.values[keys[j]] == vals[j]);
        }
    }
    assert(m.values.len() == cap) by {
        assert(mp.values.dom().contains(keys[0]));
        assert(mp.values.remove(keys[0]).len() == cap - 1);
        assert(!mp.values.remove(keys[0]).contains_key(keys.last()));
    }
    assert forall|i: int| 0 <= i <= cap + 1 implies #[trigger] puts_model(
        init,
        keys.take(i),
        vals.take(i),
    ).values.len() <= cap by {
        let ki = keys.take(i);
        let vi = vals.take(i);
        assert(ki.no_duplicates());
        if i <= cap {
            lemma_fill::<K, V>(cap, ki, vi);
            ki.unique_seq_to_set();
            assert(puts_model(init, ki, vi).values.dom().len() == i);
        } else {
            assert(ki =~= keys);
            assert(vi =~= vals);
        }
    }
}

} // verus!
