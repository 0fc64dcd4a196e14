//! The table's single-key semantics, stated over the map model that every
//! operation's contract is written against, and the arithmetic of the
//! capacity the doubling rule reaches.

use vstd::prelude::*;
use crate::hash::is_pow2;
use crate::node::lookup;
use crate::spec_threshold;

verus! {

/// One completed operation of the facade, as its contract describes it.
pub enum MapOp {
    Put { key: u64, value: u64 },
    PutIfAbsent { key: u64, value: u64 },
    Remove { key: u64 },
    RemoveIf { key: u64, expected: u64 },
}

/// The key an operation touches.
pub open spec fn op_key(op: MapOp) -> u64 {
    match op {
        MapOp::Put { key, .. } => key,
        MapOp::PutIfAbsent { key, .. } => key,
        MapOp::Remove { key } => key,
        MapOp::RemoveIf { key, .. } => key,
    }
}

/// The effect of one completed operation on the bindings, exactly as the
/// `ensures` of `put`, `put_if_absent`, `remove` and `remove_if` state it.
pub open spec fn apply_op(m: Map<u64, u64>, op: MapOp) -> Map<u64, u64> {
    match op {
        MapOp::Put { key, value } => m.insert(key, value),
        MapOp::PutIfAbsent { key, value } => if m.dom().contains(key) {
            m
        } else {
            m.insert(key, value)
        },
        MapOp::Remove { key } => m.remove(key),
        MapOp::RemoveIf { key, expected } => if lookup(m, key) == Some(expected) {
            m.remove(key)
        } else {
            m
        },
    }
}

/// A history of completed operations, applied in their linearization order.
pub open spec fn apply_ops(m: Map<u64, u64>, ops: Seq<MapOp>) -> Map<u64, u64>
    decreases ops.len(),
{
    if ops.len() == 0 {
        m
    } else {
        apply_ops(apply_op(m, ops[0]), ops.subrange(1, ops.len() as int))
    }
}

/// Within one key, updates are linearizable: a read observes exactly the
/// value left by the latest completed write on that key — the value of the
/// last `put`, and nothing after a `remove`.
pub proof fn lemma_latest_write_decides(m: Map<u64, u64>, k: u64, v: u64)
    ensures
        lookup(apply_op(m, MapOp::Put { key: k, value: v }), k) == Some(v),
        lookup(apply_op(m, MapOp::Remove { key: k }), k) == None::<u64>,
{
}

/// An operation on a different key never changes what a read of `k` returns:
/// across distinct keys there is no ordering to observe.
pub proof fn lemma_unrelated_op(m: Map<u64, u64>, op: MapOp, k: u64)
    requires
        op_key(op) != k,
    ensures
        lookup(apply_op(m, op), k) == lookup(m, k),
{
}

/// A whole history that touches only other keys leaves the value read at `k`
/// untouched: the observed value of one key is decided by the operations on
/// that key alone.
pub proof fn lemma_unrelated_history(m: Map<u64, u64>, ops: Seq<MapOp>, k: u64)
    requires
        forall|i: int| 0 <= i < ops.len() ==> op_key(#[trigger] ops[i]) != k,
    ensures
        lookup(apply_ops(m, ops), k) == lookup(m, k),
    decreases ops.len(),
{
    if ops.len() > 0 {
        lemma_unrelated_op(m, ops[0], k);
        let rest = ops.subrange(1, ops.len() as int);
        assert forall|i: int| 0 <= i < rest.len() implies op_key(#[trigger] rest[i]) != k by {
            assert(rest[i] == ops[i + 1]);
        };
        lemma_unrelated_history(apply_op(m, ops[0]), rest, k);
    }
}

/// The operations of a history that touch `k`, in their order.
pub open spec fn ops_on_key(ops: Seq<MapOp>, k: u64) -> Seq<MapOp>
    decreases ops.len(),
{
    if ops.len() == 0 {
        Seq::empty()
    } else {
        let rest = ops_on_key(ops.subrange(1, ops.len() as int), k);
        if op_key(ops[0]) == k {
            seq![ops[0]] + rest
        } else {
            rest
        }
    }
}

/// What an operation on `k` leaves bound to `k` depends only on what was
/// bound to `k` before it.
proof fn lemma_op_key_local(m1: Map<u64, u64>, m2: Map<u64, u64>, op: MapOp, k: u64)
    requires
        lookup(m1, k) == lookup(m2, k),
        op_key(op) == k,
    ensures
        lookup(apply_op(m1, op), k) == lookup(apply_op(m2, op), k),
{
}

/// A history of operations all on `k` reads alike from any two maps that
/// agree on `k`.
proof fn lemma_history_key_local(m1: Map<u64, u64>, m2: Map<u64, u64>, ops: Seq<MapOp>, k: u64)
    requires
        lookup(m1, k) == lookup(m2, k),
        forall|i: int| 0 <= i < ops.len() ==> op_key(#[trigger] ops[i]) == k,
    ensures
        lookup(apply_ops(m1, ops), k) == lookup(apply_ops(m2, ops), k),
    decreases ops.len(),
{
    if ops.len() > 0 {
        lemma_op_key_local(m1, m2, ops[0], k);
        let rest = ops.subrange(1, ops.len() as int);
        assert forall|i: int| 0 <= i < rest.len() implies op_key(#[trigger] rest[i]) == k by {
            assert(rest[i] == ops[i + 1]);
        };
        lemma_history_key_local(apply_op(m1, ops[0]), apply_op(m2, ops[0]), rest, k);
    }
}

/// Every operation of a key's projection is on that key.
proof fn lemma_ops_on_key_all_on_key(ops: Seq<MapOp>, k: u64)
    ensures
        forall|i: int|
            0 <= i < ops_on_key(ops, k).len() ==> op_key(#[trigger] ops_on_key(ops, k)[i]) == k,
    decreases ops.len(),
{
    if ops.len() > 0 {
        let rest = ops.subrange(1, ops.len() as int);
        lemma_ops_on_key_all_on_key(rest, k);
        let proj = ops_on_key(ops, k);
        assert forall|i: int| 0 <= i < proj.len() implies op_key(#[trigger] proj[i]) == k by {
            if op_key(ops[0]) == k {
                if i == 0 {
                    assert(proj[0] == ops[0]);
                } else {
                    assert(proj[i] == ops_on_key(rest, k)[i - 1]);
                }
            } else {
                assert(proj[i] == ops_on_key(rest, k)[i]);
            }
        };
    }
}

/// Single-key linearizability over a whole history: what a read of `k`
/// returns after any sequence of completed operations is exactly what the
/// operations on `k` alone, applied in their order, leave bound to it — the
/// interleaved operations on other keys change nothing it observes.
pub proof fn lemma_single_key_linearization(m: Map<u64, u64>, ops: Seq<MapOp>, k: u64)
    ensures
        lookup(apply_ops(m, ops), k) == lookup(apply_ops(m, ops_on_key(ops, k)), k),
    decreases ops.len(),
{
    if ops.len() > 0 {
        let op0 = ops[0];
        let rest = ops.subrange(1, ops.len() as int);
        let proj_rest = ops_on_key(rest, k);
        lemma_single_key_linearization(apply_op(m, op0), rest, k);
        if op_key(op0) == k {
            let proj = seq![op0] + proj_rest;
            assert(proj[0] == op0);
            assert(proj.subrange(1, proj.len() as int) =~= proj_rest);
            assert(apply_ops(m, proj) == apply_ops(apply_op(m, op0), proj_rest));
        } else {
            lemma_ops_on_key_all_on_key(rest, k);
            lemma_history_key_local(apply_op(m, op0), m, proj_rest, k);
        }
    }
}

/// No lost updates: of two conditional inserts racing on one absent key, the
/// linearization order makes exactly one the winner. The winner's value is
/// what every later read returns, the second insert changes nothing, and each
/// caller can tell whether it won: the winner alone was handed back `None`.
pub proof fn lemma_no_lost_update(m: Map<u64, u64>, k: u64, v1: u64, v2: u64)
    requires
        !m.dom().contains(k),
    ensures
        ({
            let m1 = apply_op(m, MapOp::PutIfAbsent { key: k, value: v1 });
            &&& lookup(m1, k) == Some(v1)
            &&& apply_op(m1, MapOp::PutIfAbsent { key: k, value: v2 }) == m1
            &&& lookup(apply_op(m1, MapOp::PutIfAbsent { key: k, value: v2 }), k) == Some(v1)
        }),
{
}

/// The doubling rule lands on the least sufficient capacity: a table that
/// grew from 16 by doubling only when the count passed the threshold sits at
/// the smallest power of two whose threshold admits its count.
pub proof fn lemma_capacity_minimal(cap: u64, len: u64)
    requires
        is_pow2(cap),
        cap >= 16,
        cap == 16 || spec_threshold((cap / 2) as nat) < len,
    ensures
        forall|c2: u64|
            is_pow2(c2) && c2 >= 16 && len <= spec_threshold(c2 as nat) ==> c2 >= cap,
{
    assert forall|c2: u64|
        is_pow2(c2) && c2 >= 16 && len <= spec_threshold(c2 as nat) implies c2 >= cap by {
        if c2 < cap {
            assert((c2 > 0 && (c2 & (c2 - 1) as u64) == 0 && cap > 0 && (cap & (cap - 1) as u64)
                == 0 && c2 < cap) ==> c2 <= cap / 2) by (bit_vector);
            assert(c2 <= cap / 2 ==> c2 - c2 / 4 <= cap / 2 - (cap / 2) / 4) by (nonlinear_arith);
            assert(false);
        }
    };
}

} // verus!
