//! A resizable hash table core in the style of a lock-striped concurrent map:
//! spread hashing, chain and tree bins, forwarding markers, and a cooperative,
//! stride-based incremental resize protocol coordinated through a single
//! control word.
//!
//! The table's logic — where a key lives, how bins are mutated, how a resize
//! migrates every entry exactly once — is verified here against a
//! `Map<u64, u64>` model. The epoch-based reclamation guard that a concurrent
//! deployment pins around every operation is the one piece taken from an
//! outside crate.

use vstd::prelude::*;

pub mod hash;
pub mod laws;
mod node;
pub mod resize;
mod table;
mod tree;

verus! {

/// The largest capacity the bin array may reach. Doubling stops here; past
/// this point the table accepts longer chains instead of growing.
pub const MAXIMUM_CAPACITY: usize = 0x4000_0000;

/// The capacity a table is given when none was requested.
pub const DEFAULT_CAPACITY: usize = 16;

/// A chain longer than this is reorganized into a tree bin, provided the
/// table is at least `MIN_TREEIFY_CAPACITY` bins wide.
pub const TREEIFY_THRESHOLD: usize = 8;

/// A tree bin that shrinks to fewer entries than this on removal is turned
/// back into a plain chain.
pub const UNTREEIFY_THRESHOLD: usize = 6;

/// Below this capacity an overflowing chain triggers a resize rather than a
/// treeification: a small table should grow, not complicate its bins.
pub const MIN_TREEIFY_CAPACITY: usize = 64;

/// The smallest block of bin indices one helper claims per transfer step.
pub const MIN_TRANSFER_STRIDE: usize = 16;

/// The number of bits of the control word that carry the generation stamp of
/// a resize.
pub const RESIZE_STAMP_BITS: u64 = 16;

/// The most threads that can help one resize: the helper count must fit
/// below the stamp's bit range.
pub const MAX_RESIZERS: u64 = 65535;

} // verus!

pub use crossbeam::epoch::Guard;

use crate::hash::{spec_spread, spec_bin_of, is_pow2};
use crate::node::{lookup, slot_map, slot_len};
use crate::resize::{SizeCtl, encode_ctl, ctl_leave, resize_stamp, Transfer};
use crate::table::Table;

verus! {

#[verifier::external_type_specification]
#[verifier::external_body]
pub struct ExGuard(crossbeam::epoch::Guard);

/// Relies on crossbeam's `epoch::pin`: enter a scoped reclamation critical
/// section. The token witnesses that structures read under it are not freed
/// until it drops; nothing further is assumed of it.
#[verifier::external_body]
pub fn pin() -> Guard {
    crossbeam::epoch::pin()
}

/// The element count past which a table of `cap` bins resizes: `cap - cap/4`,
/// three quarters of the capacity.
pub open spec fn spec_threshold(cap: nat) -> nat {
    (cap - cap / 4) as nat
}

/// The capacity after one write: doubled exactly when the new element count
/// crosses the threshold or a chain overflowed in a table too narrow to
/// treeify, and never past `MAXIMUM_CAPACITY`.
pub open spec fn spec_grow_decision(ec: nat, new_len: u64, overflow: bool) -> nat {
    if (new_len > spec_threshold(ec) || overflow) && ec < MAXIMUM_CAPACITY {
        2 * ec
    } else {
        ec
    }
}

/// The hash table: the current bin array (allocated lazily on the first
/// write), the shared resize control word, and the element count.
pub struct ConcurrentHashMap {
    table: Option<Table>,
    size_ctl: i64,
    count: u64,
    init_cap: usize,
}

impl View for ConcurrentHashMap {
    type V = Map<u64, u64>;

    /// The bindings the table holds.
    closed spec fn view(&self) -> Map<u64, u64> {
        match self.table {
            None => Map::empty(),
            Some(t) => Map::new(|k: u64| t.spec_get(k) is Some, |k: u64| t.spec_get(k).unwrap()),
        }
    }
}

/// Two maps that answer every lookup alike are equal.
proof fn lemma_lookup_ext(a: Map<u64, u64>, b: Map<u64, u64>)
    requires
        forall|k: u64| #[trigger] lookup(a, k) == lookup(b, k),
    ensures
        a == b,
{
    assert forall|k: u64| #[trigger] a.dom().contains(k) <==> b.dom().contains(k) by {
        assert(lookup(a, k) == lookup(b, k));
    };
    assert forall|k: u64| a.dom().contains(k) implies #[trigger] a[k] == b[k] by {
        assert(lookup(a, k) == lookup(b, k));
    };
    assert(a =~= b);
}

/// What a lookup in the map's view returns, bin by bin.
proof fn lemma_view_char(m: ConcurrentHashMap)
    ensures
        forall|k: u64| #[trigger]
            lookup(m@, k) == (match m.table {
                None => None::<u64>,
                Some(t) => t.spec_get(k),
            }),
{
    assert forall|k: u64| #[trigger]
        lookup(m@, k) == (match m.table {
            None => None::<u64>,
            Some(t) => t.spec_get(k),
        }) by {
        match m.table {
            None => {},
            Some(t) => {
                if t.spec_get(k) is Some {
                    assert(m@.dom().contains(k));
                } else {
                    assert(!m@.dom().contains(k));
                }
            },
        }
    };
}

impl ConcurrentHashMap {
    /// The element count field; exact for the quiescent table.
    pub closed spec fn spec_len(self) -> u64 {
        self.count
    }

    /// The allocated capacity: zero before the first write.
    pub closed spec fn spec_capacity(self) -> nat {
        match self.table {
            None => 0,
            Some(t) => t.bins@.len(),
        }
    }

    /// The capacity the next write operates on: the allocated array's width,
    /// or the width the first write will allocate.
    pub closed spec fn spec_effective_capacity(self) -> nat {
        match self.table {
            None => self.init_cap as nat,
            Some(t) => t.bins@.len(),
        }
    }

    /// Whether writing `k` leaves its bin a chain of more than
    /// `TREEIFY_THRESHOLD` entries while the table is too narrow to treeify —
    /// the condition under which a write resizes early instead.
    pub closed spec fn spec_bin_overflow(self, k: u64) -> bool {
        match self.table {
            None => false,
            Some(t) => {
                let cap = t.bins@.len();
                let e = t.bins@[spec_bin_of(spec_spread(k), cap as u64) as int];
                &&& cap < MIN_TREEIFY_CAPACITY
                &&& (e is Empty || e is Chain)
                &&& slot_len(e) + (if slot_map(e).dom().contains(k) {
                    0int
                } else {
                    1int
                }) > TREEIFY_THRESHOLD
            },
        }
    }

    /// The map's invariant: the table (once allocated) is well formed, the
    /// count matches the entries it holds, and the control word holds the
    /// established threshold.
    pub closed spec fn wf(self) -> bool {
        &&& is_pow2(self.init_cap as u64)
        &&& 16 <= self.init_cap <= MAXIMUM_CAPACITY
        &&& match self.table {
            None => self.count == 0 && self.size_ctl == self.init_cap as int,
            Some(t) => {
                &&& t.wf()
                &&& self.count == t.size()
                &&& self.size_ctl == spec_threshold(t.bins@.len()) as int
            },
        }
    }

    /// An empty map that will allocate `DEFAULT_CAPACITY` bins on the first
    /// write.
    pub fn new() -> (m: Self)
        ensures
            m.wf(),
            m@ == Map::<u64, u64>::empty(),
            m.spec_len() == 0,
            m.spec_capacity() == 0,
            m.spec_effective_capacity() == DEFAULT_CAPACITY,
    {
        proof {
            crate::hash::lemma_pow2_16();
        }
        ConcurrentHashMap {
            table: None,
            size_ctl: DEFAULT_CAPACITY as i64,
            count: 0,
            init_cap: DEFAULT_CAPACITY,
        }
    }

    /// An empty map whose first write allocates the smallest power-of-two
    /// capacity covering `requested`, capped at `MAXIMUM_CAPACITY`.
    pub fn with_capacity(requested: usize) -> (m: Self)
        ensures
            m.wf(),
            m@ == Map::<u64, u64>::empty(),
            m.spec_len() == 0,
            m.spec_capacity() == 0,
            16 <= m.spec_effective_capacity() <= MAXIMUM_CAPACITY,
            requested <= MAXIMUM_CAPACITY ==> m.spec_effective_capacity() >= requested,
            m.spec_effective_capacity() == 16 || m.spec_effective_capacity() / 2 < requested,
    {
        proof {
            crate::hash::lemma_pow2_16();
        }
        let mut c: usize = DEFAULT_CAPACITY;
        while c < requested && c < MAXIMUM_CAPACITY
            invariant
                is_pow2(c as u64),
                16 <= c <= MAXIMUM_CAPACITY,
                c == 16 || c / 2 < requested,
            decreases MAXIMUM_CAPACITY - c,
        {
            proof {
                crate::hash::lemma_pow2_below(c as u64);
                crate::hash::lemma_pow2_double(c as u64);
            }
            c = c * 2;
        }
        ConcurrentHashMap { table: None, size_ctl: c as i64, count: 0, init_cap: c }
    }

    /// Allocate the bin array on the first write: the writer claims
    /// initialization through the control word's transient state, publishes
    /// the array, and establishes the first threshold.
    fn init_table(&mut self)
        requires
            old(self).wf(),
        ensures
            final(self).wf(),
            final(self).table is Some,
            final(self)@ == old(self)@,
            final(self).spec_len() == old(self).spec_len(),
            final(self).spec_capacity() == old(self).spec_effective_capacity(),
            final(self).spec_effective_capacity() == old(self).spec_effective_capacity(),
            forall|k: u64| #[trigger]
                final(self).spec_bin_overflow(k) == old(self).spec_bin_overflow(k),
    {
        proof {
            lemma_view_char(*old(self));
        }
        if self.table.is_none() {
            self.size_ctl = encode_ctl(SizeCtl::Claiming);
            let t = Table::new_table(self.init_cap);
            let cap = self.init_cap;
            self.size_ctl = (cap - cap / 4) as i64;
            self.table = Some(t);
            proof {
                assert(self@ =~= old(self)@);
                lemma_view_char(*self);
                assert forall|k: u64| #[trigger]
                    self.spec_bin_overflow(k) == old(self).spec_bin_overflow(k) by {
                    crate::hash::lemma_bin_of_in_range(spec_spread(k), self.init_cap as u64);
                };
            }
        } else {
            proof {
                lemma_view_char(*self);
            }
        }
    }

    /// Double the table: claim the resize through the control word with a
    /// fresh generation stamp and a helper count of one, migrate every bin in
    /// strides, and, as the last helper standing, publish the doubled table.
    fn grow(&mut self, t: Table) -> (t2: Table)
        requires
            t.wf(),
            t.bins@.len() < MAXIMUM_CAPACITY,
        ensures
            t2.wf(),
            t2.bins@.len() == 2 * t.bins@.len(),
            forall|k: u64| #[trigger] t2.spec_get(k) == t.spec_get(k),
            t2.size() == t.size(),
            final(self).count == old(self).count,
            final(self).table == old(self).table,
            final(self).init_cap == old(self).init_cap,
    {
        proof {
            crate::hash::lemma_pow2_below(t.bins@.len() as u64);
        }
        let cap = t.bins.len();
        let stamp = resize_stamp(cap);
        let c = SizeCtl::Resizing { stamp, helpers: 1 };
        proof {
            crate::resize::lemma_ctl_roundtrip(c);
        }
        let w = encode_ctl(c);
        self.size_ctl = w;
        let mut ts = Transfer::begin(t);
        let ghost ts0 = ts;
        let mut more = true;
        while more
            invariant
                ts.wf(),
                more == (ts.transfer_index > 0),
                ts.old_cap() == ts0.old_cap(),
                forall|k: u64| #[trigger] ts.spec_get(k) == ts0.spec_get(k),
                ts.total_size() == ts0.total_size(),
            decreases ts.transfer_index,
        {
            more = ts.transfer_stride(MIN_TRANSFER_STRIDE);
        }
        let leave = ctl_leave(self.size_ctl);
        proof {
            assert(leave.1);
        }
        ts.finish()
    }
}

} // verus!

verus! {

impl ConcurrentHashMap {
    /// Unconditionally bind `key` to `value`, returning the previous value.
    /// A new key raises the element count, and the table doubles exactly when
    /// the count crosses the threshold or the key's chain overflowed a table
    /// too narrow to treeify.
    pub fn put(&mut self, key: u64, value: u64) -> (prev: Option<u64>)
        requires
            old(self).wf(),
            old(self).spec_len() < 0xffff_ffff_ffff_ffff,
        ensures
            final(self).wf(),
            final(self)@ == old(self)@.insert(key, value),
            prev == lookup(old(self)@, key),
            final(self).spec_len() == old(self).spec_len() + (if prev is None {
                1int
            } else {
                0int
            }),
            final(self).spec_capacity() == spec_grow_decision(
                old(self).spec_effective_capacity(),
                final(self).spec_len(),
                old(self).spec_bin_overflow(key),
            ),
    {
        let prev = self.write(key, value, false);
        proof {
            assert forall|k2: u64| #[trigger]
                lookup(self@, k2) == lookup(old(self)@.insert(key, value), k2) by {
                assert(lookup(self@, k2) == (if k2 == key {
                    Some(value)
                } else {
                    lookup(old(self)@, k2)
                }));
            };
            lemma_lookup_ext(self@, old(self)@.insert(key, value));
        }
        prev
    }

    /// Bind `key` to `value` only if the key is absent; an existing binding
    /// is returned untouched, and the caller that receives `None` is the one
    /// whose value every later lookup observes.
    pub fn put_if_absent(&mut self, key: u64, value: u64) -> (prev: Option<u64>)
        requires
            old(self).wf(),
            old(self).spec_len() < 0xffff_ffff_ffff_ffff,
        ensures
            final(self).wf(),
            final(self)@ == (if prev is Some {
                old(self)@
            } else {
                old(self)@.insert(key, value)
            }),
            prev == lookup(old(self)@, key),
            final(self).spec_len() == old(self).spec_len() + (if prev is None {
                1int
            } else {
                0int
            }),
            final(self).spec_capacity() == spec_grow_decision(
                old(self).spec_effective_capacity(),
                final(self).spec_len(),
                old(self).spec_bin_overflow(key),
            ),
    {
        let prev = self.write(key, value, true);
        proof {
            if prev is Some {
                assert forall|k2: u64| #[trigger] lookup(self@, k2) == lookup(old(self)@, k2) by {
                    assert(lookup(self@, k2) == (if k2 == key && !(prev is Some) {
                        Some(value)
                    } else {
                        lookup(old(self)@, k2)
                    }));
                };
                lemma_lookup_ext(self@, old(self)@);
            } else {
                assert forall|k2: u64| #[trigger]
                    lookup(self@, k2) == lookup(old(self)@.insert(key, value), k2) by {
                    assert(lookup(self@, k2) == (if k2 == key {
                        Some(value)
                    } else {
                        lookup(old(self)@, k2)
                    }));
                };
                lemma_lookup_ext(self@, old(self)@.insert(key, value));
            }
        }
        prev
    }

    /// The one write path: a guarded, mode-dependent insert or update, the
    /// count bump for a new key, and the resize check.
    fn write(&mut self, key: u64, value: u64, if_absent: bool) -> (prev: Option<u64>)
        requires
            old(self).wf(),
            old(self).spec_len() < 0xffff_ffff_ffff_ffff,
        ensures
            final(self).wf(),
            prev == lookup(old(self)@, key),
            forall|k2: u64| #[trigger]
                lookup(final(self)@, k2) == (if k2 == key && !(if_absent && prev is Some) {
                    Some(value)
                } else {
                    lookup(old(self)@, k2)
                }),
            final(self).spec_len() == old(self).spec_len() + (if prev is None {
                1int
            } else {
                0int
            }),
            final(self).spec_capacity() == spec_grow_decision(
                old(self).spec_effective_capacity(),
                final(self).spec_len(),
                old(self).spec_bin_overflow(key),
            ),
    {
        let _guard = pin();
        self.init_table();
        let ghost s1 = *self;
        proof {
            lemma_view_char(*old(self));
            lemma_view_char(s1);
        }
        let h = crate::hash::spread(key);
        let mut t = self.table.take().unwrap();
        let ghost t1 = t;
        let putres = t.put(h, key, value, if_absent);
        let prev = putres.0;
        let pressure = putres.1;
        if prev.is_none() {
            self.count = self.count + 1;
        }
        let cap = t.bins.len();
        if (self.count > (cap - cap / 4) as u64 || pressure) && cap < MAXIMUM_CAPACITY {
            let grown = self.grow(t);
            t = grown;
        }
        let newcap = t.bins.len();
        self.size_ctl = (newcap - newcap / 4) as i64;
        self.table = Some(t);
        proof {
            lemma_view_char(*self);
            assert(s1.spec_bin_overflow(key) == pressure);
            assert forall|k2: u64| #[trigger]
                lookup(self@, k2) == (if k2 == key && !(if_absent && prev is Some) {
                    Some(value)
                } else {
                    lookup(old(self)@, k2)
                }) by {
                assert(lookup(s1@, k2) == lookup(old(self)@, k2));
            };
        }
        prev
    }

    /// Unlink `key`, returning the value it was bound to.
    pub fn remove(&mut self, key: u64) -> (prev: Option<u64>)
        requires
            old(self).wf(),
        ensures
            final(self).wf(),
            final(self)@ == old(self)@.remove(key),
            prev == lookup(old(self)@, key),
            final(self).spec_len() == old(self).spec_len() - (if prev is Some {
                1int
            } else {
                0int
            }),
            final(self).spec_capacity() == old(self).spec_capacity(),
    {
        let prev = self.unlink(key, None);
        proof {
            assert forall|k2: u64| #[trigger]
                lookup(self@, k2) == lookup(old(self)@.remove(key), k2) by {
                assert(lookup(self@, k2) == (if k2 == key && prev is Some {
                    None::<u64>
                } else {
                    lookup(old(self)@, k2)
                }));
            };
            lemma_lookup_ext(self@, old(self)@.remove(key));
        }
        prev
    }

    /// Unlink `key` only if it is currently bound to `expected`; says whether
    /// the entry was removed.
    pub fn remove_if(&mut self, key: u64, expected: u64) -> (removed: bool)
        requires
            old(self).wf(),
        ensures
            final(self).wf(),
            removed == (lookup(old(self)@, key) == Some(expected)),
            final(self)@ == (if removed {
                old(self)@.remove(key)
            } else {
                old(self)@
            }),
            final(self).spec_len() == old(self).spec_len() - (if removed {
                1int
            } else {
                0int
            }),
            final(self).spec_capacity() == old(self).spec_capacity(),
    {
        let prev = self.unlink(key, Some(expected));
        proof {
            if prev is Some {
                assert forall|k2: u64| #[trigger]
                    lookup(self@, k2) == lookup(old(self)@.remove(key), k2) by {
                    assert(lookup(self@, k2) == (if k2 == key {
                        None::<u64>
                    } else {
                        lookup(old(self)@, k2)
                    }));
                };
                lemma_lookup_ext(self@, old(self)@.remove(key));
            } else {
                assert forall|k2: u64| #[trigger] lookup(self@, k2) == lookup(old(self)@, k2) by {};
                lemma_lookup_ext(self@, old(self)@);
            }
        }
        prev.is_some()
    }

    /// The one removal path: locate the bin, unlink under the bin's lock
    /// discipline, and lower the count.
    fn unlink(&mut self, key: u64, expected: Option<u64>) -> (prev: Option<u64>)
        requires
            old(self).wf(),
        ensures
            final(self).wf(),
            prev == (if lookup(old(self)@, key) is Some && (expected is None || expected == lookup(
                old(self)@,
                key,
            )) {
                lookup(old(self)@, key)
            } else {
                None::<u64>
            }),
            forall|k2: u64| #[trigger]
                lookup(final(self)@, k2) == (if k2 == key && prev is Some {
                    None::<u64>
                } else {
                    lookup(old(self)@, k2)
                }),
            final(self).spec_len() == old(self).spec_len() - (if prev is Some {
                1int
            } else {
                0int
            }),
            final(self).spec_capacity() == old(self).spec_capacity(),
    {
        let _guard = pin();
        proof {
            lemma_view_char(*old(self));
        }
        if self.table.is_none() {
            return None;
        }
        let h = crate::hash::spread(key);
        let mut t = self.table.take().unwrap();
        let prev = t.remove(h, key, expected);
        if prev.is_some() {
            self.count = self.count - 1;
        }
        self.table = Some(t);
        proof {
            lemma_view_char(*self);
        }
        prev
    }

    /// Lock-free lookup: load the current table through the guard, index the
    /// bin by the spread hash, and search its chain or tree. Never blocks,
    /// never takes a lock.
    pub fn get(&self, key: u64, guard: &Guard) -> (r: Option<u64>)
        requires
            self.wf(),
        ensures
            r == lookup(self@, key),
    {
        proof {
            lemma_view_char(*self);
        }
        match &self.table {
            None => None,
            Some(t) => {
                let h = crate::hash::spread(key);
                t.get(h, key)
            },
        }
    }

    /// The element count: exact once quiescent, approximate while concurrent
    /// writers are in flight.
    pub fn len(&self) -> (n: u64)
        ensures
            n == self.spec_len(),
    {
        self.count
    }

    /// The number of bins the current table holds; zero before the first
    /// write allocates the array.
    pub fn capacity(&self) -> (c: usize)
        ensures
            c == self.spec_capacity(),
    {
        match &self.table {
            None => 0,
            Some(t) => t.bins.len(),
        }
    }
}

} // verus!
