//! The bin array: an immutable-once-published snapshot of the table. A new
//! table is allocated on every resize; the old one is retired once migration
//! completes, never mutated in place at the slot-count level.

use vstd::prelude::*;
use vstd::pervasive::VecAdditionalExecFns;
use crate::hash::{spec_spread, spec_bin_of, is_pow2, bin_of, lemma_bin_of_in_range};
use crate::node::{
    BinEntry, slot_map, slot_len, slot_wf, slot_live, lookup, slot_put, slot_remove, slot_treeify,
    chain_longer_than,
};

verus! {

/// The bin array.
pub(crate) struct Table {
    pub bins: Vec<BinEntry>,
}

/// The total number of entries across a sequence of bins.
pub(crate) open spec fn bins_size(s: Seq<BinEntry>) -> nat
    decreases s.len(),
{
    if s.len() == 0 {
        0
    } else {
        bins_size(s.drop_last()) + slot_len(s.last())
    }
}

/// Replacing one bin changes the total by the difference of the two slots.
pub(crate) proof fn lemma_bins_size_update(s: Seq<BinEntry>, i: int, e: BinEntry)
    requires
        0 <= i < s.len(),
    ensures
        bins_size(s.update(i, e)) == bins_size(s) - slot_len(s[i]) + slot_len(e),
    decreases s.len(),
{
    let s2 = s.update(i, e);
    if i == s.len() - 1 {
        assert(s2.drop_last() =~= s.drop_last());
        assert(s2.last() == e);
    } else {
        lemma_bins_size_update(s.drop_last(), i, e);
        assert(s2.drop_last() =~= s.drop_last().update(i, e));
        assert(s2.last() == s.last());
    }
}

/// No single bin holds more entries than the whole table.
pub(crate) proof fn lemma_bins_size_ge(s: Seq<BinEntry>, i: int)
    requires
        0 <= i < s.len(),
    ensures
        bins_size(s) >= slot_len(s[i]),
    decreases s.len(),
{
    if i == s.len() - 1 {
    } else {
        lemma_bins_size_ge(s.drop_last(), i);
        assert(s.drop_last()[i] == s[i]);
    }
}

/// One published bin: well formed, not a resize or reservation marker, and
/// holding only keys whose spread hash selects this bin.
pub(crate) open spec fn slot_ok(e: BinEntry, i: int, cap: u64) -> bool {
    &&& slot_wf(e)
    &&& slot_live(e)
    &&& forall|k: u64| #[trigger]
        slot_map(e).dom().contains(k) ==> spec_bin_of(spec_spread(k), cap) == i
}

impl Table {
    /// The number of bins.
    pub(crate) open spec fn cap(self) -> nat {
        self.bins@.len()
    }

    /// A quiescent table: a power-of-two capacity in range, every bin sound
    /// and placed, and no forwarding or reservation markers.
    pub(crate) open spec fn wf(self) -> bool {
        &&& is_pow2(self.bins@.len() as u64)
        &&& 16 <= self.bins@.len() <= 0x4000_0000
        &&& forall|i: int|
            0 <= i < self.bins@.len() ==> slot_ok(
                #[trigger] self.bins@[i],
                i,
                self.bins@.len() as u64,
            )
    }

    /// The value bound to `k`, read from the one bin its spread hash selects.
    pub(crate) open spec fn spec_get(self, k: u64) -> Option<u64> {
        lookup(
            slot_map(
                self.bins@[spec_bin_of(spec_spread(k), self.bins@.len() as u64) as int],
            ),
            k,
        )
    }

    /// The number of entries in the table.
    pub(crate) open spec fn size(self) -> nat {
        bins_size(self.bins@)
    }

    /// Allocate a table of `cap` empty bins.
    pub(crate) fn new_table(cap: usize) -> (t: Table)
        requires
            is_pow2(cap as u64),
            16 <= cap <= 0x4000_0000,
        ensures
            t.wf(),
            t.bins@.len() == cap,
            forall|i: int| 0 <= i < cap ==> t.bins@[i] == BinEntry::Empty,
            forall|k: u64| t.spec_get(k) is None,
            t.size() == 0,
    {
        let mut bins: Vec<BinEntry> = Vec::new();
        proof {
            assert(bins_size(bins@) == 0);
        }
        while bins.len() < cap
            invariant
                bins@.len() <= cap,
                forall|i: int| 0 <= i < bins@.len() ==> bins@[i] == BinEntry::Empty,
                bins_size(bins@) == 0,
            decreases cap - bins.len(),
        {
            let ghost before = bins@;
            bins.push(BinEntry::Empty);
            proof {
                assert(bins@.drop_last() =~= before);
                assert(bins@.last() == BinEntry::Empty);
            }
        }
        let t = Table { bins };
        proof {
            assert forall|k: u64| t.spec_get(k) is None by {
                lemma_bin_of_in_range(spec_spread(k), cap as u64);
            };
        }
        t
    }

    /// Load the bin at index `i`.
    pub(crate) fn bin_at(&self, i: usize) -> (r: &BinEntry)
        requires
            i < self.bins@.len(),
        ensures
            *r == self.bins@[i as int],
    {
        &self.bins[i]
    }

    /// Lock-free lookup within this table.
    pub(crate) fn get(&self, h: u64, k: u64) -> (r: Option<u64>)
        requires
            self.wf(),
            h == spec_spread(k),
        ensures
            r == self.spec_get(k),
    {
        let cap = self.bins.len();
        let i = bin_of(h, cap);
        let bin = self.bin_at(i);
        bin.find(h, k)
    }

    /// Insert or update `k -> v` in the bin its hash selects; treeify the bin
    /// if its chain overflows and this table is wide enough. The second
    /// result reports a chain left overflowing in a narrow table, which asks
    /// the caller to resize instead.
    pub(crate) fn put(&mut self, h: u64, k: u64, v: u64, if_absent: bool) -> (res: (
        Option<u64>,
        bool,
    ))
        requires
            old(self).wf(),
            h == spec_spread(k),
        ensures
            final(self).wf(),
            final(self).bins@.len() == old(self).bins@.len(),
            res.0 == old(self).spec_get(k),
            forall|k2: u64| #[trigger]
                final(self).spec_get(k2) == (if k2 == k && !(if_absent && res.0 is Some) {
                    Some(v)
                } else {
                    old(self).spec_get(k2)
                }),
            final(self).size() == old(self).size() + (if res.0 is None {
                1int
            } else {
                0int
            }),
            res.1 == ({
                let e = old(self).bins@[spec_bin_of(h, old(self).bins@.len() as u64) as int];
                &&& old(self).bins@.len() < crate::MIN_TREEIFY_CAPACITY
                &&& (e is Empty || e is Chain)
                &&& slot_len(e) + (if slot_map(e).dom().contains(k) {
                    0int
                } else {
                    1int
                }) > crate::TREEIFY_THRESHOLD
            }),
    {
        let ghost cap_g = self.bins@.len() as u64;
        let cap = self.bins.len();
        let i = bin_of(h, cap);
        let mut slotv = BinEntry::Empty;
        self.bins.set_and_swap(i, &mut slotv);
        let ghost slot0 = slotv;
        proof {
            assert(slot_ok(old(self).bins@[i as int], i as int, cap_g));
        }
        if if_absent {
            let was_empty = match &slotv {
                BinEntry::Empty => true,
                _ => false,
            };
            if was_empty {
                // reserve the empty bin while the conditional insert builds
                // its entry; the marker is replaced by the real entry below,
                // before this operation returns
                self.bins.set(i, BinEntry::Reservation);
            }
        }
        let prev = slot_put(&mut slotv, h, k, v, if_absent);
        let long = match &slotv {
            BinEntry::Chain(c) => chain_longer_than(c, crate::TREEIFY_THRESHOLD),
            _ => false,
        };
        let mut grew = false;
        if long {
            if cap >= crate::MIN_TREEIFY_CAPACITY {
                slot_treeify(&mut slotv);
            } else {
                grew = true;
            }
        }
        self.bins.set(i, slotv);
        proof {
            assert(self.bins@ =~= old(self).bins@.update(i as int, slotv));
            lemma_bins_size_update(old(self).bins@, i as int, slotv);
            assert forall|j: int|
                0 <= j < self.bins@.len() implies slot_ok(
                #[trigger] self.bins@[j],
                j,
                cap_g,
            ) by {
                assert(slot_ok(old(self).bins@[j], j, cap_g));
                if j == i as int {
                    assert forall|k2: u64| #[trigger]
                        slot_map(slotv).dom().contains(k2) implies spec_bin_of(
                        spec_spread(k2),
                        cap_g,
                    ) == j by {
                        if k2 != k {
                            assert(slot_map(slot0).dom().contains(k2));
                        }
                    };
                }
            };
            assert forall|k2: u64| #[trigger]
                final(self).spec_get(k2) == (if k2 == k && !(if_absent && prev is Some) {
                    Some(v)
                } else {
                    old(self).spec_get(k2)
                }) by {
                lemma_bin_of_in_range(spec_spread(k2), cap_g);
            };
        }
        (prev, grew)
    }

    /// Unlink `k` from the bin its hash selects, provided `expected` (when
    /// given) matches its value.
    pub(crate) fn remove(&mut self, h: u64, k: u64, expected: Option<u64>) -> (prev: Option<u64>)
        requires
            old(self).wf(),
            h == spec_spread(k),
        ensures
            final(self).wf(),
            final(self).bins@.len() == old(self).bins@.len(),
            prev == (if old(self).spec_get(k) is Some && (expected is None || expected == old(
                self,
            ).spec_get(k)) {
                old(self).spec_get(k)
            } else {
                None::<u64>
            }),
            forall|k2: u64| #[trigger]
                final(self).spec_get(k2) == (if k2 == k && prev is Some {
                    None::<u64>
                } else {
                    old(self).spec_get(k2)
                }),
            final(self).size() == old(self).size() - (if prev is Some {
                1int
            } else {
                0int
            }),
            prev is Some ==> old(self).size() >= 1,
    {
        let ghost cap_g = self.bins@.len() as u64;
        let cap = self.bins.len();
        let i = bin_of(h, cap);
        let mut slotv = BinEntry::Empty;
        self.bins.set_and_swap(i, &mut slotv);
        let ghost slot0 = slotv;
        proof {
            assert(slot_ok(old(self).bins@[i as int], i as int, cap_g));
        }
        let prev = slot_remove(&mut slotv, h, k, expected);
        self.bins.set(i, slotv);
        proof {
            assert(self.bins@ =~= old(self).bins@.update(i as int, slotv));
            lemma_bins_size_update(old(self).bins@, i as int, slotv);
            lemma_bins_size_ge(old(self).bins@, i as int);
            assert forall|j: int|
                0 <= j < self.bins@.len() implies slot_ok(
                #[trigger] self.bins@[j],
                j,
                cap_g,
            ) by {
                assert(slot_ok(old(self).bins@[j], j, cap_g));
                if j == i as int {
                    assert forall|k2: u64| #[trigger]
                        slot_map(slotv).dom().contains(k2) implies spec_bin_of(
                        spec_spread(k2),
                        cap_g,
                    ) == j by {
                        assert(slot_map(slot0).dom().contains(k2));
                    };
                }
            };
            assert forall|k2: u64| #[trigger]
                final(self).spec_get(k2) == (if k2 == k && prev is Some {
                    None::<u64>
                } else {
                    old(self).spec_get(k2)
                }) by {
                lemma_bin_of_in_range(spec_spread(k2), cap_g);
            };
        }
        prev
    }

    /// Swap a forwarding marker into bin `i` of a retiring table, handing the
    /// migrated contents back to the caller.
    pub(crate) fn take_for_forwarding(&mut self, i: usize) -> (e: BinEntry)
        requires
            i < old(self).bins@.len(),
        ensures
            final(self).bins@ == old(self).bins@.update(i as int, BinEntry::Forwarding),
            e == old(self).bins@[i as int],
    {
        let mut slotv = BinEntry::Forwarding;
        self.bins.set_and_swap(i, &mut slotv);
        slotv
    }

    /// Publish `e` as bin `i`.
    pub(crate) fn install(&mut self, i: usize, e: BinEntry)
        requires
            i < old(self).bins@.len(),
        ensures
            final(self).bins@ == old(self).bins@.update(i as int, e),
    {
        self.bins.set(i, e);
    }
}

} // verus!
