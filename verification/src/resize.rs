//! The cooperative resize machinery: the control word that coordinates one
//! resize episode, and the stride-based transfer that migrates every bin of a
//! retiring table into a table of twice the capacity.

use vstd::prelude::*;
use crate::hash::{spec_spread, spec_bin_of, is_pow2, lemma_pow2_double, lemma_bin_of_split,
    lemma_bin_of_in_range};
use crate::node::{BinEntry, slot_map, slot_len, lookup, split_slot};
use crate::table::{Table, slot_ok, bins_size, lemma_bins_size_update};

verus! {

/// What the shared resize control word encodes: either the established
/// threshold at which the next resize begins, the transient claim of the
/// thread initializing the bin array, or an in-progress resize carrying a
/// generation stamp and the count of helping threads.
#[derive(Clone, Copy, Debug, PartialEq, Eq, Structural)]
pub enum SizeCtl {
    /// No resize in progress; the next one begins past this element count.
    Established(u64),
    /// One thread has claimed initialization of the bin array.
    Claiming,
    /// A resize is under way, identified by a generation stamp, with
    /// `helpers` threads transferring bins.
    Resizing { stamp: u64, helpers: u64 },
}

/// The bounds under which a control state encodes into one word.
pub open spec fn ctl_ok(c: SizeCtl) -> bool {
    match c {
        SizeCtl::Established(t) => t <= 0x4000_0000,
        SizeCtl::Claiming => true,
        SizeCtl::Resizing { stamp, helpers } => 32768 <= stamp < 65536 && 1 <= helpers
            <= crate::MAX_RESIZERS,
    }
}

/// The encoding: established thresholds are the non-negative words, the
/// initialization claim is -1, and a resize packs stamp and helper count into
/// disjoint bit ranges of a negative word.
pub open spec fn spec_encode(c: SizeCtl) -> int {
    match c {
        SizeCtl::Established(t) => t as int,
        SizeCtl::Claiming => -1,
        SizeCtl::Resizing { stamp, helpers } => -(stamp * 65536 + helpers + 1),
    }
}

/// The decoding of a control word.
pub open spec fn spec_decode(w: int) -> SizeCtl {
    if w >= 0 {
        SizeCtl::Established(w as u64)
    } else if w == -1 {
        SizeCtl::Claiming
    } else {
        SizeCtl::Resizing { stamp: (((-w) - 1) / 65536) as u64, helpers: (((-w) - 1) % 65536) as u64 }
    }
}

/// Decoding inverts encoding: the stamp and the helper count live in disjoint
/// ranges of the word, and the three state kinds cannot collide.
pub proof fn lemma_ctl_roundtrip(c: SizeCtl)
    requires
        ctl_ok(c),
    ensures
        spec_decode(spec_encode(c)) == c,
        c is Established <==> spec_encode(c) >= 0,
        c is Claiming <==> spec_encode(c) == -1,
        c is Resizing <==> spec_encode(c) <= -2,
{
    match c {
        SizeCtl::Established(t) => {},
        SizeCtl::Claiming => {},
        SizeCtl::Resizing { stamp, helpers } => {
            let m = stamp * 65536 + helpers;
            assert(m / 65536 == stamp && m % 65536 == helpers) by (nonlinear_arith)
                requires 32768 <= stamp < 65536 && 0 <= helpers < 65536, m == stamp * 65536 + helpers;
            assert(m >= 32768 * 65536) by (nonlinear_arith)
                requires stamp >= 32768, helpers >= 0, m == stamp * 65536 + helpers;
        },
    }
}

/// Encode a control state into the shared word.
pub fn encode_ctl(c: SizeCtl) -> (w: i64)
    requires
        ctl_ok(c),
    ensures
        w == spec_encode(c),
{
    match c {
        SizeCtl::Established(t) => t as i64,
        SizeCtl::Claiming => -1,
        SizeCtl::Resizing { stamp, helpers } => {
            proof {
                lemma_ctl_roundtrip(c);
                assert(stamp * 65536 + helpers + 1 <= 65536 * 65536) by (nonlinear_arith)
                    requires stamp < 65536, helpers < 65536;
            }
            -(((stamp * 65536 + helpers) as i64) + 1)
        },
    }
}

/// Decode the shared word back into a control state.
pub fn decode_ctl(w: i64) -> (c: SizeCtl)
    requires
        w > i64::MIN,
    ensures
        c == spec_decode(w as int),
{
    if w >= 0 {
        SizeCtl::Established(w as u64)
    } else if w == -1 {
        SizeCtl::Claiming
    } else {
        let m = ((-w) as u64) - 1;
        SizeCtl::Resizing { stamp: m / 65536, helpers: m % 65536 }
    }
}

/// One more helper joins an in-progress resize, unless the helper count is
/// saturated. The stamp is untouched: a helper can only join the episode it
/// observed.
pub fn ctl_join(w: i64) -> (r: Option<i64>)
    requires
        ctl_ok(spec_decode(w as int)),
        spec_decode(w as int) is Resizing,
        w > i64::MIN,
    ensures
        match (r, spec_decode(w as int)) {
            (Some(w2), SizeCtl::Resizing { stamp, helpers }) => {
                &&& helpers < crate::MAX_RESIZERS
                &&& spec_decode(w2 as int) == (SizeCtl::Resizing { stamp, helpers: (helpers + 1) as u64 })
            },
            (None, SizeCtl::Resizing { stamp, helpers }) => helpers == crate::MAX_RESIZERS,
            _ => false,
        },
{
    let c = decode_ctl(w);
    match c {
        SizeCtl::Resizing { stamp, helpers } => {
            if helpers >= crate::MAX_RESIZERS {
                None
            } else {
                let c2 = SizeCtl::Resizing { stamp, helpers: helpers + 1 };
                proof {
                    lemma_ctl_roundtrip(c2);
                }
                Some(encode_ctl(c2))
            }
        },
        _ => unreached(),
    }
}

/// One helper leaves an in-progress resize; the second result says whether it
/// was the last one, which must then publish the new table.
pub fn ctl_leave(w: i64) -> (r: (i64, bool))
    requires
        ctl_ok(spec_decode(w as int)),
        spec_decode(w as int) is Resizing,
        w > i64::MIN,
    ensures
        match spec_decode(w as int) {
            SizeCtl::Resizing { stamp, helpers } => {
                &&& r.1 == (helpers == 1)
                &&& helpers > 1 ==> spec_decode(r.0 as int) == (SizeCtl::Resizing {
                    stamp,
                    helpers: (helpers - 1) as u64,
                })
            },
            _ => false,
        },
{
    let c = decode_ctl(w);
    match c {
        SizeCtl::Resizing { stamp, helpers } => {
            if helpers == 1 {
                (w, true)
            } else {
                let c2 = SizeCtl::Resizing { stamp, helpers: helpers - 1 };
                proof {
                    lemma_ctl_roundtrip(c2);
                }
                (encode_ctl(c2), false)
            }
        },
        _ => unreached(),
    }
}

/// The generation stamp of a resize from capacity `n`: the base-two logarithm
/// of `n` with the top stamp bit set, so that a stamped word is negative and
/// each capacity stamps differently.
pub(crate) open spec fn spec_log2(n: u64) -> nat
    decreases n,
{
    if n <= 1 {
        0
    } else {
        1 + spec_log2(n / 2)
    }
}

/// The base-two logarithm (rounded down) of a positive word.
pub(crate) fn log2_floor(n: u64) -> (r: u64)
    ensures
        r == spec_log2(n),
        r <= 63,
        n >= 1 ==> (1u64 << r) <= n,
    decreases n,
{
    if n <= 1 {
        proof {
            assert((1u64 << 0u64) == 1) by (bit_vector);
        }
        0
    } else {
        let x = log2_floor(n / 2);
        proof {
            assert(!((1u64 << 63u64) <= n / 2)) by (bit_vector);
            assert(((1u64 << x) <= n / 2 && x <= 62) ==> ((1u64 << (x + 1) as u64) <= n && (1u64
                << (x + 1) as u64) >= 1)) by (bit_vector);
        }
        x + 1
    }
}

/// Compute the resize stamp for a table of `cap` bins.
pub(crate) fn resize_stamp(cap: usize) -> (s: u64)
    ensures
        s == 32768 + spec_log2(cap as u64),
        32768 <= s < 65536,
{
    let lg = log2_floor(cap as u64);
    32768 + lg
}

} // verus!

verus! {

/// The source bin of new-table bin `j`: bins `i` and `i + n` of the doubled
/// table are both filled from bin `i` of the retiring table.
pub(crate) open spec fn src_bin(j: int, n: int) -> int {
    if j < n {
        j
    } else {
        j - n
    }
}

/// Every bin of a sequence of forwarding markers is empty of entries.
proof fn lemma_bins_size_zero(s: Seq<BinEntry>)
    requires
        forall|i: int| 0 <= i < s.len() ==> slot_len(#[trigger] s[i]) == 0,
    ensures
        bins_size(s) == 0,
    decreases s.len(),
{
    if s.len() > 0 {
        assert forall|i: int| 0 <= i < s.drop_last().len() implies slot_len(
            #[trigger] s.drop_last()[i],
        ) == 0 by {
            assert(s.drop_last()[i] == s[i]);
        };
        lemma_bins_size_zero(s.drop_last());
    }
}

/// One resize episode in flight: the retiring table, the table of twice the
/// capacity that replaces it, and the next unclaimed bin index, claimed from
/// the high end toward zero.
pub(crate) struct Transfer {
    pub old_tab: Table,
    pub new_tab: Table,
    pub transfer_index: usize,
}

impl Transfer {
    /// The retiring table's capacity.
    pub(crate) open spec fn old_cap(self) -> int {
        self.old_tab.bins@.len() as int
    }

    /// Mid-resize soundness: bins above the claim index are forwarded out of
    /// the retiring table and installed, split and placed, in the new one;
    /// bins below it are still untouched, and their slots in the new table
    /// are still empty.
    pub(crate) open spec fn wf(self) -> bool {
        let n = self.old_cap();
        &&& is_pow2(n as u64)
        &&& 16 <= n <= 0x2000_0000
        &&& self.new_tab.bins@.len() == 2 * n
        &&& self.transfer_index <= n
        &&& forall|i: int|
            0 <= i < self.transfer_index ==> slot_ok(#[trigger] self.old_tab.bins@[i], i, n as u64)
        &&& forall|i: int|
            self.transfer_index <= i < n ==> (#[trigger] self.old_tab.bins@[i]) is Forwarding
        &&& forall|j: int|
            0 <= j < 2 * n && src_bin(j, n) >= self.transfer_index ==> slot_ok(
                #[trigger] self.new_tab.bins@[j],
                j,
                (2 * n) as u64,
            )
        &&& forall|j: int|
            0 <= j < 2 * n && src_bin(j, n) < self.transfer_index ==> (
            #[trigger] self.new_tab.bins@[j]) == BinEntry::Empty
    }

    /// The value bound to `k` mid-resize: read the retiring table's bin if it
    /// has not been claimed yet, and redirect to the new table otherwise.
    pub(crate) open spec fn spec_get(self, k: u64) -> Option<u64> {
        let n = self.old_cap();
        let i = spec_bin_of(spec_spread(k), n as u64) as int;
        if i < self.transfer_index {
            lookup(slot_map(self.old_tab.bins@[i]), k)
        } else {
            self.new_tab.spec_get(k)
        }
    }

    /// The number of entries across both tables.
    pub(crate) open spec fn total_size(self) -> nat {
        bins_size(self.old_tab.bins@) + bins_size(self.new_tab.bins@)
    }

    /// Start a resize of `t`: allocate the doubled table and set the claim
    /// index to the retiring table's capacity.
    pub(crate) fn begin(t: Table) -> (ts: Transfer)
        requires
            t.wf(),
            t.bins@.len() <= 0x2000_0000,
        ensures
            ts.wf(),
            ts.old_cap() == t.bins@.len(),
            ts.transfer_index == t.bins@.len(),
            forall|k: u64| #[trigger] ts.spec_get(k) == t.spec_get(k),
            ts.total_size() == t.size(),
    {
        let n = t.bins.len();
        proof {
            lemma_pow2_double(n as u64);
            assert((2 * n) as u64 == 2 * (n as u64));
        }
        let nt = Table::new_table(2 * n);
        let ts = Transfer { old_tab: t, new_tab: nt, transfer_index: n };
        proof {
            assert forall|k: u64| #[trigger] ts.spec_get(k) == t.spec_get(k) by {
                lemma_bin_of_in_range(spec_spread(k), n as u64);
            };
        }
        ts
    }

    /// Migrate the highest unclaimed bin: swap a forwarding marker into the
    /// retiring table, split the bin's entries by the newly consulted hash
    /// bit, and install the two halves in the new table.
    pub(crate) fn transfer_bin(&mut self)
        requires
            old(self).wf(),
            old(self).transfer_index > 0,
        ensures
            final(self).wf(),
            final(self).transfer_index == old(self).transfer_index - 1,
            final(self).old_cap() == old(self).old_cap(),
            forall|k: u64| #[trigger] final(self).spec_get(k) == old(self).spec_get(k),
            final(self).total_size() == old(self).total_size(),
    {
        let n = self.old_tab.bins.len();
        let ghost n_int = n as int;
        let ghost nu = n as u64;
        let i = self.transfer_index - 1;
        let ghost old_new_bins = self.new_tab.bins@;
        let e = self.old_tab.take_for_forwarding(i);
        proof {
            assert(slot_ok(e, i as int, nu));
            assert(src_bin(i as int, n_int) == i as int);
            assert(src_bin(i as int + n_int, n_int) == i as int);
            assert(old_new_bins[i as int] == BinEntry::Empty);
            assert(old_new_bins[i as int + n_int] == BinEntry::Empty);
        }
        let treeify_ok = 2 * n >= crate::MIN_TREEIFY_CAPACITY;
        let (lo, hi) = split_slot(e, n as u64, treeify_ok);
        self.new_tab.install(i, lo);
        self.new_tab.install(i + n, hi);
        self.transfer_index = i;
        proof {
            let os = *old(self);
            let ns = *self;
            lemma_bins_size_update(os.old_tab.bins@, i as int, BinEntry::Forwarding);
            lemma_bins_size_update(old_new_bins, i as int, lo);
            lemma_bins_size_update(old_new_bins.update(i as int, lo), i as int + n_int, hi);
            assert(slot_len(old_new_bins.update(i as int, lo)[i as int + n_int]) == 0);
            // placement of the two installed halves
            assert forall|k: u64| #[trigger]
                slot_map(lo).dom().contains(k) implies spec_bin_of(spec_spread(k), (2 * n_int) as u64)
                == i as int by {
                assert(slot_map(e).dom().contains(k));
                lemma_bin_of_split(spec_spread(k), nu);
            };
            assert forall|k: u64| #[trigger]
                slot_map(hi).dom().contains(k) implies spec_bin_of(spec_spread(k), (2 * n_int) as u64)
                == i as int + n_int by {
                assert(slot_map(e).dom().contains(k));
                lemma_bin_of_split(spec_spread(k), nu);
            };
            assert(slot_ok(lo, i as int, (2 * n_int) as u64));
            assert(slot_ok(hi, i as int + n_int, (2 * n_int) as u64));
            // the invariant holds again with the claim index one lower
            assert forall|j: int|
                0 <= j < 2 * n_int && src_bin(j, n_int) >= ns.transfer_index implies slot_ok(
                #[trigger] ns.new_tab.bins@[j],
                j,
                (2 * n_int) as u64,
            ) by {
                if j != i as int && j != i as int + n_int {
                    assert(ns.new_tab.bins@[j] == old_new_bins[j]);
                }
            };
            // the observable bindings are unchanged
            assert forall|k: u64| #[trigger] ns.spec_get(k) == os.spec_get(k) by {
                let ik = spec_bin_of(spec_spread(k), nu) as int;
                lemma_bin_of_in_range(spec_spread(k), nu);
                lemma_bin_of_split(spec_spread(k), nu);
                let jk = spec_bin_of(spec_spread(k), (2 * n_int) as u64) as int;
                if ik < i as int {
                    assert(ns.old_tab.bins@[ik] == os.old_tab.bins@[ik]);
                } else if ik == i as int {
                    if spec_spread(k) & nu == 0 {
                        assert(jk == ik);
                        assert(ns.new_tab.bins@[jk] == lo);
                    } else {
                        assert(jk == ik + n_int);
                        assert(ns.new_tab.bins@[jk] == hi);
                    }
                } else {
                    assert(jk == ik || jk == ik + n_int);
                    assert(ns.new_tab.bins@[jk] == old_new_bins[jk]);
                }
            };
        }
    }

    /// Claim and migrate a block of up to `stride` bins; report whether
    /// unclaimed bins remain.
    pub(crate) fn transfer_stride(&mut self, stride: usize) -> (remaining: bool)
        requires
            old(self).wf(),
            stride >= 1,
        ensures
            final(self).wf(),
            final(self).old_cap() == old(self).old_cap(),
            forall|k: u64| #[trigger] final(self).spec_get(k) == old(self).spec_get(k),
            final(self).total_size() == old(self).total_size(),
            final(self).transfer_index == (if old(self).transfer_index >= stride {
                old(self).transfer_index - stride
            } else {
                0int
            }),
            remaining == (final(self).transfer_index > 0),
    {
        let mut claimed: usize = 0;
        while claimed < stride && self.transfer_index > 0
            invariant
                self.wf(),
                claimed <= stride,
                self.old_cap() == old(self).old_cap(),
                forall|k: u64| #[trigger] self.spec_get(k) == old(self).spec_get(k),
                self.total_size() == old(self).total_size(),
                self.transfer_index == (if old(self).transfer_index >= claimed {
                    old(self).transfer_index - claimed
                } else {
                    0int
                }),
                claimed > 0 ==> old(self).transfer_index >= claimed || self.transfer_index == 0,
                self.transfer_index == 0 ==> old(self).transfer_index <= claimed,
            decreases stride - claimed,
        {
            self.transfer_bin();
            claimed = claimed + 1;
        }
        self.transfer_index > 0
    }

    /// The last helper's final pass: check that every bin of the retiring
    /// table is a forwarding marker, then hand the new table over to be
    /// published. The retiring table is dropped here; a concurrent deployment
    /// retires it to the reclamation scheme instead of freeing it in place.
    pub(crate) fn finish(self) -> (t: Table)
        requires
            self.wf(),
            self.transfer_index == 0,
        ensures
            t.wf(),
            t.bins@.len() == 2 * self.old_cap(),
            forall|k: u64| #[trigger] t.spec_get(k) == self.spec_get(k),
            t.size() == self.total_size(),
    {
        let n = self.old_tab.bins.len();
        let mut i: usize = 0;
        while i < n
            invariant
                i <= n,
                self.wf(),
                self.transfer_index == 0,
                n == self.old_cap(),
            decreases n - i,
        {
            let b = self.old_tab.bin_at(i);
            match b {
                BinEntry::Forwarding => {},
                _ => {
                    let nothing: () = unreached();
                    nothing
                },
            }
            i = i + 1;
        }
        proof {
            let ghost n_int = self.old_cap();
            lemma_pow2_double(n_int as u64);
            assert((2 * n_int) as u64 == 2 * (n_int as u64));
            assert forall|ii: int|
                0 <= ii < self.old_tab.bins@.len() implies slot_len(
                #[trigger] self.old_tab.bins@[ii],
            ) == 0 by {
                assert(self.old_tab.bins@[ii] is Forwarding);
            };
            lemma_bins_size_zero(self.old_tab.bins@);
            assert forall|k: u64| #[trigger]
                self.new_tab.spec_get(k) == self.spec_get(k) by {
                lemma_bin_of_in_range(spec_spread(k), n_int as u64);
            };
        }
        let Transfer { old_tab: _retired, new_tab, transfer_index: _ } = self;
        new_tab
    }
}

} // verus!
