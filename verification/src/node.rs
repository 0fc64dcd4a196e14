//! Chain bins: singly linked lists of entries anchored at a bin slot, and the
//! polymorphic bin entry that a slot holds.
//!
//! An entry's key is immutable; its value and next link are the fields a
//! writer swaps. The chain is modelled as a `Map<u64, u64>` in which the head
//! of the chain wins, and well-formedness demands what the table relies on:
//! every stored hash is the spread digest of its key, and no key appears
//! twice in one chain.

use vstd::prelude::*;
use crate::hash::spec_spread;
use crate::tree::TreeNode;
use crate::tree;

verus! {

/// One key-value entry of a chain bin.
pub(crate) struct Node {
    /// The spread digest of `key`, computed once at insertion.
    pub hash: u64,
    pub key: u64,
    pub value: u64,
    pub next: Option<Box<Node>>,
}

/// `Some(value)` bound to `k` in `m`, or `None`.
pub open spec fn lookup(m: Map<u64, u64>, k: u64) -> Option<u64> {
    if m.dom().contains(k) {
        Some(m[k])
    } else {
        None
    }
}

/// The key-value bindings a chain holds; an earlier node shadows a later one.
pub(crate) open spec fn chain_map(n: Option<Box<Node>>) -> Map<u64, u64>
    decreases n,
{
    match n {
        None => Map::empty(),
        Some(b) => chain_map(b.next).insert(b.key, b.value),
    }
}

/// The number of entries in a chain.
pub(crate) open spec fn chain_len(n: Option<Box<Node>>) -> nat
    decreases n,
{
    match n {
        None => 0,
        Some(b) => 1 + chain_len(b.next),
    }
}

/// Every hash is the spread digest of its key, and keys are distinct.
pub(crate) open spec fn chain_wf(n: Option<Box<Node>>) -> bool
    decreases n,
{
    match n {
        None => true,
        Some(b) => {
            &&& b.hash == spec_spread(b.key)
            &&& !chain_map(b.next).dom().contains(b.key)
            &&& chain_wf(b.next)
        },
    }
}

/// Walk a chain comparing hash, then key, returning the first match's value.
pub(crate) fn chain_find(n: &Option<Box<Node>>, h: u64, k: u64) -> (r: Option<u64>)
    requires
        chain_wf(*n),
        h == spec_spread(k),
    ensures
        r == lookup(chain_map(*n), k),
    decreases *n,
{
    match n {
        None => None,
        Some(b) => {
            if b.hash == h && b.key == k {
                Some(b.value)
            } else {
                chain_find(&b.next, h, k)
            }
        },
    }
}

/// Update the value of `k` in place if the chain holds it (unless the entry
/// is to be kept under `if_absent`), or append a new entry at the tail.
/// Returns the previous value bound to `k`, if any.
pub(crate) fn chain_put(
    n: &mut Option<Box<Node>>,
    h: u64,
    k: u64,
    v: u64,
    if_absent: bool,
) -> (prev: Option<u64>)
    requires
        chain_wf(*old(n)),
        h == spec_spread(k),
    ensures
        chain_wf(*final(n)),
        prev == lookup(chain_map(*old(n)), k),
        if_absent && prev is Some ==> *final(n) == *old(n),
        !(if_absent && prev is Some) ==> chain_map(*final(n)) =~= chain_map(*old(n)).insert(
            k,
            v,
        ),
        chain_len(*final(n)) == chain_len(*old(n)) + (if prev is None {
            1int
        } else {
            0int
        }),
    decreases *old(n),
{
    match n.take() {
        None => {
            *n = Some(Box::new(Node { hash: h, key: k, value: v, next: None }));
            None
        },
        Some(mut b) => {
            if b.hash == h && b.key == k {
                let prev_v = b.value;
                if !if_absent {
                    b.value = v;
                }
                *n = Some(b);
                Some(prev_v)
            } else {
                let prev = chain_put(&mut b.next, h, k, v, if_absent);
                *n = Some(b);
                prev
            }
        },
    }
}

/// Unlink the first entry whose key is `k`, provided `expected` (when given)
/// matches its value. Returns the removed value, or `None` when nothing was
/// removed.
pub(crate) fn chain_remove(
    n: &mut Option<Box<Node>>,
    h: u64,
    k: u64,
    expected: Option<u64>,
) -> (prev: Option<u64>)
    requires
        chain_wf(*old(n)),
        h == spec_spread(k),
    ensures
        chain_wf(*final(n)),
        prev == (if lookup(chain_map(*old(n)), k) is Some && (expected is None || expected
            == lookup(chain_map(*old(n)), k)) {
            lookup(chain_map(*old(n)), k)
        } else {
            None::<u64>
        }),
        prev is Some ==> chain_map(*final(n)) =~= chain_map(*old(n)).remove(k),
        prev is None ==> *final(n) == *old(n),
        chain_len(*final(n)) == chain_len(*old(n)) - (if prev is Some {
            1int
        } else {
            0int
        }),
    decreases *old(n),
{
    match n.take() {
        None => None,
        Some(mut b) => {
            if b.hash == h && b.key == k {
                let matches_expected = match expected {
                    None => true,
                    Some(e) => b.value == e,
                };
                if matches_expected {
                    let prev_v = b.value;
                    *n = b.next;
                    proof {
                        assert(chain_map(*n).insert(b.key, b.value).remove(k) =~= chain_map(*n));
                    }
                    Some(prev_v)
                } else {
                    *n = Some(b);
                    None
                }
            } else {
                let prev = chain_remove(&mut b.next, h, k, expected);
                *n = Some(b);
                prev
            }
        },
    }
}

/// Split a chain by one hash bit: entries whose spread hash has the bit clear
/// keep their relative order in the first chain, the rest in the second.
pub(crate) fn chain_split(n: Option<Box<Node>>, bit: u64) -> (r: (
    Option<Box<Node>>,
    Option<Box<Node>>,
))
    requires
        chain_wf(n),
    ensures
        chain_wf(r.0),
        chain_wf(r.1),
        forall|k: u64| #[trigger]
            chain_map(r.0).dom().contains(k) <==> (chain_map(n).dom().contains(k) && spec_spread(k)
                & bit == 0),
        forall|k: u64| #[trigger]
            chain_map(r.1).dom().contains(k) <==> (chain_map(n).dom().contains(k) && spec_spread(k)
                & bit != 0),
        forall|k: u64|
            chain_map(n).dom().contains(k) ==> lookup(chain_map(r.0), k) == lookup(chain_map(n), k)
                || lookup(chain_map(r.1), k) == lookup(chain_map(n), k),
        forall|k: u64| #[trigger]
            chain_map(r.0).dom().contains(k) ==> chain_map(r.0)[k] == chain_map(n)[k],
        forall|k: u64| #[trigger]
            chain_map(r.1).dom().contains(k) ==> chain_map(r.1)[k] == chain_map(n)[k],
        chain_len(r.0) + chain_len(r.1) == chain_len(n),
    decreases n,
{
    match n {
        None => (None, None),
        Some(b) => {
            let node = *b;
            let (lo, hi) = chain_split(node.next, bit);
            if node.hash & bit == 0 {
                (
                    Some(
                        Box::new(
                            Node { hash: node.hash, key: node.key, value: node.value, next: lo },
                        ),
                    ),
                    hi,
                )
            } else {
                (
                    lo,
                    Some(
                        Box::new(
                            Node { hash: node.hash, key: node.key, value: node.value, next: hi },
                        ),
                    ),
                )
            }
        },
    }
}

/// Whether a chain holds more than `limit` entries.
pub(crate) fn chain_longer_than(n: &Option<Box<Node>>, limit: usize) -> (r: bool)
    ensures
        r == (chain_len(*n) > limit),
    decreases *n,
{
    match n {
        None => false,
        Some(b) => {
            if limit == 0 {
                true
            } else {
                chain_longer_than(&b.next, limit - 1)
            }
        },
    }
}

} // verus!

verus! {

/// What one slot of the bin array holds.
pub(crate) enum BinEntry {
    /// No entry hashes to this bin.
    Empty,
    /// A linked chain of entries.
    Chain(Option<Box<Node>>),
    /// An overflowing bin reorganized as a search tree.
    Tree(Option<Box<TreeNode>>),
    /// This bin of a retiring table has been migrated; traversals must
    /// redirect to the next table.
    Forwarding,
    /// This bin is reserved by an in-flight conditional insert; observers
    /// must wait or retry rather than treat the bin as empty.
    Reservation,
}

/// The key-value bindings a slot holds. A forwarding or reservation marker
/// holds none itself.
pub(crate) open spec fn slot_map(e: BinEntry) -> Map<u64, u64> {
    match e {
        BinEntry::Empty => Map::empty(),
        BinEntry::Chain(c) => chain_map(c),
        BinEntry::Tree(t) => tree::tree_map(t),
        BinEntry::Forwarding => Map::empty(),
        BinEntry::Reservation => Map::empty(),
    }
}

/// The number of entries a slot holds.
pub(crate) open spec fn slot_len(e: BinEntry) -> nat {
    match e {
        BinEntry::Empty => 0,
        BinEntry::Chain(c) => chain_len(c),
        BinEntry::Tree(t) => tree::tree_size(t),
        BinEntry::Forwarding => 0,
        BinEntry::Reservation => 0,
    }
}

/// A published slot is well formed: a chain or tree that is present is
/// nonempty and internally sound.
pub(crate) open spec fn slot_wf(e: BinEntry) -> bool {
    match e {
        BinEntry::Empty => true,
        BinEntry::Chain(c) => chain_wf(c) && c is Some,
        BinEntry::Tree(t) => tree::tree_wf(t) && t is Some,
        BinEntry::Forwarding => true,
        BinEntry::Reservation => true,
    }
}

/// A slot not claimed by resize or a pending conditional insert.
pub(crate) open spec fn slot_live(e: BinEntry) -> bool {
    !(e is Forwarding) && !(e is Reservation)
}

/// A chain that is present holds at least one entry.
pub(crate) proof fn lemma_chain_some_len(c: Option<Box<Node>>)
    requires
        c is Some,
    ensures
        chain_len(c) >= 1,
{
    match c {
        Some(b) => {
            assert(chain_len(c) == 1 + chain_len(b.next));
        },
        None => {},
    }
}

impl BinEntry {
    /// Search this bin for `k`, whose spread hash is `h`: walk a chain with
    /// short-circuit on hash mismatch, or descend a tree bin.
    pub(crate) fn find(&self, h: u64, k: u64) -> (r: Option<u64>)
        requires
            slot_wf(*self),
            slot_live(*self),
            h == spec_spread(k),
        ensures
            r == lookup(slot_map(*self), k),
    {
        match self {
            BinEntry::Empty => None,
            BinEntry::Chain(c) => chain_find(c, h, k),
            BinEntry::Tree(t) => tree::tree_find(t, h, k),
            BinEntry::Forwarding => unreached(),
            BinEntry::Reservation => unreached(),
        }
    }
}

/// Insert or update `k -> v` in a live slot; an empty slot becomes a
/// one-entry chain. Returns the previous value bound to `k`.
pub(crate) fn slot_put(slot: &mut BinEntry, h: u64, k: u64, v: u64, if_absent: bool) -> (prev:
    Option<u64>)
    requires
        slot_wf(*old(slot)),
        slot_live(*old(slot)),
        h == spec_spread(k),
    ensures
        slot_wf(*final(slot)),
        slot_live(*final(slot)),
        prev == lookup(slot_map(*old(slot)), k),
        slot_map(*final(slot)) =~= (if if_absent && prev is Some {
            slot_map(*old(slot))
        } else {
            slot_map(*old(slot)).insert(k, v)
        }),
        slot_len(*final(slot)) == slot_len(*old(slot)) + (if prev is None {
            1int
        } else {
            0int
        }),
        *old(slot) is Tree ==> *final(slot) is Tree,
        (*old(slot) is Empty || *old(slot) is Chain) ==> *final(slot) is Chain,
{
    let mut cur = BinEntry::Empty;
    core::mem::swap(&mut cur, slot);
    match cur {
        BinEntry::Empty => {
            let bx = Box::new(Node { hash: h, key: k, value: v, next: None });
            proof {
                assert(bx.hash == spec_spread(bx.key));
                assert(chain_map(bx.next) =~= Map::<u64, u64>::empty());
                assert(chain_wf(bx.next));
                assert(chain_wf(Some(bx)));
                assert(chain_map(Some(bx)) =~= Map::<u64, u64>::empty().insert(k, v));
            }
            *slot = BinEntry::Chain(Some(bx));
            proof {
                assert(slot_wf(*slot));
                assert(slot_map(*slot) =~= slot_map(*old(slot)).insert(k, v));
            }
            None
        },
        BinEntry::Chain(mut c) => {
            let ghost c0 = c;
            proof {
                lemma_chain_some_len(c);
                assert(slot_map(*old(slot)) == chain_map(c0));
            }
            let prev = chain_put(&mut c, h, k, v, if_absent);
            proof {
                if c is None {
                    assert(chain_len(c) == 0);
                    assert(false);
                }
            }
            *slot = BinEntry::Chain(c);
            proof {
                assert(slot_wf(*slot));
                assert(slot_map(*slot) =~= (if if_absent && prev is Some {
                    slot_map(*old(slot))
                } else {
                    slot_map(*old(slot)).insert(k, v)
                }));
            }
            prev
        },
        BinEntry::Tree(mut t) => {
            proof {
                crate::tree::lemma_tree_some_size(t);
            }
            let prev = tree::tree_put(&mut t, h, k, v, if_absent);
            proof {
                if t is None {
                    assert(tree::tree_size(t) == 0);
                    assert(false);
                }
            }
            *slot = BinEntry::Tree(t);
            prev
        },
        BinEntry::Forwarding => unreached(),
        BinEntry::Reservation => unreached(),
    }
}

} // verus!

verus! {

/// Unlink `k` from a live slot, provided `expected` (when given) matches its
/// value; a chain that empties leaves the slot `Empty`, and a tree bin that
/// shrinks below `UNTREEIFY_THRESHOLD` entries is flattened back to a chain.
pub(crate) fn slot_remove(slot: &mut BinEntry, h: u64, k: u64, expected: Option<u64>) -> (prev:
    Option<u64>)
    requires
        slot_wf(*old(slot)),
        slot_live(*old(slot)),
        h == spec_spread(k),
    ensures
        slot_wf(*final(slot)),
        slot_live(*final(slot)),
        prev == (if lookup(slot_map(*old(slot)), k) is Some && (expected is None || expected
            == lookup(slot_map(*old(slot)), k)) {
            lookup(slot_map(*old(slot)), k)
        } else {
            None::<u64>
        }),
        slot_map(*final(slot)) =~= (if prev is Some {
            slot_map(*old(slot)).remove(k)
        } else {
            slot_map(*old(slot))
        }),
        slot_len(*final(slot)) == slot_len(*old(slot)) - (if prev is Some {
            1int
        } else {
            0int
        }),
{
    let mut cur = BinEntry::Empty;
    core::mem::swap(&mut cur, slot);
    match cur {
        BinEntry::Empty => {
            proof {
                assert(slot_map(*slot) =~= slot_map(*old(slot)));
            }
            None
        },
        BinEntry::Chain(mut c) => {
            let prev = chain_remove(&mut c, h, k, expected);
            if c.is_some() {
                *slot = BinEntry::Chain(c);
            } else {
                proof {
                    assert(chain_map(c) =~= Map::<u64, u64>::empty());
                }
            }
            proof {
                assert(slot_map(*slot) =~= (if prev is Some {
                    slot_map(*old(slot)).remove(k)
                } else {
                    slot_map(*old(slot))
                }));
            }
            prev
        },
        BinEntry::Tree(mut t) => {
            let prev = tree::tree_remove(&mut t, h, k, expected);
            if t.is_none() {
                proof {
                    assert(tree::tree_map(t) =~= Map::<u64, u64>::empty());
                }
            } else if prev.is_some() && tree::tree_count_sat(&t) < (
            crate::UNTREEIFY_THRESHOLD as u64) {
                proof {
                    tree::lemma_tree_some_size(t);
                }
                let c = tree::untreeify(t);
                proof {
                    if c is None {
                        assert(chain_len(c) == 0);
                        assert(false);
                    }
                }
                *slot = BinEntry::Chain(c);
            } else {
                *slot = BinEntry::Tree(t);
            }
            prev
        },
        BinEntry::Forwarding => unreached(),
        BinEntry::Reservation => unreached(),
    }
}

/// Reorganize an overflowing chain slot into a tree bin in place.
pub(crate) fn slot_treeify(slot: &mut BinEntry)
    requires
        slot_wf(*old(slot)),
        *old(slot) is Chain,
    ensures
        slot_wf(*final(slot)),
        slot_live(*final(slot)),
        *final(slot) is Tree,
        slot_map(*final(slot)) =~= slot_map(*old(slot)),
        slot_len(*final(slot)) == slot_len(*old(slot)),
{
    let mut cur = BinEntry::Empty;
    core::mem::swap(&mut cur, slot);
    match cur {
        BinEntry::Chain(c) => {
            proof {
                lemma_chain_some_len(c);
            }
            let t = tree::treeify(c);
            proof {
                if t is None {
                    assert(tree::tree_size(t) == 0);
                    assert(false);
                }
            }
            *slot = BinEntry::Tree(t);
        },
        _ => {
            let nothing: () = unreached();
            nothing
        },
    }
}

/// Rebuild one side of a split bin: an empty side stays empty, a long side is
/// treeified where the new table is wide enough, and the rest stays a chain.
fn rebuild_bin(c: Option<Box<Node>>, treeify_ok: bool) -> (r: BinEntry)
    requires
        chain_wf(c),
    ensures
        slot_wf(r),
        slot_live(r),
        slot_map(r) =~= chain_map(c),
        slot_len(r) == chain_len(c),
{
    if c.is_none() {
        proof {
            assert(chain_map(c) =~= Map::<u64, u64>::empty());
        }
        BinEntry::Empty
    } else if treeify_ok && chain_longer_than(&c, crate::TREEIFY_THRESHOLD) {
        let t = tree::treeify(c);
        proof {
            if t is None {
                assert(tree::tree_size(t) == 0);
                assert(false);
            }
        }
        BinEntry::Tree(t)
    } else {
        BinEntry::Chain(c)
    }
}

/// Split a migrating bin by the hash bit `bit` that the doubled table newly
/// consults: the first slot keeps the entries whose bit is clear, the second
/// the rest. `treeify_ok` says whether the destination table is wide enough
/// for tree bins.
pub(crate) fn split_slot(e: BinEntry, bit: u64, treeify_ok: bool) -> (r: (BinEntry, BinEntry))
    requires
        slot_wf(e),
        slot_live(e),
    ensures
        slot_wf(r.0),
        slot_live(r.0),
        slot_wf(r.1),
        slot_live(r.1),
        forall|k: u64| #[trigger]
            slot_map(r.0).dom().contains(k) <==> (slot_map(e).dom().contains(k) && spec_spread(k)
                & bit == 0),
        forall|k: u64| #[trigger]
            slot_map(r.1).dom().contains(k) <==> (slot_map(e).dom().contains(k) && spec_spread(k)
                & bit != 0),
        forall|k: u64| #[trigger]
            slot_map(r.0).dom().contains(k) ==> slot_map(r.0)[k] == slot_map(e)[k],
        forall|k: u64| #[trigger]
            slot_map(r.1).dom().contains(k) ==> slot_map(r.1)[k] == slot_map(e)[k],
        slot_len(r.0) + slot_len(r.1) == slot_len(e),
{
    let ghost e0 = e;
    let chain = match e {
        BinEntry::Empty => {
            proof {
                assert(chain_map(None::<Box<Node>>) =~= slot_map(e0));
                assert(chain_wf(None::<Box<Node>>));
            }
            None
        },
        BinEntry::Chain(c) => c,
        BinEntry::Tree(t) => {
            let c = tree::untreeify(t);
            c
        },
        BinEntry::Forwarding => unreached(),
        BinEntry::Reservation => unreached(),
    };
    proof {
        assert(chain_map(chain) =~= slot_map(e0));
        assert(chain_len(chain) == slot_len(e0));
    }
    let (lo, hi) = chain_split(chain, bit);
    (rebuild_bin(lo, treeify_ok), rebuild_bin(hi, treeify_ok))
}

} // verus!
