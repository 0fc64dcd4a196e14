//! Tree bins: an overflowing chain reorganized into a binary search tree
//! ordered by `(spread hash, key)`, bounding lookup depth in a bin whose keys
//! collide. A tree bin that shrinks again is flattened back into a chain.

use vstd::prelude::*;
use crate::hash::spec_spread;
use crate::node::{Node, chain_map, chain_len, chain_wf, lookup};

verus! {

/// One entry of a tree bin.
pub(crate) struct TreeNode {
    /// The spread digest of `key`.
    pub hash: u64,
    pub key: u64,
    pub value: u64,
    pub left: Option<Box<TreeNode>>,
    pub right: Option<Box<TreeNode>>,
}

/// The order a tree bin is keyed by: spread hash first, then the key itself.
pub open spec fn hk_less(a: u64, b: u64) -> bool {
    spec_spread(a) < spec_spread(b) || (spec_spread(a) == spec_spread(b) && a < b)
}

/// The key-value bindings a tree holds.
pub(crate) open spec fn tree_map(t: Option<Box<TreeNode>>) -> Map<u64, u64>
    decreases t,
{
    match t {
        None => Map::empty(),
        Some(b) => tree_map(b.left).union_prefer_right(tree_map(b.right)).insert(b.key, b.value),
    }
}

/// The number of entries in a tree.
pub(crate) open spec fn tree_size(t: Option<Box<TreeNode>>) -> nat
    decreases t,
{
    match t {
        None => 0,
        Some(b) => 1 + tree_size(b.left) + tree_size(b.right),
    }
}

/// Every hash is the spread digest of its key, and the `(hash, key)` search
/// order holds at every node.
pub(crate) open spec fn tree_wf(t: Option<Box<TreeNode>>) -> bool
    decreases t,
{
    match t {
        None => true,
        Some(b) => {
            &&& b.hash == spec_spread(b.key)
            &&& (forall|k: u64| #[trigger]
                tree_map(b.left).dom().contains(k) ==> hk_less(k, b.key))
            &&& (forall|k: u64| #[trigger]
                tree_map(b.right).dom().contains(k) ==> hk_less(b.key, k))
            &&& tree_wf(b.left)
            &&& tree_wf(b.right)
        },
    }
}

/// A tree bin that is present holds at least one entry.
pub(crate) proof fn lemma_tree_some_size(t: Option<Box<TreeNode>>)
    requires
        t is Some,
    ensures
        tree_size(t) >= 1,
{
    match t {
        Some(b) => {
            assert(tree_size(t) == 1 + tree_size(b.left) + tree_size(b.right));
        },
        None => {},
    }
}

/// Search a tree bin for `k`, guided by the `(hash, key)` order.
pub(crate) fn tree_find(t: &Option<Box<TreeNode>>, h: u64, k: u64) -> (r: Option<u64>)
    requires
        tree_wf(*t),
        h == spec_spread(k),
    ensures
        r == lookup(tree_map(*t), k),
    decreases *t,
{
    match t {
        None => None,
        Some(b) => {
            if b.hash == h && b.key == k {
                Some(b.value)
            } else if h < b.hash || (h == b.hash && k < b.key) {
                proof {
                    assert(!tree_map(b.right).dom().contains(k));
                }
                tree_find(&b.left, h, k)
            } else {
                proof {
                    assert(!tree_map(b.left).dom().contains(k));
                }
                tree_find(&b.right, h, k)
            }
        },
    }
}

/// Insert `k -> v` into a tree bin, or update the value in place (unless the
/// entry is to be kept under `if_absent`). Returns the previous value.
pub(crate) fn tree_put(
    t: &mut Option<Box<TreeNode>>,
    h: u64,
    k: u64,
    v: u64,
    if_absent: bool,
) -> (prev: Option<u64>)
    requires
        tree_wf(*old(t)),
        h == spec_spread(k),
    ensures
        tree_wf(*final(t)),
        prev == lookup(tree_map(*old(t)), k),
        if_absent && prev is Some ==> *final(t) == *old(t),
        !(if_absent && prev is Some) ==> tree_map(*final(t)) =~= tree_map(*old(t)).insert(k, v),
        tree_size(*final(t)) == tree_size(*old(t)) + (if prev is None {
            1int
        } else {
            0int
        }),
    decreases *old(t),
{
    match t.take() {
        None => {
            *t = Some(Box::new(TreeNode { hash: h, key: k, value: v, left: None, right: None }));
            None
        },
        Some(mut b) => {
            if b.hash == h && b.key == k {
                proof {
                    assert(!tree_map(b.left).dom().contains(k));
                    assert(!tree_map(b.right).dom().contains(k));
                }
                let prev_v = b.value;
                if !if_absent {
                    b.value = v;
                }
                *t = Some(b);
                Some(prev_v)
            } else if h < b.hash || (h == b.hash && k < b.key) {
                proof {
                    assert(!tree_map(b.right).dom().contains(k));
                }
                let prev = tree_put(&mut b.left, h, k, v, if_absent);
                *t = Some(b);
                prev
            } else {
                proof {
                    assert(!tree_map(b.left).dom().contains(k));
                }
                let prev = tree_put(&mut b.right, h, k, v, if_absent);
                *t = Some(b);
                prev
            }
        },
    }
}

/// Unlink the entry with the least `(hash, key)` of a nonempty tree.
/// Returns its key, value and hash.
fn tree_pop_min(t: &mut Option<Box<TreeNode>>) -> (popped: (u64, u64, u64))
    requires
        *old(t) is Some,
        tree_wf(*old(t)),
    ensures
        tree_wf(*final(t)),
        tree_map(*old(t)).dom().contains(popped.0),
        tree_map(*old(t))[popped.0] == popped.1,
        popped.2 == spec_spread(popped.0),
        tree_map(*final(t)) =~= tree_map(*old(t)).remove(popped.0),
        forall|k: u64| #[trigger]
            tree_map(*old(t)).dom().contains(k) ==> k == popped.0 || hk_less(popped.0, k),
        tree_size(*final(t)) == tree_size(*old(t)) - 1,
    decreases *old(t),
{
    let mut b = t.take().unwrap();
    if b.left.is_none() {
        proof {
            assert(tree_map(b.left) =~= Map::empty());
            assert(!tree_map(b.right).dom().contains(b.key));
        }
        let popped = (b.key, b.value, b.hash);
        *t = b.right;
        popped
    } else {
        let popped = tree_pop_min(&mut b.left);
        proof {
            assert(!tree_map(b.right).dom().contains(popped.0));
        }
        *t = Some(b);
        popped
    }
}

/// Unlink the entry whose key is `k`, provided `expected` (when given)
/// matches its value. Returns the removed value, or `None` when nothing was
/// removed.
pub(crate) fn tree_remove(
    t: &mut Option<Box<TreeNode>>,
    h: u64,
    k: u64,
    expected: Option<u64>,
) -> (prev: Option<u64>)
    requires
        tree_wf(*old(t)),
        h == spec_spread(k),
    ensures
        tree_wf(*final(t)),
        prev == (if lookup(tree_map(*old(t)), k) is Some && (expected is None || expected
            == lookup(tree_map(*old(t)), k)) {
            lookup(tree_map(*old(t)), k)
        } else {
            None::<u64>
        }),
        prev is Some ==> tree_map(*final(t)) =~= tree_map(*old(t)).remove(k),
        prev is None ==> *final(t) == *old(t),
        tree_size(*final(t)) == tree_size(*old(t)) - (if prev is Some {
            1int
        } else {
            0int
        }),
    decreases *old(t),
{
    match t.take() {
        None => None,
        Some(mut b) => {
            proof {
                assert(tree_size(*old(t)) == 1 + tree_size(b.left) + tree_size(b.right));
            }
            if b.hash == h && b.key == k {
                proof {
                    assert(!tree_map(b.left).dom().contains(k));
                    assert(!tree_map(b.right).dom().contains(k));
                }
                let matches_expected = match expected {
                    None => true,
                    Some(e) => b.value == e,
                };
                if !matches_expected {
                    *t = Some(b);
                    None
                } else {
                    let prev_v = b.value;
                    if b.left.is_none() {
                        proof {
                            assert(tree_map(b.left) =~= Map::empty());
                        }
                        *t = b.right;
                    } else if b.right.is_none() {
                        proof {
                            assert(tree_map(b.right) =~= Map::empty());
                        }
                        *t = b.left;
                    } else {
                        let popped = tree_pop_min(&mut b.right);
                        b.key = popped.0;
                        b.value = popped.1;
                        b.hash = popped.2;
                        *t = Some(b);
                    }
                    Some(prev_v)
                }
            } else if h < b.hash || (h == b.hash && k < b.key) {
                proof {
                    assert(!tree_map(b.right).dom().contains(k));
                }
                let prev = tree_remove(&mut b.left, h, k, expected);
                *t = Some(b);
                prev
            } else {
                proof {
                    assert(!tree_map(b.left).dom().contains(k));
                }
                let prev = tree_remove(&mut b.right, h, k, expected);
                *t = Some(b);
                prev
            }
        },
    }
}

/// Link two chains whose key sets are disjoint, the first in front.
fn chain_concat(a: Option<Box<Node>>, b: Option<Box<Node>>) -> (r: Option<Box<Node>>)
    requires
        chain_wf(a),
        chain_wf(b),
        forall|k: u64| #[trigger]
            chain_map(a).dom().contains(k) ==> !chain_map(b).dom().contains(k),
    ensures
        chain_wf(r),
        chain_map(r) =~= chain_map(a).union_prefer_right(chain_map(b)),
        chain_len(r) == chain_len(a) + chain_len(b),
    decreases a,
{
    match a {
        None => b,
        Some(boxed) => {
            let node = *boxed;
            proof {
                assert(chain_map(a).dom().contains(node.key));
                assert forall|k: u64| #[trigger]
                    chain_map(node.next).dom().contains(k) implies !chain_map(
                    b,
                ).dom().contains(k) by {
                    assert(chain_map(a).dom().contains(k));
                };
            }
            let rest = chain_concat(node.next, b);
            Some(
                Box::new(Node { hash: node.hash, key: node.key, value: node.value, next: rest }),
            )
        },
    }
}

/// Flatten a tree bin back into a chain, in `(hash, key)` order.
pub(crate) fn untreeify(t: Option<Box<TreeNode>>) -> (c: Option<Box<Node>>)
    requires
        tree_wf(t),
    ensures
        chain_wf(c),
        chain_map(c) =~= tree_map(t),
        chain_len(c) == tree_size(t),
    decreases t,
{
    match t {
        None => None,
        Some(boxed) => {
            let node = *boxed;
            let left_chain = untreeify(node.left);
            let right_chain = untreeify(node.right);
            proof {
                assert(!tree_map(node.right).dom().contains(node.key));
            }
            let mid = Some(
                Box::new(
                    Node {
                        hash: node.hash,
                        key: node.key,
                        value: node.value,
                        next: right_chain,
                    },
                ),
            );
            chain_concat(left_chain, mid)
        },
    }
}

/// Move every entry of a chain into a tree bin whose keys it does not share.
fn treeify_into(t: &mut Option<Box<TreeNode>>, cur: Option<Box<Node>>)
    requires
        tree_wf(*old(t)),
        chain_wf(cur),
        forall|k: u64| #[trigger]
            chain_map(cur).dom().contains(k) ==> !tree_map(*old(t)).dom().contains(k),
    ensures
        tree_wf(*final(t)),
        tree_map(*final(t)) =~= tree_map(*old(t)).union_prefer_right(chain_map(cur)),
        tree_size(*final(t)) == tree_size(*old(t)) + chain_len(cur),
    decreases cur,
{
    match cur {
        None => {
            proof {
                assert(tree_map(*t) =~= tree_map(*t).union_prefer_right(Map::empty()));
            }
        },
        Some(boxed) => {
            let node = *boxed;
            proof {
                assert(chain_map(cur).dom().contains(node.key));
            }
            let prev = tree_put(t, node.hash, node.key, node.value, false);
            proof {
                assert(prev is None);
                assert forall|k: u64| #[trigger]
                    chain_map(node.next).dom().contains(k) implies !tree_map(
                    *t,
                ).dom().contains(k) by {
                    assert(chain_map(cur).dom().contains(k));
                };
            }
            treeify_into(t, node.next);
            proof {
                assert(tree_map(*t) =~= tree_map(*old(t)).union_prefer_right(chain_map(cur)));
            }
        },
    }
}

/// Reorganize an overflowing chain into a tree bin holding the same entries.
pub(crate) fn treeify(chain: Option<Box<Node>>) -> (t: Option<Box<TreeNode>>)
    requires
        chain_wf(chain),
    ensures
        tree_wf(t),
        tree_map(t) =~= chain_map(chain),
        tree_size(t) == chain_len(chain),
{
    let mut t: Option<Box<TreeNode>> = None;
    proof {
        assert(tree_map(t) =~= Map::empty());
    }
    treeify_into(&mut t, chain);
    t
}

/// The number of entries in a tree bin, saturating at `u64::MAX`.
pub(crate) fn tree_count_sat(t: &Option<Box<TreeNode>>) -> (r: u64)
    ensures
        r == (if tree_size(*t) < 0xffff_ffff_ffff_ffffu64 {
            tree_size(*t) as int
        } else {
            0xffff_ffff_ffff_ffffu64 as int
        }),
    decreases *t,
{
    match t {
        None => 0,
        Some(b) => {
            let l = tree_count_sat(&b.left);
            let r0 = tree_count_sat(&b.right);
            let s = if l > 0xffff_ffff_ffff_fffe { 0xffff_ffff_ffff_ffff } else { l + 1 };
            if r0 > 0xffff_ffff_ffff_ffff - s {
                0xffff_ffff_ffff_ffff
            } else {
                s + r0
            }
        },
    }
}

} // verus!
