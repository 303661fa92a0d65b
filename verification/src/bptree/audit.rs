//! Going through a B+ tree to see whether its invariants hold.

use vstd::prelude::*;
use crate::bptree::{BPlusTree, Leaf, Node};
use crate::bptree::model::{link_at, linked};
use crate::btree::{MAX_KEYS, MIN_KEYS};
use crate::flat::{before, lemma_before_step, lemma_flat_ends};

verus! {

impl BPlusTree {
    /// Whether the invariant of the node and all nodes below it holds.
    pub(super) fn inv_holds(node: &Node, arena: &Vec<Leaf>) -> (ok: bool)
        ensures
            ok == node.inv(arena@),
        decreases node,
    {
        if node.is_leaf {
            return node.leaf < arena.len() && node.keys.len() == 0 && node.children.len() == 0
                && arena[node.leaf].records.len() <= MAX_KEYS;
        }
        if node.keys.len() > MAX_KEYS || node.children.len() != node.keys.len() + 1 {
            return false;
        }
        let mut i: usize = 0;
        while i < node.children.len()
            invariant
                !node.is_leaf,
                node.keys@.len() <= MAX_KEYS,
                node.children@.len() == node.keys@.len() + 1,
                i <= node.children@.len(),
                forall|j: int|
                    0 <= j < i ==> {
                        &&& (#[trigger] node.children@[j]).inv(arena@)
                        &&& node.children@[j].height() == node.children@[0].height()
                        &&& node.kid_full(arena@, j)
                        &&& node.kid_sep(arena@, j)
                    },
            decreases node.children@.len() - i,
        {
            let child = &node.children[i];
            if !Self::inv_holds(child, arena) {
                return false;
            }
            if Self::node_size(child, arena) < MIN_KEYS || !Self::same_height(
                child,
                &node.children[0],
            ) {
                assert(!(node.kid_full(arena@, i as int) && node.children@[i as int].height()
                    == node.children@[0].height()));
                return false;
            }
            if i > 0 {
                let first: i32 = Self::first_key(child, arena);
                if first != node.keys[i - 1] {
                    assert(!node.kid_sep(arena@, i as int));
                    return false;
                }
            }
            i = i + 1;
        }
        true
    }

    /// Whether two nodes are equally high.
    pub(super) fn same_height(a: &Node, b: &Node) -> (same: bool)
        ensures
            same == (a.height() == b.height()),
    {
        let mut x: &Node = a;
        let mut y: &Node = b;
        while !(x.is_leaf || x.children.len() == 0) && !(y.is_leaf || y.children.len() == 0)
            invariant
                (x.height() == y.height()) == (a.height() == b.height()),
            decreases x.height(),
        {
            x = &x.children[0];
            y = &y.children[0];
        }
        proof {
            if !(x.is_leaf || x.children@.len() == 0) {
                assert(x.children@[0].height() >= 1);
            }
            if !(y.is_leaf || y.children@.len() == 0) {
                assert(y.children@[0].height() >= 1);
            }
        }
        (x.is_leaf || x.children.len() == 0) && (y.is_leaf || y.children.len() == 0)
    }

    /// Puts the numbers of the leaves below `node`, from left to right,
    /// behind the numbers in `out`.
    pub(super) fn collect_ids(node: &Node, out: &mut Vec<usize>)
        ensures
            final(out)@ == old(out)@ + node.ids(),
        decreases node,
    {
        let ghost start = out@;
        if node.is_leaf {
            out.push(node.leaf);
            assert(out@ =~= start + node.ids());
            return ;
        }
        let mut i: usize = 0;
        proof {
            lemma_flat_ends(node.kid_ids());
            assert(start + Seq::<usize>::empty() =~= start);
        }
        while i < node.children.len()
            invariant
                !node.is_leaf,
                i <= node.children@.len(),
                out@ == start + before(node.kid_ids(), i as int),
            decreases node.children@.len() - i,
        {
            Self::collect_ids(&node.children[i], out);
            proof {
                lemma_before_step(node.kid_ids(), i + 1);
                assert(out@ =~= start + before(node.kid_ids(), i + 1));
            }
            i = i + 1;
        }
        proof {
            lemma_flat_ends(node.kid_ids());
        }
    }

    /// Whether the leaves `ids` are linked in their order, and lead
    /// nowhere.
    pub(super) fn links_hold(ids: &Vec<usize>, arena: &Vec<Leaf>) -> (ok: bool)
        requires
            forall|j: int| 0 <= j < ids@.len() ==> (#[trigger] ids@[j]) < arena@.len(),
        ensures
            ok == linked(ids@, arena@, None),
    {
        let mut seen: Vec<bool> = Vec::new();
        let mut n: usize = 0;
        while n < arena.len()
            invariant
                n <= arena@.len(),
                seen@.len() == n,
                forall|x: int| 0 <= x < n ==> !seen@[x],
            decreases arena@.len() - n,
        {
            seen.push(false);
            n = n + 1;
        }
        let mut j: usize = 0;
        while j < ids.len()
            invariant
                j <= ids@.len(),
                seen@.len() == arena@.len(),
                forall|k: int| 0 <= k < ids@.len() ==> (#[trigger] ids@[k]) < arena@.len(),
                forall|x: int|
                    0 <= x < seen@.len() ==> (#[trigger] seen@[x] <==> exists|k: int|
                        0 <= k < j && ids@[k] == x),
                forall|a: int, b: int| 0 <= a < b < j ==> ids@[a] != ids@[b],
                forall|k: int| 0 <= k < j ==> #[trigger] link_at(ids@, arena@, None, k),
            decreases ids@.len() - j,
        {
            let id: usize = ids[j];
            if seen[id] {
                proof {
                    let k = choose|k: int| 0 <= k < j && ids@[k] == id;
                    assert(ids@[k] == ids@[j as int]);
                }
                return false;
            }
            let next_ok = match arena[id].next {
                Some(n) => j + 1 < ids.len() && ids[j + 1] == n,
                None => j + 1 == ids.len(),
            };
            if !next_ok {
                assert(!link_at(ids@, arena@, None, j as int));
                return false;
            }
            let ghost before = seen@;
            seen[id] = true;
            proof {
                assert forall|x: int| 0 <= x < seen@.len() implies (#[trigger] seen@[x]
                    <==> exists|k: int| 0 <= k < j + 1 && ids@[k] == x) by {
                    if x == id {
                        assert(ids@[j as int] == x);
                    } else {
                        assert(seen@[x] == before[x]);
                        if before[x] {
                            let k = choose|k: int| 0 <= k < j && ids@[k] == x;
                            assert(0 <= k < j + 1 && ids@[k] == x);
                        }
                        if exists|k: int| 0 <= k < j + 1 && ids@[k] == x {
                            let k = choose|k: int| 0 <= k < j + 1 && ids@[k] == x;
                            assert(k < j);
                        }
                    }
                }
                assert forall|a: int, b: int| 0 <= a < b < j + 1 implies ids@[a] != ids@[b] by {
                    if b == j && ids@[a] == ids@[b] {
                        assert(before[id as int]);
                    }
                }
            }
            j = j + 1;
        }
        proof {
            assert forall|a: int, b: int|
                0 <= a < ids@.len() && 0 <= b < ids@.len() && a != b implies ids@[a] != ids@[b] by {
                if a < b {
                    assert(ids@[a] != ids@[b]);
                } else {
                    assert(ids@[b] != ids@[a]);
                }
            }
        }
        true
    }
}

} // verus!
