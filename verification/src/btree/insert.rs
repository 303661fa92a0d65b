//! Insertion below a node of the B-tree: the entry goes into its leaf, and
//! a node that holds one key too many is cut in two.

use vstd::prelude::*;
use crate::btree::{slot, BTree, MAX_KEYS, MIDDLE, MIN_KEYS, Node, SplitResult};
use crate::btree::model::find_pos;
use crate::entries::{
    ascending, entries_map, has_key, index_of, left_of, lemma_insert_at, lemma_left_frame,
    lemma_middle_insert, lemma_right_frame, lemma_right_step, lemma_update_at, right_of, Entry,
};

verus! {

impl Node {
    /// What an insertion leaves behind: the node `after` and, where the node
    /// was split, the key that moves up and the new right node. Together
    /// they hold the entries of `before` with `key` bound to `v`.
    pub(super) open spec fn inserted(before: Node, after: Node, res: Option<SplitResult>, key: i32, v: Seq<char>) -> bool {
        &&& after.shaped()
        &&& after.is_leaf == before.is_leaf
        &&& after.height() == before.height()
        &&& res is Some <==> before.overflows(key)
        &&& has_key(before.entries(), key) ==> res is None && after.layout() == before.layout()
        &&& match res {
            None => after.keys@ == if has_key(before.entries(), key) || (before.down(key)
                && !before.children@[slot(before.keys@, key)].overflows(key)) {
                before.keys@
            } else {
                before.widened(key)
            },
            Some(split) => {
                &&& after.keys@ == before.widened(key).subrange(0, MIDDLE as int)
                &&& split.key == before.widened(key)[MIDDLE as int]
                &&& split.node.keys@ == before.widened(key).subrange(
                    MIDDLE + 1,
                    MAX_KEYS + 1,
                )
            },
        }
        &&& match res {
            None => {
                &&& ascending(after.entries())
                &&& entries_map(after.entries()) == entries_map(before.entries()).insert(key, v)
                &&& after.keys@.len() >= before.keys@.len()
            },
            Some(split) => {
                let all = after.entries() + seq![(split.key, split.value@)] + split.node.entries();
                &&& ascending(all)
                &&& entries_map(all) == entries_map(before.entries()).insert(key, v)
                &&& split.node.shaped()
                &&& split.node.height() == before.height()
                &&& after.keys@.len() >= MIN_KEYS
                &&& split.node.keys@.len() >= MIN_KEYS
            },
        }
    }

    /// A new value for an own key.
    pub(super) proof fn lemma_updated(a: Node, b: Node, pos: int)
        requires
            a.wf(),
            0 <= pos < a.keys@.len(),
            b.is_leaf == a.is_leaf,
            b.keys@ == a.keys@,
            b.children@ == a.children@,
            b.values@.len() == a.values@.len(),
            forall|i: int| 0 <= i < a.values@.len() && i != pos ==> b.values@[i] == a.values@[i],
        ensures
            b.shaped(),
            b.height() == a.height(),
            ascending(b.entries()),
            entries_map(b.entries()) == entries_map(a.entries()).insert(
                a.keys@[pos],
                b.values@[pos]@,
            ),
    {
        let e = (a.keys@[pos], b.values@[pos]@);
        assert(b.own() =~= a.own().update(pos, e));
        if a.is_leaf {
            lemma_update_at(a.own(), pos, e.1);
        } else {
            assert(b.kids() =~= a.kids());
            a.lemma_around_child(pos);
            b.lemma_around_child(pos);
            lemma_right_step(a.kids(), a.own(), pos);
            lemma_right_step(b.kids(), b.own(), pos);
            lemma_left_frame(a.kids(), a.own(), b.kids(), b.own(), pos);
            lemma_right_frame(a.kids(), a.own(), pos + 1, b.kids(), b.own(), pos + 1);
            let l = left_of(a.kids(), a.own(), pos);
            let c = a.kids()[pos];
            let at = (l.len() + c.len()) as int;
            assert(a.entries()[at] == a.own()[pos]);
            assert(b.entries() =~= a.entries().update(at, e));
            lemma_update_at(a.entries(), at, e.1);
        }
    }

    /// A new entry in a leaf.
    pub(super) proof fn lemma_leaf_inserted(a: Node, b: Node, pos: int, key: i32, v: Seq<char>)
        requires
            a.wf(),
            a.is_leaf,
            b.is_leaf,
            0 <= pos <= a.keys@.len(),
            b.own() == a.own().insert(pos, (key, v)),
            pos > 0 ==> a.keys@[pos - 1] < key,
            pos < a.keys@.len() ==> key < a.keys@[pos],
        ensures
            ascending(b.entries()),
            entries_map(b.entries()) == entries_map(a.entries()).insert(key, v),
    {
        lemma_insert_at(a.own(), pos, (key, v));
    }

    /// A subtree that took the new entry without being split.
    pub(super) proof fn lemma_child_replaced(a: Node, b: Node, pos: int, key: i32, v: Seq<char>)
        requires
            a.wf(),
            !a.is_leaf,
            !b.is_leaf,
            0 <= pos <= a.keys@.len(),
            pos > 0 ==> a.keys@[pos - 1] < key,
            pos < a.keys@.len() ==> key < a.keys@[pos],
            b.keys@ == a.keys@,
            b.values@ == a.values@,
            b.children@ == a.children@.update(pos, b.children@[pos]),
            b.children@[pos].shaped(),
            b.children@[pos].keys@.len() >= MIN_KEYS,
            b.children@[pos].height() == a.children@[pos].height(),
            ascending(b.children@[pos].entries()),
            entries_map(b.children@[pos].entries()) == entries_map(
                a.children@[pos].entries(),
            ).insert(key, v),
        ensures
            b.shaped(),
            b.height() == a.height(),
            ascending(b.entries()),
            entries_map(b.entries()) == entries_map(a.entries()).insert(key, v),
    {
        let c2 = b.children@[pos].entries();
        assert(b.own() =~= a.own());
        assert(b.kids() =~= a.kids().update(pos, c2));
        a.lemma_around_child(pos);
        b.lemma_around_child(pos);
        lemma_left_frame(a.kids(), a.own(), b.kids(), b.own(), pos);
        lemma_right_frame(a.kids(), a.own(), pos, b.kids(), b.own(), pos);
        let l = left_of(a.kids(), a.own(), pos);
        let r = right_of(a.kids(), a.own(), pos);
        lemma_middle_insert(l, a.kids()[pos], c2, r, key, v);
        assert forall|i: int| 0 <= i < b.children@.len() implies {
            &&& (#[trigger] b.children@[i]).shaped()
            &&& b.children@[i].keys@.len() >= MIN_KEYS
            &&& b.children@[i].height() == b.children@[0].height()
        } by {
            if i != pos {
                assert(b.children@[i] == a.children@[i]);
            }
            if 0 != pos {
                assert(b.children@[0] == a.children@[0]);
            }
        }
    }

    /// A subtree that took the new entry and was split: its right half and
    /// the key between the halves are now the node's own.
    pub(super) proof fn lemma_child_split(a: Node, b: Node, pos: int, sep: Entry, key: i32, v: Seq<char>)
        requires
            a.wf(),
            !a.is_leaf,
            !b.is_leaf,
            0 <= pos <= a.keys@.len(),
            pos > 0 ==> a.keys@[pos - 1] < key,
            pos < a.keys@.len() ==> key < a.keys@[pos],
            b.keys@.len() == b.values@.len(),
            b.own() == a.own().insert(pos, sep),
            b.children@ == a.children@.update(pos, b.children@[pos]).insert(
                pos + 1,
                b.children@[pos + 1],
            ),
            b.children@[pos].shaped(),
            b.children@[pos + 1].shaped(),
            b.children@[pos].keys@.len() >= MIN_KEYS,
            b.children@[pos + 1].keys@.len() >= MIN_KEYS,
            b.children@[pos].height() == a.children@[pos].height(),
            b.children@[pos + 1].height() == a.children@[pos].height(),
            ascending(
                b.children@[pos].entries() + seq![sep] + b.children@[pos + 1].entries(),
            ),
            entries_map(b.children@[pos].entries() + seq![sep] + b.children@[pos + 1].entries())
                == entries_map(a.children@[pos].entries()).insert(key, v),
        ensures
            b.roomy((MAX_KEYS + 1) as nat),
            b.height() == a.height(),
            ascending(b.entries()),
            entries_map(b.entries()) == entries_map(a.entries()).insert(key, v),
    {
        let cl = b.children@[pos].entries();
        let cr = b.children@[pos + 1].entries();
        assert(b.kids() =~= a.kids().update(pos, cl).insert(pos + 1, cr));
        a.lemma_around_child(pos);
        b.lemma_around_child(pos);
        lemma_right_step(b.kids(), b.own(), pos);
        lemma_left_frame(a.kids(), a.own(), b.kids(), b.own(), pos);
        lemma_right_frame(a.kids(), a.own(), pos, b.kids(), b.own(), pos + 1);
        let l = left_of(a.kids(), a.own(), pos);
        let r = right_of(a.kids(), a.own(), pos);
        assert(b.entries() =~= l + (cl + seq![sep] + cr) + r);
        lemma_middle_insert(l, a.kids()[pos], cl + seq![sep] + cr, r, key, v);
        assert forall|i: int| 0 <= i < b.children@.len() implies {
            &&& (#[trigger] b.children@[i]).shaped()
            &&& b.children@[i].keys@.len() >= MIN_KEYS
            &&& b.children@[i].height() == b.children@[0].height()
        } by {
            if i < pos {
                assert(b.children@[i] == a.children@[i]);
            } else if i > pos + 1 {
                assert(b.children@[i] == a.children@[i - 1]);
            }
            if 0 != pos {
                assert(b.children@[0] == a.children@[0]);
            }
        }
    }

    /// A node with one key too many, cut at the position `m`: the keys before
    /// `m` stay, the key at `m` moves up, the keys behind `m` make the new
    /// right node, and each half takes the subtrees next to its keys.
    pub(super) proof fn lemma_split(mid: Node, left: Node, right: Node, m: int)
        requires
            mid.roomy((MAX_KEYS + 1) as nat),
            mid.keys@.len() == MAX_KEYS + 1,
            m == (MAX_KEYS + 1) / 2,
            left.is_leaf == mid.is_leaf,
            right.is_leaf == mid.is_leaf,
            left.keys@ =~= mid.keys@.subrange(0, m),
            left.values@ =~= mid.values@.subrange(0, m),
            right.keys@ =~= mid.keys@.subrange(m + 1, mid.keys@.len() as int),
            right.values@ =~= mid.values@.subrange(m + 1, mid.keys@.len() as int),
            mid.is_leaf ==> left.children@.len() == 0 && right.children@.len() == 0,
            !mid.is_leaf ==> left.children@ =~= mid.children@.subrange(0, m + 1),
            !mid.is_leaf ==> right.children@ =~= mid.children@.subrange(
                m + 1,
                mid.children@.len() as int,
            ),
        ensures
            left.shaped(),
            right.shaped(),
            left.height() == mid.height(),
            right.height() == mid.height(),
            left.keys@.len() >= MIN_KEYS,
            right.keys@.len() >= MIN_KEYS,
            left.entries() + seq![mid.own()[m]] + right.entries() == mid.entries(),
    {
        let n = mid.keys@.len() as int;
        assert(left.own() =~= mid.own().subrange(0, m));
        assert(right.own() =~= mid.own().subrange(m + 1, n));
        if mid.is_leaf {
            assert(left.own() + seq![mid.own()[m]] + right.own() =~= mid.own());
        } else {
            assert(left.kids() =~= mid.kids().subrange(0, m + 1));
            assert(right.kids() =~= mid.kids().subrange(m + 1, n + 1));
            mid.lemma_around_child(m);
            lemma_right_step(mid.kids(), mid.own(), m);
            left.lemma_around_child(m);
            right.lemma_around_child(0);
            lemma_left_frame(mid.kids(), mid.own(), left.kids(), left.own(), m);
            lemma_right_frame(mid.kids(), mid.own(), m + 1, right.kids(), right.own(), 0);
            assert(left.entries() + seq![mid.own()[m]] + right.entries() =~= mid.entries());
            assert forall|i: int| 0 <= i < left.children@.len() implies {
                &&& (#[trigger] left.children@[i]).shaped()
                &&& left.children@[i].keys@.len() >= MIN_KEYS
                &&& left.children@[i].height() == left.children@[0].height()
            } by {
                assert(left.children@[i] == mid.children@[i]);
                assert(left.children@[0] == mid.children@[0]);
            }
            assert forall|i: int| 0 <= i < right.children@.len() implies {
                &&& (#[trigger] right.children@[i]).shaped()
                &&& right.children@[i].keys@.len() >= MIN_KEYS
                &&& right.children@[i].height() == right.children@[0].height()
            } by {
                assert(right.children@[i] == mid.children@[m + 1 + i]);
                assert(right.children@[0] == mid.children@[m + 1]);
            }
            assert(right.children@[0] == mid.children@[m + 1]);
            assert(left.children@[0] == mid.children@[0]);
        }
    }
}

impl BTree {
    /// Cuts a node with one key too many in two: the lower half stays, the
    /// middle key moves up, the upper half makes a new node.
    pub(super) fn split_node(node: &mut Node) -> (split: SplitResult)
        requires
            old(node).roomy((MAX_KEYS + 1) as nat),
            old(node).keys@.len() == MAX_KEYS + 1,
        ensures
            final(node).shaped(),
            split.node.shaped(),
            final(node).is_leaf == old(node).is_leaf,
            final(node).height() == old(node).height(),
            split.node.height() == old(node).height(),
            final(node).keys@.len() >= MIN_KEYS,
            split.node.keys@.len() >= MIN_KEYS,
            final(node).entries() + seq![(split.key, split.value@)] + split.node.entries() == old(node).entries(),
            final(node).keys@ == old(node).keys@.subrange(0, MIDDLE as int),
            split.key == old(node).keys@[MIDDLE as int],
            split.node.keys@ == old(node).keys@.subrange(MIDDLE + 1, MAX_KEYS + 1),
    {
        let ghost mid = *node;
        let split_pos: usize = node.keys.len() / 2;
        let split_key: i32 = node.keys[split_pos];
        let split_value = node.values[split_pos].clone();
        let mut new_node = if node.is_leaf {
            Node::new_leaf()
        } else {
            Node::new_internal()
        };
        new_node.keys = node.keys.split_off(split_pos + 1);
        new_node.values = node.values.split_off(split_pos + 1);
        if !node.is_leaf {
            new_node.children = node.children.split_off(split_pos + 1);
        }
        node.keys.pop();
        node.values.pop();
        proof {
            Node::lemma_split(mid, *node, new_node, split_pos as int);
            assert(node.keys@ =~= mid.keys@.subrange(0, MIDDLE as int));
            assert(new_node.keys@ =~= mid.keys@.subrange(MIDDLE + 1, MAX_KEYS + 1));
        }
        SplitResult { key: split_key, value: split_value, node: new_node }
    }

    pub(super) fn insert_rec(node: &mut Node, key: i32, value: String) -> (res: Option<SplitResult>)
        requires
            old(node).wf(),
        ensures
            Node::inserted(*old(node), *final(node), res, key, value@),
        decreases old(node).height(),
    {
        let ghost before = *node;
        let ghost v = value@;
        let pos: usize = find_pos(&node.keys, key);
        if pos < node.keys.len() && node.keys[pos] == key {
            node.values[pos] = value;
            proof {
                Node::lemma_updated(before, *node, pos as int);
                before.lemma_own_found(pos as int);
                assert(node.kid_layouts() =~= before.kid_layouts());
            }
            return None;
        }
        if node.is_leaf {
            node.keys.insert(pos, key);
            node.values.insert(pos, value);
            proof {
                let s = before.own();
                if has_key(s, key) {
                    let i = index_of(s, key);
                    if i >= pos {
                        assert(s[pos as int].0 <= s[i].0);
                    }
                }
                assert(node.own() =~= before.own().insert(pos as int, (key, v)));
                Node::lemma_leaf_inserted(before, *node, pos as int, key, v);
                assert(!has_key(before.entries(), key));
                assert(!before.down(key));
                assert(node.keys@ == before.widened(key));
            }
        } else {
            proof {
                before.lemma_descend(pos as int, key);
            }
            let res = Self::insert_rec(&mut node.children[pos], key, value);
            match res {
                Some(split) => {
                    let ghost sep = (split.key, split.value@);
                    node.keys.insert(pos, split.key);
                    node.values.insert(pos, split.value);
                    node.children.insert(pos + 1, split.node);
                    proof {
                        assert(!has_key(before.entries(), key));
                        assert(before.down(key));
                        assert(before.children@[pos as int].overflows(key));
                        assert(node.keys@ == before.widened(key));
                        assert(node.own() =~= before.own().insert(pos as int, sep));
                        assert(node.children@ =~= before.children@.update(
                            pos as int,
                            node.children@[pos as int],
                        ).insert(pos + 1, node.children@[pos + 1]));
                        Node::lemma_child_split(before, *node, pos as int, sep, key, v);
                    }
                },
                None => {
                    proof {
                        assert(node.children@ =~= before.children@.update(
                            pos as int,
                            node.children@[pos as int],
                        ));
                        Node::lemma_child_replaced(before, *node, pos as int, key, v);
                        if has_key(before.entries(), key) {
                            assert(node.kid_layouts() =~= before.kid_layouts());
                        }
                    }
                    return None;
                },
            }
        }
        assert(!has_key(before.entries(), key) && node.keys@ == before.widened(key));
        assert(!before.holds(key));
        if node.keys.len() > MAX_KEYS {
            Some(Self::split_node(node))
        } else {
            None
        }
    }
}

} // verus!
