//! Deletion below a node of the B-tree: the entry leaves its node, and a
//! node that is one key short borrows from a neighbour or becomes one with
//! it.

use vstd::prelude::*;
use crate::btree::{slot, BTree, MAX_KEYS, MIN_KEYS, Node};
use crate::btree::model::find_pos;
use crate::entries::{
    ascending, entries_map, has_key, index_of, left_of, lemma_joined_merge,
    lemma_joined_window, lemma_left_frame, lemma_left_step, lemma_map_at, lemma_middle_remove,
    lemma_remove_at, lemma_right_frame, lemma_right_step, lemma_take_first, lemma_take_last,
    right_of, Entry,
};

verus! {

impl Node {
    /// What a deletion leaves behind: the entries of `before` without `key`.
    /// The node itself has lost at most one key.
    pub(super) open spec fn deleted(before: Node, after: Node, res: bool, key: i32) -> bool {
        &&& after.shaped()
        &&& after.is_leaf == before.is_leaf
        &&& after.height() == before.height()
        &&& ascending(after.entries())
        &&& entries_map(after.entries()) == entries_map(before.entries()).remove(key)
        &&& res == has_key(before.entries(), key)
        &&& after.keys@.len() + 1 >= before.keys@.len()
        &&& before.spares(key) ==> {
            &&& after.layout() == before.layout_without(key)
            &&& after.keys@.len() >= MIN_KEYS
            &&& !before.is_leaf ==> after.keys@ == before.keys@
        }
    }

    /// The node `b` is the node `a` without its last key and, where `a` is
    /// an inner node, without its last subtree.
    pub(super) open spec fn last_taken(a: Node, b: Node) -> bool {
        &&& b.is_leaf == a.is_leaf
        &&& b.keys@ =~= a.keys@.drop_last()
        &&& b.values@ =~= a.values@.drop_last()
        &&& b.children@ =~= if a.is_leaf {
            a.children@
        } else {
            a.children@.drop_last()
        }
    }

    /// The node `b` is the node `a` without its first key and, where `a` is
    /// an inner node, without its first subtree.
    pub(super) open spec fn first_taken(a: Node, b: Node) -> bool {
        &&& b.is_leaf == a.is_leaf
        &&& b.keys@ =~= a.keys@.drop_first()
        &&& b.values@ =~= a.values@.drop_first()
        &&& b.children@ =~= if a.is_leaf {
            a.children@
        } else {
            a.children@.drop_first()
        }
    }

    /// The subtree at `cp` took an entry over from its left neighbour: the
    /// neighbour lost its last key, which stands in the node now; the key
    /// that stood there stands in front of the keys of the subtree; and
    /// the last subtree of an inner neighbour is the first of the subtree.
    /// Nothing else changed.
    pub(super) open spec fn lent_from_left(a: Node, b: Node, cp: int) -> bool {
        let l = a.children@[cp - 1];
        let c = a.children@[cp];
        &&& b.keys@ =~= a.keys@.update(cp - 1, l.keys@.last())
        &&& b.values@ =~= a.values@.update(cp - 1, l.values@.last())
        &&& b.children@ =~= a.children@.update(cp - 1, b.children@[cp - 1]).update(
            cp,
            b.children@[cp],
        )
        &&& Node::last_taken(l, b.children@[cp - 1])
        &&& Node::first_taken(b.children@[cp], c)
        &&& b.children@[cp].keys@.len() == c.keys@.len() + 1
        &&& b.children@[cp].keys@[0] == a.keys@[cp - 1]
        &&& b.children@[cp].values@[0] == a.values@[cp - 1]
        &&& !c.is_leaf ==> b.children@[cp].children@[0] == l.children@.last()
    }

    /// The subtree at `cp` took an entry over from its right neighbour:
    /// the mirror image of `lent_from_left`.
    pub(super) open spec fn lent_from_right(a: Node, b: Node, cp: int) -> bool {
        let r = a.children@[cp + 1];
        let c = a.children@[cp];
        &&& b.keys@ =~= a.keys@.update(cp, r.keys@[0])
        &&& b.values@ =~= a.values@.update(cp, r.values@[0])
        &&& b.children@ =~= a.children@.update(cp, b.children@[cp]).update(
            cp + 1,
            b.children@[cp + 1],
        )
        &&& Node::first_taken(r, b.children@[cp + 1])
        &&& Node::last_taken(b.children@[cp], c)
        &&& b.children@[cp].keys@.len() == c.keys@.len() + 1
        &&& b.children@[cp].keys@.last() == a.keys@[cp]
        &&& b.children@[cp].values@.last() == a.values@[cp]
        &&& !c.is_leaf ==> b.children@[cp].children@.last() == r.children@[0]
    }

    /// The subtrees at `lp` and behind it became one, with the key that
    /// stood between them in the middle: the node lost that key and the
    /// second subtree, and nothing else changed.
    pub(super) open spec fn merged_at(a: Node, b: Node, lp: int) -> bool {
        let l = a.children@[lp];
        let r = a.children@[lp + 1];
        let m = b.children@[lp];
        &&& b.keys@ =~= a.keys@.remove(lp)
        &&& b.values@ =~= a.values@.remove(lp)
        &&& b.children@ =~= a.children@.remove(lp + 1).update(lp, m)
        &&& m.is_leaf == l.is_leaf
        &&& m.keys@ =~= l.keys@ + seq![a.keys@[lp]] + r.keys@
        &&& m.values@ =~= l.values@ + seq![a.values@[lp]] + r.values@
        &&& m.children@ =~= if l.is_leaf {
            l.children@
        } else {
            l.children@ + r.children@
        }
    }

    /// Which of the three ways a short subtree at `pos` was brought back
    /// to the smallest number of keys: by its left neighbour where that
    /// can spare a key, else by its right neighbour where that can, else
    /// by becoming one with a neighbour, the left one where there is one.
    pub(super) open spec fn relieved(a: Node, b: Node, pos: int) -> bool {
        if pos > 0 && a.children@[pos - 1].keys@.len() > MIN_KEYS {
            Node::lent_from_left(a, b, pos)
        } else if pos + 1 < a.children@.len() && a.children@[pos + 1].keys@.len() > MIN_KEYS {
            Node::lent_from_right(a, b, pos)
        } else {
            Node::merged_at(
                a,
                b,
                if pos > 0 {
                    pos - 1
                } else {
                    pos
                },
            )
        }
    }

    /// The node `m` is the node `a` after the deletion below its subtree
    /// at `p`, and `b` is what became of `m`: `m` itself where the subtree
    /// still holds the smallest number of keys, else `m` with the subtree
    /// brought back to it.
    pub(super) open spec fn went_down(a: Node, m: Node, b: Node, p: int) -> bool {
        &&& m.is_leaf == a.is_leaf
        &&& m.keys@ == a.keys@
        &&& m.values@ == a.values@
        &&& m.children@ == a.children@.update(p, m.children@[p])
        &&& if m.children@[p].keys@.len() < MIN_KEYS {
            Node::relieved(m, b, p)
        } else {
            b.keys@ == m.keys@ && b.values@ == m.values@ && b.children@ == m.children@
        }
    }

    /// What a deletion does at the node itself. A key of a leaf leaves it
    /// with its value. A key of an inner node is replaced as `replaced_at`
    /// says. A key that is none of the node's is looked for below the
    /// subtree at its slot: a leaf stays as it is, and an inner node
    /// changes only in that subtree, and in its neighbours where the
    /// subtree fell short.
    pub(super) open spec fn stepped(a: Node, b: Node, res: bool, key: i32) -> bool {
        let p = slot(a.keys@, key);
        if a.holds(key) {
            if a.is_leaf {
                b.keys@ == a.keys@.remove(p) && b.values@ == a.values@.remove(p) && b.children@
                    == a.children@
            } else {
                Node::replaced_at(a, b, p)
            }
        } else if a.is_leaf {
            b == a
        } else {
            exists|m: Node| #[trigger]
                Node::deleted(a.children@[p], m.children@[p], res, key) && Node::went_down(a, m, b, p)
        }
    }

    /// Which entry took the place of the own key at `pos` that was
    /// removed: the last one below the subtree before it, where that
    /// subtree can spare one; else the first one below the subtree behind
    /// it, where that can; else none, and the two subtrees became one.
    pub(super) open spec fn replaced_at(a: Node, b: Node, pos: int) -> bool {
        let l = a.children@[pos];
        let r = a.children@[pos + 1];
        if l.keys@.len() > MIN_KEYS {
            &&& b.keys@ =~= a.keys@.update(pos, l.entries().last().0)
            &&& b.values@[pos]@ == l.entries().last().1
            &&& b.children@ =~= a.children@.update(pos, b.children@[pos])
            &&& Node::deleted(l, b.children@[pos], true, l.entries().last().0)
        } else if r.keys@.len() > MIN_KEYS {
            &&& b.keys@ =~= a.keys@.update(pos, r.entries()[0].0)
            &&& b.values@[pos]@ == r.entries()[0].1
            &&& b.children@ =~= a.children@.update(pos + 1, b.children@[pos + 1])
            &&& Node::deleted(r, b.children@[pos + 1], true, r.entries()[0].0)
        } else {
            &&& b.keys@ =~= a.keys@.remove(pos)
            &&& b.values@ =~= a.values@.remove(pos)
            &&& b.children@ =~= a.children@.remove(pos + 1).update(pos, b.children@[pos])
        }
    }

    /// What moving entries between the subtrees of a node leaves behind: the
    /// same entries in the same order.
    pub(super) open spec fn rebalanced(before: Node, after: Node) -> bool {
        &&& after.loose()
        &&& !after.is_leaf
        &&& after.height() == before.height()
        &&& after.entries() == before.entries()
    }

    /// A subtree that lost `key`, if it held it.
    pub(super) proof fn lemma_child_shrunk(a: Node, b: Node, pos: int, key: i32)
        requires
            a.wf(),
            !a.is_leaf,
            !b.is_leaf,
            0 <= pos <= a.keys@.len(),
            pos > 0 ==> a.keys@[pos - 1] < key,
            pos < a.keys@.len() ==> key < a.keys@[pos],
            b.keys@ == a.keys@,
            b.values@ == a.values@,
            b.children@ == a.children@.update(pos, b.children@[pos]),
            b.children@[pos].shaped(),
            b.children@[pos].height() == a.children@[pos].height(),
            ascending(b.children@[pos].entries()),
            entries_map(b.children@[pos].entries()) == entries_map(
                a.children@[pos].entries(),
            ).remove(key),
        ensures
            b.loose(),
            b.full_but(pos),
            b.height() == a.height(),
            ascending(b.entries()),
            entries_map(b.entries()) == entries_map(a.entries()).remove(key),
            has_key(a.entries(), key) == has_key(a.children@[pos].entries(), key),
    {
        let c2 = b.children@[pos].entries();
        assert(b.own() =~= a.own());
        assert(b.kids() =~= a.kids().update(pos, c2));
        a.lemma_around_child(pos);
        b.lemma_around_child(pos);
        lemma_left_frame(a.kids(), a.own(), b.kids(), b.own(), pos);
        lemma_right_frame(a.kids(), a.own(), pos, b.kids(), b.own(), pos);
        let l = left_of(a.kids(), a.own(), pos);
        let r = right_of(a.kids(), a.own(), pos);
        lemma_middle_remove(l, a.kids()[pos], c2, r, key);
        assert forall|i: int| 0 <= i < b.children@.len() implies (#[trigger] b.children@[i]).shaped()
            && b.children@[i].height() == b.children@[0].height() && (i != pos
            ==> b.children@[i].keys@.len() >= MIN_KEYS) by {
            if i != pos {
                assert(b.children@[i] == a.children@[i]);
            }
            if 0 != pos {
                assert(b.children@[0] == a.children@[0]);
            }
        }
    }

    /// An own key replaced by the last entry of the subtree before it, which
    /// the subtree has lost.
    pub(super) proof fn lemma_pred_swapped(a: Node, b: Node, pos: int)
        requires
            !a.spares(a.keys@[pos]),
            a.wf(),
            !a.is_leaf,
            !b.is_leaf,
            0 <= pos < a.keys@.len(),
            a.children@[pos].entries().len() > 0,
            b.keys@.len() == a.keys@.len(),
            b.values@.len() == a.values@.len(),
            b.own() == a.own().update(pos, a.children@[pos].entries().last()),
            b.children@ == a.children@.update(pos, b.children@[pos]),
            b.children@[pos].shaped(),
            b.children@[pos].keys@.len() >= MIN_KEYS,
            b.children@[pos].height() == a.children@[pos].height(),
            ascending(b.children@[pos].entries()),
            entries_map(b.children@[pos].entries()) == entries_map(
                a.children@[pos].entries(),
            ).remove(a.children@[pos].entries().last().0),
        ensures
            Node::deleted(a, b, true, a.keys@[pos]),
            b.keys@.len() == a.keys@.len(),
    {
        let c = a.children@[pos].entries();
        let c2 = b.children@[pos].entries();
        assert(b.kids() =~= a.kids().update(pos, c2));
        a.lemma_around_child(pos);
        b.lemma_around_child(pos);
        lemma_right_step(a.kids(), a.own(), pos);
        lemma_right_step(b.kids(), b.own(), pos);
        lemma_left_frame(a.kids(), a.own(), b.kids(), b.own(), pos);
        lemma_right_frame(a.kids(), a.own(), pos + 1, b.kids(), b.own(), pos + 1);
        let l = left_of(a.kids(), a.own(), pos);
        let r = a.kids()[pos + 1] + right_of(a.kids(), a.own(), pos + 1);
        assert(a.entries() =~= l + (c + seq![a.own()[pos]]) + r);
        assert(b.entries() =~= l + (c2 + seq![c.last()]) + r);
        lemma_take_last(l, c, c2, a.own()[pos], r);
        assert forall|i: int| 0 <= i < b.children@.len() implies {
            &&& (#[trigger] b.children@[i]).shaped()
            &&& b.children@[i].keys@.len() >= MIN_KEYS
            &&& b.children@[i].height() == b.children@[0].height()
        } by {
            if i != pos {
                assert(b.children@[i] == a.children@[i]);
            }
            if 0 != pos {
                assert(b.children@[0] == a.children@[0]);
            }
        }
    }

    /// An own key replaced by the first entry of the subtree behind it, which
    /// the subtree has lost.
    pub(super) proof fn lemma_succ_swapped(a: Node, b: Node, pos: int)
        requires
            !a.spares(a.keys@[pos]),
            a.wf(),
            !a.is_leaf,
            !b.is_leaf,
            0 <= pos < a.keys@.len(),
            a.children@[pos + 1].entries().len() > 0,
            b.keys@.len() == a.keys@.len(),
            b.values@.len() == a.values@.len(),
            b.own() == a.own().update(pos, a.children@[pos + 1].entries()[0]),
            b.children@ == a.children@.update(pos + 1, b.children@[pos + 1]),
            b.children@[pos + 1].shaped(),
            b.children@[pos + 1].keys@.len() >= MIN_KEYS,
            b.children@[pos + 1].height() == a.children@[pos + 1].height(),
            ascending(b.children@[pos + 1].entries()),
            entries_map(b.children@[pos + 1].entries()) == entries_map(
                a.children@[pos + 1].entries(),
            ).remove(a.children@[pos + 1].entries()[0].0),
        ensures
            Node::deleted(a, b, true, a.keys@[pos]),
            b.keys@.len() == a.keys@.len(),
    {
        let c = a.children@[pos + 1].entries();
        let c2 = b.children@[pos + 1].entries();
        assert(b.kids() =~= a.kids().update(pos + 1, c2));
        a.lemma_around_child(pos);
        b.lemma_around_child(pos);
        lemma_right_step(a.kids(), a.own(), pos);
        lemma_right_step(b.kids(), b.own(), pos);
        lemma_left_frame(a.kids(), a.own(), b.kids(), b.own(), pos);
        lemma_right_frame(a.kids(), a.own(), pos + 1, b.kids(), b.own(), pos + 1);
        let l = left_of(a.kids(), a.own(), pos) + a.kids()[pos];
        let r = right_of(a.kids(), a.own(), pos + 1);
        assert(a.entries() =~= l + (seq![a.own()[pos]] + c) + r);
        assert(b.entries() =~= l + (seq![c[0]] + c2) + r);
        lemma_take_first(l, a.own()[pos], c, c2, r);
        assert forall|i: int| 0 <= i < b.children@.len() implies {
            &&& (#[trigger] b.children@[i]).shaped()
            &&& b.children@[i].keys@.len() >= MIN_KEYS
            &&& b.children@[i].height() == b.children@[0].height()
        } by {
            if i != pos + 1 {
                assert(b.children@[i] == a.children@[i]);
            }
            assert(b.children@[0] == a.children@[0]);
        }
    }

    /// The entries of a node are those of the node without its last key and
    /// last subtree, then that key, then that subtree.
    pub(super) proof fn lemma_last_dropped(a: Node, b: Node)
        requires
            a.keys@.len() == a.values@.len(),
            a.keys@.len() >= 1,
            !a.is_leaf ==> a.children@.len() == a.keys@.len() + 1,
            b.is_leaf == a.is_leaf,
            b.keys@ =~= a.keys@.drop_last(),
            b.values@ =~= a.values@.drop_last(),
            !a.is_leaf ==> b.children@ =~= a.children@.drop_last(),
        ensures
            a.entries() == b.entries() + seq![a.own().last()] + (if a.is_leaf {
                Seq::<Entry>::empty()
            } else {
                a.children@.last().entries()
            }),
    {
        let n = a.keys@.len() as int;
        assert(b.own() =~= a.own().drop_last());
        if a.is_leaf {
            assert(a.own() =~= b.own() + seq![a.own().last()] + Seq::<Entry>::empty());
        } else {
            assert(b.kids() =~= a.kids().drop_last());
            a.lemma_around_child(n);
            lemma_left_step(a.kids(), a.own(), n);
            b.lemma_around_child(n - 1);
            lemma_left_frame(a.kids(), a.own(), b.kids(), b.own(), n - 1);
            assert(a.entries() =~= b.entries() + seq![a.own().last()] + a.children@.last().entries());
        }
    }

    /// The entries of a node are its first subtree, then its first key, then
    /// those of the node without the two.
    pub(super) proof fn lemma_first_dropped(a: Node, b: Node)
        requires
            a.keys@.len() == a.values@.len(),
            a.keys@.len() >= 1,
            !a.is_leaf ==> a.children@.len() == a.keys@.len() + 1,
            b.is_leaf == a.is_leaf,
            b.keys@ =~= a.keys@.drop_first(),
            b.values@ =~= a.values@.drop_first(),
            !a.is_leaf ==> b.children@ =~= a.children@.drop_first(),
        ensures
            a.entries() == (if a.is_leaf {
                Seq::<Entry>::empty()
            } else {
                a.children@[0].entries()
            }) + seq![a.own()[0]] + b.entries(),
    {
        assert(b.own() =~= a.own().drop_first());
        if a.is_leaf {
            assert(a.own() =~= Seq::<Entry>::empty() + seq![a.own()[0]] + b.own());
        } else {
            assert(b.kids() =~= a.kids().drop_first());
            a.lemma_around_child(0);
            lemma_right_step(a.kids(), a.own(), 0);
            b.lemma_around_child(0);
            lemma_right_frame(a.kids(), a.own(), 1, b.kids(), b.own(), 0);
            assert(a.entries() =~= a.children@[0].entries() + seq![a.own()[0]] + b.entries());
        }
    }

    /// The entries of two nodes made one, with a key between them.
    pub(super) proof fn lemma_merged(l: Node, r: Node, m: Node, sep: Entry)
        requires
            l.keys@.len() == l.values@.len(),
            r.keys@.len() == r.values@.len(),
            m.keys@.len() == m.values@.len(),
            r.is_leaf == l.is_leaf,
            m.is_leaf == l.is_leaf,
            !l.is_leaf ==> l.children@.len() == l.keys@.len() + 1,
            !l.is_leaf ==> r.children@.len() == r.keys@.len() + 1,
            m.own() == l.own() + seq![sep] + r.own(),
            !l.is_leaf ==> m.children@ =~= l.children@ + r.children@,
        ensures
            m.entries() == l.entries() + seq![sep] + r.entries(),
    {
        let nl = l.keys@.len() as int;
        if !l.is_leaf {
            assert(m.kids() =~= l.kids() + r.kids());
            assert(m.own().len() == l.own().len() + 1 + r.own().len());
            m.lemma_around_child(nl);
            lemma_right_step(m.kids(), m.own(), nl);
            l.lemma_around_child(nl);
            r.lemma_around_child(0);
            lemma_left_frame(l.kids(), l.own(), m.kids(), m.own(), nl);
            lemma_right_frame(m.kids(), m.own(), nl + 1, r.kids(), r.own(), 0);
            assert(m.entries() =~= l.entries() + seq![sep] + r.entries());
        }
    }

    /// Two neighbouring subtrees and the key between them, replaced by two
    /// subtrees and a key that hold the same entries in the same order.
    pub(super) proof fn lemma_rotated(a: Node, b: Node, c: int)
        requires
            a.loose(),
            !a.is_leaf,
            !b.is_leaf,
            0 <= c < a.keys@.len(),
            b.keys@.len() == a.keys@.len(),
            b.values@.len() == a.values@.len(),
            b.children@.len() == a.children@.len(),
            forall|i: int|
                0 <= i < a.keys@.len() && i != c ==> b.keys@[i] == a.keys@[i] && b.values@[i]
                    == a.values@[i],
            forall|i: int|
                0 <= i < a.children@.len() && i != c && i != c + 1 ==> b.children@[i]
                    == a.children@[i],
            b.children@[c].shaped(),
            b.children@[c + 1].shaped(),
            b.children@[c].height() == a.children@[c].height(),
            b.children@[c + 1].height() == a.children@[c + 1].height(),
            b.children@[c].entries() + seq![b.own()[c]] + b.children@[c + 1].entries()
                == a.children@[c].entries() + seq![a.own()[c]] + a.children@[c + 1].entries(),
        ensures
            Node::rebalanced(a, b),
    {
        lemma_joined_window(a.kids(), a.own(), b.kids(), b.own(), c);
        assert forall|i: int| 0 <= i < b.children@.len() implies (#[trigger] b.children@[i]).shaped()
            && b.children@[i].height() == b.children@[0].height() by {
            assert(a.children@[i].shaped());
            assert(a.children@[c].shaped());
            assert(a.children@[c + 1].shaped());
            assert(a.children@[0].shaped());
        }
        assert(a.children@[0].shaped());
    }

    /// Two neighbouring subtrees and the key between them, replaced by one
    /// subtree that holds the same entries in the same order.
    pub(super) proof fn lemma_merged_parent(a: Node, b: Node, c: int)
        requires
            a.loose(),
            !a.is_leaf,
            !b.is_leaf,
            0 <= c < a.keys@.len(),
            b.keys@ =~= a.keys@.remove(c),
            b.values@ =~= a.values@.remove(c),
            b.children@.len() == a.children@.len() - 1,
            forall|i: int| 0 <= i < c ==> b.children@[i] == a.children@[i],
            forall|i: int| c < i < b.children@.len() ==> b.children@[i] == a.children@[i + 1],
            b.children@[c].shaped(),
            b.children@[c].height() == a.children@[c].height(),
            b.children@[c].entries() == a.children@[c].entries() + seq![a.own()[c]]
                + a.children@[c + 1].entries(),
        ensures
            Node::rebalanced(a, b),
    {
        assert(b.own() =~= a.own().remove(c));
        assert(b.kids() =~= a.kids().remove(c + 1).update(
            c,
            a.kids()[c] + seq![a.own()[c]] + a.kids()[c + 1],
        ));
        lemma_joined_merge(a.kids(), a.own(), b.kids(), b.own(), c);
        assert forall|i: int| 0 <= i < b.children@.len() implies (#[trigger] b.children@[i]).shaped()
            && b.children@[i].height() == b.children@[0].height() by {
            assert(a.children@[i].shaped());
            assert(a.children@[i + 1].shaped());
            assert(a.children@[c].shaped());
            assert(a.children@[0].shaped());
        }
        assert(a.children@[0].shaped());
    }
}

impl BTree {
    pub(super) fn delete_rec(node: &mut Node, key: i32) -> (res: bool)
        requires
            old(node).wf(),
            old(node).is_leaf || old(node).keys@.len() >= 1,
        ensures
            Node::deleted(*old(node), *final(node), res, key),
            Node::stepped(*old(node), *final(node), res, key),
        decreases old(node).height(), 1nat,
    {
        let ghost a = *node;
        let pos: usize = find_pos(&node.keys, key);
        if pos < node.keys.len() && node.keys[pos] == key {
            if node.is_leaf {
                node.keys.remove(pos);
                node.values.remove(pos);
                proof {
                    assert(node.own() =~= a.own().remove(pos as int));
                    lemma_remove_at(a.own(), pos as int);
                    a.lemma_own_found(pos as int);
                    assert(node.kid_layouts() =~= a.kid_layouts());
                }
                return true;
            } else {
                return Self::delete_from_internal_node(node, pos);
            }
        }
        if node.is_leaf {
            proof {
                let s = a.own();
                if has_key(s, key) {
                    let i = index_of(s, key);
                    if i >= pos {
                        assert(s[pos as int].0 <= s[i].0);
                    }
                }
                assert(entries_map(s).remove(key) =~= entries_map(s));
            }
            return false;
        }
        proof {
            a.lemma_descend(pos as int, key);
        }
        let res = Self::delete_rec(&mut node.children[pos], key);
        proof {
            assert(node.children@ =~= a.children@.update(pos as int, node.children@[pos as int]));
            Node::lemma_child_shrunk(a, *node, pos as int, key);
            assert(node.kid_layouts() =~= a.kid_layouts().update(
                pos as int,
                node.children@[pos as int].layout(),
            ));
            assert(a.down(key) && !a.holds(key));
        }
        let ghost mid = *node;
        if node.children[pos].keys.len() < MIN_KEYS {
            assert(!a.spares(key));
            Self::ensure_child_has_min_keys(node, pos);
        }
        proof {
            assert(Node::deleted(a.children@[pos as int], mid.children@[pos as int], res, key));
            assert(Node::went_down(a, mid, *node, pos as int));
        }
        res
    }

    /// Removes the own key at `pos` of an inner node: the entry before it or
    /// the entry behind it in key order takes its place, from whichever
    /// neighbouring subtree can spare one; where neither can, the two
    /// subtrees become one around the key, and the key is removed from that.
    pub(super) fn delete_from_internal_node(node: &mut Node, pos: usize) -> (res: bool)
        requires
            old(node).wf(),
            !old(node).is_leaf,
            pos < old(node).keys@.len(),
            pos == slot(old(node).keys@, old(node).keys@[pos as int]),
        ensures
            Node::deleted(*old(node), *final(node), res, old(node).keys@[pos as int]),
            res,
            Node::replaced_at(*old(node), *final(node), pos as int),
        decreases old(node).height(), 0nat,
    {
        let ghost a = *node;
        let key: i32 = node.keys[pos];
        proof {
            a.lemma_child_wf(pos as int);
            a.lemma_child_wf(pos + 1);
            a.lemma_own_found(pos as int);
            assert(a.holds(key) && !a.spares(key));
        }
        if node.children[pos].keys.len() > MIN_KEYS {
            let (pred_key, pred_value) = Self::get_predecessor(&node.children[pos]);
            node.keys[pos] = pred_key;
            node.values[pos] = pred_value;
            let res = Self::delete_rec(&mut node.children[pos], pred_key);
            proof {
                let c = a.children@[pos as int].entries();
                lemma_map_at(c, c.len() - 1);
                assert(node.own() =~= a.own().update(pos as int, c.last()));
                assert(node.children@ =~= a.children@.update(
                    pos as int,
                    node.children@[pos as int],
                ));
                Node::lemma_pred_swapped(a, *node, pos as int);
            }
            return res;
        }
        if node.children[pos + 1].keys.len() > MIN_KEYS {
            let (succ_key, succ_value) = Self::get_successor(&node.children[pos + 1]);
            node.keys[pos] = succ_key;
            node.values[pos] = succ_value;
            let res = Self::delete_rec(&mut node.children[pos + 1], succ_key);
            proof {
                let c = a.children@[pos + 1].entries();
                lemma_map_at(c, 0);
                assert(node.own() =~= a.own().update(pos as int, c[0]));
                assert(node.children@ =~= a.children@.update(pos + 1, node.children@[pos + 1]));
                Node::lemma_succ_swapped(a, *node, pos as int);
            }
            return res;
        }
        Self::merge_children(node, pos);
        let ghost mid = *node;
        proof {
            if pos > 0 {
                a.lemma_own_step(pos - 1);
            }
            if pos + 1 < a.keys@.len() {
                a.lemma_own_step(pos as int);
            }
            assert forall|i: int| 0 <= i < mid.children@.len() implies (
            #[trigger] mid.children@[i]).keys@.len() >= MIN_KEYS by {
                if i < pos {
                    assert(mid.children@[i] == a.children@[i]);
                } else if i > pos {
                    assert(mid.children@[i] == a.children@[i + 1]);
                }
            }
            assert(mid.shaped());
            mid.lemma_descend(pos as int, key);
        }
        let res = Self::delete_rec(&mut node.children[pos], key);
        proof {
            assert(node.children@ =~= mid.children@.update(
                pos as int,
                node.children@[pos as int],
            ));
            Node::lemma_child_shrunk(mid, *node, pos as int, key);
            assert(node.children@ =~= a.children@.remove(pos + 1).update(
                pos as int,
                node.children@[pos as int],
            ));
        }
        res
    }

    /// The last entry in key order below and in `node`.
    pub(super) fn get_predecessor(node: &Node) -> (res: (i32, String))
        requires
            node.shaped(),
            node.keys@.len() >= 1,
        ensures
            node.entries().len() > 0,
            (res.0, res.1@) == node.entries().last(),
    {
        let mut current: &Node = node;
        while !current.is_leaf
            invariant
                current.shaped(),
                current.keys@.len() >= 1,
                current.entries().len() > 0 ==> node.entries().len() > 0 && node.entries().last()
                    == current.entries().last(),
            decreases current.height(),
        {
            let last_idx: usize = current.children.len() - 1;
            proof {
                current.lemma_around_child(last_idx as int);
                let l = left_of(current.kids(), current.own(), last_idx as int);
                let c = current.kids()[last_idx as int];
                let r = right_of(current.kids(), current.own(), last_idx as int);
                if c.len() > 0 {
                    assert((l + c + r).last() == c.last());
                }
                assert(current.children@[last_idx as int].shaped());
                current.children@[last_idx as int].lemma_leaf_height();
            }
            current = &current.children[last_idx];
        }
        let last_idx: usize = current.keys.len() - 1;
        (current.keys[last_idx], current.values[last_idx].clone())
    }

    /// The first entry in key order below and in `node`.
    pub(super) fn get_successor(node: &Node) -> (res: (i32, String))
        requires
            node.shaped(),
            node.keys@.len() >= 1,
        ensures
            node.entries().len() > 0,
            (res.0, res.1@) == node.entries()[0],
    {
        let mut current: &Node = node;
        while !current.is_leaf
            invariant
                current.shaped(),
                current.keys@.len() >= 1,
                current.entries().len() > 0 ==> node.entries().len() > 0 && node.entries()[0]
                    == current.entries()[0],
            decreases current.height(),
        {
            proof {
                current.lemma_around_child(0);
                let l = left_of(current.kids(), current.own(), 0);
                let c = current.kids()[0];
                let r = right_of(current.kids(), current.own(), 0);
                if c.len() > 0 {
                    assert((l + c + r)[0] == c[0]);
                }
                assert(current.children@[0].shaped());
                current.children@[0].lemma_leaf_height();
            }
            current = &current.children[0];
        }
        (current.keys[0], current.values[0].clone())
    }

    /// Brings the subtree at `child_pos`, which is one key short, back to the
    /// smallest number of keys: a key comes over from the left neighbour if
    /// it can spare one, else from the right neighbour if that can; else the
    /// subtree becomes one with a neighbour, the left one where there is one.
    pub(super) fn ensure_child_has_min_keys(node: &mut Node, child_pos: usize)
        requires
            old(node).loose(),
            !old(node).is_leaf,
            old(node).keys@.len() >= 1,
            child_pos <= old(node).keys@.len(),
            old(node).full_but(child_pos as int),
            old(node).children@[child_pos as int].keys@.len() + 1 == MIN_KEYS,
        ensures
            Node::rebalanced(*old(node), *final(node)),
            final(node).shaped(),
            final(node).keys@.len() + 1 >= old(node).keys@.len(),
            Node::relieved(*old(node), *final(node), child_pos as int),
    {
        let ghost a = *node;
        if child_pos > 0 {
            let left_has_extra = node.children[child_pos - 1].keys.len() > MIN_KEYS;
            if left_has_extra {
                Self::borrow_from_left(node, child_pos);
                proof {
                    assert forall|i: int| 0 <= i < node.children@.len() implies (
                    #[trigger] node.children@[i]).keys@.len() >= MIN_KEYS by {
                        if i != child_pos - 1 && i != child_pos {
                            assert(node.children@[i] == a.children@[i]);
                        }
                    }
                }
                return ;
            }
        }
        if child_pos < node.children.len() - 1 {
            let right_has_extra = node.children[child_pos + 1].keys.len() > MIN_KEYS;
            if right_has_extra {
                Self::borrow_from_right(node, child_pos);
                proof {
                    assert forall|i: int| 0 <= i < node.children@.len() implies (
                    #[trigger] node.children@[i]).keys@.len() >= MIN_KEYS by {
                        if i != child_pos && i != child_pos + 1 {
                            assert(node.children@[i] == a.children@[i]);
                        }
                    }
                }
                return ;
            }
        }
        let left_pos: usize = if child_pos > 0 {
            child_pos - 1
        } else {
            child_pos
        };
        Self::merge_children(node, left_pos);
        proof {
            assert forall|i: int| 0 <= i < node.children@.len() implies (
            #[trigger] node.children@[i]).keys@.len() >= MIN_KEYS by {
                if i < left_pos {
                    assert(node.children@[i] == a.children@[i]);
                } else if i > left_pos {
                    assert(node.children@[i] == a.children@[i + 1]);
                }
            }
        }
    }

    /// Moves the last entry of the left neighbour up into the node and the
    /// key between the two subtrees down to the front of the subtree at
    /// `child_pos`; the last subtree of the neighbour goes with it.
    pub(super) fn borrow_from_left(node: &mut Node, child_pos: usize)
        requires
            old(node).loose(),
            !old(node).is_leaf,
            0 < child_pos <= old(node).keys@.len(),
            old(node).children@[child_pos - 1].keys@.len() >= 1,
            old(node).children@[child_pos as int].keys@.len() < MAX_KEYS,
        ensures
            Node::rebalanced(*old(node), *final(node)),
            final(node).keys@.len() == old(node).keys@.len(),
            final(node).children@.len() == old(node).children@.len(),
            forall|i: int|
                0 <= i < old(node).children@.len() && i != child_pos - 1 && i != child_pos
                    ==> final(node).children@[i] == old(node).children@[i],
            final(node).children@[child_pos - 1].keys@.len() + 1 == old(node).children@[child_pos
                - 1].keys@.len(),
            final(node).children@[child_pos as int].keys@.len() == old(node).children@[child_pos as int].keys@.len() + 1,
            Node::lent_from_left(*old(node), *final(node), child_pos as int),
    {
        let ghost a = *node;
        let parent_key: i32 = node.keys[child_pos - 1];
        let parent_value = node.values[child_pos - 1].clone();
        proof {
            assert(a.children@[child_pos - 1].shaped());
            assert(a.children@[child_pos as int].shaped());
            a.children@[child_pos - 1].lemma_leaf_height();
            a.children@[child_pos as int].lemma_leaf_height();
        }
        let (up_key, up_value, moved) = Self::take_last(&mut node.children[child_pos - 1]);
        Self::push_front(&mut node.children[child_pos], parent_key, parent_value, moved);
        node.keys[child_pos - 1] = up_key;
        node.values[child_pos - 1] = up_value;
        proof {
            let b = *node;
            let c = child_pos - 1;
            assert(b.children@[c].entries() + seq![b.own()[c]] + b.children@[c + 1].entries()
                =~= a.children@[c].entries() + seq![a.own()[c]] + a.children@[c + 1].entries());
            Node::lemma_rotated(a, b, c);
        }
    }

    /// Moves the first entry of the right neighbour up into the node and the
    /// key between the two subtrees down to the end of the subtree at
    /// `child_pos`; the first subtree of the neighbour goes with it.
    pub(super) fn borrow_from_right(node: &mut Node, child_pos: usize)
        requires
            old(node).loose(),
            !old(node).is_leaf,
            child_pos < old(node).keys@.len(),
            old(node).children@[child_pos + 1].keys@.len() >= 1,
            old(node).children@[child_pos as int].keys@.len() < MAX_KEYS,
        ensures
            Node::rebalanced(*old(node), *final(node)),
            final(node).keys@.len() == old(node).keys@.len(),
            final(node).children@.len() == old(node).children@.len(),
            forall|i: int|
                0 <= i < old(node).children@.len() && i != child_pos && i != child_pos + 1
                    ==> final(node).children@[i] == old(node).children@[i],
            final(node).children@[child_pos + 1].keys@.len() + 1 == old(node).children@[child_pos
                + 1].keys@.len(),
            final(node).children@[child_pos as int].keys@.len() == old(node).children@[child_pos as int].keys@.len() + 1,
            Node::lent_from_right(*old(node), *final(node), child_pos as int),
    {
        let ghost a = *node;
        let parent_key: i32 = node.keys[child_pos];
        let parent_value = node.values[child_pos].clone();
        proof {
            assert(a.children@[child_pos + 1].shaped());
            assert(a.children@[child_pos as int].shaped());
            a.children@[child_pos + 1].lemma_leaf_height();
            a.children@[child_pos as int].lemma_leaf_height();
        }
        let (up_key, up_value, moved) = Self::take_first(&mut node.children[child_pos + 1]);
        Self::push_back(&mut node.children[child_pos], parent_key, parent_value, moved);
        node.keys[child_pos] = up_key;
        node.values[child_pos] = up_value;
        proof {
            let b = *node;
            let c = child_pos as int;
            assert(b.children@[c].entries() + seq![b.own()[c]] + b.children@[c + 1].entries()
                =~= a.children@[c].entries() + seq![a.own()[c]] + a.children@[c + 1].entries());
            Node::lemma_rotated(a, b, c);
        }
    }

    /// Makes one subtree of the subtrees at `left_pos` and behind it, with
    /// the key between them in the middle.
    pub(super) fn merge_children(node: &mut Node, left_pos: usize)
        requires
            old(node).loose(),
            !old(node).is_leaf,
            left_pos < old(node).keys@.len(),
            old(node).children@[left_pos as int].keys@.len() + old(node).children@[left_pos
                + 1].keys@.len() + 1 <= MAX_KEYS,
        ensures
            Node::rebalanced(*old(node), *final(node)),
            final(node).keys@ == old(node).keys@.remove(left_pos as int),
            final(node).children@.len() + 1 == old(node).children@.len(),
            forall|i: int| 0 <= i < left_pos ==> final(node).children@[i] == old(node).children@[i],
            forall|i: int|
                left_pos < i < final(node).children@.len() ==> final(node).children@[i] == old(node).children@[i + 1],
            final(node).children@[left_pos as int].keys@.len() == old(node).children@[left_pos as int].keys@.len() + old(node).children@[left_pos
                + 1].keys@.len() + 1,
            Node::merged_at(*old(node), *final(node), left_pos as int),
    {
        let ghost a = *node;
        proof {
            assert(a.children@[left_pos as int].shaped());
            assert(a.children@[left_pos + 1].shaped());
        }
        let parent_key: i32 = node.keys.remove(left_pos);
        let parent_value = node.values.remove(left_pos);
        let right_node = node.children.remove(left_pos + 1);
        Self::absorb(&mut node.children[left_pos], parent_key, parent_value, right_node);
        proof {
            Node::lemma_merged_parent(a, *node, left_pos as int);
        }
    }

    /// Takes the last key of a node, with the last subtree of an inner node.
    pub(super) fn take_last(node: &mut Node) -> (res: (i32, String, Option<Node>))
        requires
            old(node).shaped(),
            old(node).keys@.len() >= 1,
        ensures
            final(node).shaped(),
            final(node).is_leaf == old(node).is_leaf,
            final(node).height() == old(node).height(),
            final(node).keys@.len() + 1 == old(node).keys@.len(),
            old(node).entries() == final(node).entries() + seq![(res.0, res.1@)]
                + Node::opt_entries(res.2),
            Node::fits_below(res.2, old(node).height(), old(node).is_leaf),
            Node::last_taken(*old(node), *final(node)),
            res.0 == old(node).keys@.last(),
            res.1 == old(node).values@.last(),
            res.2 == if old(node).is_leaf {
                None::<Node>
            } else {
                Some(old(node).children@.last())
            },
    {
        let ghost a = *node;
        let key: i32 = node.keys.pop().unwrap();
        let value = node.values.pop().unwrap();
        let child = if node.is_leaf {
            None
        } else {
            node.children.pop()
        };
        proof {
            Node::lemma_last_dropped(a, *node);
            if !a.is_leaf {
                assert forall|i: int| 0 <= i < node.children@.len() implies {
                    &&& (#[trigger] node.children@[i]).shaped()
                    &&& node.children@[i].keys@.len() >= MIN_KEYS
                    &&& node.children@[i].height() == node.children@[0].height()
                } by {
                    assert(node.children@[i] == a.children@[i]);
                    assert(node.children@[0] == a.children@[0]);
                }
                assert(a.children@[a.children@.len() - 1].shaped());
                assert(node.children@[0] == a.children@[0]);
            }
        }
        (key, value, child)
    }

    /// Takes the first key of a node, with the first subtree of an inner
    /// node.
    pub(super) fn take_first(node: &mut Node) -> (res: (i32, String, Option<Node>))
        requires
            old(node).shaped(),
            old(node).keys@.len() >= 1,
        ensures
            final(node).shaped(),
            final(node).is_leaf == old(node).is_leaf,
            final(node).height() == old(node).height(),
            final(node).keys@.len() + 1 == old(node).keys@.len(),
            old(node).entries() == Node::opt_entries(res.2) + seq![(res.0, res.1@)] + final(node).entries(),
            Node::fits_below(res.2, old(node).height(), old(node).is_leaf),
            Node::first_taken(*old(node), *final(node)),
            res.0 == old(node).keys@[0],
            res.1 == old(node).values@[0],
            res.2 == if old(node).is_leaf {
                None::<Node>
            } else {
                Some(old(node).children@[0])
            },
    {
        let ghost a = *node;
        let key: i32 = node.keys.remove(0);
        let value = node.values.remove(0);
        let child = if node.is_leaf {
            None
        } else {
            Some(node.children.remove(0))
        };
        proof {
            Node::lemma_first_dropped(a, *node);
            if !a.is_leaf {
                assert forall|i: int| 0 <= i < node.children@.len() implies {
                    &&& (#[trigger] node.children@[i]).shaped()
                    &&& node.children@[i].keys@.len() >= MIN_KEYS
                    &&& node.children@[i].height() == node.children@[0].height()
                } by {
                    assert(node.children@[i] == a.children@[i + 1]);
                    assert(node.children@[0] == a.children@[1]);
                }
                assert(a.children@[0].shaped());
                assert(node.children@[0] == a.children@[1]);
            }
        }
        (key, value, child)
    }

    /// Puts a key before the keys of a node, with a subtree before the
    /// subtrees of an inner node.
    pub(super) fn push_front(node: &mut Node, key: i32, value: String, child: Option<Node>)
        requires
            old(node).shaped(),
            old(node).keys@.len() < MAX_KEYS,
            Node::fits_below(child, old(node).height(), old(node).is_leaf),
        ensures
            final(node).shaped(),
            final(node).is_leaf == old(node).is_leaf,
            final(node).height() == old(node).height(),
            final(node).keys@.len() == old(node).keys@.len() + 1,
            Node::first_taken(*final(node), *old(node)),
            final(node).keys@[0] == key,
            final(node).values@[0] == value,
            child matches Some(c) ==> final(node).children@[0] == c,
            final(node).entries() == Node::opt_entries(child) + seq![(key, value@)] + old(node).entries(),
    {
        let ghost a = *node;
        node.keys.insert(0, key);
        node.values.insert(0, value);
        if let Some(c) = child {
            node.children.insert(0, c);
        }
        proof {
            Node::lemma_first_dropped(*node, a);
            if !a.is_leaf {
                assert forall|i: int| 0 <= i < node.children@.len() implies {
                    &&& (#[trigger] node.children@[i]).shaped()
                    &&& node.children@[i].keys@.len() >= MIN_KEYS
                    &&& node.children@[i].height() == node.children@[0].height()
                } by {
                    if i > 0 {
                        assert(node.children@[i] == a.children@[i - 1]);
                    }
                    assert(a.children@[0].shaped());
                }
            }
        }
    }

    /// Puts a key behind the keys of a node, with a subtree behind the
    /// subtrees of an inner node.
    pub(super) fn push_back(node: &mut Node, key: i32, value: String, child: Option<Node>)
        requires
            old(node).shaped(),
            old(node).keys@.len() < MAX_KEYS,
            Node::fits_below(child, old(node).height(), old(node).is_leaf),
        ensures
            final(node).shaped(),
            final(node).is_leaf == old(node).is_leaf,
            final(node).height() == old(node).height(),
            final(node).keys@.len() == old(node).keys@.len() + 1,
            Node::last_taken(*final(node), *old(node)),
            final(node).keys@.last() == key,
            final(node).values@.last() == value,
            child matches Some(c) ==> final(node).children@.last() == c,
            final(node).entries() == old(node).entries() + seq![(key, value@)]
                + Node::opt_entries(child),
    {
        let ghost a = *node;
        node.keys.push(key);
        node.values.push(value);
        if let Some(c) = child {
            node.children.push(c);
        }
        proof {
            Node::lemma_last_dropped(*node, a);
            if !a.is_leaf {
                assert forall|i: int| 0 <= i < node.children@.len() implies {
                    &&& (#[trigger] node.children@[i]).shaped()
                    &&& node.children@[i].keys@.len() >= MIN_KEYS
                    &&& node.children@[i].height() == node.children@[0].height()
                } by {
                    if i < a.children@.len() {
                        assert(node.children@[i] == a.children@[i]);
                    }
                    assert(a.children@[0].shaped());
                    assert(node.children@[0] == a.children@[0]);
                }
            }
        }
    }

    /// Puts a key and all that `right` holds behind what `left` holds.
    pub(super) fn absorb(left: &mut Node, key: i32, value: String, right: Node)
        requires
            old(left).shaped(),
            right.shaped(),
            right.height() == old(left).height(),
            old(left).keys@.len() + right.keys@.len() + 1 <= MAX_KEYS,
        ensures
            final(left).shaped(),
            final(left).is_leaf == old(left).is_leaf,
            final(left).height() == old(left).height(),
            final(left).keys@.len() == old(left).keys@.len() + right.keys@.len() + 1,
            final(left).keys@ =~= old(left).keys@ + seq![key] + right.keys@,
            final(left).values@ =~= old(left).values@ + seq![value] + right.values@,
            final(left).children@ =~= if old(left).is_leaf {
                old(left).children@
            } else {
                old(left).children@ + right.children@
            },
            final(left).entries() == old(left).entries() + seq![(key, value@)] + right.entries(),
    {
        let ghost a = *left;
        let ghost r = right;
        let ghost sep = (key, value@);
        let mut right = right;
        proof {
            a.lemma_leaf_height();
            r.lemma_leaf_height();
        }
        left.keys.push(key);
        left.values.push(value);
        left.keys.append(&mut right.keys);
        left.values.append(&mut right.values);
        if !left.is_leaf {
            left.children.append(&mut right.children);
        }
        proof {
            assert(left.own() =~= a.own() + seq![sep] + r.own());
            Node::lemma_merged(a, r, *left, sep);
            if !a.is_leaf {
                assert forall|i: int| 0 <= i < left.children@.len() implies {
                    &&& (#[trigger] left.children@[i]).shaped()
                    &&& left.children@[i].keys@.len() >= MIN_KEYS
                    &&& left.children@[i].height() == left.children@[0].height()
                } by {
                    if i < a.children@.len() {
                        assert(left.children@[i] == a.children@[i]);
                    } else {
                        assert(left.children@[i] == r.children@[i - a.children@.len()]);
                    }
                    assert(a.children@[0].shaped());
                    assert(r.children@[0].shaped());
                    assert(left.children@[0] == a.children@[0]);
                }
                assert(left.children@[0] == a.children@[0]);
            }
        }
    }
}

} // verus!
