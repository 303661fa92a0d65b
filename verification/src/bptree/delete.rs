//! Deletion below a node of the B+ tree: the record leaves its leaf, and a
//! node that is one key short borrows from a neighbour or becomes one with
//! it.

use vstd::prelude::*;
use crate::bptree::{home, pruned, spare, taken_out, without, BPlusTree, Leaf, Node};
use crate::bptree::model::{
    gather, groups, grown, head_or, lemma_gather_concat, lemma_gather_frame, lemma_gather_one,
    lemma_group_in_gather, lemma_grown_twice, lemma_home_concat, lemma_home_in,
    lemma_linked_frame, lemma_pruned_same, lemma_replace_ids, lemma_taken_out_concat, link_at,
    linked, lower_pos, upper_pos, upper_slot,
};
use crate::btree::{MAX_KEYS, MIN_KEYS, Record};
use crate::entries::{
    ascending, entries_map, has_key, index_of, lemma_above_has_not, lemma_ascending_split,
    lemma_below_has_not, lemma_first_kept_remove, lemma_map_at, lemma_middle_remove,
    lemma_remove_at,
};
use crate::flat::{after, before, lemma_after_frame, lemma_before_frame};
use vstd::seq_lib::lemma_flatten_concat;

verus! {

impl Node {
    /// What a deletion leaves behind: the entries of `a` without `key`, in
    /// leaves that `a` had and that are linked as they were. The node
    /// itself has lost at most one key.
    pub(super) open spec fn deleted(
        a: Node,
        arena: Seq<Leaf>,
        b: Node,
        arena2: Seq<Leaf>,
        key: i32,
        exit: Option<usize>,
    ) -> bool {
        &&& grown(a.ids(), arena, b.ids(), arena2, exit)
        &&& b.inv(arena2)
        &&& b.is_leaf == a.is_leaf
        &&& b.height() == a.height()
        &&& ascending(b.entries(arena2))
        &&& entries_map(b.entries(arena2)) == entries_map(a.entries(arena)).remove(key)
        &&& b.size(arena2) + 1 >= a.size(arena)
        &&& spare(groups(a.ids(), arena), key) ==> {
            &&& b.ids() == a.ids()
            &&& groups(b.ids(), arena2) == pruned(groups(a.ids(), arena), key)
            &&& !a.is_leaf ==> b.keys@.len() == a.keys@.len()
        }
        &&& a.is_leaf ==> {
            &&& b.leaf == a.leaf
            &&& arena2.len() == arena.len()
            &&& arena2[a.leaf as int].entries() == without(arena[a.leaf as int].entries(), key)
            &&& forall|j: int| 0 <= j < arena.len() && j != a.leaf ==> arena2[j] == arena[j]
        }
        &&& 0 <= a.family(key).0 <= home(groups(a.ids(), arena), key) < a.family(key).1
            <= a.ids().len()
        &&& groups(b.ids(), arena2) == taken_out(
            groups(a.ids(), arena),
            key,
            a.family(key).0,
            a.family(key).1,
        )
    }

    /// Two neighbouring subtrees replaced by two, or by one where `shift`
    /// is -1, below which the same entries lie in leaves that changed as
    /// `grown` says: the leaves of the node changed as `grown` says, its
    /// entries are the same, and the other subtrees are in order as before.
    pub(super) proof fn lemma_window_replaced(
        a: Node,
        arena: Seq<Leaf>,
        b: Node,
        arena2: Seq<Leaf>,
        c: int,
        shift: int,
        x2: Seq<usize>,
        exit: Option<usize>,
    )
        requires
            a.loose(arena, c, c + 1, MAX_KEYS as nat),
            linked(a.ids(), arena, exit),
            !b.is_leaf,
            0 <= c,
            c + 1 < a.children@.len(),
            shift == 0 || shift == -1,
            b.children@.len() == a.children@.len() + shift,
            b.keys@.len() == a.keys@.len() + shift,
            forall|i: int| 0 <= i < c ==> b.children@[i] == a.children@[i],
            forall|i: int|
                c + 1 < i < a.children@.len() ==> #[trigger] b.children@[i + shift]
                    == a.children@[i],
            forall|i: int| 0 <= i < c - 1 ==> b.keys@[i] == a.keys@[i],
            forall|i: int| c < i < a.keys@.len() ==> #[trigger] b.keys@[i + shift] == a.keys@[i],
            b.children@[c].inv(arena2),
            b.children@[c].height() == a.children@[c].height(),
            shift == 0 ==> b.children@[c + 1].inv(arena2) && b.children@[c + 1].height()
                == a.children@[c].height() && x2 == b.children@[c].ids() + b.children@[c
                + 1].ids(),
            shift == -1 ==> x2 == b.children@[c].ids(),
            grown(
                a.children@[c].ids() + a.children@[c + 1].ids(),
                arena,
                x2,
                arena2,
                head_or(after(a.kid_ids(), c + 1), exit),
            ),
            gather(x2, arena2) == gather(
                a.children@[c].ids() + a.children@[c + 1].ids(),
                arena,
            ),
        ensures
            grown(a.ids(), arena, b.ids(), arena2, exit),
            b.entries(arena2) == a.entries(arena),
            b.height() == a.height(),
            b.loose(arena2, c, c + 1 + shift, MAX_KEYS as nat),
            c + 2 < a.children@.len() ==> a.children@[c + 2].entries(arena).len() > 0
                && a.keys@[c + 1] == a.children@[c + 2].entries(arena)[0].0 && b.children@[c + 2
                + shift].entries(arena2) == a.children@[c + 2].entries(arena),
            c > 0 ==> b.children@[c - 1] == a.children@[c - 1],
            x2 == a.children@[c].ids() + a.children@[c + 1].ids() ==> b.ids() == a.ids(),
    {
        let l = before(a.kid_ids(), c);
        let x = a.children@[c].ids() + a.children@[c + 1].ids();
        let r = after(a.kid_ids(), c + 1);
        a.lemma_window_linked(arena, c, exit);
        b.lemma_node_at(arena2, c);
        assert forall|i: int| 0 <= i < c implies b.kid_ids()[i] == a.kid_ids()[i] by {
            assert(b.children@[i] == a.children@[i]);
        }
        lemma_before_frame(a.kid_ids(), b.kid_ids(), c);
        assert forall|i: int| 0 < i < a.kid_ids().len() - (c + 1) implies #[trigger] a.kid_ids()[c
            + 1 + i] == b.kid_ids()[c + 1 + shift + i] by {
            assert(b.children@[(c + 1 + i) + shift] == a.children@[c + 1 + i]);
        }
        lemma_after_frame(a.kid_ids(), c + 1, b.kid_ids(), c + 1 + shift);
        assert(b.ids() =~= l + x2 + r);
        lemma_replace_ids(l, x, x2, r, arena, arena2, exit);
        lemma_gather_frame(l, arena, arena2);
        lemma_gather_frame(r, arena, arena2);
        lemma_gather_concat(l + x2, r, arena2);
        lemma_gather_concat(l, x2, arena2);
        lemma_gather_concat(l + x, r, arena);
        lemma_gather_concat(l, x, arena);
        Node::lemma_siblings_kept(a, arena, b, arena2, c, c + 1, shift);
        assert(a.children@[0].inv(arena));
        assert(a.children@[c].inv(arena));
        assert(a.children@[c + 1].inv(arena));
        assert forall|i: int| 0 <= i < b.children@.len() implies {
            &&& (#[trigger] b.children@[i]).inv(arena2)
            &&& b.children@[i].height() == b.children@[0].height()
            &&& !(c <= i <= c + 1 + shift) ==> b.kid_full(arena2, i) && b.kid_sep(arena2, i)
        } by {
            if i > c + 1 + shift {
                assert(b.children@[(i - shift) + shift] == a.children@[i - shift]);
                if i == c + 2 + shift {
                    assert(b.keys@[(c + 1) + shift] == a.keys@[c + 1]);
                }
            }
            if c > 0 {
                assert(b.children@[0] == a.children@[0]);
            }
            if 0 < i < c {
                assert(b.children@[i - 1] == a.children@[i - 1]);
                assert(b.kid_sep(arena2, (i - 1) + 1));
            }
        }
    }

    /// Where the leaf that holds the key can spare an entry, a deletion
    /// below a subtree leaves the leaves of the node in their places, each
    /// as it was but for the entry of the key.
    pub(super) proof fn lemma_spare_up(
        a: Node,
        arena: Seq<Leaf>,
        b: Node,
        arena2: Seq<Leaf>,
        pos: int,
        key: i32,
        exit: Option<usize>,
    )
        requires
            a.inv(arena),
            linked(a.ids(), arena, exit),
            ascending(a.entries(arena)),
            !a.is_leaf,
            !b.is_leaf,
            0 <= pos <= a.keys@.len(),
            pos > 0 ==> a.keys@[pos - 1] <= key,
            pos < a.keys@.len() ==> key < a.keys@[pos],
            b.keys@ == a.keys@,
            b.children@ == a.children@.update(pos, b.children@[pos]),
            Node::deleted(
                a.children@[pos],
                arena,
                b.children@[pos],
                arena2,
                key,
                head_or(after(a.kid_ids(), pos), exit),
            ),
            spare(groups(a.ids(), arena), key),
            has_key(a.entries(arena), key),
        ensures
            b.ids() == a.ids(),
            groups(b.ids(), arena2) == pruned(groups(a.ids(), arena), key),
            b.children@[pos].size(arena2) >= MIN_KEYS,
    {
        let l = before(a.kid_ids(), pos);
        let x = a.children@[pos].ids();
        let r = after(a.kid_ids(), pos);
        let c = a.children@[pos];
        let c2 = b.children@[pos];
        a.lemma_node_at(arena, pos);
        b.lemma_node_at(arena2, pos);
        a.lemma_descend(arena, pos, key);
        assert forall|i: int| 0 <= i < a.children@.len() && i != pos implies b.kid_ids()[i]
            == a.kid_ids()[i] by {
            assert(b.children@[i] == a.children@[i]);
        }
        lemma_before_frame(a.kid_ids(), b.kid_ids(), pos);
        lemma_after_frame(a.kid_ids(), pos, b.kid_ids(), pos);
        let g = groups(a.ids(), arena);
        assert(g =~= groups(l, arena) + groups(x, arena) + groups(r, arena));
        assert forall|j: int| 0 <= j < x.len() && has_key(
            #[trigger] groups(x, arena)[j],
            key,
        ) implies groups(x, arena)[j].len() > MIN_KEYS by {
            assert(g[l.len() + j] == groups(x, arena)[j]);
        }
        assert(spare(groups(x, arena), key));
        assert(c2.ids() == x);
        lemma_replace_ids(l, x, x, r, arena, arena2, exit);
        assert(groups(l, arena2) =~= groups(l, arena));
        assert(groups(r, arena2) =~= groups(r, arena));
        let gl = gather(l, arena);
        let gr = gather(r, arena);
        lemma_ascending_split(gl + c.entries(arena), gr);
        lemma_ascending_split(gl, c.entries(arena));
        lemma_below_has_not(gl, key);
        lemma_above_has_not(gr, key);
        lemma_pruned_same(l, arena, key);
        lemma_pruned_same(r, arena, key);
        assert(groups(b.ids(), arena2) =~= groups(l, arena2) + groups(x, arena2) + groups(
            r,
            arena2,
        ));
        assert(pruned(g, key) =~= pruned(groups(l, arena), key) + pruned(groups(x, arena), key)
            + pruned(groups(r, arena), key));
        assert(a.kid_full(arena, pos));
        if c.is_leaf {
            lemma_gather_one(c.leaf, arena);
            assert(groups(x, arena)[0] == arena[c.leaf as int].entries());
            assert(has_key(groups(x, arena)[0], key));
            assert(groups(x, arena2)[0] == arena2[c.leaf as int].entries());
            assert(pruned(groups(x, arena), key)[0] == without(groups(x, arena)[0], key));
        }
    }

    /// A deletion below a subtree is a deletion below the node, but that
    /// the subtree may now be one key short and the key before it, where
    /// it was the key deleted, out of date.
    pub(super) proof fn lemma_delete_up(
        a: Node,
        arena: Seq<Leaf>,
        b: Node,
        arena2: Seq<Leaf>,
        pos: int,
        key: i32,
        exit: Option<usize>,
    )
        requires
            a.inv(arena),
            linked(a.ids(), arena, exit),
            ascending(a.entries(arena)),
            !a.is_leaf,
            !b.is_leaf,
            0 <= pos <= a.keys@.len(),
            pos > 0 ==> a.keys@[pos - 1] <= key,
            pos < a.keys@.len() ==> key < a.keys@[pos],
            b.keys@ == a.keys@,
            b.children@ == a.children@.update(pos, b.children@[pos]),
            Node::deleted(
                a.children@[pos],
                arena,
                b.children@[pos],
                arena2,
                key,
                head_or(after(a.kid_ids(), pos), exit),
            ),
            has_key(a.entries(arena), key),
        ensures
            grown(a.ids(), arena, b.ids(), arena2, exit),
            b.height() == a.height(),
            ascending(b.entries(arena2)),
            entries_map(b.entries(arena2)) == entries_map(a.entries(arena)).remove(key),
            b.loose(arena2, pos, pos, MAX_KEYS as nat),
            b.children@[pos].size(arena2) + 1 >= MIN_KEYS,
            pos > 0 && key != a.keys@[pos - 1] ==> b.kid_sep(arena2, pos),
            spare(groups(a.ids(), arena), key) ==> {
                &&& b.ids() == a.ids()
                &&& groups(b.ids(), arena2) == pruned(groups(a.ids(), arena), key)
                &&& b.children@[pos].size(arena2) >= MIN_KEYS
            },
    {
        Node::lemma_child_changed(a, arena, b, arena2, pos, exit);
        a.lemma_descend(arena, pos, key);
        if spare(groups(a.ids(), arena), key) {
            Node::lemma_spare_up(a, arena, b, arena2, pos, key, exit);
        }
        let l = gather(before(a.kid_ids(), pos), arena);
        let r = gather(after(a.kid_ids(), pos), arena);
        let c = a.children@[pos].entries(arena);
        let c2 = b.children@[pos].entries(arena2);
        lemma_middle_remove(l, c, c2, r, key);
        assert(a.children@[pos].inv(arena));
        assert(a.kid_full(arena, pos));
        if pos > 0 && key != a.keys@[pos - 1] {
            assert(a.kid_sep(arena, pos));
            lemma_first_kept_remove(c, c2, key);
        }
    }

    /// The groups of the leaves below a node are those before the subtree
    /// of `key`, those below it and those behind it; `key` goes into one of
    /// those below it, and no other group holds it.
    pub(super) proof fn lemma_groups_at(
        a: Node,
        arena: Seq<Leaf>,
        pos: int,
        key: i32,
        exit: Option<usize>,
    )
        requires
            a.inv(arena),
            linked(a.ids(), arena, exit),
            ascending(a.entries(arena)),
            !a.is_leaf,
            0 <= pos <= a.keys@.len(),
            pos > 0 ==> a.keys@[pos - 1] <= key,
            pos < a.keys@.len() ==> key < a.keys@[pos],
            has_key(a.entries(arena), key),
        ensures
            ({
                let gl = groups(before(a.kid_ids(), pos), arena);
                let gx = groups(a.children@[pos].ids(), arena);
                let gr = groups(after(a.kid_ids(), pos), arena);
                &&& groups(a.ids(), arena) == gl + gx + gr
                &&& a.ids() == before(a.kid_ids(), pos) + a.children@[pos].ids() + after(
                    a.kid_ids(),
                    pos,
                )
                &&& gx.len() >= 1
                &&& home(gl + gx + gr, key) == gl.len() + home(gx, key)
                &&& 0 <= home(gx, key) < gx.len()
                &&& forall|j: int| 0 <= j < gl.len() ==> !has_key(#[trigger] gl[j], key)
                &&& forall|j: int| 0 <= j < gr.len() ==> !has_key(#[trigger] gr[j], key)
            }),
    {
        let l = before(a.kid_ids(), pos);
        let x = a.children@[pos].ids();
        let r = after(a.kid_ids(), pos);
        let c = a.children@[pos];
        a.lemma_node_at(arena, pos);
        a.lemma_descend(arena, pos, key);
        let gl = groups(l, arena);
        let gx = groups(x, arena);
        let gr = groups(r, arena);
        assert(a.ids() =~= l + x + r);
        assert(groups(a.ids(), arena) =~= gl + gx + gr);
        assert(c.inv(arena));
        assert(a.kid_full(arena, pos));
        c.lemma_ids_nonempty(arena);
        c.lemma_leaves_full(arena, 0);
        if l.len() > 0 {
            assert(pos > 0);
            assert(a.kid_sep(arena, pos));
            assert(x =~= seq![x[0]] + x.subrange(1, x.len() as int));
            lemma_gather_concat(seq![x[0]], x.subrange(1, x.len() as int), arena);
            lemma_gather_one(x[0], arena);
            assert(gx[0] == arena[x[0] as int].entries());
            assert(c.entries(arena)[0] == gx[0][0]);
        }
        let sl = gather(l, arena);
        let sr = gather(r, arena);
        lemma_gather_concat(l + x, r, arena);
        lemma_gather_concat(l, x, arena);
        lemma_ascending_split(sl + c.entries(arena), sr);
        lemma_ascending_split(sl, c.entries(arena));
        lemma_below_has_not(sl, key);
        lemma_above_has_not(sr, key);
        assert forall|j: int| 0 <= j < gr.len() implies (#[trigger] gr[j]).len() > 0 && gr[j][0].0
            > key by {
            let at = l.len() + x.len() + j;
            assert(a.ids()[at] == r[j]);
            a.lemma_leaves_full(arena, at);
            assert(gr[j] == arena[r[j] as int].entries());
            let g0 = gr[j][0].0;
            assert(has_key(arena[r[j] as int].entries(), g0));
            lemma_group_in_gather(r, arena, j, g0);
            let i = index_of(sr, g0);
            assert(key < sr[i].0);
        }
        assert forall|j: int| 0 <= j < gl.len() implies !has_key(#[trigger] gl[j], key) by {
            if has_key(arena[l[j] as int].entries(), key) {
                lemma_group_in_gather(l, arena, j, key);
            }
        }
        assert forall|j: int| 0 <= j < gr.len() implies !has_key(#[trigger] gr[j], key) by {
            if has_key(arena[r[j] as int].entries(), key) {
                lemma_group_in_gather(r, arena, j, key);
            }
        }
        lemma_home_concat(gl, gx, gr, key);
        lemma_home_in(gx, key);
    }

    /// Between leaves, the leaf at `cp` took the last record of its left
    /// neighbour: the record left the neighbour and stands in front of the
    /// records of the leaf, its key is the key between the two, and
    /// nothing else changed.
    pub(super) open spec fn record_from_left(
        a: Node,
        arena: Seq<Leaf>,
        b: Node,
        arena2: Seq<Leaf>,
        cp: int,
    ) -> bool {
        let l = a.children@[cp - 1].leaf as int;
        let c = a.children@[cp].leaf as int;
        let moved = arena[l].entries().last();
        &&& b.children@ =~= a.children@
        &&& b.keys@ =~= a.keys@.update(cp - 1, moved.0)
        &&& arena2.len() == arena.len()
        &&& forall|j: int| 0 <= j < arena.len() && j != l && j != c ==> arena2[j] == arena[j]
        &&& arena2[l].entries() =~= arena[l].entries().drop_last()
        &&& arena2[c].entries() =~= seq![moved] + arena[c].entries()
        &&& arena2[l].next == arena[l].next
        &&& arena2[c].next == arena[c].next
    }

    /// Between inner nodes, the node at `cp` took the last subtree of its
    /// left neighbour: the subtree left the neighbour with the
    /// neighbour's last key, which is now the key between the two; the
    /// key that stood there stands in front of the keys of the node, and
    /// the subtree in front of its subtrees. Nothing else changed.
    pub(super) open spec fn subtree_from_left(a: Node, b: Node, cp: int) -> bool {
        let l = a.children@[cp - 1];
        let c = a.children@[cp];
        let l2 = b.children@[cp - 1];
        let c2 = b.children@[cp];
        &&& b.children@ =~= a.children@.update(cp - 1, l2).update(cp, c2)
        &&& b.keys@ =~= a.keys@.update(cp - 1, l.keys@.last())
        &&& !l2.is_leaf
        &&& l2.keys@ =~= l.keys@.drop_last()
        &&& l2.children@ =~= l.children@.drop_last()
        &&& !c2.is_leaf
        &&& c2.keys@ =~= seq![a.keys@[cp - 1]] + c.keys@
        &&& c2.children@ =~= seq![l.children@.last()] + c.children@
    }

    /// The subtree at `cp` took an entry over from its left neighbour.
    pub(super) open spec fn lent_from_left(
        a: Node,
        arena: Seq<Leaf>,
        b: Node,
        arena2: Seq<Leaf>,
        cp: int,
    ) -> bool {
        if a.children@[cp].is_leaf {
            Node::record_from_left(a, arena, b, arena2, cp)
        } else {
            Node::subtree_from_left(a, b, cp) && arena2 == arena
        }
    }

    /// Between leaves, the leaf at `cp` took the first record of its
    /// right neighbour: the record left the neighbour and stands behind
    /// the records of the leaf; the key between the two is the first key
    /// that the neighbour has left, and the key before the leaf is the
    /// first key of the leaf. Nothing else changed.
    pub(super) open spec fn record_from_right(
        a: Node,
        arena: Seq<Leaf>,
        b: Node,
        arena2: Seq<Leaf>,
        cp: int,
    ) -> bool {
        let c = a.children@[cp].leaf as int;
        let r = a.children@[cp + 1].leaf as int;
        let moved = arena[r].entries()[0];
        let keys = a.keys@.update(cp, arena2[r].entries()[0].0);
        &&& b.children@ =~= a.children@
        &&& b.keys@ =~= if cp > 0 {
            keys.update(cp - 1, arena2[c].entries()[0].0)
        } else {
            keys
        }
        &&& arena2.len() == arena.len()
        &&& forall|j: int| 0 <= j < arena.len() && j != c && j != r ==> arena2[j] == arena[j]
        &&& arena2[c].entries() =~= arena[c].entries().push(moved)
        &&& arena2[r].entries() =~= arena[r].entries().drop_first()
        &&& arena2[c].next == arena[c].next
        &&& arena2[r].next == arena[r].next
    }

    /// Between inner nodes, the node at `cp` took the first subtree of its
    /// right neighbour: the mirror image of `subtree_from_left`.
    pub(super) open spec fn subtree_from_right(a: Node, b: Node, cp: int) -> bool {
        let c = a.children@[cp];
        let r = a.children@[cp + 1];
        let c2 = b.children@[cp];
        let r2 = b.children@[cp + 1];
        &&& b.children@ =~= a.children@.update(cp, c2).update(cp + 1, r2)
        &&& b.keys@ =~= a.keys@.update(cp, r.keys@[0])
        &&& !r2.is_leaf
        &&& r2.keys@ =~= r.keys@.drop_first()
        &&& r2.children@ =~= r.children@.drop_first()
        &&& !c2.is_leaf
        &&& c2.keys@ =~= c.keys@.push(a.keys@[cp])
        &&& c2.children@ =~= c.children@.push(r.children@[0])
    }

    /// The subtree at `cp` took an entry over from its right neighbour.
    pub(super) open spec fn lent_from_right(
        a: Node,
        arena: Seq<Leaf>,
        b: Node,
        arena2: Seq<Leaf>,
        cp: int,
    ) -> bool {
        if a.children@[cp].is_leaf {
            Node::record_from_right(a, arena, b, arena2, cp)
        } else {
            Node::subtree_from_right(a, b, cp) && arena2 == arena
        }
    }

    /// Between leaves, the leaves at `lp` and behind it became one: the
    /// first holds the records of both and leads to the leaf that the
    /// second led to; the node lost the key between the two and the
    /// second of them. Nothing else changed.
    pub(super) open spec fn leaves_merged(
        a: Node,
        arena: Seq<Leaf>,
        b: Node,
        arena2: Seq<Leaf>,
        lp: int,
    ) -> bool {
        let l = a.children@[lp].leaf as int;
        let r = a.children@[lp + 1].leaf as int;
        &&& b.children@ =~= a.children@.remove(lp + 1)
        &&& b.keys@ =~= a.keys@.remove(lp)
        &&& arena2.len() == arena.len()
        &&& forall|j: int| 0 <= j < arena.len() && j != l && j != r ==> arena2[j] == arena[j]
        &&& arena2[l].entries() =~= arena[l].entries() + arena[r].entries()
        &&& arena2[l].next == arena[r].next
    }

    /// Between inner nodes, the nodes at `lp` and behind it became one,
    /// with the key that stood between them in the middle: the node lost
    /// that key and the second of the two. Nothing else changed.
    pub(super) open spec fn inner_merged(a: Node, b: Node, lp: int) -> bool {
        let l = a.children@[lp];
        let r = a.children@[lp + 1];
        let m = b.children@[lp];
        &&& b.children@ =~= a.children@.remove(lp + 1).update(lp, m)
        &&& b.keys@ =~= a.keys@.remove(lp)
        &&& !m.is_leaf
        &&& m.keys@ =~= l.keys@ + seq![a.keys@[lp]] + r.keys@
        &&& m.children@ =~= l.children@ + r.children@
    }

    /// The subtrees at `lp` and behind it became one.
    pub(super) open spec fn merged_at(
        a: Node,
        arena: Seq<Leaf>,
        b: Node,
        arena2: Seq<Leaf>,
        lp: int,
    ) -> bool {
        if a.children@[lp].is_leaf {
            Node::leaves_merged(a, arena, b, arena2, lp)
        } else {
            Node::inner_merged(a, b, lp) && arena2 == arena
        }
    }

    /// Which of the three ways a short subtree at `pos` was brought back
    /// to the smallest number of keys: by its left neighbour where that
    /// can spare a key, else by its right neighbour where that can, else
    /// by becoming one with a neighbour, the left one where there is one.
    pub(super) open spec fn relieved(
        a: Node,
        arena: Seq<Leaf>,
        b: Node,
        arena2: Seq<Leaf>,
        pos: int,
    ) -> bool {
        if pos > 0 && a.children@[pos - 1].size(arena) > MIN_KEYS {
            Node::lent_from_left(a, arena, b, arena2, pos)
        } else if pos + 1 < a.children@.len() && a.children@[pos + 1].size(arena) > MIN_KEYS {
            Node::lent_from_right(a, arena, b, arena2, pos)
        } else {
            Node::merged_at(
                a,
                arena,
                b,
                arena2,
                if pos > 0 {
                    pos - 1
                } else {
                    pos
                },
            )
        }
    }

    /// The node `m` over the leaves `arena_m` is the node `a` after the
    /// deletion of `key` below its subtree at `p`, with the key before
    /// that subtree set to the smallest key that is left below it where
    /// it was `key`; and `b` is what became of `m`: `m` itself where the
    /// subtree still holds the smallest number of keys, else `m` with the
    /// subtree brought back to it.
    pub(super) open spec fn went_down(
        a: Node,
        m: Node,
        arena_m: Seq<Leaf>,
        b: Node,
        arena2: Seq<Leaf>,
        p: int,
        key: i32,
    ) -> bool {
        let c = m.children@[p];
        &&& !m.is_leaf
        &&& m.children@ == a.children@.update(p, c)
        &&& m.keys@ == if p > 0 && key == a.keys@[p - 1] && (c.size(arena_m) > 0 || !c.is_leaf) {
            a.keys@.update(p - 1, c.entries(arena_m)[0].0)
        } else {
            a.keys@
        }
        &&& if c.size(arena_m) < MIN_KEYS {
            Node::relieved(m, arena_m, b, arena2, p)
        } else {
            b.keys@ == m.keys@ && b.children@ == m.children@ && arena2 == arena_m
        }
    }

    /// What a deletion does at an inner node itself: the key is looked for
    /// below the subtree at its slot, and the node changes only in that
    /// subtree, in the key before it, and in its neighbours where the
    /// subtree fell short.
    pub(super) open spec fn stepped(
        a: Node,
        arena: Seq<Leaf>,
        b: Node,
        arena2: Seq<Leaf>,
        key: i32,
        exit: Option<usize>,
    ) -> bool {
        let p = upper_slot(a.keys@, key);
        !a.is_leaf ==> exists|m: Node, arena_m: Seq<Leaf>| #[trigger]
            Node::deleted(
                a.children@[p],
                arena,
                m.children@[p],
                arena_m,
                key,
                head_or(after(a.kid_ids(), p), exit),
            ) && Node::went_down(a, m, arena_m, b, arena2, p, key)
    }

    /// A key taken out of a leaf at the floor, below a node whose subtrees
    /// are leaves: the groups of the leaves below the node are afterwards
    /// as `taken_out` says.
    pub(super) proof fn lemma_floor_groups(
        a: Node,
        arena: Seq<Leaf>,
        m: Node,
        arena_m: Seq<Leaf>,
        b: Node,
        arena2: Seq<Leaf>,
        pos: int,
        key: i32,
        exit: Option<usize>,
    )
        requires
            a.inv(arena),
            linked(a.ids(), arena, exit),
            ascending(a.entries(arena)),
            has_key(a.entries(arena), key),
            !a.is_leaf,
            !m.is_leaf,
            !b.is_leaf,
            a.keys@.len() >= 1,
            0 <= pos <= a.keys@.len(),
            pos > 0 ==> a.keys@[pos - 1] <= key,
            pos < a.keys@.len() ==> key < a.keys@[pos],
            a.children@[pos].is_leaf,
            m.children@.len() == a.children@.len(),
            forall|i: int|
                0 <= i < a.children@.len() ==> (#[trigger] m.children@[i]).is_leaf
                    && m.children@[i].leaf == a.children@[i].leaf,
            arena_m.len() == arena.len(),
            forall|j: int|
                0 <= j < arena.len() && j != a.children@[pos].leaf ==> arena_m[j] == arena[j],
            arena_m[a.children@[pos].leaf as int].entries() == without(
                arena[a.children@[pos].leaf as int].entries(),
                key,
            ),
            arena_m[a.children@[pos].leaf as int].entries().len() < MIN_KEYS,
            Node::relieved(m, arena_m, b, arena2, pos),
        ensures
            groups(b.ids(), arena2) == taken_out(
                groups(a.ids(), arena),
                key,
                0,
                a.children@.len() as int,
            ),
    {
        let n = a.children@.len() as int;
        let c = a.children@[pos].leaf as int;
        let g = groups(a.ids(), arena);
        let rest = without(arena[c].entries(), key);
        assert(a.children@[pos].inv(arena));
        a.children@[pos].lemma_leaf_height(arena);
        assert forall|i: int| 0 <= i < n implies (#[trigger] a.children@[i]).is_leaf by {
            assert(a.children@[i].inv(arena));
            a.children@[i].lemma_leaf_height(arena);
        }
        a.lemma_leaf_row(pos);
        m.lemma_leaf_row(pos);
        Node::lemma_groups_at(a, arena, pos, key, exit);
        a.lemma_descend(arena, pos, key);
        lemma_gather_one(a.children@[pos].leaf, arena);
        assert(home(g, key) == pos);
        assert(g[pos] == arena[c].entries());
        assert(has_key(g[pos], key));
        assert(!spare(g, key));
        assert forall|i: int, k: int| 0 <= i < n && 0 <= k < n && i != k implies a.children@[i].leaf
            != a.children@[k].leaf by {
            assert(a.ids()[i] != a.ids()[k]);
        }
        assert forall|i: int| 0 <= i < n implies a.ids()[i] < arena.len() by {
            assert(link_at(a.ids(), arena, exit, i));
        }
        assert forall|i: int| 0 <= i < n && i != pos implies arena_m[a.children@[i].leaf as int]
            == arena[a.children@[i].leaf as int] && g[i] == arena[a.children@[i].leaf as int].entries() by {
            assert(a.ids()[i] < arena.len());
        }
        let lp = if pos > 0 {
            pos - 1
        } else {
            pos
        };
        let h = groups(b.ids(), arena2);
        assert(a.ids().no_duplicates());
        if pos > 0 && m.children@[pos - 1].size(arena_m) > MIN_KEYS {
            let t = g.update(pos - 1, g[pos - 1].drop_last()).update(
                pos,
                seq![g[pos - 1].last()] + rest,
            );
            assert(b.children@ =~= m.children@);
            b.lemma_leaf_row(pos);
            assert forall|i: int| 0 <= i < n implies h[i] == t[i] by {
                let id = a.children@[i].leaf as int;
                assert(b.children@[i] == m.children@[i]);
                assert(b.ids()[i] == id);
                assert(a.ids()[i] == id && a.ids()[pos] == c);
                assert(a.ids()[pos - 1] == a.children@[pos - 1].leaf);
                assert(m.children@[pos - 1].leaf == a.children@[pos - 1].leaf);
                assert(m.children@[pos].leaf == c);
                if i != pos && i != pos - 1 {
                    assert(arena2[id] == arena_m[id]);
                }
            }
            assert(h =~= t);
        } else if pos + 1 < n && m.children@[pos + 1].size(arena_m) > MIN_KEYS {
            let t = g.update(pos, rest.push(g[pos + 1][0])).update(pos + 1, g[pos + 1].drop_first());
            assert(b.children@ =~= m.children@);
            b.lemma_leaf_row(pos);
            assert forall|i: int| 0 <= i < n implies h[i] == t[i] by {
                let id = a.children@[i].leaf as int;
                assert(b.children@[i] == m.children@[i]);
                assert(b.ids()[i] == id);
                assert(a.ids()[i] == id && a.ids()[pos] == c);
                assert(a.ids()[pos + 1] == a.children@[pos + 1].leaf);
                assert(m.children@[pos + 1].leaf == a.children@[pos + 1].leaf);
                assert(m.children@[pos].leaf == c);
                if i != pos && i != pos + 1 {
                    assert(arena2[id] == arena_m[id]);
                }
            }
            assert(h =~= t);
        } else {
            assert(b.children@ =~= m.children@.remove(lp + 1));
            assert forall|i: int| 0 <= i < b.children@.len() implies (
            #[trigger] b.children@[i]).is_leaf by {
                if i <= lp {
                    assert(b.children@[i] == m.children@[i]);
                } else {
                    assert(b.children@[i] == m.children@[i + 1]);
                }
            }
            b.lemma_leaf_row(0);
            let t = if pos > 0 {
                g.update(pos - 1, g[pos - 1] + rest).remove(pos)
            } else {
                g.update(pos, rest + g[pos + 1]).remove(pos + 1)
            };
            let lid = a.children@[lp].leaf as int;
            let rid = a.children@[lp + 1].leaf as int;
            assert(m.children@[lp].leaf == lid);
            assert(m.children@[lp + 1].leaf == rid);
            assert(a.ids()[lp] == lid && a.ids()[lp + 1] == rid);
            assert(h.len() == n - 1);
            assert forall|i: int| 0 <= i < n - 1 implies h[i] == t[i] by {
                let k = if i <= lp {
                    i
                } else {
                    i + 1
                };
                let id = a.children@[k].leaf as int;
                assert(b.children@[i] == m.children@[k]);
                assert(b.ids()[i] == id);
                assert(a.ids()[k] == id);
                if i != lp {
                    assert(k != lp && k != lp + 1);
                    assert(arena2[id] == arena_m[id]);
                }
            }
            assert(h =~= t);
        }
    }

    /// A key taken out of a leaf below a node, which was then brought back
    /// to the smallest number of records where it fell short: the groups
    /// of the leaves below the node are afterwards as `taken_out` says.
    pub(super) proof fn lemma_taken_up_leaf(
        a: Node,
        arena: Seq<Leaf>,
        m: Node,
        arena_m: Seq<Leaf>,
        b: Node,
        arena2: Seq<Leaf>,
        pos: int,
        key: i32,
        exit: Option<usize>,
    )
        requires
            a.inv(arena),
            linked(a.ids(), arena, exit),
            ascending(a.entries(arena)),
            has_key(a.entries(arena), key),
            !a.is_leaf,
            !m.is_leaf,
            !b.is_leaf,
            a.keys@.len() >= 1,
            0 <= pos <= a.keys@.len(),
            pos > 0 ==> a.keys@[pos - 1] <= key,
            pos < a.keys@.len() ==> key < a.keys@[pos],
            pos == upper_slot(a.keys@, key),
            a.children@[pos].is_leaf,
            m.children@ == a.children@.update(pos, m.children@[pos]),
            Node::deleted(
                a.children@[pos],
                arena,
                m.children@[pos],
                arena_m,
                key,
                head_or(after(a.kid_ids(), pos), exit),
            ),
            if m.children@[pos].size(arena_m) < MIN_KEYS {
                Node::relieved(m, arena_m, b, arena2, pos)
            } else {
                b.children@ == m.children@ && arena2 == arena_m
            },
        ensures
            0 <= a.family(key).0 <= home(groups(a.ids(), arena), key) < a.family(key).1
                <= a.ids().len(),
            groups(b.ids(), arena2) == taken_out(
                groups(a.ids(), arena),
                key,
                a.family(key).0,
                a.family(key).1,
            ),
    {
        let n = a.children@.len() as int;
        let c = a.children@[pos];
        let c2 = m.children@[pos];
        let g = groups(a.ids(), arena);
        let gl = groups(before(a.kid_ids(), pos), arena);
        let gx = groups(c.ids(), arena);
        let gr = groups(after(a.kid_ids(), pos), arena);
        Node::lemma_groups_at(a, arena, pos, key, exit);
        a.lemma_descend(arena, pos, key);
        let id = c.leaf as int;
        assert forall|i: int| 0 <= i < n implies (#[trigger] a.children@[i]).is_leaf by {
            assert(a.children@[i].inv(arena));
            a.children@[i].lemma_leaf_height(arena);
            c.lemma_leaf_height(arena);
        }
        a.lemma_leaf_row(pos);
        lemma_gather_one(c.leaf, arena);
        assert(gx =~= seq![arena[id].entries()]);
        assert(home(gx, key) == 0);
        assert(g[pos] == arena[id].entries());
        assert(a.family(key) == (0int, n));
        assert forall|i: int| 0 <= i < n implies (#[trigger] m.children@[i]).is_leaf
            && m.children@[i].leaf == a.children@[i].leaf by {
            if i != pos {
                assert(m.children@[i] == a.children@[i]);
            }
        }
        if c2.size(arena_m) < MIN_KEYS {
            Node::lemma_floor_groups(a, arena, m, arena_m, b, arena2, pos, key, exit);
        } else {
            assert forall|j: int| 0 <= j < g.len() && has_key(#[trigger] g[j], key) implies g[j].len()
                > MIN_KEYS by {
                if j < pos {
                    assert(g[j] == gl[j]);
                } else if j > pos {
                    assert(g[j] == gr[j - pos - 1]);
                }
            }
            assert(spare(g, key));
            b.lemma_leaf_row(pos);
            let h = groups(b.ids(), arena2);
            assert(a.ids().no_duplicates());
            assert forall|i: int| 0 <= i < n implies h[i] == pruned(g, key)[i] by {
                assert(b.children@[i] == m.children@[i]);
                assert(b.ids()[i] == a.children@[i].leaf);
                assert(a.ids()[i] == a.children@[i].leaf);
                assert(a.ids()[pos] == c.leaf);
                assert(link_at(a.ids(), arena, exit, i));
                assert(g[i] == arena[a.children@[i].leaf as int].entries());
                if i != pos {
                    assert(a.ids()[i] != a.ids()[pos]);
                    assert(arena_m[a.children@[i].leaf as int] == arena[a.children@[i].leaf as int]);
                }
                if i < pos {
                    assert(g[i] == gl[i]);
                } else if i > pos {
                    assert(g[i] == gr[i - pos - 1]);
                }
            }
            assert(h =~= pruned(g, key));
        }
    }

    /// A key taken out below an inner subtree of a node, which was then
    /// brought back to the smallest number of keys where it fell short:
    /// the groups of the leaves below the node are afterwards as
    /// `taken_out` says.
    pub(super) proof fn lemma_taken_up_inner(
        a: Node,
        arena: Seq<Leaf>,
        m: Node,
        arena_m: Seq<Leaf>,
        b: Node,
        pos: int,
        key: i32,
        exit: Option<usize>,
    )
        requires
            a.inv(arena),
            linked(a.ids(), arena, exit),
            ascending(a.entries(arena)),
            has_key(a.entries(arena), key),
            !a.is_leaf,
            !m.is_leaf,
            !b.is_leaf,
            0 <= pos <= a.keys@.len(),
            pos > 0 ==> a.keys@[pos - 1] <= key,
            pos < a.keys@.len() ==> key < a.keys@[pos],
            pos == upper_slot(a.keys@, key),
            !a.children@[pos].is_leaf,
            m.children@ == a.children@.update(pos, m.children@[pos]),
            Node::deleted(
                a.children@[pos],
                arena,
                m.children@[pos],
                arena_m,
                key,
                head_or(after(a.kid_ids(), pos), exit),
            ),
            b.ids() == m.ids(),
        ensures
            0 <= a.family(key).0 <= home(groups(a.ids(), arena), key) < a.family(key).1
                <= a.ids().len(),
            groups(b.ids(), arena_m) == taken_out(
                groups(a.ids(), arena),
                key,
                a.family(key).0,
                a.family(key).1,
            ),
    {
        let n = a.children@.len() as int;
        let c = a.children@[pos];
        let c2 = m.children@[pos];
        let l = before(a.kid_ids(), pos);
        let x = c.ids();
        let r = after(a.kid_ids(), pos);
        let gl = groups(l, arena);
        let gx = groups(x, arena);
        let gr = groups(r, arena);
        Node::lemma_groups_at(a, arena, pos, key, exit);
        let f = c.family(key);
        assert(a.family(key) == (l.len() + f.0, l.len() + f.1));
        lemma_taken_out_concat(gl, gx, gr, key, f.0, f.1);
        let x2 = c2.ids();
        m.lemma_node_at(arena_m, pos);
        assert forall|i: int| 0 <= i < n && i != pos implies m.kid_ids()[i] == a.kid_ids()[i] by {
            assert(m.children@[i] == a.children@[i]);
        }
        lemma_before_frame(a.kid_ids(), m.kid_ids(), pos);
        lemma_after_frame(a.kid_ids(), pos, m.kid_ids(), pos);
        lemma_replace_ids(l, x, x2, r, arena, arena_m, exit);
        assert(groups(l, arena_m) =~= gl);
        assert(groups(r, arena_m) =~= gr);
        assert(b.ids() == l + x2 + r);
        assert(groups(b.ids(), arena_m) =~= gl + groups(x2, arena_m) + gr);
    }

    /// What moving entries between the subtrees of a node leaves behind:
    /// the same entries in the same order, in leaves that changed as
    /// `grown` says, below a node that is in order.
    pub(super) open spec fn rebalanced(
        a: Node,
        arena: Seq<Leaf>,
        b: Node,
        arena2: Seq<Leaf>,
        exit: Option<usize>,
    ) -> bool {
        &&& grown(a.ids(), arena, b.ids(), arena2, exit)
        &&& b.inv(arena2)
        &&& !b.is_leaf
        &&& b.height() == a.height()
        &&& b.entries(arena2) == a.entries(arena)
    }
}

impl BPlusTree {
    /// The number of records of a leaf, of keys of an inner node.
    pub(super) fn node_size(node: &Node, arena: &Vec<Leaf>) -> (n: usize)
        requires
            node.inv(arena@),
        ensures
            n == node.size(arena@),
    {
        if node.is_leaf {
            arena[node.leaf].records.len()
        } else {
            node.keys.len()
        }
    }

    /// The smallest key below `node`.
    pub(super) fn first_key(node: &Node, arena: &Vec<Leaf>) -> (key: i32)
        requires
            node.inv(arena@),
            !node.is_leaf || node.size(arena@) >= 1,
        ensures
            node.entries(arena@).len() > 0,
            key == node.entries(arena@)[0].0,
    {
        let mut current: &Node = node;
        proof {
            node.lemma_entries_nonempty(arena@);
        }
        while !current.is_leaf
            invariant
                current.inv(arena@),
                !current.is_leaf || current.size(arena@) >= 1,
                node.entries(arena@).len() > 0,
                current.entries(arena@).len() > 0,
                current.entries(arena@)[0] == node.entries(arena@)[0],
            decreases current.height(),
        {
            proof {
                current.lemma_entries_nonempty(arena@);
                assert(current.children@[0].inv(arena@));
                assert(current.kid_full(arena@, 0));
                current.children@[0].lemma_entries_nonempty(arena@);
            }
            current = &current.children[0];
        }
        proof {
            lemma_gather_one(current.leaf, arena@);
        }
        arena[current.leaf].records[0].key
    }

    /// Takes the last key and the last subtree of an inner node.
    pub(super) fn take_last(node: &mut Node, Ghost(arena): Ghost<Seq<Leaf>>) -> (res: (i32, Node))
        requires
            old(node).inv(arena),
            !old(node).is_leaf,
            old(node).keys@.len() >= 1,
        ensures
            final(node).inv(arena),
            !final(node).is_leaf,
            final(node).height() == old(node).height(),
            final(node).keys@.len() + 1 == old(node).keys@.len(),
            final(node).ids() + res.1.ids() == old(node).ids(),
            res.1.inv(arena),
            res.1.size(arena) >= MIN_KEYS,
            res.1.height() + 1 == old(node).height(),
            res.1.entries(arena).len() > 0,
            res.0 == res.1.entries(arena)[0].0,
            final(node).entries(arena).len() > 0,
            final(node).entries(arena)[0] == old(node).entries(arena)[0],
            final(node).keys@ == old(node).keys@.drop_last(),
            final(node).children@ == old(node).children@.drop_last(),
            res.0 == old(node).keys@.last(),
            res.1 == old(node).children@.last(),
    {
        let ghost a = *node;
        let key: i32 = node.keys.pop().unwrap();
        let child = node.children.pop().unwrap();
        proof {
            let n = a.keys@.len() as int;
            assert(a.children@[n].inv(arena));
            assert(a.kid_full(arena, n));
            assert(a.kid_sep(arena, n));
            assert(a.children@[0].inv(arena));
            a.lemma_ids_last(child);
            assert(node.kid_ids() =~= a.kid_ids().drop_last());
            assert forall|i: int| 0 <= i < node.children@.len() implies {
                &&& (#[trigger] node.children@[i]).inv(arena)
                &&& node.children@[i].height() == node.children@[0].height()
                &&& node.kid_full(arena, i)
                &&& node.kid_sep(arena, i)
            } by {
                assert(node.children@[i] == a.children@[i]);
                assert(node.children@[0] == a.children@[0]);
                assert(a.kid_full(arena, i));
                assert(a.kid_sep(arena, i));
            }
            assert(node.children@[0] == a.children@[0]);
            a.lemma_entries_nonempty(arena);
            node.lemma_entries_nonempty(arena);
        }
        (key, child)
    }

    /// Takes the first key and the first subtree of an inner node.
    pub(super) fn take_first(node: &mut Node, Ghost(arena): Ghost<Seq<Leaf>>) -> (res: (i32, Node))
        requires
            old(node).inv(arena),
            !old(node).is_leaf,
            old(node).keys@.len() >= 1,
        ensures
            final(node).inv(arena),
            !final(node).is_leaf,
            final(node).height() == old(node).height(),
            final(node).keys@.len() + 1 == old(node).keys@.len(),
            res.1.ids() + final(node).ids() == old(node).ids(),
            res.1.inv(arena),
            res.1.size(arena) >= MIN_KEYS,
            res.1.height() + 1 == old(node).height(),
            res.1.entries(arena).len() > 0,
            res.1.entries(arena)[0] == old(node).entries(arena)[0],
            final(node).entries(arena).len() > 0,
            res.0 == final(node).entries(arena)[0].0,
            final(node).keys@ == old(node).keys@.drop_first(),
            final(node).children@ == old(node).children@.drop_first(),
            res.0 == old(node).keys@[0],
            res.1 == old(node).children@[0],
    {
        let ghost a = *node;
        let key: i32 = node.keys.remove(0);
        let child = node.children.remove(0);
        proof {
            assert(a.children@[0].inv(arena));
            assert(a.kid_full(arena, 0));
            assert(a.children@[1].inv(arena));
            assert(a.kid_sep(arena, 1));
            a.lemma_ids_first(child);
            assert(node.kid_ids() =~= a.kid_ids().drop_first());
            assert forall|i: int| 0 <= i < node.children@.len() implies {
                &&& (#[trigger] node.children@[i]).inv(arena)
                &&& node.children@[i].height() == node.children@[0].height()
                &&& node.kid_full(arena, i)
                &&& node.kid_sep(arena, i)
            } by {
                assert(node.children@[i] == a.children@[i + 1]);
                assert(node.children@[0] == a.children@[1]);
                assert(a.kid_full(arena, i + 1));
                assert(a.kid_sep(arena, i + 1));
            }
            assert(node.children@[0] == a.children@[1]);
            a.lemma_entries_nonempty(arena);
            a.children@[0].lemma_entries_nonempty(arena);
            node.lemma_entries_nonempty(arena);
        }
        (key, child)
    }

    /// Puts a subtree before the subtrees of an inner node, with the key
    /// between it and the subtree that was the first.
    pub(super) fn push_front(node: &mut Node, key: i32, child: Node, Ghost(arena): Ghost<Seq<Leaf>>)
        requires
            old(node).inv(arena),
            !old(node).is_leaf,
            old(node).keys@.len() < MAX_KEYS,
            child.inv(arena),
            child.size(arena) >= MIN_KEYS,
            child.height() + 1 == old(node).height(),
            old(node).entries(arena).len() > 0,
            key == old(node).entries(arena)[0].0,
        ensures
            final(node).inv(arena),
            !final(node).is_leaf,
            final(node).height() == old(node).height(),
            final(node).keys@.len() == old(node).keys@.len() + 1,
            final(node).ids() == child.ids() + old(node).ids(),
            final(node).keys@ == seq![key] + old(node).keys@,
            final(node).children@ == seq![child] + old(node).children@,
    {
        let ghost a = *node;
        let ghost c = child;
        node.keys.insert(0, key);
        node.children.insert(0, child);
        proof {
            assert(a.children@[0].inv(arena));
            assert(a.kid_full(arena, 0));
            a.lemma_entries_nonempty(arena);
            a.children@[0].lemma_entries_nonempty(arena);
            node.lemma_ids_first(c);
            assert(node.kid_ids().drop_first() =~= a.kid_ids());
            assert forall|i: int| 0 <= i < node.children@.len() implies {
                &&& (#[trigger] node.children@[i]).inv(arena)
                &&& node.children@[i].height() == node.children@[0].height()
                &&& node.kid_full(arena, i)
                &&& node.kid_sep(arena, i)
            } by {
                if i > 0 {
                    assert(node.children@[i] == a.children@[i - 1]);
                    assert(a.kid_full(arena, i - 1));
                    assert(a.kid_sep(arena, i - 1));
                }
            }
        }
    }

    /// Puts a subtree behind the subtrees of an inner node, with the key
    /// between the subtree that was the last and it.
    pub(super) fn push_back(node: &mut Node, key: i32, child: Node, Ghost(arena): Ghost<Seq<Leaf>>)
        requires
            old(node).inv(arena),
            !old(node).is_leaf,
            old(node).keys@.len() < MAX_KEYS,
            child.inv(arena),
            child.size(arena) >= MIN_KEYS,
            child.height() + 1 == old(node).height(),
            child.entries(arena).len() > 0,
            key == child.entries(arena)[0].0,
        ensures
            final(node).inv(arena),
            !final(node).is_leaf,
            final(node).height() == old(node).height(),
            final(node).keys@.len() == old(node).keys@.len() + 1,
            final(node).ids() == old(node).ids() + child.ids(),
            final(node).entries(arena).len() > 0,
            final(node).entries(arena)[0] == old(node).entries(arena)[0],
            final(node).keys@ == old(node).keys@.push(key),
            final(node).children@ == old(node).children@.push(child),
    {
        let ghost a = *node;
        let ghost c = child;
        node.keys.push(key);
        node.children.push(child);
        proof {
            assert(a.children@[0].inv(arena));
            node.lemma_ids_last(c);
            assert(node.kid_ids().drop_last() =~= a.kid_ids());
            assert forall|i: int| 0 <= i < node.children@.len() implies {
                &&& (#[trigger] node.children@[i]).inv(arena)
                &&& node.children@[i].height() == node.children@[0].height()
                &&& node.kid_full(arena, i)
                &&& node.kid_sep(arena, i)
            } by {
                assert(node.children@[0] == a.children@[0]);
                if i < a.children@.len() {
                    assert(node.children@[i] == a.children@[i]);
                    assert(a.kid_full(arena, i));
                    assert(a.kid_sep(arena, i));
                }
            }
            assert(node.children@[0] == a.children@[0]);
            a.lemma_entries_nonempty(arena);
            node.lemma_entries_nonempty(arena);
        }
    }

    /// Puts all that the inner node `right` holds behind what the inner node
    /// `left` holds, with a key between the two.
    pub(super) fn absorb(left: &mut Node, key: i32, right: Node, Ghost(arena): Ghost<Seq<Leaf>>)
        requires
            old(left).inv(arena),
            right.inv(arena),
            !old(left).is_leaf,
            !right.is_leaf,
            right.height() == old(left).height(),
            old(left).keys@.len() + right.keys@.len() + 1 <= MAX_KEYS,
            right.entries(arena).len() > 0,
            key == right.entries(arena)[0].0,
        ensures
            final(left).inv(arena),
            !final(left).is_leaf,
            final(left).height() == old(left).height(),
            final(left).keys@.len() == old(left).keys@.len() + right.keys@.len() + 1,
            final(left).ids() == old(left).ids() + right.ids(),
            final(left).entries(arena).len() > 0,
            final(left).entries(arena)[0] == old(left).entries(arena)[0],
            final(left).keys@ == old(left).keys@ + seq![key] + right.keys@,
            final(left).children@ == old(left).children@ + right.children@,
    {
        let ghost a = *left;
        let ghost r = right;
        let mut right = right;
        left.keys.push(key);
        left.keys.append(&mut right.keys);
        left.children.append(&mut right.children);
        proof {
            let nl = a.children@.len() as int;
            assert(a.children@[0].inv(arena));
            assert(r.children@[0].inv(arena));
            assert(r.kid_full(arena, 0));
            r.lemma_entries_nonempty(arena);
            r.children@[0].lemma_entries_nonempty(arena);
            assert(left.kid_ids() =~= a.kid_ids() + r.kid_ids()) by {
                assert forall|i: int| 0 <= i < a.children@.len() implies left.kid_ids()[i]
                    == a.kid_ids()[i] by {
                    assert(left.children@[i] == a.children@[i]);
                }
                assert forall|i: int| 0 <= i < r.children@.len() implies left.kid_ids()[nl + i]
                    == r.kid_ids()[i] by {
                    assert(left.children@[nl + i] == r.children@[i]);
                }
            }
            lemma_flatten_concat(a.kid_ids(), r.kid_ids());
            assert forall|i: int| 0 <= i < left.children@.len() implies {
                &&& (#[trigger] left.children@[i]).inv(arena)
                &&& left.children@[i].height() == left.children@[0].height()
                &&& left.kid_full(arena, i)
                &&& left.kid_sep(arena, i)
            } by {
                assert(left.children@[0] == a.children@[0]);
                if i < nl {
                    assert(left.children@[i] == a.children@[i]);
                    assert(a.kid_full(arena, i));
                    assert(a.kid_sep(arena, i));
                } else {
                    assert(left.children@[i] == r.children@[i - nl]);
                    assert(r.kid_full(arena, i - nl));
                    assert(r.kid_sep(arena, i - nl));
                    if i == nl {
                        assert(left.keys@[nl - 1] == key);
                    } else {
                        assert(left.keys@[i - 1] == r.keys@[i - nl - 1]);
                    }
                }
            }
            assert(left.children@[0] == a.children@[0]);
            a.lemma_entries_nonempty(arena);
            left.lemma_entries_nonempty(arena);
        }
    }

    #[verifier::rlimit(60)]
    pub(super) fn delete_rec(
        node: &mut Node,
        arena: &mut Vec<Leaf>,
        key: i32,
        Ghost(exit): Ghost<Option<usize>>,
    ) -> (res: bool)
        requires
            old(node).inv(old(arena)@),
            linked(old(node).ids(), old(arena)@, exit),
            ascending(old(node).entries(old(arena)@)),
            has_key(old(node).entries(old(arena)@), key),
            old(node).is_leaf || old(node).keys@.len() >= 1,
        ensures
            Node::deleted(*old(node), old(arena)@, *final(node), final(arena)@, key, exit),
            Node::stepped(*old(node), old(arena)@, *final(node), final(arena)@, key, exit),
            res,
        decreases old(node).height(),
    {
        let ghost a = *node;
        let ghost arena1 = arena@;
        if node.is_leaf {
            let id: usize = node.leaf;
            let ghost before = arena@[id as int].entries();
            proof {
                lemma_gather_one(id, arena1);
                assert(link_at(a.ids(), arena1, exit, 0));
            }
            let pos: usize = lower_pos(&arena[id].records, key);
            proof {
                let j = index_of(before, key);
                assert(before[j].0 == key);
                if pos < j {
                    assert(before[pos as int].0 < before[j].0);
                }
            }
            if pos < arena[id].records.len() && arena[id].records[pos].key == key {
                arena[id].records.remove(pos);
                proof {
                    assert(arena@[id as int].entries() =~= before.remove(pos as int));
                    lemma_remove_at(before, pos as int);
                    lemma_gather_one(id, arena@);
                    assert(link_at(a.ids(), arena@, exit, 0));
                    assert(a.ids().contains(id));
                    lemma_map_at(before, pos as int);
                    let at = index_of(before, key);
                    if at < pos {
                        assert(before[at].0 < before[pos as int].0);
                    } else if pos < at {
                        assert(before[pos as int].0 < before[at].0);
                    }
                    assert(groups(a.ids(), arena1)[0] == before);
                    assert(groups(node.ids(), arena@) =~= pruned(groups(a.ids(), arena1), key));
                    assert(groups(a.ids(), arena1) =~= seq![before]);
                    assert(groups(node.ids(), arena@) =~= seq![before].update(0, without(before, key)));
                }
                true
            } else {
                false
            }
        } else {
            let pos: usize = upper_pos(&node.keys, key);
            let ghost exit_c = head_or(after(a.kid_ids(), pos as int), exit);
            proof {
                a.lemma_descend(arena1, pos as int, key);
                a.lemma_kid_linked(arena1, pos as int, exit);
                assert(a.kid_full(arena1, pos as int));
            }
            let res = Self::delete_rec(&mut node.children[pos], arena, key, Ghost(exit_c));
            let ghost b = *node;
            let ghost arena2 = arena@;
            proof {
                assert(node.children@ =~= a.children@.update(pos as int, node.children@[pos as int]));
                Node::lemma_delete_up(a, arena1, b, arena2, pos as int, key, exit);
                assert(b.children@[pos as int].inv(arena2));
            }
            let child_size: usize = Self::node_size(&node.children[pos], arena);
            if pos > 0 && key == node.keys[pos - 1] && (child_size > 0
                || !node.children[pos].is_leaf) {
                let k: i32 = Self::first_key(&node.children[pos], arena);
                node.keys[pos - 1] = k;
            }
            let ghost mid = *node;
            proof {
                assert(mid.kid_ids() =~= b.kid_ids());
                assert(mid.ids() == b.ids());
                if mid.children@[pos as int].entries(arena2).len() > 0 && pos > 0 {
                    if mid.children@[pos as int].is_leaf {
                        lemma_gather_one(mid.children@[pos as int].leaf, arena2);
                    }
                    assert(mid.kid_sep(arena2, pos as int));
                }
                assert forall|i: int| 0 <= i < mid.children@.len() implies {
                    &&& (#[trigger] mid.children@[i]).inv(arena2)
                    &&& mid.children@[i].height() == mid.children@[0].height()
                    &&& !(pos <= i <= pos) ==> mid.kid_full(arena2, i) && mid.kid_sep(arena2, i)
                } by {
                    assert(b.children@[i].inv(arena2));
                    if i != pos {
                        assert(b.kid_full(arena2, i));
                        assert(b.kid_sep(arena2, i));
                    }
                }
                assert(mid.short_at(arena2, pos as int));
            }
            if child_size < MIN_KEYS {
                assert(!spare(groups(a.ids(), arena1), key));
                Self::ensure_child_has_min_keys(node, arena, pos, Ghost(exit));
                proof {
                    lemma_grown_twice(a.ids(), arena1, mid.ids(), arena2, node.ids(), arena@, exit);
                    if a.children@[pos as int].is_leaf {
                        Node::lemma_taken_up_leaf(
                            a,
                            arena1,
                            mid,
                            arena2,
                            *node,
                            arena@,
                            pos as int,
                            key,
                            exit,
                        );
                    } else {
                        Node::lemma_taken_up_inner(a, arena1, mid, arena2, *node, pos as int, key, exit);
                    }
                }
            } else {
                proof {
                    if a.children@[pos as int].is_leaf {
                        Node::lemma_taken_up_leaf(
                            a,
                            arena1,
                            mid,
                            arena2,
                            mid,
                            arena2,
                            pos as int,
                            key,
                            exit,
                        );
                    } else {
                        Node::lemma_taken_up_inner(a, arena1, mid, arena2, mid, pos as int, key, exit);
                    }
                }
                proof {
                    mid.children@[pos as int].lemma_entries_nonempty(arena2);
                    assert forall|i: int| 0 <= i < mid.children@.len() implies {
                        &&& (#[trigger] mid.children@[i]).inv(arena2)
                        &&& mid.children@[i].height() == mid.children@[0].height()
                        &&& mid.kid_full(arena2, i)
                        &&& mid.kid_sep(arena2, i)
                    } by {}
                }
            }
            proof {
                assert(Node::deleted(
                    a.children@[pos as int],
                    arena1,
                    mid.children@[pos as int],
                    arena2,
                    key,
                    exit_c,
                ));
                assert(Node::went_down(a, mid, arena2, *node, arena@, pos as int, key));
            }
            res
        }
    }

    /// Brings the subtree at `child_pos`, which is one key short, back to
    /// the smallest number of keys: a key comes over from the left
    /// neighbour if it can spare one, else from the right neighbour if that
    /// can; else the subtree becomes one with a neighbour, the left one
    /// where there is one. Which of the three it was, and what moved, is
    /// fixed by the sizes of the neighbours alone.
    pub(super) fn ensure_child_has_min_keys(
        node: &mut Node,
        arena: &mut Vec<Leaf>,
        child_pos: usize,
        Ghost(exit): Ghost<Option<usize>>,
    )
        requires
            old(node).short_at(old(arena)@, child_pos as int),
            linked(old(node).ids(), old(arena)@, exit),
            old(node).keys@.len() >= 1,
            old(node).children@[child_pos as int].size(old(arena)@) + 1 == MIN_KEYS,
        ensures
            Node::rebalanced(*old(node), old(arena)@, *final(node), final(arena)@, exit),
            Node::relieved(
                *old(node),
                old(arena)@,
                *final(node),
                final(arena)@,
                child_pos as int,
            ),
            final(node).keys@.len() + 1 >= old(node).keys@.len(),
            !old(node).children@[child_pos as int].is_leaf ==> final(node).ids() == old(node).ids(),
            !old(node).children@[child_pos as int].is_leaf ==> final(arena)@ == old(arena)@,
    {
        proof {
            assert(old(node).children@[child_pos as int].inv(old(arena)@));
        }
        if child_pos > 0 {
            proof {
                assert(node.children@[child_pos - 1].inv(arena@));
            }
            let left_has_extra = Self::node_size(&node.children[child_pos - 1], arena) > MIN_KEYS;
            if left_has_extra {
                Self::borrow_from_left(node, arena, child_pos, Ghost(exit));
                return ;
            }
        }
        if child_pos < node.children.len() - 1 {
            proof {
                assert(node.children@[child_pos + 1].inv(arena@));
            }
            let right_has_extra = Self::node_size(&node.children[child_pos + 1], arena) > MIN_KEYS;
            if right_has_extra {
                Self::borrow_from_right(node, arena, child_pos, Ghost(exit));
                return ;
            }
        }
        let left_pos: usize = if child_pos > 0 {
            child_pos - 1
        } else {
            child_pos
        };
        proof {
            assert(node.children@[left_pos as int].inv(arena@));
            assert(node.children@[left_pos + 1].inv(arena@));
            node.children@[left_pos as int].lemma_leaf_height(arena@);
            node.children@[left_pos + 1].lemma_leaf_height(arena@);
            if child_pos > 0 {
                assert(node.kid_full(arena@, child_pos - 1));
            } else {
                assert(node.kid_full(arena@, child_pos + 1));
            }
        }
        Self::merge_children(node, arena, left_pos, Ghost(child_pos as int), Ghost(exit));
    }

    /// Moves the last entry below the left neighbour of the subtree at
    /// `child_pos` to the front of that subtree, and sets the key between
    /// the two to the smallest key that now lies below the subtree. Between
    /// leaves it is a record that moves; between inner nodes it is the last
    /// subtree of the neighbour, and the key between the two moves down.
    pub(super) fn borrow_from_left(
        node: &mut Node,
        arena: &mut Vec<Leaf>,
        child_pos: usize,
        Ghost(exit): Ghost<Option<usize>>,
    )
        requires
            old(node).short_at(old(arena)@, child_pos as int),
            linked(old(node).ids(), old(arena)@, exit),
            0 < child_pos,
            old(node).children@[child_pos - 1].size(old(arena)@) > MIN_KEYS,
            old(node).children@[child_pos as int].size(old(arena)@) + 1 == MIN_KEYS,
        ensures
            Node::rebalanced(*old(node), old(arena)@, *final(node), final(arena)@, exit),
            Node::lent_from_left(
                *old(node),
                old(arena)@,
                *final(node),
                final(arena)@,
                child_pos as int,
            ),
            final(node).keys@.len() == old(node).keys@.len(),
            !old(node).children@[child_pos as int].is_leaf ==> final(node).ids() == old(node).ids(),
    {
        if node.children[child_pos].is_leaf {
            Self::borrow_record_from_left(node, arena, child_pos, Ghost(exit));
        } else {
            Self::borrow_subtree_from_left(node, arena, child_pos, Ghost(exit));
        }
    }

    /// Between leaves: moves the last record of the left neighbour to the
    /// front of the leaf at `child_pos`.
    #[verifier::rlimit(40)]
    pub(super) fn borrow_record_from_left(
        node: &mut Node,
        arena: &mut Vec<Leaf>,
        child_pos: usize,
        Ghost(exit): Ghost<Option<usize>>,
    )
        requires
            old(node).children@[child_pos as int].is_leaf,
            old(node).short_at(old(arena)@, child_pos as int),
            linked(old(node).ids(), old(arena)@, exit),
            0 < child_pos,
            old(node).children@[child_pos - 1].size(old(arena)@) > MIN_KEYS,
            old(node).children@[child_pos as int].size(old(arena)@) + 1 == MIN_KEYS,
        ensures
            Node::rebalanced(*old(node), old(arena)@, *final(node), final(arena)@, exit),
            Node::record_from_left(
                *old(node),
                old(arena)@,
                *final(node),
                final(arena)@,
                child_pos as int,
            ),
            final(node).keys@.len() == old(node).keys@.len(),
    {
        let ghost a = *node;
        let ghost arena1 = arena@;
        let c: usize = child_pos - 1;
        let ghost exit_w = head_or(after(a.kid_ids(), child_pos as int), exit);
        let ghost x = a.children@[c as int].ids() + a.children@[child_pos as int].ids();
        proof {
            a.lemma_window_linked(arena1, c as int, exit);
            assert(a.children@[c as int].inv(arena1));
            assert(a.children@[child_pos as int].inv(arena1));
            assert(a.children@[0].inv(arena1));
            a.children@[c as int].lemma_leaf_height(arena1);
            a.children@[child_pos as int].lemma_leaf_height(arena1);
            assert(a.kid_sep(arena1, c as int));
        }
        let left_id: usize = node.children[c].leaf;
        let child_id: usize = node.children[child_pos].leaf;
        proof {
            assert(x =~= seq![left_id, child_id]);
            assert(x[0] != x[1]);
            assert(link_at(x, arena1, exit_w, 0));
            assert(link_at(x, arena1, exit_w, 1));
            lemma_gather_one(left_id, arena1);
            lemma_gather_one(child_id, arena1);
            lemma_gather_concat(seq![left_id], seq![child_id], arena1);
        }
        let rec = arena[left_id].records.pop().unwrap();
        let up_key: i32 = rec.key;
        arena[child_id].records.insert(0, rec);
        node.keys[c] = up_key;
        proof {
            let b = *node;
            let arena2 = arena@;
            lemma_gather_one(left_id, arena2);
            lemma_gather_one(child_id, arena2);
            lemma_gather_concat(seq![left_id], seq![child_id], arena2);
            assert(seq![left_id] + seq![child_id] =~= x);
            assert(arena2[left_id as int].entries() + arena2[child_id as int].entries()
                =~= arena1[left_id as int].entries() + arena1[child_id as int].entries());
            lemma_linked_frame(x, arena1, arena2, exit_w);
            assert forall|id: usize| id < arena1.len() && !x.contains(id) implies arena2[id as int]
                == arena1[id as int] by {
                assert(x[0] == left_id && x[1] == child_id);
            }
            assert forall|j: int| 0 <= j < x.len() implies x.contains(#[trigger] x[j]) by {}
            Node::lemma_window_replaced(a, arena1, b, arena2, c as int, 0, x, exit);
            assert(arena2[left_id as int].entries()[0] == arena1[left_id as int].entries()[0]);
            assert forall|i: int| 0 <= i < b.children@.len() implies {
                &&& (#[trigger] b.children@[i]).inv(arena2)
                &&& b.children@[i].height() == b.children@[0].height()
                &&& b.kid_full(arena2, i)
                &&& b.kid_sep(arena2, i)
            } by {}
        }
    }

    /// Between inner nodes: moves the last subtree of the left neighbour to
    /// the front of the node at `child_pos`; the key between the two moves
    /// down, and the last key of the neighbour moves up.
    #[verifier::rlimit(40)]
    pub(super) fn borrow_subtree_from_left(
        node: &mut Node,
        arena: &mut Vec<Leaf>,
        child_pos: usize,
        Ghost(exit): Ghost<Option<usize>>,
    )
        requires
            !old(node).children@[child_pos as int].is_leaf,
            old(node).short_at(old(arena)@, child_pos as int),
            linked(old(node).ids(), old(arena)@, exit),
            0 < child_pos,
            old(node).children@[child_pos - 1].size(old(arena)@) > MIN_KEYS,
            old(node).children@[child_pos as int].size(old(arena)@) + 1 == MIN_KEYS,
        ensures
            Node::rebalanced(*old(node), old(arena)@, *final(node), final(arena)@, exit),
            Node::subtree_from_left(*old(node), *final(node), child_pos as int),
            final(arena)@ == old(arena)@,
            final(node).ids() == old(node).ids(),
            final(node).keys@.len() == old(node).keys@.len(),
    {
        let ghost a = *node;
        let ghost arena1 = arena@;
        let c: usize = child_pos - 1;
        let ghost exit_w = head_or(after(a.kid_ids(), child_pos as int), exit);
        let ghost x = a.children@[c as int].ids() + a.children@[child_pos as int].ids();
        proof {
            a.lemma_window_linked(arena1, c as int, exit);
            assert(a.children@[c as int].inv(arena1));
            assert(a.children@[child_pos as int].inv(arena1));
            assert(a.children@[0].inv(arena1));
            a.children@[c as int].lemma_leaf_height(arena1);
            a.children@[child_pos as int].lemma_leaf_height(arena1);
            assert(a.kid_sep(arena1, c as int));
        }
        let sep: i32 = node.keys[c];
        proof {
            a.children@[child_pos as int].lemma_entries_nonempty(arena1);
            assert(a.kid_sep(arena1, child_pos as int));
        }
        let (up_key, moved) = Self::take_last(&mut node.children[c], Ghost(arena@));
        Self::push_front(&mut node.children[child_pos], sep, moved, Ghost(arena@));
        node.keys[c] = up_key;
        proof {
            let b = *node;
            let x2 = b.children@[c as int].ids() + b.children@[child_pos as int].ids();
            assert(x2 =~= x);
            assert forall|j: int| 0 <= j < x.len() implies x.contains(#[trigger] x[j]) by {}
            b.children@[c as int].lemma_ids_nonempty(arena1);
            Node::lemma_window_replaced(a, arena1, b, arena1, c as int, 0, x, exit);
            lemma_gather_concat(
                b.children@[c as int].ids(),
                b.children@[child_pos as int].ids(),
                arena1,
            );
            b.children@[child_pos as int].lemma_entries_nonempty(arena1);
            lemma_gather_concat(moved.ids(), a.children@[child_pos as int].ids(), arena1);
            assert forall|i: int| 0 <= i < b.children@.len() implies {
                &&& (#[trigger] b.children@[i]).inv(arena1)
                &&& b.children@[i].height() == b.children@[0].height()
                &&& b.kid_full(arena1, i)
                &&& b.kid_sep(arena1, i)
            } by {}
        }
    }

    /// Moves the first entry below the right neighbour of the subtree at
    /// `child_pos` to the end of that subtree, and sets the keys around the
    /// subtree to the smallest keys that now lie below it and below the
    /// neighbour. Between leaves it is a record that moves; between inner
    /// nodes it is the first subtree of the neighbour, and the key between
    /// the two moves down.
    pub(super) fn borrow_from_right(
        node: &mut Node,
        arena: &mut Vec<Leaf>,
        child_pos: usize,
        Ghost(exit): Ghost<Option<usize>>,
    )
        requires
            old(node).short_at(old(arena)@, child_pos as int),
            linked(old(node).ids(), old(arena)@, exit),
            child_pos + 1 < old(node).children@.len(),
            old(node).children@[child_pos + 1].size(old(arena)@) > MIN_KEYS,
            old(node).children@[child_pos as int].size(old(arena)@) + 1 == MIN_KEYS,
        ensures
            Node::rebalanced(*old(node), old(arena)@, *final(node), final(arena)@, exit),
            Node::lent_from_right(
                *old(node),
                old(arena)@,
                *final(node),
                final(arena)@,
                child_pos as int,
            ),
            final(node).keys@.len() == old(node).keys@.len(),
            !old(node).children@[child_pos as int].is_leaf ==> final(node).ids() == old(node).ids(),
    {
        if node.children[child_pos].is_leaf {
            Self::borrow_record_from_right(node, arena, child_pos, Ghost(exit));
        } else {
            Self::borrow_subtree_from_right(node, arena, child_pos, Ghost(exit));
        }
    }

    /// Between leaves: moves the first record of the right neighbour to the
    /// end of the leaf at `child_pos`.
    #[verifier::rlimit(40)]
    pub(super) fn borrow_record_from_right(
        node: &mut Node,
        arena: &mut Vec<Leaf>,
        child_pos: usize,
        Ghost(exit): Ghost<Option<usize>>,
    )
        requires
            old(node).children@[child_pos as int].is_leaf,
            old(node).short_at(old(arena)@, child_pos as int),
            linked(old(node).ids(), old(arena)@, exit),
            child_pos + 1 < old(node).children@.len(),
            old(node).children@[child_pos + 1].size(old(arena)@) > MIN_KEYS,
            old(node).children@[child_pos as int].size(old(arena)@) + 1 == MIN_KEYS,
        ensures
            Node::rebalanced(*old(node), old(arena)@, *final(node), final(arena)@, exit),
            Node::record_from_right(
                *old(node),
                old(arena)@,
                *final(node),
                final(arena)@,
                child_pos as int,
            ),
            final(node).keys@.len() == old(node).keys@.len(),
    {
        let ghost a = *node;
        let ghost arena1 = arena@;
        let c: usize = child_pos;
        let ghost exit_w = head_or(after(a.kid_ids(), c + 1), exit);
        let ghost x = a.children@[c as int].ids() + a.children@[c + 1].ids();
        proof {
            a.lemma_window_linked(arena1, c as int, exit);
            assert(a.children@[c as int].inv(arena1));
            assert(a.children@[c + 1].inv(arena1));
            assert(a.children@[0].inv(arena1));
            a.children@[c as int].lemma_leaf_height(arena1);
            a.children@[c + 1].lemma_leaf_height(arena1);
            assert(a.kid_sep(arena1, c + 1));
        }
        let child_id: usize = node.children[c].leaf;
        let right_id: usize = node.children[c + 1].leaf;
        proof {
            assert(x =~= seq![child_id, right_id]);
            assert(x[0] != x[1]);
            assert(link_at(x, arena1, exit_w, 0));
            assert(link_at(x, arena1, exit_w, 1));
            lemma_gather_one(child_id, arena1);
            lemma_gather_one(right_id, arena1);
            lemma_gather_concat(seq![child_id], seq![right_id], arena1);
        }
        let rec = arena[right_id].records.remove(0);
        arena[child_id].records.push(rec);
        node.keys[c] = arena[right_id].records[0].key;
        if c > 0 {
            node.keys[c - 1] = arena[child_id].records[0].key;
        }
        proof {
            let b = *node;
            let arena2 = arena@;
            lemma_gather_one(child_id, arena2);
            lemma_gather_one(right_id, arena2);
            lemma_gather_concat(seq![child_id], seq![right_id], arena2);
            assert(seq![child_id] + seq![right_id] =~= x);
            assert(arena2[child_id as int].entries() + arena2[right_id as int].entries()
                =~= arena1[child_id as int].entries() + arena1[right_id as int].entries());
            lemma_linked_frame(x, arena1, arena2, exit_w);
            assert forall|id: usize| id < arena1.len() && !x.contains(id) implies arena2[id as int]
                == arena1[id as int] by {
                assert(x[0] == child_id && x[1] == right_id);
            }
            assert forall|j: int| 0 <= j < x.len() implies x.contains(#[trigger] x[j]) by {}
            Node::lemma_window_replaced(a, arena1, b, arena2, c as int, 0, x, exit);
            assert forall|i: int| 0 <= i < b.children@.len() implies {
                &&& (#[trigger] b.children@[i]).inv(arena2)
                &&& b.children@[i].height() == b.children@[0].height()
                &&& b.kid_full(arena2, i)
                &&& b.kid_sep(arena2, i)
            } by {}
        }
    }

    /// Between inner nodes: moves the first subtree of the right neighbour
    /// to the end of the node at `child_pos`; the key between the two moves
    /// down, and the first key of the neighbour moves up.
    #[verifier::rlimit(40)]
    pub(super) fn borrow_subtree_from_right(
        node: &mut Node,
        arena: &mut Vec<Leaf>,
        child_pos: usize,
        Ghost(exit): Ghost<Option<usize>>,
    )
        requires
            !old(node).children@[child_pos as int].is_leaf,
            old(node).short_at(old(arena)@, child_pos as int),
            linked(old(node).ids(), old(arena)@, exit),
            child_pos + 1 < old(node).children@.len(),
            old(node).children@[child_pos + 1].size(old(arena)@) > MIN_KEYS,
            old(node).children@[child_pos as int].size(old(arena)@) + 1 == MIN_KEYS,
        ensures
            Node::rebalanced(*old(node), old(arena)@, *final(node), final(arena)@, exit),
            Node::subtree_from_right(*old(node), *final(node), child_pos as int),
            final(arena)@ == old(arena)@,
            final(node).ids() == old(node).ids(),
            final(node).keys@.len() == old(node).keys@.len(),
    {
        let ghost a = *node;
        let ghost arena1 = arena@;
        let c: usize = child_pos;
        let ghost exit_w = head_or(after(a.kid_ids(), c + 1), exit);
        let ghost x = a.children@[c as int].ids() + a.children@[c + 1].ids();
        proof {
            a.lemma_window_linked(arena1, c as int, exit);
            assert(a.children@[c as int].inv(arena1));
            assert(a.children@[c + 1].inv(arena1));
            assert(a.children@[0].inv(arena1));
            a.children@[c as int].lemma_leaf_height(arena1);
            a.children@[c + 1].lemma_leaf_height(arena1);
            assert(a.kid_sep(arena1, c + 1));
        }
        let sep: i32 = node.keys[c];
        proof {
            a.children@[c as int].lemma_entries_nonempty(arena1);
            a.children@[c + 1].lemma_entries_nonempty(arena1);
        }
        let (up_key, moved) = Self::take_first(&mut node.children[c + 1], Ghost(arena@));
        Self::push_back(&mut node.children[c], sep, moved, Ghost(arena@));
        node.keys[c] = up_key;
        proof {
            let b = *node;
            let x2 = b.children@[c as int].ids() + b.children@[c + 1].ids();
            assert(x2 =~= x);
            assert forall|j: int| 0 <= j < x.len() implies x.contains(#[trigger] x[j]) by {}
            a.children@[c as int].lemma_ids_nonempty(arena1);
            Node::lemma_window_replaced(a, arena1, b, arena1, c as int, 0, x, exit);
            assert forall|i: int| 0 <= i < b.children@.len() implies {
                &&& (#[trigger] b.children@[i]).inv(arena1)
                &&& b.children@[i].height() == b.children@[0].height()
                &&& b.kid_full(arena1, i)
                &&& b.kid_sep(arena1, i)
            } by {}
        }
    }

    /// Makes one subtree of the subtrees at `left_pos` and behind it.
    /// Between leaves the records of the second go behind the records of
    /// the first, which takes over the next leaf of the second; between
    /// inner nodes the key between the two goes into the middle. The key
    /// between the two leaves the node.
    pub(super) fn merge_children(
        node: &mut Node,
        arena: &mut Vec<Leaf>,
        left_pos: usize,
        Ghost(pos): Ghost<int>,
        Ghost(exit): Ghost<Option<usize>>,
    )
        requires
            old(node).short_at(old(arena)@, pos),
            linked(old(node).ids(), old(arena)@, exit),
            left_pos + 1 < old(node).children@.len(),
            pos == left_pos + 1 || (pos == left_pos && left_pos == 0),
            old(node).children@[left_pos as int].size(old(arena)@) + old(node).children@[left_pos
                + 1].size(old(arena)@) + 1 <= MAX_KEYS,
            old(node).children@[left_pos as int].size(old(arena)@) + old(node).children@[left_pos
                + 1].size(old(arena)@) >= MIN_KEYS,
        ensures
            Node::rebalanced(*old(node), old(arena)@, *final(node), final(arena)@, exit),
            Node::merged_at(
                *old(node),
                old(arena)@,
                *final(node),
                final(arena)@,
                left_pos as int,
            ),
            final(node).keys@.len() + 1 == old(node).keys@.len(),
            !old(node).children@[left_pos as int].is_leaf ==> final(node).ids() == old(node).ids(),
    {
        if node.children[left_pos].is_leaf {
            Self::merge_leaves(node, arena, left_pos, Ghost(pos), Ghost(exit));
        } else {
            Self::merge_inner(node, arena, left_pos, Ghost(pos), Ghost(exit));
        }
    }

    /// Between leaves: puts the records of the leaf behind `left_pos`
    /// behind the records of the leaf at `left_pos`, which takes over its
    /// next leaf.
    #[verifier::rlimit(40)]
    pub(super) fn merge_leaves(
        node: &mut Node,
        arena: &mut Vec<Leaf>,
        left_pos: usize,
        Ghost(pos): Ghost<int>,
        Ghost(exit): Ghost<Option<usize>>,
    )
        requires
            old(node).children@[left_pos as int].is_leaf,
            old(node).short_at(old(arena)@, pos),
            linked(old(node).ids(), old(arena)@, exit),
            left_pos + 1 < old(node).children@.len(),
            pos == left_pos + 1 || (pos == left_pos && left_pos == 0),
            old(node).children@[left_pos as int].size(old(arena)@) + old(node).children@[left_pos
                + 1].size(old(arena)@) + 1 <= MAX_KEYS,
            old(node).children@[left_pos as int].size(old(arena)@) + old(node).children@[left_pos
                + 1].size(old(arena)@) >= MIN_KEYS,
        ensures
            Node::rebalanced(*old(node), old(arena)@, *final(node), final(arena)@, exit),
            Node::leaves_merged(
                *old(node),
                old(arena)@,
                *final(node),
                final(arena)@,
                left_pos as int,
            ),
            final(node).keys@.len() + 1 == old(node).keys@.len(),
    {
        let ghost a = *node;
        let ghost arena1 = arena@;
        let c: usize = left_pos;
        let ghost exit_w = head_or(after(a.kid_ids(), c + 1), exit);
        let ghost x = a.children@[c as int].ids() + a.children@[c + 1].ids();
        proof {
            a.lemma_window_linked(arena1, c as int, exit);
            assert(a.children@[c as int].inv(arena1));
            assert(a.children@[c + 1].inv(arena1));
            assert(a.children@[0].inv(arena1));
            a.children@[c as int].lemma_leaf_height(arena1);
            a.children@[c + 1].lemma_leaf_height(arena1);
        }
        let left_id: usize = node.children[c].leaf;
        let right_id: usize = node.children[c + 1].leaf;
        proof {
            assert(x =~= seq![left_id, right_id]);
            assert(x[0] != x[1]);
            assert(link_at(x, arena1, exit_w, 0));
            assert(link_at(x, arena1, exit_w, 1));
            lemma_gather_one(left_id, arena1);
            lemma_gather_one(right_id, arena1);
            lemma_gather_concat(seq![left_id], seq![right_id], arena1);
            assert(seq![left_id] + seq![right_id] =~= x);
        }
        let mut moved: Vec<Record> = Vec::new();
        core::mem::swap(&mut arena[right_id].records, &mut moved);
        let next = arena[right_id].next;
        arena[left_id].records.append(&mut moved);
        arena[left_id].next = next;
        node.keys.remove(c);
        node.children.remove(c + 1);
        proof {
            let b = *node;
            let arena2 = arena@;
            let x2 = seq![left_id];
            lemma_gather_one(left_id, arena2);
            assert(arena2[left_id as int].entries() =~= arena1[left_id as int].entries()
                + arena1[right_id as int].entries());
            assert(link_at(x2, arena2, exit_w, 0));
            assert forall|id: usize| id < arena1.len() && !x.contains(id) implies arena2[id as int]
                == arena1[id as int] by {
                assert(x[0] == left_id && x[1] == right_id);
            }
            assert(x.contains(x[0]));
            assert(b.children@[c as int] == a.children@[c as int]);
            Node::lemma_window_replaced(a, arena1, b, arena2, c as int, -1, x2, exit);
            if c > 0 {
                assert(a.kid_sep(arena1, c as int));
                assert(a.kid_full(arena1, c as int));
                assert(arena2[left_id as int].entries()[0] == arena1[left_id as int].entries()[0]);
            }
            assert forall|i: int| 0 <= i < b.children@.len() implies {
                &&& (#[trigger] b.children@[i]).inv(arena2)
                &&& b.children@[i].height() == b.children@[0].height()
                &&& b.kid_full(arena2, i)
                &&& b.kid_sep(arena2, i)
            } by {}
        }
    }

    /// Between inner nodes: puts the keys and subtrees of the node behind
    /// `left_pos` behind those of the node at `left_pos`, with the key
    /// between the two in the middle.
    #[verifier::rlimit(40)]
    pub(super) fn merge_inner(
        node: &mut Node,
        arena: &mut Vec<Leaf>,
        left_pos: usize,
        Ghost(pos): Ghost<int>,
        Ghost(exit): Ghost<Option<usize>>,
    )
        requires
            !old(node).children@[left_pos as int].is_leaf,
            old(node).short_at(old(arena)@, pos),
            linked(old(node).ids(), old(arena)@, exit),
            left_pos + 1 < old(node).children@.len(),
            pos == left_pos + 1 || (pos == left_pos && left_pos == 0),
            old(node).children@[left_pos as int].size(old(arena)@) + old(node).children@[left_pos
                + 1].size(old(arena)@) + 1 <= MAX_KEYS,
            old(node).children@[left_pos as int].size(old(arena)@) + old(node).children@[left_pos
                + 1].size(old(arena)@) >= MIN_KEYS,
        ensures
            Node::rebalanced(*old(node), old(arena)@, *final(node), final(arena)@, exit),
            Node::inner_merged(*old(node), *final(node), left_pos as int),
            final(arena)@ == old(arena)@,
            final(node).ids() == old(node).ids(),
            final(node).keys@.len() + 1 == old(node).keys@.len(),
    {
        let ghost a = *node;
        let ghost arena1 = arena@;
        let c: usize = left_pos;
        let ghost exit_w = head_or(after(a.kid_ids(), c + 1), exit);
        let ghost x = a.children@[c as int].ids() + a.children@[c + 1].ids();
        proof {
            a.lemma_window_linked(arena1, c as int, exit);
            assert(a.children@[c as int].inv(arena1));
            assert(a.children@[c + 1].inv(arena1));
            assert(a.children@[0].inv(arena1));
            a.children@[c as int].lemma_leaf_height(arena1);
            a.children@[c + 1].lemma_leaf_height(arena1);
        }
        proof {
            a.children@[c + 1].lemma_entries_nonempty(arena1);
            assert(a.kid_sep(arena1, c + 1));
        }
        let sep: i32 = node.keys.remove(c);
        let right = node.children.remove(c + 1);
        Self::absorb(&mut node.children[c], sep, right, Ghost(arena@));
        proof {
            let b = *node;
            let x2 = b.children@[c as int].ids();
            assert(x2 =~= x);
            assert forall|j: int| 0 <= j < x.len() implies x.contains(#[trigger] x[j]) by {}
            a.children@[c as int].lemma_ids_nonempty(arena1);
            Node::lemma_window_replaced(a, arena1, b, arena1, c as int, -1, x2, exit);
            if c > 0 {
                assert(a.kid_sep(arena1, c as int));
            }
            assert(b.kid_full(arena1, c as int));
            assert(b.kid_sep(arena1, c as int));
            assert forall|i: int| 0 <= i < b.children@.len() implies {
                &&& (#[trigger] b.children@[i]).inv(arena1)
                &&& b.children@[i].height() == b.children@[0].height()
                &&& b.kid_full(arena1, i)
                &&& b.kid_sep(arena1, i)
            } by {}
        }
    }
}

} // verus!
