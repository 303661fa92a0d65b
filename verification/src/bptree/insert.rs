//! Insertion below a node of the B+ tree: the record goes into its leaf,
//! and a node that holds one key too many is cut in two.

use vstd::prelude::*;
use crate::bptree::{placed, with_entry, BPlusTree, Leaf, Node, SplitResult};
use crate::bptree::model::{
    gather, groups, grown, head_or, lemma_gather_concat, lemma_gather_frame, lemma_gather_one,
    lemma_group_in_gather, lemma_placed_concat, lemma_rank, lemma_replace_ids, link_at, linked,
    lower_pos, upper_pos,
};
use crate::btree::{MAX_KEYS, MIDDLE, MIN_KEYS, Record};
use crate::entries::{
    ascending, entries_map, has_key, index_of, lemma_above_has_not, lemma_ascending_split,
    lemma_first_kept_insert, lemma_insert_at, lemma_middle_insert, lemma_update_at,
};
use crate::flat::{after, before, lemma_after_frame, lemma_before_frame};
use vstd::seq_lib::lemma_flatten_concat;

verus! {

/// What putting `key` with the value `v` into the leaf `id` leaves behind:
/// the other leaves are as they were; the leaf holds the entry, or it was
/// split, and the leaf and a new leaf behind it hold the entry together.
pub(super) open spec fn leaf_inserted(
    arena: Seq<Leaf>,
    arena2: Seq<Leaf>,
    id: usize,
    res: Option<(i32, usize)>,
    key: i32,
    v: Seq<char>,
) -> bool {
    &&& forall|j: int| 0 <= j < arena.len() && j != id ==> arena2[j] == arena[j]
    &&& res is Some <==> !has_key(arena[id as int].entries(), key) && arena[id as int].records@.len()
        == MAX_KEYS
    &&& match res {
        None => arena2[id as int].entries() == with_entry(arena[id as int].entries(), key, v),
        Some((k, nid)) => {
            let h = with_entry(arena[id as int].entries(), key, v);
            &&& h.len() == MAX_KEYS + 1
            &&& arena2[id as int].entries() == h.subrange(0, h.len() as int / 2)
            &&& arena2[nid as int].entries() == h.subrange(h.len() as int / 2, h.len() as int)
        },
    }
    &&& match res {
        None => {
            &&& arena2.len() == arena.len()
            &&& arena2[id as int].next == arena[id as int].next
            &&& arena[id as int].records@.len() <= arena2[id as int].records@.len() <= MAX_KEYS
            &&& ascending(arena2[id as int].entries())
            &&& entries_map(arena2[id as int].entries()) == entries_map(
                arena[id as int].entries(),
            ).insert(key, v)
        },
        Some((k, nid)) => {
            let all = arena2[id as int].entries() + arena2[nid as int].entries();
            &&& nid == arena.len()
            &&& arena2.len() == arena.len() + 1
            &&& arena2[id as int].next == Some(nid)
            &&& arena2[nid as int].next == arena[id as int].next
            &&& MIN_KEYS <= arena2[id as int].records@.len() <= MAX_KEYS
            &&& MIN_KEYS <= arena2[nid as int].records@.len() <= MAX_KEYS
            &&& ascending(all)
            &&& entries_map(all) == entries_map(arena[id as int].entries()).insert(key, v)
            &&& k == arena2[nid as int].entries()[0].0
        },
    }
}

impl Node {
    /// What an insertion leaves behind: the node `after` and, where the node
    /// was split, the key that moves up and the new right node. Together
    /// they hold the entries of `before` with `key` bound to `v`, in leaves
    /// that are linked as the leaves of `before` were.
    pub(super) open spec fn settled(
        a: Node,
        arena: Seq<Leaf>,
        b: Node,
        arena2: Seq<Leaf>,
        res: Option<SplitResult>,
        key: i32,
        v: Seq<char>,
        exit: Option<usize>,
    ) -> bool {
        let ids2 = match res {
            Some(s) => b.ids() + s.node.ids(),
            None => b.ids(),
        };
        &&& grown(a.ids(), arena, ids2, arena2, exit)
        &&& b.inv(arena2)
        &&& b.is_leaf == a.is_leaf
        &&& b.height() == a.height()
        &&& a.is_leaf ==> (res is Some <==> !has_key(a.entries(arena), key) && a.size(arena)
            == MAX_KEYS)
        &&& ascending(gather(ids2, arena2))
        &&& entries_map(gather(ids2, arena2)) == entries_map(a.entries(arena)).insert(key, v)
        &&& groups(ids2, arena2) == placed(groups(a.ids(), arena), key, v)
        &&& match res {
            None => b.size(arena2) >= a.size(arena),
            Some(s) => {
                &&& s.node.inv(arena2)
                &&& s.node.height() == a.height()
                &&& b.size(arena2) >= MIN_KEYS
                &&& s.node.size(arena2) >= MIN_KEYS
                &&& s.node.entries(arena2).len() > 0
                &&& s.key == s.node.entries(arena2)[0].0
                &&& b.entries(arena2).len() > 0
            },
        }
    }

    /// Where an insertion cuts: a node is cut exactly if it would hold one
    /// key too many; the key that moves up is the middle one of its keys
    /// with the new key among them; an inner node keeps the keys before
    /// the middle, and the new right node has the keys behind it. An inner
    /// node that is not cut has its keys, and with them the key that came
    /// up from below, if one did.
    pub(super) open spec fn cut(
        a: Node,
        arena: Seq<Leaf>,
        b: Node,
        res: Option<SplitResult>,
        key: i32,
    ) -> bool {
        let w = a.widened(arena, key);
        &&& res is Some <==> a.overflows(arena, key)
        &&& has_key(a.entries(arena), key) ==> res is None
        &&& match res {
            None => !a.is_leaf ==> b.keys@ == if a.kid_overflows(arena, key) {
                w
            } else {
                a.keys@
            },
            Some(s) => {
                &&& s.key == a.raised(arena, key)
                &&& !a.is_leaf ==> b.keys@ == w.subrange(0, MIDDLE as int)
                &&& !a.is_leaf ==> s.node.keys@ == w.subrange(MIDDLE + 1, MAX_KEYS + 1)
                &&& s.node.is_leaf == a.is_leaf
            },
        }
    }

    /// What an insertion leaves behind, and where it cut.
    pub(super) open spec fn inserted(
        a: Node,
        arena: Seq<Leaf>,
        b: Node,
        arena2: Seq<Leaf>,
        res: Option<SplitResult>,
        key: i32,
        v: Seq<char>,
        exit: Option<usize>,
    ) -> bool {
        Node::settled(a, arena, b, arena2, res, key, v, exit) && Node::cut(a, arena, b, res, key)
    }

    /// A subtree that was split: its right half is now the subtree behind
    /// it, with a new key between the two. The leaves of the node changed
    /// as `grown` says, and the other subtrees are in order as before.
    pub(super) proof fn lemma_child_split(
        a: Node,
        arena: Seq<Leaf>,
        b: Node,
        arena2: Seq<Leaf>,
        pos: int,
        exit: Option<usize>,
    )
        requires
            a.inv(arena),
            linked(a.ids(), arena, exit),
            !a.is_leaf,
            !b.is_leaf,
            0 <= pos < a.children@.len(),
            b.keys@ == a.keys@.insert(pos, b.keys@[pos]),
            b.children@ == a.children@.update(pos, b.children@[pos]).insert(
                pos + 1,
                b.children@[pos + 1],
            ),
            b.children@[pos].inv(arena2),
            b.children@[pos + 1].inv(arena2),
            b.children@[pos].height() == a.children@[pos].height(),
            b.children@[pos + 1].height() == a.children@[pos].height(),
            grown(
                a.children@[pos].ids(),
                arena,
                b.children@[pos].ids() + b.children@[pos + 1].ids(),
                arena2,
                head_or(after(a.kid_ids(), pos), exit),
            ),
        ensures
            grown(a.ids(), arena, b.ids(), arena2, exit),
            b.height() == a.height(),
            b.loose(arena2, pos, pos + 1, (MAX_KEYS + 1) as nat),
            b.entries(arena2) == gather(before(a.kid_ids(), pos), arena) + (b.children@[pos].entries(
                arena2,
            ) + b.children@[pos + 1].entries(arena2)) + gather(after(a.kid_ids(), pos), arena),
            a.entries(arena) == gather(before(a.kid_ids(), pos), arena)
                + a.children@[pos].entries(arena) + gather(after(a.kid_ids(), pos), arena),
            b.ids() == before(a.kid_ids(), pos) + (b.children@[pos].ids() + b.children@[pos
                + 1].ids()) + after(a.kid_ids(), pos),
    {
        let l = before(a.kid_ids(), pos);
        let x = a.children@[pos].ids();
        let x2 = b.children@[pos].ids() + b.children@[pos + 1].ids();
        let r = after(a.kid_ids(), pos);
        a.lemma_node_at(arena, pos);
        b.lemma_node_at(arena2, pos);
        assert forall|i: int| 0 <= i < pos implies b.kid_ids()[i] == a.kid_ids()[i] by {
            assert(b.children@[i] == a.children@[i]);
        }
        assert forall|i: int| 0 < i < a.kid_ids().len() - pos implies #[trigger] a.kid_ids()[pos
            + i] == b.kid_ids()[pos + 1 + i] by {
            assert(b.children@[pos + 1 + i] == a.children@[pos + i]);
        }
        lemma_before_frame(a.kid_ids(), b.kid_ids(), pos);
        lemma_after_frame(a.kid_ids(), pos, b.kid_ids(), pos + 1);
        assert(b.ids() =~= l + x2 + r);
        lemma_replace_ids(l, x, x2, r, arena, arena2, exit);
        lemma_gather_frame(l, arena, arena2);
        lemma_gather_frame(r, arena, arena2);
        lemma_gather_concat(b.children@[pos].ids(), b.children@[pos + 1].ids(), arena2);
        lemma_gather_concat(l + x2, r, arena2);
        lemma_gather_concat(l, x2, arena2);
        assert forall|i: int| pos < i < a.children@.len() implies #[trigger] b.children@[i + 1]
            == a.children@[i] by {}
        assert forall|i: int| pos < i < a.keys@.len() implies #[trigger] b.keys@[i + 1]
            == a.keys@[i] by {}
        Node::lemma_siblings_kept(a, arena, b, arena2, pos, pos, 1);
        assert(a.children@[0].inv(arena));
        assert(a.children@[pos].inv(arena));
        assert forall|i: int| 0 <= i < b.children@.len() implies {
            &&& (#[trigger] b.children@[i]).inv(arena2)
            &&& b.children@[i].height() == b.children@[0].height()
            &&& !(pos <= i <= pos + 1) ==> b.kid_full(arena2, i) && b.kid_sep(arena2, i)
        } by {
            if i > pos + 1 {
                assert(b.children@[(i - 1) + 1] == a.children@[i - 1]);
                if i == pos + 2 {
                    assert(b.keys@[pos + 1] == a.keys@[pos]);
                }
            }
            if pos > 0 {
                assert(b.children@[0] == a.children@[0]);
            }
            if 0 < i < pos {
                assert(b.kid_sep(arena2, (i - 1) + 1));
            }
        }
    }

    /// A key put into its leaf below a subtree is put into its leaf below
    /// the node.
    pub(super) proof fn lemma_placed_up(
        a: Node,
        arena: Seq<Leaf>,
        x2: Seq<usize>,
        arena2: Seq<Leaf>,
        pos: int,
        key: i32,
        v: Seq<char>,
        exit: Option<usize>,
    )
        requires
            a.inv(arena),
            linked(a.ids(), arena, exit),
            ascending(a.entries(arena)),
            !a.is_leaf,
            0 <= pos <= a.keys@.len(),
            pos > 0 ==> a.keys@[pos - 1] <= key,
            pos < a.keys@.len() ==> key < a.keys@[pos],
            grown(
                a.children@[pos].ids(),
                arena,
                x2,
                arena2,
                head_or(after(a.kid_ids(), pos), exit),
            ),
            groups(x2, arena2) == placed(groups(a.children@[pos].ids(), arena), key, v),
        ensures
            groups(before(a.kid_ids(), pos) + x2 + after(a.kid_ids(), pos), arena2) == placed(
                groups(a.ids(), arena),
                key,
                v,
            ),
    {
        let l = before(a.kid_ids(), pos);
        let x = a.children@[pos].ids();
        let r = after(a.kid_ids(), pos);
        let c = a.children@[pos];
        a.lemma_node_at(arena, pos);
        a.lemma_descend(arena, pos, key);
        lemma_replace_ids(l, x, x2, r, arena, arena2, exit);
        let gl = groups(l, arena);
        let gx = groups(x, arena);
        let gr = groups(r, arena);
        assert(groups(l, arena2) =~= gl);
        assert(groups(r, arena2) =~= gr);
        assert(groups(l + x2 + r, arena2) =~= groups(l, arena2) + groups(x2, arena2) + groups(
            r,
            arena2,
        ));
        assert(groups(a.ids(), arena) =~= gl + gx + gr);
        assert(c.inv(arena));
        assert(a.kid_full(arena, pos));
        c.lemma_ids_nonempty(arena);
        c.lemma_leaves_full(arena, 0);
        if l.len() > 0 {
            assert(pos > 0);
            assert(a.kid_sep(arena, pos));
            assert(x =~= seq![x[0]] + x.subrange(1, x.len() as int));
            lemma_gather_concat(seq![x[0]], x.subrange(1, x.len() as int), arena);
            lemma_gather_one(x[0], arena);
            assert(gx[0] == arena[x[0] as int].entries());
            assert(c.entries(arena)[0] == gx[0][0]);
        }
        let s = gather(r, arena);
        lemma_ascending_split(gather(l, arena) + c.entries(arena), s);
        lemma_above_has_not(s, key);
        assert forall|j: int| 0 <= j < gr.len() implies (#[trigger] gr[j]).len() > 0 && gr[j][0].0
            > key by {
            let at = l.len() + x.len() + j;
            assert(a.ids()[at] == r[j]);
            a.lemma_leaves_full(arena, at);
            assert(gr[j] == arena[r[j] as int].entries());
            let g0 = gr[j][0].0;
            assert(has_key(arena[r[j] as int].entries(), g0));
            lemma_group_in_gather(r, arena, j, g0);
            let i = index_of(s, g0);
            assert(key < s[i].0);
        }
        lemma_placed_concat(gl, gx, gr, key, v);
    }

    /// An insertion below a subtree that was not split is an insertion
    /// below the node.
    pub(super) proof fn lemma_insert_up(
        a: Node,
        arena: Seq<Leaf>,
        b: Node,
        arena2: Seq<Leaf>,
        pos: int,
        key: i32,
        v: Seq<char>,
        exit: Option<usize>,
    )
        requires
            a.inv(arena),
            linked(a.ids(), arena, exit),
            ascending(a.entries(arena)),
            !a.is_leaf,
            !b.is_leaf,
            0 <= pos <= a.keys@.len(),
            pos > 0 ==> a.keys@[pos - 1] <= key,
            pos < a.keys@.len() ==> key < a.keys@[pos],
            b.keys@ == a.keys@,
            b.children@ == a.children@.update(pos, b.children@[pos]),
            Node::settled(
                a.children@[pos],
                arena,
                b.children@[pos],
                arena2,
                None,
                key,
                v,
                head_or(after(a.kid_ids(), pos), exit),
            ),
        ensures
            Node::settled(a, arena, b, arena2, None, key, v, exit),
    {
        Node::lemma_child_changed(a, arena, b, arena2, pos, exit);
        a.lemma_descend(arena, pos, key);
        Node::lemma_placed_up(a, arena, b.children@[pos].ids(), arena2, pos, key, v, exit);
        let l = gather(before(a.kid_ids(), pos), arena);
        let r = gather(after(a.kid_ids(), pos), arena);
        let c = a.children@[pos].entries(arena);
        let c2 = b.children@[pos].entries(arena2);
        lemma_middle_insert(l, c, c2, r, key, v);
        assert(a.children@[pos].inv(arena));
        if pos > 0 {
            assert(a.kid_sep(arena, pos));
            lemma_first_kept_insert(c, c2, key, v);
        }
        assert forall|i: int| 0 <= i < b.children@.len() implies {
            &&& (#[trigger] b.children@[i]).inv(arena2)
            &&& b.children@[i].height() == b.children@[0].height()
            &&& b.kid_full(arena2, i)
            &&& b.kid_sep(arena2, i)
        } by {
            if i == pos {
                assert(a.kid_full(arena, pos));
            }
        }
    }

    /// An insertion below a subtree that was split is an insertion below
    /// the node, which may now hold one key too many.
    pub(super) proof fn lemma_insert_up_split(
        a: Node,
        arena: Seq<Leaf>,
        b: Node,
        arena2: Seq<Leaf>,
        pos: int,
        key: i32,
        v: Seq<char>,
        exit: Option<usize>,
        split: SplitResult,
    )
        requires
            a.inv(arena),
            linked(a.ids(), arena, exit),
            ascending(a.entries(arena)),
            !a.is_leaf,
            !b.is_leaf,
            0 <= pos <= a.keys@.len(),
            pos > 0 ==> a.keys@[pos - 1] <= key,
            pos < a.keys@.len() ==> key < a.keys@[pos],
            b.keys@ == a.keys@.insert(pos, split.key),
            b.children@ == a.children@.update(pos, b.children@[pos]).insert(pos + 1, split.node),
            Node::settled(
                a.children@[pos],
                arena,
                b.children@[pos],
                arena2,
                Some(split),
                key,
                v,
                head_or(after(a.kid_ids(), pos), exit),
            ),
        ensures
            grown(a.ids(), arena, b.ids(), arena2, exit),
            b.roomy(arena2, (MAX_KEYS + 1) as nat),
            b.height() == a.height(),
            b.keys@.len() == a.keys@.len() + 1,
            ascending(b.entries(arena2)),
            entries_map(b.entries(arena2)) == entries_map(a.entries(arena)).insert(key, v),
            groups(b.ids(), arena2) == placed(groups(a.ids(), arena), key, v),
    {
        assert(b.children@[pos + 1] == split.node);
        assert(b.keys@[pos] == split.key);
        Node::lemma_child_split(a, arena, b, arena2, pos, exit);
        a.lemma_descend(arena, pos, key);
        Node::lemma_placed_up(
            a,
            arena,
            b.children@[pos].ids() + split.node.ids(),
            arena2,
            pos,
            key,
            v,
            exit,
        );
        let l = gather(before(a.kid_ids(), pos), arena);
        let r = gather(after(a.kid_ids(), pos), arena);
        let c = a.children@[pos].entries(arena);
        let c2 = b.children@[pos].entries(arena2) + split.node.entries(arena2);
        lemma_gather_concat(b.children@[pos].ids(), split.node.ids(), arena2);
        lemma_middle_insert(l, c, c2, r, key, v);
        assert(a.children@[pos].inv(arena));
        if pos > 0 {
            assert(a.kid_sep(arena, pos));
            lemma_first_kept_insert(c, c2, key, v);
            assert(c2[0] == b.children@[pos].entries(arena2)[0]);
        }
        assert forall|i: int| 0 <= i < b.children@.len() implies {
            &&& (#[trigger] b.children@[i]).inv(arena2)
            &&& b.children@[i].height() == b.children@[0].height()
            &&& b.kid_full(arena2, i)
            &&& b.kid_sep(arena2, i)
        } by {}
    }

    /// A node with one key too many, cut at the position `m`: the keys
    /// before `m` stay, the key at `m` moves up, the keys behind `m` make
    /// the new right node, and each half takes the subtrees next to its
    /// keys.
    pub(super) proof fn lemma_split(mid: Node, left: Node, right: Node, arena: Seq<Leaf>, m: int)
        requires
            mid.roomy(arena, (MAX_KEYS + 1) as nat),
            !mid.is_leaf,
            !left.is_leaf,
            !right.is_leaf,
            mid.keys@.len() == MAX_KEYS + 1,
            m == (MAX_KEYS + 1) / 2,
            left.keys@ =~= mid.keys@.subrange(0, m),
            right.keys@ =~= mid.keys@.subrange(m + 1, mid.keys@.len() as int),
            left.children@ =~= mid.children@.subrange(0, m + 1),
            right.children@ =~= mid.children@.subrange(m + 1, mid.children@.len() as int),
        ensures
            left.inv(arena),
            right.inv(arena),
            left.height() == mid.height(),
            right.height() == mid.height(),
            left.keys@.len() >= MIN_KEYS,
            right.keys@.len() >= MIN_KEYS,
            left.ids() + right.ids() == mid.ids(),
            right.entries(arena).len() > 0,
            left.entries(arena).len() > 0,
            mid.keys@[m] == right.entries(arena)[0].0,
    {
        assert(mid.kid_ids() =~= left.kid_ids() + right.kid_ids()) by {
            assert forall|i: int| 0 <= i < left.children@.len() implies left.kid_ids()[i]
                == mid.kid_ids()[i] by {
                assert(left.children@[i] == mid.children@[i]);
            }
            assert forall|i: int| 0 <= i < right.children@.len() implies right.kid_ids()[i]
                == mid.kid_ids()[m + 1 + i] by {
                assert(right.children@[i] == mid.children@[m + 1 + i]);
            }
        }
        lemma_flatten_concat(left.kid_ids(), right.kid_ids());
        assert forall|i: int| 0 <= i < left.children@.len() implies {
            &&& (#[trigger] left.children@[i]).inv(arena)
            &&& left.children@[i].height() == left.children@[0].height()
            &&& left.kid_full(arena, i)
            &&& left.kid_sep(arena, i)
        } by {
            assert(left.children@[i] == mid.children@[i]);
            assert(left.children@[0] == mid.children@[0]);
            assert(mid.kid_full(arena, i));
            assert(mid.kid_sep(arena, i));
        }
        assert forall|i: int| 0 <= i < right.children@.len() implies {
            &&& (#[trigger] right.children@[i]).inv(arena)
            &&& right.children@[i].height() == right.children@[0].height()
            &&& right.kid_full(arena, i)
            &&& right.kid_sep(arena, i)
        } by {
            assert(right.children@[i] == mid.children@[m + 1 + i]);
            assert(right.children@[0] == mid.children@[m + 1]);
            assert(mid.kid_full(arena, m + 1 + i));
            assert(mid.kid_sep(arena, m + 1 + i));
        }
        assert(right.children@[0] == mid.children@[m + 1]);
        assert(left.children@[0] == mid.children@[0]);
        assert(mid.kid_sep(arena, m + 1));
        left.lemma_entries_nonempty(arena);
        right.lemma_entries_nonempty(arena);
    }
}

impl BPlusTree {
    pub(super) fn insert_rec(
        node: &mut Node,
        arena: &mut Vec<Leaf>,
        key: i32,
        value: String,
        Ghost(exit): Ghost<Option<usize>>,
    ) -> (res: Option<SplitResult>)
        requires
            old(node).inv(old(arena)@),
            linked(old(node).ids(), old(arena)@, exit),
            ascending(old(node).entries(old(arena)@)),
        ensures
            Node::inserted(
                *old(node),
                old(arena)@,
                *final(node),
                final(arena)@,
                res,
                key,
                value@,
                exit,
            ),
        decreases old(node).height(),
    {
        let ghost a = *node;
        let ghost arena1 = arena@;
        let ghost v = value@;
        if node.is_leaf {
            let id: usize = node.leaf;
            proof {
                lemma_gather_one(id, arena1);
                assert(link_at(a.ids(), arena1, exit, 0));
            }
            let res = Self::insert_into_leaf(arena, id, key, value);
            match res {
                None => {
                    proof {
                        lemma_gather_one(id, arena@);
                        assert(link_at(a.ids(), arena@, exit, 0));
                        let g = groups(a.ids(), arena1);
                        assert(g =~= seq![arena1[id as int].entries()]);
                        assert(groups(a.ids(), arena@) =~= placed(g, key, v));
                    }
                    None
                },
                Some((split_key, new_id)) => {
                    let new_node = Node::new_leaf(new_id);
                    proof {
                        let ids2 = a.ids() + new_node.ids();
                        lemma_gather_one(id, arena@);
                        lemma_gather_one(new_id, arena@);
                        lemma_gather_concat(a.ids(), new_node.ids(), arena@);
                        assert(link_at(ids2, arena@, exit, 0));
                        assert(link_at(ids2, arena@, exit, 1));
                        assert(a.ids().contains(id));
                        let g = groups(a.ids(), arena1);
                        assert(g =~= seq![arena1[id as int].entries()]);
                        assert(groups(ids2, arena@) =~= placed(g, key, v));
                    }
                    Some(SplitResult { key: split_key, node: new_node })
                },
            }
        } else {
            let pos: usize = upper_pos(&node.keys, key);
            let ghost exit_c = head_or(after(a.kid_ids(), pos as int), exit);
            proof {
                a.lemma_descend(arena1, pos as int, key);
                a.lemma_kid_linked(arena1, pos as int, exit);
            }
            let res = Self::insert_rec(&mut node.children[pos], arena, key, value, Ghost(exit_c));
            match res {
                None => {
                    proof {
                        assert(node.children@ =~= a.children@.update(
                            pos as int,
                            node.children@[pos as int],
                        ));
                        Node::lemma_insert_up(a, arena1, *node, arena@, pos as int, key, v, exit);
                    }
                    None
                },
                Some(split) => {
                    let ghost s = split;
                    node.keys.insert(pos, split.key);
                    node.children.insert(pos + 1, split.node);
                    proof {
                        assert(node.children@ =~= a.children@.update(
                            pos as int,
                            node.children@[pos as int],
                        ).insert(pos + 1, s.node));
                        Node::lemma_insert_up_split(
                            a,
                            arena1,
                            *node,
                            arena@,
                            pos as int,
                            key,
                            v,
                            exit,
                            s,
                        );
                    }
                    if node.keys.len() > MAX_KEYS {
                        Some(Self::split_internal(node, Ghost(arena@)))
                    } else {
                        None
                    }
                },
            }
        }
    }

    /// Puts a record into the leaf `id`, in place of the record with its key
    /// if there is one. A leaf with one record too many is cut in two: the
    /// upper half moves to a new leaf, which follows the leaf in the chain.
    /// Returns the first key and the number of the new leaf.
    pub(super) fn insert_into_leaf(arena: &mut Vec<Leaf>, id: usize, key: i32, value: String) -> (res: Option<
        (i32, usize),
    >)
        requires
            id < old(arena)@.len(),
            old(arena)@[id as int].records@.len() <= MAX_KEYS,
            ascending(old(arena)@[id as int].entries()),
        ensures
            leaf_inserted(old(arena)@, final(arena)@, id, res, key, value@),
    {
        let ghost arena1 = arena@;
        let ghost before = arena@[id as int].entries();
        let ghost v = value@;
        let pos: usize = lower_pos(&arena[id].records, key);
        if pos < arena[id].records.len() && arena[id].records[pos].key == key {
            arena[id].records[pos].value = value;
            proof {
                assert(arena@[id as int].entries() =~= before.update(pos as int, (key, v)));
                lemma_update_at(before, pos as int, v);
                lemma_rank(before, pos as int, key);
            }
            return None;
        }
        arena[id].records.insert(pos, Record { key, value });
        proof {
            assert(arena@[id as int].entries() =~= before.insert(pos as int, (key, v)));
            lemma_insert_at(before, pos as int, (key, v));
            lemma_rank(before, pos as int, key);
        }
        if arena[id].records.len() > MAX_KEYS {
            let ghost full = arena@[id as int].entries();
            let split_pos: usize = arena[id].records.len() / 2;
            let right = arena[id].records.split_off(split_pos);
            let next = arena[id].next;
            let new_id: usize = arena.len();
            arena[id].next = Some(new_id);
            let split_key: i32 = right[0].key;
            arena.push(Leaf { records: right, next });
            proof {
                assert(arena@[id as int].entries() + arena@[new_id as int].entries() =~= full);
                assert(arena@[id as int].entries() =~= full.subrange(0, split_pos as int));
                assert(arena@[new_id as int].entries() =~= full.subrange(
                    split_pos as int,
                    full.len() as int,
                ));
            }
            return Some((split_key, new_id));
        }
        None
    }

    /// Cuts an inner node with one key too many in two: the lower half
    /// stays, the middle key moves up, the upper half makes a new node.
    pub(super) fn split_internal(node: &mut Node, Ghost(arena): Ghost<Seq<Leaf>>) -> (split: SplitResult)
        requires
            old(node).roomy(arena, (MAX_KEYS + 1) as nat),
            !old(node).is_leaf,
            old(node).keys@.len() == MAX_KEYS + 1,
        ensures
            final(node).inv(arena),
            split.node.inv(arena),
            !final(node).is_leaf,
            final(node).height() == old(node).height(),
            split.node.height() == old(node).height(),
            final(node).size(arena) >= MIN_KEYS,
            split.node.size(arena) >= MIN_KEYS,
            final(node).ids() + split.node.ids() == old(node).ids(),
            split.node.entries(arena).len() > 0,
            final(node).entries(arena).len() > 0,
            split.key == split.node.entries(arena)[0].0,
            !split.node.is_leaf,
            final(node).keys@ == old(node).keys@.subrange(0, MIDDLE as int),
            split.key == old(node).keys@[MIDDLE as int],
            split.node.keys@ == old(node).keys@.subrange(MIDDLE + 1, MAX_KEYS + 1),
    {
        let ghost mid = *node;
        let split_pos: usize = node.keys.len() / 2;
        let split_key: i32 = node.keys[split_pos];
        let mut new_node = Node::new_internal();
        new_node.keys = node.keys.split_off(split_pos + 1);
        new_node.children = node.children.split_off(split_pos + 1);
        node.keys.pop();
        proof {
            Node::lemma_split(mid, *node, new_node, arena, split_pos as int);
            assert(node.keys@ =~= mid.keys@.subrange(0, MIDDLE as int));
            assert(new_node.keys@ =~= mid.keys@.subrange(MIDDLE + 1, MAX_KEYS + 1));
        }
        SplitResult { key: split_key, node: new_node }
    }
}

} // verus!
