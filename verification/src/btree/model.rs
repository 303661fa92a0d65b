//! How the contracts of the B-tree see its nodes: the entries below a node
//! in key order, and the shape that a node keeps.

use vstd::prelude::*;
use crate::btree::{slot, MAX_KEYS, MIDDLE, MIN_KEYS, Node};
use crate::entries::{
    ascending, entries_map, has_key, joined, left_of, lemma_ascending_split, lemma_ends,
    lemma_joined_at, lemma_left_step, lemma_map_at, lemma_middle_lookup, lemma_right_step,
    right_of, Entry,
};

verus! {

/// The first position in `keys` whose key is not smaller than `key`, or the
/// length of `keys` if there is none.
pub(super) fn find_pos(keys: &Vec<i32>, key: i32) -> (pos: usize)
    ensures
        pos <= keys@.len(),
        forall|i: int| 0 <= i < pos ==> keys@[i] < key,
        pos < keys@.len() ==> keys@[pos as int] >= key,
        pos == slot(keys@, key),
{
    let mut pos: usize = 0;
    while pos < keys.len() && keys[pos] < key
        invariant
            pos <= keys@.len(),
            forall|i: int| 0 <= i < pos ==> keys@[i] < key,
        decreases keys@.len() - pos,
    {
        pos = pos + 1;
    }
    proof {
        lemma_slot(keys@, pos as int, key);
    }
    pos
}

/// Where the keys before the place `pos` are smaller than `key` and the
/// key at `pos`, if there is one, is not, `pos` is the slot of `key`.
pub(super) proof fn lemma_slot(keys: Seq<i32>, pos: int, key: i32)
    requires
        0 <= pos <= keys.len(),
        forall|i: int| 0 <= i < pos ==> keys[i] < key,
        pos == keys.len() || keys[pos] >= key,
    ensures
        slot(keys, key) == pos,
    decreases pos,
{
    if pos > 0 {
        let t = keys.drop_first();
        assert(keys[0] < key);
        assert forall|i: int| 0 <= i < pos - 1 implies t[i] < key by {
            assert(t[i] == keys[i + 1]);
        }
        if pos < keys.len() {
            assert(t[pos - 1] == keys[pos]);
        }
        lemma_slot(t, pos - 1, key);
    }
}

/// The keys before the slot of a key are smaller than the key, and the
/// key at the slot, if there is one, is not.
pub(super) proof fn lemma_slot_facts(keys: Seq<i32>, key: i32)
    ensures
        0 <= slot(keys, key) <= keys.len(),
        forall|i: int| 0 <= i < slot(keys, key) ==> keys[i] < key,
        slot(keys, key) < keys.len() ==> keys[slot(keys, key)] >= key,
    decreases keys.len(),
{
    if keys.len() > 0 && keys[0] < key {
        let t = keys.drop_first();
        lemma_slot_facts(t, key);
        assert forall|i: int| 0 <= i < slot(keys, key) implies keys[i] < key by {
            if i > 0 {
                assert(t[i - 1] == keys[i]);
            }
        }
        if slot(keys, key) < keys.len() {
            assert(t[slot(t, key)] == keys[slot(keys, key)]);
        }
    }
}

/// The slot of a key is a place in the keys or behind them.
pub(super) proof fn lemma_slot_in(keys: Seq<i32>, key: i32)
    ensures
        0 <= slot(keys, key) <= keys.len(),
    decreases keys.len(),
{
    if keys.len() > 0 && keys[0] < key {
        lemma_slot_in(keys.drop_first(), key);
    }
}

impl Node {
    /// The keys of each node of each subtree.
    pub(super) open spec fn kid_layouts(&self) -> Seq<Seq<Seq<i32>>>
        decreases self, 0nat,
    {
        Seq::new(
            self.children@.len(),
            |i: int|
                if 0 <= i < self.children@.len() {
                    self.children@[i].layout()
                } else {
                    Seq::empty()
                },
        )
    }

    /// The keys of the nodes, node by node: those of this node, then those
    /// of the nodes of its first subtree, of its second, and so on.
    pub(super) open spec fn layout(&self) -> Seq<Seq<i32>>
        decreases self, 1nat,
    {
        seq![self.keys@] + self.kid_layouts().flatten()
    }

    /// The key is one of the node's own keys.
    pub(super) open spec fn holds(&self, key: i32) -> bool {
        let p = slot(self.keys@, key);
        0 <= p < self.keys@.len() && self.keys@[p] == key
    }

    /// The subtree into which the key goes.
    pub(super) open spec fn down(&self, key: i32) -> bool {
        !self.is_leaf && 0 <= slot(self.keys@, key) < self.children@.len()
    }

    /// The keys that the node would hold with one more: with the key
    /// itself in a leaf, with the key that comes up from below in an inner
    /// node.
    pub(super) open spec fn widened(&self, key: i32) -> Seq<i32>
        decreases self,
    {
        let p = slot(self.keys@, key);
        if self.down(key) {
            self.keys@.insert(p, self.children@[p].widened(key)[MIDDLE as int])
        } else {
            self.keys@.insert(p, key)
        }
    }

    /// Taking in the key would give the node one key too many: the key is
    /// new, the node is full, and it is a leaf or the subtree into which
    /// the key goes would be cut in two.
    pub(super) open spec fn overflows(&self, key: i32) -> bool
        decreases self,
    {
        &&& !self.holds(key)
        &&& self.keys@.len() == MAX_KEYS
        &&& self.is_leaf || (self.down(key) && self.children@[slot(self.keys@, key)].overflows(key))
    }

    /// The key stands in a leaf that holds more keys than the smallest
    /// number.
    pub(super) open spec fn spares(&self, key: i32) -> bool
        decreases self,
    {
        if self.holds(key) {
            self.is_leaf && self.keys@.len() > MIN_KEYS
        } else {
            self.down(key) && self.children@[slot(self.keys@, key)].spares(key)
        }
    }

    /// The keys of the nodes, node by node, with the key taken out of the
    /// node in which it stands or below which it is looked for.
    pub(super) open spec fn layout_without(&self, key: i32) -> Seq<Seq<i32>>
        decreases self,
    {
        let p = slot(self.keys@, key);
        if self.holds(key) {
            seq![self.keys@.remove(p)] + self.kid_layouts().flatten()
        } else if self.down(key) {
            seq![self.keys@] + self.kid_layouts().update(
                p,
                self.children@[p].layout_without(key),
            ).flatten()
        } else {
            self.layout()
        }
    }

    /// A key that stands in a leaf which can spare one is a key of the
    /// entries.
    pub(super) proof fn lemma_spares_held(&self, key: i32)
        requires
            self.wf(),
            self.spares(key),
        ensures
            has_key(self.entries(), key),
        decreases self,
    {
        let p = slot(self.keys@, key);
        lemma_slot_facts(self.keys@, key);
        if self.holds(key) {
            self.lemma_own_found(p);
        } else {
            self.lemma_descend(p, key);
            self.children@[p].lemma_spares_held(key);
        }
    }

    /// The node's own keys with their values.
    pub(super) open spec fn own(&self) -> Seq<Entry> {
        Seq::new(self.keys@.len(), |i: int| (self.keys@[i], self.values@[i]@))
    }

    /// The entries of each subtree.
    pub(super) open spec fn kids(&self) -> Seq<Seq<Entry>>
        decreases self, 0nat,
    {
        Seq::new(
            self.children@.len(),
            |i: int|
                if 0 <= i < self.children@.len() {
                    self.children@[i].entries()
                } else {
                    Seq::empty()
                },
        )
    }

    /// All entries below and in this node, in key order.
    pub(super) open spec fn entries(&self) -> Seq<Entry>
        decreases self, 1nat,
    {
        if self.is_leaf {
            self.own()
        } else {
            joined(self.kids(), self.own())
        }
    }

    /// The number of nodes on the way from this node down to its first leaf.
    pub(super) open spec fn height(&self) -> nat
        decreases self,
    {
        if self.is_leaf || self.children@.len() == 0 {
            1
        } else {
            1 + self.children@[0].height()
        }
    }

    /// The node and all nodes below it have as many values as keys and no
    /// more keys than a node may hold; an inner node has one subtree more than
    /// keys; every node below this one holds at least the smallest number of
    /// keys; and the subtrees of one node are equally high.
    pub(super) open spec fn shaped(&self) -> bool
        decreases self, 2nat,
    {
        self.roomy(MAX_KEYS as nat)
    }

    /// As `shaped`, but the node itself may hold up to `max` keys.
    pub(super) open spec fn roomy(&self, max: nat) -> bool
        decreases self, 1nat,
    {
        &&& self.keys@.len() == self.values@.len()
        &&& self.keys@.len() <= max
        &&& if self.is_leaf {
            self.children@.len() == 0
        } else {
            self.children@.len() == self.keys@.len() + 1 && self.kids_shaped()
        }
    }

    /// Every subtree is well shaped, holds at least the smallest number of
    /// keys, and is as high as the first subtree.
    pub(super) open spec fn kids_shaped(&self) -> bool
        decreases self, 0nat,
    {
        forall|i: int|
            0 <= i < self.children@.len() ==> {
                &&& (#[trigger] self.children@[i]).shaped()
                &&& self.children@[i].keys@.len() >= MIN_KEYS
                &&& self.children@[i].height() == self.children@[0].height()
            }
    }

    /// The node is well shaped and its entries are in ascending key order.
    pub(super) open spec fn wf(&self) -> bool {
        self.shaped() && ascending(self.entries())
    }

    /// The entries of an inner node are what stands before a subtree, the
    /// subtree, and what stands behind it; the own entries next to the
    /// subtree are the neighbours of its entries.
    pub(super) proof fn lemma_around_child(&self, pos: int)
        requires
            !self.is_leaf,
            0 <= pos <= self.keys@.len(),
        ensures
            self.entries() == left_of(self.kids(), self.own(), pos) + self.kids()[pos] + right_of(
                self.kids(),
                self.own(),
                pos,
            ),
            pos > 0 ==> left_of(self.kids(), self.own(), pos).len() > 0 && left_of(
                self.kids(),
                self.own(),
                pos,
            ).last() == self.own()[pos - 1],
            pos < self.keys@.len() ==> right_of(self.kids(), self.own(), pos).len() > 0
                && right_of(self.kids(), self.own(), pos)[0] == self.own()[pos],
            pos == 0 ==> left_of(self.kids(), self.own(), pos).len() == 0,
            pos == self.keys@.len() ==> right_of(self.kids(), self.own(), pos).len() == 0,
    {
        lemma_joined_at(self.kids(), self.own(), pos);
        lemma_ends(self.kids(), self.own());
        if pos > 0 {
            lemma_left_step(self.kids(), self.own(), pos);
        }
        if pos < self.keys@.len() {
            lemma_right_step(self.kids(), self.own(), pos);
        }
    }

    /// An own key of a node is a key of its entries, with its own value.
    pub(super) proof fn lemma_own_found(&self, pos: int)
        requires
            self.wf(),
            0 <= pos < self.keys@.len(),
        ensures
            has_key(self.entries(), self.keys@[pos]),
            entries_map(self.entries())[self.keys@[pos]] == self.values@[pos]@,
    {
        if self.is_leaf {
            lemma_map_at(self.own(), pos);
        } else {
            self.lemma_around_child(pos);
            let l = left_of(self.kids(), self.own(), pos);
            let c = self.kids()[pos];
            let r = right_of(self.kids(), self.own(), pos);
            let at = (l.len() + c.len()) as int;
            assert((l + c + r)[at] == r[0]);
            lemma_map_at(self.entries(), at);
        }
    }

    /// The subtrees of a well-formed inner node are well formed and lower.
    pub(super) proof fn lemma_child_wf(&self, pos: int)
        requires
            self.wf(),
            !self.is_leaf,
            0 <= pos <= self.keys@.len(),
        ensures
            self.children@[pos].wf(),
            self.children@[pos].keys@.len() >= MIN_KEYS,
            self.children@[pos].height() < self.height(),
    {
        self.lemma_around_child(pos);
        let l = left_of(self.kids(), self.own(), pos);
        let c = self.kids()[pos];
        let r = right_of(self.kids(), self.own(), pos);
        lemma_ascending_split(l + c, r);
        lemma_ascending_split(l, c);
    }

    /// A key that lies between the own keys around a subtree is looked up in
    /// that subtree.
    pub(super) proof fn lemma_descend(&self, pos: int, key: i32)
        requires
            self.wf(),
            !self.is_leaf,
            0 <= pos <= self.keys@.len(),
            pos > 0 ==> self.keys@[pos - 1] < key,
            pos < self.keys@.len() ==> key < self.keys@[pos],
        ensures
            self.children@[pos].wf(),
            has_key(self.entries(), key) == has_key(self.children@[pos].entries(), key),
            has_key(self.entries(), key) ==> entries_map(self.entries())[key] == entries_map(
                self.children@[pos].entries(),
            )[key],
            self.children@[pos].height() < self.height(),
    {
        self.lemma_around_child(pos);
        let l = left_of(self.kids(), self.own(), pos);
        let c = self.kids()[pos];
        let r = right_of(self.kids(), self.own(), pos);
        lemma_middle_lookup(l, c, r, key);
    }

    /// As `shaped`, but a subtree may hold fewer keys than the smallest
    /// number.
    pub(super) open spec fn loose(&self) -> bool {
        &&& self.keys@.len() == self.values@.len()
        &&& self.keys@.len() <= MAX_KEYS
        &&& if self.is_leaf {
            self.children@.len() == 0
        } else {
            &&& self.children@.len() == self.keys@.len() + 1
            &&& forall|i: int|
                0 <= i < self.children@.len() ==> (#[trigger] self.children@[i]).shaped()
                    && self.children@[i].height() == self.children@[0].height()
        }
    }

    /// Every subtree but the one at `pos` holds at least the smallest number
    /// of keys.
    pub(super) open spec fn full_but(&self, pos: int) -> bool {
        forall|i: int|
            0 <= i < self.children@.len() && i != pos ==> (#[trigger] self.children@[i]).keys@.len()
                >= MIN_KEYS
    }

    /// The entries of a node that may come with a key: none where there is no
    /// node.
    pub(super) open spec fn opt_entries(node: Option<Node>) -> Seq<Entry> {
        match node {
            Some(n) => n.entries(),
            None => Seq::empty(),
        }
    }

    /// A node that comes with a key fits below a node of the height `h`.
    pub(super) open spec fn fits_below(node: Option<Node>, h: nat, leaf: bool) -> bool {
        match node {
            Some(n) => !leaf && n.shaped() && n.keys@.len() >= MIN_KEYS && n.height() + 1 == h,
            None => leaf,
        }
    }

    /// A well shaped node is a leaf exactly if its height is one.
    pub(super) proof fn lemma_leaf_height(&self)
        requires
            self.loose(),
        ensures
            self.is_leaf <==> self.height() == 1,
            self.height() >= 1,
    {
        if !self.is_leaf {
            let c = self.children@[0];
            assert(c.shaped());
            assert(c.height() >= 1);
        }
    }

    /// Neighbouring own keys ascend.
    pub(super) proof fn lemma_own_step(&self, pos: int)
        requires
            self.wf(),
            0 <= pos,
            pos + 1 < self.keys@.len(),
        ensures
            self.keys@[pos] < self.keys@[pos + 1],
    {
        if self.is_leaf {
            assert(self.own()[pos].0 < self.own()[pos + 1].0);
        } else {
            self.lemma_around_child(pos + 1);
            let l = left_of(self.kids(), self.own(), pos + 1);
            let c = self.kids()[pos + 1];
            let r = right_of(self.kids(), self.own(), pos + 1);
            let s = l + c + r;
            assert(s[l.len() - 1] == l.last());
            assert(s[(l.len() + c.len()) as int] == r[0]);
        }
    }

    pub(super) fn new_leaf() -> (node: Node)
        ensures
            node.wf(),
            node.is_leaf,
            node.keys@.len() == 0,
            node.entries() == Seq::<Entry>::empty(),
            node.height() == 1,
    {
        let node = Node { keys: Vec::new(), children: Vec::new(), values: Vec::new(), is_leaf: true };
        assert(node.own() =~= Seq::<Entry>::empty());
        node
    }

    pub(super) fn new_internal() -> (node: Node)
        ensures
            !node.is_leaf,
            node.keys@.len() == 0,
            node.values@.len() == 0,
            node.children@.len() == 0,
    {
        Node { keys: Vec::new(), children: Vec::new(), values: Vec::new(), is_leaf: false }
    }
}

} // verus!
