//! A B-tree that maps 32-bit keys to strings. Every node, inner nodes
//! included, holds keys with their values; an inner node with `n` keys has
//! `n + 1` subtrees, and all leaves lie at the same depth.

use vstd::prelude::*;
use crate::entries::{
    ascending, entries_map, has_key, insert_all, last_written, lemma_adjacent_ascending,
    lemma_ends, lemma_map_single, lemma_right_step, lemma_scan_after_inserts, Entry,
};

mod delete;
mod insert;
mod model;
mod scan;

verus! {

/// The largest number of subtrees of a node.
pub const ORDER: usize = 4;

/// The largest number of keys of a node.
pub const MAX_KEYS: usize = ORDER - 1;

/// The smallest number of keys of a node other than the root.
pub const MIN_KEYS: usize = (ORDER - 1) / 2;

/// The place of the key that moves up when a node with one key too many
/// is cut in two.
pub const MIDDLE: usize = (MAX_KEYS + 1) / 2;

/// The first place in `keys` whose key is not smaller than `key`, or the
/// length of `keys` where there is none.
pub open spec fn slot(keys: Seq<i32>, key: i32) -> int
    decreases keys.len(),
{
    if keys.len() == 0 || keys[0] >= key {
        0
    } else {
        1 + slot(keys.drop_first(), key)
    }
}

/// The keys that each of the vectors holds.
pub open spec fn key_rows(rows: Seq<Vec<i32>>) -> Seq<Seq<i32>> {
    Seq::new(rows.len(), |i: int| rows[i]@)
}

/// A key with its value, as a full scan hands it out.
#[derive(Debug, Clone)]
pub struct Record {
    pub key: i32,
    pub value: String,
}

impl Record {
    /// The record as an entry of the model.
    pub open spec fn entry(&self) -> Entry {
        (self.key, self.value@)
    }
}

/// The entries that a vector of records stands for, in its order.
pub open spec fn record_entries(records: Seq<Record>) -> Seq<Entry> {
    Seq::new(records.len(), |i: int| records[i].entry())
}

/// A node of the tree: its keys in ascending order, the value of each key,
/// and, in an inner node, one subtree before each key and one behind the
/// last.
struct Node {
    keys: Vec<i32>,
    children: Vec<Node>,
    values: Vec<String>,
    is_leaf: bool,
}

/// What a node that was cut in two hands up: the key that moves up, with
/// its value, and the new right node.
struct SplitResult {
    key: i32,
    value: String,
    node: Node,
}

/// Whether the keys of the records ascend.
pub fn is_ascending(records: &Vec<Record>) -> (ok: bool)
    ensures
        ok == ascending(record_entries(records@)),
{
    let ghost s = record_entries(records@);
    let mut i: usize = 1;
    while i < records.len()
        invariant
            1 <= i,
            s == record_entries(records@),
            forall|j: int| 0 <= j < i - 1 && j < s.len() - 1 ==> (#[trigger] s[j]).0 < s[j + 1].0,
        decreases records@.len() - i,
    {
        if records[i - 1].key >= records[i].key {
            assert(!(s[i - 1].0 < s[i as int].0));
            return false;
        }
        i = i + 1;
    }
    proof {
        lemma_adjacent_ascending(s);
    }
    true
}

/// A B-tree of the order `ORDER` from keys to strings.
pub struct BTree {
    root: Node,
}

impl View for BTree {
    type V = Map<i32, Seq<char>>;

    /// The map from keys to values that the tree holds.
    open spec fn view(&self) -> Map<i32, Seq<char>> {
        entries_map(self.entries())
    }
}

impl BTree {
    /// The entries of the tree in the order of a full scan.
    pub closed spec fn entries(&self) -> Seq<Entry> {
        self.root.entries()
    }

    /// The number of levels of the tree.
    pub closed spec fn levels(&self) -> nat {
        self.root.height()
    }

    /// The invariants of the tree: the keys ascend in scan order, every node
    /// holds at most `MAX_KEYS` keys and every node but the root at least
    /// `MIN_KEYS`, an inner node with `n` keys has `n + 1` subtrees, all
    /// leaves lie at the same depth, and an inner root holds a key.
    pub closed spec fn wf(&self) -> bool {
        &&& self.root.wf()
        &&& self.root.is_leaf || self.root.keys@.len() >= 1
    }

    /// An empty tree: one leaf without keys.
    pub fn new() -> (tree: BTree)
        ensures
            tree.wf(),
            tree@ == Map::<i32, Seq<char>>::empty(),
            tree.entries() == Seq::<Entry>::empty(),
            tree.levels() == 1,
    {
        let tree = BTree { root: Node::new_leaf() };
        proof {
            lemma_map_single((0i32, Seq::<char>::empty()));
        }
        tree
    }

    /// The tree that holds the given records, inserted in their order: of
    /// two records with one key the later one stays.
    pub fn from_records(records: &Vec<Record>) -> (tree: BTree)
        ensures
            tree.wf(),
            tree@ == insert_all(Map::empty(), record_entries(records@)),
    {
        let mut tree = BTree::new();
        let ghost all = record_entries(records@);
        let mut i: usize = 0;
        while i < records.len()
            invariant
                i <= records@.len(),
                all == record_entries(records@),
                tree.wf(),
                tree@ == insert_all(Map::empty(), all.subrange(0, i as int)),
            decreases records@.len() - i,
        {
            tree.insert(records[i].key, records[i].value.clone());
            proof {
                assert(all.subrange(0, i + 1).drop_last() =~= all.subrange(0, i as int));
                assert(all.subrange(0, i + 1).last() == all[i as int]);
            }
            i = i + 1;
        }
        proof {
            assert(all.subrange(0, records@.len() as int) =~= all);
        }
        tree
    }

    /// The value stored under `key`, if there is one.
    pub fn search(&self, key: i32) -> (res: Option<String>)
        requires
            self.wf(),
        ensures
            match res {
                Some(v) => self@.contains_key(key) && self@[key] == v@,
                None => !self@.contains_key(key),
            },
    {
        Self::search_rec(&self.root, key)
    }

    /// All records of the tree in ascending key order.
    pub fn get_all_records(&self) -> (records: Vec<Record>)
        requires
            self.wf(),
        ensures
            record_entries(records@) == self.entries(),
            ascending(self.entries()),
    {
        let mut records: Vec<Record> = Vec::new();
        assert(record_entries(records@) =~= Seq::<Entry>::empty());
        Self::collect_records(&self.root, &mut records);
        assert(Seq::<Entry>::empty() + self.root.entries() =~= self.root.entries());
        records
    }

    /// Binds `key` to `value`, and hands out the value that the key had
    /// before, if it had one. A key that the tree holds keeps its place:
    /// no node gains or loses a key. The tree grows by a level exactly if
    /// the root is cut in two; the new root then holds the one key that
    /// moved up, over two subtrees. A root that is not cut has its keys,
    /// and with them the new one where its own subtree was cut or it is a
    /// leaf.
    pub fn insert(&mut self, key: i32, value: String) -> (previous: Option<String>)
        requires
            old(self).wf(),
        ensures
            final(self).wf(),
            final(self)@ == old(self)@.insert(key, value@),
            match previous {
                Some(p) => old(self)@.contains_key(key) && p@ == old(self)@[key],
                None => !old(self)@.contains_key(key),
            },
            old(self)@.contains_key(key) ==> final(self).layout() == old(self).layout()
                && final(self).levels() == old(self).levels(),
            final(self).levels() == old(self).levels() || final(self).levels() == old(self).levels() + 1,
            final(self).levels() == old(self).levels() + 1 <==> old(self).overflows(key),
            old(self).overflows(key) ==> final(self).layout()[0] == seq![old(self).promoted(key)]
                && final(self).fanout() == 2,
            !old(self).overflows(key) ==> final(self).layout()[0] == old(self).root_keys_with(key),
            old(self).levels() == 1 ==> (final(self).levels() == 2 <==> !old(self)@.contains_key(key)
                && old(self).entries().len() == MAX_KEYS),
    {
        let ghost before = self.root;
        proof {
            before.lemma_leaf_height();
            if before.is_leaf && before.holds(key) {
                assert(before.own()[slot(before.keys@, key)].0 == key);
            }
        }
        let previous = Self::search_rec(&self.root, key);
        let res = Self::insert_rec(&mut self.root, key, value);
        if let Some(split) = res {
            let ghost left = self.root;
            let ghost sep = (split.key, split.value@);
            let ghost right = split.node;
            let mut new_root = Node::new_internal();
            new_root.keys.push(split.key);
            new_root.values.push(split.value);
            core::mem::swap(&mut self.root, &mut new_root);
            self.root.children.push(new_root);
            self.root.children.push(split.node);
            proof {
                let root = self.root;
                assert(root.children@[0] == left);
                assert(root.children@[1] == right);
                assert(root.own() =~= seq![sep]);
                assert(root.kids() =~= seq![left.entries(), right.entries()]);
                root.lemma_around_child(0);
                lemma_right_step(root.kids(), root.own(), 0);
                lemma_ends(root.kids(), root.own());
                assert(root.entries() =~= left.entries() + seq![sep] + right.entries());
                assert(root.layout()[0] == root.keys@);
                assert(root.keys@ =~= seq![before.widened(key)[MIDDLE as int]]);
            }
        } else {
            proof {
                assert(self.root.layout()[0] == self.root.keys@);
            }
        }
        previous
    }

    /// The keys of the nodes, node by node: those of the root, then those
    /// of the nodes of its first subtree, of its second, and so on.
    pub closed spec fn layout(&self) -> Seq<Seq<i32>> {
        self.root.layout()
    }

    /// The number of subtrees of the root.
    pub closed spec fn fanout(&self) -> nat {
        self.root.children@.len()
    }

    /// Taking in the key would cut the root in two: the key is new, and
    /// every node on its way down from the root is full.
    pub closed spec fn overflows(&self, key: i32) -> bool {
        self.root.overflows(key)
    }

    /// The key that moves up into a new root where taking in `key` cuts
    /// the root in two.
    pub closed spec fn promoted(&self, key: i32) -> i32 {
        self.root.widened(key)[MIDDLE as int]
    }

    /// The keys of the root after `key` was taken in, where the root is
    /// not cut: its keys as they were where the tree holds `key` or the
    /// subtree of `key` is not cut, else its keys with the new one at its
    /// place, which is `key` itself in a leaf and the key that came up
    /// from the subtree in an inner root.
    pub closed spec fn root_keys_with(&self, key: i32) -> Seq<i32> {
        if has_key(self.root.entries(), key) || (self.root.down(key) && !self.root.children@[slot(
            self.root.keys@,
            key,
        )].overflows(key)) {
            self.root.keys@
        } else {
            self.root.widened(key)
        }
    }

    /// The key stands in a leaf that holds more keys than the smallest
    /// number.
    pub closed spec fn spares(&self, key: i32) -> bool {
        self.root.spares(key)
    }

    /// The keys of the nodes, node by node, with the key taken out of the
    /// node in which it stands.
    pub closed spec fn layout_without(&self, key: i32) -> Seq<Seq<i32>> {
        self.root.layout_without(key)
    }

    /// The keys of the nodes, node by node.
    pub fn node_keys(&self) -> (rows: Vec<Vec<i32>>)
        ensures
            key_rows(rows@) == self.layout(),
            rows@.len() >= 1,
    {
        let mut rows: Vec<Vec<i32>> = Vec::new();
        assert(key_rows(rows@) =~= Seq::<Seq<i32>>::empty());
        Self::collect_layout(&self.root, &mut rows);
        assert(Seq::<Seq<i32>>::empty() + self.root.layout() =~= self.root.layout());
        rows
    }

    /// Removes `key` and says whether the tree held it. A key that the tree
    /// does not hold is looked up only: the tree is not touched. A key in
    /// a leaf that holds more keys than the smallest number leaves that
    /// leaf, and every other node and the height stay as they were.
    pub fn delete(&mut self, key: i32) -> (removed: bool)
        requires
            old(self).wf(),
        ensures
            final(self).wf(),
            removed == old(self)@.contains_key(key),
            final(self)@ == old(self)@.remove(key),
            !removed ==> *final(self) == *old(self),
            final(self).levels() == old(self).levels() || final(self).levels() + 1 == old(self).levels(),
            old(self).spares(key) ==> final(self).layout() == old(self).layout_without(key)
                && final(self).levels() == old(self).levels() && final(self).fanout() == old(
                self,
            ).fanout(),
    {
        proof {
            if self.root.spares(key) {
                self.root.lemma_spares_held(key);
            }
        }
        if Self::search_rec(&self.root, key).is_none() {
            assert(self@.remove(key) =~= self@);
            return false;
        }
        let result = Self::delete_rec(&mut self.root, key);
        if self.root.keys.is_empty() && !self.root.is_leaf {
            let ghost top = self.root;
            let child = self.root.children.remove(0);
            self.root = child;
            proof {
                top.lemma_around_child(0);
                assert(top.children@[0].shaped());
                assert(top.entries() =~= child.entries());
            }
        }
        result
    }

    /// The number of levels of the tree, or the largest number that fits
    /// where the tree has more.
    pub fn height(&self) -> (h: usize)
        requires
            self.wf(),
        ensures
            h as nat == self.levels() || (h == usize::MAX && self.levels() >= usize::MAX),
    {
        let mut current: &Node = &self.root;
        let mut h: usize = 1;
        while !current.is_leaf
            invariant
                current.shaped(),
                h as nat + current.height() == self.root.height() + 1 || (h == usize::MAX && h
                    as nat + current.height() <= self.root.height() + 1),
            decreases current.height(),
        {
            proof {
                assert(current.children@[0].shaped());
                current.children@[0].lemma_leaf_height();
            }
            current = &current.children[0];
            if h < usize::MAX {
                h = h + 1;
            }
        }
        proof {
            current.lemma_leaf_height();
        }
        h
    }

    /// Whether the invariants of the tree hold, found out by going through
    /// the whole tree.
    pub fn invariants_hold(&self) -> (ok: bool)
        ensures
            ok == self.wf(),
    {
        if !Self::is_shaped(&self.root) {
            return false;
        }
        if !self.root.is_leaf && self.root.keys.len() == 0 {
            return false;
        }
        let mut records: Vec<Record> = Vec::new();
        assert(record_entries(records@) =~= Seq::<Entry>::empty());
        Self::collect_records(&self.root, &mut records);
        assert(Seq::<Entry>::empty() + self.root.entries() =~= self.root.entries());
        is_ascending(&records)
    }

    /// The entries of a well-formed tree ascend by key, so that a full scan
    /// hands out every key once.
    pub proof fn lemma_entries_ascending(&self)
        requires
            self.wf(),
        ensures
            ascending(self.entries()),
    {
    }

    /// A key that was deleted is not found: of a tree that holds what
    /// another held but for `key`, the view does not hold `key`.
    pub proof fn lemma_deleted_not_found(before: BTree, after: BTree, key: i32)
        requires
            after@ == before@.remove(key),
        ensures
            !after@.contains_key(key),
    {
    }

    /// A full scan after insertions into an empty tree: a tree whose view is
    /// what the insertions `ops` build holds exactly the inserted keys, in
    /// ascending order, each with the value written for it last.
    pub proof fn lemma_inserts_then_scan(&self, ops: Seq<Entry>)
        requires
            self.wf(),
            self@ == insert_all(Map::empty(), ops),
        ensures
            ascending(self.entries()),
            forall|k: i32| has_key(self.entries(), k) <==> has_key(ops, k),
            forall|i: int|
                0 <= i < self.entries().len() ==> last_written(ops, (#[trigger] self.entries()[i]).0)
                    == Some(self.entries()[i].1),
    {
        lemma_scan_after_inserts(ops, self.entries());
    }
}

} // verus!
