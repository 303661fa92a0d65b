//! A B+ tree that maps 32-bit keys to strings. The records lie in the
//! leaves; an inner node holds separator keys only, each the smallest key
//! below the subtree to its right. The leaves live in an arena and are
//! numbered by their place in it; each leaf names the leaf that follows it
//! in key order, so that a full scan walks from leaf to leaf.

use vstd::prelude::*;
pub use crate::btree::Record;
use crate::bptree::model::{
    append_records, gather, groups, lemma_gather_concat, lemma_gather_one, link_at, linked,
    upper_pos,
};
use crate::btree::{is_ascending, record_entries, MAX_KEYS, MIN_KEYS};
use crate::entries::{
    ascending, entries_map, has_key, index_of, insert_all, last_written, lemma_map_at,
    lemma_scan_after_inserts, Entry,
};
use crate::flat::{after, before};
use vstd::seq_lib::lemma_flatten_concat;

mod audit;
mod delete;
mod insert;
mod model;

verus! {

/// A leaf of the tree: its records in ascending key order, and the number
/// of the leaf that follows it in key order.
struct Leaf {
    records: Vec<Record>,
    next: Option<usize>,
}

/// A node of the index over the leaves. An inner node holds its separator
/// keys in ascending order, and one subtree before each key and one behind
/// the last. A leaf node holds the number of its leaf in the arena.
struct Node {
    keys: Vec<i32>,
    children: Vec<Node>,
    is_leaf: bool,
    leaf: usize,
}

/// What a node that was cut in two hands up: the key that moves up, and
/// the new right node.
struct SplitResult {
    key: i32,
    node: Node,
}

/// A B+ tree of the order `ORDER` from keys to strings.
pub struct BPlusTree {
    root: Node,
    leaves: Vec<Leaf>,
}

/// A place in the order of the records of a tree: a leaf and a slot in it,
/// or the end behind the last record.
pub struct Cursor {
    leaf: usize,
    slot: usize,
    end_of_data: bool,
    place: Ghost<int>,
}

/// The entries `s` without the entry of `key`, if there is one.
pub open spec fn without(s: Seq<Entry>, key: i32) -> Seq<Entry> {
    if has_key(s, key) {
        s.remove(index_of(s, key))
    } else {
        s
    }
}

/// The groups of entries `g`, each without the entry of `key`.
pub open spec fn pruned(g: Seq<Seq<Entry>>, key: i32) -> Seq<Seq<Entry>> {
    g.map_values(|s: Seq<Entry>| without(s, key))
}

/// The group that holds `key` can spare an entry: it holds more than the
/// smallest number.
pub open spec fn spare(g: Seq<Seq<Entry>>, key: i32) -> bool {
    forall|j: int| 0 <= j < g.len() && has_key(#[trigger] g[j], key) ==> g[j].len() > MIN_KEYS
}

/// The groups of entries `g` after `key` left the group that holds it,
/// where the groups from `lo` up to `hi` are those of the leaves below one
/// node. A group that can spare the entry only loses it. Else the group
/// takes the last entry of the group before it, if that one is below the
/// same node and can spare an entry; else the first entry of the group
/// behind it, if that one is and can; else it becomes one with the group
/// before it, or with the group behind it where none is before it below
/// the same node. A group alone below its node only loses the entry.
pub open spec fn taken_out(g: Seq<Seq<Entry>>, key: i32, lo: int, hi: int) -> Seq<Seq<Entry>> {
    let j = home(g, key);
    let rest = without(g[j], key);
    if spare(g, key) {
        pruned(g, key)
    } else if j > lo && g[j - 1].len() > MIN_KEYS {
        g.update(j - 1, g[j - 1].drop_last()).update(j, seq![g[j - 1].last()] + rest)
    } else if j + 1 < hi && g[j + 1].len() > MIN_KEYS {
        g.update(j, rest.push(g[j + 1][0])).update(j + 1, g[j + 1].drop_first())
    } else if j > lo {
        g.update(j - 1, g[j - 1] + rest).remove(j)
    } else if j + 1 < hi {
        g.update(j, rest + g[j + 1]).remove(j + 1)
    } else {
        g.update(j, rest)
    }
}

/// The number of entries at the front of `s` whose keys are smaller than
/// `k`: the place at which `k` stands in an ascending `s`, or would stand.
pub open spec fn rank(s: Seq<Entry>, k: i32) -> int
    decreases s.len(),
{
    if s.len() == 0 || s[0].0 >= k {
        0
    } else {
        1 + rank(s.drop_first(), k)
    }
}

/// The entries `s` with `k` bound to `v`: in place of the entry of `k`, or
/// at the place at which `k` would stand.
pub open spec fn with_entry(s: Seq<Entry>, k: i32, v: Seq<char>) -> Seq<Entry> {
    let i = rank(s, k);
    if 0 <= i < s.len() && s[i].0 == k {
        s.update(i, (k, v))
    } else {
        s.insert(i, (k, v))
    }
}

/// The group into which `k` goes: the last group whose first key is not
/// greater than `k`, or the first group where there is none.
pub open spec fn home(g: Seq<Seq<Entry>>, k: i32) -> int
    decreases g.len(),
{
    if g.len() <= 1 {
        0
    } else if g.last().len() > 0 && g.last()[0].0 <= k {
        g.len() - 1
    } else {
        home(g.drop_last(), k)
    }
}

/// The groups of entries `g` with `k` bound to `v` in the group into which
/// `k` goes. A group that would hold more than the largest number of
/// entries is cut in two: its lower half stays in its place, and its upper
/// half makes a new group right behind it.
pub open spec fn placed(g: Seq<Seq<Entry>>, k: i32, v: Seq<char>) -> Seq<Seq<Entry>> {
    let j = home(g, k);
    let h = with_entry(g[j], k, v);
    let m = h.len() as int / 2;
    if h.len() <= MAX_KEYS {
        g.update(j, h)
    } else {
        g.subrange(0, j) + seq![h.subrange(0, m), h.subrange(m, h.len() as int)] + g.subrange(
            j + 1,
            g.len() as int,
        )
    }
}

impl Leaf {
    /// The records of the leaf as entries.
    spec fn entries(&self) -> Seq<Entry> {
        record_entries(self.records@)
    }
}

impl View for BPlusTree {
    type V = Map<i32, Seq<char>>;

    /// The map from keys to values that the tree holds.
    open spec fn view(&self) -> Map<i32, Seq<char>> {
        entries_map(self.entries())
    }
}

impl Cursor {
    /// Whether the cursor stands behind the last record.
    pub fn is_end(&self) -> (end: bool)
        ensures
            end == self.at_end(),
    {
        self.end_of_data
    }

    /// The cursor stands behind the last record.
    pub closed spec fn at_end(&self) -> bool {
        self.end_of_data
    }
}

impl BPlusTree {
    /// The entries of the tree in the order of its leaf chain.
    pub closed spec fn entries(&self) -> Seq<Entry> {
        self.root.entries(self.leaves@)
    }

    /// The number of levels of the tree.
    pub closed spec fn levels(&self) -> nat {
        self.root.height()
    }

    /// The invariants of the tree. The keys ascend along the leaf chain.
    /// Each key of an inner node is the smallest key below the subtree to
    /// its right. Each leaf names as its next leaf the one that follows it
    /// from left to right, the last one names none, and no leaf is reached
    /// twice. Every node holds at most `MAX_KEYS` keys and every node but
    /// the root at least `MIN_KEYS`. All leaves lie at the same depth, and an
    /// inner root holds a key.
    pub closed spec fn wf(&self) -> bool {
        &&& self.root.inv(self.leaves@)
        &&& linked(self.root.ids(), self.leaves@, None)
        &&& ascending(self.entries())
        &&& self.root.is_leaf || self.root.keys@.len() >= 1
    }

    /// The entries of the tree leaf by leaf, in the order of the leaf chain.
    pub closed spec fn leaf_groups(&self) -> Seq<Seq<Entry>> {
        groups(self.root.ids(), self.leaves@)
    }

    /// An empty tree: one leaf without records.
    pub fn new() -> (tree: BPlusTree)
        ensures
            tree.wf(),
            tree@ == Map::<i32, Seq<char>>::empty(),
            tree.entries() == Seq::<Entry>::empty(),
            tree.levels() == 1,
    {
        let mut leaves: Vec<Leaf> = Vec::new();
        leaves.push(Leaf { records: Vec::new(), next: None });
        let tree = BPlusTree { root: Node::new_leaf(0), leaves };
        proof {
            lemma_gather_one(0, tree.leaves@);
            assert(tree.leaves@[0].entries() =~= Seq::<Entry>::empty());
            assert(link_at(tree.root.ids(), tree.leaves@, None, 0));
            assert(tree@ =~= Map::<i32, Seq<char>>::empty());
        }
        tree
    }

    /// The tree that holds the given records, inserted in their order: of
    /// two records with one key the later one stays.
    pub fn from_records(records: &Vec<Record>) -> (tree: BPlusTree)
        ensures
            tree.wf(),
            tree@ == insert_all(Map::empty(), record_entries(records@)),
    {
        let mut tree = BPlusTree::new();
        let ghost all = record_entries(records@);
        let mut i: usize = 0;
        while i < records.len()
            invariant
                i <= records@.len(),
                all == record_entries(records@),
                tree.wf(),
                tree@ == insert_all(Map::empty(), all.subrange(0, i as int)),
            decreases records@.len() - i,
        {
            tree.insert(records[i].key, records[i].value.clone());
            proof {
                assert(all.subrange(0, i + 1).drop_last() =~= all.subrange(0, i as int));
                assert(all.subrange(0, i + 1).last() == all[i as int]);
            }
            i = i + 1;
        }
        proof {
            assert(all.subrange(0, records@.len() as int) =~= all);
        }
        tree
    }

    /// The value stored under `key`, if there is one.
    pub fn search(&self, key: i32) -> (res: Option<String>)
        requires
            self.wf(),
        ensures
            match res {
                Some(v) => self@.contains_key(key) && self@[key] == v@,
                None => !self@.contains_key(key),
            },
    {
        let mut current: &Node = &self.root;
        while !current.is_leaf
            invariant
                current.inv(self.leaves@),
                ascending(current.entries(self.leaves@)),
                has_key(self.entries(), key) == has_key(current.entries(self.leaves@), key),
                has_key(self.entries(), key) ==> entries_map(self.entries())[key] == entries_map(
                    current.entries(self.leaves@),
                )[key],
            decreases current.height(),
        {
            let pos: usize = upper_pos(&current.keys, key);
            proof {
                current.lemma_descend(self.leaves@, pos as int, key);
            }
            current = &current.children[pos];
        }
        let leaf = &self.leaves[current.leaf];
        proof {
            lemma_gather_one(current.leaf, self.leaves@);
        }
        let mut i: usize = 0;
        while i < leaf.records.len()
            invariant
                i <= leaf.records@.len(),
                forall|j: int| 0 <= j < i ==> leaf.records@[j].key != key,
                ascending(leaf.entries()),
                has_key(self.entries(), key) == has_key(leaf.entries(), key),
                has_key(self.entries(), key) ==> entries_map(self.entries())[key] == entries_map(
                    leaf.entries(),
                )[key],
            decreases leaf.records@.len() - i,
        {
            if leaf.records[i].key == key {
                proof {
                    lemma_map_at(leaf.entries(), i as int);
                }
                return Some(leaf.records[i].value.clone());
            }
            i = i + 1;
        }
        proof {
            if has_key(leaf.entries(), key) {
                let j = index_of(leaf.entries(), key);
                assert(leaf.records@[j].key == key);
            }
        }
        None
    }

    /// All records of the tree in ascending key order, read along the leaf
    /// chain from the first leaf.
    pub fn get_all_records(&self) -> (records: Vec<Record>)
        requires
            self.wf(),
        ensures
            record_entries(records@) == self.entries(),
            ascending(self.entries()),
    {
        let mut records: Vec<Record> = Vec::new();
        let mut current: &Node = &self.root;
        proof {
            self.root.lemma_ids_nonempty(self.leaves@);
        }
        while !current.is_leaf
            invariant
                current.inv(self.leaves@),
                current.ids().len() > 0,
                self.root.ids().len() > 0,
                current.ids()[0] == self.root.ids()[0],
            decreases current.height(),
        {
            proof {
                current.lemma_ids_nonempty(self.leaves@);
                assert(current.kid_ok(self.leaves@, 0));
                current.children@[0].lemma_ids_nonempty(self.leaves@);
            }
            current = &current.children[0];
        }
        let ghost ids = self.root.ids();
        let ghost mut j: int = 0;
        let mut id: usize = current.leaf;
        let mut done = false;
        proof {
            lemma_gather_one(0, self.leaves@);
            assert(ids.subrange(0, 0) =~= Seq::<usize>::empty());
            assert(record_entries(records@) =~= Seq::<Entry>::empty());
        }
        while !done
            invariant
                ids == self.root.ids(),
                linked(ids, self.leaves@, None),
                0 <= j <= ids.len(),
                !done ==> j < ids.len() && id == ids[j],
                done ==> j == ids.len(),
                record_entries(records@) == gather(ids.subrange(0, j), self.leaves@),
            decreases ids.len() - j,
        {
            proof {
                assert(link_at(ids, self.leaves@, None, j));
            }
            let leaf = &self.leaves[id];
            append_records(&mut records, &leaf.records);
            proof {
                assert(ids.subrange(0, j + 1) =~= ids.subrange(0, j) + seq![id]);
                lemma_gather_concat(ids.subrange(0, j), seq![id], self.leaves@);
                lemma_gather_one(id, self.leaves@);
            }
            match leaf.next {
                Some(n) => {
                    id = n;
                },
                None => {
                    done = true;
                },
            }
            proof {
                j = j + 1;
            }
        }
        proof {
            assert(ids.subrange(0, ids.len() as int) =~= ids);
        }
        records
    }

    /// The keys of the root: the separators of an inner root, none of a
    /// root that is a leaf.
    pub closed spec fn root_keys(&self) -> Seq<i32> {
        self.root.keys@
    }

    /// The number of subtrees of the root: none where the root is a leaf.
    pub closed spec fn fanout(&self) -> nat {
        self.root.children@.len()
    }

    /// Putting `key` into the tree cuts every node on the way from the
    /// leaf of `key` up to the root: the leaf is full and does not hold
    /// `key`, and every inner node above it is full.
    pub closed spec fn overflows(&self, key: i32) -> bool {
        self.root.overflows(self.leaves@, key)
    }

    /// The key that moves up from the root where putting `key` into the
    /// tree cuts the root: the middle one of the keys of the root with
    /// the new key among them.
    pub closed spec fn raised(&self, key: i32) -> i32 {
        self.root.raised(self.leaves@, key)
    }

    /// The keys of an inner root after `key` was put into the tree, where
    /// the root is not cut: its keys, with the key that comes up from the
    /// subtree of `key` at its place where that subtree is cut.
    pub closed spec fn root_keys_with(&self, key: i32) -> Seq<i32> {
        if self.root.kid_overflows(self.leaves@, key) {
            self.root.widened(self.leaves@, key)
        } else {
            self.root.keys@
        }
    }

    /// The keys of the root.
    pub fn root_separators(&self) -> (keys: Vec<i32>)
        ensures
            keys@ == self.root_keys(),
    {
        self.root.keys.clone()
    }

    /// The number of subtrees of the root.
    pub fn root_fanout(&self) -> (n: usize)
        ensures
            n == self.fanout(),
    {
        self.root.children.len()
    }

    /// Binds `key` to `value`, whether or not the tree held the key, and
    /// gives the value that the key had. The tree grows by a level exactly
    /// where every node on the way to the leaf of `key` is cut; the new
    /// root then has one key, the one that moved up, and two subtrees. A
    /// root that is not cut keeps its keys, with the key that came up from
    /// below among them if one did.
    pub fn insert(&mut self, key: i32, value: String) -> (previous: Option<String>)
        requires
            old(self).wf(),
        ensures
            final(self).wf(),
            final(self)@ == old(self)@.insert(key, value@),
            match previous {
                Some(p) => old(self)@.contains_key(key) && p@ == old(self)@[key],
                None => !old(self)@.contains_key(key),
            },
            final(self).levels() == old(self).levels() || final(self).levels() == old(self).levels()
                + 1,
            final(self).levels() == old(self).levels() + 1 <==> old(self).overflows(key),
            old(self)@.contains_key(key) ==> !old(self).overflows(key),
            old(self).overflows(key) ==> final(self).root_keys() == seq![old(self).raised(key)]
                && final(self).fanout() == 2,
            !old(self).overflows(key) ==> final(self).fanout() == old(self).fanout() + if old(
                self,
            ).root_keys_with(key).len() > old(self).root_keys().len() {
                1nat
            } else {
                0nat
            } && (old(self).levels() > 1 ==> final(self).root_keys() == old(self).root_keys_with(
                key,
            )),
            old(self).levels() == 1 ==> (final(self).levels() == 2 <==> !old(self)@.contains_key(key)
                && old(self).entries().len() == MAX_KEYS),
            final(self).leaf_groups() == placed(old(self).leaf_groups(), key, value@),
    {
        let previous = self.search(key);
        let ghost a = self.root;
        proof {
            a.lemma_leaf_height(self.leaves@);
            if a.is_leaf {
                lemma_gather_one(a.leaf, self.leaves@);
            }
        }
        let res = Self::insert_rec(&mut self.root, &mut self.leaves, key, value, Ghost(None));
        if let Some(split) = res {
            let ghost left = self.root;
            let ghost right = split.node;
            let mut new_root = Node::new_internal();
            new_root.keys.push(split.key);
            core::mem::swap(&mut self.root, &mut new_root);
            self.root.children.push(new_root);
            self.root.children.push(split.node);
            proof {
                let root = self.root;
                let arena = self.leaves@;
                assert(root.children@[0] == left);
                assert(root.children@[1] == right);
                assert(root.kid_ids() =~= seq![left.ids()] + seq![right.ids()]);
                lemma_flatten_concat(seq![left.ids()], seq![right.ids()]);
                seq![left.ids()].lemma_flatten_one_element();
                seq![right.ids()].lemma_flatten_one_element();
                assert(root.ids() == left.ids() + right.ids());
                left.lemma_leaf_height(arena);
                assert forall|i: int| 0 <= i < root.children@.len() implies {
                    &&& (#[trigger] root.children@[i]).inv(arena)
                    &&& root.children@[i].height() == root.children@[0].height()
                    &&& root.kid_full(arena, i)
                    &&& root.kid_sep(arena, i)
                } by {}
            }
        }
        previous
    }

    /// The place, among the leaves of the tree, of the first of the leaves
    /// that stand below one node with the leaf of `key`.
    pub closed spec fn family_start(&self, key: i32) -> int {
        self.root.family(key).0
    }

    /// The place behind the last of the leaves that stand below one node
    /// with the leaf of `key`.
    pub closed spec fn family_end(&self, key: i32) -> int {
        self.root.family(key).1
    }

    /// Removes `key` and says whether the tree held it. A key that the tree
    /// does not hold is looked up only: the tree is not touched. A leaf
    /// that can spare the record only loses it. Else the leaf takes a
    /// record from the leaf before it below the same node, if that one can
    /// spare one; else from the leaf behind it, if that one can; else it
    /// becomes one with the leaf before it, or with the leaf behind it
    /// where it is the first below its node.
    pub fn delete(&mut self, key: i32) -> (removed: bool)
        requires
            old(self).wf(),
        ensures
            final(self).wf(),
            removed == old(self)@.contains_key(key),
            final(self)@ == old(self)@.remove(key),
            !removed ==> *final(self) == *old(self),
            final(self).levels() == old(self).levels() || final(self).levels() + 1 == old(
                self).levels(),
            removed && spare(old(self).leaf_groups(), key) ==> final(self).leaf_groups() == pruned(
                old(self).leaf_groups(),
                key,
            ) && final(self).levels() == old(self).levels(),
            removed ==> 0 <= old(self).family_start(key) <= home(old(self).leaf_groups(), key) < old(
                self,
            ).family_end(key) <= old(self).leaf_groups().len(),
            removed ==> final(self).leaf_groups() == taken_out(
                old(self).leaf_groups(),
                key,
                old(self).family_start(key),
                old(self).family_end(key),
            ),
    {
        if self.search(key).is_none() {
            assert(self@.remove(key) =~= self@);
            return false;
        }
        let res = Self::delete_rec(&mut self.root, &mut self.leaves, key, Ghost(None));
        if !self.root.is_leaf && self.root.keys.is_empty() {
            let ghost top = self.root;
            let child = self.root.children.remove(0);
            self.root = child;
            proof {
                assert(top.children@[0].inv(self.leaves@));
                assert(top.kid_full(self.leaves@, 0));
                top.lemma_ids_first(child);
                assert(top.kid_ids().drop_first() =~= Seq::<Seq<usize>>::empty());
                assert(top.ids() =~= child.ids());
            }
        }
        res
    }

    /// The number of levels of the tree, or the largest number that fits
    /// where the tree has more.
    pub fn height(&self) -> (h: usize)
        requires
            self.wf(),
        ensures
            h as nat == self.levels() || (h == usize::MAX && self.levels() >= usize::MAX),
    {
        let mut current: &Node = &self.root;
        let mut h: usize = 1;
        while !current.is_leaf
            invariant
                current.inv(self.leaves@),
                h as nat + current.height() == self.root.height() + 1 || (h == usize::MAX && h
                    as nat + current.height() <= self.root.height() + 1),
            decreases current.height(),
        {
            proof {
                assert(current.children@[0].inv(self.leaves@));
                current.children@[0].lemma_leaf_height(self.leaves@);
            }
            current = &current.children[0];
            if h < usize::MAX {
                h = h + 1;
            }
        }
        proof {
            current.lemma_leaf_height(self.leaves@);
        }
        h
    }

    /// The numbers of records of the leaves, in the order of the leaf chain.
    pub fn leaf_sizes(&self) -> (sizes: Vec<usize>)
        requires
            self.wf(),
        ensures
            sizes@.len() == self.leaf_groups().len(),
            forall|j: int| 0 <= j < sizes@.len() ==> sizes@[j] == (#[trigger] self.leaf_groups()[j]).len(),
    {
        let mut sizes: Vec<usize> = Vec::new();
        let mut current: &Node = &self.root;
        proof {
            self.root.lemma_ids_nonempty(self.leaves@);
        }
        while !current.is_leaf
            invariant
                current.inv(self.leaves@),
                current.ids().len() > 0,
                self.root.ids().len() > 0,
                current.ids()[0] == self.root.ids()[0],
            decreases current.height(),
        {
            proof {
                current.lemma_ids_nonempty(self.leaves@);
                assert(current.children@[0].inv(self.leaves@));
                current.children@[0].lemma_ids_nonempty(self.leaves@);
            }
            current = &current.children[0];
        }
        let ghost ids = self.root.ids();
        let ghost mut j: int = 0;
        let mut id: usize = current.leaf;
        let mut done = false;
        while !done
            invariant
                ids == self.root.ids(),
                linked(ids, self.leaves@, None),
                0 <= j <= ids.len(),
                !done ==> j < ids.len() && id == ids[j],
                done ==> j == ids.len(),
                sizes@.len() == j,
                forall|k: int|
                    0 <= k < j ==> sizes@[k] == (#[trigger] self.leaf_groups()[k]).len(),
            decreases ids.len() - j,
        {
            proof {
                assert(link_at(ids, self.leaves@, None, j));
            }
            let leaf = &self.leaves[id];
            sizes.push(leaf.records.len());
            match leaf.next {
                Some(n) => {
                    id = n;
                },
                None => {
                    done = true;
                },
            }
            proof {
                j = j + 1;
            }
        }
        sizes
    }

    /// Whether the invariants of the tree hold, found out by going through
    /// the whole tree and along the leaf chain.
    pub fn invariants_hold(&self) -> (ok: bool)
        ensures
            ok == self.wf(),
    {
        if !Self::inv_holds(&self.root, &self.leaves) {
            return false;
        }
        if !self.root.is_leaf && self.root.keys.len() == 0 {
            return false;
        }
        let mut ids: Vec<usize> = Vec::new();
        Self::collect_ids(&self.root, &mut ids);
        assert(Seq::<usize>::empty() + self.root.ids() =~= self.root.ids());
        proof {
            assert forall|j: int| 0 <= j < ids@.len() implies (#[trigger] ids@[j])
                < self.leaves@.len() by {
                self.root.lemma_leaves_sized(self.leaves@, j);
            }
        }
        if !Self::links_hold(&ids, &self.leaves) {
            return false;
        }
        let mut records: Vec<Record> = Vec::new();
        let mut j: usize = 0;
        proof {
            lemma_gather_one(0, self.leaves@);
            assert(ids@.subrange(0, 0) =~= Seq::<usize>::empty());
            assert(record_entries(records@) =~= Seq::<Entry>::empty());
        }
        while j < ids.len()
            invariant
                j <= ids@.len(),
                forall|k: int| 0 <= k < ids@.len() ==> (#[trigger] ids@[k]) < self.leaves@.len(),
                record_entries(records@) == gather(ids@.subrange(0, j as int), self.leaves@),
            decreases ids@.len() - j,
        {
            let id: usize = ids[j];
            append_records(&mut records, &self.leaves[id].records);
            proof {
                assert(ids@.subrange(0, j + 1) =~= ids@.subrange(0, j as int) + seq![id]);
                lemma_gather_concat(ids@.subrange(0, j as int), seq![id], self.leaves@);
                lemma_gather_one(id, self.leaves@);
            }
            j = j + 1;
        }
        assert(ids@.subrange(0, ids@.len() as int) =~= ids@);
        is_ascending(&records)
    }

    /// The entries of a well-formed tree ascend by key, so that a full scan
    /// hands out every key once.
    pub proof fn lemma_entries_ascending(&self)
        requires
            self.wf(),
        ensures
            ascending(self.entries()),
    {
    }

    /// A key that was deleted is not found: of a tree that holds what
    /// another held but for `key`, the view does not hold `key`.
    pub proof fn lemma_deleted_not_found(before: BPlusTree, after: BPlusTree, key: i32)
        requires
            after@ == before@.remove(key),
        ensures
            !after@.contains_key(key),
    {
    }

    /// A full scan after insertions into an empty tree: a tree whose view is
    /// what the insertions `ops` build holds exactly the inserted keys, in
    /// ascending order, each with the value written for it last.
    pub proof fn lemma_inserts_then_scan(&self, ops: Seq<Entry>)
        requires
            self.wf(),
            self@ == insert_all(Map::empty(), ops),
        ensures
            ascending(self.entries()),
            forall|k: i32| has_key(self.entries(), k) <==> has_key(ops, k),
            forall|i: int|
                0 <= i < self.entries().len() ==> last_written(ops, (#[trigger] self.entries()[i]).0)
                    == Some(self.entries()[i].1),
    {
        lemma_scan_after_inserts(ops, self.entries());
    }

    /// The entries of the tree are those of its leaves, one leaf after the
    /// other. A tree of more than one leaf has in each leaf at least
    /// `MIN_KEYS` records, and no tree has more than `MAX_KEYS` in a leaf.
    pub proof fn lemma_leaf_groups(&self)
        requires
            self.wf(),
        ensures
            self.entries() == self.leaf_groups().flatten(),
            self.leaf_groups().len() >= 1,
            forall|j: int|
                0 <= j < self.leaf_groups().len() ==> (#[trigger] self.leaf_groups()[j]).len()
                    <= MAX_KEYS,
            self.leaf_groups().len() > 1 ==> forall|j: int|
                0 <= j < self.leaf_groups().len() ==> (#[trigger] self.leaf_groups()[j]).len()
                    >= MIN_KEYS,
            self.leaf_groups().len() > 1 <==> self.levels() > 1,
    {
        let ids = self.root.ids();
        let arena = self.leaves@;
        self.root.lemma_ids_nonempty(arena);
        self.root.lemma_leaf_height(arena);
        assert forall|j: int| 0 <= j < self.leaf_groups().len() implies (
        #[trigger] self.leaf_groups()[j]).len() <= MAX_KEYS && (self.leaf_groups().len() > 1
            ==> self.leaf_groups()[j].len() >= MIN_KEYS) by {
            self.root.lemma_leaves_sized(arena, j);
            if !self.root.is_leaf {
                self.root.lemma_leaves_full(arena, j);
            }
        }
        if !self.root.is_leaf {
            self.root.lemma_two_leaves(arena);
        }
    }

    /// Where the leaf that holds a key cannot spare an entry, taking the
    /// key out moves entries between leaves: a tree that is well formed
    /// afterwards and has more than one leaf does not have the leaves of
    /// before with only the entry of the key gone.
    pub proof fn lemma_delete_at_floor_rebalances(before: BPlusTree, after: BPlusTree, key: i32)
        requires
            before.wf(),
            after.wf(),
            !spare(before.leaf_groups(), key),
            after.leaf_groups().len() > 1,
        ensures
            after.leaf_groups() != pruned(before.leaf_groups(), key),
    {
        let g = before.leaf_groups();
        before.lemma_leaf_groups();
        after.lemma_leaf_groups();
        let j = choose|j: int| 0 <= j < g.len() && has_key(#[trigger] g[j], key) && !(g[j].len() > MIN_KEYS);
        assert(pruned(g, key)[j] == without(g[j], key));
        if after.leaf_groups() == pruned(g, key) {
            assert(after.leaf_groups()[j].len() >= MIN_KEYS);
        }
    }

    /// The cursor names a leaf of the chain and a slot of it, and stands at
    /// the end exactly if no record follows.
    pub closed spec fn valid_cursor(&self, c: &Cursor) -> bool {
        let ids = self.root.ids();
        let leaf = self.leaves@[c.leaf as int];
        &&& 0 <= c.place@ < ids.len()
        &&& ids[c.place@] == c.leaf
        &&& c.slot <= leaf.records@.len()
        &&& !c.end_of_data ==> c.slot < leaf.records@.len()
        &&& c.end_of_data ==> c.place@ == ids.len() - 1 && c.slot == leaf.records@.len()
    }

    /// The number of records before the cursor.
    pub closed spec fn position(&self, c: &Cursor) -> nat {
        gather(self.root.ids().subrange(0, c.place@), self.leaves@).len() + c.slot as nat
    }

    /// The entries before the leaf at the place `j` of the chain, those of
    /// the leaf, and those behind it make up the entries of the tree.
    proof fn lemma_chain_at(&self, j: int)
        requires
            0 <= j < self.root.ids().len(),
        ensures
            self.entries() == gather(self.root.ids().subrange(0, j), self.leaves@)
                + self.leaves@[self.root.ids()[j] as int].entries() + gather(
                self.root.ids().subrange(j + 1, self.root.ids().len() as int),
                self.leaves@,
            ),
            gather(self.root.ids().subrange(0, j + 1), self.leaves@) == gather(
                self.root.ids().subrange(0, j),
                self.leaves@,
            ) + self.leaves@[self.root.ids()[j] as int].entries(),
            j == self.root.ids().len() - 1 ==> gather(
                self.root.ids().subrange(j + 1, self.root.ids().len() as int),
                self.leaves@,
            ).len() == 0,
            j == 0 ==> gather(self.root.ids().subrange(0, j), self.leaves@).len() == 0,
    {
        let ids = self.root.ids();
        let arena = self.leaves@;
        let a = ids.subrange(0, j);
        let b = ids.subrange(j + 1, ids.len() as int);
        assert(ids =~= a + seq![ids[j]] + b);
        assert(ids.subrange(0, j + 1) =~= a + seq![ids[j]]);
        lemma_gather_concat(a + seq![ids[j]], b, arena);
        lemma_gather_concat(a, seq![ids[j]], arena);
        lemma_gather_one(ids[j], arena);
        if j == ids.len() - 1 {
            assert(b =~= Seq::<usize>::empty());
        }
        if j == 0 {
            assert(a =~= Seq::<usize>::empty());
        }
    }

    /// A cursor before the first record, or at the end where the tree holds
    /// none.
    pub fn start(&self) -> (c: Cursor)
        requires
            self.wf(),
        ensures
            self.valid_cursor(&c),
            self.position(&c) == 0,
            c.at_end() == (self.entries().len() == 0),
    {
        let mut current: &Node = &self.root;
        proof {
            self.root.lemma_ids_nonempty(self.leaves@);
        }
        while !current.is_leaf
            invariant
                current.inv(self.leaves@),
                current.ids().len() > 0,
                self.root.ids().len() > 0,
                current.ids()[0] == self.root.ids()[0],
            decreases current.height(),
        {
            proof {
                current.lemma_ids_nonempty(self.leaves@);
                assert(current.children@[0].inv(self.leaves@));
                current.children@[0].lemma_ids_nonempty(self.leaves@);
            }
            current = &current.children[0];
        }
        let leaf: usize = current.leaf;
        let empty = self.leaves[leaf].records.len() == 0;
        proof {
            self.lemma_chain_at(0);
            assert(link_at(self.root.ids(), self.leaves@, None, 0));
            if empty && self.root.ids().len() > 1 {
                self.root.lemma_leaves_full(self.leaves@, 0);
                self.root.lemma_leaf_height(self.leaves@);
            }
        }
        Cursor { leaf, slot: 0, end_of_data: empty, place: Ghost(0) }
    }

    /// Moves the cursor to the next record: to the next slot of its leaf,
    /// or from the last slot of a leaf to the first slot of the next leaf,
    /// or to the end where there is no next leaf. A cursor at the end
    /// stays there.
    pub fn advance(&self, c: &mut Cursor)
        requires
            self.wf(),
            self.valid_cursor(old(c)),
        ensures
            self.valid_cursor(final(c)),
            self.position(final(c)) == if self.position(old(c)) < self.entries().len() {
                self.position(old(c)) + 1
            } else {
                self.position(old(c))
            },
            final(c).at_end() == (self.position(final(c)) == self.entries().len()),
    {
        let ghost ids = self.root.ids();
        let ghost j = c.place@;
        proof {
            self.lemma_chain_at(j);
            assert(link_at(ids, self.leaves@, None, j));
        }
        if c.end_of_data {
            return ;
        }
        let len: usize = self.leaves[c.leaf].records.len();
        c.slot = c.slot + 1;
        if c.slot >= len {
            match self.leaves[c.leaf].next {
                Some(n) => {
                    proof {
                        self.lemma_chain_at(j + 1);
                        self.root.lemma_leaf_height(self.leaves@);
                        self.root.lemma_leaves_full(self.leaves@, j + 1);
                        assert(ids.subrange(0, j + 1) =~= ids.subrange(0, j) + seq![ids[j]]);
                    }
                    c.leaf = n;
                    c.slot = 0;
                    proof {
                        c.place = Ghost(j + 1);
                    }
                },
                None => {
                    c.end_of_data = true;
                },
            }
        }
    }

    /// The record at the cursor, or nothing at the end.
    pub fn value(&self, c: &Cursor) -> (res: Option<Record>)
        requires
            self.wf(),
            self.valid_cursor(c),
        ensures
            match res {
                Some(r) => self.position(c) < self.entries().len() && r.entry()
                    == self.entries()[self.position(c) as int],
                None => self.position(c) == self.entries().len(),
            },
    {
        proof {
            self.lemma_chain_at(c.place@);
            assert(link_at(self.root.ids(), self.leaves@, None, c.place@));
        }
        if c.end_of_data {
            return None;
        }
        let r = &self.leaves[c.leaf].records[c.slot];
        proof {
            let l = gather(self.root.ids().subrange(0, c.place@), self.leaves@);
            let m = self.leaves@[c.leaf as int].entries();
            let t = gather(
                self.root.ids().subrange(c.place@ + 1, self.root.ids().len() as int),
                self.leaves@,
            );
            assert((l + m + t)[l.len() + c.slot] == m[c.slot as int]);
        }
        Some(Record { key: r.key, value: r.value.clone() })
    }
}

} // verus!
