//! Reading a B-tree: looking a key up, listing the records, and going
//! through the nodes to see whether they are well shaped.

use vstd::prelude::*;
use crate::btree::{key_rows, record_entries, BTree, MAX_KEYS, MIN_KEYS, Node, Record};
use crate::btree::model::find_pos;
use crate::entries::{
    entries_map, has_key, index_of, left_of, lemma_ends, lemma_left_step, right_of, Entry,
};
use crate::flat::{before, lemma_before_step, lemma_flat_ends};

verus! {

impl BTree {
    pub(super) fn search_rec(node: &Node, key: i32) -> (res: Option<String>)
        requires
            node.wf(),
        ensures
            match res {
                Some(v) => has_key(node.entries(), key) && entries_map(node.entries())[key] == v@,
                None => !has_key(node.entries(), key),
            },
        decreases node.height(),
    {
        let pos: usize = find_pos(&node.keys, key);
        if pos < node.keys.len() && node.keys[pos] == key {
            proof {
                node.lemma_own_found(pos as int);
            }
            return Some(node.values[pos].clone());
        }
        if node.is_leaf {
            proof {
                let s = node.own();
                if has_key(s, key) {
                    let i = index_of(s, key);
                    if i >= pos {
                        assert(s[pos as int].0 <= s[i].0);
                    }
                }
            }
            return None;
        }
        proof {
            node.lemma_descend(pos as int, key);
        }
        Self::search_rec(&node.children[pos], key)
    }

    /// Whether the node and all nodes below it are well shaped.
    pub(super) fn is_shaped(node: &Node) -> (ok: bool)
        ensures
            ok == node.shaped(),
        decreases node,
    {
        if node.keys.len() != node.values.len() || node.keys.len() > MAX_KEYS {
            return false;
        }
        if node.is_leaf {
            return node.children.len() == 0;
        }
        if node.children.len() != node.keys.len() + 1 {
            return false;
        }
        let mut i: usize = 0;
        while i < node.children.len()
            invariant
                !node.is_leaf,
                node.keys@.len() == node.values@.len(),
                node.keys@.len() <= MAX_KEYS,
                node.children@.len() == node.keys@.len() + 1,
                i <= node.children@.len(),
                forall|j: int|
                    0 <= j < i ==> {
                        &&& (#[trigger] node.children@[j]).shaped()
                        &&& node.children@[j].keys@.len() >= MIN_KEYS
                        &&& node.children@[j].height() == node.children@[0].height()
                    },
            decreases node.children@.len() - i,
        {
            let child = &node.children[i];
            if !Self::is_shaped(child) || child.keys.len() < MIN_KEYS || !Self::same_height(
                child,
                &node.children[0],
            ) {
                assert(!node.kids_shaped());
                return false;
            }
            i = i + 1;
        }
        true
    }

    /// Whether two nodes are equally high.
    pub(super) fn same_height(a: &Node, b: &Node) -> (same: bool)
        ensures
            same == (a.height() == b.height()),
    {
        let mut x: &Node = a;
        let mut y: &Node = b;
        while !(x.is_leaf || x.children.len() == 0) && !(y.is_leaf || y.children.len() == 0)
            invariant
                (x.height() == y.height()) == (a.height() == b.height()),
            decreases x.height(),
        {
            x = &x.children[0];
            y = &y.children[0];
        }
        proof {
            if !(x.is_leaf || x.children@.len() == 0) {
                assert(x.children@[0].height() >= 1);
            }
            if !(y.is_leaf || y.children@.len() == 0) {
                assert(y.children@[0].height() >= 1);
            }
        }
        (x.is_leaf || x.children.len() == 0) && (y.is_leaf || y.children.len() == 0)
    }

    pub(super) fn collect_records(node: &Node, records: &mut Vec<Record>)
        requires
            node.shaped(),
        ensures
            record_entries(final(records)@) == record_entries(old(records)@) + node.entries(),
        decreases node.height(),
    {
        let ghost start = record_entries(records@);
        let n: usize = node.keys.len();
        let mut i: usize = 0;
        proof {
            lemma_ends(node.kids(), node.own());
            assert(start + Seq::<Entry>::empty() =~= start);
            assert(node.own().subrange(0, 0) =~= Seq::<Entry>::empty());
        }
        while i < n
            invariant
                i <= n,
                n == node.keys@.len(),
                node.shaped(),
                record_entries(records@) == start + (if node.is_leaf {
                    node.own().subrange(0, i as int)
                } else {
                    left_of(node.kids(), node.own(), i as int)
                }),
            decreases n - i,
        {
            let ghost sofar = record_entries(records@);
            if !node.is_leaf {
                proof {
                    assert(node.children@[i as int].shaped());
                    node.lemma_leaf_height();
                    node.children@[i as int].lemma_leaf_height();
                }
                Self::collect_records(&node.children[i], records);
            }
            let ghost grown = record_entries(records@);
            records.push(Record { key: node.keys[i], value: node.values[i].clone() });
            proof {
                assert(record_entries(records@) =~= grown.push(node.own()[i as int]));
                if node.is_leaf {
                    assert(node.own().subrange(0, i + 1) =~= node.own().subrange(0, i as int).push(
                        node.own()[i as int],
                    ));
                } else {
                    lemma_left_step(node.kids(), node.own(), i + 1);
                    assert(record_entries(records@) =~= start + left_of(
                        node.kids(),
                        node.own(),
                        i + 1,
                    ));
                }
            }
            i = i + 1;
        }
        if !node.is_leaf && !node.children.is_empty() {
            proof {
                assert(node.children@[n as int].shaped());
                node.lemma_leaf_height();
                node.children@[n as int].lemma_leaf_height();
                node.lemma_around_child(n as int);
            }
            Self::collect_records(&node.children[node.children.len() - 1], records);
            proof {
                let l = left_of(node.kids(), node.own(), n as int);
                let r = right_of(node.kids(), node.own(), n as int);
                assert(start + l + node.kids()[n as int] =~= start + (l + node.kids()[n as int] + r));
            }
        } else {
            proof {
                assert(node.own().subrange(0, n as int) =~= node.own());
            }
        }
    }

    /// Puts the keys of the nodes below and in `node`, node by node,
    /// behind the rows of `out`.
    pub(super) fn collect_layout(node: &Node, out: &mut Vec<Vec<i32>>)
        ensures
            key_rows(final(out)@) == key_rows(old(out)@) + node.layout(),
        decreases node,
    {
        let ghost start = key_rows(out@);
        let mut keys: Vec<i32> = Vec::new();
        let mut k: usize = 0;
        while k < node.keys.len()
            invariant
                k <= node.keys@.len(),
                keys@ == node.keys@.subrange(0, k as int),
            decreases node.keys@.len() - k,
        {
            keys.push(node.keys[k]);
            assert(node.keys@.subrange(0, k + 1) =~= node.keys@.subrange(0, k as int).push(
                node.keys@[k as int],
            ));
            k = k + 1;
        }
        assert(node.keys@.subrange(0, node.keys@.len() as int) =~= node.keys@);
        out.push(keys);
        let ghost head = start + seq![node.keys@];
        let mut i: usize = 0;
        proof {
            lemma_flat_ends(node.kid_layouts());
            assert(key_rows(out@) =~= head + before(node.kid_layouts(), 0));
        }
        while i < node.children.len()
            invariant
                i <= node.children@.len(),
                key_rows(out@) == head + before(node.kid_layouts(), i as int),
            decreases node.children@.len() - i,
        {
            Self::collect_layout(&node.children[i], out);
            proof {
                lemma_before_step(node.kid_layouts(), i + 1);
                assert(key_rows(out@) =~= head + before(node.kid_layouts(), i + 1));
            }
            i = i + 1;
        }
        proof {
            lemma_flat_ends(node.kid_layouts());
            assert(head + node.kid_layouts().flatten() =~= start + node.layout());
        }
    }
}

} // verus!
