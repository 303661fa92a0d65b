//! How the contracts of the B+ tree see its nodes and leaves: the leaves
//! below a node in their order, the entries that they hold, the links
//! between them, and the invariant of a subtree.

use vstd::prelude::*;
use crate::bptree::{home, placed, pruned, rank, spare, taken_out, with_entry, without, Leaf, Node};
use crate::btree::{record_entries, MAX_KEYS, MIDDLE, MIN_KEYS, Record};
use crate::entries::{
    above, ascending, below, entries_map, has_key, lemma_has_key_concat, lemma_middle_lookup,
    Entry,
};
use crate::flat::{
    after, before, lemma_after_contains, lemma_after_frame, lemma_after_step,
    lemma_before_contains, lemma_before_frame, lemma_concat_contains, lemma_concat_distinct,
    lemma_flat_at, lemma_flat_contains, lemma_flat_ends, lemma_flat_singles,
};
use vstd::seq_lib::lemma_flatten_concat;

verus! {

/// The entries of the leaves with the numbers `ids`, in the order of `ids`.
pub(super) open spec fn gather(ids: Seq<usize>, arena: Seq<Leaf>) -> Seq<Entry> {
    ids.map_values(|id: usize| arena[id as int].entries()).flatten()
}

/// The first of `ids`, or `exit` where there is none.
pub(super) open spec fn head_or(ids: Seq<usize>, exit: Option<usize>) -> Option<usize> {
    if ids.len() > 0 {
        Some(ids[0])
    } else {
        exit
    }
}

/// The leaf that follows the leaf at the place `j` of `ids`.
pub(super) open spec fn next_of(ids: Seq<usize>, j: int, exit: Option<usize>) -> Option<usize> {
    if j + 1 < ids.len() {
        Some(ids[j + 1])
    } else {
        exit
    }
}

/// The leaves `ids` are leaves of the arena, none occurs twice, each names
/// the one behind it as its next leaf, and the last one names `exit`.
pub(super) open spec fn linked(ids: Seq<usize>, arena: Seq<Leaf>, exit: Option<usize>) -> bool {
    &&& ids.no_duplicates()
    &&& forall|j: int| 0 <= j < ids.len() ==> #[trigger] link_at(ids, arena, exit, j)
}

/// The leaf at the place `j` of `ids` is a leaf of the arena and names the
/// leaf that follows it.
pub(super) open spec fn link_at(ids: Seq<usize>, arena: Seq<Leaf>, exit: Option<usize>, j: int) -> bool {
    ids[j] < arena.len() && arena[ids[j] as int].next == next_of(ids, j, exit)
}

/// How the leaves below a node may change: the arena grows only, leaves
/// that are not below the node stay as they are, the leaves below it
/// afterwards were below it before or are new, the first one is the same,
/// and they are linked in their order.
pub(super) open spec fn grown(
    ids: Seq<usize>,
    arena: Seq<Leaf>,
    ids2: Seq<usize>,
    arena2: Seq<Leaf>,
    exit: Option<usize>,
) -> bool {
    &&& arena2.len() >= arena.len()
    &&& forall|id: usize| id < arena.len() && !ids.contains(id) ==> arena2[id as int] == arena[id as int]
    &&& forall|j: int|
        0 <= j < ids2.len() ==> ids.contains(#[trigger] ids2[j]) || ids2[j] >= arena.len()
    &&& ids.len() > 0
    &&& ids2.len() > 0
    &&& ids2[0] == ids[0]
    &&& linked(ids2, arena2, exit)
}

pub(super) proof fn lemma_gather_concat(a: Seq<usize>, b: Seq<usize>, arena: Seq<Leaf>)
    ensures
        gather(a + b, arena) == gather(a, arena) + gather(b, arena),
{
    let f = |id: usize| arena[id as int].entries();
    assert((a + b).map_values(f) =~= a.map_values(f) + b.map_values(f));
    lemma_flatten_concat(a.map_values(f), b.map_values(f));
}

pub(super) proof fn lemma_gather_one(id: usize, arena: Seq<Leaf>)
    ensures
        gather(seq![id], arena) == arena[id as int].entries(),
        gather(Seq::<usize>::empty(), arena) == Seq::<Entry>::empty(),
{
    let f = |id: usize| arena[id as int].entries();
    assert(seq![id].map_values(f) =~= seq![arena[id as int].entries()]);
    seq![arena[id as int].entries()].lemma_flatten_one_element();
    assert(Seq::<usize>::empty().map_values(f) =~= Seq::<Seq<Entry>>::empty());
}

pub(super) proof fn lemma_gather_frame(ids: Seq<usize>, arena: Seq<Leaf>, arena2: Seq<Leaf>)
    requires
        forall|j: int| 0 <= j < ids.len() ==> arena2[(#[trigger] ids[j]) as int] == arena[ids[j] as int],
    ensures
        gather(ids, arena2) == gather(ids, arena),
{
    let f = |id: usize| arena[id as int].entries();
    let f2 = |id: usize| arena2[id as int].entries();
    assert(ids.map_values(f) =~= ids.map_values(f2));
}

/// The parts of a linked run of leaves are linked, and have no leaf in
/// common.
pub(super) proof fn lemma_linked_split(a: Seq<usize>, b: Seq<usize>, arena: Seq<Leaf>, exit: Option<usize>)
    requires
        linked(a + b, arena, exit),
    ensures
        linked(a, arena, head_or(b, exit)),
        linked(b, arena, exit),
        forall|x: usize| !(a.contains(x) && b.contains(x)),
{
    let s = a + b;
    lemma_concat_distinct(a, b);
    assert forall|j: int| 0 <= j < a.len() implies #[trigger] link_at(
        a,
        arena,
        head_or(b, exit),
        j,
    ) by {
        assert(link_at(s, arena, exit, j));
        assert(s[j] == a[j]);
        if j + 1 < a.len() {
            assert(s[j + 1] == a[j + 1]);
        } else if b.len() > 0 {
            assert(s[j + 1] == b[0]);
        }
    }
    assert forall|j: int| 0 <= j < b.len() implies #[trigger] link_at(b, arena, exit, j) by {
        assert(link_at(s, arena, exit, a.len() + j));
        assert(s[a.len() + j] == b[j]);
        if j + 1 < b.len() {
            assert(s[a.len() + j + 1] == b[j + 1]);
        }
    }
}

/// Two linked runs of leaves without a common leaf, the first leading to
/// the second, make one linked run.
pub(super) proof fn lemma_linked_join(a: Seq<usize>, b: Seq<usize>, arena: Seq<Leaf>, exit: Option<usize>)
    requires
        linked(a, arena, head_or(b, exit)),
        linked(b, arena, exit),
        forall|x: usize| !(a.contains(x) && b.contains(x)),
    ensures
        linked(a + b, arena, exit),
{
    let s = a + b;
    lemma_concat_distinct(a, b);
    assert forall|j: int| 0 <= j < s.len() implies #[trigger] link_at(s, arena, exit, j) by {
        if j < a.len() {
            assert(link_at(a, arena, head_or(b, exit), j));
            assert(s[j] == a[j]);
            if j + 1 < a.len() {
                assert(s[j + 1] == a[j + 1]);
            } else if b.len() > 0 {
                assert(s[j + 1] == b[0]);
            }
        } else {
            assert(link_at(b, arena, exit, j - a.len()));
            assert(s[j] == b[j - a.len()]);
            if j + 1 < s.len() {
                assert(s[j + 1] == b[j + 1 - a.len()]);
            }
        }
    }
}

/// A linked run of leaves stays linked where the arena keeps its leaves.
pub(super) proof fn lemma_linked_frame(
    ids: Seq<usize>,
    arena: Seq<Leaf>,
    arena2: Seq<Leaf>,
    exit: Option<usize>,
)
    requires
        linked(ids, arena, exit),
        arena2.len() >= arena.len(),
        forall|j: int|
            0 <= j < ids.len() ==> arena2[(#[trigger] ids[j]) as int].next == arena[ids[j] as int].next,
    ensures
        linked(ids, arena2, exit),
{
    assert forall|j: int| 0 <= j < ids.len() implies #[trigger] link_at(ids, arena2, exit, j) by {
        assert(link_at(ids, arena, exit, j));
    }
}

/// The leaves below one subtree change as `grown` says; the leaves before
/// and behind them then change with them as `grown` says, and stay as they
/// are themselves.
pub(super) proof fn lemma_replace_ids(
    l: Seq<usize>,
    x: Seq<usize>,
    x2: Seq<usize>,
    r: Seq<usize>,
    arena: Seq<Leaf>,
    arena2: Seq<Leaf>,
    exit: Option<usize>,
)
    requires
        linked(l + x + r, arena, exit),
        grown(x, arena, x2, arena2, head_or(r, exit)),
    ensures
        grown(l + x + r, arena, l + x2 + r, arena2, exit),
        forall|j: int| 0 <= j < l.len() ==> arena2[(#[trigger] l[j]) as int] == arena[l[j] as int],
        forall|j: int| 0 <= j < r.len() ==> arena2[(#[trigger] r[j]) as int] == arena[r[j] as int],
        forall|j: int| 0 <= j < l.len() ==> (#[trigger] l[j]) < arena.len(),
        forall|j: int| 0 <= j < r.len() ==> (#[trigger] r[j]) < arena.len(),
{
    let s = l + x + r;
    let s2 = l + x2 + r;
    lemma_linked_split(l + x, r, arena, exit);
    lemma_linked_split(l, x, arena, head_or(r, exit));
    assert(head_or(x, head_or(r, exit)) == Some(x[0]));
    assert forall|j: int| 0 <= j < l.len() implies arena2[(#[trigger] l[j]) as int]
        == arena[l[j] as int] && l[j] < arena.len() by {
        assert(l.contains(l[j]));
        assert(link_at(l, arena, head_or(x, head_or(r, exit)), j));
    }
    assert forall|j: int| 0 <= j < r.len() implies arena2[(#[trigger] r[j]) as int]
        == arena[r[j] as int] && r[j] < arena.len() by {
        assert(r.contains(r[j]));
        assert(link_at(r, arena, exit, j));
        assert((l + x).contains(r[j]) <==> l.contains(r[j]) || x.contains(r[j])) by {
            lemma_concat_contains(l, x, r[j]);
        }
    }
    lemma_linked_frame(l, arena, arena2, Some(x[0]));
    lemma_linked_frame(r, arena, arena2, exit);
    assert forall|y: usize| !(l.contains(y) && x2.contains(y)) by {
        if l.contains(y) && x2.contains(y) {
            let i = choose|i: int| 0 <= i < l.len() && l[i] == y;
            let j = choose|j: int| 0 <= j < x2.len() && x2[j] == y;
            assert(l[i] < arena.len());
            assert(x.contains(x2[j]));
        }
    }
    assert(head_or(x2, head_or(r, exit)) == Some(x[0]));
    lemma_linked_join(l, x2, arena2, head_or(r, exit));
    assert forall|y: usize| !((l + x2).contains(y) && r.contains(y)) by {
        lemma_concat_contains(l, x2, y);
        lemma_concat_contains(l, x, y);
        if r.contains(y) && x2.contains(y) {
            let i = choose|i: int| 0 <= i < r.len() && r[i] == y;
            let j = choose|j: int| 0 <= j < x2.len() && x2[j] == y;
            assert(r[i] < arena.len());
            assert(x.contains(x2[j]));
        }
    }
    lemma_linked_join(l + x2, r, arena2, exit);
    assert forall|id: usize| id < arena.len() && !s.contains(id) implies arena2[id as int]
        == arena[id as int] by {
        lemma_concat_contains(l + x, r, id);
        lemma_concat_contains(l, x, id);
    }
    assert forall|j: int| 0 <= j < s2.len() implies s.contains(#[trigger] s2[j]) || s2[j]
        >= arena.len() by {
        let y = s2[j];
        lemma_concat_contains(l + x, r, y);
        lemma_concat_contains(l, x, y);
        if j < l.len() {
            assert(l[j] == y);
            assert(l.contains(y));
        } else if j < l.len() + x2.len() {
            assert(x2[j - l.len()] == y);
        } else {
            assert(r[j - l.len() - x2.len()] == y);
            assert(r.contains(y));
        }
    }
    assert(s2[0] == s[0]) by {
        if l.len() > 0 {
            assert(s2[0] == l[0] && s[0] == l[0]);
        } else {
            assert(s2[0] == x2[0] && s[0] == x[0]);
        }
    }
}

/// The number of keys at the front of `keys` that are not greater than
/// `key`: the number of the subtree below which `key` belongs.
pub(super) open spec fn upper_slot(keys: Seq<i32>, key: i32) -> int
    decreases keys.len(),
{
    if keys.len() == 0 || keys[0] > key {
        0
    } else {
        1 + upper_slot(keys.drop_first(), key)
    }
}

/// The first key that is greater than `key` stands at the slot of `key`.
pub(super) proof fn lemma_upper_slot(keys: Seq<i32>, key: i32, pos: int)
    requires
        0 <= pos <= keys.len(),
        forall|i: int| 0 <= i < pos ==> keys[i] <= key,
        pos < keys.len() ==> key < keys[pos],
    ensures
        pos == upper_slot(keys, key),
    decreases keys.len(),
{
    if pos > 0 {
        let t = keys.drop_first();
        assert forall|i: int| 0 <= i < pos - 1 implies t[i] <= key by {
            assert(t[i] == keys[i + 1]);
        }
        if pos - 1 < t.len() {
            assert(t[pos - 1] == keys[pos]);
        }
        lemma_upper_slot(t, key, pos - 1);
    }
}

/// The first position in `keys` whose key is greater than `key`, or the
/// length of `keys` if there is none.
pub(super) fn upper_pos(keys: &Vec<i32>, key: i32) -> (pos: usize)
    ensures
        pos <= keys@.len(),
        forall|i: int| 0 <= i < pos ==> keys@[i] <= key,
        pos < keys@.len() ==> key < keys@[pos as int],
        pos == upper_slot(keys@, key),
{
    let mut pos: usize = 0;
    while pos < keys.len() && keys[pos] <= key
        invariant
            pos <= keys@.len(),
            forall|i: int| 0 <= i < pos ==> keys@[i] <= key,
        decreases keys@.len() - pos,
    {
        pos = pos + 1;
    }
    proof {
        lemma_upper_slot(keys@, key, pos as int);
    }
    pos
}

/// The first position in `records` whose key is not smaller than `key`, or
/// the length of `records` if there is none.
pub(super) fn lower_pos(records: &Vec<Record>, key: i32) -> (pos: usize)
    ensures
        pos <= records@.len(),
        forall|i: int| 0 <= i < pos ==> records@[i].key < key,
        pos < records@.len() ==> records@[pos as int].key >= key,
{
    let mut pos: usize = 0;
    while pos < records.len() && records[pos].key < key
        invariant
            pos <= records@.len(),
            forall|i: int| 0 <= i < pos ==> records@[i].key < key,
        decreases records@.len() - pos,
    {
        pos = pos + 1;
    }
    pos
}

/// Puts copies of the records of `from` behind the records of `out`.
pub(super) fn append_records(out: &mut Vec<Record>, from: &Vec<Record>)
    ensures
        record_entries(final(out)@) == record_entries(old(out)@) + record_entries(from@),
{
    let ghost start = record_entries(out@);
    let mut k: usize = 0;
    assert(start + record_entries(from@).subrange(0, 0) =~= start);
    while k < from.len()
        invariant
            k <= from@.len(),
            record_entries(out@) == start + record_entries(from@).subrange(0, k as int),
        decreases from@.len() - k,
    {
        let ghost sofar = record_entries(out@);
        out.push(Record { key: from[k].key, value: from[k].value.clone() });
        proof {
            assert(record_entries(out@) =~= sofar.push(record_entries(from@)[k as int]));
            assert(record_entries(from@).subrange(0, k + 1) =~= record_entries(from@).subrange(
                0,
                k as int,
            ).push(record_entries(from@)[k as int]));
        }
        k = k + 1;
    }
    assert(record_entries(from@).subrange(0, from@.len() as int) =~= record_entries(from@));
}

/// The entries of each of the leaves `ids`, in the order of `ids`.
pub(super) open spec fn groups(ids: Seq<usize>, arena: Seq<Leaf>) -> Seq<Seq<Entry>> {
    ids.map_values(|id: usize| arena[id as int].entries())
}

/// Where the entries before the place `pos` have smaller keys than `k` and
/// the entry at `pos`, if there is one, has none, `pos` is the rank of `k`.
pub(super) proof fn lemma_rank(s: Seq<Entry>, pos: int, k: i32)
    requires
        0 <= pos <= s.len(),
        forall|i: int| 0 <= i < pos ==> (#[trigger] s[i]).0 < k,
        pos == s.len() || s[pos].0 >= k,
    ensures
        rank(s, k) == pos,
    decreases pos,
{
    if pos > 0 {
        let t = s.drop_first();
        assert(s[0].0 < k);
        assert forall|i: int| 0 <= i < pos - 1 implies (#[trigger] t[i]).0 < k by {
            assert(t[i] == s[i + 1]);
        }
        if pos < s.len() {
            assert(t[pos - 1] == s[pos]);
        }
        lemma_rank(t, pos - 1, k);
    }
}

/// The group into which a key goes among groups is the group into which
/// it goes among those in the middle, where the groups behind the middle
/// begin with greater keys and the middle begins with no greater key, or
/// nothing stands before the middle.
pub(super) proof fn lemma_home_concat(gl: Seq<Seq<Entry>>, gx: Seq<Seq<Entry>>, gr: Seq<Seq<Entry>>, k: i32)
    requires
        gx.len() >= 1,
        gl.len() > 0 ==> gx[0].len() > 0 && gx[0][0].0 <= k,
        forall|j: int| 0 <= j < gr.len() ==> (#[trigger] gr[j]).len() > 0 && gr[j][0].0 > k,
    ensures
        home(gl + gx + gr, k) == gl.len() + home(gx, k),
    decreases gr.len(), gx.len(),
{
    let g = gl + gx + gr;
    if gr.len() > 0 {
        assert(g.last() == gr.last());
        assert(g.drop_last() =~= gl + gx + gr.drop_last());
        assert forall|j: int| 0 <= j < gr.drop_last().len() implies (
        #[trigger] gr.drop_last()[j]).len() > 0 && gr.drop_last()[j][0].0 > k by {
            assert(gr.drop_last()[j] == gr[j]);
        }
        lemma_home_concat(gl, gx, gr.drop_last(), k);
    } else {
        assert(g =~= gl + gx);
        if gx.len() == 1 {
            assert(g.last() == gx[0]);
            if gl.len() == 0 {
                assert(g =~= gx);
            }
        } else {
            assert(g.last() == gx.last());
            if !(gx.last().len() > 0 && gx.last()[0].0 <= k) {
                assert(g.drop_last() =~= gl + gx.drop_last() + Seq::<Seq<Entry>>::empty());
                assert(gx.drop_last()[0] == gx[0]);
                lemma_home_concat(gl, gx.drop_last(), Seq::<Seq<Entry>>::empty(), k);
            }
        }
    }
}

/// A key put into the groups in the middle is put into the groups as a
/// whole.
pub(super) proof fn lemma_placed_concat(
    gl: Seq<Seq<Entry>>,
    gx: Seq<Seq<Entry>>,
    gr: Seq<Seq<Entry>>,
    k: i32,
    v: Seq<char>,
)
    requires
        gx.len() >= 1,
        gl.len() > 0 ==> gx[0].len() > 0 && gx[0][0].0 <= k,
        forall|j: int| 0 <= j < gr.len() ==> (#[trigger] gr[j]).len() > 0 && gr[j][0].0 > k,
    ensures
        placed(gl + gx + gr, k, v) == gl + placed(gx, k, v) + gr,
        0 <= home(gx, k) < gx.len(),
{
    lemma_home_concat(gl, gx, gr, k);
    lemma_home_in(gx, k);
    let g = gl + gx + gr;
    let jx = home(gx, k);
    let j = gl.len() + jx;
    assert(g[j] == gx[jx]);
    let h = with_entry(gx[jx], k, v);
    let m = h.len() as int / 2;
    if h.len() <= MAX_KEYS {
        assert(g.update(j, h) =~= gl + gx.update(jx, h) + gr);
    } else {
        assert(g.subrange(0, j) =~= gl + gx.subrange(0, jx));
        assert(g.subrange(j + 1, g.len() as int) =~= gx.subrange(jx + 1, gx.len() as int) + gr);
        assert(g.subrange(0, j) + seq![h.subrange(0, m), h.subrange(m, h.len() as int)]
            + g.subrange(j + 1, g.len() as int) =~= gl + (gx.subrange(0, jx) + seq![
            h.subrange(0, m),
            h.subrange(m, h.len() as int),
        ] + gx.subrange(jx + 1, gx.len() as int)) + gr);
    }
}

/// A key taken out of the groups in the middle is taken out of the groups
/// as a whole, where no group before or behind the middle holds the key.
pub(super) proof fn lemma_taken_out_concat(
    gl: Seq<Seq<Entry>>,
    gx: Seq<Seq<Entry>>,
    gr: Seq<Seq<Entry>>,
    key: i32,
    lo: int,
    hi: int,
)
    requires
        gx.len() >= 1,
        0 <= lo <= home(gx, key) < hi <= gx.len(),
        home(gl + gx + gr, key) == gl.len() + home(gx, key),
        forall|j: int| 0 <= j < gl.len() ==> !has_key(#[trigger] gl[j], key),
        forall|j: int| 0 <= j < gr.len() ==> !has_key(#[trigger] gr[j], key),
    ensures
        taken_out(gl + gx + gr, key, gl.len() + lo, gl.len() + hi) == gl + taken_out(
            gx,
            key,
            lo,
            hi,
        ) + gr,
{
    let g = gl + gx + gr;
    let jx = home(gx, key);
    let j = gl.len() + jx;
    let n = gl.len() as int;
    assert(g[j] == gx[jx]);
    if spare(gx, key) {
        assert forall|i: int| 0 <= i < g.len() && has_key(#[trigger] g[i], key) implies g[i].len()
            > MIN_KEYS by {
            if i < n {
                assert(g[i] == gl[i]);
            } else if i < n + gx.len() {
                assert(g[i] == gx[i - n]);
            } else {
                assert(g[i] == gr[i - n - gx.len()]);
            }
        }
    }
    if spare(g, key) {
        assert forall|i: int| 0 <= i < gx.len() && has_key(#[trigger] gx[i], key) implies gx[i].len()
            > MIN_KEYS by {
            assert(g[n + i] == gx[i]);
        }
        assert forall|i: int| 0 <= i < g.len() implies pruned(g, key)[i] == (gl + pruned(gx, key)
            + gr)[i] by {
            if i < n {
                assert(g[i] == gl[i]);
            } else if i < n + gx.len() {
                assert(g[i] == gx[i - n]);
            } else {
                assert(g[i] == gr[i - n - gx.len()]);
            }
        }
        assert(pruned(g, key) =~= gl + pruned(gx, key) + gr);
    } else {
        let rest = without(gx[jx], key);
        if jx > lo {
            assert(g[j - 1] == gx[jx - 1]);
        }
        if jx + 1 < hi {
            assert(g[j + 1] == gx[jx + 1]);
        }
        if jx > lo && gx[jx - 1].len() > MIN_KEYS {
            assert(g.update(j - 1, g[j - 1].drop_last()).update(j, seq![g[j - 1].last()] + rest)
                =~= gl + gx.update(jx - 1, gx[jx - 1].drop_last()).update(
                jx,
                seq![gx[jx - 1].last()] + rest,
            ) + gr);
        } else if jx + 1 < hi && gx[jx + 1].len() > MIN_KEYS {
            assert(g.update(j, rest.push(g[j + 1][0])).update(j + 1, g[j + 1].drop_first()) =~= gl
                + gx.update(jx, rest.push(gx[jx + 1][0])).update(jx + 1, gx[jx + 1].drop_first())
                + gr);
        } else if jx > lo {
            assert(g.update(j - 1, g[j - 1] + rest).remove(j) =~= gl + gx.update(
                jx - 1,
                gx[jx - 1] + rest,
            ).remove(jx) + gr);
        } else if jx + 1 < hi {
            assert(g.update(j, rest + g[j + 1]).remove(j + 1) =~= gl + gx.update(
                jx,
                rest + gx[jx + 1],
            ).remove(jx + 1) + gr);
        } else {
            assert(g.update(j, rest) =~= gl + gx.update(jx, rest) + gr);
        }
    }
}

/// The group into which a key goes is one of the groups.
pub(super) proof fn lemma_home_in(g: Seq<Seq<Entry>>, k: i32)
    requires
        g.len() >= 1,
    ensures
        0 <= home(g, k) < g.len(),
    decreases g.len(),
{
    if g.len() > 1 && !(g.last().len() > 0 && g.last()[0].0 <= k) {
        lemma_home_in(g.drop_last(), k);
    }
}

/// What one of the leaves holds, the leaves hold together.
pub(super) proof fn lemma_group_in_gather(ids: Seq<usize>, arena: Seq<Leaf>, j: int, key: i32)
    requires
        0 <= j < ids.len(),
        has_key(arena[ids[j] as int].entries(), key),
    ensures
        has_key(gather(ids, arena), key),
{
    let a = ids.subrange(0, j);
    let b = ids.subrange(j + 1, ids.len() as int);
    assert(ids =~= a + seq![ids[j]] + b);
    lemma_gather_concat(a + seq![ids[j]], b, arena);
    lemma_gather_concat(a, seq![ids[j]], arena);
    lemma_gather_one(ids[j], arena);
    lemma_has_key_concat(gather(a, arena) + arena[ids[j] as int].entries(), gather(b, arena), key);
    lemma_has_key_concat(gather(a, arena), arena[ids[j] as int].entries(), key);
}

/// Leaves that do not hold `key` together are as they are without it.
pub(super) proof fn lemma_pruned_same(ids: Seq<usize>, arena: Seq<Leaf>, key: i32)
    requires
        !has_key(gather(ids, arena), key),
    ensures
        pruned(groups(ids, arena), key) == groups(ids, arena),
        spare(groups(ids, arena), key),
{
    assert forall|j: int| 0 <= j < ids.len() implies !has_key(
        #[trigger] groups(ids, arena)[j],
        key,
    ) by {
        if has_key(arena[ids[j] as int].entries(), key) {
            lemma_group_in_gather(ids, arena, j, key);
        }
    }
    assert(pruned(groups(ids, arena), key) =~= groups(ids, arena));
}

/// Two changes of the leaves below a node, one after the other, are one
/// change.
pub(super) proof fn lemma_grown_twice(
    ids: Seq<usize>,
    arena: Seq<Leaf>,
    ids2: Seq<usize>,
    arena2: Seq<Leaf>,
    ids3: Seq<usize>,
    arena3: Seq<Leaf>,
    exit: Option<usize>,
)
    requires
        grown(ids, arena, ids2, arena2, exit),
        grown(ids2, arena2, ids3, arena3, exit),
    ensures
        grown(ids, arena, ids3, arena3, exit),
{
    assert forall|id: usize| id < arena.len() && !ids.contains(id) implies arena3[id as int]
        == arena[id as int] by {
        if ids2.contains(id) {
            let j = choose|j: int| 0 <= j < ids2.len() && ids2[j] == id;
            assert(ids.contains(ids2[j]) || ids2[j] >= arena.len());
        }
    }
    assert forall|j: int| 0 <= j < ids3.len() implies ids.contains(#[trigger] ids3[j]) || ids3[j]
        >= arena.len() by {
        if ids2.contains(ids3[j]) {
            let k = choose|k: int| 0 <= k < ids2.len() && ids2[k] == ids3[j];
            assert(ids.contains(ids2[k]) || ids2[k] >= arena.len());
        }
    }
}

impl Node {
    /// The numbers of the leaves below each subtree.
    pub(super) open spec fn kid_ids(&self) -> Seq<Seq<usize>>
        decreases self, 0nat,
    {
        Seq::new(
            self.children@.len(),
            |i: int|
                if 0 <= i < self.children@.len() {
                    self.children@[i].ids()
                } else {
                    Seq::empty()
                },
        )
    }

    /// Putting `key` below this node leaves the node with one key too
    /// many: the leaf of `key` is full and does not hold `key`, and so is
    /// every node on the way down to it.
    pub(super) open spec fn overflows(&self, arena: Seq<Leaf>, key: i32) -> bool
        decreases self,
    {
        let p = upper_slot(self.keys@, key);
        if self.is_leaf {
            !has_key(arena[self.leaf as int].entries(), key) && arena[self.leaf as int].records@.len()
                == MAX_KEYS
        } else {
            self.keys@.len() == MAX_KEYS && 0 <= p < self.children@.len()
                && self.children@[p].overflows(arena, key)
        }
    }

    /// The subtree below which `key` belongs overflows when `key` is put
    /// below it.
    pub(super) open spec fn kid_overflows(&self, arena: Seq<Leaf>, key: i32) -> bool {
        let p = upper_slot(self.keys@, key);
        !self.is_leaf && 0 <= p < self.children@.len() && self.children@[p].overflows(arena, key)
    }

    /// The keys of an inner node with the key that comes up from the
    /// subtree below which `key` belongs, where that subtree overflows.
    pub(super) open spec fn widened(&self, arena: Seq<Leaf>, key: i32) -> Seq<i32>
        decreases self, 0nat,
    {
        let p = upper_slot(self.keys@, key);
        if 0 <= p < self.children@.len() && p <= self.keys@.len() {
            self.keys@.insert(p, self.children@[p].raised(arena, key))
        } else {
            self.keys@
        }
    }

    /// The key that comes up from this node where it overflows: of a leaf
    /// the middle key of its keys with `key` among them, of an inner node
    /// the middle key of its widened keys.
    pub(super) open spec fn raised(&self, arena: Seq<Leaf>, key: i32) -> i32
        decreases self, 1nat,
    {
        if self.is_leaf {
            with_entry(arena[self.leaf as int].entries(), key, Seq::empty())[MIDDLE as int].0
        } else {
            self.widened(arena, key)[MIDDLE as int]
        }
    }

    /// The places, among the leaves below this node, of the leaves that
    /// stand below one node with the leaf of `key`: the place of the first
    /// of them, and the place behind the last.
    pub(super) open spec fn family(&self, key: i32) -> (int, int)
        decreases self, 2nat,
    {
        let p = upper_slot(self.keys@, key);
        if self.is_leaf {
            (0, 1)
        } else if 0 <= p < self.children@.len() {
            if self.children@[p].is_leaf {
                (0, self.children@.len() as int)
            } else {
                let f = self.children@[p].family(key);
                let skip = before(self.kid_ids(), p).len();
                (skip + f.0, skip + f.1)
            }
        } else {
            (0, 0)
        }
    }

    /// The leaves below a node whose subtrees are leaves are those
    /// subtrees, one for one.
    pub(super) proof fn lemma_leaf_row(&self, pos: int)
        requires
            !self.is_leaf,
            0 <= pos <= self.children@.len(),
            forall|i: int| 0 <= i < self.children@.len() ==> (#[trigger] self.children@[i]).is_leaf,
        ensures
            self.ids().len() == self.children@.len(),
            forall|i: int|
                0 <= i < self.children@.len() ==> self.ids()[i] == (
                #[trigger] self.children@[i]).leaf,
            before(self.kid_ids(), pos).len() == pos,
    {
        let kids = self.kid_ids();
        assert forall|i: int| 0 <= i < kids.len() implies (#[trigger] kids[i]).len() == 1 by {
            assert(self.children@[i].is_leaf);
        }
        lemma_flat_singles(kids, kids.len() as int);
        lemma_flat_singles(kids, pos);
        lemma_flat_ends(kids);
    }

    /// The numbers of the leaves below this node, from left to right.
    pub(super) open spec fn ids(&self) -> Seq<usize>
        decreases self, 1nat,
    {
        if self.is_leaf {
            seq![self.leaf]
        } else {
            self.kid_ids().flatten()
        }
    }

    /// The entries below this node, in the order of its leaves.
    pub(super) open spec fn entries(&self, arena: Seq<Leaf>) -> Seq<Entry> {
        gather(self.ids(), arena)
    }

    /// The number of records of a leaf, of keys of an inner node.
    pub(super) open spec fn size(&self, arena: Seq<Leaf>) -> nat {
        if self.is_leaf {
            arena[self.leaf as int].records@.len()
        } else {
            self.keys@.len()
        }
    }

    /// The number of nodes on the way from this node down to its first leaf.
    pub(super) open spec fn height(&self) -> nat
        decreases self,
    {
        if self.is_leaf || self.children@.len() == 0 {
            1
        } else {
            1 + self.children@[0].height()
        }
    }

    /// The subtree number `i` is in order: its invariant holds and it is as
    /// high as the first subtree.
    pub(super) open spec fn kid_ok(&self, arena: Seq<Leaf>, i: int) -> bool {
        &&& 0 <= i < self.children@.len()
        &&& self.children@[i].inv(arena)
        &&& self.children@[i].height() == self.children@[0].height()
    }

    /// The subtree number `i` holds at least the smallest number of keys.
    pub(super) open spec fn kid_full(&self, arena: Seq<Leaf>, i: int) -> bool {
        self.children@[i].size(arena) >= MIN_KEYS
    }

    /// The key before the subtree number `i` is the smallest key below it.
    pub(super) open spec fn kid_sep(&self, arena: Seq<Leaf>, i: int) -> bool {
        i > 0 ==> self.children@[i].entries(arena).len() > 0 && self.keys@[i - 1]
            == self.children@[i].entries(arena)[0].0
    }

    /// The invariant of a subtree but for the order of its entries: a leaf
    /// stands for a leaf of the arena with no more records than a node may
    /// hold; an inner node has no more keys than a node may hold and one
    /// subtree more than keys, its subtrees are equally high, each holds at
    /// least the smallest number of keys, and each key is the smallest key
    /// below the subtree to its right.
    pub(super) open spec fn inv(&self, arena: Seq<Leaf>) -> bool
        decreases self, 2nat,
    {
        self.roomy(arena, MAX_KEYS as nat)
    }

    /// As `inv`, but the node itself may hold up to `max` keys.
    pub(super) open spec fn roomy(&self, arena: Seq<Leaf>, max: nat) -> bool
        decreases self, 1nat,
    {
        if self.is_leaf {
            &&& self.leaf < arena.len()
            &&& self.keys@.len() == 0
            &&& self.children@.len() == 0
            &&& arena[self.leaf as int].records@.len() <= max
        } else {
            &&& self.keys@.len() <= max
            &&& self.children@.len() == self.keys@.len() + 1
            &&& forall|i: int|
                0 <= i < self.children@.len() ==> {
                    &&& (#[trigger] self.children@[i]).inv(arena)
                    &&& self.children@[i].height() == self.children@[0].height()
                    &&& self.kid_full(arena, i)
                    &&& self.kid_sep(arena, i)
                }
        }
    }

    /// A node in order is a leaf exactly if its height is one.
    pub(super) proof fn lemma_leaf_height(&self, arena: Seq<Leaf>)
        requires
            self.inv(arena),
        ensures
            self.is_leaf <==> self.height() == 1,
            self.height() >= 1,
    {
        if !self.is_leaf {
            assert(self.kid_ok(arena, 0));
            let c = self.children@[0];
            assert(c.height() >= 1);
        }
    }

    /// What a subtree holds, the node holds.
    pub(super) proof fn lemma_kid_ids_in(&self, i: int, x: usize)
        requires
            !self.is_leaf,
            0 <= i < self.children@.len(),
            self.children@[i].ids().contains(x),
        ensures
            self.ids().contains(x),
    {
        lemma_flat_contains(self.kid_ids(), i, x);
    }

    /// The leaves and entries of an inner node are those before a subtree,
    /// those of the subtree, and those behind it.
    pub(super) proof fn lemma_node_at(&self, arena: Seq<Leaf>, pos: int)
        requires
            !self.is_leaf,
            0 <= pos < self.children@.len(),
        ensures
            self.ids() == before(self.kid_ids(), pos) + self.children@[pos].ids() + after(
                self.kid_ids(),
                pos,
            ),
            self.entries(arena) == gather(before(self.kid_ids(), pos), arena)
                + self.children@[pos].entries(arena) + gather(after(self.kid_ids(), pos), arena),
            pos == 0 ==> before(self.kid_ids(), pos).len() == 0 && gather(
                before(self.kid_ids(), pos),
                arena,
            ).len() == 0,
            pos == self.children@.len() - 1 ==> after(self.kid_ids(), pos).len() == 0 && gather(
                after(self.kid_ids(), pos),
                arena,
            ).len() == 0,
            pos + 1 < self.children@.len() ==> after(self.kid_ids(), pos) == self.children@[pos
                + 1].ids() + after(self.kid_ids(), pos + 1) && gather(
                after(self.kid_ids(), pos),
                arena,
            ) == self.children@[pos + 1].entries(arena) + gather(
                after(self.kid_ids(), pos + 1),
                arena,
            ),
    {
        let kids = self.kid_ids();
        lemma_flat_at(kids, pos);
        lemma_flat_ends(kids);
        lemma_gather_concat(before(kids, pos) + kids[pos], after(kids, pos), arena);
        lemma_gather_concat(before(kids, pos), kids[pos], arena);
        lemma_gather_one(0, arena);
        if pos + 1 < self.children@.len() {
            lemma_after_step(kids, pos);
            lemma_gather_concat(kids[pos + 1], after(kids, pos + 1), arena);
        }
    }

    /// A node in order has a leaf below it.
    pub(super) proof fn lemma_ids_nonempty(&self, arena: Seq<Leaf>)
        requires
            self.inv(arena),
        ensures
            self.ids().len() > 0,
            !self.is_leaf ==> self.ids()[0] == self.children@[0].ids()[0],
        decreases self,
    {
        if !self.is_leaf {
            assert(self.kid_ok(arena, 0));
            self.children@[0].lemma_ids_nonempty(arena);
            self.lemma_node_at(arena, 0);
        }
    }

    /// A node in order that is no empty leaf has an entry below it, and its
    /// first entry is the first entry of its first subtree.
    pub(super) proof fn lemma_entries_nonempty(&self, arena: Seq<Leaf>)
        requires
            self.inv(arena),
            !self.is_leaf || self.size(arena) >= 1,
        ensures
            self.entries(arena).len() > 0,
            !self.is_leaf ==> self.entries(arena)[0] == self.children@[0].entries(arena)[0],
        decreases self,
    {
        if self.is_leaf {
            lemma_gather_one(self.leaf, arena);
        } else {
            assert(self.kid_ok(arena, 0));
            self.children@[0].lemma_entries_nonempty(arena);
            self.lemma_node_at(arena, 0);
        }
    }

    /// A subtree whose leaves the arena keeps stays in order, with the same
    /// entries.
    pub(super) proof fn lemma_inv_frame(&self, arena: Seq<Leaf>, arena2: Seq<Leaf>, max: nat)
        requires
            self.roomy(arena, max),
            forall|j: int|
                0 <= j < self.ids().len() ==> (#[trigger] self.ids()[j]) < arena2.len()
                    && arena2[self.ids()[j] as int] == arena[self.ids()[j] as int],
        ensures
            self.roomy(arena2, max),
            self.entries(arena2) == self.entries(arena),
            self.size(arena2) == self.size(arena),
        decreases self,
    {
        lemma_gather_frame(self.ids(), arena, arena2);
        if self.is_leaf {
            assert(self.ids()[0] == self.leaf);
        } else {
            assert forall|i: int| 0 <= i < self.children@.len() implies {
                &&& (#[trigger] self.children@[i]).inv(arena2)
                &&& self.children@[i].height() == self.children@[0].height()
                &&& self.kid_full(arena2, i)
                &&& self.kid_sep(arena2, i)
            } by {
                assert(self.kid_ok(arena, i));
                let c = self.children@[i];
                assert forall|j: int| 0 <= j < c.ids().len() implies (#[trigger] c.ids()[j])
                    < arena2.len() && arena2[c.ids()[j] as int] == arena[c.ids()[j] as int] by {
                    assert(c.ids().contains(c.ids()[j]));
                    self.lemma_kid_ids_in(i, c.ids()[j]);
                    let k = choose|k: int| 0 <= k < self.ids().len() && self.ids()[k] == c.ids()[j];
                    assert(self.ids()[k] < arena2.len());
                }
                c.lemma_inv_frame(arena, arena2, MAX_KEYS as nat);
                assert(self.kid_ok(arena, 0));
            }
        }
    }

    /// A key between the keys around a subtree is looked up in that subtree.
    pub(super) proof fn lemma_descend(&self, arena: Seq<Leaf>, pos: int, key: i32)
        requires
            self.inv(arena),
            ascending(self.entries(arena)),
            !self.is_leaf,
            0 <= pos <= self.keys@.len(),
            pos > 0 ==> self.keys@[pos - 1] <= key,
            pos < self.keys@.len() ==> key < self.keys@[pos],
        ensures
            self.children@[pos].inv(arena),
            ascending(self.children@[pos].entries(arena)),
            self.children@[pos].height() < self.height(),
            has_key(self.entries(arena), key) == has_key(self.children@[pos].entries(arena), key),
            has_key(self.entries(arena), key) ==> entries_map(self.entries(arena))[key]
                == entries_map(self.children@[pos].entries(arena))[key],
            below(gather(before(self.kid_ids(), pos), arena), key),
            above(gather(after(self.kid_ids(), pos), arena), key),
    {
        self.lemma_node_at(arena, pos);
        let l = gather(before(self.kid_ids(), pos), arena);
        let c = self.children@[pos].entries(arena);
        let r = gather(after(self.kid_ids(), pos), arena);
        let s = l + c + r;
        assert(self.kid_ok(arena, pos));
        assert(self.kid_ok(arena, 0));
        if l.len() > 0 {
            assert(s[l.len() - 1] == l.last());
            assert(s[l.len() as int] == c[0]);
        }
        if r.len() > 0 {
            assert(self.kid_ok(arena, pos + 1));
        }
        lemma_middle_lookup(l, c, r, key);
    }

    pub(super) fn new_leaf(leaf: usize) -> (node: Node)
        ensures
            node.is_leaf,
            node.leaf == leaf,
            node.keys@.len() == 0,
            node.children@.len() == 0,
            node.ids() == seq![leaf],
            node.height() == 1,
    {
        Node { keys: Vec::new(), children: Vec::new(), is_leaf: true, leaf }
    }

    pub(super) fn new_internal() -> (node: Node)
        ensures
            !node.is_leaf,
            node.keys@.len() == 0,
            node.children@.len() == 0,
    {
        Node { keys: Vec::new(), children: Vec::new(), is_leaf: false, leaf: 0 }
    }

    /// As `inv` for an inner node, but the node may hold up to `max` keys,
    /// and the subtrees at the places from `lo` to `hi` may hold fewer keys
    /// than the smallest number, and the key before each of them need not
    /// be the smallest key below it.
    pub(super) open spec fn loose(&self, arena: Seq<Leaf>, lo: int, hi: int, max: nat) -> bool {
        &&& !self.is_leaf
        &&& self.keys@.len() <= max
        &&& self.children@.len() == self.keys@.len() + 1
        &&& forall|i: int|
            0 <= i < self.children@.len() ==> {
                &&& (#[trigger] self.children@[i]).inv(arena)
                &&& self.children@[i].height() == self.children@[0].height()
                &&& !(lo <= i <= hi) ==> self.kid_full(arena, i) && self.kid_sep(arena, i)
            }
    }

    /// The leaves below a subtree are linked, and lead to the leaves behind
    /// the subtree.
    pub(super) proof fn lemma_kid_linked(&self, arena: Seq<Leaf>, pos: int, exit: Option<usize>)
        requires
            self.inv(arena),
            !self.is_leaf,
            0 <= pos < self.children@.len(),
            linked(self.ids(), arena, exit),
        ensures
            linked(
                self.children@[pos].ids(),
                arena,
                head_or(after(self.kid_ids(), pos), exit),
            ),
    {
        self.lemma_node_at(arena, pos);
        let l = before(self.kid_ids(), pos);
        let x = self.children@[pos].ids();
        let r = after(self.kid_ids(), pos);
        lemma_linked_split(l + x, r, arena, exit);
        lemma_linked_split(l, x, arena, head_or(r, exit));
    }

    /// A subtree whose leaves changed as `grown` says, in a node that is
    /// otherwise as it was: the leaves of the node changed as `grown` says,
    /// and the other subtrees are in order as before.
    pub(super) proof fn lemma_child_changed(
        a: Node,
        arena: Seq<Leaf>,
        b: Node,
        arena2: Seq<Leaf>,
        pos: int,
        exit: Option<usize>,
    )
        requires
            a.inv(arena),
            linked(a.ids(), arena, exit),
            !a.is_leaf,
            !b.is_leaf,
            0 <= pos < a.children@.len(),
            b.keys@ == a.keys@,
            b.children@ == a.children@.update(pos, b.children@[pos]),
            b.children@[pos].inv(arena2),
            b.children@[pos].height() == a.children@[pos].height(),
            grown(
                a.children@[pos].ids(),
                arena,
                b.children@[pos].ids(),
                arena2,
                head_or(after(a.kid_ids(), pos), exit),
            ),
        ensures
            grown(a.ids(), arena, b.ids(), arena2, exit),
            b.height() == a.height(),
            b.loose(arena2, pos, pos, MAX_KEYS as nat),
            b.entries(arena2) == gather(before(a.kid_ids(), pos), arena)
                + b.children@[pos].entries(arena2) + gather(after(a.kid_ids(), pos), arena),
            a.entries(arena) == gather(before(a.kid_ids(), pos), arena)
                + a.children@[pos].entries(arena) + gather(after(a.kid_ids(), pos), arena),
            b.ids() == before(a.kid_ids(), pos) + b.children@[pos].ids() + after(a.kid_ids(), pos),
    {
        let l = before(a.kid_ids(), pos);
        let x = a.children@[pos].ids();
        let x2 = b.children@[pos].ids();
        let r = after(a.kid_ids(), pos);
        a.lemma_node_at(arena, pos);
        b.lemma_node_at(arena2, pos);
        assert forall|i: int| 0 <= i < a.children@.len() && i != pos implies b.kid_ids()[i]
            == a.kid_ids()[i] by {
            assert(b.children@[i] == a.children@[i]);
        }
        lemma_before_frame(a.kid_ids(), b.kid_ids(), pos);
        lemma_after_frame(a.kid_ids(), pos, b.kid_ids(), pos);
        lemma_replace_ids(l, x, x2, r, arena, arena2, exit);
        lemma_gather_frame(l, arena, arena2);
        lemma_gather_frame(r, arena, arena2);
        Node::lemma_siblings_kept(a, arena, b, arena2, pos, pos, 0);
        assert(a.children@[0].inv(arena));
        assert(a.children@[pos].inv(arena));
    }

    /// The subtrees before the place `pos` and behind the place `pos2` of a
    /// node whose leaves there the arena keeps stay in order, as the
    /// subtrees of a node that has them at places moved by `shift`.
    pub(super) proof fn lemma_siblings_kept(
        a: Node,
        arena: Seq<Leaf>,
        b: Node,
        arena2: Seq<Leaf>,
        pos: int,
        pos2: int,
        shift: int,
    )
        requires
            a.loose(arena, pos, pos2, (MAX_KEYS + 1) as nat),
            0 <= pos <= pos2 < a.children@.len(),
            b.children@.len() == a.children@.len() + shift,
            b.keys@.len() == a.keys@.len() + shift,
            forall|i: int| 0 <= i < pos ==> b.children@[i] == a.children@[i],
            forall|i: int|
                pos2 < i < a.children@.len() ==> #[trigger] b.children@[i + shift]
                    == a.children@[i],
            forall|i: int| 0 <= i < pos - 1 ==> b.keys@[i] == a.keys@[i],
            forall|i: int| pos2 < i < a.keys@.len() ==> #[trigger] b.keys@[i + shift] == a.keys@[i],
            forall|j: int|
                0 <= j < before(a.kid_ids(), pos).len() ==> (#[trigger] before(
                    a.kid_ids(),
                    pos,
                )[j]) < arena2.len() && arena2[before(a.kid_ids(), pos)[j] as int] == arena[before(
                    a.kid_ids(),
                    pos,
                )[j] as int],
            forall|j: int|
                0 <= j < after(a.kid_ids(), pos2).len() ==> (#[trigger] after(
                    a.kid_ids(),
                    pos2,
                )[j]) < arena2.len() && arena2[after(a.kid_ids(), pos2)[j] as int] == arena[after(
                    a.kid_ids(),
                    pos2,
                )[j] as int],
        ensures
            forall|i: int|
                0 <= i < pos ==> (#[trigger] b.children@[i]).inv(arena2) && b.kid_full(arena2, i)
                    && b.children@[i].height() == a.children@[0].height() && (i < pos - 1
                    ==> b.kid_sep(arena2, i + 1)) && b.children@[i].entries(arena2)
                    == a.children@[i].entries(arena),
            forall|i: int|
                pos2 + shift < i < b.children@.len() ==> (#[trigger] b.children@[i]).inv(arena2)
                    && b.kid_full(arena2, i) && b.children@[i].height()
                    == a.children@[0].height() && b.children@[i].entries(arena2) == a.children@[i
                    - shift].entries(arena) && (i > pos2 + shift + 1 ==> b.kid_sep(arena2, i)),
            pos2 + 1 < a.children@.len() ==> a.children@[pos2 + 1].entries(arena).len() > 0
                && a.keys@[pos2] == a.children@[pos2 + 1].entries(arena)[0].0 && b.children@[pos2
                + 1 + shift].entries(arena2) == a.children@[pos2 + 1].entries(arena),
    {
        let l = before(a.kid_ids(), pos);
        let r = after(a.kid_ids(), pos2);
        assert forall|i: int| 0 <= i < pos implies (#[trigger] a.children@[i]).inv(arena2)
            && a.children@[i].size(arena2) == a.children@[i].size(arena)
            && a.children@[i].entries(arena2) == a.children@[i].entries(arena) by {
            let c = a.children@[i];
            assert(c.inv(arena));
            assert forall|j: int| 0 <= j < c.ids().len() implies (#[trigger] c.ids()[j])
                < arena2.len() && arena2[c.ids()[j] as int] == arena[c.ids()[j] as int] by {
                assert(c.ids().contains(c.ids()[j]));
                assert(a.kid_ids()[i] == c.ids());
                lemma_before_contains(a.kid_ids(), pos, i, c.ids()[j]);
                let k = choose|k: int| 0 <= k < l.len() && l[k] == c.ids()[j];
                assert(l[k] < arena2.len());
            }
            c.lemma_inv_frame(arena, arena2, MAX_KEYS as nat);
        }
        assert forall|i: int| pos2 < i < a.children@.len() implies (#[trigger] a.children@[i]).inv(
            arena2,
        ) && a.children@[i].size(arena2) == a.children@[i].size(arena)
            && a.children@[i].entries(arena2) == a.children@[i].entries(arena) by {
            let c = a.children@[i];
            assert(c.inv(arena));
            assert forall|j: int| 0 <= j < c.ids().len() implies (#[trigger] c.ids()[j])
                < arena2.len() && arena2[c.ids()[j] as int] == arena[c.ids()[j] as int] by {
                assert(c.ids().contains(c.ids()[j]));
                assert(a.kid_ids()[i] == c.ids());
                lemma_after_contains(a.kid_ids(), pos2, i, c.ids()[j]);
                let k = choose|k: int| 0 <= k < r.len() && r[k] == c.ids()[j];
                assert(r[k] < arena2.len());
            }
            c.lemma_inv_frame(arena, arena2, MAX_KEYS as nat);
        }
        assert forall|i: int| 0 <= i < pos implies (#[trigger] b.children@[i]).inv(arena2)
            && b.kid_full(arena2, i) && b.children@[i].height() == a.children@[0].height() && (i
            < pos - 1 ==> b.kid_sep(arena2, i + 1)) && b.children@[i].entries(arena2)
            == a.children@[i].entries(arena) by {
            assert(b.children@[i] == a.children@[i]);
            assert(a.children@[i].inv(arena2));
            assert(a.kid_full(arena, i));
            if i < pos - 1 {
                assert(b.children@[i + 1] == a.children@[i + 1]);
                assert(a.children@[i + 1].inv(arena2));
                assert(a.kid_sep(arena, i + 1));
            }
        }
        assert forall|i: int| pos2 + shift < i < b.children@.len() implies (
        #[trigger] b.children@[i]).inv(arena2) && b.kid_full(arena2, i) && b.children@[i].height()
            == a.children@[0].height() && b.children@[i].entries(arena2) == a.children@[i
            - shift].entries(arena) && (i > pos2 + shift + 1 ==> b.kid_sep(arena2, i)) by {
            let i0 = i - shift;
            assert(b.children@[i0 + shift] == a.children@[i0]);
            assert(a.children@[i0].inv(arena2));
            assert(a.kid_full(arena, i0));
            assert(a.kid_sep(arena, i0));
            if i0 > pos2 + 1 {
                assert(b.keys@[(i0 - 1) + shift] == a.keys@[i0 - 1]);
            }
        }
        if pos2 + 1 < a.children@.len() {
            assert(a.children@[pos2 + 1].inv(arena2));
            assert(a.kid_sep(arena, pos2 + 1));
            assert(b.children@[(pos2 + 1) + shift] == a.children@[pos2 + 1]);
        }
    }

    /// As `inv` for an inner node, but the subtree at `pos` may be one key
    /// short, and the key before it is the smallest key below it only if
    /// there is a key below it.
    pub(super) open spec fn short_at(&self, arena: Seq<Leaf>, pos: int) -> bool {
        &&& self.loose(arena, pos, pos, MAX_KEYS as nat)
        &&& 0 <= pos < self.children@.len()
        &&& self.children@[pos].size(arena) + 1 >= MIN_KEYS
        &&& self.children@[pos].entries(arena).len() > 0 ==> self.kid_sep(arena, pos)
    }

    /// The leaves below two neighbouring subtrees are linked, and lead to
    /// the leaves behind the second.
    pub(super) proof fn lemma_window_linked(&self, arena: Seq<Leaf>, c: int, exit: Option<usize>)
        requires
            !self.is_leaf,
            0 <= c,
            c + 1 < self.children@.len(),
            linked(self.ids(), arena, exit),
        ensures
            linked(
                self.children@[c].ids() + self.children@[c + 1].ids(),
                arena,
                head_or(after(self.kid_ids(), c + 1), exit),
            ),
            self.ids() == before(self.kid_ids(), c) + (self.children@[c].ids() + self.children@[c
                + 1].ids()) + after(self.kid_ids(), c + 1),
    {
        self.lemma_node_at(arena, c);
        let l = before(self.kid_ids(), c);
        let x = self.children@[c].ids() + self.children@[c + 1].ids();
        let r = after(self.kid_ids(), c + 1);
        assert(self.ids() =~= l + x + r);
        lemma_linked_split(l + x, r, arena, exit);
        lemma_linked_split(l, x, arena, head_or(r, exit));
    }

    /// The leaves below an inner node are those below its subtrees but the
    /// last, then those below the last.
    pub(super) proof fn lemma_ids_last(&self, last: Node)
        requires
            !self.is_leaf,
            self.children@.len() > 0,
            self.children@.last() == last,
        ensures
            self.ids() == self.kid_ids().drop_last().flatten() + last.ids(),
    {
        let kids = self.kid_ids();
        assert(kids =~= kids.drop_last() + seq![last.ids()]);
        lemma_flatten_concat(kids.drop_last(), seq![last.ids()]);
        seq![last.ids()].lemma_flatten_one_element();
    }

    /// The leaves below an inner node are those below its first subtree,
    /// then those below the others.
    pub(super) proof fn lemma_ids_first(&self, first: Node)
        requires
            !self.is_leaf,
            self.children@.len() > 0,
            self.children@[0] == first,
        ensures
            self.ids() == first.ids() + self.kid_ids().drop_first().flatten(),
    {
        let kids = self.kid_ids();
        assert(kids =~= seq![first.ids()] + kids.drop_first());
        lemma_flatten_concat(seq![first.ids()], kids.drop_first());
        seq![first.ids()].lemma_flatten_one_element();
    }

    /// Below a node in order that is no leaf one key short, every leaf
    /// holds at least the smallest number of records.
    pub(super) proof fn lemma_leaves_full(&self, arena: Seq<Leaf>, j: int)
        requires
            self.inv(arena),
            !self.is_leaf || self.size(arena) >= MIN_KEYS,
            0 <= j < self.ids().len(),
        ensures
            self.ids()[j] < arena.len(),
            arena[self.ids()[j] as int].records@.len() >= MIN_KEYS,
        decreases self,
    {
        if !self.is_leaf {
            let kids = self.kid_ids();
            let x = self.ids()[j];
            assert(self.ids().contains(x));
            Node::lemma_flat_owner(kids, x);
            let i = choose|i: int| 0 <= i < kids.len() && kids[i].contains(x);
            let c = self.children@[i];
            assert(c.inv(arena));
            assert(self.kid_full(arena, i));
            let k = choose|k: int| 0 <= k < c.ids().len() && c.ids()[k] == x;
            c.lemma_leaves_full(arena, k);
        }
    }

    /// What a concatenation of parts holds, one of the parts holds.
    pub(super) proof fn lemma_flat_owner(kids: Seq<Seq<usize>>, x: usize)
        requires
            kids.flatten().contains(x),
        ensures
            exists|i: int| 0 <= i < kids.len() && (#[trigger] kids[i]).contains(x),
        decreases kids.len(),
    {
        if kids.len() > 0 {
            let rest = kids.drop_last();
            assert(kids =~= rest + seq![kids.last()]);
            lemma_flatten_concat(rest, seq![kids.last()]);
            seq![kids.last()].lemma_flatten_one_element();
            lemma_concat_contains(rest.flatten(), kids.last(), x);
            if rest.flatten().contains(x) {
                Node::lemma_flat_owner(rest, x);
                let i = choose|i: int| 0 <= i < rest.len() && (#[trigger] rest[i]).contains(x);
                assert(kids[i] == rest[i]);
            } else {
                assert(kids[kids.len() - 1].contains(x));
            }
        }
    }

    /// Below a node in order no leaf holds more records than a node may
    /// hold.
    pub(super) proof fn lemma_leaves_sized(&self, arena: Seq<Leaf>, j: int)
        requires
            self.inv(arena),
            0 <= j < self.ids().len(),
        ensures
            self.ids()[j] < arena.len(),
            arena[self.ids()[j] as int].records@.len() <= MAX_KEYS,
        decreases self,
    {
        if !self.is_leaf {
            let kids = self.kid_ids();
            let x = self.ids()[j];
            assert(self.ids().contains(x));
            Node::lemma_flat_owner(kids, x);
            let i = choose|i: int| 0 <= i < kids.len() && kids[i].contains(x);
            let c = self.children@[i];
            assert(c.inv(arena));
            let k = choose|k: int| 0 <= k < c.ids().len() && c.ids()[k] == x;
            c.lemma_leaves_sized(arena, k);
        }
    }

    /// An inner node in order with a key has two leaves or more below it.
    pub(super) proof fn lemma_two_leaves(&self, arena: Seq<Leaf>)
        requires
            self.inv(arena),
            !self.is_leaf,
            self.keys@.len() >= 1,
        ensures
            self.ids().len() > 1,
    {
        self.lemma_node_at(arena, 0);
        assert(self.children@[0].inv(arena));
        assert(self.children@[1].inv(arena));
        self.children@[0].lemma_ids_nonempty(arena);
        self.children@[1].lemma_ids_nonempty(arena);
    }
}

} // verus!
