//! The mathematical model shared by the index structures of this crate.
//!
//! A tree is described by the sequence of its entries in key order. An entry
//! is a key paired with the characters of its value. The functions here say
//! when such a sequence is in strictly ascending key order, which map from
//! keys to values it stands for, and how the sequence of an inner node is
//! put together from its own entries and the sequences of its subtrees.

use crate::flat::lemma_flatten_one;
use vstd::prelude::*;
use vstd::seq_lib::lemma_flatten_concat;

verus! {

/// A key together with the characters of its value.
pub type Entry = (i32, Seq<char>);

/// The keys of `s` are strictly increasing from left to right.
pub open spec fn ascending(s: Seq<Entry>) -> bool {
    forall|i: int, j: int| 0 <= i < j < s.len() ==> (#[trigger] s[i]).0 < (#[trigger] s[j]).0
}

/// Some entry of `s` carries the key `k`.
pub open spec fn has_key(s: Seq<Entry>, k: i32) -> bool {
    exists|i: int| 0 <= i < s.len() && (#[trigger] s[i]).0 == k
}

/// A position in `s` at which the key `k` stands, if there is one.
pub open spec fn index_of(s: Seq<Entry>, k: i32) -> int {
    choose|i: int| 0 <= i < s.len() && (#[trigger] s[i]).0 == k
}

/// The map from keys to values that the entries of `s` stand for.
pub open spec fn entries_map(s: Seq<Entry>) -> Map<i32, Seq<char>> {
    Map::new(|k: i32| has_key(s, k), |k: i32| s[index_of(s, k)].1)
}

/// The last key of `s`, if any, is smaller than `k`.
pub open spec fn below(s: Seq<Entry>, k: i32) -> bool {
    s.len() > 0 ==> s.last().0 < k
}

/// The first key of `s`, if any, is greater than `k`.
pub open spec fn above(s: Seq<Entry>, k: i32) -> bool {
    s.len() > 0 ==> k < s[0].0
}

/// In an ascending sequence every position is the one its key is found at.
pub proof fn lemma_map_at(s: Seq<Entry>, i: int)
    requires
        ascending(s),
        0 <= i < s.len(),
    ensures
        has_key(s, s[i].0),
        entries_map(s).contains_key(s[i].0),
        entries_map(s)[s[i].0] == s[i].1,
{
    let k = s[i].0;
    let j = index_of(s, k);
    assert(0 <= j < s.len() && s[j].0 == k);
    if j < i {
        assert(s[j].0 < s[i].0);
    } else if i < j {
        assert(s[i].0 < s[j].0);
    }
}

/// The two halves of an ascending sequence are ascending, and every key of
/// the first half is smaller than every key of the second.
pub proof fn lemma_ascending_split(a: Seq<Entry>, b: Seq<Entry>)
    requires
        ascending(a + b),
    ensures
        ascending(a),
        ascending(b),
        forall|i: int, j: int|
            0 <= i < a.len() && 0 <= j < b.len() ==> (#[trigger] a[i]).0 < (#[trigger] b[j]).0,
{
    let s = a + b;
    assert forall|i: int, j: int| 0 <= i < j < a.len() implies (#[trigger] a[i]).0 < (
    #[trigger] a[j]).0 by {
        assert(s[i] == a[i] && s[j] == a[j]);
    }
    assert forall|i: int, j: int| 0 <= i < j < b.len() implies (#[trigger] b[i]).0 < (
    #[trigger] b[j]).0 by {
        assert(s[a.len() + i] == b[i] && s[a.len() + j] == b[j]);
    }
    assert forall|i: int, j: int| 0 <= i < a.len() && 0 <= j < b.len() implies (#[trigger] a[i]).0
        < (#[trigger] b[j]).0 by {
        assert(s[i] == a[i] && s[a.len() + j] == b[j]);
    }
}

/// Two ascending sequences whose keys meet in order make an ascending sequence.
pub proof fn lemma_ascending_join(a: Seq<Entry>, b: Seq<Entry>)
    requires
        ascending(a),
        ascending(b),
        a.len() > 0 && b.len() > 0 ==> a.last().0 < b[0].0,
    ensures
        ascending(a + b),
{
    let s = a + b;
    assert forall|i: int, j: int| 0 <= i < j < s.len() implies (#[trigger] s[i]).0 < (
    #[trigger] s[j]).0 by {
        if j < a.len() {
            assert(s[i] == a[i] && s[j] == a[j]);
        } else if i >= a.len() {
            assert(s[i] == b[i - a.len()] && s[j] == b[j - a.len()]);
        } else {
            assert(s[i] == a[i] && s[j] == b[j - a.len()]);
            if i < a.len() - 1 {
                assert(a[i].0 < a[a.len() - 1].0);
            }
            if j - a.len() > 0 {
                assert(b[0].0 < b[j - a.len()].0);
            }
        }
    }
}

/// A key is found in a concatenation exactly if it is found in a part.
pub proof fn lemma_has_key_concat(a: Seq<Entry>, b: Seq<Entry>, k: i32)
    ensures
        has_key(a + b, k) <==> has_key(a, k) || has_key(b, k),
{
    let s = a + b;
    if has_key(a, k) {
        let i = index_of(a, k);
        assert(s[i] == a[i]);
    }
    if has_key(b, k) {
        let i = index_of(b, k);
        assert(s[a.len() + i] == b[i]);
    }
    if has_key(s, k) {
        let i = index_of(s, k);
        if i < a.len() {
            assert(a[i] == s[i]);
        } else {
            assert(b[i - a.len()] == s[i]);
        }
    }
}

/// The map of an ascending concatenation is the union of the parts' maps.
pub proof fn lemma_map_concat(a: Seq<Entry>, b: Seq<Entry>)
    requires
        ascending(a + b),
    ensures
        entries_map(a + b) == entries_map(a).union_prefer_right(entries_map(b)),
        entries_map(a).dom().disjoint(entries_map(b).dom()),
{
    let s = a + b;
    let m = entries_map(a).union_prefer_right(entries_map(b));
    lemma_ascending_split(a, b);
    assert forall|k: i32| entries_map(s).contains_key(k) <==> m.contains_key(k) by {
        lemma_has_key_concat(a, b, k);
    }
    assert forall|k: i32| entries_map(s).contains_key(k) implies #[trigger] entries_map(s)[k]
        == m[k] by {
        lemma_has_key_concat(a, b, k);
        if has_key(b, k) {
            let i = index_of(b, k);
            assert(s[a.len() + i] == b[i]);
            lemma_map_at(s, a.len() + i);
            lemma_map_at(b, i);
        } else {
            let i = index_of(a, k);
            assert(s[i] == a[i]);
            lemma_map_at(s, i);
            lemma_map_at(a, i);
        }
    }
    assert(entries_map(s) =~= m);
    assert forall|k: i32|
        !(entries_map(a).dom().contains(k) && entries_map(b).dom().contains(k)) by {
        if has_key(a, k) && has_key(b, k) {
            let i = index_of(a, k);
            let j = index_of(b, k);
            assert(a[i].0 < b[j].0);
        }
    }
}

/// An ascending sequence that ends below `k` does not hold `k`.
pub proof fn lemma_below_has_not(s: Seq<Entry>, k: i32)
    requires
        ascending(s),
        below(s, k),
    ensures
        !has_key(s, k),
        forall|i: int| 0 <= i < s.len() ==> (#[trigger] s[i]).0 < k,
{
    assert forall|i: int| 0 <= i < s.len() implies (#[trigger] s[i]).0 < k by {
        if i < s.len() - 1 {
            assert(s[i].0 < s[s.len() - 1].0);
        }
    }
}

/// An ascending sequence that starts above `k` does not hold `k`.
pub proof fn lemma_above_has_not(s: Seq<Entry>, k: i32)
    requires
        ascending(s),
        above(s, k),
    ensures
        !has_key(s, k),
        forall|i: int| 0 <= i < s.len() ==> k < (#[trigger] s[i]).0,
{
    assert forall|i: int| 0 <= i < s.len() implies k < (#[trigger] s[i]).0 by {
        if 0 < i {
            assert(s[0].0 < s[i].0);
        }
    }
}

/// Replacing the middle part `c` of an ascending sequence by an ascending
/// `c2` whose keys are keys of `c` or the key `k`, where `k` lies between the
/// outer parts, leaves the sequence ascending; the maps of both sequences are
/// the unions of their parts' maps, and neither outer part holds `k`.
pub proof fn lemma_replace_middle(
    l: Seq<Entry>,
    c: Seq<Entry>,
    c2: Seq<Entry>,
    r: Seq<Entry>,
    k: i32,
)
    requires
        ascending(l + c + r),
        ascending(c2),
        below(l, k),
        above(r, k),
        forall|x: i32| has_key(c2, x) ==> has_key(c, x) || x == k,
    ensures
        ascending(l + c2 + r),
        entries_map(l + c + r) == entries_map(l).union_prefer_right(
            entries_map(c),
        ).union_prefer_right(entries_map(r)),
        entries_map(l + c2 + r) == entries_map(l).union_prefer_right(
            entries_map(c2),
        ).union_prefer_right(entries_map(r)),
        !has_key(l, k),
        !has_key(r, k),
        ascending(c),
{
    lemma_ascending_split(l + c, r);
    lemma_ascending_split(l, c);
    lemma_below_has_not(l, k);
    lemma_above_has_not(r, k);
    assert forall|i: int, j: int| 0 <= i < l.len() && 0 <= j < r.len() implies (#[trigger] l[i]).0
        < (#[trigger] r[j]).0 by {
        assert((l + c)[i] == l[i]);
    }
    assert forall|i: int| 0 <= i < c2.len() implies (l.len() > 0 ==> l.last().0 < (
    #[trigger] c2[i]).0) && (r.len() > 0 ==> c2[i].0 < r[0].0) by {
        let x = c2[i].0;
        assert(has_key(c2, x));
        if x != k {
            let j = index_of(c, x);
            assert(c[j].0 == x);
            if r.len() > 0 {
                assert((l + c)[l.len() + j] == c[j]);
            }
        }
    }
    lemma_ascending_join(l, c2);
    if c2.len() > 0 {
        assert((l + c2).last() == c2.last());
    } else {
        assert(l + c2 =~= l);
    }
    lemma_ascending_join(l + c2, r);
    lemma_map_concat(l + c, r);
    lemma_map_concat(l, c);
    lemma_map_concat(l + c2, r);
    lemma_map_concat(l, c2);
}

/// Putting `k` with the value `v` into the middle part puts it into the whole.
pub proof fn lemma_middle_insert(
    l: Seq<Entry>,
    c: Seq<Entry>,
    c2: Seq<Entry>,
    r: Seq<Entry>,
    k: i32,
    v: Seq<char>,
)
    requires
        ascending(l + c + r),
        ascending(c2),
        below(l, k),
        above(r, k),
        entries_map(c2) == entries_map(c).insert(k, v),
    ensures
        ascending(l + c2 + r),
        entries_map(l + c2 + r) == entries_map(l + c + r).insert(k, v),
{
    assert forall|x: i32| has_key(c2, x) implies has_key(c, x) || x == k by {
        assert(entries_map(c2).contains_key(x));
        assert(entries_map(c).insert(k, v).contains_key(x));
    }
    lemma_replace_middle(l, c, c2, r, k);
    assert(!entries_map(r).contains_key(k));
    assert(entries_map(l + c2 + r) =~= entries_map(l + c + r).insert(k, v));
}

/// Taking `k` out of the middle part takes it out of the whole.
pub proof fn lemma_middle_remove(
    l: Seq<Entry>,
    c: Seq<Entry>,
    c2: Seq<Entry>,
    r: Seq<Entry>,
    k: i32,
)
    requires
        ascending(l + c + r),
        ascending(c2),
        below(l, k),
        above(r, k),
        entries_map(c2) == entries_map(c).remove(k),
    ensures
        ascending(l + c2 + r),
        entries_map(l + c2 + r) == entries_map(l + c + r).remove(k),
        has_key(l + c + r, k) == has_key(c, k),
{
    assert forall|x: i32| has_key(c2, x) implies has_key(c, x) || x == k by {
        assert(entries_map(c2).contains_key(x));
        assert(entries_map(c).remove(k).contains_key(x));
    }
    lemma_replace_middle(l, c, c2, r, k);
    assert(!entries_map(r).contains_key(k));
    assert(!entries_map(l).contains_key(k));
    assert(entries_map(l + c2 + r) =~= entries_map(l + c + r).remove(k));
    lemma_has_key_concat(l + c, r, k);
    lemma_has_key_concat(l, c, k);
}

/// A key that lies between the outer parts is looked up in the middle part.
pub proof fn lemma_middle_lookup(l: Seq<Entry>, c: Seq<Entry>, r: Seq<Entry>, k: i32)
    requires
        ascending(l + c + r),
        below(l, k),
        above(r, k),
    ensures
        ascending(c),
        has_key(l + c + r, k) == has_key(c, k),
        has_key(c, k) ==> entries_map(l + c + r)[k] == entries_map(c)[k],
{
    lemma_ascending_split(l + c, r);
    lemma_ascending_split(l, c);
    lemma_replace_middle(l, c, c, r, k);
    assert(!entries_map(r).contains_key(k));
    assert(!entries_map(l).contains_key(k));
    lemma_has_key_concat(l + c, r, k);
    lemma_has_key_concat(l, c, k);
    if has_key(c, k) {
        assert(entries_map(c).contains_key(k));
    }
}

/// The map of a single entry.
pub proof fn lemma_map_single(e: Entry)
    ensures
        ascending(seq![e]),
        entries_map(seq![e]) == Map::<i32, Seq<char>>::empty().insert(e.0, e.1),
        entries_map(Seq::<Entry>::empty()) == Map::<i32, Seq<char>>::empty(),
        ascending(Seq::<Entry>::empty()),
{
    let s = seq![e];
    lemma_map_at(s, 0);
    assert forall|k: i32| has_key(s, k) implies k == e.0 by {
        let i = index_of(s, k);
        assert(s[i] == e);
    }
    assert(entries_map(s) =~= Map::<i32, Seq<char>>::empty().insert(e.0, e.1));
    assert(entries_map(Seq::<Entry>::empty()) =~= Map::<i32, Seq<char>>::empty());
}

/// The segments of an inner node in key order: the sequence of the first
/// subtree, the first own entry, the sequence of the second subtree, and so
/// on to the last subtree. `kids` holds one sequence more than `own` holds
/// entries.
pub closed spec fn interleave(kids: Seq<Seq<Entry>>, own: Seq<Entry>) -> Seq<Seq<Entry>> {
    Seq::new(
        (2 * own.len() + 1) as nat,
        |j: int|
            if j % 2 == 0 {
                kids[j / 2]
            } else {
                seq![own[j / 2]]
            },
    )
}

/// The entries of an inner node in key order.
pub closed spec fn joined(kids: Seq<Seq<Entry>>, own: Seq<Entry>) -> Seq<Entry> {
    interleave(kids, own).flatten()
}

/// What stands before the subtree number `pos` in `joined(kids, own)`.
pub closed spec fn left_of(kids: Seq<Seq<Entry>>, own: Seq<Entry>, pos: int) -> Seq<Entry> {
    interleave(kids, own).subrange(0, 2 * pos).flatten()
}

/// What stands behind the subtree number `pos` in `joined(kids, own)`.
pub closed spec fn right_of(kids: Seq<Seq<Entry>>, own: Seq<Entry>, pos: int) -> Seq<Entry> {
    interleave(kids, own).subrange(2 * pos + 1, (2 * own.len() + 1) as int).flatten()
}

/// The joined sequence is what stands before a subtree, the subtree, and
/// what stands behind it.
pub proof fn lemma_joined_at(kids: Seq<Seq<Entry>>, own: Seq<Entry>, pos: int)
    requires
        0 <= pos <= own.len(),
    ensures
        joined(kids, own) == left_of(kids, own, pos) + kids[pos] + right_of(kids, own, pos),
{
    let segs = interleave(kids, own);
    let a = segs.subrange(0, 2 * pos);
    let b = segs.subrange(2 * pos + 1, (2 * own.len() + 1) as int);
    assert(segs =~= a + seq![kids[pos]] + b);
    lemma_flatten_concat(a + seq![kids[pos]], b);
    lemma_flatten_concat(a, seq![kids[pos]]);
    lemma_flatten_one(kids[pos]);
}

/// What stands before a subtree ends with the subtree before it and the own
/// entry between the two.
pub proof fn lemma_left_step(kids: Seq<Seq<Entry>>, own: Seq<Entry>, pos: int)
    requires
        0 < pos <= own.len(),
    ensures
        left_of(kids, own, pos) == left_of(kids, own, pos - 1) + kids[pos - 1] + seq![
            own[pos - 1],
        ],
{
    let segs = interleave(kids, own);
    let a = segs.subrange(0, 2 * (pos - 1));
    assert(segs.subrange(0, 2 * pos) =~= a + seq![kids[pos - 1]] + seq![seq![own[pos - 1]]]);
    lemma_flatten_concat(a + seq![kids[pos - 1]], seq![seq![own[pos - 1]]]);
    lemma_flatten_concat(a, seq![kids[pos - 1]]);
    lemma_flatten_one(kids[pos - 1]);
    lemma_flatten_one(seq![own[pos - 1]]);
}

/// What stands behind a subtree begins with the own entry behind it and the
/// subtree after that.
pub proof fn lemma_right_step(kids: Seq<Seq<Entry>>, own: Seq<Entry>, pos: int)
    requires
        0 <= pos < own.len(),
    ensures
        right_of(kids, own, pos) == seq![own[pos]] + kids[pos + 1] + right_of(
            kids,
            own,
            pos + 1,
        ),
{
    let segs = interleave(kids, own);
    let b = segs.subrange(2 * (pos + 1) + 1, (2 * own.len() + 1) as int);
    assert(segs.subrange(2 * pos + 1, (2 * own.len() + 1) as int) =~= seq![seq![own[pos]]] + seq![
        kids[pos + 1],
    ] + b);
    lemma_flatten_concat(seq![seq![own[pos]]] + seq![kids[pos + 1]], b);
    lemma_flatten_concat(seq![seq![own[pos]]], seq![kids[pos + 1]]);
    lemma_flatten_one(kids[pos + 1]);
    lemma_flatten_one(seq![own[pos]]);
}

/// Nothing stands before the first subtree or behind the last.
pub proof fn lemma_ends(kids: Seq<Seq<Entry>>, own: Seq<Entry>)
    ensures
        left_of(kids, own, 0) == Seq::<Entry>::empty(),
        right_of(kids, own, own.len() as int) == Seq::<Entry>::empty(),
{
    let segs = interleave(kids, own);
    assert(segs.subrange(0, 0) =~= Seq::<Seq<Entry>>::empty());
    assert(segs.subrange((2 * own.len() + 1) as int, (2 * own.len() + 1) as int) =~= Seq::<Seq<Entry>>::empty());
}

/// What stands before a subtree depends on nothing at or behind it.
pub proof fn lemma_left_frame(
    kids: Seq<Seq<Entry>>,
    own: Seq<Entry>,
    kids2: Seq<Seq<Entry>>,
    own2: Seq<Entry>,
    pos: int,
)
    requires
        0 <= pos <= own.len(),
        pos <= own2.len(),
        forall|i: int| 0 <= i < pos ==> own[i] == own2[i] && kids[i] == kids2[i],
    ensures
        left_of(kids, own, pos) == left_of(kids2, own2, pos),
{
    let a = interleave(kids, own).subrange(0, 2 * pos);
    let b = interleave(kids2, own2).subrange(0, 2 * pos);
    assert forall|j: int| 0 <= j < 2 * pos implies a[j] == b[j] by {
        assert(0 <= j / 2 < pos);
    }
    assert(a =~= b);
}

/// What stands behind a subtree depends on nothing at or before it.
pub proof fn lemma_right_frame(
    kids: Seq<Seq<Entry>>,
    own: Seq<Entry>,
    pos: int,
    kids2: Seq<Seq<Entry>>,
    own2: Seq<Entry>,
    pos2: int,
)
    requires
        0 <= pos <= own.len(),
        0 <= pos2 <= own2.len(),
        own.len() - pos == own2.len() - pos2,
        forall|i: int|
            #![trigger own[pos + i]]
            0 <= i < own.len() - pos ==> own[pos + i] == own2[pos2 + i] && kids[pos + 1 + i]
                == kids2[pos2 + 1 + i],
    ensures
        right_of(kids, own, pos) == right_of(kids2, own2, pos2),
{
    let a = interleave(kids, own).subrange(2 * pos + 1, (2 * own.len() + 1) as int);
    let b = interleave(kids2, own2).subrange(2 * pos2 + 1, (2 * own2.len() + 1) as int);
    assert(a.len() == b.len());
    assert forall|j: int| 0 <= j < a.len() implies a[j] == b[j] by {
        let i = j / 2;
        if j % 2 == 0 {
            assert(0 <= i < own.len() - pos);
            assert(own[pos + i] == own2[pos2 + i]);
            assert((2 * pos + 1 + j) / 2 == pos + i);
            assert((2 * pos2 + 1 + j) / 2 == pos2 + i);
            assert((2 * pos + 1 + j) % 2 == 1);
            assert((2 * pos2 + 1 + j) % 2 == 1);
        } else {
            assert(0 <= i < own.len() - pos);
            assert(own[pos + i] == own2[pos2 + i]);
            assert((2 * pos + 1 + j) / 2 == pos + 1 + i);
            assert((2 * pos2 + 1 + j) / 2 == pos2 + 1 + i);
            assert((2 * pos + 1 + j) % 2 == 0);
            assert((2 * pos2 + 1 + j) % 2 == 0);
        }
    }
    assert(a =~= b);
}

/// Putting an entry into an ascending sequence between its neighbours in key
/// order keeps the sequence ascending and puts the entry into its map.
pub proof fn lemma_insert_at(s: Seq<Entry>, i: int, e: Entry)
    requires
        ascending(s),
        0 <= i <= s.len(),
        i > 0 ==> s[i - 1].0 < e.0,
        i < s.len() ==> e.0 < s[i].0,
    ensures
        ascending(s.insert(i, e)),
        entries_map(s.insert(i, e)) == entries_map(s).insert(e.0, e.1),
{
    let l = s.subrange(0, i);
    let r = s.subrange(i, s.len() as int);
    let c = Seq::<Entry>::empty();
    assert(s =~= l + c + r);
    assert(s.insert(i, e) =~= l + seq![e] + r);
    lemma_map_single(e);
    lemma_middle_insert(l, c, seq![e], r, e.0, e.1);
}

/// Giving the key at one position of an ascending sequence a new value
/// keeps the sequence ascending and binds the key to that value in its map.
pub proof fn lemma_update_at(s: Seq<Entry>, i: int, v: Seq<char>)
    requires
        ascending(s),
        0 <= i < s.len(),
    ensures
        ascending(s.update(i, (s[i].0, v))),
        entries_map(s.update(i, (s[i].0, v))) == entries_map(s).insert(s[i].0, v),
{
    let k = s[i].0;
    let l = s.subrange(0, i);
    let r = s.subrange(i + 1, s.len() as int);
    assert(s =~= l + seq![s[i]] + r);
    assert(s.update(i, (k, v)) =~= l + seq![(k, v)] + r);
    lemma_map_single(s[i]);
    lemma_map_single((k, v));
    assert(entries_map(seq![(k, v)]) =~= entries_map(seq![s[i]]).insert(k, v));
    if i > 0 {
        assert(l.last() == s[i - 1]);
        assert(s[i - 1].0 < s[i].0);
    }
    if i + 1 < s.len() {
        assert(r[0] == s[i + 1]);
        assert(s[i].0 < s[i + 1].0);
    }
    lemma_middle_insert(l, seq![s[i]], seq![(k, v)], r, k, v);
}

/// Taking one position out of an ascending sequence keeps the sequence
/// ascending and takes the key out of its map.
pub proof fn lemma_remove_at(s: Seq<Entry>, i: int)
    requires
        ascending(s),
        0 <= i < s.len(),
    ensures
        ascending(s.remove(i)),
        entries_map(s.remove(i)) == entries_map(s).remove(s[i].0),
{
    let k = s[i].0;
    let l = s.subrange(0, i);
    let r = s.subrange(i + 1, s.len() as int);
    let c2 = Seq::<Entry>::empty();
    assert(s =~= l + seq![s[i]] + r);
    assert(s.remove(i) =~= l + c2 + r);
    lemma_map_single(s[i]);
    assert(entries_map(c2) =~= entries_map(seq![s[i]]).remove(k));
    if i > 0 {
        assert(l.last() == s[i - 1]);
        assert(s[i - 1].0 < s[i].0);
    }
    if i + 1 < s.len() {
        assert(r[0] == s[i + 1]);
        assert(s[i].0 < s[i + 1].0);
    }
    lemma_middle_remove(l, seq![s[i]], c2, r, k);
}

/// Two neighbouring subtrees and the own entry between them may be replaced
/// by others that hold the same entries in the same order.
pub proof fn lemma_joined_window(
    kids: Seq<Seq<Entry>>,
    own: Seq<Entry>,
    kids2: Seq<Seq<Entry>>,
    own2: Seq<Entry>,
    c: int,
)
    requires
        0 <= c < own.len(),
        own2.len() == own.len(),
        forall|i: int| 0 <= i < own.len() && i != c ==> own2[i] == own[i],
        forall|i: int| 0 <= i <= own.len() && i != c && i != c + 1 ==> kids2[i] == kids[i],
        kids2[c] + seq![own2[c]] + kids2[c + 1] == kids[c] + seq![own[c]] + kids[c + 1],
    ensures
        joined(kids2, own2) == joined(kids, own),
{
    lemma_joined_at(kids, own, c);
    lemma_joined_at(kids2, own2, c);
    lemma_right_step(kids, own, c);
    lemma_right_step(kids2, own2, c);
    lemma_left_frame(kids, own, kids2, own2, c);
    lemma_right_frame(kids, own, c + 1, kids2, own2, c + 1);
    let l = left_of(kids, own, c);
    let r = right_of(kids, own, c + 1);
    assert(joined(kids, own) =~= l + (kids[c] + seq![own[c]] + kids[c + 1]) + r);
    assert(joined(kids2, own2) =~= l + (kids2[c] + seq![own2[c]] + kids2[c + 1]) + r);
}

/// Two neighbouring subtrees and the own entry between them may be replaced
/// by one subtree that holds the entries of all three in the same order.
pub proof fn lemma_joined_merge(
    kids: Seq<Seq<Entry>>,
    own: Seq<Entry>,
    kids2: Seq<Seq<Entry>>,
    own2: Seq<Entry>,
    c: int,
)
    requires
        0 <= c < own.len(),
        kids.len() == own.len() + 1,
        own2 == own.remove(c),
        kids2 == kids.remove(c + 1).update(c, kids[c] + seq![own[c]] + kids[c + 1]),
    ensures
        joined(kids2, own2) == joined(kids, own),
{
    lemma_joined_at(kids, own, c);
    lemma_right_step(kids, own, c);
    lemma_joined_at(kids2, own2, c);
    lemma_left_frame(kids, own, kids2, own2, c);
    lemma_right_frame(kids, own, c + 1, kids2, own2, c);
    let l = left_of(kids, own, c);
    let r = right_of(kids, own, c + 1);
    assert(joined(kids, own) =~= l + (kids[c] + seq![own[c]] + kids[c + 1]) + r);
}

/// Where an entry `old` follows the part `c`, the last entry of `c` may take
/// its place: with `c2` holding what `c` held but for its last key, the
/// whole loses the key of `old` and nothing else.
pub proof fn lemma_take_last(
    l: Seq<Entry>,
    c: Seq<Entry>,
    c2: Seq<Entry>,
    old: Entry,
    r: Seq<Entry>,
)
    requires
        ascending(l + (c + seq![old]) + r),
        c.len() > 0,
        ascending(c2),
        entries_map(c2) == entries_map(c).remove(c.last().0),
    ensures
        ascending(l + (c2 + seq![c.last()]) + r),
        entries_map(l + (c2 + seq![c.last()]) + r) == entries_map(l + (c + seq![old]) + r).remove(
            old.0,
        ),
        has_key(l + (c + seq![old]) + r, old.0),
{
    let p = c.last();
    let m = c + seq![old];
    let m2 = c2 + seq![p];
    let s = l + m + r;
    lemma_ascending_split(l + m, r);
    lemma_ascending_split(l, m);
    lemma_ascending_split(c, seq![old]);
    assert forall|i: int| 0 <= i < c2.len() implies (#[trigger] c2[i]).0 < p.0 by {
        let x = c2[i].0;
        assert(has_key(c2, x));
        assert(entries_map(c2).contains_key(x));
        assert(entries_map(c).remove(p.0).contains_key(x));
        let j = index_of(c, x);
        if j < c.len() - 1 {
            assert(c[j].0 < c[c.len() - 1].0);
        }
    }
    lemma_map_single(p);
    lemma_map_single(old);
    lemma_ascending_join(c2, seq![p]);
    lemma_map_concat(c2, seq![p]);
    lemma_map_concat(c, seq![old]);
    lemma_map_at(c, c.len() - 1);
    assert(m[c.len() as int] == old);
    assert(m[c.len() - 1] == p);
    assert(p.0 < old.0);
    assert(!entries_map(c).contains_key(old.0)) by {
        if has_key(c, old.0) {
            let j = index_of(c, old.0);
            assert(m[j] == c[j]);
        }
    }
    assert(entries_map(m2) =~= entries_map(m).remove(old.0));
    assert(s[(l.len() + c.len()) as int] == old);
    if l.len() > 0 {
        assert(s[l.len() - 1] == l.last());
    }
    if r.len() > 0 {
        assert(s[(l.len() + c.len() + 1) as int] == r[0]);
    }
    lemma_middle_remove(l, m, m2, r, old.0);
    lemma_map_at(s, (l.len() + c.len()) as int);
}

/// Where an entry `old` precedes the part `c`, the first entry of `c` may
/// take its place: with `c2` holding what `c` held but for its first key,
/// the whole loses the key of `old` and nothing else.
pub proof fn lemma_take_first(
    l: Seq<Entry>,
    old: Entry,
    c: Seq<Entry>,
    c2: Seq<Entry>,
    r: Seq<Entry>,
)
    requires
        ascending(l + (seq![old] + c) + r),
        c.len() > 0,
        ascending(c2),
        entries_map(c2) == entries_map(c).remove(c[0].0),
    ensures
        ascending(l + (seq![c[0]] + c2) + r),
        entries_map(l + (seq![c[0]] + c2) + r) == entries_map(l + (seq![old] + c) + r).remove(
            old.0,
        ),
        has_key(l + (seq![old] + c) + r, old.0),
{
    let p = c[0];
    let m = seq![old] + c;
    let m2 = seq![p] + c2;
    let s = l + m + r;
    lemma_ascending_split(l + m, r);
    lemma_ascending_split(l, m);
    lemma_ascending_split(seq![old], c);
    assert forall|i: int| 0 <= i < c2.len() implies p.0 < (#[trigger] c2[i]).0 by {
        let x = c2[i].0;
        assert(has_key(c2, x));
        assert(entries_map(c2).contains_key(x));
        assert(entries_map(c).remove(p.0).contains_key(x));
        let j = index_of(c, x);
        if j > 0 {
            assert(c[0].0 < c[j].0);
        }
    }
    lemma_map_single(p);
    lemma_map_single(old);
    lemma_ascending_join(seq![p], c2);
    lemma_map_concat(seq![p], c2);
    lemma_map_concat(seq![old], c);
    lemma_map_at(c, 0);
    assert(m[0] == old);
    assert(m[1] == p);
    assert(old.0 < p.0);
    assert(!entries_map(c).contains_key(old.0)) by {
        if has_key(c, old.0) {
            let j = index_of(c, old.0);
            assert(m[j + 1] == c[j]);
        }
    }
    assert(entries_map(m2) =~= entries_map(m).remove(old.0));
    assert(s[l.len() as int] == old);
    if l.len() > 0 {
        assert(s[l.len() - 1] == l.last());
    }
    if r.len() > 0 {
        assert(s[(l.len() + c.len() + 1) as int] == r[0]);
    }
    lemma_middle_remove(l, m, m2, r, old.0);
    lemma_map_at(s, l.len() as int);
}

/// Binding a key that is not smaller than the first key leaves the first
/// key as it is.
pub proof fn lemma_first_kept_insert(s: Seq<Entry>, s2: Seq<Entry>, k: i32, v: Seq<char>)
    requires
        ascending(s),
        ascending(s2),
        entries_map(s2) == entries_map(s).insert(k, v),
        s.len() > 0,
        s[0].0 <= k,
    ensures
        s2.len() > 0,
        s2[0].0 == s[0].0,
{
    lemma_map_at(s, 0);
    assert(entries_map(s2).contains_key(s[0].0));
    assert(has_key(s2, s[0].0));
    let j = index_of(s2, s[0].0);
    if j > 0 {
        assert(s2[0].0 < s2[j].0);
        lemma_map_at(s2, 0);
        assert(entries_map(s).insert(k, v).contains_key(s2[0].0));
        if s2[0].0 != k {
            let i = index_of(s, s2[0].0);
            if i > 0 {
                assert(s[0].0 < s[i].0);
            }
        }
    }
}

/// Removing a key other than the first key leaves the first key as it is.
pub proof fn lemma_first_kept_remove(s: Seq<Entry>, s2: Seq<Entry>, k: i32)
    requires
        ascending(s),
        ascending(s2),
        entries_map(s2) == entries_map(s).remove(k),
        s.len() > 0,
        s[0].0 != k,
    ensures
        s2.len() > 0,
        s2[0].0 == s[0].0,
{
    lemma_map_at(s, 0);
    assert(entries_map(s2).contains_key(s[0].0));
    assert(has_key(s2, s[0].0));
    let j = index_of(s2, s[0].0);
    if j > 0 {
        assert(s2[0].0 < s2[j].0);
        lemma_map_at(s2, 0);
        assert(entries_map(s).remove(k).contains_key(s2[0].0));
        let i = index_of(s, s2[0].0);
        if i > 0 {
            assert(s[0].0 < s[i].0);
        }
    }
}

/// The map that results from binding, in the order of `ops`, each key of
/// `ops` to its value, starting from `m`.
pub open spec fn insert_all(m: Map<i32, Seq<char>>, ops: Seq<Entry>) -> Map<i32, Seq<char>>
    decreases ops.len(),
{
    if ops.len() == 0 {
        m
    } else {
        insert_all(m, ops.drop_last()).insert(ops.last().0, ops.last().1)
    }
}

/// The value of the last entry of `ops` that carries the key `k`.
pub open spec fn last_written(ops: Seq<Entry>, k: i32) -> Option<Seq<char>>
    decreases ops.len(),
{
    if ops.len() == 0 {
        None
    } else if ops.last().0 == k {
        Some(ops.last().1)
    } else {
        last_written(ops.drop_last(), k)
    }
}

/// Some entry of `ops` carries the key `k` exactly if a value was last
/// written for it.
pub proof fn lemma_last_written(ops: Seq<Entry>, k: i32)
    ensures
        has_key(ops, k) <==> last_written(ops, k) is Some,
    decreases ops.len(),
{
    if ops.len() > 0 {
        let rest = ops.drop_last();
        lemma_last_written(rest, k);
        if ops.last().0 == k {
            assert(ops[ops.len() - 1].0 == k);
        } else {
            if has_key(rest, k) {
                let j = index_of(rest, k);
                assert(ops[j] == rest[j]);
            }
            if has_key(ops, k) {
                let j = index_of(ops, k);
                assert(rest[j] == ops[j]);
            }
        }
    }
}

/// After a run of insertions into an empty map, a key is bound exactly if a
/// value was written for it, and it is bound to the value written last.
pub proof fn lemma_insert_all(ops: Seq<Entry>, k: i32)
    ensures
        insert_all(Map::empty(), ops).contains_key(k) <==> last_written(ops, k) is Some,
        last_written(ops, k) is Some ==> insert_all(Map::empty(), ops)[k] == last_written(
            ops,
            k,
        )->Some_0,
    decreases ops.len(),
{
    if ops.len() > 0 {
        lemma_insert_all(ops.drop_last(), k);
    }
}

/// A full scan after a run of insertions into an empty tree: where `scan`
/// is ascending and stands for the map that the insertions `ops` build, it
/// holds exactly the keys that were inserted, each once, in ascending
/// order, each with the value that was written for it last.
pub proof fn lemma_scan_after_inserts(ops: Seq<Entry>, scan: Seq<Entry>)
    requires
        ascending(scan),
        entries_map(scan) == insert_all(Map::empty(), ops),
    ensures
        forall|k: i32| has_key(scan, k) <==> has_key(ops, k),
        forall|i: int|
            0 <= i < scan.len() ==> last_written(ops, (#[trigger] scan[i]).0) == Some(scan[i].1),
{
    assert forall|k: i32| has_key(scan, k) <==> has_key(ops, k) by {
        lemma_insert_all(ops, k);
        lemma_last_written(ops, k);
        assert(entries_map(scan).contains_key(k) <==> has_key(scan, k));
    }
    assert forall|i: int| 0 <= i < scan.len() implies last_written(ops, (#[trigger] scan[i]).0)
        == Some(scan[i].1) by {
        lemma_map_at(scan, i);
        lemma_insert_all(ops, scan[i].0);
    }
}

/// A sequence in which each key is smaller than the next one is ascending.
pub proof fn lemma_adjacent_ascending(s: Seq<Entry>)
    requires
        forall|i: int| 0 <= i < s.len() - 1 ==> (#[trigger] s[i]).0 < s[i + 1].0,
    ensures
        ascending(s),
    decreases s.len(),
{
    if s.len() > 1 {
        let t = s.drop_last();
        assert forall|i: int| 0 <= i < t.len() - 1 implies (#[trigger] t[i]).0 < t[i + 1].0 by {
            assert(t[i] == s[i]);
            assert(t[i + 1] == s[i + 1]);
        }
        lemma_adjacent_ascending(t);
        assert forall|i: int, j: int| 0 <= i < j < s.len() implies (#[trigger] s[i]).0 < (
        #[trigger] s[j]).0 by {
            if j < s.len() - 1 {
                assert(t[i] == s[i] && t[j] == s[j]);
            } else {
                let k = s.len() - 2;
                assert(s[k].0 < s[k + 1].0);
                if i < k {
                    assert(t[i] == s[i] && t[k] == s[k]);
                    assert(t[i].0 < t[k].0);
                }
            }
        }
    }
}

} // verus!
