//! The concatenation of a sequence of sequences, seen from one of its parts:
//! what stands before the part, the part, and what stands behind it.

use vstd::prelude::*;
use vstd::seq_lib::lemma_flatten_concat;

verus! {

/// The concatenation of the parts before the part number `pos`.
pub closed spec fn before<A>(kids: Seq<Seq<A>>, pos: int) -> Seq<A> {
    kids.subrange(0, pos).flatten()
}

/// The concatenation of the parts behind the part number `pos`.
pub closed spec fn after<A>(kids: Seq<Seq<A>>, pos: int) -> Seq<A> {
    kids.subrange(pos + 1, kids.len() as int).flatten()
}

/// The concatenation of one part is that part.
pub proof fn lemma_flatten_one<A>(x: Seq<A>)
    ensures
        seq![x].flatten() == x,
{
    seq![x].lemma_flatten_one_element();
}

/// The whole is what stands before a part, the part, and what stands behind
/// it.
pub proof fn lemma_flat_at<A>(kids: Seq<Seq<A>>, pos: int)
    requires
        0 <= pos < kids.len(),
    ensures
        kids.flatten() == before(kids, pos) + kids[pos] + after(kids, pos),
{
    let a = kids.subrange(0, pos);
    let b = kids.subrange(pos + 1, kids.len() as int);
    assert(kids =~= a + seq![kids[pos]] + b);
    lemma_flatten_concat(a + seq![kids[pos]], b);
    lemma_flatten_concat(a, seq![kids[pos]]);
    lemma_flatten_one(kids[pos]);
}

/// Nothing stands before the first part or behind the last, and all parts
/// stand before the end.
pub proof fn lemma_flat_ends<A>(kids: Seq<Seq<A>>)
    ensures
        before(kids, 0) == Seq::<A>::empty(),
        kids.len() > 0 ==> after(kids, kids.len() - 1) == Seq::<A>::empty(),
        before(kids, kids.len() as int) == kids.flatten(),
{
    assert(kids.subrange(0, 0) =~= Seq::<Seq<A>>::empty());
    assert(kids.subrange(kids.len() as int, kids.len() as int) =~= Seq::<Seq<A>>::empty());
    assert(kids.subrange(0, kids.len() as int) =~= kids);
}

/// What stands before a part ends with the part before it.
pub proof fn lemma_before_step<A>(kids: Seq<Seq<A>>, pos: int)
    requires
        0 < pos <= kids.len(),
    ensures
        before(kids, pos) == before(kids, pos - 1) + kids[pos - 1],
{
    let a = kids.subrange(0, pos - 1);
    assert(kids.subrange(0, pos) =~= a + seq![kids[pos - 1]]);
    lemma_flatten_concat(a, seq![kids[pos - 1]]);
    lemma_flatten_one(kids[pos - 1]);
}

/// What stands behind a part begins with the part behind it.
pub proof fn lemma_after_step<A>(kids: Seq<Seq<A>>, pos: int)
    requires
        0 <= pos,
        pos + 1 < kids.len(),
    ensures
        after(kids, pos) == kids[pos + 1] + after(kids, pos + 1),
{
    let b = kids.subrange(pos + 2, kids.len() as int);
    assert(kids.subrange(pos + 1, kids.len() as int) =~= seq![kids[pos + 1]] + b);
    lemma_flatten_concat(seq![kids[pos + 1]], b);
    lemma_flatten_one(kids[pos + 1]);
}

/// Where each part is one item, the items of the parts before a part are
/// as many as those parts, and each is the item of its part.
pub proof fn lemma_flat_singles<A>(kids: Seq<Seq<A>>, pos: int)
    requires
        0 <= pos <= kids.len(),
        forall|i: int| 0 <= i < kids.len() ==> (#[trigger] kids[i]).len() == 1,
    ensures
        before(kids, pos).len() == pos,
        forall|i: int| 0 <= i < pos ==> before(kids, pos)[i] == kids[i][0],
    decreases pos,
{
    if pos == 0 {
        lemma_flat_ends(kids);
    } else {
        lemma_flat_singles(kids, pos - 1);
        lemma_before_step(kids, pos);
    }
}

/// What stands before a part depends on nothing at or behind it.
pub proof fn lemma_before_frame<A>(kids: Seq<Seq<A>>, kids2: Seq<Seq<A>>, pos: int)
    requires
        0 <= pos <= kids.len(),
        pos <= kids2.len(),
        forall|i: int| 0 <= i < pos ==> kids[i] == kids2[i],
    ensures
        before(kids, pos) == before(kids2, pos),
{
    assert(kids.subrange(0, pos) =~= kids2.subrange(0, pos));
}

/// What stands behind a part depends on nothing at or before it.
pub proof fn lemma_after_frame<A>(kids: Seq<Seq<A>>, pos: int, kids2: Seq<Seq<A>>, pos2: int)
    requires
        0 <= pos < kids.len(),
        0 <= pos2 < kids2.len(),
        kids.len() - pos == kids2.len() - pos2,
        forall|i: int|
            #![trigger kids[pos + i]]
            0 < i < kids.len() - pos ==> kids[pos + i] == kids2[pos2 + i],
    ensures
        after(kids, pos) == after(kids2, pos2),
{
    let a = kids.subrange(pos + 1, kids.len() as int);
    let b = kids2.subrange(pos2 + 1, kids2.len() as int);
    assert forall|j: int| 0 <= j < a.len() implies a[j] == b[j] by {
        assert(kids[pos + (j + 1)] == kids2[pos2 + (j + 1)]);
    }
    assert(a =~= b);
}

/// What a part holds, the whole holds.
pub proof fn lemma_flat_contains<A>(kids: Seq<Seq<A>>, pos: int, x: A)
    requires
        0 <= pos < kids.len(),
        kids[pos].contains(x),
    ensures
        kids.flatten().contains(x),
{
    lemma_flat_at(kids, pos);
    let l = before(kids, pos);
    let i = choose|i: int| 0 <= i < kids[pos].len() && kids[pos][i] == x;
    assert((l + kids[pos] + after(kids, pos))[l.len() + i] == x);
}

/// What a concatenation holds, one of its two parts holds.
pub proof fn lemma_concat_contains<A>(a: Seq<A>, b: Seq<A>, x: A)
    ensures
        (a + b).contains(x) <==> a.contains(x) || b.contains(x),
{
    let s = a + b;
    if a.contains(x) {
        let i = choose|i: int| 0 <= i < a.len() && a[i] == x;
        assert(s[i] == x);
    }
    if b.contains(x) {
        let i = choose|i: int| 0 <= i < b.len() && b[i] == x;
        assert(s[a.len() + i] == x);
    }
    if s.contains(x) {
        let i = choose|i: int| 0 <= i < s.len() && s[i] == x;
        if i < a.len() {
            assert(a[i] == x);
        } else {
            assert(b[i - a.len()] == x);
        }
    }
}

/// A concatenation holds nothing twice exactly if neither part does and the
/// parts have nothing in common.
pub proof fn lemma_concat_distinct<A>(a: Seq<A>, b: Seq<A>)
    ensures
        (a + b).no_duplicates() <==> (a.no_duplicates() && b.no_duplicates() && forall|x: A|
            !(a.contains(x) && b.contains(x))),
{
    let s = a + b;
    if s.no_duplicates() {
        assert forall|i: int, j: int| 0 <= i < a.len() && 0 <= j < a.len() && i != j implies a[i]
            != a[j] by {
            assert(s[i] == a[i] && s[j] == a[j]);
        }
        assert forall|i: int, j: int| 0 <= i < b.len() && 0 <= j < b.len() && i != j implies b[i]
            != b[j] by {
            assert(s[a.len() + i] == b[i] && s[a.len() + j] == b[j]);
        }
        assert forall|x: A| !(a.contains(x) && b.contains(x)) by {
            if a.contains(x) && b.contains(x) {
                let i = choose|i: int| 0 <= i < a.len() && a[i] == x;
                let j = choose|j: int| 0 <= j < b.len() && b[j] == x;
                assert(s[i] == x && s[a.len() + j] == x);
            }
        }
    }
    if a.no_duplicates() && b.no_duplicates() && forall|x: A| !(a.contains(x) && b.contains(x)) {
        assert forall|i: int, j: int| 0 <= i < s.len() && 0 <= j < s.len() && i != j implies s[i]
            != s[j] by {
            if i < a.len() && j >= a.len() {
                assert(a.contains(s[i]));
                assert(b[j - a.len()] == s[j]);
                assert(b.contains(s[j]));
            } else if j < a.len() && i >= a.len() {
                assert(a.contains(s[j]));
                assert(b[i - a.len()] == s[i]);
                assert(b.contains(s[i]));
            }
        }
    }
}

/// What a part holds, the concatenation of the parts up to a later part
/// holds.
pub proof fn lemma_before_contains<A>(kids: Seq<Seq<A>>, pos: int, j: int, x: A)
    requires
        0 <= j < pos <= kids.len(),
        kids[j].contains(x),
    ensures
        before(kids, pos).contains(x),
{
    let a = kids.subrange(0, pos);
    assert(a[j] == kids[j]);
    lemma_flat_contains(a, j, x);
}

/// What a part holds, the concatenation of the parts behind an earlier part
/// holds.
pub proof fn lemma_after_contains<A>(kids: Seq<Seq<A>>, pos: int, j: int, x: A)
    requires
        0 <= pos < j < kids.len(),
        kids[j].contains(x),
    ensures
        after(kids, pos).contains(x),
{
    let b = kids.subrange(pos + 1, kids.len() as int);
    assert(b[j - pos - 1] == kids[j]);
    lemma_flat_contains(b, j - pos - 1, x);
}

} // verus!
