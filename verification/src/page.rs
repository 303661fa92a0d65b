//! The page image of a leaf: a fixed number of bytes that begins with a
//! header of a type tag, a reserved byte and the number of cells in four
//! bytes, the low byte first. The cells follow, each of a fixed width: the
//! key in four bytes, the low byte first, then the value field, which
//! holds the length of the value in one byte and the bytes of the value,
//! filled up with zeros.

use vstd::prelude::*;
use vstd::bytes::{
    lemma_auto_spec_u32_to_from_le_bytes, spec_u32_from_le_bytes, spec_u32_to_le_bytes,
    u32_from_le_bytes, u32_to_le_bytes,
};
use vstd::slice::{slice_subrange, slice_to_vec};
use vstd::utf8::{decode_utf8, encode_utf8, encode_utf8_decode_utf8, encode_utf8_valid_utf8, valid_utf8};
use crate::btree::{record_entries, Record};
use crate::entries::{
    ascending, entries_map, has_key, index_of, lemma_insert_at, lemma_map_at, lemma_remove_at, Entry,
};

verus! {

/// The number of bytes of a page.
pub const PAGE_SIZE: usize = 4096;

/// The number of bytes of the header of a page.
pub const HEADER_SIZE: usize = 6;

/// The number of bytes of the key of a cell.
pub const KEY_SIZE: usize = 4;

/// The number of bytes of the value field of a cell.
pub const VALUE_SIZE: usize = 256;

/// The largest number of bytes of a value.
pub const MAX_VALUE_BYTES: usize = 255;

/// The number of bytes of a cell.
pub const CELL_SIZE: usize = 260;

/// The largest number of cells of a page.
pub const MAX_CELLS: usize = 15;

/// The type tag of an inner node.
pub const NODE_INTERNAL: u8 = 0;

/// The type tag of a leaf.
pub const NODE_LEAF: u8 = 1;

/// The sizes fit together: a cell is a key and a value field, the value
/// field is the length byte and the bytes of the value, and a page holds
/// the header and as many cells as fit.
pub proof fn lemma_layout()
    ensures
        CELL_SIZE == KEY_SIZE + VALUE_SIZE,
        VALUE_SIZE == 1 + MAX_VALUE_BYTES,
        HEADER_SIZE + MAX_CELLS * CELL_SIZE <= PAGE_SIZE,
        HEADER_SIZE + (MAX_CELLS + 1) * CELL_SIZE > PAGE_SIZE,
{
}

/// Why a page was not written or not read.
#[derive(Debug, Clone, Copy, PartialEq, Eq, Structural)]
pub enum PageError {
    /// There are more records than a page has cells.
    CapacityExceeded,
    /// The value of the record with this number, counted from zero, has
    /// more bytes than the value field holds.
    ValueTooLarge { index: usize },
    /// The bytes are no page image of a leaf.
    Malformed,
    /// The page holds the key already.
    DuplicateKey,
}

/// The four bytes of a key as one unsigned number: a negative key counts
/// from the top.
pub open spec fn key_word(k: i32) -> u32 {
    if k >= 0 {
        k as u32
    } else {
        (k + 0x1_0000_0000) as u32
    }
}

/// The key that an unsigned number of four bytes stands for.
pub open spec fn word_key(w: u32) -> i32 {
    if w < 0x8000_0000 {
        w as i32
    } else {
        (w - 0x1_0000_0000) as i32
    }
}

/// The bytes of the cell of a key and the bytes of its value.
pub open spec fn cell_bytes(k: i32, v: Seq<u8>) -> Seq<u8> {
    spec_u32_to_le_bytes(key_word(k)) + seq![v.len() as u8] + v + Seq::new(
        (MAX_VALUE_BYTES - v.len()) as nat,
        |i: int| 0u8,
    )
}

/// The key of a cell.
pub open spec fn cell_key(cell: Seq<u8>) -> i32 {
    word_key(spec_u32_from_le_bytes(cell.subrange(0, KEY_SIZE as int)))
}

/// The bytes of the value of a cell.
pub open spec fn cell_value(cell: Seq<u8>) -> Seq<u8> {
    cell.subrange(KEY_SIZE + 1, KEY_SIZE + 1 + cell[KEY_SIZE as int] as int)
}

/// The bytes of the cell number `i` of a page.
pub open spec fn page_cell(page: Seq<u8>, i: int) -> Seq<u8> {
    page.subrange(HEADER_SIZE + i * CELL_SIZE, HEADER_SIZE + (i + 1) * CELL_SIZE)
}

/// The number of cells that the header of a page gives.
pub open spec fn cell_count(page: Seq<u8>) -> u32 {
    spec_u32_from_le_bytes(page.subrange(2, HEADER_SIZE as int))
}

/// The bytes are the page image of a leaf: they are as many as a page has,
/// the tag is that of a leaf, the cells that the header counts fit into the
/// page, and the value of each is text in UTF-8.
pub open spec fn is_leaf_page(page: Seq<u8>) -> bool {
    &&& page.len() == PAGE_SIZE
    &&& page[0] == NODE_LEAF
    &&& cell_count(page) <= MAX_CELLS
    &&& forall|i: int|
        0 <= i < cell_count(page) ==> valid_utf8(#[trigger] cell_value(page_cell(page, i)))
}

/// The entries that the page image of a leaf holds, in the order of its
/// cells.
pub open spec fn leaf_entries(page: Seq<u8>) -> Seq<Entry> {
    Seq::new(
        cell_count(page) as nat,
        |i: int| (cell_key(page_cell(page, i)), decode_utf8(cell_value(page_cell(page, i)))),
    )
}

/// The entries can stand in one page: they are no more than a page has
/// cells, and the value of each is no longer in UTF-8 than the value field.
pub open spec fn fits(entries: Seq<Entry>) -> bool {
    &&& entries.len() <= MAX_CELLS
    &&& forall|j: int|
        0 <= j < entries.len() ==> encode_utf8((#[trigger] entries[j]).1).len() <= MAX_VALUE_BYTES
}

/// The bytes of the cells of the entries, one cell behind the other.
pub open spec fn cells_image(entries: Seq<Entry>) -> Seq<u8>
    decreases entries.len(),
{
    if entries.len() == 0 {
        Seq::empty()
    } else {
        cells_image(entries.drop_last()) + cell_bytes(
            entries.last().0,
            encode_utf8(entries.last().1),
        )
    }
}

/// The page image of a leaf that holds the entries in their order: the
/// header, the cells, and zeros up to the end of the page.
pub open spec fn leaf_image(entries: Seq<Entry>) -> Seq<u8> {
    seq![NODE_LEAF, 0u8] + spec_u32_to_le_bytes(entries.len() as u32) + cells_image(entries)
        + Seq::new((PAGE_SIZE - HEADER_SIZE - entries.len() * CELL_SIZE) as nat, |i: int| 0u8)
}

/// The cells of the entries lie one behind the other, each as wide as a
/// cell.
pub proof fn lemma_cells_image(entries: Seq<Entry>)
    requires
        fits(entries),
    ensures
        cells_image(entries).len() == entries.len() * CELL_SIZE,
        forall|j: int|
            0 <= j < entries.len() ==> #[trigger] cells_image(entries).subrange(
                j * CELL_SIZE,
                (j + 1) * CELL_SIZE,
            ) == cell_bytes(entries[j].0, encode_utf8(entries[j].1)),
    decreases entries.len(),
{
    if entries.len() > 0 {
        let front = entries.drop_last();
        let n = front.len() as int;
        let cell = cell_bytes(entries.last().0, encode_utf8(entries.last().1));
        assert forall|j: int| 0 <= j < front.len() implies encode_utf8((#[trigger] front[j]).1).len()
            <= MAX_VALUE_BYTES by {
            assert(front[j] == entries[j]);
        }
        lemma_cells_image(front);
        lemma_cell_round_trip(entries.last().0, encode_utf8(entries.last().1));
        let all = cells_image(entries);
        assert(all == cells_image(front) + cell);
        assert forall|j: int| 0 <= j < entries.len() implies #[trigger] all.subrange(
            j * CELL_SIZE,
            (j + 1) * CELL_SIZE,
        ) == cell_bytes(entries[j].0, encode_utf8(entries[j].1)) by {
            if j < n {
                assert(front[j] == entries[j]);
                assert(all.subrange(j * CELL_SIZE, (j + 1) * CELL_SIZE) =~= cells_image(
                    front,
                ).subrange(j * CELL_SIZE, (j + 1) * CELL_SIZE));
            } else {
                assert(all.subrange(j * CELL_SIZE, (j + 1) * CELL_SIZE) =~= cell);
            }
        }
    }
}

/// A page image that was written reads back as it was written: the image
/// of entries that can stand in one page is the page image of a leaf, and
/// the entries that it holds are those entries, key for key and value for
/// value in the same order.
pub proof fn lemma_page_round_trip(entries: Seq<Entry>)
    requires
        fits(entries),
    ensures
        is_leaf_page(leaf_image(entries)),
        leaf_entries(leaf_image(entries)) == entries,
{
    let page = leaf_image(entries);
    let n = entries.len() as int;
    let count = spec_u32_to_le_bytes(entries.len() as u32);
    lemma_auto_spec_u32_to_from_le_bytes();
    lemma_cells_image(entries);
    assert(count.len() == 4);
    assert(page.len() == PAGE_SIZE);
    assert(page.subrange(2, HEADER_SIZE as int) =~= count);
    assert(cell_count(page) == n);
    assert forall|j: int| 0 <= j < n implies #[trigger] page_cell(page, j) == cell_bytes(
        entries[j].0,
        encode_utf8(entries[j].1),
    ) by {
        assert(page_cell(page, j) =~= cells_image(entries).subrange(
            j * CELL_SIZE,
            (j + 1) * CELL_SIZE,
        ));
    }
    assert forall|j: int| 0 <= j < cell_count(page) implies valid_utf8(
        #[trigger] cell_value(page_cell(page, j)),
    ) by {
        lemma_cell_round_trip(entries[j].0, encode_utf8(entries[j].1));
        encode_utf8_valid_utf8(entries[j].1);
    }
    assert forall|j: int| 0 <= j < n implies leaf_entries(page)[j] == entries[j] by {
        lemma_cell_round_trip(entries[j].0, encode_utf8(entries[j].1));
        encode_utf8_decode_utf8(entries[j].1);
    }
    assert(leaf_entries(page) =~= entries);
}

/// The string that bytes in UTF-8 stand for. This is `String::from_utf8` of
/// the standard library, which converts a vector of bytes to a `String` and
/// fails exactly if the bytes are not valid UTF-8; the contract says so
/// and is not proved.
#[verifier::external_body]
fn string_from_utf8(bytes: Vec<u8>) -> (res: Option<String>)
    ensures
        match res {
            Some(s) => valid_utf8(bytes@) && s@ == decode_utf8(bytes@),
            None => !valid_utf8(bytes@),
        },
{
    String::from_utf8(bytes).ok()
}

fn word_of_key(k: i32) -> (w: u32)
    ensures
        w == key_word(k),
{
    if k >= 0 {
        k as u32
    } else {
        (k as i64 + 0x1_0000_0000) as u32
    }
}

fn key_of_word(w: u32) -> (k: i32)
    ensures
        k == word_key(w),
{
    if w < 0x8000_0000 {
        w as i32
    } else {
        (w as i64 - 0x1_0000_0000) as i32
    }
}

/// The cell of a key and a value reads back as that key and that value.
pub proof fn lemma_cell_round_trip(k: i32, v: Seq<u8>)
    requires
        v.len() <= MAX_VALUE_BYTES,
    ensures
        cell_bytes(k, v).len() == CELL_SIZE,
        cell_key(cell_bytes(k, v)) == k,
        cell_value(cell_bytes(k, v)) == v,
{
    lemma_auto_spec_u32_to_from_le_bytes();
    let w = spec_u32_to_le_bytes(key_word(k));
    let cell = cell_bytes(k, v);
    assert(w.len() == 4);
    assert(cell.subrange(0, KEY_SIZE as int) =~= w);
    assert(cell[KEY_SIZE as int] == v.len() as u8);
    assert(cell.subrange(KEY_SIZE + 1, KEY_SIZE + 1 + v.len()) =~= v);
}

/// Puts the cell of a key and the bytes of a value behind the bytes of
/// `page`.
fn push_cell(page: &mut Vec<u8>, key: i32, value: &[u8])
    requires
        value@.len() <= MAX_VALUE_BYTES,
    ensures
        final(page)@ == old(page)@ + cell_bytes(key, value@),
{
    let ghost start = page@;
    let mut word = u32_to_le_bytes(word_of_key(key));
    page.append(&mut word);
    page.push(value.len() as u8);
    let ghost head = page@;
    let mut i: usize = 0;
    assert(value@.subrange(0, 0) =~= Seq::<u8>::empty());
    assert(head + Seq::<u8>::empty() =~= head);
    while i < value.len()
        invariant
            i <= value@.len(),
            page@ == head + value@.subrange(0, i as int),
        decreases value@.len() - i,
    {
        page.push(value[i]);
        assert(value@.subrange(0, i + 1) =~= value@.subrange(0, i as int).push(value@[i as int]));
        assert(page@ =~= head + value@.subrange(0, i + 1));
        i = i + 1;
    }
    assert(value@.subrange(0, value@.len() as int) =~= value@);
    let ghost body = page@;
    let fill: usize = MAX_VALUE_BYTES - value.len();
    let mut j: usize = 0;
    assert(body + Seq::new(0, |i: int| 0u8) =~= body);
    while j < fill
        invariant
            j <= fill,
            page@ == body + Seq::new(j as nat, |i: int| 0u8),
        decreases fill - j,
    {
        page.push(0);
        assert(page@ =~= body + Seq::new((j + 1) as nat, |i: int| 0u8));
        j = j + 1;
    }
    assert(page@ =~= start + cell_bytes(key, value@));
}

/// The page image of a leaf that holds the given records in their order.
/// Nothing is written where there are more records than a page has cells,
/// or where a value has more bytes than the value field holds.
pub fn encode_leaf(records: &Vec<Record>) -> (res: Result<Vec<u8>, PageError>)
    ensures
        match res {
            Ok(page) => {
                &&& fits(record_entries(records@))
                &&& page@ == leaf_image(record_entries(records@))
                &&& is_leaf_page(page@)
                &&& leaf_entries(page@) == record_entries(records@)
            },
            Err(PageError::CapacityExceeded) => records@.len() > MAX_CELLS,
            Err(PageError::ValueTooLarge { index }) => {
                &&& records@.len() <= MAX_CELLS
                &&& index < records@.len()
                &&& encode_utf8(records@[index as int].value@).len() > MAX_VALUE_BYTES
                &&& forall|j: int|
                    0 <= j < index ==> encode_utf8((#[trigger] records@[j]).value@).len()
                        <= MAX_VALUE_BYTES
            },
            Err(PageError::Malformed) => false,
            Err(PageError::DuplicateKey) => false,
        },
{
    if records.len() > MAX_CELLS {
        return Err(PageError::CapacityExceeded);
    }
    let ghost entries = record_entries(records@);
    let mut page: Vec<u8> = Vec::new();
    page.push(NODE_LEAF);
    page.push(0);
    let mut count = u32_to_le_bytes(records.len() as u32);
    page.append(&mut count);
    let ghost header = page@;
    proof {
        lemma_auto_spec_u32_to_from_le_bytes();
        assert(header =~= seq![NODE_LEAF, 0u8] + spec_u32_to_le_bytes(entries.len() as u32));
        assert(header + cells_image(entries.take(0)) =~= header);
    }
    let mut i: usize = 0;
    while i < records.len()
        invariant
            i <= records@.len() <= MAX_CELLS,
            entries == record_entries(records@),
            page@ == header + cells_image(entries.take(i as int)),
            forall|j: int|
                0 <= j < i ==> encode_utf8((#[trigger] records@[j]).value@).len()
                    <= MAX_VALUE_BYTES,
        decreases records@.len() - i,
    {
        let bytes = records[i].value.as_str().as_bytes();
        if bytes.len() > MAX_VALUE_BYTES {
            return Err(PageError::ValueTooLarge { index: i });
        }
        push_cell(&mut page, records[i].key, bytes);
        proof {
            let next = entries.take(i + 1);
            assert(next.drop_last() =~= entries.take(i as int));
            assert(next.last() == (records@[i as int].key, records@[i as int].value@));
            assert(page@ =~= header + cells_image(next));
        }
        i = i + 1;
    }
    proof {
        assert(entries.take(i as int) =~= entries);
        assert forall|j: int| 0 <= j < entries.len() implies encode_utf8(
            (#[trigger] entries[j]).1,
        ).len() <= MAX_VALUE_BYTES by {
            assert(entries[j].1 == records@[j].value@);
        }
        lemma_cells_image(entries);
    }
    let ghost cells = page@;
    while page.len() < PAGE_SIZE
        invariant
            cells.len() <= page@.len() <= PAGE_SIZE,
            page@ == cells + Seq::new((page@.len() - cells.len()) as nat, |i: int| 0u8),
        decreases PAGE_SIZE - page@.len(),
    {
        page.push(0);
        assert(page@ =~= cells + Seq::new((page@.len() - cells.len()) as nat, |i: int| 0u8));
    }
    proof {
        assert(page@ =~= leaf_image(entries));
        lemma_page_round_trip(entries);
    }
    Ok(page)
}

/// The records that the page image of a leaf holds, in the order of its
/// cells.
pub fn decode_leaf(page: &[u8]) -> (res: Result<Vec<Record>, PageError>)
    ensures
        match res {
            Ok(records) => is_leaf_page(page@) && record_entries(records@) == leaf_entries(page@),
            Err(e) => e == PageError::Malformed && !is_leaf_page(page@),
        },
{
    if page.len() != PAGE_SIZE {
        return Err(PageError::Malformed);
    }
    if page[0] != NODE_LEAF {
        return Err(PageError::Malformed);
    }
    let count: u32 = u32_from_le_bytes(slice_subrange(page, 2, HEADER_SIZE));
    if count > MAX_CELLS as u32 {
        return Err(PageError::Malformed);
    }
    let mut records: Vec<Record> = Vec::new();
    let mut i: usize = 0;
    while i < count as usize
        invariant
            page@.len() == PAGE_SIZE,
            count == cell_count(page@),
            count <= MAX_CELLS,
            i <= count,
            records@.len() == i,
            forall|j: int|
                0 <= j < i ==> valid_utf8(#[trigger] cell_value(page_cell(page@, j))) && records@[j].entry()
                    == leaf_entries(page@)[j],
        decreases count - i,
    {
        let offset: usize = HEADER_SIZE + i * CELL_SIZE;
        let cell = slice_subrange(page, offset, offset + CELL_SIZE);
        assert(cell@ == page_cell(page@, i as int));
        let key: i32 = key_of_word(u32_from_le_bytes(slice_subrange(cell, 0, KEY_SIZE)));
        let len: usize = cell[KEY_SIZE] as usize;
        let bytes = slice_to_vec(slice_subrange(cell, KEY_SIZE + 1, KEY_SIZE + 1 + len));
        assert(bytes@ == cell_value(page_cell(page@, i as int)));
        match string_from_utf8(bytes) {
            None => {
                assert(!valid_utf8(cell_value(page_cell(page@, i as int))));
                return Err(PageError::Malformed);
            },
            Some(value) => {
                records.push(Record { key, value });
            },
        }
        i = i + 1;
    }
    proof {
        assert(record_entries(records@) =~= leaf_entries(page@));
    }
    Ok(records)
}

/// The page image of a leaf without records.
pub fn new_leaf_page() -> (page: Vec<u8>)
    ensures
        is_leaf_page(page@),
        leaf_entries(page@) == Seq::<Entry>::empty(),
        ascending(leaf_entries(page@)),
{
    let records: Vec<Record> = Vec::new();
    match encode_leaf(&records) {
        Ok(page) => {
            assert(record_entries(records@) =~= Seq::<Entry>::empty());
            page
        },
        Err(_) => {
            assert(false);
            Vec::new()
        },
    }
}

/// The number of cells of the page image of a leaf.
pub fn leaf_count(page: &[u8]) -> (count: usize)
    requires
        is_leaf_page(page@),
    ensures
        count == cell_count(page@),
        count == leaf_entries(page@).len(),
        count <= MAX_CELLS,
{
    u32_from_le_bytes(slice_subrange(page, 2, HEADER_SIZE)) as usize
}

/// The key of the cell number `i` of the page image of a leaf.
fn leaf_key(page: &[u8], i: usize) -> (key: i32)
    requires
        is_leaf_page(page@),
        i < cell_count(page@),
    ensures
        key == leaf_entries(page@)[i as int].0,
{
    let offset: usize = HEADER_SIZE + i * CELL_SIZE;
    let cell = slice_subrange(page, offset, offset + CELL_SIZE);
    assert(cell@ == page_cell(page@, i as int));
    key_of_word(u32_from_le_bytes(slice_subrange(cell, 0, KEY_SIZE)))
}

/// The first cell of the page whose key is not smaller than `key`, and
/// whether its key is `key`.
fn leaf_slot(page: &[u8], key: i32) -> (res: (usize, bool))
    requires
        is_leaf_page(page@),
        ascending(leaf_entries(page@)),
    ensures
        res.0 <= leaf_entries(page@).len(),
        forall|i: int| 0 <= i < res.0 ==> (#[trigger] leaf_entries(page@)[i]).0 < key,
        res.0 < leaf_entries(page@).len() ==> leaf_entries(page@)[res.0 as int].0 >= key,
        res.1 == (res.0 < leaf_entries(page@).len() && leaf_entries(page@)[res.0 as int].0 == key),
        res.1 == has_key(leaf_entries(page@), key),
{
    let count: usize = leaf_count(page);
    let ghost entries = leaf_entries(page@);
    let mut slot: usize = 0;
    let mut found = false;
    while slot < count && !found
        invariant
            is_leaf_page(page@),
            entries == leaf_entries(page@),
            count == entries.len(),
            slot <= count,
            forall|i: int| 0 <= i < slot ==> (#[trigger] entries[i]).0 < key,
            found ==> slot < count && entries[slot as int].0 >= key,
        decreases count - slot + if found { 0nat } else { 1nat },
    {
        let k: i32 = leaf_key(page, slot);
        if k >= key {
            found = true;
        } else {
            slot = slot + 1;
        }
    }
    let same = found && leaf_key(page, slot) == key;
    proof {
        if same {
            lemma_map_at(entries, slot as int);
        }
        if has_key(entries, key) {
            let i = index_of(entries, key);
            if i < slot {
                assert(entries[i].0 < key);
            } else if i > slot {
                assert(entries[slot as int].0 < entries[i].0);
            }
        }
    }
    (slot, same)
}

/// The value of `key` in the page image of a leaf, if the page holds the
/// key.
pub fn leaf_find(page: &[u8], key: i32) -> (res: Option<String>)
    requires
        is_leaf_page(page@),
        ascending(leaf_entries(page@)),
    ensures
        match res {
            Some(v) => entries_map(leaf_entries(page@)).contains_key(key) && v@ == entries_map(
                leaf_entries(page@),
            )[key],
            None => !entries_map(leaf_entries(page@)).contains_key(key),
        },
{
    let (slot, found) = leaf_slot(page, key);
    if !found {
        return None;
    }
    let offset: usize = HEADER_SIZE + slot * CELL_SIZE;
    let cell = slice_subrange(page, offset, offset + CELL_SIZE);
    assert(cell@ == page_cell(page@, slot as int));
    let len: usize = cell[KEY_SIZE] as usize;
    let bytes = slice_to_vec(slice_subrange(cell, KEY_SIZE + 1, KEY_SIZE + 1 + len));
    assert(bytes@ == cell_value(page_cell(page@, slot as int)));
    proof {
        lemma_map_at(leaf_entries(page@), slot as int);
    }
    string_from_utf8(bytes)
}

/// Puts a cell for the key and the value into the page image of a leaf, at
/// its place in key order: the cells from that place on move one cell to
/// the right. Nothing is written where the value has more bytes than the
/// value field holds, where the page holds the key already, or where the
/// page is full.
pub fn leaf_insert(page: &mut Vec<u8>, key: i32, value: &str) -> (res: Result<(), PageError>)
    requires
        is_leaf_page(old(page)@),
        ascending(leaf_entries(old(page)@)),
    ensures
        is_leaf_page(final(page)@),
        ascending(leaf_entries(final(page)@)),
        match res {
            Ok(()) => {
                &&& encode_utf8(value@).len() <= MAX_VALUE_BYTES
                &&& !has_key(leaf_entries(old(page)@), key)
                &&& leaf_entries(old(page)@).len() < MAX_CELLS
                &&& entries_map(leaf_entries(final(page)@)) == entries_map(
                    leaf_entries(old(page)@),
                ).insert(key, value@)
                &&& leaf_entries(final(page)@).len() == leaf_entries(old(page)@).len() + 1
            },
            Err(e) => {
                &&& final(page)@ == old(page)@
                &&& e == if encode_utf8(value@).len() > MAX_VALUE_BYTES {
                    PageError::ValueTooLarge { index: leaf_entries(old(page)@).len() as usize }
                } else if has_key(leaf_entries(old(page)@), key) {
                    PageError::DuplicateKey
                } else {
                    PageError::CapacityExceeded
                }
                &&& e == PageError::CapacityExceeded ==> leaf_entries(old(page)@).len() == MAX_CELLS
            },
        },
{
    let ghost before = page@;
    let ghost entries = leaf_entries(before);
    let bytes = value.as_bytes();
    let count: usize = leaf_count(page.as_slice());
    if bytes.len() > MAX_VALUE_BYTES {
        return Err(PageError::ValueTooLarge { index: count });
    }
    let (slot, found) = leaf_slot(page.as_slice(), key);
    if found {
        return Err(PageError::DuplicateKey);
    }
    if count >= MAX_CELLS {
        return Err(PageError::CapacityExceeded);
    }
    let offset: usize = HEADER_SIZE + slot * CELL_SIZE;
    let mut tail = page.split_off(offset);
    tail.truncate(PAGE_SIZE - offset - CELL_SIZE);
    let word = u32_to_le_bytes((count + 1) as u32);
    page[2] = word[0];
    page[3] = word[1];
    page[4] = word[2];
    page[5] = word[3];
    let ghost head = page@;
    let ghost moved = tail@;
    push_cell(page, key, bytes);
    page.append(&mut tail);
    proof {
        let after = page@;
        lemma_auto_spec_u32_to_from_le_bytes();
        lemma_cell_round_trip(key, bytes@);
        encode_utf8_valid_utf8(value@);
        encode_utf8_decode_utf8(value@);
        assert(after =~= head + cell_bytes(key, bytes@) + moved);
        assert(moved =~= before.subrange(offset as int, PAGE_SIZE - CELL_SIZE));
        assert(after.subrange(2, HEADER_SIZE as int) =~= word@);
        assert(cell_count(after) == count + 1);
        assert(after[0] == before[0]);
        assert forall|i: int| 0 <= i < count + 1 implies #[trigger] page_cell(after, i) == if i
            < slot {
            page_cell(before, i)
        } else if i == slot {
            cell_bytes(key, bytes@)
        } else {
            page_cell(before, i - 1)
        } by {
            if i < slot {
                assert(page_cell(after, i) =~= page_cell(before, i));
            } else if i == slot {
                assert(page_cell(after, i) =~= cell_bytes(key, bytes@));
            } else {
                assert(page_cell(after, i) =~= page_cell(before, i - 1));
            }
        }
        assert forall|i: int| 0 <= i < cell_count(after) implies valid_utf8(
            #[trigger] cell_value(page_cell(after, i)),
        ) by {
            if i < slot {
                assert(valid_utf8(cell_value(page_cell(before, i))));
            } else if i > slot {
                assert(valid_utf8(cell_value(page_cell(before, i - 1))));
            }
        }
        assert(leaf_entries(after) =~= entries.insert(slot as int, (key, value@))) by {
            assert forall|i: int| 0 <= i < count + 1 implies leaf_entries(after)[i]
                == entries.insert(slot as int, (key, value@))[i] by {
                if i < slot {
                    assert(page_cell(after, i) == page_cell(before, i));
                } else if i > slot {
                    assert(page_cell(after, i) == page_cell(before, i - 1));
                } else {
                    assert(page_cell(after, i) == cell_bytes(key, bytes@));
                }
            }
        }
        if slot > 0 {
            assert(entries[slot - 1].0 < key);
        }
        lemma_insert_at(entries, slot as int, (key, value@));
    }
    Ok(())
}

/// Takes the cell of the key out of the page image of a leaf, and says
/// whether there was one: the cells behind it move one cell to the left.
pub fn leaf_delete(page: &mut Vec<u8>, key: i32) -> (removed: bool)
    requires
        is_leaf_page(old(page)@),
        ascending(leaf_entries(old(page)@)),
    ensures
        is_leaf_page(final(page)@),
        ascending(leaf_entries(final(page)@)),
        removed == has_key(leaf_entries(old(page)@), key),
        entries_map(leaf_entries(final(page)@)) == entries_map(leaf_entries(old(page)@)).remove(key),
        !removed ==> final(page)@ == old(page)@,
        removed ==> leaf_entries(final(page)@).len() + 1 == leaf_entries(old(page)@).len(),
{
    let ghost before = page@;
    let ghost entries = leaf_entries(before);
    let count: usize = leaf_count(page.as_slice());
    let (slot, found) = leaf_slot(page.as_slice(), key);
    if !found {
        assert(entries_map(entries).remove(key) =~= entries_map(entries));
        return false;
    }
    let offset: usize = HEADER_SIZE + slot * CELL_SIZE;
    let mut tail = page.split_off(offset + CELL_SIZE);
    page.truncate(offset);
    let word = u32_to_le_bytes((count - 1) as u32);
    page[2] = word[0];
    page[3] = word[1];
    page[4] = word[2];
    page[5] = word[3];
    let ghost head = page@;
    let ghost moved = tail@;
    page.append(&mut tail);
    let ghost joined = page@;
    let mut fill: usize = 0;
    assert(joined + Seq::new(0, |i: int| 0u8) =~= joined);
    while fill < CELL_SIZE
        invariant
            fill <= CELL_SIZE,
            page@ == joined + Seq::new(fill as nat, |i: int| 0u8),
        decreases CELL_SIZE - fill,
    {
        page.push(0);
        assert(page@ =~= joined + Seq::new((fill + 1) as nat, |i: int| 0u8));
        fill = fill + 1;
    }
    proof {
        let after = page@;
        lemma_auto_spec_u32_to_from_le_bytes();
        assert(joined =~= head + moved);
        assert(moved =~= before.subrange(offset + CELL_SIZE, PAGE_SIZE as int));
        assert(after.subrange(2, HEADER_SIZE as int) =~= word@);
        assert(cell_count(after) == count - 1);
        assert(after[0] == before[0]);
        assert forall|i: int| 0 <= i < count - 1 implies #[trigger] page_cell(after, i) == if i
            < slot {
            page_cell(before, i)
        } else {
            page_cell(before, i + 1)
        } by {
            if i < slot {
                assert(page_cell(after, i) =~= page_cell(before, i));
            } else {
                assert(page_cell(after, i) =~= page_cell(before, i + 1));
            }
        }
        assert forall|i: int| 0 <= i < cell_count(after) implies valid_utf8(
            #[trigger] cell_value(page_cell(after, i)),
        ) by {
            if i < slot {
                assert(valid_utf8(cell_value(page_cell(before, i))));
            } else {
                assert(valid_utf8(cell_value(page_cell(before, i + 1))));
            }
        }
        assert(leaf_entries(after) =~= entries.remove(slot as int)) by {
            assert forall|i: int| 0 <= i < count - 1 implies leaf_entries(after)[i]
                == entries.remove(slot as int)[i] by {
                if i < slot {
                    assert(page_cell(after, i) == page_cell(before, i));
                } else {
                    assert(page_cell(after, i) == page_cell(before, i + 1));
                }
            }
        }
        lemma_remove_at(entries, slot as int);
    }
    true
}

} // verus!
