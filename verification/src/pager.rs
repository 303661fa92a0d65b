//! The page store, as far as it needs no file: which pages are resident,
//! where in the backing file a page lies, and what is to be done to have a
//! page at hand or to write it back. Reading and writing the file is left
//! to the caller, who is told what to read and what to write, and who
//! tells the store what it has written.

use vstd::prelude::*;
use crate::entries::Entry;
use crate::page::{is_leaf_page, leaf_entries, new_leaf_page, PAGE_SIZE};

verus! {

/// The largest number of pages that are resident at a time.
pub const MAX_RESIDENT: usize = 100;

/// What is to be done to have a page at hand.
#[derive(Debug, Clone, Copy, PartialEq, Eq, Structural)]
pub enum Fetch {
    /// Nothing: the page is resident.
    Resident,
    /// One page of bytes is to be read from the file at this offset, and
    /// handed to the store.
    Load { offset: u64 },
    /// The page lies behind the end of the file: a page of zeros is to be
    /// handed to the store.
    Fresh,
    /// The page is not resident and the store holds as many pages as it
    /// may: one of them is to be released first.
    Full,
}

/// A resident page: its number and its bytes.
struct Slot {
    number: u32,
    image: Vec<u8>,
}

/// The pages of a backing file that are resident.
pub struct Pager {
    file_length: u64,
    slots: Vec<Slot>,
}

/// The offset of the page number `n` in the backing file.
pub open spec fn page_offset(n: int) -> int {
    n * PAGE_SIZE
}

/// The offset of a page in the backing file.
fn offset_of(n: u32) -> (offset: u64)
    ensures
        offset == page_offset(n as int),
        offset + PAGE_SIZE <= u64::MAX,
{
    let size: u64 = 4096;
    assert(size == PAGE_SIZE);
    n as u64 * size
}

impl Pager {
    /// The resident pages are no more than may be resident, they stand in
    /// the order of their numbers, and each has as many bytes as a page.
    pub closed spec fn wf(&self) -> bool {
        &&& self.slots@.len() <= MAX_RESIDENT
        &&& forall|i: int|
            0 <= i < self.slots@.len() ==> (#[trigger] self.slots@[i]).image@.len() == PAGE_SIZE
        &&& forall|i: int, j: int|
            0 <= i < j < self.slots@.len() ==> (#[trigger] self.slots@[i]).number < (
            #[trigger] self.slots@[j]).number
    }

    /// The length of the backing file, as far as the store knows it: the
    /// length that the file had when the store was opened, or the end of
    /// the farthest page that was written since, if that lies behind it.
    pub closed spec fn file_len(&self) -> int {
        self.file_length as int
    }

    /// The number of resident pages.
    pub closed spec fn count(&self) -> int {
        self.slots@.len() as int
    }

    /// The page number `n` is resident.
    pub closed spec fn resident(&self, n: int) -> bool {
        exists|i: int| 0 <= i < self.slots@.len() && (#[trigger] self.slots@[i]).number == n
    }

    /// The bytes of the resident page number `n`.
    pub closed spec fn image(&self, n: int) -> Seq<u8> {
        self.slots@[self.place(n)].image@
    }

    /// Where the resident page number `n` stands among the resident pages.
    spec fn place(&self, n: int) -> int {
        choose|i: int| 0 <= i < self.slots@.len() && (#[trigger] self.slots@[i]).number == n
    }

    /// A page number stands at one place only.
    proof fn lemma_place(&self, i: int)
        requires
            self.wf(),
            0 <= i < self.slots@.len(),
        ensures
            self.resident(self.slots@[i].number as int),
            self.place(self.slots@[i].number as int) == i,
            self.image(self.slots@[i].number as int) == self.slots@[i].image@,
    {
        let n = self.slots@[i].number as int;
        let j = self.place(n);
        assert(self.slots@[j].number == n);
        if j < i {
            assert(self.slots@[j].number < self.slots@[i].number);
        } else if i < j {
            assert(self.slots@[i].number < self.slots@[j].number);
        }
    }

    /// Where the page number `n` stands among the resident pages, or
    /// would stand, and whether it is resident.
    fn find(&self, n: u32) -> (res: (usize, bool))
        requires
            self.wf(),
        ensures
            res.0 <= self.slots@.len(),
            forall|i: int| 0 <= i < res.0 ==> (#[trigger] self.slots@[i]).number < n,
            res.0 < self.slots@.len() ==> self.slots@[res.0 as int].number >= n,
            res.1 == (res.0 < self.slots@.len() && self.slots@[res.0 as int].number == n),
            res.1 == self.resident(n as int),
            res.1 ==> self.image(n as int) == self.slots@[res.0 as int].image@,
    {
        let mut pos: usize = 0;
        while pos < self.slots.len() && self.slots[pos].number < n
            invariant
                pos <= self.slots@.len(),
                forall|i: int| 0 <= i < pos ==> (#[trigger] self.slots@[i]).number < n,
            decreases self.slots@.len() - pos,
        {
            pos = pos + 1;
        }
        let found = pos < self.slots.len() && self.slots[pos].number == n;
        proof {
            if found {
                self.lemma_place(pos as int);
            } else if self.resident(n as int) {
                let i = self.place(n as int);
                if i > pos {
                    assert(self.slots@[pos as int].number < self.slots@[i].number);
                }
            }
        }
        (pos, found)
    }

    /// The store of a backing file of the given length. Over an empty file
    /// page 0 is resident, as a leaf without records; over any other file
    /// no page is resident.
    pub fn open(file_length: u64) -> (pager: Pager)
        ensures
            pager.wf(),
            pager.file_len() == file_length,
            forall|n: int| pager.resident(n) <==> file_length == 0 && n == 0,
            pager.count() == if file_length == 0 {
                1int
            } else {
                0int
            },
            file_length == 0 ==> is_leaf_page(pager.image(0)) && leaf_entries(pager.image(0))
                == Seq::<Entry>::empty(),
    {
        let mut slots: Vec<Slot> = Vec::new();
        if file_length == 0 {
            slots.push(Slot { number: 0, image: new_leaf_page() });
        }
        let pager = Pager { file_length, slots };
        proof {
            if file_length == 0 {
                pager.lemma_place(0);
            }
        }
        pager
    }

    /// The number of pages of the backing file: its length divided by the
    /// size of a page.
    pub fn file_pages(&self) -> (count: u64)
        ensures
            count == self.file_len() / PAGE_SIZE as int,
    {
        self.file_length / PAGE_SIZE as u64
    }

    /// The number of resident pages.
    pub fn resident_count(&self) -> (count: usize)
        requires
            self.wf(),
        ensures
            count == self.count(),
            count <= MAX_RESIDENT,
    {
        self.slots.len()
    }

    /// What is to be done to have the page number `n` at hand. Every page
    /// number is the number of a page: one that begins within the file is
    /// read from it, one behind its end is a page of zeros.
    pub fn plan(&self, n: u32) -> (fetch: Fetch)
        requires
            self.wf(),
        ensures
            fetch == if self.resident(n as int) {
                Fetch::Resident
            } else if self.count() >= MAX_RESIDENT {
                Fetch::Full
            } else if page_offset(n as int) < self.file_len() {
                Fetch::Load { offset: page_offset(n as int) as u64 }
            } else {
                Fetch::Fresh
            },
    {
        let (_, found) = self.find(n);
        if found {
            return Fetch::Resident;
        }
        if self.slots.len() >= MAX_RESIDENT {
            return Fetch::Full;
        }
        let offset: u64 = offset_of(n);
        if offset < self.file_length {
            Fetch::Load { offset }
        } else {
            Fetch::Fresh
        }
    }

    /// Makes the page number `n` resident, with the given bytes, or gives
    /// a resident page new bytes. Nothing is done where the bytes are not
    /// as many as a page has, or where the page is not resident and no
    /// further page may be.
    pub fn install(&mut self, n: u32, image: Vec<u8>) -> (installed: bool)
        requires
            old(self).wf(),
        ensures
            final(self).wf(),
            final(self).file_len() == old(self).file_len(),
            installed == (image@.len() == PAGE_SIZE && (old(self).resident(n as int) || old(
                self,
            ).count() < MAX_RESIDENT)),
            !installed ==> *final(self) == *old(self),
            installed ==> final(self).resident(n as int) && final(self).image(n as int) == image@,
            installed ==> final(self).count() == old(self).count() + if old(self).resident(
                n as int,
            ) {
                0int
            } else {
                1int
            },
            forall|k: int|
                k != n ==> final(self).resident(k) == old(self).resident(k) && (old(self).resident(k)
                    ==> final(self).image(k) == old(self).image(k)),
    {
        if image.len() != PAGE_SIZE {
            return false;
        }
        let (pos, found) = self.find(n);
        if !found && self.slots.len() >= MAX_RESIDENT {
            return false;
        }
        let ghost before = *self;
        if found {
            self.slots[pos] = Slot { number: n, image };
            proof {
                self.lemma_place(pos as int);
                assert forall|k: int| k != n implies self.resident(k) == before.resident(k) && (
                before.resident(k) ==> self.image(k) == before.image(k)) by {
                    if before.resident(k) {
                        let i = before.place(k);
                        before.lemma_place(i);
                        assert(self.slots@[i] == before.slots@[i]);
                        self.lemma_place(i);
                    }
                    if self.resident(k) {
                        let i = self.place(k);
                        assert(before.slots@[i].number == k);
                    }
                }
            }
        } else {
            self.slots.insert(pos, Slot { number: n, image });
            proof {
                assert forall|i: int, j: int| 0 <= i < j < self.slots@.len() implies (
                #[trigger] self.slots@[i]).number < (#[trigger] self.slots@[j]).number by {
                    let a = if i < pos { i } else { i - 1 };
                    let b = if j < pos { j } else { j - 1 };
                    if i != pos && j != pos {
                        assert(before.slots@[a].number < before.slots@[b].number);
                    } else if i == pos {
                        assert(before.slots@[b].number >= before.slots@[pos as int].number);
                    } else {
                        assert(before.slots@[a].number < n);
                    }
                }
                self.lemma_place(pos as int);
                assert forall|k: int| k != n implies self.resident(k) == before.resident(k) && (
                before.resident(k) ==> self.image(k) == before.image(k)) by {
                    if before.resident(k) {
                        let i = before.place(k);
                        before.lemma_place(i);
                        let j = if i < pos { i } else { i + 1 };
                        assert(self.slots@[j] == before.slots@[i]);
                        self.lemma_place(j);
                    }
                    if self.resident(k) {
                        let j = self.place(k);
                        let i = if j < pos { j } else { j - 1 };
                        assert(before.slots@[i].number == k);
                    }
                }
            }
        }
        true
    }

    /// The bytes of the page number `n`, if it is resident.
    pub fn page(&self, n: u32) -> (res: Option<&Vec<u8>>)
        requires
            self.wf(),
        ensures
            match res {
                Some(image) => self.resident(n as int) && image@ == self.image(n as int) && image@.len()
                    == PAGE_SIZE,
                None => !self.resident(n as int),
            },
    {
        let (pos, found) = self.find(n);
        if found {
            Some(&self.slots[pos].image)
        } else {
            None
        }
    }

    /// Takes the page number `n` out of the resident pages and gives its
    /// bytes, if it is resident. The other pages stay as they are.
    pub fn release(&mut self, n: u32) -> (res: Option<Vec<u8>>)
        requires
            old(self).wf(),
        ensures
            final(self).wf(),
            final(self).file_len() == old(self).file_len(),
            !final(self).resident(n as int),
            match res {
                Some(image) => old(self).resident(n as int) && image@ == old(self).image(n as int)
                    && final(self).count() == old(self).count() - 1,
                None => !old(self).resident(n as int) && *final(self) == *old(self),
            },
            forall|k: int|
                k != n ==> final(self).resident(k) == old(self).resident(k) && (old(self).resident(k)
                    ==> final(self).image(k) == old(self).image(k)),
    {
        let (pos, found) = self.find(n);
        if !found {
            return None;
        }
        let ghost before = *self;
        let slot = self.slots.remove(pos);
        proof {
            assert forall|i: int, j: int| 0 <= i < j < self.slots@.len() implies (
            #[trigger] self.slots@[i]).number < (#[trigger] self.slots@[j]).number by {
                let a = if i < pos { i } else { i + 1 };
                let b = if j < pos { j } else { j + 1 };
                assert(before.slots@[a].number < before.slots@[b].number);
            }
            if self.resident(n as int) {
                let j = self.place(n as int);
                let i = if j < pos { j } else { j + 1 };
                assert(before.slots@[i].number == n);
                before.lemma_place(i);
                before.lemma_place(pos as int);
            }
            assert forall|k: int| k != n implies self.resident(k) == before.resident(k) && (
            before.resident(k) ==> self.image(k) == before.image(k)) by {
                if before.resident(k) {
                    let i = before.place(k);
                    before.lemma_place(i);
                    let j = if i < pos { i } else { i - 1 };
                    assert(self.slots@[j] == before.slots@[i]);
                    self.lemma_place(j);
                }
                if self.resident(k) {
                    let j = self.place(k);
                    let i = if j < pos { j } else { j + 1 };
                    assert(before.slots@[i].number == k);
                }
            }
        }
        Some(slot.image)
    }

    /// Where in the backing file the page number `n` is to be written: at
    /// its offset, if it is resident. A page that is not resident is not
    /// written.
    pub fn flush_plan(&self, n: u32) -> (res: Option<u64>)
        requires
            self.wf(),
        ensures
            match res {
                Some(offset) => self.resident(n as int) && offset == page_offset(n as int),
                None => !self.resident(n as int),
            },
    {
        let (_, found) = self.find(n);
        if found {
            Some(offset_of(n))
        } else {
            None
        }
    }

    /// Takes note that the page number `n` was written to the backing
    /// file at its offset: the file then reaches at least to the end of
    /// that page. The resident pages stay as they are.
    pub fn written(&mut self, n: u32)
        requires
            old(self).wf(),
        ensures
            final(self).wf(),
            final(self).file_len() == if old(self).file_len() < page_offset(n as int) + PAGE_SIZE {
                page_offset(n as int) + PAGE_SIZE
            } else {
                old(self).file_len()
            },
            final(self).count() == old(self).count(),
            forall|k: int|
                final(self).resident(k) == old(self).resident(k) && final(self).image(k) == old(
                    self,
                ).image(k),
    {
        let end: u64 = offset_of(n) + PAGE_SIZE as u64;
        if self.file_length < end {
            self.file_length = end;
        }
    }

    /// The numbers of the resident pages, in ascending order: the pages
    /// that are to be written when the store is closed.
    pub fn resident_pages(&self) -> (numbers: Vec<u32>)
        requires
            self.wf(),
        ensures
            numbers@.len() == self.count(),
            forall|i: int| 0 <= i < numbers@.len() ==> self.resident(#[trigger] numbers@[i] as int),
            forall|n: int| self.resident(n) ==> exists|i: int|
                0 <= i < numbers@.len() && numbers@[i] == n,
            forall|i: int, j: int|
                0 <= i < j < numbers@.len() ==> (#[trigger] numbers@[i]) < (#[trigger] numbers@[j]),
    {
        let mut numbers: Vec<u32> = Vec::new();
        let mut i: usize = 0;
        while i < self.slots.len()
            invariant
                self.wf(),
                i <= self.slots@.len(),
                numbers@.len() == i,
                forall|k: int| 0 <= k < i ==> (#[trigger] numbers@[k]) == self.slots@[k].number,
            decreases self.slots@.len() - i,
        {
            numbers.push(self.slots[i].number);
            i = i + 1;
        }
        proof {
            assert forall|n: int| self.resident(n) implies exists|i: int|
                0 <= i < numbers@.len() && numbers@[i] == n by {
                let i = self.place(n);
                assert(numbers@[i] == n);
            }
            assert forall|i: int, j: int| 0 <= i < j < numbers@.len() implies (
            #[trigger] numbers@[i]) < (#[trigger] numbers@[j]) by {
                assert(self.slots@[i].number < self.slots@[j].number);
            }
        }
        numbers
    }
}

/// A page of zeros.
pub fn zeroed_page() -> (page: Vec<u8>)
    ensures
        page@.len() == PAGE_SIZE,
        forall|i: int| 0 <= i < page@.len() ==> page@[i] == 0,
{
    let mut page: Vec<u8> = Vec::new();
    while page.len() < PAGE_SIZE
        invariant
            page@.len() <= PAGE_SIZE,
            forall|i: int| 0 <= i < page@.len() ==> page@[i] == 0,
        decreases PAGE_SIZE - page@.len(),
    {
        page.push(0);
    }
    page
}

} // verus!
