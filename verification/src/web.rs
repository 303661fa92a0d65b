//! Named databases behind a request interface: each name stands for a tree
//! of its own, and each request is answered with a status, a success flag,
//! a message and, where records were asked for, the records.

use vstd::prelude::*;
use crate::btree::{record_entries, BTree, Record};
use crate::entries::{ascending, entries_map, insert_all};
use crate::text::{
    append_chars, append_str, count_to_chars, decimal, decimal_nat, key_to_chars, same_text,
    string_of,
};

verus! {

/// How a request ended.
#[derive(Debug, Clone, Copy, PartialEq, Eq, Structural)]
pub enum Status {
    /// The request was carried out.
    Done,
    /// The database or the record is not there.
    NotFound,
    /// Reading or writing the file of the database failed.
    InternalError,
}

/// The answer to a request.
pub struct ApiResponse {
    pub status: Status,
    pub success: bool,
    pub message: String,
    pub data: Option<Vec<Record>>,
}

/// What reading the file of a database gave.
pub enum Loaded {
    /// The records of the file.
    Records(Vec<Record>),
    /// There is no such file.
    Missing,
    /// Reading failed, for the reason given.
    Failed(String),
}

/// What is to be done after a record was written.
pub enum Written {
    /// There is no database of that name.
    NoDatabase,
    /// The records of the database are to be saved; `updating` says
    /// whether the key was there before.
    Save { records: Vec<Record>, updating: bool },
}

/// What is to be done after a record was to be removed.
pub enum Removed {
    /// There is no database of that name.
    NoDatabase,
    /// The database does not hold the key.
    NoRecord,
    /// The record is gone, and the records of the database are to be saved.
    Save { records: Vec<Record> },
}

/// The databases that are connected, each under its name.
pub struct Databases {
    names: Vec<String>,
    trees: Vec<BTree>,
}

/// The message with a name in it.
pub open spec fn named(head: Seq<char>, name: Seq<char>, tail: Seq<char>) -> Seq<char> {
    head + name + tail
}

/// The message with a key in it.
pub open spec fn keyed(head: Seq<char>, key: i32, tail: Seq<char>) -> Seq<char> {
    head + decimal(key as int) + tail
}

fn named_message(head: &str, name: &str, tail: &str) -> (s: String)
    ensures
        s@ == named(head@, name@, tail@),
{
    let mut out: Vec<char> = Vec::new();
    append_str(&mut out, head);
    append_str(&mut out, name);
    append_str(&mut out, tail);
    assert(out@ =~= head@ + name@ + tail@);
    string_of(&out)
}

fn keyed_message(head: &str, key: i32, tail: &str) -> (s: String)
    ensures
        s@ == keyed(head@, key, tail@),
{
    let mut out: Vec<char> = Vec::new();
    append_str(&mut out, head);
    append_chars(&mut out, &key_to_chars(key));
    append_str(&mut out, tail);
    assert(out@ =~= head@ + decimal(key as int) + tail@);
    string_of(&out)
}

fn counted_message(head: &str, count: usize, tail: &str) -> (s: String)
    ensures
        s@ == head@ + decimal_nat(count as nat) + tail@,
{
    let mut out: Vec<char> = Vec::new();
    append_str(&mut out, head);
    append_chars(&mut out, &count_to_chars(count));
    append_str(&mut out, tail);
    assert(out@ =~= head@ + decimal_nat(count as nat) + tail@);
    string_of(&out)
}

/// The answer to a request for a database that is not connected.
pub fn no_database(name: &str) -> (r: ApiResponse)
    ensures
        r.status == Status::NotFound,
        !r.success,
        r.message@ == named("Database '"@, name@, "' not found"@),
        r.data is None,
{
    ApiResponse {
        status: Status::NotFound,
        success: false,
        message: named_message("Database '", name, "' not found"),
        data: None,
    }
}

/// The answer to a request for a record that the database does not hold.
pub fn no_record(key: i32) -> (r: ApiResponse)
    ensures
        r.status == Status::NotFound,
        !r.success,
        r.message@ == keyed("Record with key "@, key, " not found"@),
        r.data is None,
{
    ApiResponse {
        status: Status::NotFound,
        success: false,
        message: keyed_message("Record with key ", key, " not found"),
        data: None,
    }
}

/// The answer after the records of a database were saved, or were not:
/// `failure` holds the reason where saving failed.
pub fn saved(done: &str, key: i32, failure: Option<&str>) -> (r: ApiResponse)
    ensures
        r.data is None,
        match failure {
            None => r.status == Status::Done && r.success && r.message@ == keyed(done@, key, ""@),
            Some(why) => r.status == Status::InternalError && !r.success && r.message@ == named(
                "Failed to save changes: "@,
                why@,
                ""@,
            ),
        },
{
    match failure {
        None => ApiResponse {
            status: Status::Done,
            success: true,
            message: keyed_message(done, key, ""),
            data: None,
        },
        Some(why) => ApiResponse {
            status: Status::InternalError,
            success: false,
            message: named_message("Failed to save changes: ", why, ""),
            data: None,
        },
    }
}

/// The answer after a record was written and the records were saved, or
/// were not.
pub fn upserted(key: i32, updating: bool, failure: Option<&str>) -> (r: ApiResponse)
    ensures
        r.data is None,
        match failure {
            None => r.status == Status::Done && r.success && r.message@ == keyed(
                if updating {
                    "Updated record with key "@
                } else {
                    "Inserted new record with key "@
                },
                key,
                ""@,
            ),
            Some(why) => r.status == Status::InternalError && !r.success && r.message@ == named(
                "Failed to save changes: "@,
                why@,
                ""@,
            ),
        },
{
    if updating {
        saved("Updated record with key ", key, failure)
    } else {
        saved("Inserted new record with key ", key, failure)
    }
}

/// The answer after a record was removed and the records were saved, or
/// were not.
pub fn removed(key: i32, failure: Option<&str>) -> (r: ApiResponse)
    ensures
        r.data is None,
        match failure {
            None => r.status == Status::Done && r.success && r.message@ == keyed(
                "Deleted record with key "@,
                key,
                ""@,
            ),
            Some(why) => r.status == Status::InternalError && !r.success && r.message@ == named(
                "Failed to save changes: "@,
                why@,
                ""@,
            ),
        },
{
    saved("Deleted record with key ", key, failure)
}

/// The answer to a request to connect a database that is connected.
pub fn already_connected(name: &str) -> (r: ApiResponse)
    ensures
        r.status == Status::Done,
        r.success,
        r.message@ == named("Already connected to database: "@, name@, ""@),
        r.data is None,
{
    ApiResponse {
        status: Status::Done,
        success: true,
        message: named_message("Already connected to database: ", name, ""),
        data: None,
    }
}

/// The tree of a database that is being connected, and the answer: a tree
/// of the records that its file gave, an empty tree where there is no
/// file, and no tree where reading failed.
pub fn opened(name: &str, loaded: Loaded) -> (res: (Option<BTree>, ApiResponse))
    ensures
        res.1.data is None,
        match loaded {
            Loaded::Records(records) => {
                &&& res.0 is Some
                &&& res.0->Some_0.wf()
                &&& res.0->Some_0@ == insert_all(Map::empty(), record_entries(records@))
                &&& res.1.status == Status::Done && res.1.success
                &&& res.1.message@ == named("Connected to database: "@, name@, ""@)
            },
            Loaded::Missing => {
                &&& res.0 is Some
                &&& res.0->Some_0.wf()
                &&& res.0->Some_0@ == Map::<i32, Seq<char>>::empty()
                &&& res.1.status == Status::Done && res.1.success
                &&& res.1.message@ == named("Created new database: "@, name@, ""@)
            },
            Loaded::Failed(why) => {
                &&& res.0 is None
                &&& res.1.status == Status::InternalError && !res.1.success
                &&& res.1.message@ == named("Failed to connect to database: "@, why@, ""@)
            },
        },
{
    match loaded {
        Loaded::Records(records) => (
            Some(BTree::from_records(&records)),
            ApiResponse {
                status: Status::Done,
                success: true,
                message: named_message("Connected to database: ", name, ""),
                data: None,
            },
        ),
        Loaded::Missing => (
            Some(BTree::new()),
            ApiResponse {
                status: Status::Done,
                success: true,
                message: named_message("Created new database: ", name, ""),
                data: None,
            },
        ),
        Loaded::Failed(why) => (
            None,
            ApiResponse {
                status: Status::InternalError,
                success: false,
                message: named_message("Failed to connect to database: ", why.as_str(), ""),
                data: None,
            },
        ),
    }
}

/// The answer with all records of a tree, in ascending key order.
pub fn list_tree(tree: &BTree) -> (r: ApiResponse)
    requires
        tree.wf(),
    ensures
        r.data is Some,
        record_entries(r.data->Some_0@) == tree.entries(),
        ascending(tree.entries()),
        r.status == Status::Done,
        r.success,
        r.message@ == "Retrieved "@ + decimal_nat(r.data->Some_0@.len()) + " records"@,
{
    let records = tree.get_all_records();
    ApiResponse {
        status: Status::Done,
        success: true,
        message: counted_message("Retrieved ", records.len(), " records"),
        data: Some(records),
    }
}

/// The answer with the record of a key in a tree.
pub fn find_in_tree(tree: &BTree, key: i32) -> (r: ApiResponse)
    requires
        tree.wf(),
    ensures
        match r.data {
            Some(records) => {
                &&& tree@.contains_key(key)
                &&& record_entries(records@) == seq![(key, tree@[key])]
                &&& r.status == Status::Done && r.success
                &&& r.message@ == keyed("Found record with key "@, key, ""@)
            },
            None => {
                &&& !tree@.contains_key(key)
                &&& r.status == Status::NotFound && !r.success
                &&& r.message@ == keyed("Record with key "@, key, " not found"@)
            },
        },
{
    match tree.search(key) {
        None => no_record(key),
        Some(value) => {
            let mut records: Vec<Record> = Vec::new();
            records.push(Record { key, value });
            assert(record_entries(records@) =~= seq![(key, value@)]);
            ApiResponse {
                status: Status::Done,
                success: true,
                message: keyed_message("Found record with key ", key, ""),
                data: Some(records),
            }
        },
    }
}

/// Binds the key to the value in a tree. Says whether the key was there
/// before, and hands out the records that are to be saved.
pub fn upsert_tree(tree: &mut BTree, key: i32, value: String) -> (res: (bool, Vec<Record>))
    requires
        old(tree).wf(),
    ensures
        final(tree).wf(),
        final(tree)@ == old(tree)@.insert(key, value@),
        res.0 == old(tree)@.contains_key(key),
        record_entries(res.1@) == final(tree).entries(),
        ascending(final(tree).entries()),
{
    let updating = tree.insert(key, value).is_some();
    let records = tree.get_all_records();
    (updating, records)
}

/// Removes the key from a tree. Hands out the records that are to be
/// saved, or nothing where the tree did not hold the key.
pub fn remove_from_tree(tree: &mut BTree, key: i32) -> (res: Option<Vec<Record>>)
    requires
        old(tree).wf(),
    ensures
        final(tree).wf(),
        final(tree)@ == old(tree)@.remove(key),
        match res {
            Some(records) => {
                &&& old(tree)@.contains_key(key)
                &&& record_entries(records@) == final(tree).entries()
                &&& ascending(final(tree).entries())
            },
            None => !old(tree)@.contains_key(key) && *final(tree) == *old(tree),
        },
{
    if tree.delete(key) {
        Some(tree.get_all_records())
    } else {
        None
    }
}

impl Databases {
    /// The names are as many as the trees, no name occurs twice, and every
    /// tree is well formed.
    pub closed spec fn wf(&self) -> bool {
        &&& self.names@.len() == self.trees@.len()
        &&& forall|i: int, j: int|
            0 <= i < j < self.names@.len() ==> (#[trigger] self.names@[i])@ != (
            #[trigger] self.names@[j])@
        &&& forall|i: int| 0 <= i < self.trees@.len() ==> (#[trigger] self.trees@[i]).wf()
    }

    /// A database of the name `n` is connected.
    pub closed spec fn has(&self, n: Seq<char>) -> bool {
        exists|i: int| 0 <= i < self.names@.len() && (#[trigger] self.names@[i])@ == n
    }

    /// The place of the database of the name `n`.
    closed spec fn place(&self, n: Seq<char>) -> int {
        choose|i: int| 0 <= i < self.names@.len() && (#[trigger] self.names@[i])@ == n
    }

    /// The tree of the database of the name `n`.
    pub closed spec fn tree(&self, n: Seq<char>) -> BTree {
        self.trees@[self.place(n)]
    }

    /// The name at a place is found at that place.
    proof fn lemma_place(&self, i: int)
        requires
            self.wf(),
            0 <= i < self.names@.len(),
        ensures
            self.has(self.names@[i]@),
            self.place(self.names@[i]@) == i,
            self.tree(self.names@[i]@) == self.trees@[i],
            self.tree(self.names@[i]@).wf(),
    {
        let j = self.place(self.names@[i]@);
        assert(self.names@[j]@ == self.names@[i]@);
        assert(self.trees@[i].wf());
    }

    /// No database is connected.
    pub fn new() -> (dbs: Databases)
        ensures
            dbs.wf(),
            forall|n: Seq<char>| !dbs.has(n),
    {
        Databases { names: Vec::new(), trees: Vec::new() }
    }

    fn find_place(&self, name: &str) -> (res: Option<usize>)
        requires
            self.wf(),
        ensures
            match res {
                Some(i) => i < self.names@.len() && self.names@[i as int]@ == name@ && self.has(
                    name@,
                ) && self.place(name@) == i,
                None => !self.has(name@),
            },
    {
        let mut i: usize = 0;
        while i < self.names.len()
            invariant
                self.wf(),
                i <= self.names@.len(),
                forall|j: int| 0 <= j < i ==> (#[trigger] self.names@[j])@ != name@,
            decreases self.names@.len() - i,
        {
            if same_text(self.names[i].as_str(), name) {
                proof {
                    self.lemma_place(i as int);
                }
                return Some(i);
            }
            i = i + 1;
        }
        None
    }

    /// Whether a database of that name is connected.
    pub fn is_connected(&self, name: &str) -> (connected: bool)
        requires
            self.wf(),
        ensures
            connected == self.has(name@),
    {
        self.find_place(name).is_some()
    }

    /// Connects the database of that name, if it is not connected: with
    /// the records that its file gave, or empty where there is no file.
    /// Where reading failed, nothing is connected.
    pub fn connect(&mut self, name: &str, loaded: Loaded) -> (r: ApiResponse)
        requires
            old(self).wf(),
        ensures
            final(self).wf(),
            r.data is None,
            forall|n: Seq<char>| n != name@ ==> final(self).has(n) == old(self).has(n),
            forall|n: Seq<char>|
                n != name@ && old(self).has(n) ==> final(self).tree(n) == old(self).tree(n),
            old(self).has(name@) ==> {
                &&& final(self).has(name@)
                &&& final(self).tree(name@) == old(self).tree(name@)
                &&& r.status == Status::Done && r.success
                &&& r.message@ == named("Already connected to database: "@, name@, ""@)
            },
            !old(self).has(name@) ==> match loaded {
                Loaded::Records(records) => {
                    &&& final(self).has(name@)
                    &&& final(self).tree(name@)@ == insert_all(
                        Map::empty(),
                        record_entries(records@),
                    )
                    &&& r.status == Status::Done && r.success
                    &&& r.message@ == named("Connected to database: "@, name@, ""@)
                },
                Loaded::Missing => {
                    &&& final(self).has(name@)
                    &&& final(self).tree(name@)@ == Map::<i32, Seq<char>>::empty()
                    &&& r.status == Status::Done && r.success
                    &&& r.message@ == named("Created new database: "@, name@, ""@)
                },
                Loaded::Failed(why) => {
                    &&& !final(self).has(name@)
                    &&& r.status == Status::InternalError && !r.success
                    &&& r.message@ == named("Failed to connect to database: "@, why@, ""@)
                },
            },
    {
        if self.find_place(name).is_some() {
            return already_connected(name);
        }
        let ghost before = *self;
        let (tree, response) = opened(name, loaded);
        let tree = match tree {
            Some(tree) => tree,
            None => {
                return response;
            },
        };
        let owned = named_message("", name, "");
        proof {
            reveal_strlit("");
            assert(owned@ =~= name@);
        }
        self.names.push(owned);
        self.trees.push(tree);
        proof {
            let last = before.names@.len() as int;
            assert forall|i: int, j: int| 0 <= i < j < self.names@.len() implies (
            #[trigger] self.names@[i])@ != (#[trigger] self.names@[j])@ by {
                if j == last {
                    assert(self.names@[i] == before.names@[i]);
                    if before.names@[i]@ == name@ {
                        assert(before.has(name@));
                    }
                } else {
                    assert(self.names@[i] == before.names@[i]);
                    assert(self.names@[j] == before.names@[j]);
                }
            }
            assert forall|i: int| 0 <= i < self.trees@.len() implies (#[trigger] self.trees@[i]).wf() by {
                if i < last {
                    assert(self.trees@[i] == before.trees@[i]);
                }
            }
            self.lemma_place(last);
            assert forall|n: Seq<char>| n != name@ implies self.has(n) == before.has(n) && (
            before.has(n) ==> self.tree(n) == before.tree(n)) by {
                if before.has(n) {
                    let i = before.place(n);
                    assert(self.names@[i] == before.names@[i]);
                    self.lemma_place(i);
                }
                if self.has(n) {
                    let i = self.place(n);
                    assert(i != last);
                    assert(self.names@[i] == before.names@[i]);
                    before.lemma_place(i);
                }
            }
        }
        response
    }

    /// All records of the database of that name, in ascending key order.
    pub fn list(&self, name: &str) -> (r: ApiResponse)
        requires
            self.wf(),
        ensures
            match r.data {
                Some(records) => {
                    &&& self.has(name@)
                    &&& record_entries(records@) == self.tree(name@).entries()
                    &&& ascending(record_entries(records@))
                    &&& entries_map(record_entries(records@)) == self.tree(name@)@
                    &&& r.status == Status::Done && r.success
                    &&& r.message@ == "Retrieved "@ + decimal_nat(records@.len()) + " records"@
                },
                None => {
                    &&& !self.has(name@)
                    &&& r.status == Status::NotFound && !r.success
                    &&& r.message@ == named("Database '"@, name@, "' not found"@)
                },
            },
    {
        match self.find_place(name) {
            None => no_database(name),
            Some(i) => {
                proof {
                    self.lemma_place(i as int);
                }
                list_tree(&self.trees[i])
            },
        }
    }

    /// The record of that key in the database of that name.
    pub fn find(&self, name: &str, key: i32) -> (r: ApiResponse)
        requires
            self.wf(),
        ensures
            match r.data {
                Some(records) => {
                    &&& self.has(name@)
                    &&& self.tree(name@)@.contains_key(key)
                    &&& record_entries(records@) == seq![(key, self.tree(name@)@[key])]
                    &&& r.status == Status::Done && r.success
                    &&& r.message@ == keyed("Found record with key "@, key, ""@)
                },
                None => {
                    &&& r.status == Status::NotFound && !r.success
                    &&& if self.has(name@) {
                        &&& !self.tree(name@)@.contains_key(key)
                        &&& r.message@ == keyed("Record with key "@, key, " not found"@)
                    } else {
                        r.message@ == named("Database '"@, name@, "' not found"@)
                    }
                },
            },
    {
        match self.find_place(name) {
            None => no_database(name),
            Some(i) => {
                proof {
                    self.lemma_place(i as int);
                }
                find_in_tree(&self.trees[i], key)
            },
        }
    }

    /// Binds the key to the value in the database of that name, and hands
    /// out the records that are to be saved.
    pub fn upsert(&mut self, name: &str, key: i32, value: String) -> (w: Written)
        requires
            old(self).wf(),
        ensures
            final(self).wf(),
            forall|n: Seq<char>| final(self).has(n) == old(self).has(n),
            forall|n: Seq<char>|
                n != name@ && old(self).has(n) ==> final(self).tree(n) == old(self).tree(n),
            match w {
                Written::NoDatabase => !old(self).has(name@),
                Written::Save { records, updating } => {
                    &&& old(self).has(name@)
                    &&& final(self).tree(name@)@ == old(self).tree(name@)@.insert(key, value@)
                    &&& updating == old(self).tree(name@)@.contains_key(key)
                    &&& ascending(record_entries(records@))
                    &&& entries_map(record_entries(records@)) == final(self).tree(name@)@
                },
            },
    {
        match self.find_place(name) {
            None => Written::NoDatabase,
            Some(i) => {
                let ghost before = *self;
                proof {
                    before.lemma_place(i as int);
                }
                let (updating, records) = upsert_tree(&mut self.trees[i], key, value);
                proof {
                    self.lemma_changed_at(before, i as int);
                }
                Written::Save { records, updating }
            },
        }
    }

    /// Removes the key from the database of that name, and hands out the
    /// records that are to be saved.
    pub fn remove(&mut self, name: &str, key: i32) -> (w: Removed)
        requires
            old(self).wf(),
        ensures
            final(self).wf(),
            forall|n: Seq<char>| final(self).has(n) == old(self).has(n),
            forall|n: Seq<char>|
                n != name@ && old(self).has(n) ==> final(self).tree(n) == old(self).tree(n),
            old(self).has(name@) ==> final(self).tree(name@)@ == old(self).tree(name@)@.remove(key),
            match w {
                Removed::NoDatabase => !old(self).has(name@),
                Removed::NoRecord => old(self).has(name@) && !old(self).tree(name@)@.contains_key(
                    key,
                ),
                Removed::Save { records } => {
                    &&& old(self).has(name@)
                    &&& old(self).tree(name@)@.contains_key(key)
                    &&& ascending(record_entries(records@))
                    &&& entries_map(record_entries(records@)) == final(self).tree(name@)@
                },
            },
    {
        match self.find_place(name) {
            None => Removed::NoDatabase,
            Some(i) => {
                let ghost before = *self;
                proof {
                    before.lemma_place(i as int);
                }
                let res = remove_from_tree(&mut self.trees[i], key);
                proof {
                    self.lemma_changed_at(before, i as int);
                }
                match res {
                    Some(records) => Removed::Save { records },
                    None => Removed::NoRecord,
                }
            },
        }
    }

    /// Where one tree changed and stayed well formed, the databases are
    /// well formed, the names are the same, and the other trees too.
    proof fn lemma_changed_at(&self, before: Databases, i: int)
        requires
            before.wf(),
            0 <= i < before.trees@.len(),
            self.names@ == before.names@,
            self.trees@ == before.trees@.update(i, self.trees@[i]),
            self.trees@[i].wf(),
        ensures
            self.wf(),
            forall|n: Seq<char>| self.has(n) == before.has(n),
            forall|n: Seq<char>|
                n != before.names@[i]@ && before.has(n) ==> self.tree(n) == before.tree(n),
            self.tree(before.names@[i]@) == self.trees@[i],
    {
        assert forall|k: int| 0 <= k < self.trees@.len() implies (#[trigger] self.trees@[k]).wf() by {
            if k != i {
                assert(self.trees@[k] == before.trees@[k]);
                assert(before.trees@[k].wf());
            }
        }
        self.lemma_place(i);
        assert forall|n: Seq<char>| n != before.names@[i]@ && before.has(n) implies self.tree(n)
            == before.tree(n) by {
            let j = before.place(n);
            assert(before.names@[j]@ == n);
            assert(self.place(n) == j);
            assert(self.trees@[j] == before.trees@[j]);
        }
    }
}

} // verus!
