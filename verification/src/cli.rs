//! The commands of the interactive shell: how a line of input is read as a
//! command, what a command does to the tree, and what it prints.

use vstd::prelude::*;
use crate::btree::{record_entries, BTree};
use crate::entries::Entry;
use crate::text::{
    append_chars, append_str, chars_of, decimal, is_word, key_to_chars, parse_key, parsed_key,
    string_from, string_of,
};

verus! {

/// The character separates words: it is white space.
pub open spec fn is_space(c: char) -> bool {
    let n = c as int;
    (9 <= n <= 13) || n == 0x20 || n == 0x85 || n == 0xA0 || n == 0x1680 || (0x2000 <= n
        <= 0x200A) || n == 0x2028 || n == 0x2029 || n == 0x202F || n == 0x205F || n == 0x3000
}

fn space(c: char) -> (b: bool)
    ensures
        b == is_space(c),
{
    c == '\u{9}' || c == '\u{a}' || c == '\u{b}' || c == '\u{c}' || c == '\u{d}' || c == '\u{20}'
        || c == '\u{85}' || c == '\u{a0}' || c == '\u{1680}' || c == '\u{2000}' || c == '\u{2001}'
        || c == '\u{2002}' || c == '\u{2003}' || c == '\u{2004}' || c == '\u{2005}' || c
        == '\u{2006}' || c == '\u{2007}' || c == '\u{2008}' || c == '\u{2009}' || c == '\u{200a}'
        || c == '\u{2028}' || c == '\u{2029}' || c == '\u{202f}' || c == '\u{205f}' || c
        == '\u{3000}'
}

/// The number of characters of `s` before its first white space.
pub open spec fn word_len(s: Seq<char>) -> int
    decreases s.len(),
{
    if s.len() == 0 || is_space(s[0]) {
        0
    } else {
        1 + word_len(s.drop_first())
    }
}

/// The words of a line: the longest runs of characters that are no white
/// space, in their order.
pub open spec fn words_of(s: Seq<char>) -> Seq<Seq<char>>
    decreases s.len(),
{
    if s.len() == 0 {
        Seq::empty()
    } else if is_space(s[0]) {
        words_of(s.drop_first())
    } else {
        let n = word_len(s);
        if 0 < n <= s.len() {
            seq![s.subrange(0, n)] + words_of(s.subrange(n, s.len() as int))
        } else {
            Seq::empty()
        }
    }
}

proof fn lemma_word_len(s: Seq<char>, k: int)
    requires
        0 <= k <= s.len(),
        forall|j: int| 0 <= j < k ==> !is_space(s[j]),
        k == s.len() || is_space(s[k]),
    ensures
        word_len(s) == k,
    decreases k,
{
    if k > 0 {
        let t = s.drop_first();
        assert forall|j: int| 0 <= j < k - 1 implies !is_space(t[j]) by {
            assert(t[j] == s[j + 1]);
        }
        lemma_word_len(t, k - 1);
    }
}

/// The parts of `chars` that the pairs of `spans` bound.
pub open spec fn spans_of(spans: Seq<(usize, usize)>, chars: Seq<char>) -> Seq<Seq<char>> {
    Seq::new(spans.len(), |i: int| chars.subrange(spans[i].0 as int, spans[i].1 as int))
}

/// Where the words of `chars` begin and end.
pub fn split_words(chars: &Vec<char>) -> (spans: Vec<(usize, usize)>)
    ensures
        spans_of(spans@, chars@) == words_of(chars@),
        forall|i: int|
            0 <= i < spans@.len() ==> (#[trigger] spans@[i]).0 <= spans@[i].1 <= chars@.len(),
{
    let len: usize = chars.len();
    let mut spans: Vec<(usize, usize)> = Vec::new();
    let mut pos: usize = 0;
    proof {
        assert(chars@.subrange(0, len as int) =~= chars@);
        assert(spans_of(spans@, chars@) =~= Seq::<Seq<char>>::empty());
        assert(Seq::<Seq<char>>::empty() + words_of(chars@) =~= words_of(chars@));
    }
    while pos < len
        invariant
            len == chars@.len(),
            pos <= len,
            forall|i: int|
            0 <= i < spans@.len() ==> (#[trigger] spans@[i]).0 <= spans@[i].1 <= chars@.len(),
            words_of(chars@) == spans_of(spans@, chars@) + words_of(
                chars@.subrange(pos as int, len as int),
            ),
        decreases len - pos,
    {
        let ghost rest = chars@.subrange(pos as int, len as int);
        assert(rest[0] == chars@[pos as int]);
        if space(chars[pos]) {
            assert(rest.drop_first() =~= chars@.subrange(pos + 1, len as int));
            pos = pos + 1;
        } else {
            let start: usize = pos;
            let mut e: usize = pos + 1;
            while e < len && !space(chars[e])
                invariant
                    len == chars@.len(),
                    start < e <= len,
                    rest == chars@.subrange(start as int, len as int),
                    forall|j: int| 0 <= j < e - start ==> !is_space(rest[j]),
                decreases len - e,
            {
                assert(rest[e - start] == chars@[e as int]);
                e = e + 1;
            }
            let ghost before = spans_of(spans@, chars@);
            spans.push((start, e));
            proof {
                if e < len {
                    assert(rest[e - start] == chars@[e as int]);
                }
                lemma_word_len(rest, e - start);
                assert(rest.subrange(0, e - start) =~= chars@.subrange(start as int, e as int));
                assert(rest.subrange(e - start, rest.len() as int) =~= chars@.subrange(
                    e as int,
                    len as int,
                ));
                assert(spans_of(spans@, chars@) =~= before.push(
                    chars@.subrange(start as int, e as int),
                ));
                assert(before + (seq![chars@.subrange(start as int, e as int)] + words_of(
                    chars@.subrange(e as int, len as int),
                )) =~= before.push(chars@.subrange(start as int, e as int)) + words_of(
                    chars@.subrange(e as int, len as int),
                ));
            }
            pos = e;
        }
    }
    proof {
        assert(chars@.subrange(len as int, len as int) =~= Seq::<char>::empty());
        assert(spans_of(spans@, chars@) + Seq::<Seq<char>>::empty() =~= spans_of(spans@, chars@));
    }
    spans
}

/// A command of the shell.
pub enum Command {
    /// `insert <key> <value>`
    Insert { key: i32, value: String },
    /// `select`
    SelectAll,
    /// `select <key>`
    Select { key: i32 },
    /// `delete <key>`
    Delete { key: i32 },
    /// `analyze <key>`
    Analyze { key: i32 },
    /// `exit`
    Exit,
    /// A command whose key is no 32-bit integer.
    InvalidKey,
    /// Anything else.
    Invalid,
}

/// A command as the contracts see it.
pub enum CommandView {
    Insert(i32, Seq<char>),
    SelectAll,
    Select(i32),
    Delete(i32),
    Analyze(i32),
    Exit,
    InvalidKey,
    Invalid,
}

impl View for Command {
    type V = CommandView;

    open spec fn view(&self) -> CommandView {
        match *self {
            Command::Insert { key, value } => CommandView::Insert(key, value@),
            Command::SelectAll => CommandView::SelectAll,
            Command::Select { key } => CommandView::Select(key),
            Command::Delete { key } => CommandView::Delete(key),
            Command::Analyze { key } => CommandView::Analyze(key),
            Command::Exit => CommandView::Exit,
            Command::InvalidKey => CommandView::InvalidKey,
            Command::Invalid => CommandView::Invalid,
        }
    }
}

/// The command that the words of a line stand for.
pub open spec fn command_of(words: Seq<Seq<char>>) -> CommandView {
    if words.len() == 3 && words[0] == "insert"@ {
        match parsed_key(words[1]) {
            Some(key) => CommandView::Insert(key, words[2]),
            None => CommandView::InvalidKey,
        }
    } else if words.len() == 1 && words[0] == "select"@ {
        CommandView::SelectAll
    } else if words.len() == 2 && words[0] == "select"@ {
        match parsed_key(words[1]) {
            Some(key) => CommandView::Select(key),
            None => CommandView::InvalidKey,
        }
    } else if words.len() == 2 && words[0] == "delete"@ {
        match parsed_key(words[1]) {
            Some(key) => CommandView::Delete(key),
            None => CommandView::InvalidKey,
        }
    } else if words.len() == 2 && words[0] == "analyze"@ {
        match parsed_key(words[1]) {
            Some(key) => CommandView::Analyze(key),
            None => CommandView::InvalidKey,
        }
    } else if words.len() == 1 && words[0] == "exit"@ {
        CommandView::Exit
    } else {
        CommandView::Invalid
    }
}

/// The command that a line of input stands for.
pub fn parse_command(line: &str) -> (cmd: Command)
    ensures
        cmd@ == command_of(words_of(line@)),
{
    let chars = chars_of(line);
    let spans = split_words(&chars);
    let ghost words = words_of(line@);
    let n: usize = spans.len();
    proof {
        assert(spans_of(spans@, chars@).len() == n);
    }
    if n == 0 || n > 3 {
        return Command::Invalid;
    }
    let (a0, a1) = spans[0];
    assert(words[0] == chars@.subrange(a0 as int, a1 as int)) by {
        assert(spans_of(spans@, chars@)[0] == chars@.subrange(a0 as int, a1 as int));
    }
    if n == 1 {
        if is_word(&chars, a0, a1, "select") {
            return Command::SelectAll;
        }
        if is_word(&chars, a0, a1, "exit") {
            return Command::Exit;
        }
        return Command::Invalid;
    }
    let (b0, b1) = spans[1];
    assert(words[1] == chars@.subrange(b0 as int, b1 as int)) by {
        assert(spans_of(spans@, chars@)[1] == chars@.subrange(b0 as int, b1 as int));
    }
    if n == 2 {
        let select = is_word(&chars, a0, a1, "select");
        let delete = is_word(&chars, a0, a1, "delete");
        let analyze = is_word(&chars, a0, a1, "analyze");
        if !select && !delete && !analyze {
            return Command::Invalid;
        }
        return match parse_key(&chars, b0, b1) {
            None => Command::InvalidKey,
            Some(key) => if select {
                Command::Select { key }
            } else if delete {
                Command::Delete { key }
            } else {
                Command::Analyze { key }
            },
        };
    }
    let (c0, c1) = spans[2];
    assert(words[2] == chars@.subrange(c0 as int, c1 as int)) by {
        assert(spans_of(spans@, chars@)[2] == chars@.subrange(c0 as int, c1 as int));
    }
    if !is_word(&chars, a0, a1, "insert") {
        return Command::Invalid;
    }
    match parse_key(&chars, b0, b1) {
        None => Command::InvalidKey,
        Some(key) => Command::Insert { key, value: string_from(&chars, c0, c1) },
    }
}

/// What the shell prints after an insertion.
pub open spec fn inserted_line(key: i32, value: Seq<char>) -> Seq<char> {
    "Inserted: "@ + decimal(key as int) + " => "@ + value
}

/// What the shell prints for a key that it found.
pub open spec fn found_line(key: i32, value: Seq<char>) -> Seq<char> {
    "Found: "@ + decimal(key as int) + " => "@ + value
}

/// What the shell prints for a key that the tree does not hold.
pub open spec fn missing_line(key: i32) -> Seq<char> {
    "Key "@ + decimal(key as int) + " not found"@
}

/// What the shell prints after a deletion.
pub open spec fn deleted_line(key: i32) -> Seq<char> {
    "Deleted key "@ + decimal(key as int)
}

/// What the shell prints for one record of a full scan.
pub open spec fn record_line(e: Entry) -> Seq<char> {
    "- "@ + decimal(e.0 as int) + " => "@ + e.1
}

/// What the shell prints for a full scan.
pub open spec fn scan_lines(entries: Seq<Entry>) -> Seq<Seq<char>> {
    if entries.len() == 0 {
        seq!["No records found"@]
    } else {
        seq!["All records:"@] + Seq::new(entries.len(), |i: int| record_line(entries[i]))
    }
}

/// The characters of each of the given strings.
pub open spec fn texts(lines: Seq<String>) -> Seq<Seq<char>> {
    Seq::new(lines.len(), |i: int| lines[i]@)
}

/// What a command leaves for the shell to do: the lines to print, on the
/// error stream where `to_stderr` holds; whether the records are to be
/// saved; the key whose lookup is to be timed, if any; and whether the
/// shell is to end.
pub struct Outcome {
    pub lines: Vec<String>,
    pub to_stderr: bool,
    pub save: bool,
    pub analyze: Option<i32>,
    pub exit: bool,
}

fn keyed_line(head: &str, key: i32, tail: &str, value: &str) -> (s: String)
    ensures
        s@ == head@ + decimal(key as int) + tail@ + value@,
{
    let mut out: Vec<char> = Vec::new();
    append_str(&mut out, head);
    append_chars(&mut out, &key_to_chars(key));
    append_str(&mut out, tail);
    append_str(&mut out, value);
    assert(out@ =~= head@ + decimal(key as int) + tail@ + value@);
    string_of(&out)
}

fn one_line(line: String, to_stderr: bool, save: bool) -> (out: Outcome)
    ensures
        texts(out.lines@) == seq![line@],
        out.to_stderr == to_stderr,
        out.save == save,
        out.analyze is None,
        !out.exit,
{
    let mut lines: Vec<String> = Vec::new();
    lines.push(line);
    assert(texts(lines@) =~= seq![line@]);
    Outcome { lines, to_stderr, save, analyze: None, exit: false }
}

/// What the shell prints for the outcome of a lookup: the value in
/// quotation marks, or that there is none.
pub fn result_to_string(result: Option<String>) -> (s: String)
    ensures
        s@ == match result {
            Some(value) => "Found \""@ + value@ + "\""@,
            None => "Not found"@,
        },
{
    match result {
        Some(value) => {
            let mut out: Vec<char> = Vec::new();
            append_str(&mut out, "Found \"");
            append_str(&mut out, value.as_str());
            append_str(&mut out, "\"");
            string_of(&out)
        },
        None => "Not found".to_string(),
    }
}

/// Carries out a command on the tree, and says what the shell is to print
/// and to do.
pub fn execute(tree: &mut BTree, cmd: Command) -> (out: Outcome)
    requires
        old(tree).wf(),
    ensures
        final(tree).wf(),
        match cmd@ {
            CommandView::Insert(key, value) => {
                &&& final(tree)@ == old(tree)@.insert(key, value)
                &&& texts(out.lines@) == seq![inserted_line(key, value)]
                &&& !out.to_stderr && out.save && out.analyze is None && !out.exit
            },
            CommandView::SelectAll => {
                &&& *final(tree) == *old(tree)
                &&& texts(out.lines@) == scan_lines(old(tree).entries())
                &&& !out.to_stderr && !out.save && out.analyze is None && !out.exit
            },
            CommandView::Select(key) => {
                &&& *final(tree) == *old(tree)
                &&& texts(out.lines@) == seq![
                    if old(tree)@.contains_key(key) {
                        found_line(key, old(tree)@[key])
                    } else {
                        missing_line(key)
                    },
                ]
                &&& !out.to_stderr && !out.save && out.analyze is None && !out.exit
            },
            CommandView::Delete(key) => {
                &&& final(tree)@ == old(tree)@.remove(key)
                &&& !old(tree)@.contains_key(key) ==> *final(tree) == *old(tree)
                &&& texts(out.lines@) == seq![
                    if old(tree)@.contains_key(key) {
                        deleted_line(key)
                    } else {
                        missing_line(key)
                    },
                ]
                &&& out.save == old(tree)@.contains_key(key)
                &&& !out.to_stderr && out.analyze is None && !out.exit
            },
            CommandView::Analyze(key) => {
                &&& *final(tree) == *old(tree)
                &&& out.lines@.len() == 0
                &&& out.analyze == Some(key)
                &&& !out.to_stderr && !out.save && !out.exit
            },
            CommandView::Exit => {
                &&& *final(tree) == *old(tree)
                &&& out.lines@.len() == 0
                &&& out.exit
                &&& !out.to_stderr && !out.save && out.analyze is None
            },
            CommandView::InvalidKey => {
                &&& *final(tree) == *old(tree)
                &&& texts(out.lines@) == seq!["Invalid key"@]
                &&& out.to_stderr && !out.save && out.analyze is None && !out.exit
            },
            CommandView::Invalid => {
                &&& *final(tree) == *old(tree)
                &&& texts(out.lines@) == seq!["Invalid command"@]
                &&& !out.to_stderr && !out.save && out.analyze is None && !out.exit
            },
        },
{
    match cmd {
        Command::Insert { key, value } => {
            let line = keyed_line("Inserted: ", key, " => ", value.as_str());
            tree.insert(key, value);
            one_line(line, false, true)
        },
        Command::SelectAll => {
            let records = tree.get_all_records();
            let mut lines: Vec<String> = Vec::new();
            if records.len() == 0 {
                lines.push("No records found".to_string());
                assert(texts(lines@) =~= scan_lines(tree.entries()));
            } else {
                lines.push("All records:".to_string());
                let ghost entries = tree.entries();
                let mut i: usize = 0;
                while i < records.len()
                    invariant
                        i <= records@.len(),
                        entries == record_entries(records@),
                        lines@.len() == i + 1,
                        lines@[0]@ == "All records:"@,
                        forall|j: int| 0 <= j < i ==> (#[trigger] lines@[j + 1])@ == record_line(
                            entries[j],
                        ),
                    decreases records@.len() - i,
                {
                    let line = keyed_line("- ", records[i].key, " => ", records[i].value.as_str());
                    lines.push(line);
                    i = i + 1;
                }
                proof {
                    let want = scan_lines(entries);
                    assert(want.len() == lines@.len());
                    assert forall|k: int| 0 <= k < lines@.len() implies texts(lines@)[k]
                        == want[k] by {
                        if k > 0 {
                            assert(lines@[(k - 1) + 1]@ == record_line(entries[k - 1]));
                        }
                    }
                    assert(texts(lines@) =~= want);
                }
            }
            Outcome { lines, to_stderr: false, save: false, analyze: None, exit: false }
        },
        Command::Select { key } => {
            let line = match tree.search(key) {
                Some(value) => keyed_line("Found: ", key, " => ", value.as_str()),
                None => {
                    let s = keyed_line("Key ", key, " not found", "");
                    proof {
                        reveal_strlit("");
                        assert(s@ =~= missing_line(key));
                    }
                    s
                },
            };
            one_line(line, false, false)
        },
        Command::Delete { key } => {
            let line = if tree.delete(key) {
                let s = keyed_line("Deleted key ", key, "", "");
                proof {
                    reveal_strlit("");
                    assert(s@ =~= deleted_line(key));
                }
                one_line(s, false, true)
            } else {
                let s = keyed_line("Key ", key, " not found", "");
                proof {
                    reveal_strlit("");
                    assert(s@ =~= missing_line(key));
                }
                one_line(s, false, false)
            };
            line
        },
        Command::Analyze { key } => Outcome {
            lines: Vec::new(),
            to_stderr: false,
            save: false,
            analyze: Some(key),
            exit: false,
        },
        Command::Exit => Outcome {
            lines: Vec::new(),
            to_stderr: false,
            save: false,
            analyze: None,
            exit: true,
        },
        Command::InvalidKey => one_line("Invalid key".to_string(), true, false),
        Command::Invalid => one_line("Invalid command".to_string(), false, false),
    }
}

} // verus!
