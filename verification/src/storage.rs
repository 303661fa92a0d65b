//! The record log: one record per line, the key in decimal, a comma, the
//! value. A value cannot hold a comma or a line end, as nothing is escaped.

use vstd::prelude::*;
use crate::btree::{record_entries, Record};
use crate::entries::Entry;
use crate::text::{
    append_chars, chars_of, decimal, key_to_chars, parse_key, parsed_key, string_from,
};

verus! {

/// Why a record log was refused.
#[derive(Debug, Clone, Copy, PartialEq, Eq, Structural)]
pub enum StorageError {
    /// The line with this number, counted from zero, has one comma, but
    /// what stands before it is no 32-bit integer.
    InvalidKey { line: usize },
}

/// The place of the first line feed in `s`, or the length of `s`.
pub open spec fn line_len(s: Seq<char>) -> int
    decreases s.len(),
{
    if s.len() == 0 || s[0] == '\n' {
        0
    } else {
        1 + line_len(s.drop_first())
    }
}

/// The place of the first comma in `s`, or the length of `s`.
pub open spec fn comma_at(s: Seq<char>) -> int
    decreases s.len(),
{
    if s.len() == 0 || s[0] == ',' {
        0
    } else {
        1 + comma_at(s.drop_first())
    }
}

/// The number of commas in `s`.
pub open spec fn count_commas(s: Seq<char>) -> nat
    decreases s.len(),
{
    if s.len() == 0 {
        0
    } else {
        count_commas(s.drop_last()) + if s.last() == ',' {
            1nat
        } else {
            0nat
        }
    }
}

/// The lines of a text. A line ends at a line feed or at the end of the
/// text; a carriage return before the line feed belongs to the line end.
/// A line feed at the end of the text does not begin another line.
pub open spec fn lines_of(text: Seq<char>) -> Seq<Seq<char>>
    decreases text.len(),
{
    if text.len() == 0 {
        Seq::empty()
    } else {
        let e = line_len(text);
        if 0 <= e < text.len() {
            let line = if e > 0 && text[e - 1] == '\r' {
                text.subrange(0, e - 1)
            } else {
                text.subrange(0, e)
            };
            seq![line] + lines_of(text.subrange(e + 1, text.len() as int))
        } else {
            seq![text]
        }
    }
}

/// What a line says: nothing, where it does not have exactly one comma; a
/// record, where a 32-bit integer stands before the comma; else a fault.
pub enum Line {
    Skip,
    Entry(i32, Seq<char>),
    Fault,
}

/// What the line `line` says.
pub open spec fn line_says(line: Seq<char>) -> Line {
    if count_commas(line) != 1 {
        Line::Skip
    } else {
        let c = comma_at(line);
        match parsed_key(line.subrange(0, c)) {
            Some(k) => Line::Entry(k, line.subrange(c + 1, line.len() as int)),
            None => Line::Fault,
        }
    }
}

/// The records of the lines that say one, in their order, or the number of
/// the first faulty line; `n` is the number of the first of `lines`.
pub open spec fn records_of(lines: Seq<Seq<char>>, n: nat) -> Result<Seq<Entry>, nat>
    decreases lines.len(),
{
    if lines.len() == 0 {
        Ok(Seq::empty())
    } else {
        let rest = records_of(lines.drop_first(), n + 1);
        match line_says(lines[0]) {
            Line::Skip => rest,
            Line::Fault => Err(n),
            Line::Entry(k, v) => match rest {
                Ok(r) => Ok(seq![(k, v)] + r),
                Err(m) => Err(m),
            },
        }
    }
}

/// The records `done`, then what `rest` gives.
pub open spec fn after_records(done: Seq<Entry>, rest: Result<Seq<Entry>, nat>) -> Result<
    Seq<Entry>,
    nat,
> {
    match rest {
        Ok(r) => Ok(done + r),
        Err(m) => Err(m),
    }
}

/// The text of a record log that holds `entries`: for each the key in
/// decimal, a comma, the value and a line feed.
pub open spec fn rendered(entries: Seq<Entry>) -> Seq<char>
    decreases entries.len(),
{
    if entries.len() == 0 {
        Seq::empty()
    } else {
        rendered(entries.drop_last()) + decimal(entries.last().0 as int) + seq![','] + entries.last().1
            + seq!['\n']
    }
}

/// Where no line feed stands before the place `k` and one stands at it, or
/// the text ends there, the first line is `k` long.
proof fn lemma_line_len(s: Seq<char>, k: int)
    requires
        0 <= k <= s.len(),
        forall|j: int| 0 <= j < k ==> s[j] != '\n',
        k == s.len() || s[k] == '\n',
    ensures
        line_len(s) == k,
    decreases k,
{
    if k > 0 {
        let t = s.drop_first();
        assert forall|j: int| 0 <= j < k - 1 implies t[j] != '\n' by {
            assert(t[j] == s[j + 1]);
        }
        lemma_line_len(t, k - 1);
    }
}

/// Where no comma stands before the place `k` and one stands at it, or the
/// text ends there, the first comma is at `k`.
proof fn lemma_comma_at(s: Seq<char>, k: int)
    requires
        0 <= k <= s.len(),
        forall|j: int| 0 <= j < k ==> s[j] != ',',
        k == s.len() || s[k] == ',',
    ensures
        comma_at(s) == k,
    decreases k,
{
    if k > 0 {
        let t = s.drop_first();
        assert forall|j: int| 0 <= j < k - 1 implies t[j] != ',' by {
            assert(t[j] == s[j + 1]);
        }
        lemma_comma_at(t, k - 1);
    }
}

/// The records of a text of the record log, or the first line whose key
/// is no 32-bit integer. Lines without a comma or with more than one are
/// passed over.
pub fn parse_records(text: &str) -> (res: Result<Vec<Record>, StorageError>)
    ensures
        match res {
            Ok(records) => records_of(lines_of(text@), 0) == Ok::<Seq<Entry>, nat>(
                record_entries(records@),
            ),
            Err(StorageError::InvalidKey { line }) => records_of(lines_of(text@), 0) == Err::<
                Seq<Entry>,
                nat,
            >(line as nat),
        },
{
    let chars = chars_of(text);
    let len: usize = chars.len();
    let mut records: Vec<Record> = Vec::new();
    let mut pos: usize = 0;
    let mut line_no: usize = 0;
    proof {
        assert(chars@.subrange(0, len as int) =~= chars@);
        assert(record_entries(records@) =~= Seq::<Entry>::empty());
        match records_of(lines_of(chars@), 0) {
            Ok(r) => {
                assert(Seq::<Entry>::empty() + r =~= r);
            },
            Err(m) => {},
        }
    }
    while pos < len
        invariant
            len == chars@.len(),
            chars@ == text@,
            pos <= len,
            line_no <= pos,
            records_of(lines_of(chars@), 0) == after_records(
                record_entries(records@),
                records_of(lines_of(chars@.subrange(pos as int, len as int)), line_no as nat),
            ),
        decreases len - pos,
    {
        let ghost rest = chars@.subrange(pos as int, len as int);
        let mut e: usize = pos;
        let mut commas: usize = 0;
        let mut comma: usize = pos;
        assert(rest.subrange(0, 0) =~= Seq::<char>::empty());
        while e < len && chars[e] != '\n'
            invariant
                len == chars@.len(),
                pos <= e <= len,
                rest == chars@.subrange(pos as int, len as int),
                commas == count_commas(rest.subrange(0, e - pos)),
                commas <= e - pos,
                forall|j: int| 0 <= j < e - pos ==> rest[j] != '\n',
                commas == 0 ==> forall|j: int| 0 <= j < e - pos ==> rest[j] != ',',
                commas > 0 ==> pos <= comma < e && rest[comma - pos] == ',' && forall|j: int|
                    0 <= j < comma - pos ==> rest[j] != ',',
            decreases len - e,
        {
            proof {
                assert(rest[e - pos] == chars@[e as int]);
                assert(rest.subrange(0, e - pos + 1).drop_last() =~= rest.subrange(0, e - pos));
                assert(rest.subrange(0, e - pos + 1).last() == rest[e - pos]);
            }
            if chars[e] == ',' {
                if commas == 0 {
                    comma = e;
                }
                commas = commas + 1;
            }
            e = e + 1;
        }
        let end: usize = if e < len && e > pos && chars[e - 1] == '\r' {
            e - 1
        } else {
            e
        };
        let next: usize = if e < len {
            e + 1
        } else {
            e
        };
        let ghost line = chars@.subrange(pos as int, end as int);
        let ghost tail = chars@.subrange(next as int, len as int);
        proof {
            if e < len {
                assert(rest[e - pos] == chars@[e as int]);
            }
            lemma_line_len(rest, e - pos);
            if e > pos {
                assert(rest[e - pos - 1] == chars@[e - 1]);
            }
            if e < len {
                assert(rest.subrange(e - pos + 1, rest.len() as int) =~= tail);
                assert(rest.subrange(0, end - pos) =~= line);
                assert(lines_of(rest) == seq![line] + lines_of(tail));
            } else {
                assert(rest =~= line);
                assert(tail =~= Seq::<char>::empty());
                assert(lines_of(rest) == seq![line]);
                assert(seq![line] + lines_of(tail) =~= seq![line]);
            }
            assert((seq![line] + lines_of(tail)).drop_first() =~= lines_of(tail));
            assert(line =~= rest.subrange(0, end - pos));
            if end < e {
                assert(rest.subrange(0, e - pos).drop_last() =~= line);
                assert(rest.subrange(0, e - pos).last() == '\r');
            } else {
                assert(rest.subrange(0, e - pos) =~= line);
            }
            assert(commas == count_commas(line));
            if commas == 1 {
                assert forall|j: int| 0 <= j < comma - pos implies line[j] != ',' by {
                    assert(line[j] == rest[j]);
                }
                assert(line[comma - pos] == rest[comma - pos]);
                lemma_comma_at(line, comma - pos);
                assert(line.subrange(0, comma - pos) =~= chars@.subrange(
                    pos as int,
                    comma as int,
                ));
                assert(line.subrange(comma - pos + 1, line.len() as int) =~= chars@.subrange(
                    comma + 1,
                    end as int,
                ));
            }
        }
        if commas == 1 {
            match parse_key(&chars, pos, comma) {
                None => {
                    return Err(StorageError::InvalidKey { line: line_no });
                },
                Some(key) => {
                    let value = string_from(&chars, comma + 1, end);
                    let ghost before = record_entries(records@);
                    records.push(Record { key, value });
                    proof {
                        assert(record_entries(records@) =~= before.push((key, value@)));
                        match records_of(lines_of(tail), (line_no + 1) as nat) {
                            Ok(r) => {
                                assert(before + (seq![(key, value@)] + r) =~= before.push(
                                    (key, value@),
                                ) + r);
                            },
                            Err(m) => {},
                        }
                    }
                },
            }
        }
        pos = next;
        line_no = line_no + 1;
    }
    proof {
        assert(chars@.subrange(len as int, len as int) =~= Seq::<char>::empty());
        assert(record_entries(records@) + Seq::<Entry>::empty() =~= record_entries(records@));
    }
    Ok(records)
}

/// The text of a record log that holds the given records.
pub fn render_records(records: &Vec<Record>) -> (text: String)
    ensures
        text@ == rendered(record_entries(records@)),
{
    let ghost all = record_entries(records@);
    let mut out: Vec<char> = Vec::new();
    let mut i: usize = 0;
    assert(all.subrange(0, 0) =~= Seq::<Entry>::empty());
    while i < records.len()
        invariant
            i <= records@.len(),
            all == record_entries(records@),
            out@ == rendered(all.subrange(0, i as int)),
        decreases records@.len() - i,
    {
        let key = key_to_chars(records[i].key);
        let value = chars_of(records[i].value.as_str());
        append_chars(&mut out, &key);
        out.push(',');
        append_chars(&mut out, &value);
        out.push('\n');
        proof {
            assert(all.subrange(0, i + 1).drop_last() =~= all.subrange(0, i as int));
            assert(all.subrange(0, i + 1).last() == all[i as int]);
            assert(out@ =~= rendered(all.subrange(0, i as int)) + decimal(all[i as int].0 as int)
                + seq![','] + all[i as int].1 + seq!['\n']);
        }
        i = i + 1;
    }
    proof {
        assert(all.subrange(0, records@.len() as int) =~= all);
    }
    let text = string_from(&out, 0, out.len());
    assert(out@.subrange(0, out@.len() as int) =~= out@);
    text
}

/// A value that the record log can hold: it has no comma and no line feed,
/// and does not end with a carriage return.
pub open spec fn storable(v: Seq<char>) -> bool {
    &&& forall|i: int| 0 <= i < v.len() ==> v[i] != ',' && v[i] != '\n'
    &&& v.len() > 0 ==> v.last() != '\r'
}

/// The commas of a text are those of its two parts.
proof fn lemma_count_concat(a: Seq<char>, b: Seq<char>)
    ensures
        count_commas(a + b) == count_commas(a) + count_commas(b),
    decreases b.len(),
{
    if b.len() == 0 {
        assert(a + b =~= a);
    } else {
        assert((a + b).drop_last() =~= a + b.drop_last());
        lemma_count_concat(a, b.drop_last());
    }
}

/// A text without commas has none.
proof fn lemma_count_none(s: Seq<char>)
    requires
        forall|i: int| 0 <= i < s.len() ==> s[i] != ',',
    ensures
        count_commas(s) == 0,
    decreases s.len(),
{
    if s.len() > 0 {
        let t = s.drop_last();
        assert forall|i: int| 0 <= i < t.len() implies t[i] != ',' by {
            assert(t[i] == s[i]);
        }
        lemma_count_none(t);
    }
}

/// The decimal form of a number holds digits and at most a minus sign.
proof fn lemma_decimal_chars(k: int)
    ensures
        decimal(k).len() > 0,
        forall|i: int|
            0 <= i < decimal(k).len() ==> (#[trigger] decimal(k)[i]) != ',' && decimal(k)[i] != '\n'
                && decimal(k)[i] != '\r',
{
    let n = if k < 0 {
        (-k) as nat
    } else {
        k as nat
    };
    crate::text::lemma_decimal_nat(n);
    let d = crate::text::decimal_nat(n);
    assert forall|i: int| 0 <= i < decimal(k).len() implies (#[trigger] decimal(k)[i]) != ','
        && decimal(k)[i] != '\n' && decimal(k)[i] != '\r' by {
        if k < 0 {
            if i > 0 {
                assert(decimal(k)[i] == d[i - 1]);
                assert(crate::text::is_digit(d[i - 1]));
            }
        } else {
            assert(crate::text::is_digit(d[i]));
        }
    }
}

/// The text of a record log begins with the line of its first record.
proof fn lemma_rendered_first(entries: Seq<Entry>)
    requires
        entries.len() > 0,
    ensures
        rendered(entries) == decimal(entries[0].0 as int) + seq![','] + entries[0].1 + seq!['\n']
            + rendered(entries.drop_first()),
    decreases entries.len(),
{
    let first = decimal(entries[0].0 as int) + seq![','] + entries[0].1 + seq!['\n'];
    if entries.len() == 1 {
        assert(entries.drop_last() =~= Seq::<Entry>::empty());
        assert(entries.drop_first() =~= Seq::<Entry>::empty());
        assert(rendered(entries) =~= first + rendered(entries.drop_first()));
    } else {
        let init = entries.drop_last();
        lemma_rendered_first(init);
        assert(init.drop_first() =~= entries.drop_first().drop_last());
        assert(init[0] == entries[0]);
        assert(entries.drop_first().last() == entries.last());
        assert(rendered(entries) =~= first + rendered(entries.drop_first()));
    }
}

/// The line of a record says that record, holds no line feed and does not
/// end with a carriage return.
proof fn lemma_line_of_entry(k: i32, v: Seq<char>)
    requires
        storable(v),
    ensures
        line_says(decimal(k as int) + seq![','] + v) == Line::Entry(k, v),
        forall|j: int|
            0 <= j < (decimal(k as int) + seq![','] + v).len() ==> (#[trigger] (decimal(k as int)
                + seq![','] + v)[j]) != '\n',
        (decimal(k as int) + seq![','] + v).len() > 0,
        (decimal(k as int) + seq![','] + v).last() != '\r',
{
    let d = decimal(k as int);
    let line = d + seq![','] + v;
    lemma_decimal_chars(k as int);
    assert forall|j: int| 0 <= j < line.len() implies (#[trigger] line[j]) != '\n' by {
        if j < d.len() {
            assert(line[j] == d[j]);
        } else if j > d.len() {
            assert(line[j] == v[j - d.len() - 1]);
        }
    }
    if v.len() > 0 {
        assert(line.last() == v.last());
    } else {
        assert(line.last() == ',');
    }
    lemma_count_concat(d + seq![','], v);
    lemma_count_concat(d, seq![',']);
    assert forall|i: int| 0 <= i < d.len() implies d[i] != ',' by {}
    lemma_count_none(d);
    lemma_count_none(v);
    let one = seq![','];
    assert(one.drop_last() =~= Seq::<char>::empty());
    assert(count_commas(one.drop_last()) == 0);
    assert(count_commas(one) == 1);
    assert forall|j: int| 0 <= j < d.len() implies line[j] != ',' by {
        assert(line[j] == d[j]);
    }
    assert(line[d.len() as int] == ',');
    lemma_comma_at(line, d.len() as int);
    assert(line.subrange(0, d.len() as int) =~= d);
    assert(line.subrange((d.len() + 1) as int, line.len() as int) =~= v);
    crate::text::lemma_parse_decimal(k);
}

/// The lines of a text that begins with a line, which holds no line feed
/// and does not end with a carriage return, and a line feed.
proof fn lemma_lines_first(line: Seq<char>, tail: Seq<char>)
    requires
        forall|j: int| 0 <= j < line.len() ==> (#[trigger] line[j]) != '\n',
        line.len() > 0 ==> line.last() != '\r',
    ensures
        lines_of(line + seq!['\n'] + tail) == seq![line] + lines_of(tail),
{
    let text = line + seq!['\n'] + tail;
    assert forall|j: int| 0 <= j < line.len() implies text[j] != '\n' by {
        assert(text[j] == line[j]);
    }
    assert(text[line.len() as int] == '\n');
    lemma_line_len(text, line.len() as int);
    if line.len() > 0 {
        assert(text[line.len() - 1] == line.last());
    }
    assert(text.subrange(0, line.len() as int) =~= line);
    assert(text.subrange((line.len() + 1) as int, text.len() as int) =~= tail);
}

/// What was written is read back: the text of a record log that holds
/// `entries`, all of them with values that the log can hold, has the
/// records `entries`.
pub proof fn lemma_render_parse(entries: Seq<Entry>, n: nat)
    requires
        forall|i: int| 0 <= i < entries.len() ==> storable(#[trigger] entries[i].1),
    ensures
        records_of(lines_of(rendered(entries)), n) == Ok::<Seq<Entry>, nat>(entries),
    decreases entries.len(),
{
    if entries.len() == 0 {
        assert(entries =~= Seq::<Entry>::empty());
        assert(rendered(entries).len() == 0);
        assert(lines_of(rendered(entries)).len() == 0);
    } else {
        let k = entries[0].0;
        let v = entries[0].1;
        let rest = entries.drop_first();
        let line = decimal(k as int) + seq![','] + v;
        let tail = rendered(rest);
        lemma_rendered_first(entries);
        assert(rendered(entries) =~= line + seq!['\n'] + tail);
        assert(storable(entries[0].1));
        lemma_line_of_entry(k, v);
        lemma_lines_first(line, tail);
        assert((seq![line] + lines_of(tail)).drop_first() =~= lines_of(tail));
        assert forall|i: int| 0 <= i < rest.len() implies storable(#[trigger] rest[i].1) by {
            assert(rest[i] == entries[i + 1]);
        }
        lemma_render_parse(rest, n + 1);
        assert(seq![(k, v)] + rest =~= entries);
    }
}

} // verus!
