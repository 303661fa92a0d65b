//! Characters, strings and decimal numbers: the pieces from which the text
//! formats of this crate are made.

use vstd::prelude::*;

verus! {

/// Puts a character behind the characters of a string. This is `push` of
/// the standard library's `String`, which appends the given character to
/// the end of the string; the contract says so and is not proved.
#[verifier::external_body]
fn push_char(s: &mut String, c: char)
    ensures
        final(s)@ == old(s)@.push(c),
{
    s.push(c)
}

/// The characters of a string.
pub fn chars_of(s: &str) -> (v: Vec<char>)
    ensures
        v@ == s@,
{
    let mut v: Vec<char> = Vec::new();
    for c in it: s.chars()
        invariant
            it.seq() == s@,
            v@ == s@.subrange(0, it.index() as int),
    {
        assert(s@.subrange(0, it.index() + 1) =~= s@.subrange(0, it.index() as int).push(c));
        v.push(c);
    }
    assert(s@.subrange(0, s@.len() as int) =~= s@);
    v
}

/// The string made of the characters from `from` up to `to`.
pub fn string_from(chars: &Vec<char>, from: usize, to: usize) -> (s: String)
    requires
        from <= to <= chars@.len(),
    ensures
        s@ == chars@.subrange(from as int, to as int),
{
    let mut s = String::new();
    let mut i: usize = from;
    assert(chars@.subrange(from as int, from as int) =~= Seq::<char>::empty());
    while i < to
        invariant
            from <= i <= to <= chars@.len(),
            s@ == chars@.subrange(from as int, i as int),
        decreases to - i,
    {
        push_char(&mut s, chars[i]);
        assert(chars@.subrange(from as int, i + 1) =~= chars@.subrange(from as int, i as int).push(
            chars@[i as int],
        ));
        i = i + 1;
    }
    s
}

/// Puts the characters of `s` behind those of `out`.
pub fn append_str(out: &mut Vec<char>, s: &str)
    ensures
        final(out)@ == old(out)@ + s@,
{
    let mut more = chars_of(s);
    out.append(&mut more);
}

/// Puts the characters of `more` behind those of `out`.
pub fn append_chars(out: &mut Vec<char>, more: &Vec<char>)
    ensures
        final(out)@ == old(out)@ + more@,
{
    let ghost start = out@;
    let mut i: usize = 0;
    assert(start + more@.subrange(0, 0) =~= start);
    while i < more.len()
        invariant
            i <= more@.len(),
            out@ == start + more@.subrange(0, i as int),
        decreases more@.len() - i,
    {
        out.push(more[i]);
        assert(more@.subrange(0, i + 1) =~= more@.subrange(0, i as int).push(more@[i as int]));
        assert(out@ =~= start + more@.subrange(0, i + 1));
        i = i + 1;
    }
    assert(more@.subrange(0, more@.len() as int) =~= more@);
}

/// The character of the decimal digit `d`.
pub open spec fn digit_char(d: int) -> char {
    (48 + d) as char
}

/// The character is a decimal digit.
pub open spec fn is_digit(c: char) -> bool {
    48 <= c as int <= 57
}

/// The decimal digits of a natural number, without leading zeros.
pub open spec fn decimal_nat(n: nat) -> Seq<char>
    decreases n,
{
    if n < 10 {
        seq![digit_char(n as int)]
    } else {
        decimal_nat(n / 10).push(digit_char((n % 10) as int))
    }
}

/// The decimal form of an integer: a minus sign before the digits of a
/// negative number.
pub open spec fn decimal(k: int) -> Seq<char> {
    if k < 0 {
        seq!['-'] + decimal_nat((-k) as nat)
    } else {
        decimal_nat(k as nat)
    }
}

/// The number that a sequence of decimal digits stands for.
pub open spec fn digits_value(s: Seq<char>) -> nat
    decreases s.len(),
{
    if s.len() == 0 {
        0
    } else {
        digits_value(s.drop_last()) * 10 + (s.last() as int - 48) as nat
    }
}

/// All characters of `s` are decimal digits.
pub open spec fn all_digits(s: Seq<char>) -> bool {
    forall|i: int| 0 <= i < s.len() ==> is_digit(#[trigger] s[i])
}

/// The 32-bit integer that a text stands for: an optional sign, `+` or
/// `-`, then one decimal digit or more, if the number fits in 32 bits.
pub open spec fn parsed_key(s: Seq<char>) -> Option<i32> {
    let signed = s.len() > 0 && (s[0] == '-' || s[0] == '+');
    let digits = if signed {
        s.drop_first()
    } else {
        s
    };
    let value = if s.len() > 0 && s[0] == '-' {
        -(digits_value(digits) as int)
    } else {
        digits_value(digits) as int
    };
    if digits.len() > 0 && all_digits(digits) && i32::MIN <= value <= i32::MAX {
        Some(value as i32)
    } else {
        None
    }
}

fn digit_of(d: u8) -> (c: char)
    requires
        d < 10,
    ensures
        c == digit_char(d as int),
{
    if d == 0 {
        '0'
    } else if d == 1 {
        '1'
    } else if d == 2 {
        '2'
    } else if d == 3 {
        '3'
    } else if d == 4 {
        '4'
    } else if d == 5 {
        '5'
    } else if d == 6 {
        '6'
    } else if d == 7 {
        '7'
    } else if d == 8 {
        '8'
    } else {
        '9'
    }
}

fn digit_value_of(c: char) -> (d: Option<u8>)
    ensures
        match d {
            Some(d) => is_digit(c) && d == c as int - 48,
            None => !is_digit(c),
        },
{
    if c == '0' {
        Some(0)
    } else if c == '1' {
        Some(1)
    } else if c == '2' {
        Some(2)
    } else if c == '3' {
        Some(3)
    } else if c == '4' {
        Some(4)
    } else if c == '5' {
        Some(5)
    } else if c == '6' {
        Some(6)
    } else if c == '7' {
        Some(7)
    } else if c == '8' {
        Some(8)
    } else if c == '9' {
        Some(9)
    } else {
        None
    }
}

/// The decimal form of a number without sign, as characters.
fn digits_of(number: u64) -> (v: Vec<char>)
    ensures
        v@ == decimal_nat(number as nat),
{
    let mut n: u64 = number;
    let mut rev: Vec<char> = Vec::new();
    rev.push(digit_of((n % 10) as u8));
    n = n / 10;
    while n > 0
        invariant
            rev@.len() > 0,
            decimal_nat(number as nat) == if n == 0 {
                rev@.reverse()
            } else {
                decimal_nat(n as nat) + rev@.reverse()
            },
        decreases n,
    {
        let ghost before = rev@;
        let ghost m = n as nat;
        rev.push(digit_of((n % 10) as u8));
        n = n / 10;
        proof {
            assert(rev@.reverse() =~= seq![digit_char((m % 10) as int)] + before.reverse());
            if m < 10 {
                assert(decimal_nat(m) + before.reverse() =~= rev@.reverse());
            } else {
                assert(decimal_nat(m) + before.reverse() =~= decimal_nat(m / 10) + rev@.reverse());
            }
        }
    }
    let mut v: Vec<char> = Vec::new();
    let mut i: usize = rev.len();
    assert(rev@.reverse().subrange(0, 0) =~= Seq::<char>::empty());
    while i > 0
        invariant
            i <= rev@.len(),
            v@ == rev@.reverse().subrange(0, rev@.len() - i),
        decreases i,
    {
        i = i - 1;
        v.push(rev[i]);
        assert(rev@.reverse().subrange(0, rev@.len() - i) =~= rev@.reverse().subrange(
            0,
            rev@.len() - i - 1,
        ).push(rev@[i as int]));
    }
    assert(rev@.reverse().subrange(0, rev@.len() as int) =~= rev@.reverse());
    v
}

/// The decimal form of `key`, as characters.
pub fn key_to_chars(key: i32) -> (v: Vec<char>)
    ensures
        v@ == decimal(key as int),
{
    let mut v: Vec<char> = Vec::new();
    let size: u64 = if key < 0 {
        v.push('-');
        (-(key as i64)) as u64
    } else {
        key as u64
    };
    let digits = digits_of(size);
    append_chars(&mut v, &digits);
    assert(Seq::<char>::empty() + digits@ =~= digits@);
    v
}

/// The decimal form of `key`, as a string.
pub fn key_to_string(key: i32) -> (s: String)
    ensures
        s@ == decimal(key as int),
{
    let v = key_to_chars(key);
    let s = string_from(&v, 0, v.len());
    assert(v@.subrange(0, v@.len() as int) =~= v@);
    s
}

/// The 32-bit integer that digits stand for, negated where `negative`
/// holds, if there is a digit, all are digits, and the number fits.
pub open spec fn key_of_digits(negative: bool, digits: Seq<char>) -> Option<i32> {
    let value = if negative {
        -(digits_value(digits) as int)
    } else {
        digits_value(digits) as int
    };
    if digits.len() > 0 && all_digits(digits) && i32::MIN <= value <= i32::MAX {
        Some(value as i32)
    } else {
        None
    }
}

/// A number with more digits is no smaller.
proof fn lemma_digits_grow(s: Seq<char>, n: int)
    requires
        0 <= n <= s.len(),
        all_digits(s),
    ensures
        digits_value(s.subrange(0, n)) <= digits_value(s),
    decreases s.len() - n,
{
    if n < s.len() {
        lemma_digits_grow(s, n + 1);
        assert(s.subrange(0, n + 1).drop_last() =~= s.subrange(0, n));
        assert(is_digit(s[n]));
        assert(s.subrange(0, n + 1).last() == s[n]);
    } else {
        assert(s.subrange(0, n) =~= s);
    }
}

/// The 32-bit integer that the characters from `from` up to `to` stand
/// for, if they stand for one.
pub fn parse_key(chars: &Vec<char>, from: usize, to: usize) -> (res: Option<i32>)
    requires
        from <= to <= chars@.len(),
    ensures
        res == parsed_key(chars@.subrange(from as int, to as int)),
{
    let ghost s = chars@.subrange(from as int, to as int);
    if from == to {
        return None;
    }
    let negative = chars[from] == '-';
    let signed = negative || chars[from] == '+';
    let start: usize = if signed {
        from + 1
    } else {
        from
    };
    let ghost digits = chars@.subrange(start as int, to as int);
    proof {
        assert(s[0] == chars@[from as int]);
        if signed {
            assert(s.drop_first() =~= digits);
        } else {
            assert(s =~= digits);
        }
    }
    assert(parsed_key(s) == key_of_digits(negative, digits));
    if start == to {
        return None;
    }
    let mut value: u64 = 0;
    let mut i: usize = start;
    assert(digits.subrange(0, 0) =~= Seq::<char>::empty());
    while i < to
        invariant
            start <= i <= to <= chars@.len(),
            digits == chars@.subrange(start as int, to as int),
            value == digits_value(digits.subrange(0, i - start)),
            all_digits(digits.subrange(0, i - start)),
            value <= 2147483648,
            s == chars@.subrange(from as int, to as int),
            parsed_key(s) == key_of_digits(negative, digits),
        decreases to - i,
    {
        let c = chars[i];
        let digit = digit_value_of(c);
        proof {
            assert(digits[i - start] == c);
            assert(digits.subrange(0, i - start + 1).drop_last() =~= digits.subrange(
                0,
                i - start,
            ));
            assert(digits.subrange(0, i - start + 1).last() == c);
        }
        if digit.is_none() {
            assert(!is_digit(digits[i - start]));
            return None;
        }
        value = value * 10 + digit.unwrap() as u64;
        proof {
            assert forall|j: int| 0 <= j < i - start + 1 implies is_digit(
                #[trigger] digits.subrange(0, i - start + 1)[j],
            ) by {
                if j < i - start {
                    assert(digits.subrange(0, i - start)[j] == digits[j]);
                } else {
                    assert(digits.subrange(0, i - start + 1)[j] == c);
                }
            }
        }
        if value > 2147483648 {
            proof {
                if all_digits(digits) {
                    lemma_digits_grow(digits, i - start + 1);
                }
            }
            return None;
        }
        i = i + 1;
    }
    proof {
        assert(digits.subrange(0, to - start) =~= digits);
    }
    if negative {
        if value == 2147483648 {
            Some(i32::MIN)
        } else {
            Some(-(value as i32))
        }
    } else {
        if value > 2147483647 {
            None
        } else {
            Some(value as i32)
        }
    }
}

/// The decimal digits of a natural number are digits, and stand for it.
pub proof fn lemma_decimal_nat(n: nat)
    ensures
        decimal_nat(n).len() > 0,
        all_digits(decimal_nat(n)),
        digits_value(decimal_nat(n)) == n,
        decimal_nat(n)[0] != '-',
        decimal_nat(n)[0] != '+',
    decreases n,
{
    if n < 10 {
        let s = decimal_nat(n);
        assert(s.drop_last() =~= Seq::<char>::empty());
        assert(digits_value(s.drop_last()) == 0);
    } else {
        lemma_decimal_nat(n / 10);
        let s = decimal_nat(n);
        let t = decimal_nat(n / 10);
        assert(s.drop_last() =~= t);
        assert(s[0] == t[0]);
        assert forall|i: int| 0 <= i < s.len() implies is_digit(#[trigger] s[i]) by {
            if i < t.len() {
                assert(s[i] == t[i]);
            }
        }
    }
}

/// The decimal form of a 32-bit integer stands for that integer.
pub proof fn lemma_parse_decimal(key: i32)
    ensures
        parsed_key(decimal(key as int)) == Some(key),
{
    if key < 0 {
        let n = (-(key as int)) as nat;
        lemma_decimal_nat(n);
        assert(decimal(key as int).drop_first() =~= decimal_nat(n));
    } else {
        lemma_decimal_nat(key as nat);
    }
}

/// The decimal form of a count, as characters.
pub fn count_to_chars(count: usize) -> (v: Vec<char>)
    ensures
        v@ == decimal_nat(count as nat),
{
    digits_of(count as u64)
}

/// Whether the characters from `from` up to `to` are those of `word`.
pub fn is_word(chars: &Vec<char>, from: usize, to: usize, word: &str) -> (same: bool)
    requires
        from <= to <= chars@.len(),
    ensures
        same == (chars@.subrange(from as int, to as int) == word@),
{
    let other = chars_of(word);
    let ghost part = chars@.subrange(from as int, to as int);
    if other.len() != to - from {
        return false;
    }
    let mut i: usize = 0;
    while i < other.len()
        invariant
            from <= to <= chars@.len(),
            other@.len() == to - from,
            other@ == word@,
            i <= other@.len(),
            part == chars@.subrange(from as int, to as int),
            forall|j: int| 0 <= j < i ==> part[j] == other@[j],
        decreases other@.len() - i,
    {
        if chars[from + i] != other[i] {
            assert(part[i as int] == chars@[from + i]);
            assert(part[i as int] != other@[i as int]);
            return false;
        }
        i = i + 1;
    }
    assert(part =~= other@);
    true
}

/// Whether two strings hold the same characters.
pub fn same_text(a: &str, b: &str) -> (same: bool)
    ensures
        same == (a@ == b@),
{
    let chars = chars_of(a);
    assert(chars@.subrange(0, chars@.len() as int) =~= chars@);
    is_word(&chars, 0, chars.len(), b)
}

/// The string of the given characters.
pub fn string_of(chars: &Vec<char>) -> (s: String)
    ensures
        s@ == chars@,
{
    let s = string_from(chars, 0, chars.len());
    assert(chars@.subrange(0, chars@.len() as int) =~= chars@);
    s
}

} // verus!
