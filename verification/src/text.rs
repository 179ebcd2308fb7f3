//! Building text: characters, strings and decimal numbers appended to a `String`.

use vstd::prelude::*;
use vstd::string::*;

verus! {

/// The character of a decimal digit.
pub open spec fn digit(d: nat) -> char
    recommends
        d < 10,
{
    ((48 + d) as u8) as char
}

/// The decimal notation of a number, without leading zeros.
pub open spec fn decimal(n: nat) -> Seq<char>
    decreases n,
{
    if n < 10 {
        seq![digit(n)]
    } else {
        decimal(n / 10).push(digit(n % 10))
    }
}

/// The decimal notation of an integer: a minus sign before a negative one.
pub open spec fn signed_decimal(n: int) -> Seq<char> {
    if n < 0 {
        seq!['-'] + decimal((-n) as nat)
    } else {
        decimal(n as nat)
    }
}

/// Appends one character. Wraps `String::push`, which adds the character
/// at the end of the string and changes nothing else.
#[verifier::external_body]
pub(crate) fn push_char(text: &mut String, c: char)
    ensures
        final(text)@ == old(text)@.push(c),
{
    text.push(c);
}

/// Appends a string slice. Wraps `String::push_str`, which adds the slice
/// at the end of the string and changes nothing else.
#[verifier::external_body]
pub(crate) fn push_text(text: &mut String, more: &str)
    ensures
        final(text)@ == old(text)@ + more@,
{
    text.push_str(more);
}

/// Appends the decimal notation of `n`.
pub fn push_decimal(text: &mut String, n: u64)
    ensures
        final(text)@ == old(text)@ + decimal(n as nat),
    decreases n,
{
    if n >= 10 {
        push_decimal(text, n / 10);
    }
    let d: u8 = (n % 10) as u8;
    push_char(text, (48 + d) as char);
    proof {
        if n >= 10 {
            assert(final(text)@ =~= old(text)@ + decimal(n as nat));
        } else {
            assert(final(text)@ =~= old(text)@ + decimal(n as nat));
        }
    }
}

/// Appends the decimal notation of the integer `n`.
pub fn push_signed_decimal(text: &mut String, n: i64)
    ensures
        final(text)@ == old(text)@ + signed_decimal(n as int),
{
    if n < 0 {
        push_char(text, '-');
        let magnitude: u64 = if n == i64::MIN {
            9223372036854775808u64
        } else {
            (-n) as u64
        };
        push_decimal(text, magnitude);
        assert(final(text)@ =~= old(text)@ + signed_decimal(n as int));
    } else {
        push_decimal(text, n as u64);
    }
}

/// The characters of a string slice.
pub fn chars_of(text: &str) -> (chars: Vec<char>)
    ensures
        chars@ == text@,
{
    broadcast use group_string_axioms;

    let mut chars: Vec<char> = Vec::new();
    for c in iter: text.chars()
        invariant
            iter.seq() == text@,
            chars@ == text@.take(iter.index() as int),
    {
        chars.push(c);
        assert(chars@ =~= text@.take(iter.index() + 1));
    }
    assert(text@.take(text@.len() as int) =~= text@);
    chars
}

/// The string of the characters from `from` up to `to`.
pub fn string_of(chars: &Vec<char>, from: usize, to: usize) -> (text: String)
    requires
        from <= to <= chars.len(),
    ensures
        text@ == chars@.subrange(from as int, to as int),
{
    let mut text = String::new();
    let mut i: usize = from;
    assert(text@ =~= chars@.subrange(from as int, from as int));
    while i < to
        invariant
            from <= i <= to <= chars.len(),
            text@ == chars@.subrange(from as int, i as int),
        decreases to - i,
    {
        push_char(&mut text, chars[i]);
        assert(text@ =~= chars@.subrange(from as int, i + 1));
        i += 1;
    }
    text
}

/// The position of the first line feed at or after `from`, or the length
/// of the text if there is none.
pub open spec fn line_end(text: Seq<char>, from: int) -> int
    decreases text.len() - from,
{
    if from >= text.len() {
        text.len() as int
    } else if text[from] == '\n' {
        from
    } else {
        line_end(text, from + 1)
    }
}

/// The line that starts at `from` and ends before `end`: without the
/// carriage return before a line feed.
pub open spec fn line_at(text: Seq<char>, from: int, end: int) -> Seq<char> {
    if end < text.len() && from < end && text[end - 1] == '\r' {
        text.subrange(from, end - 1)
    } else {
        text.subrange(from, end)
    }
}

/// The lines of a text from position `from` on. A line ends with a line
/// feed, or with a carriage return and a line feed, or with the text; what
/// follows the last line feed is a line unless it is empty.
pub open spec fn lines_from(text: Seq<char>, from: int) -> Seq<Seq<char>>
    decreases text.len() - from,
{
    if from < 0 || from >= text.len() {
        Seq::empty()
    } else {
        let end = line_end(text, from);
        if from <= end < text.len() {
            seq![line_at(text, from, end)] + lines_from(text, end + 1)
        } else {
            seq![line_at(text, from, text.len() as int)]
        }
    }
}

/// The lines of a text.
pub open spec fn lines_of(text: Seq<char>) -> Seq<Seq<char>> {
    lines_from(text, 0)
}

/// A line ends at or after its start, within the text.
pub proof fn lemma_line_end(text: Seq<char>, from: int)
    requires
        0 <= from <= text.len(),
    ensures
        from <= line_end(text, from) <= text.len(),
        line_end(text, from) < text.len() ==> text[line_end(text, from)] == '\n',
        forall|k: int| from <= k < line_end(text, from) ==> text[k] != '\n',
    decreases text.len() - from,
{
    if from < text.len() && text[from] != '\n' {
        lemma_line_end(text, from + 1);
    }
}

/// The contents of a list of lines.
pub open spec fn rows(lines: Seq<Vec<char>>) -> Seq<Seq<char>> {
    lines.map_values(|line: Vec<char>| line@)
}

/// The lines of a text, as `str::lines` counts them.
pub fn lines(text: &Vec<char>) -> (list: Vec<Vec<char>>)
    ensures
        rows(list@) == lines_of(text@),
{
    let mut list: Vec<Vec<char>> = Vec::new();
    let mut start: usize = 0;
    assert(rows(list@) + lines_from(text@, 0) =~= lines_of(text@));
    while start < text.len()
        invariant
            start <= text.len(),
            rows(list@) + lines_from(text@, start as int) == lines_of(text@),
        decreases text.len() - start,
    {
        let mut end: usize = start;
        while end < text.len() && text[end] != '\n'
            invariant
                start <= end <= text.len(),
                line_end(text@, start as int) == line_end(text@, end as int),
            decreases text.len() - end,
        {
            end += 1;
        }
        let stop = if end < text.len() && start < end && text[end - 1] == '\r' {
            end - 1
        } else {
            end
        };
        let mut line: Vec<char> = Vec::new();
        let mut i: usize = start;
        assert(line@ =~= text@.subrange(start as int, start as int));
        while i < stop
            invariant
                start <= i <= stop <= text.len(),
                line@ == text@.subrange(start as int, i as int),
            decreases stop - i,
        {
            line.push(text[i]);
            assert(line@ =~= text@.subrange(start as int, i + 1));
            i += 1;
        }
        let ghost before = list@;
        let ghost tail = lines_from(text@, start as int);
        list.push(line);
        proof {
            lemma_line_end(text@, start as int);
            lemma_line_end(text@, end as int);
            assert(rows(list@) =~= rows(before).push(line@));
            if end < text.len() {
                assert(tail == seq![line@] + lines_from(text@, end + 1));
                assert(rows(list@) + lines_from(text@, end + 1) =~= rows(before) + tail);
            } else {
                assert(tail == seq![line@]);
                assert(rows(list@) + lines_from(text@, end as int) =~= rows(before) + tail);
            }
        }
        if end < text.len() {
            start = end + 1;
        } else {
            start = end;
        }
    }
    assert(rows(list@) + lines_from(text@, start as int) =~= rows(list@));
    list
}

} // verus!
