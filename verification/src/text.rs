//! Text as the library handles it: decoding bytes, splitting lines, and small
//! helpers over `str`. Everything is stated on the character view.
use vstd::prelude::*;
use vstd::std_specs::iter::IteratorSpec;
use vstd::utf8::{decode_utf8, encode_utf8, valid_utf8};
use std::string::FromUtf8Error;

verus! {

broadcast use vstd::string::group_string_axioms;

/// The error of `String::from_utf8`. Nothing is read from it.
#[verifier::external_type_specification]
#[verifier::external_body]
pub struct ExFromUtf8Error(FromUtf8Error);

/// `String::from_utf8` succeeds exactly on bytes that are valid UTF-8, and
/// the string it returns is made of the very bytes it was given.
pub assume_specification[ String::from_utf8 ](vec: Vec<u8>) -> (decoded: core::result::Result<
    String,
    FromUtf8Error,
>)
    ensures
        decoded is Ok <==> valid_utf8(vec@),
        decoded matches Ok(text) ==> encode_utf8(text@) == vec@,
;

/// `String::push` appends the given character to the end of the string.
pub assume_specification[ String::push ](text: &mut String, ch: char)
    ensures
        final(text)@ == old(text)@.push(ch),
;

/// Decodes `bytes` as UTF-8 text. Bytes that are no valid UTF-8 give `None`.
pub fn decode(bytes: Vec<u8>) -> (text: Option<String>)
    ensures
        text is Some <==> valid_utf8(bytes@),
        text matches Some(decoded) ==> decoded@ == decode_utf8(bytes@),
{
    match String::from_utf8(bytes) {
        Ok(decoded) => {
            proof {
                vstd::utf8::encode_utf8_decode_utf8(decoded@);
            }
            Some(decoded)
        },
        Err(_) => None,
    }
}

/// The character that stands for the digit `digit`.
pub open spec fn digit_char(digit: nat) -> char {
    seq!['0', '1', '2', '3', '4', '5', '6', '7', '8', '9'][digit as int]
}

/// The decimal notation of `number`, without leading zeros.
pub open spec fn decimal(number: nat) -> Seq<char>
    decreases number,
{
    if number < 10 {
        seq![digit_char(number)]
    } else {
        decimal(number / 10).push(digit_char(number % 10))
    }
}

/// Writes `number` in decimal notation.
pub fn decimal_text(number: usize) -> (text: String)
    ensures
        text@ == decimal(number as nat),
    decreases number,
{
    let mut text = if number < 10 {
        String::new()
    } else {
        decimal_text(number / 10)
    };
    let digit = match number % 10 {
        0 => '0',
        1 => '1',
        2 => '2',
        3 => '3',
        4 => '4',
        5 => '5',
        6 => '6',
        7 => '7',
        8 => '8',
        _ => '9',
    };
    assert(digit == digit_char((number % 10) as nat));
    text.push(digit);
    assert(number < 10 ==> text@ =~= seq![digit_char(number as nat)]);
    text
}

/// The number of characters before the first line feed of `text`: its length
/// where it holds none.
pub open spec fn line_end(text: Seq<char>) -> int
    decreases text.len(),
{
    if text.len() == 0 || text[0] == '\n' {
        0
    } else {
        1 + line_end(text.drop_first())
    }
}

/// `line` without the carriage return at its end, where it ends in one.
pub open spec fn without_cr(line: Seq<char>) -> Seq<char> {
    if line.len() > 0 && line.last() == '\r' {
        line.drop_last()
    } else {
        line
    }
}

/// The lines of `text`. A line ends at a line feed, or at a carriage return
/// that a line feed follows; neither belongs to the line. What follows the
/// last line feed is a line of its own unless it is empty.
pub open spec fn lines_of(text: Seq<char>) -> Seq<Seq<char>>
    decreases text.len(),
{
    if text.len() == 0 {
        Seq::empty()
    } else {
        let end = line_end(text);
        if 0 <= end < text.len() {
            seq![without_cr(text.take(end))] + lines_of(text.skip(end + 1))
        } else {
            seq![text]
        }
    }
}

/// The first line feed of `text` stands where no line feed stands before.
pub proof fn lemma_line_end(text: Seq<char>, end: int)
    requires
        0 <= end <= text.len(),
        forall|j: int| 0 <= j < end ==> text[j] != '\n',
        end == text.len() || text[end] == '\n',
    ensures
        line_end(text) == end,
    decreases end,
{
    if end > 0 {
        let rest = text.drop_first();
        assert forall|j: int| 0 <= j < end - 1 implies rest[j] != '\n' by {
            assert(rest[j] == text[j + 1]);
        }
        lemma_line_end(rest, end - 1);
    }
}

/// The first line feed of `text` stands within it, and no line feed stands
/// before it.
pub proof fn lemma_line_end_is_first(text: Seq<char>)
    ensures
        0 <= line_end(text) <= text.len(),
        forall|j: int| 0 <= j < line_end(text) ==> text[j] != '\n',
        line_end(text) < text.len() ==> text[line_end(text)] == '\n',
    decreases text.len(),
{
    if text.len() > 0 && text[0] != '\n' {
        let rest = text.drop_first();
        lemma_line_end_is_first(rest);
        assert forall|j: int| 0 <= j < line_end(text) implies text[j] != '\n' by {
            if j > 0 {
                assert(text[j] == rest[j - 1]);
            }
        }
    }
}

/// No line holds a line feed.
pub proof fn lemma_lines_hold_no_line_feed(text: Seq<char>, i: int, j: int)
    requires
        0 <= i < lines_of(text).len(),
        0 <= j < lines_of(text)[i].len(),
    ensures
        lines_of(text)[i][j] != '\n',
    decreases text.len(),
{
    lemma_line_end_is_first(text);
    let end = line_end(text);
    if end < text.len() {
        let first = without_cr(text.take(end));
        if i == 0 {
            assert(first[j] == text[j]);
        } else {
            assert(lines_of(text)[i] == lines_of(text.skip(end + 1))[i - 1]);
            lemma_lines_hold_no_line_feed(text.skip(end + 1), i - 1, j);
        }
    }
}

/// Splits `text` into its lines.
pub fn split_lines(text: &str) -> (lines: Vec<String>)
    ensures
        lines.deep_view() == lines_of(text@),
{
    let mut lines: Vec<String> = Vec::new();
    let mut line = String::new();
    // A carriage return was read and is not yet part of `line`: it is dropped
    // if a line feed follows, and kept otherwise.
    let mut pending_cr = false;
    let mut chars = text.chars();
    let ghost mut start: int = 0;
    let ghost mut i: int = 0;
    proof {
        assert(text@.skip(0) =~= text@);
        assert(lines.deep_view() + lines_of(text@) =~= lines_of(text@));
        assert(line@ =~= text@.subrange(0, 0));
    }
    loop
        invariant
            0 <= start <= i <= text@.len(),
            chars.remaining() == text@.skip(i),
            forall|j: int| start <= j < i ==> text@[j] != '\n',
            !pending_cr ==> line@ == text@.subrange(start, i),
            pending_cr ==> line@.push('\r') == text@.subrange(start, i),
            !pending_cr ==> line@.len() == 0 || line@.last() != '\r',
            lines.deep_view() + lines_of(text@.skip(start)) == lines_of(text@),
        decreases text@.len() - i,
    {
        let ghost rest = text@.skip(start);
        let ghost done = lines.deep_view();
        match chars.next() {
            None => {
                if pending_cr {
                    line.push('\r');
                }
                proof {
                    assert(line@ =~= rest);
                    if rest.len() > 0 {
                        assert forall|j: int| 0 <= j < rest.len() implies rest[j] != '\n' by {
                            assert(rest[j] == text@[start + j]);
                        }
                        lemma_line_end(rest, rest.len() as int);
                    }
                }
                if !line.as_str().is_empty() {
                    lines.push(line);
                    proof {
                        assert(lines.deep_view() =~= done + seq![rest]);
                    }
                }
                return lines;
            },
            Some(c) => {
                proof {
                    assert(text@.skip(i).drop_first() =~= text@.skip(i + 1));
                    assert(c == text@[i]);
                }
                if c == '\n' {
                    proof {
                        assert forall|j: int| 0 <= j < i - start implies rest[j] != '\n' by {
                            assert(rest[j] == text@[start + j]);
                        }
                        assert(rest[i - start] == '\n');
                        lemma_line_end(rest, i - start);
                        assert(rest.take(i - start) =~= text@.subrange(start, i));
                        assert(rest.skip(i - start + 1) =~= text@.skip(i + 1));
                        if pending_cr {
                            assert(line@.push('\r').drop_last() =~= line@);
                        }
                        assert(without_cr(text@.subrange(start, i)) == line@);
                    }
                    lines.push(line);
                    line = String::new();
                    pending_cr = false;
                    proof {
                        assert(lines.deep_view() =~= done + seq![without_cr(rest.take(i - start))]);
                        start = i + 1;
                        assert(line@ =~= text@.subrange(start, i + 1));
                    }
                } else if c == '\r' {
                    if pending_cr {
                        line.push('\r');
                    }
                    pending_cr = true;
                    proof {
                        assert(line@.push('\r') =~= text@.subrange(start, i + 1));
                    }
                } else {
                    if pending_cr {
                        line.push('\r');
                    }
                    line.push(c);
                    pending_cr = false;
                    proof {
                        assert(line@ =~= text@.subrange(start, i + 1));
                    }
                }
                proof {
                    i = i + 1;
                }
            },
        }
    }
}

/// The first character of `line`, or `None` when the line is empty.
pub fn first_char(line: &str) -> (c: Option<char>)
    ensures
        line@.len() == 0 ==> c is None,
        line@.len() > 0 ==> c == Some(line@[0]),
{
    let mut chars = line.chars();
    chars.next()
}

/// Whether `line` begins with the characters of `prefix`.
pub fn starts_with(line: &str, prefix: &str) -> (r: bool)
    ensures
        r == prefix@.is_prefix_of(line@),
{
    let mut have = line.chars();
    let mut want = prefix.chars();
    let ghost mut i: int = 0;
    loop
        invariant
            0 <= i <= prefix@.len(),
            i <= line@.len(),
            have.remaining() == line@.skip(i),
            want.remaining() == prefix@.skip(i),
            forall|j: int| 0 <= j < i ==> line@[j] == prefix@[j],
        decreases prefix@.len() - i,
    {
        match want.next() {
            None => {
                assert(prefix@ =~= line@.subrange(0, prefix@.len() as int));
                return true;
            },
            Some(p) => match have.next() {
                None => {
                    return false;
                },
                Some(c) => {
                    if c != p {
                        assert(line@[i] != prefix@[i]);
                        return false;
                    }
                },
            },
        }
        proof {
            assert(line@.skip(i).drop_first() =~= line@.skip(i + 1));
            assert(prefix@.skip(i).drop_first() =~= prefix@.skip(i + 1));
            i = i + 1;
        }
    }
}

/// Whether `a` and `b` hold the same characters.
pub fn same_text(a: &str, b: &str) -> (r: bool)
    ensures
        r == (a@ == b@),
{
    let mut left = a.chars();
    let mut right = b.chars();
    let ghost mut i: int = 0;
    loop
        invariant
            0 <= i <= a@.len(),
            i <= b@.len(),
            left.remaining() == a@.skip(i),
            right.remaining() == b@.skip(i),
            forall|j: int| 0 <= j < i ==> a@[j] == b@[j],
        decreases a@.len() - i,
    {
        match left.next() {
            None => {
                let end = right.next();
                assert(end is None ==> a@ =~= b@);
                return end.is_none();
            },
            Some(x) => match right.next() {
                None => {
                    return false;
                },
                Some(y) => {
                    if x != y {
                        assert(a@[i] != b@[i]);
                        return false;
                    }
                },
            },
        }
        proof {
            assert(a@.skip(i).drop_first() =~= a@.skip(i + 1));
            assert(b@.skip(i).drop_first() =~= b@.skip(i + 1));
            i = i + 1;
        }
    }
}

} // verus!
