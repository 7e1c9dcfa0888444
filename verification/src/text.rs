//! Text as the store reads and writes it: the line terminator at the end
//! of the backing file, and the lines and comma-separated fields of what a
//! generator script prints.

use crate::views::{lemma_empty, lemma_pushed};
use vstd::prelude::*;
use vstd::string::*;
use vstd::utf8::{decode_utf8, encode_utf8, encode_utf8_decode_utf8};

verus! {

/// The pieces into which the separator `sep` cuts `s`. There is always at
/// least one piece; a separator starts a new piece, any other character
/// extends the last one.
pub open spec fn split_on(s: Seq<char>, sep: char) -> Seq<Seq<char>>
    decreases s.len(),
{
    if s.len() == 0 {
        seq![Seq::empty()]
    } else {
        let front = split_on(s.drop_last(), sep);
        if s.last() == sep {
            front.push(Seq::empty())
        } else {
            front.drop_last().push(front.last().push(s.last()))
        }
    }
}

/// A line without the carriage return at its end, if it has one.
pub open spec fn without_cr(line: Seq<char>) -> Seq<char> {
    if line.len() > 0 && line.last() == '\r' {
        line.drop_last()
    } else {
        line
    }
}

/// Each of the lines without the carriage return at its end.
pub open spec fn all_without_cr(lines: Seq<Seq<char>>) -> Seq<Seq<char>> {
    lines.map_values(|line: Seq<char>| without_cr(line))
}

/// The lines of a text. A line ends at a line feed, or at a carriage
/// return with a line feed behind it; neither belongs to the line. What
/// follows the last line feed is a line too, unless it is empty.
pub open spec fn lines_of(text: Seq<char>) -> Seq<Seq<char>> {
    let pieces = split_on(text, '\n');
    let ended = all_without_cr(pieces.drop_last());
    if pieces.last().len() == 0 {
        ended
    } else {
        ended.push(pieces.last())
    }
}

/// The comma-separated fields of a line.
pub open spec fn fields_of(line: Seq<char>) -> Seq<Seq<char>> {
    split_on(line, ',')
}

/// A text without the line feed at its end, if it has one.
pub open spec fn spec_sans_newline(text: Seq<char>) -> Seq<char> {
    if text.len() > 0 && text.last() == '\n' {
        text.drop_last()
    } else {
        text
    }
}

/// A text with a line feed at its end: one is added unless it ends in one.
pub open spec fn spec_with_newline(text: Seq<char>) -> Seq<char> {
    if text.len() > 0 && text.last() == '\n' {
        text
    } else {
        text.push('\n')
    }
}

/// Whether the bytes are text: the UTF-8 encoding of some characters.
pub open spec fn is_text(bytes: Seq<u8>) -> bool {
    exists|text: Seq<char>| #[trigger] encode_utf8(text) == bytes
}

/// The text that the bytes encode, and nothing where they encode none.
pub open spec fn text_of(bytes: Seq<u8>) -> Option<Seq<char>> {
    if is_text(bytes) {
        Some(decode_utf8(bytes))
    } else {
        None
    }
}

/// Calls `std::str::from_utf8`, which gives the bytes back as a string
/// where they are valid UTF-8, and an error where they are not. Nothing
/// of this is proved here: the contract says that the string encodes to
/// the very bytes, and that bytes which are refused encode no string.
#[verifier::external_body]
fn from_utf8<'a>(bytes: &'a [u8]) -> (r: Option<&'a str>)
    ensures
        match r {
            Some(text) => encode_utf8(text@) == bytes@,
            None => !is_text(bytes@),
        },
{
    match std::str::from_utf8(bytes) {
        Ok(text) => Some(text),
        Err(_) => None,
    }
}

/// Reads bytes as text, if they are text.
pub fn read_text<'a>(bytes: &'a [u8]) -> (r: Option<&'a str>)
    ensures
        r.deep_view() == text_of(bytes@),
{
    let r = from_utf8(bytes);
    proof {
        if let Some(text) = r {
            encode_utf8_decode_utf8(text@);
        }
    }
    r
}

/// Splitting never gives nothing.
pub proof fn lemma_split_on_nonempty(s: Seq<char>, sep: char)
    ensures
        split_on(s, sep).len() >= 1,
    decreases s.len(),
{
    if s.len() > 0 {
        lemma_split_on_nonempty(s.drop_last(), sep);
    }
}

/// The characters of a string, one by one.
pub fn chars_of(s: &str) -> (chars: Vec<char>)
    ensures
        chars@ == s@,
{
    let mut chars: Vec<char> = Vec::new();
    for c in it: s.chars()
        invariant
            it.seq() == s@,
            chars@ == s@.take(it.index()),
    {
        chars.push(c);
    }
    chars
}

/// Cuts a string at each occurrence of `sep`.
pub fn split<'a>(s: &'a str, sep: char) -> (pieces: Vec<&'a str>)
    ensures
        pieces.deep_view() == split_on(s@, sep),
{
    let chars = chars_of(s);
    let mut pieces: Vec<&'a str> = Vec::new();
    let mut start: usize = 0;
    let mut i: usize = 0;
    proof {
        lemma_empty(pieces);
        assert(s@.take(0) =~= Seq::<char>::empty());
        assert(s@.subrange(0, 0) =~= Seq::<char>::empty());
    }
    while i < chars.len()
        invariant
            chars@ == s@,
            start <= i <= chars.len(),
            split_on(s@.take(i as int), sep) == pieces.deep_view().push(
                s@.subrange(start as int, i as int),
            ),
        decreases chars.len() - i,
    {
        proof {
            let now = s@.take(i as int + 1);
            assert(now.drop_last() =~= s@.take(i as int));
            assert(now.last() == s@[i as int]);
        }
        if chars[i] == sep {
            let ghost held = pieces;
            let piece = s.substring_char(start, i);
            pieces.push(piece);
            proof {
                lemma_pushed(held, pieces, piece);
                assert(s@.subrange(i as int + 1, i as int + 1) =~= Seq::<char>::empty());
            }
            start = i + 1;
        } else {
            proof {
                let front = pieces.deep_view().push(s@.subrange(start as int, i as int));
                assert(front.drop_last() =~= pieces.deep_view());
                assert(s@.subrange(start as int, i as int).push(s@[i as int]) =~= s@.subrange(
                    start as int,
                    i as int + 1,
                ));
            }
        }
        i += 1;
    }
    let ghost held = pieces;
    let piece = s.substring_char(start, i);
    pieces.push(piece);
    proof {
        lemma_pushed(held, pieces, piece);
        assert(s@.take(i as int) =~= s@);
    }
    pieces
}

/// The comma-separated fields of a line.
pub fn fields<'a>(line: &'a str) -> (found: Vec<&'a str>)
    ensures
        found.deep_view() == fields_of(line@),
{
    split(line, ',')
}

/// A line without the carriage return at its end, if it has one.
fn sans_cr<'a>(line: &'a str) -> (r: &'a str)
    ensures
        r@ == without_cr(line@),
{
    let n = line.unicode_len();
    if n > 0 && line.get_char(n - 1) == '\r' {
        let r = line.substring_char(0, n - 1);
        assert(line@.subrange(0, n as int - 1) =~= line@.drop_last());
        r
    } else {
        line
    }
}

/// The lines of a text.
pub fn lines<'a>(text: &'a str) -> (found: Vec<&'a str>)
    ensures
        found.deep_view() == lines_of(text@),
{
    let pieces = split(text, '\n');
    let ghost ended = pieces.deep_view().drop_last();
    let mut found: Vec<&'a str> = Vec::new();
    let mut i: usize = 0;
    proof {
        lemma_split_on_nonempty(text@, '\n');
        lemma_empty(found);
        assert(all_without_cr(ended.take(0)) =~= Seq::<Seq<char>>::empty());
    }
    while i + 1 < pieces.len()
        invariant
            pieces.len() >= 1,
            i + 1 <= pieces.len(),
            ended == pieces.deep_view().drop_last(),
            found.deep_view() == all_without_cr(ended.take(i as int)),
        decreases pieces.len() - i,
    {
        let ghost held = found;
        let line = sans_cr(pieces[i]);
        found.push(line);
        proof {
            lemma_pushed(held, found, line);
            assert(ended[i as int] == pieces[i as int]@);
            assert(all_without_cr(ended.take(i as int)).push(without_cr(ended[i as int]))
                =~= all_without_cr(ended.take(i as int + 1)));
        }
        i += 1;
    }
    let last = pieces[pieces.len() - 1];
    proof {
        assert(ended.take(i as int) =~= ended);
        assert(pieces.deep_view().last() == last@);
    }
    if !last.is_empty() {
        let ghost held = found;
        found.push(last);
        proof {
            lemma_pushed(held, found, last);
        }
    }
    found
}

/// A text without the line feed at its end, if it has one.
pub fn sans_newline<'a>(text: &'a str) -> (r: &'a str)
    ensures
        r@ == spec_sans_newline(text@),
{
    let n = text.unicode_len();
    if n > 0 && text.get_char(n - 1) == '\n' {
        let r = text.substring_char(0, n - 1);
        assert(text@.subrange(0, n as int - 1) =~= text@.drop_last());
        r
    } else {
        text
    }
}

/// A text with a line feed at its end: one is added unless it ends in one.
pub fn with_newline(text: String) -> (r: String)
    ensures
        r@ == spec_with_newline(text@),
{
    let n = text.as_str().unicode_len();
    if n > 0 && text.as_str().get_char(n - 1) == '\n' {
        text
    } else {
        proof {
            reveal_strlit("\n");
            assert("\n"@ =~= seq!['\n']);
            assert(text@ + seq!['\n'] =~= text@.push('\n'));
        }
        text.concat("\n")
    }
}

} // verus!
