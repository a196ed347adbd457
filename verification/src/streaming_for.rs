//! Copying and zero-copy parsers over a pretend file, side by side.
use vstd::prelude::*;
use crate::iter::{lemma_count_run, streaming_for, Count, StrTriples};
use vstd::utf8::{
    encode_utf8, encode_utf8_decode_utf8, encode_utf8_valid_utf8, is_ascii_chars,
    is_ascii_chars_encode_utf8, is_ascii_chars_nat_bound, is_char_boundary,
    is_char_boundary_iff_not_is_continuation_byte, is_char_boundary_start_end_of_seq,
};

verus! {

/// A line of the pretend file.
pub const LINE: &'static str = "foo bar baz\n";

/// The number of bytes in a line of the pretend file.
pub const LINE_LEN: usize = 12;

/// A text made of `n` copies of `line`.
pub open spec fn repeated(line: Seq<char>, n: nat) -> Seq<char>
    decreases n,
{
    if n == 0 {
        Seq::empty()
    } else {
        repeated(line, (n - 1) as nat) + line
    }
}

/// This is our raw data source.  Pretend it's on disk somewhere, and it's
/// too big to load into memory all at once.
pub fn make_pretend_file() -> (file: String)
    ensures
        file@ == repeated(LINE@, 200),
        file@.len() == 200 * LINE_LEN,
        is_ascii_chars(file@),
{
    proof {
        reveal_strlit("foo bar baz\n");
    }
    let mut file = String::new();
    let mut n: usize = 0;
    while n < 200
        invariant
            n <= 200,
            LINE@.len() == LINE_LEN,
            is_ascii_chars(LINE@),
            file@ == repeated(LINE@, n as nat),
            file@.len() == n * LINE_LEN,
            is_ascii_chars(file@),
        decreases 200 - n,
    {
        file.append(LINE);
        n = n + 1;
    }
    file
}

/// In the encoding of an ASCII text every index is a character boundary.
pub proof fn lemma_ascii_boundary(chars: Seq<char>, index: int)
    requires
        is_ascii_chars(chars),
        0 <= index <= chars.len(),
    ensures
        encode_utf8(chars).len() == chars.len(),
        is_char_boundary(encode_utf8(chars), index),
{
    let bytes = encode_utf8(chars);
    encode_utf8_valid_utf8(chars);
    is_ascii_chars_encode_utf8(chars);
    is_char_boundary_start_end_of_seq(bytes);
    if 0 < index < chars.len() {
        is_ascii_chars_nat_bound(chars);
        assert(bytes[index] == chars[index] as u8);
        assert((chars[index] as nat) < 128);
        is_char_boundary_iff_not_is_continuation_byte(bytes, index);
    }
}

/// A text whose encoding is a stretch of the encoding of an ASCII text is
/// that stretch of the text.
pub proof fn lemma_ascii_part(text: Seq<char>, part: Seq<char>, from: int, to: int)
    requires
        is_ascii_chars(text),
        0 <= from <= to <= text.len(),
        encode_utf8(text).len() == text.len(),
        encode_utf8(part) == encode_utf8(text).subrange(from, to),
    ensures
        part == text.subrange(from, to),
{
    let stretch = text.subrange(from, to);
    assert(is_ascii_chars(stretch));
    is_ascii_chars_encode_utf8(text);
    is_ascii_chars_encode_utf8(stretch);
    assert(encode_utf8(stretch) =~= encode_utf8(text).subrange(from, to));
    encode_utf8_decode_utf8(stretch);
    encode_utf8_decode_utf8(part);
}

/// The part of an ASCII text from byte `from` up to byte `to`.
pub fn ascii_slice<'a>(text: &'a str, from: usize, to: usize) -> (part: &'a str)
    requires
        text.is_ascii(),
        from <= to <= text@.len(),
    ensures
        part@ == text@.subrange(from as int, to as int),
        part.is_ascii(),
{
    proof {
        lemma_ascii_boundary(text@, from as int);
    }
    let (_, tail) = text.split_at(from);
    proof {
        lemma_ascii_part(text@, tail@, from as int, text@.len() as int);
        lemma_ascii_boundary(tail@, to - from);
    }
    let (part, _) = tail.split_at(to - from);
    proof {
        lemma_ascii_part(tail@, part@, 0, to - from);
        assert(part@ =~= text@.subrange(from as int, to as int));
    }
    part
}

/// The number of bytes, and so of characters, in an ASCII text.
pub fn ascii_len(text: &str) -> (len: usize)
    requires
        text.is_ascii(),
    ensures
        len == text@.len(),
{
    proof {
        lemma_ascii_boundary(text@, 0);
    }
    text.as_bytes().len()
}

/// The lines of a text of whole lines, from byte `from` on.
pub open spec fn lines_from(text: Seq<char>, from: int) -> Seq<Seq<char>> {
    Seq::new(
        ((text.len() - from) / LINE_LEN as int) as nat,
        |i: int| text.subrange(from + i * LINE_LEN, from + i * LINE_LEN + LINE_LEN),
    )
}

/// The three words of a line: its bytes 0 to 2, 4 to 6 and 8 to 10.
pub open spec fn fields(line: Seq<char>) -> (Seq<char>, Seq<char>, Seq<char>) {
    (line.subrange(0, 3), line.subrange(4, 7), line.subrange(8, 11))
}

/// The words of each of `lines`.
pub open spec fn parsed(lines: Seq<Seq<char>>) -> Seq<(Seq<char>, Seq<char>, Seq<char>)> {
    lines.map_values(|line: Seq<char>| fields(line))
}

/// This is our stand-in for a source of lines.  Here, `next_line` is a
/// simpler stand-in for `fill_buf`, `consume`, etc.
pub trait Buffer {
    /// The buffer is in a consistent state.  A buffer that does not say
    /// when it is cannot be used from verified code.
    open spec fn inv(&self) -> bool {
        false
    }

    /// The lines that are still to come.
    open spec fn lines(&self) -> Seq<Seq<char>> {
        Seq::empty()
    }

    /// Hands out the next line, good until the next call, or `None` at the
    /// end.
    fn next_line(&mut self) -> (line: Option<&str>)
        requires
            old(self).inv(),
        ensures
            final(self).inv(),
            match line {
                Some(text) => {
                    &&& old(self).lines().len() > 0
                    &&& text@ == old(self).lines()[0]
                    &&& final(self).lines() == old(self).lines().skip(1)
                },
                None => {
                    &&& old(self).lines().len() == 0
                    &&& final(self).lines().len() == 0
                },
            },
    ;
}

/// `String::clear` of the standard library: afterwards the string holds
/// no character.  Nothing is claimed of the storage that it keeps.
pub assume_specification[ String::clear ](text: &mut String)
    ensures
        final(text)@ == Seq::<char>::empty(),
;

/// This is our stand-in for a smart implementation of the Buffer trait.
/// In the real world, it has an internal buffer of some sort, and it has
/// some magic to finesse buffer boundaries for us (in an amortized
/// fashion), so we always get all the data associated with a given
/// iteration.
pub struct BufferedReader<'a> {
    // This represents a file, a network connection, a streaming
    // decompressor, etc.
    file: &'a str,
    offset: usize,
    // This represents the I/O buffer inside a real reader.
    buffer: String,
}

impl<'a> BufferedReader<'a> {
    /// The text of the file.
    pub closed spec fn text(&self) -> Seq<char> {
        self.file@
    }

    /// The number of bytes that have been read.
    pub closed spec fn position(&self) -> nat {
        self.offset as nat
    }

    /// The file is plain ASCII, and what is left of it is whole lines.
    pub open spec fn well_formed(&self) -> bool {
        &&& is_ascii_chars(self.text())
        &&& self.position() <= self.text().len()
        &&& (self.text().len() - self.position()) % LINE_LEN as int == 0
    }

    /// Create a new BufferedReader over a file of plain ASCII in whole
    /// lines.
    pub fn new(file: &'a str) -> (reader: BufferedReader<'a>)
        requires
            file.is_ascii(),
            file@.len() % LINE_LEN as nat == 0,
        ensures
            reader.well_formed(),
            reader.text() == file@,
            reader.position() == 0,
            reader.lines() == lines_from(file@, 0),
    {
        BufferedReader { file, offset: 0, buffer: String::new() }
    }
}

impl<'a> Buffer for BufferedReader<'a> {
    open spec fn inv(&self) -> bool {
        self.well_formed()
    }

    open spec fn lines(&self) -> Seq<Seq<char>> {
        lines_from(self.text(), self.position() as int)
    }

    /// Return a line with no allocations: the line is copied into the
    /// reader's own buffer and lent out from there.
    fn next_line(&mut self) -> (line: Option<&str>)
        ensures
            final(self).text() == old(self).text(),
            line is Some ==> {
                &&& line->0.is_ascii()
                &&& line->0@.len() == LINE_LEN
                &&& final(self).position() == old(self).position() + LINE_LEN
            },
            line is None ==> final(self).position() == old(self).position(),
    {
        let size: usize = ascii_len(self.file);
        if self.offset == size {
            assert(self.lines().len() == 0);
            return None;
        }
        assert(size - self.offset >= 12);
        let line = ascii_slice(self.file, self.offset, self.offset + LINE_LEN);
        self.buffer.clear();
        self.buffer.append(line);
        self.offset = self.offset + LINE_LEN;
        proof {
            let before = old(self).lines();
            let after = self.lines();
            assert(self.buffer@ =~= line@);
            let left = self.text().len() - old(self).position();
            assert(before.len() == after.len() + 1) by (nonlinear_arith)
                requires
                    before.len() == left / 12,
                    after.len() == (left - 12) / 12,
                    left >= 12,
            ;
            assert(after =~= before.skip(1)) by {
                assert forall|i: int| 0 <= i < after.len() implies after[i] == before.skip(1)[i] by {
                    assert((i + 1) * 12 == i * 12 + 12) by (nonlinear_arith);
                }
            }
            assert(before[0] =~= line@);
        }
        Some(self.buffer.as_str())
    }
}

/// A parser that hands out each line as three strings of its own.
pub struct CopyingParser<'a> {
    reader: &'a mut BufferedReader<'a>,
}

impl<'a> CopyingParser<'a> {
    /// The borrow of the reader that the parser holds.
    pub closed spec fn borrow(&self) -> &'a mut BufferedReader<'a> {
        self.reader
    }

    /// The reader as it is now.
    pub open spec fn reader(&self) -> BufferedReader<'a> {
        *self.borrow()
    }

    /// A parser over the lines that `reader` has still to give.
    pub fn new(reader: &'a mut BufferedReader<'a>) -> (parser: CopyingParser<'a>)
        ensures
            parser.reader() == *old(reader),
            *final(parser.borrow()) == *final(reader),
    {
        CopyingParser { reader }
    }

    /// The words of the next line, copied out of the reader's buffer, or
    /// `None` at the end of the file.
    pub fn next(&mut self) -> (item: Option<(String, String, String)>)
        requires
            old(self).reader().well_formed(),
        ensures
            final(self).reader().well_formed(),
            *final(final(self).borrow()) == *final(old(self).borrow()),
            match item {
                Some(words) => {
                    &&& old(self).reader().lines().len() > 0
                    &&& (words.0@, words.1@, words.2@) == fields(old(self).reader().lines()[0])
                    &&& final(self).reader().lines() == old(self).reader().lines().skip(1)
                },
                None => {
                    &&& old(self).reader().lines().len() == 0
                    &&& final(self).reader().lines().len() == 0
                },
            },
    {
        match self.reader.next_line() {
            None => None,
            Some(line) => Some(
                (
                    String::from_str(ascii_slice(line, 0, 3)),
                    String::from_str(ascii_slice(line, 4, 7)),
                    String::from_str(ascii_slice(line, 8, 11)),
                ),
            ),
        }
    }
}

/// A parser that hands out each line as three strings lent from the
/// reader's buffer.
pub struct ZeroCopyParser<'a> {
    reader: &'a mut BufferedReader<'a>,
}

impl<'a> ZeroCopyParser<'a> {
    /// The borrow of the reader that the parser holds.
    pub closed spec fn borrow(&self) -> &'a mut BufferedReader<'a> {
        self.reader
    }

    /// The reader as it is now.
    pub open spec fn reader(&self) -> BufferedReader<'a> {
        *self.borrow()
    }

    /// A parser over the lines that `reader` has still to give.
    pub fn new(reader: &'a mut BufferedReader<'a>) -> (parser: ZeroCopyParser<'a>)
        ensures
            parser.reader() == *old(reader),
            *final(parser.borrow()) == *final(reader),
    {
        ZeroCopyParser { reader }
    }

    /// The words of the next line, or `None` at the end of the file.  The
    /// words stay in the reader's buffer: they are good until the next
    /// call, and the parser cannot be touched while one of them is held.
    pub fn next(&mut self) -> (item: Option<(&str, &str, &str)>)
        requires
            old(self).reader().well_formed(),
        ensures
            final(self).reader().well_formed(),
            *final(final(self).borrow()) == *final(old(self).borrow()),
            match item {
                Some(words) => {
                    &&& old(self).reader().lines().len() > 0
                    &&& words@ == fields(old(self).reader().lines()[0])
                    &&& final(self).reader().lines() == old(self).reader().lines().skip(1)
                },
                None => {
                    &&& old(self).reader().lines().len() == 0
                    &&& final(self).reader().lines().len() == 0
                },
            },
    {
        match self.reader.next_line() {
            None => None,
            Some(line) => Some(
                (ascii_slice(line, 0, 3), ascii_slice(line, 4, 7), ascii_slice(line, 8, 11)),
            ),
        }
    }
}

/// A streaming iterator under a method name that no inherent `next` can
/// hide.
pub trait StreamingIterator<'a, T: View> {
    /// The iterator is in a consistent state.  An iterator that does not
    /// say when it is cannot be used from verified code.
    open spec fn ready(&self) -> bool {
        false
    }

    /// What the items that are still to come hold, in order.
    open spec fn in_stream(&self) -> Seq<T::V> {
        Seq::empty()
    }

    /// Hands out the item that comes next and moves past it, or `None`
    /// when no item is left.
    fn next_in_stream(&'a mut self) -> (item: Option<T>)
        requires
            old(self).ready(),
        ensures
            final(self).ready(),
            match item {
                Some(first) => {
                    &&& old(self).in_stream().len() > 0
                    &&& first@ == old(self).in_stream()[0]
                    &&& final(self).in_stream() == old(self).in_stream().skip(1)
                },
                None => {
                    &&& old(self).in_stream().len() == 0
                    &&& final(self).in_stream().len() == 0
                },
            },
    ;
}

impl<'a, 'r> StreamingIterator<'a, (&'a str, &'a str, &'a str)> for ZeroCopyParser<'r> {
    open spec fn ready(&self) -> bool {
        self.reader().well_formed()
    }

    open spec fn in_stream(&self) -> Seq<(Seq<char>, Seq<char>, Seq<char>)> {
        parsed(self.reader().lines())
    }

    fn next_in_stream(&'a mut self) -> (item: Option<(&'a str, &'a str, &'a str)>) {
        let item = self.next();
        proof {
            let before = old(self).reader().lines();
            if before.len() > 0 {
                assert(parsed(before.skip(1)) =~= parsed(before).skip(1));
            }
        }
        item
    }
}

impl<'a, 'r> crate::iter::StreamingIterator<'a, (&'a str, &'a str, &'a str)> for ZeroCopyParser<
    'r,
> {
    open spec fn inv(&self) -> bool {
        self.reader().well_formed()
    }

    open spec fn upcoming(&self) -> Seq<(Seq<char>, Seq<char>, Seq<char>)> {
        parsed(self.reader().lines())
    }

    fn next(&'a mut self) -> (item: Option<(&'a str, &'a str, &'a str)>) {
        self.next_in_stream()
    }
}

/// Runs the copying parser over a file of plain ASCII in whole lines, and
/// returns the number of lines that it parsed.
pub fn copying_parser(file: &str) -> (parsed_lines: usize)
    requires
        file.is_ascii(),
        file@.len() % LINE_LEN as nat == 0,
    ensures
        parsed_lines == file@.len() / LINE_LEN as nat,
{
    let total: usize = ascii_len(file) / LINE_LEN;
    let mut reader = BufferedReader::new(file);
    let mut parser = CopyingParser::new(&mut reader);
    let mut parsed_lines: usize = 0;
    loop
        invariant
            parser.reader().well_formed(),
            total == file@.len() / LINE_LEN as nat,
            parsed_lines + parser.reader().lines().len() == total,
        decreases parser.reader().lines().len(),
    {
        match parser.next() {
            None => {
                return parsed_lines;
            },
            Some(_words) => {
                parsed_lines = parsed_lines + 1;
            },
        }
    }
}

/// Runs the zero-copy parser over a file of plain ASCII in whole lines,
/// in a plain loop, and returns the number of lines that it parsed.
pub fn zero_copy_parser(file: &str) -> (parsed_lines: usize)
    requires
        file.is_ascii(),
        file@.len() % LINE_LEN as nat == 0,
    ensures
        parsed_lines == file@.len() / LINE_LEN as nat,
{
    let total: usize = ascii_len(file) / LINE_LEN;
    let mut reader = BufferedReader::new(file);
    let mut parser = ZeroCopyParser::new(&mut reader);
    let mut parsed_lines: usize = 0;
    loop
        invariant
            parser.reader().well_formed(),
            total == file@.len() / LINE_LEN as nat,
            parsed_lines + parser.reader().lines().len() == total,
        decreases parser.reader().lines().len(),
    {
        match parser.next() {
            None => {
                return parsed_lines;
            },
            Some(_words) => {
                parsed_lines = parsed_lines + 1;
            },
        }
    }
}

/// Runs the zero-copy parser over a file of plain ASCII in whole lines,
/// in a streaming loop, and returns the number of lines that it parsed.
pub fn replacement_iterator_trait(file: &str) -> (parsed_lines: usize)
    requires
        file.is_ascii(),
        file@.len() % LINE_LEN as nat == 0,
    ensures
        parsed_lines == file@.len() / LINE_LEN as nat,
{
    let mut reader = BufferedReader::new(file);
    let mut parser = ZeroCopyParser::new(&mut reader);
    let mut count = Count { seen: 0 };
    let total: usize = ascii_len(file) / LINE_LEN;
    proof {
        lemma_count_run::<StrTriples>(count, parsed(parser.reader().lines()));
    }
    streaming_for::<StrTriples, _, _>(&mut parser, &mut count);
    count.seen
}

} // verus!
