//! The decoder: a cursor over a window of a buffer, and the recursive
//! descent that reads a document through it.
//!
//! A cursor reads on as long as the buffer goes on: `read` and `sub` fail
//! only where the bytes asked for reach past the end of the buffer. The end
//! of the window says how much `read_full` reads.

use crate::bytes::{be_i64, be_u64, lemma_be_u64_range, read_i64_be, read_u64_be};
use crate::doc::{entries_of, items_of, lemma_items_push, put_entry, DocValue};
use crate::error::DecodeError;
use crate::tree::{put, DocTree};
use crate::wire::{
    after_line, after_nested, body_of, decoded, field_consumed, field_step, fields_consumed,
    has_line, item_consumed, item_step, items_consumed, lemma_fields_by_step, lemma_items_by_step,
    len_field, line_consumed, nested_consumed, parse, parse_array, parse_fields, parse_items,
    parse_key, parse_object, parse_payload, parse_scalar, text_of, Step, TAG_BINARY, TAG_BOOL,
    TAG_FLOAT, TAG_NULL, TAG_NUM, TAG_OBJECT, TAG_STRING, TAG_VEC,
};
use vstd::prelude::*;
use vstd::utf8::{decode_utf8, valid_utf8};

verus! {

/// The buffer that is being decoded.
#[derive(Debug)]
pub struct Reader<'a> {
    data: &'a Vec<u8>,
}

/// A cursor with a window of the buffer: the bytes from `start` up to `end`.
/// It has read `cursor` bytes from `start` on, and may have read past `end`.
#[derive(Debug)]
pub struct SubReader {
    start: usize,
    end: usize,
    cursor: usize,
}

impl<'a> View for Reader<'a> {
    type V = Seq<u8>;

    closed spec fn view(&self) -> Seq<u8> {
        self.data@
    }
}

impl SubReader {
    /// The window does not end before it starts, and the read offset can
    /// be counted from the start of the buffer.
    #[verifier::type_invariant]
    spec fn inside(self) -> bool {
        self.start <= self.end && self.start + self.cursor <= usize::MAX
    }

    /// Index of the first byte of the window.
    pub closed spec fn start(&self) -> int {
        self.start as int
    }

    /// Index just past the last byte of the window.
    pub closed spec fn end(&self) -> int {
        self.end as int
    }

    /// How many bytes have been read since the start of the window.
    pub closed spec fn cursor(&self) -> int {
        self.cursor as int
    }

    /// Index of the next byte to read.
    pub open spec fn position(&self) -> int {
        self.start() + self.cursor()
    }

    /// The bytes from the read offset to the end of the buffer.
    #[verifier::opaque]
    pub open spec fn remaining(&self, data: Seq<u8>) -> Seq<u8> {
        if self.position() <= data.len() {
            data.skip(self.position())
        } else {
            Seq::empty()
        }
    }

    /// How many bytes of the window lie after the read offset.
    pub open spec fn window_len(&self) -> int {
        if self.position() <= self.end() {
            self.end() - self.position()
        } else {
            0
        }
    }

    /// The bytes from the read offset to the end of the window, for a
    /// window that lies inside the buffer.
    pub open spec fn window(&self, data: Seq<u8>) -> Seq<u8> {
        self.remaining(data).take(self.window_len())
    }

    /// The same window, read `n` bytes further.
    pub open spec fn advanced(&self, other: &SubReader, n: int) -> bool {
        &&& other.start() == self.start()
        &&& other.end() == self.end()
        &&& other.cursor() == self.cursor() + n
    }

    /// The window lies inside the buffer.
    pub open spec fn fits(&self, data: Seq<u8>) -> bool {
        self.end() <= data.len()
    }

    /// The offsets of a cursor are indices: none is negative, and none is
    /// more than the machine can count.
    pub proof fn lemma_offsets(&self)
        ensures
            0 <= self.start() <= usize::MAX,
            0 <= self.end() <= usize::MAX,
            0 <= self.cursor() <= usize::MAX,
            0 <= self.position(),
    {
    }

    /// How many bytes are left in the buffer after the read offset.
    pub proof fn lemma_remaining_len(&self, data: Seq<u8>)
        ensures
            self.remaining(data).len() == if self.position() <= data.len() {
                data.len() - self.position()
            } else {
                0
            },
    {
        reveal(SubReader::remaining);
    }

    /// A window that was just carved lies inside the buffer, and its
    /// bytes are the first of those that are left.
    pub proof fn lemma_window(&self, data: Seq<u8>)
        requires
            self.position() <= self.end() <= data.len(),
        ensures
            self.fits(data),
            self.window_len() == self.end() - self.position(),
            self.window_len() <= self.remaining(data).len(),
            self.window(data) == data.subrange(self.position(), self.end()),
    {
        reveal(SubReader::remaining);
    }

    /// A cursor over the whole buffer.
    pub fn whole(global: &Reader) -> (r: SubReader)
        ensures
            r.start() == 0,
            r.end() == global@.len(),
            r.cursor() == 0,
            r.remaining(global@) == global@,
    {
        let r = SubReader { start: 0, end: global.data.len(), cursor: 0 };
        proof {
            reveal(SubReader::remaining);
        }
        r
    }

    /// Whether `size` more bytes lie in the buffer after the read offset.
    fn in_buffer(&self, global: &Reader, size: usize) -> (b: bool)
        ensures
            b == (self.position() + size <= global@.len()),
            self.position() <= usize::MAX,
            self.start() <= self.end(),
            global@.len() <= usize::MAX,
    {
        proof {
            use_type_invariant(self);
            global.lemma_len_bound();
        }
        let len = global.data.len();
        let pos = self.start + self.cursor;
        pos <= len && size <= len - pos
    }

    /// Carves the next `size` bytes out as a window of their own and moves
    /// past them. Fails, and leaves the cursor where it is, if fewer than
    /// `size` bytes are left in the buffer.
    pub fn sub(&mut self, global: &mut Reader, size: usize) -> (r: Result<SubReader, DecodeError>)
        ensures
            final(global)@ == old(global)@,
            ({
                let data = old(global)@;
                let rest = old(self).remaining(data);
                if old(self).position() + size <= data.len() {
                    &&& r is Ok
                    &&& old(self).advanced(final(self), size as int)
                    &&& final(self).remaining(data) == rest.skip(size as int)
                    &&& r->Ok_0.start() == old(self).position()
                    &&& r->Ok_0.end() == old(self).position() + size
                    &&& r->Ok_0.cursor() == 0
                    &&& r->Ok_0.remaining(data) == rest
                } else {
                    &&& r == Err::<SubReader, DecodeError>(DecodeError::Truncated)
                    &&& *final(self) == *old(self)
                }
            }),
    {
        if !self.in_buffer(global, size) {
            return Err(DecodeError::Truncated);
        }
        let start = self.start + self.cursor;
        self.cursor += size;
        let carved = SubReader { start: start, end: start + size, cursor: 0 };
        proof {
            reveal(SubReader::remaining);
        }
        Ok(carved)
    }

    /// Reads the next `size` bytes and moves past them. Fails, and leaves the
    /// cursor where it is, if fewer than `size` bytes are left in the buffer.
    pub fn read(&mut self, global: &mut Reader, size: usize) -> (r: Result<Vec<u8>, DecodeError>)
        ensures
            final(global)@ == old(global)@,
            ({
                let data = old(global)@;
                let rest = old(self).remaining(data);
                if old(self).position() + size <= data.len() {
                    &&& r is Ok
                    &&& r->Ok_0@ == data.subrange(
                        old(self).position(),
                        old(self).position() + size,
                    )
                    &&& r->Ok_0@ == rest.take(size as int)
                    &&& old(self).advanced(final(self), size as int)
                    &&& final(self).remaining(data) == rest.skip(size as int)
                } else {
                    &&& r == Err::<Vec<u8>, DecodeError>(DecodeError::Truncated)
                    &&& *final(self) == *old(self)
                }
            }),
    {
        if !self.in_buffer(global, size) {
            return Err(DecodeError::Truncated);
        }
        let start = self.start + self.cursor;
        let build = copy_range(global.data, start, start + size);
        self.cursor += size;
        proof {
            reveal(SubReader::remaining);
        }
        Ok(build)
    }

    /// Reads what is left of the window and moves to its end. Nothing is
    /// left where the cursor has read past the window. Fails, and leaves the
    /// cursor where it is, if the window reaches past the buffer.
    pub fn read_full(&mut self, global: &mut Reader) -> (r: Result<Vec<u8>, DecodeError>)
        ensures
            final(global)@ == old(global)@,
            old(self).fits(old(global)@) ==> r is Ok && old(self).advanced(
                final(self),
                old(self).window_len(),
            ) && r->Ok_0@ == old(self).window(old(global)@),
            !old(self).fits(old(global)@) ==> r == Err::<Vec<u8>, DecodeError>(
                DecodeError::Truncated,
            ) && *final(self) == *old(self),
    {
        proof {
            use_type_invariant(&*self);
            reveal(SubReader::remaining);
        }
        if self.end > global.data.len() {
            return Err(DecodeError::Truncated);
        }
        let pos = self.start + self.cursor;
        if pos > self.end {
            return Ok(Vec::new());
        }
        let build = copy_range(global.data, pos, self.end);
        self.cursor = self.end - self.start;
        Ok(build)
    }
}

/// The bytes of `data` from index `from` up to index `to`.
fn copy_range(data: &Vec<u8>, from: usize, to: usize) -> (build: Vec<u8>)
    requires
        from <= to,
        from == to || to <= data@.len(),
    ensures
        build@.len() == to - from,
        forall|i: int| 0 <= i < to - from ==> build@[i] == data@[from + i],
{
    let mut build: Vec<u8> = Vec::new();
    let mut i: usize = from;
    while i < to
        invariant
            from <= i <= to,
            from == to || to <= data@.len(),
            build@.len() == i - from,
            forall|j: int| 0 <= j < i - from ==> build@[j] == data@[from + j],
        decreases to - i,
    {
        build.push(data[i]);
        i += 1;
    }
    build
}

impl<'a> Reader<'a> {
    /// A reader of `data`.
    pub fn new(data: &'a Vec<u8>) -> (r: Reader<'a>)
        ensures
            r@ == data@,
    {
        Reader { data: data }
    }

    /// A buffer is no longer than the machine can address.
    pub proof fn lemma_len_bound(&self)
        ensures
            self@.len() <= usize::MAX,
    {
        assert(self.data.len() == self.data@.len());
    }

    /// Decodes the document whose data line starts the buffer.
    pub fn build(&mut self) -> (r: Result<DocValue, DecodeError>)
        ensures
            final(self)@ == old(self)@,
            decoded(r) == parse(old(self)@),
    {
        let mut sub = SubReader::whole(self);
        read_data_line(self, &mut sub)
    }
}

/// Reads a length field: the first eight bytes of `v` as an unsigned
/// big-endian number. Fewer than eight bytes are a truncated input.
pub fn bytes_to_u64(v: Vec<u8>) -> (r: Result<u64, DecodeError>)
    ensures
        v@.len() >= 8 ==> r == Ok::<u64, DecodeError>(be_u64(v@.take(8)) as u64),
        v@.len() < 8 ==> r == Err::<u64, DecodeError>(DecodeError::Truncated),
{
    proof {
        if v@.len() >= 8 {
            lemma_be_u64_range(v@.take(8));
        }
    }
    match read_u64_be(v) {
        Ok(n) => Ok(n),
        Err(_) => Err(DecodeError::Truncated),
    }
}

/// Reads a float payload: the first eight bytes of `v` as the bit pattern
/// of the float. Fewer than eight bytes are a truncated input.
pub fn bytes_to_f64(v: Vec<u8>) -> (r: Result<u64, DecodeError>)
    ensures
        v@.len() >= 8 ==> r == Ok::<u64, DecodeError>(be_u64(v@.take(8)) as u64),
        v@.len() < 8 ==> r == Err::<u64, DecodeError>(DecodeError::Truncated),
{
    bytes_to_u64(v)
}

/// Reads an integer payload: the first eight bytes of `v` as a signed
/// big-endian number. Fewer than eight bytes are a truncated input.
pub fn bytes_to_i64(v: Vec<u8>) -> (r: Result<i64, DecodeError>)
    ensures
        v@.len() >= 8 ==> r == Ok::<i64, DecodeError>(be_i64(v@.take(8)) as i64),
        v@.len() < 8 ==> r == Err::<i64, DecodeError>(DecodeError::Truncated),
{
    proof {
        if v@.len() >= 8 {
            lemma_be_u64_range(v@.take(8));
        }
    }
    match read_i64_be(v) {
        Ok(n) => Ok(n),
        Err(_) => Err(DecodeError::Truncated),
    }
}

/// The error type of `String::from_utf8`, carried through unread.
#[verifier::external_type_specification]
#[verifier::external_body]
pub struct ExFromUtf8Error(std::string::FromUtf8Error);

/// `String::from_utf8` accepts exactly the byte vectors that are UTF-8, and
/// the string it then gives is the text that they spell.
pub assume_specification[ std::string::String::from_utf8 ](vec: std::vec::Vec<u8>) -> (r:
    std::result::Result<std::string::String, std::string::FromUtf8Error>)
    ensures
        valid_utf8(vec@) ==> r is Ok && r->Ok_0@ == decode_utf8(vec@),
        !valid_utf8(vec@) ==> r is Err,
;

/// The text that the bytes spell in UTF-8.
pub fn bytes_to_string(v: Vec<u8>) -> (r: Result<String, DecodeError>)
    ensures
        match text_of(v@) {
            Some(text) => r is Ok && r->Ok_0@ == text,
            None => r == Err::<String, DecodeError>(DecodeError::InvalidUtf8),
        },
{
    proof {
        reveal(text_of);
    }
    match String::from_utf8(v) {
        Ok(s) => Ok(s),
        Err(_) => Err(DecodeError::InvalidUtf8),
    }
}

/// Reads an eight-byte length field. A length that no buffer on this machine
/// can hold is a truncated input; the cursor has then moved past the field.
fn read_len(global: &mut Reader, reader: &mut SubReader) -> (r: Result<usize, DecodeError>)
    ensures
        final(global)@ == old(global)@,
        old(reader).remaining(old(global)@).len() <= usize::MAX,
        old(reader).remaining(old(global)@).len() < 8 ==> r == Err::<usize, DecodeError>(
            DecodeError::Truncated,
        ) && *final(reader) == *old(reader),
        old(reader).remaining(old(global)@).len() >= 8 ==> old(reader).advanced(final(reader), 8)
            && final(reader).remaining(old(global)@) == old(reader).remaining(old(global)@).skip(8)
            && ({
            let n: int = len_field(old(reader).remaining(old(global)@));
            if n <= usize::MAX {
                r == Ok::<usize, DecodeError>(n as usize)
            } else {
                r == Err::<usize, DecodeError>(DecodeError::Truncated)
            }
        }),
{
    proof {
        reader.lemma_remaining_len(global@);
        global.lemma_len_bound();
    }
    let bytes = match reader.read(global, 8) {
        Ok(b) => b,
        Err(e) => {
            return Err(e);
        },
    };
    let n = match bytes_to_u64(bytes) {
        Ok(n) => n,
        Err(e) => {
            return Err(e);
        },
    };
    proof {
        lemma_be_u64_range(bytes@);
    }
    if n > usize::MAX as u64 {
        return Err(DecodeError::Truncated);
    }
    Ok(n as usize)
}

/// Reads one data line: the tag, the length of the payload, and the payload
/// through a window of that length.
pub fn read_data_line(global: &mut Reader, reader: &mut SubReader) -> (r: Result<
    DocValue,
    DecodeError,
>)
    ensures
        final(global)@ == old(global)@,
        decoded(r) == parse(old(reader).remaining(old(global)@)),
        old(reader).advanced(final(reader), line_consumed(old(reader).remaining(old(global)@))),
        has_line(old(reader).remaining(old(global)@)) ==> final(reader).remaining(old(global)@)
            == after_line(old(reader).remaining(old(global)@)),
    decreases old(reader).remaining(old(global)@).len(), 1int,
{
    let ghost line = reader.remaining(global@);
    proof {
        reader.lemma_remaining_len(global@);
    }
    let data_type = match reader.read(global, 1) {
        Ok(b) => b,
        Err(e) => {
            assert(line.len() < 1);
            return Err(e);
        },
    };
    assert(line.len() >= 1 && data_type@[0] == line[0]);
    let data_len = match read_len(global, reader) {
        Ok(n) => n,
        Err(e) => {
            assert(line.len() < 9 || len_field(line.skip(1)) > usize::MAX);
            assert(!has_line(line));
            return Err(e);
        },
    };
    assert(line.len() >= 9 && data_len == len_field(line.skip(1)));
    assert(reader.remaining(global@) == body_of(line));
    proof {
        reader.lemma_remaining_len(global@);
    }
    let mut data = match reader.sub(global, data_len) {
        Ok(d) => d,
        Err(e) => {
            assert(data_len > body_of(line).len());
            return Err(e);
        },
    };
    assert(has_line(line));
    proof {
        data.lemma_window(global@);
        lemma_window_is_payload(data_type@[0], &data, global@);
    }
    process_data(data_type[0], global, &mut data)
}

/// Through a window that lies inside the buffer and does not end before
/// the read offset, a payload is read as `parse_payload` says.
pub proof fn lemma_window_is_payload(tag: u8, reader: &SubReader, data: Seq<u8>)
    requires
        reader.fits(data),
        reader.position() <= reader.end(),
    ensures
        parse_window(tag, reader, data) == parse_payload(
            tag,
            reader.remaining(data),
            reader.window_len(),
        ),
{
}

/// What a payload window spells under a tag. A scalar is read from the
/// whole window at once, so its window has to lie inside the buffer; the
/// entries of an object or array are read from the offset onwards.
pub open spec fn parse_window(tag: u8, reader: &SubReader, data: Seq<u8>) -> Result<
    DocTree,
    DecodeError,
> {
    if tag == TAG_OBJECT {
        parse_object(reader.remaining(data))
    } else if tag == TAG_VEC {
        parse_array(reader.remaining(data))
    } else if tag <= TAG_NULL && !reader.fits(data) {
        Err(DecodeError::Truncated)
    } else {
        parse_scalar(tag, reader.window(data))
    }
}

/// How far a reader gets in a payload window under a tag.
pub open spec fn window_consumed(tag: u8, reader: &SubReader, data: Seq<u8>) -> int {
    if tag == TAG_OBJECT {
        fields_consumed(reader.remaining(data))
    } else if tag == TAG_VEC {
        items_consumed(reader.remaining(data))
    } else if tag <= TAG_NULL && reader.fits(data) {
        reader.window_len()
    } else {
        0
    }
}

/// Decodes a payload according to its type tag.
pub fn process_data(data_type: u8, global: &mut Reader, reader: &mut SubReader) -> (r: Result<
    DocValue,
    DecodeError,
>)
    ensures
        final(global)@ == old(global)@,
        decoded(r) == parse_window(data_type, old(reader), old(global)@),
        old(reader).advanced(final(reader), window_consumed(data_type, old(reader), old(global)@)),
    decreases old(reader).remaining(old(global)@).len(), 4int,
{
    if data_type == 0 {
        return process_object(global, reader);
    } else if data_type == 1 {
        return process_vec(global, reader);
    } else if data_type == 2 {
        return process_binary(global, reader);
    } else if data_type == 3 {
        return process_string(global, reader);
    } else if data_type == 4 {
        return process_num(global, reader);
    } else if data_type == 5 {
        return process_float(global, reader);
    } else if data_type == 6 {
        return process_bool(global, reader);
    } else if data_type == 7 {
        return process_null(global, reader);
    } else {
        return Err(DecodeError::UnknownTag);
    }
}

/// Reads the key of an object entry: its length, then its text.
fn read_key(global: &mut Reader, reader: &mut SubReader) -> (r: Result<String, DecodeError>)
    ensures
        final(global)@ == old(global)@,
        match r {
            Ok(key) => parse_key(old(reader).remaining(old(global)@)) == Ok::<
                Seq<char>,
                DecodeError,
            >(key@),
            Err(e) => parse_key(old(reader).remaining(old(global)@)) == Err::<
                Seq<char>,
                DecodeError,
            >(e),
        },
        old(reader).advanced(final(reader), nested_consumed(old(reader).remaining(old(global)@))),
        r is Ok ==> final(reader).remaining(old(global)@) == after_nested(
            old(reader).remaining(old(global)@),
        ),
{
    proof {
        reader.lemma_remaining_len(global@);
    }
    let key_len = match read_len(global, reader) {
        Ok(n) => n,
        Err(e) => {
            return Err(e);
        },
    };
    proof {
        reader.lemma_remaining_len(global@);
    }
    let key_bytes = match reader.read(global, key_len) {
        Ok(b) => b,
        Err(e) => {
            return Err(e);
        },
    };
    bytes_to_string(key_bytes)
}

/// Reads the byte after an entry: whether another entry follows.
fn read_continue(global: &mut Reader, reader: &mut SubReader) -> (r: Result<bool, DecodeError>)
    ensures
        final(global)@ == old(global)@,
        ({
            let rest = old(reader).remaining(old(global)@);
            if rest.len() < 1 {
                r == Err::<bool, DecodeError>(DecodeError::Truncated) && *final(reader) == *old(
                    reader,
                )
            } else {
                old(reader).advanced(final(reader), 1) && final(reader).remaining(old(global)@)
                    == rest.skip(1) && if rest[0] == 1 {
                    r == Ok::<bool, DecodeError>(true)
                } else if rest[0] == 0 {
                    r == Ok::<bool, DecodeError>(false)
                } else {
                    r == Err::<bool, DecodeError>(DecodeError::InvalidContinuation)
                }
            }
        }),
{
    proof {
        reader.lemma_remaining_len(global@);
    }
    let continue_byte = match reader.read(global, 1) {
        Ok(b) => b,
        Err(e) => {
            return Err(e);
        },
    };
    if continue_byte[0] == 1 {
        Ok(true)
    } else if continue_byte[0] == 0 {
        Ok(false)
    } else {
        Err(DecodeError::InvalidContinuation)
    }
}

/// Reads one array entry: the data line, then the continuation byte.
fn read_item(global: &mut Reader, reader: &mut SubReader) -> (r: Result<
    (DocValue, bool),
    DecodeError,
>)
    ensures
        final(global)@ == old(global)@,
        match r {
            Ok((item, more)) => item_step(old(reader).remaining(old(global)@)) == (if more {
                Step::More(item@)
            } else {
                Step::Last(item@)
            }) && final(reader).remaining(old(global)@) == after_line(
                old(reader).remaining(old(global)@),
            ).skip(1),
            Err(e) => item_step(old(reader).remaining(old(global)@)) == Step::<DocTree>::Fail(e),
        },
        old(reader).advanced(final(reader), item_consumed(old(reader).remaining(old(global)@))),
        r is Ok ==> final(reader).remaining(old(global)@).len() < old(reader).remaining(
            old(global)@,
        ).len(),
    decreases old(reader).remaining(old(global)@).len(), 2int,
{
    proof {
        reveal(item_step);
        reveal(item_consumed);
    }
    let item = match read_data_line(global, reader) {
        Ok(v) => v,
        Err(e) => {
            return Err(e);
        },
    };
    match read_continue(global, reader) {
        Ok(more) => Ok((item, more)),
        Err(e) => Err(e),
    }
}

/// Reads one object entry: the key, the data line, then the continuation
/// byte.
fn read_field(global: &mut Reader, reader: &mut SubReader) -> (r: Result<
    (String, DocValue, bool),
    DecodeError,
>)
    ensures
        final(global)@ == old(global)@,
        match r {
            Ok((key, value, more)) => field_step(old(reader).remaining(old(global)@)) == (if more {
                Step::More((key@, value@))
            } else {
                Step::Last((key@, value@))
            }) && final(reader).remaining(old(global)@) == after_line(
                after_nested(old(reader).remaining(old(global)@)),
            ).skip(1),
            Err(e) => field_step(old(reader).remaining(old(global)@)) == Step::<
                (Seq<char>, DocTree),
            >::Fail(e),
        },
        old(reader).advanced(final(reader), field_consumed(old(reader).remaining(old(global)@))),
        r is Ok ==> final(reader).remaining(old(global)@).len() < old(reader).remaining(
            old(global)@,
        ).len(),
    decreases old(reader).remaining(old(global)@).len(), 2int,
{
    proof {
        reveal(field_step);
        reveal(field_consumed);
        reveal(item_consumed);
    }
    let key = match read_key(global, reader) {
        Ok(k) => k,
        Err(e) => {
            return Err(e);
        },
    };
    let value = match read_data_line(global, reader) {
        Ok(v) => v,
        Err(e) => {
            return Err(e);
        },
    };
    match read_continue(global, reader) {
        Ok(more) => Ok((key, value, more)),
        Err(e) => Err(e),
    }
}

/// What reading object entries from `p` comes to, after those in `seen`.
#[verifier::opaque]
spec fn fields_from(p: Seq<u8>, seen: Seq<(Seq<char>, DocTree)>) -> Result<
    Seq<(Seq<char>, DocTree)>,
    DecodeError,
> {
    parse_fields(p, seen)
}

/// How far reading object entries from `p` gets.
#[verifier::opaque]
spec fn fields_used(p: Seq<u8>) -> int {
    fields_consumed(p)
}

/// What reading array entries from `p` comes to, after those in `seen`.
#[verifier::opaque]
spec fn items_from(p: Seq<u8>, seen: Seq<DocTree>) -> Result<Seq<DocTree>, DecodeError> {
    parse_items(p, seen)
}

/// How far reading array entries from `p` gets.
#[verifier::opaque]
spec fn items_used(p: Seq<u8>) -> int {
    items_consumed(p)
}

/// What one object entry, read, leaves to do.
proof fn lemma_fields_from(p: Seq<u8>, seen: Seq<(Seq<char>, DocTree)>)
    ensures
        fields_from(p, seen) == match field_step(p) {
            Step::Fail(e) => Err::<Seq<(Seq<char>, DocTree)>, DecodeError>(e),
            Step::Last(entry) => Ok(put(seen, entry.0, entry.1)),
            Step::More(entry) => fields_from(
                after_line(after_nested(p)).skip(1),
                put(seen, entry.0, entry.1),
            ),
        },
        fields_used(p) == match field_step(p) {
            Step::More(_) => field_consumed(p) + fields_used(after_line(after_nested(p)).skip(1)),
            _ => field_consumed(p),
        },
{
    reveal(fields_from);
    reveal(fields_used);
    lemma_fields_by_step(p, seen);
}

/// What one array entry, read, leaves to do.
proof fn lemma_items_from(p: Seq<u8>, seen: Seq<DocTree>)
    ensures
        items_from(p, seen) == match item_step(p) {
            Step::Fail(e) => Err::<Seq<DocTree>, DecodeError>(e),
            Step::Last(item) => Ok(seen.push(item)),
            Step::More(item) => items_from(after_line(p).skip(1), seen.push(item)),
        },
        items_used(p) == match item_step(p) {
            Step::More(_) => item_consumed(p) + items_used(after_line(p).skip(1)),
            _ => item_consumed(p),
        },
{
    reveal(items_from);
    reveal(items_used);
    lemma_items_by_step(p, seen);
}

/// Decodes the payload of an object: entries until one ends in the
/// continuation byte 0. A key that comes twice keeps the later value.
pub fn process_object(global: &mut Reader, reader: &mut SubReader) -> (r: Result<
    DocValue,
    DecodeError,
>)
    ensures
        final(global)@ == old(global)@,
        decoded(r) == parse_object(old(reader).remaining(old(global)@)),
        old(reader).advanced(final(reader), fields_consumed(old(reader).remaining(old(global)@))),
    decreases old(reader).remaining(old(global)@).len(), 3int,
{
    let mut map: Vec<(String, DocValue)> = Vec::new();
    let mut failure: Option<DecodeError> = None;
    let ghost data = global@;
    let ghost payload = reader.remaining(data);
    assert(entries_of(map@) =~= Seq::empty());
    loop
        invariant_except_break
            failure is None,
            reader.remaining(data).len() <= payload.len(),
            fields_from(payload, Seq::empty()) == fields_from(
                reader.remaining(data),
                entries_of(map@),
            ),
            fields_used(payload) == reader.cursor() - old(reader).cursor() + fields_used(
                reader.remaining(data),
            ),
        invariant
            global@ == data,
            data == old(global)@,
            payload == old(reader).remaining(data),
            reader.start() == old(reader).start(),
            reader.end() == old(reader).end(),
        ensures
            fields_from(payload, Seq::empty()) == match failure {
                Some(e) => Err::<Seq<(Seq<char>, DocTree)>, DecodeError>(e),
                None => Ok(entries_of(map@)),
            },
            fields_used(payload) == reader.cursor() - old(reader).cursor(),
        decreases reader.remaining(data).len(),
    {
        proof {
            lemma_fields_from(reader.remaining(data), entries_of(map@));
        }
        match read_field(global, reader) {
            Err(e) => {
                failure = Some(e);
                break ;
            },
            Ok((key, value, more)) => {
                put_entry(&mut map, key, value);
                if !more {
                    break ;
                }
            },
        }
    }
    proof {
        reveal(fields_from);
        reveal(fields_used);
    }
    match failure {
        Some(e) => Err(e),
        None => Ok(DocValue::Object(map)),
    }
}

/// Decodes the payload of an array: entries until one ends in the
/// continuation byte 0.
pub fn process_vec(global: &mut Reader, reader: &mut SubReader) -> (r: Result<
    DocValue,
    DecodeError,
>)
    ensures
        final(global)@ == old(global)@,
        decoded(r) == parse_array(old(reader).remaining(old(global)@)),
        old(reader).advanced(final(reader), items_consumed(old(reader).remaining(old(global)@))),
    decreases old(reader).remaining(old(global)@).len(), 3int,
{
    let mut build: Vec<DocValue> = Vec::new();
    let mut failure: Option<DecodeError> = None;
    let ghost data = global@;
    let ghost payload = reader.remaining(data);
    assert(items_of(build@) =~= Seq::empty());
    loop
        invariant_except_break
            failure is None,
            reader.remaining(data).len() <= payload.len(),
            items_from(payload, Seq::empty()) == items_from(
                reader.remaining(data),
                items_of(build@),
            ),
            items_used(payload) == reader.cursor() - old(reader).cursor() + items_used(
                reader.remaining(data),
            ),
        invariant
            global@ == data,
            data == old(global)@,
            payload == old(reader).remaining(data),
            reader.start() == old(reader).start(),
            reader.end() == old(reader).end(),
        ensures
            items_from(payload, Seq::empty()) == match failure {
                Some(e) => Err::<Seq<DocTree>, DecodeError>(e),
                None => Ok(items_of(build@)),
            },
            items_used(payload) == reader.cursor() - old(reader).cursor(),
        decreases reader.remaining(data).len(),
    {
        proof {
            lemma_items_from(reader.remaining(data), items_of(build@));
        }
        match read_item(global, reader) {
            Err(e) => {
                failure = Some(e);
                break ;
            },
            Ok((item, more)) => {
                proof {
                    lemma_items_push(build@, item);
                }
                build.push(item);
                if !more {
                    break ;
                }
            },
        }
    }
    proof {
        reveal(items_from);
        reveal(items_used);
    }
    match failure {
        Some(e) => Err(e),
        None => Ok(DocValue::Vec(build)),
    }
}

/// Decodes a binary payload: the bytes of the window as they are.
pub fn process_binary(global: &mut Reader, reader: &mut SubReader) -> (r: Result<
    DocValue,
    DecodeError,
>)
    ensures
        final(global)@ == old(global)@,
        decoded(r) == parse_window(TAG_BINARY, old(reader), old(global)@),
        old(reader).advanced(final(reader), window_consumed(TAG_BINARY, old(reader), old(global)@)),
{
    let as_bytes = match reader.read_full(global) {
        Ok(b) => b,
        Err(e) => {
            return Err(e);
        },
    };
    Ok(DocValue::Binary(as_bytes))
}

/// Decodes a string payload: the window as UTF-8.
pub fn process_string(global: &mut Reader, reader: &mut SubReader) -> (r: Result<
    DocValue,
    DecodeError,
>)
    ensures
        final(global)@ == old(global)@,
        decoded(r) == parse_window(TAG_STRING, old(reader), old(global)@),
        old(reader).advanced(final(reader), window_consumed(TAG_STRING, old(reader), old(global)@)),
{
    let as_bytes = match reader.read_full(global) {
        Ok(b) => b,
        Err(e) => {
            return Err(e);
        },
    };
    let as_value = match bytes_to_string(as_bytes) {
        Ok(s) => s,
        Err(e) => {
            return Err(e);
        },
    };
    Ok(DocValue::String(as_value))
}

/// Decodes an integer payload: eight bytes, signed, big-endian.
pub fn process_num(global: &mut Reader, reader: &mut SubReader) -> (r: Result<
    DocValue,
    DecodeError,
>)
    ensures
        final(global)@ == old(global)@,
        decoded(r) == parse_window(TAG_NUM, old(reader), old(global)@),
        old(reader).advanced(final(reader), window_consumed(TAG_NUM, old(reader), old(global)@)),
{
    let as_bytes = match reader.read_full(global) {
        Ok(b) => b,
        Err(e) => {
            return Err(e);
        },
    };
    let as_value = match bytes_to_i64(as_bytes) {
        Ok(n) => n,
        Err(e) => {
            return Err(e);
        },
    };
    Ok(DocValue::Num(as_value))
}

/// Decodes a float payload: the eight bytes of its bit pattern, big-endian.
pub fn process_float(global: &mut Reader, reader: &mut SubReader) -> (r: Result<
    DocValue,
    DecodeError,
>)
    ensures
        final(global)@ == old(global)@,
        decoded(r) == parse_window(TAG_FLOAT, old(reader), old(global)@),
        old(reader).advanced(final(reader), window_consumed(TAG_FLOAT, old(reader), old(global)@)),
{
    let as_bytes = match reader.read_full(global) {
        Ok(b) => b,
        Err(e) => {
            return Err(e);
        },
    };
    let as_value = match bytes_to_f64(as_bytes) {
        Ok(n) => n,
        Err(e) => {
            return Err(e);
        },
    };
    Ok(DocValue::Float(as_value))
}

/// Decodes a boolean payload: exactly one byte, 0 or 1.
pub fn process_bool(global: &mut Reader, reader: &mut SubReader) -> (r: Result<
    DocValue,
    DecodeError,
>)
    ensures
        final(global)@ == old(global)@,
        decoded(r) == parse_window(TAG_BOOL, old(reader), old(global)@),
        old(reader).advanced(final(reader), window_consumed(TAG_BOOL, old(reader), old(global)@)),
        old(reader).fits(old(global)@) ==> ({
            let payload = old(reader).window(old(global)@);
            if payload.len() == 1 && payload[0] == 0 {
                r == Ok::<DocValue, DecodeError>(DocValue::Bool(false))
            } else if payload.len() == 1 && payload[0] == 1 {
                r == Ok::<DocValue, DecodeError>(DocValue::Bool(true))
            } else {
                r == Err::<DocValue, DecodeError>(DecodeError::InvalidBool)
            }
        }),
{
    let as_bytes = match reader.read_full(global) {
        Ok(b) => b,
        Err(e) => {
            return Err(e);
        },
    };
    if as_bytes.len() != 1 {
        return Err(DecodeError::InvalidBool);
    }
    let hold: bool;
    if as_bytes[0] == 0 {
        hold = false;
    } else if as_bytes[0] == 1 {
        hold = true;
    } else {
        return Err(DecodeError::InvalidBool);
    }
    Ok(DocValue::Bool(hold))
}

/// Decodes a null payload: exactly one byte, 0.
pub fn process_null(global: &mut Reader, reader: &mut SubReader) -> (r: Result<
    DocValue,
    DecodeError,
>)
    ensures
        final(global)@ == old(global)@,
        decoded(r) == parse_window(TAG_NULL, old(reader), old(global)@),
        old(reader).advanced(final(reader), window_consumed(TAG_NULL, old(reader), old(global)@)),
        old(reader).fits(old(global)@) ==> ({
            let payload = old(reader).window(old(global)@);
            if payload.len() == 1 && payload[0] == 0 {
                r == Ok::<DocValue, DecodeError>(DocValue::Null)
            } else {
                r == Err::<DocValue, DecodeError>(DecodeError::InvalidNull)
            }
        }),
{
    let as_bytes = match reader.read_full(global) {
        Ok(b) => b,
        Err(e) => {
            return Err(e);
        },
    };
    if as_bytes.len() != 1 {
        return Err(DecodeError::InvalidNull);
    }
    if as_bytes[0] != 0 {
        return Err(DecodeError::InvalidNull);
    }
    Ok(DocValue::Null)
}

} // verus!
