//! The byte encoding that every message and header is written in.
//!
//! Integers are little-endian and of fixed width. A string is a `u32` length
//! followed by its bytes. A container reserves a length field of one or four
//! bytes which is filled in when the container is closed.

use vstd::prelude::*;

use crate::bytes::{
    le16, le32, le64, lemma_stands_at_sum, lemma_u32_at, low32, stands_at, u16_at, u32_at, u64_at,
    zeros,
};

verus! {

broadcast use crate::bytes::group_le_len;

/// A growing buffer of marshaled bytes.
#[derive(Debug)]
pub struct Writer {
    buf: Vec<u8>,
}

impl View for Writer {
    type V = Seq<u8>;

    closed spec fn view(&self) -> Seq<u8> {
        self.buf@
    }
}

/// Where the length field of a started container stands. It is what
/// [`Writer::start_container`] returns and [`Writer::close_container`] takes.
#[must_use]
pub struct Placeholder {
    length_offset: usize,
    data_start_offset: usize,
    short_length: bool,
}

impl Placeholder {
    /// Offset of the length field.
    pub closed spec fn field(self) -> int {
        self.length_offset as int
    }

    /// Whether the length field is a single byte.
    pub closed spec fn is_short(self) -> bool {
        self.short_length
    }

    /// Offset of the first byte of the container's body.
    pub open spec fn body(self) -> int {
        self.field() + (if self.is_short() {
            1int
        } else {
            4
        })
    }

    #[verifier::type_invariant]
    closed spec fn wf(self) -> bool {
        self.data_start_offset == self.length_offset + (if self.short_length {
            1int
        } else {
            4
        })
    }
}

/// The field bytes that give a container body of `len` bytes its length.
pub open spec fn container_length(short: bool, len: int) -> Seq<u8> {
    if short {
        seq![len as u8]
    } else {
        le32((len % 0x1_0000_0000) as u32)
    }
}

/// `s` with the bytes from `pos` on replaced by `part`.
pub open spec fn patched(s: Seq<u8>, pos: int, part: Seq<u8>) -> Seq<u8> {
    s.take(pos) + part + s.skip(pos + part.len())
}

/// A string as it is marshaled: the length as a `u32`, then the bytes.
pub open spec fn string_bytes(s: Seq<u8>) -> Seq<u8> {
    le32((s.len() % 0x1_0000_0000) as u32) + s
}

/// The string at `pos`, and where it ends.
pub open spec fn string_at(s: Seq<u8>, pos: int) -> Option<(Seq<u8>, int)> {
    if pos + 4 > s.len() {
        None
    } else {
        let end = pos + 4 + u32_at(s, pos);
        if end > s.len() {
            None
        } else {
            Some((s.subrange(pos + 4, end), end))
        }
    }
}

/// Where reading what is no string, length first, stops.
pub open spec fn string_halt(s: Seq<u8>, pos: int) -> Halt {
    if pos + 4 > s.len() {
        short(pos)
    } else {
        short(pos + 4)
    }
}

/// A written string is read back.
pub proof fn law_string_round_trips(s: Seq<u8>, pos: int, x: Seq<u8>)
    requires
        x.len() <= u32::MAX,
        stands_at(s, pos, string_bytes(x)),
    ensures
        string_at(s, pos) == Some((x, pos + 4 + x.len())),
{
    let len = (x.len() % 0x1_0000_0000) as u32;
    lemma_stands_at_sum(s, pos, le32(len), x);
    lemma_u32_at(s, pos, len);
}

/// A flag as it is marshaled.
pub open spec fn bool_bytes(val: bool) -> Seq<u8> {
    seq![
        if val {
            1u8
        } else {
            0u8
        },
    ]
}

impl Clone for Writer {
    fn clone(&self) -> (r: Writer)
        ensures
            r@ == self@,
    {
        Writer { buf: vstd::slice::slice_to_vec(self.buf.as_slice()) }
    }
}

impl Default for Writer {
    fn default() -> (r: Writer)
        ensures
            r@ == Seq::<u8>::empty(),
    {
        Writer { buf: Vec::new() }
    }
}

impl Writer {
    /// A fresh, empty writer.
    pub fn new() -> (r: Writer)
        ensures
            r@ == Seq::<u8>::empty(),
    {
        Writer { buf: Vec::new() }
    }

    /// A writer with room reserved. The capacity is a hint only.
    pub fn with_capacity(cap: usize) -> (r: Writer)
        ensures
            r@ == Seq::<u8>::empty(),
    {
        Writer { buf: Vec::with_capacity(cap) }
    }

    /// Number of bytes written so far, as a length field would hold it.
    pub fn len(&self) -> (r: u32)
        ensures
            r == self@.len() % 0x1_0000_0000,
    {
        low32(self.buf.len())
    }

    /// Whether nothing has been written yet.
    pub fn is_empty(&self) -> (r: bool)
        ensures
            r == (self@.len() == 0),
    {
        self.buf.is_empty()
    }

    /// The marshaled bytes.
    pub fn as_bytes(&self) -> (r: &[u8])
        ensures
            r@ == self@,
    {
        self.buf.as_slice()
    }

    /// Gives the marshaled bytes away.
    pub fn into_bytes(self) -> (r: Vec<u8>)
        ensures
            r@ == self@,
    {
        self.buf
    }

    /// Writes one byte.
    pub fn write_u8(&mut self, val: u8)
        ensures
            final(self)@ == old(self)@.push(val),
    {
        self.buf.push(val);
    }

    /// Writes a flag as one byte, `1` or `0`.
    pub fn write_bool(&mut self, val: bool)
        ensures
            final(self)@ == old(self)@ + bool_bytes(val),
    {
        if val {
            self.buf.push(1);
        } else {
            self.buf.push(0);
        }
        assert(self.buf@ =~= old(self)@ + bool_bytes(val));
    }

    /// Writes a little-endian `u16`.
    pub fn write_u16(&mut self, val: u16)
        ensures
            final(self)@ == old(self)@ + le16(val),
    {
        reveal(le16);
        self.buf.push((val & 0xff) as u8);
        self.buf.push(((val >> 8) & 0xff) as u8);
        assert(self.buf@ =~= old(self)@ + le16(val));
    }

    /// Writes a little-endian `u32`.
    pub fn write_u32(&mut self, val: u32)
        ensures
            final(self)@ == old(self)@ + le32(val),
    {
        reveal(le32);
        self.buf.push((val & 0xff) as u8);
        self.buf.push(((val >> 8) & 0xff) as u8);
        self.buf.push(((val >> 16) & 0xff) as u8);
        self.buf.push(((val >> 24) & 0xff) as u8);
        assert(self.buf@ =~= old(self)@ + le32(val));
    }

    /// Writes a little-endian `u64`.
    pub fn write_u64(&mut self, val: u64)
        ensures
            final(self)@ == old(self)@ + le64(val),
    {
        reveal(le64);
        self.buf.push((val & 0xff) as u8);
        self.buf.push(((val >> 8) & 0xff) as u8);
        self.buf.push(((val >> 16) & 0xff) as u8);
        self.buf.push(((val >> 24) & 0xff) as u8);
        self.buf.push(((val >> 32) & 0xff) as u8);
        self.buf.push(((val >> 40) & 0xff) as u8);
        self.buf.push(((val >> 48) & 0xff) as u8);
        self.buf.push(((val >> 56) & 0xff) as u8);
        assert(self.buf@ =~= old(self)@ + le64(val));
    }

    /// Copies bytes as they are, with no length in front.
    pub fn write_data(&mut self, data: &[u8])
        ensures
            final(self)@ == old(self)@ + data@,
    {
        self.buf.extend_from_slice(data);
        assert(self.buf@ =~= old(self)@ + data@);
    }

    /// Writes a string: its length as a `u32`, then its bytes.
    pub fn write_string(&mut self, s: &[u8])
        ensures
            final(self)@ == old(self)@ + string_bytes(s@),
    {
        self.write_u32(low32(s.len()));
        if !s.is_empty() {
            self.write_data(s);
        }
        assert(self.buf@ =~= old(self)@ + string_bytes(s@));
    }

    /// Reserves a zeroed length field, one byte if `short` and four otherwise,
    /// and remembers where it is.
    pub fn start_container(&mut self, short: bool) -> (r: Placeholder)
        ensures
            final(self)@ == old(self)@ + zeros(
                if short {
                    1
                } else {
                    4
                },
            ),
            r.field() == old(self)@.len(),
            r.is_short() == short,
    {
        let length_offset: usize = self.buf.len();
        if short {
            self.buf.push(0);
        } else {
            self.buf.push(0);
            self.buf.push(0);
            self.buf.push(0);
            self.buf.push(0);
        }
        assert(self.buf@ =~= old(self)@ + zeros(
            if short {
                1
            } else {
                4
            },
        ));
        let data_start_offset: usize = self.buf.len();
        Placeholder { length_offset, data_start_offset, short_length: short }
    }

    /// Fills in a container's length field with the number of bytes written
    /// since its start. A single-byte field holds lengths below 256.
    pub fn close_container(&mut self, ph: Placeholder)
        requires
            ph.body() <= old(self)@.len(),
            ph.is_short() ==> old(self)@.len() - ph.body() < 256,
        ensures
            final(self)@ == patched(
                old(self)@,
                ph.field(),
                container_length(ph.is_short(), old(self)@.len() - ph.body()),
            ),
    {
        proof {
            use_type_invariant(&ph);
        }
        let length: usize = self.buf.len() - ph.data_start_offset;
        let at: usize = ph.length_offset;
        let ghost part = container_length(ph.is_short(), old(self)@.len() - ph.body());
        if ph.short_length {
            self.buf[at] = length as u8;
        } else {
            reveal(le32);
            let field: u32 = low32(length);
            self.buf[at] = (field & 0xff) as u8;
            self.buf[at + 1] = ((field >> 8) & 0xff) as u8;
            self.buf[at + 2] = ((field >> 16) & 0xff) as u8;
            self.buf[at + 3] = ((field >> 24) & 0xff) as u8;
        }
        assert(self.buf@ =~= patched(old(self)@, ph.field(), part));
    }

    /// Overwrites the eight bytes at `offset` with a little-endian `u64`. This
    /// is how a checksum gets into a message whose body is already written.
    pub fn patch_u64_at(&mut self, offset: usize, val: u64)
        requires
            offset + 8 <= old(self)@.len(),
        ensures
            final(self)@ == patched(old(self)@, offset as int, le64(val)),
    {
        reveal(le64);
        let len: usize = self.buf.len();
        assert(offset + 8 <= len);
        self.buf[offset] = (val & 0xff) as u8;
        self.buf[offset + 1] = ((val >> 8) & 0xff) as u8;
        self.buf[offset + 2] = ((val >> 16) & 0xff) as u8;
        self.buf[offset + 3] = ((val >> 24) & 0xff) as u8;
        self.buf[offset + 4] = ((val >> 32) & 0xff) as u8;
        self.buf[offset + 5] = ((val >> 40) & 0xff) as u8;
        self.buf[offset + 6] = ((val >> 48) & 0xff) as u8;
        self.buf[offset + 7] = ((val >> 56) & 0xff) as u8;
        assert(self.buf@ =~= patched(old(self)@, offset as int, le64(val)));
    }
}

/// What a [`Reader`] is about to read, and from where.
pub struct ReaderView {
    /// The buffer.
    pub buf: Seq<u8>,
    /// The read pointer.
    pub pos: int,
    /// Whether a read has run past the end.
    pub overshoot: bool,
}

impl ReaderView {
    /// `n` more bytes can be read.
    pub open spec fn can_read(self, n: int) -> bool {
        !self.overshoot && self.pos + n <= self.buf.len()
    }

    /// The next `n` bytes.
    pub open spec fn next(self, n: int) -> Seq<u8> {
        self.buf.subrange(self.pos, self.pos + n)
    }

    /// The reader with its pointer at `pos`.
    pub open spec fn at(self, pos: int) -> ReaderView {
        ReaderView { buf: self.buf, pos, overshoot: false }
    }

    /// The reader after a read has run past the end.
    pub open spec fn overshot(self) -> ReaderView {
        ReaderView { buf: self.buf, pos: self.pos, overshoot: true }
    }

    /// The reader after it was asked for `n` bytes.
    pub open spec fn after(self, n: int) -> ReaderView {
        if self.can_read(n) {
            self.at(self.pos + n)
        } else {
            self.overshot()
        }
    }

    /// The length of the string at the read pointer.
    pub open spec fn string_len(self) -> int {
        u32_at(self.buf, self.pos) as int
    }

    /// A whole string can be read.
    pub open spec fn can_read_string(self) -> bool {
        self.can_read(4) && self.can_read(4 + self.string_len())
    }
}

/// The view of an optional value.
pub open spec fn view_opt<T: View>(o: Option<T>) -> Option<T::V> {
    match o {
        Some(t) => Some(t@),
        None => None,
    }
}

/// Where a decoder gives up.
pub struct Halt {
    /// The read pointer.
    pub pos: int,
    /// A read ran past the end.
    pub overshoot: bool,
}

/// The field at `pos` runs past the end.
pub open spec fn short(pos: int) -> Halt {
    Halt { pos, overshoot: true }
}

/// What was read up to `pos` is refused.
pub open spec fn refused(pos: int) -> Halt {
    Halt { pos, overshoot: false }
}

/// What a decoder does with a reader. Where the bytes at the read pointer parse
/// as a value that ends at some offset, it gives the value and leaves the
/// pointer at that offset. Where they do not, it gives nothing and stops at
/// `halt`. Behind a read past the end it does nothing at all.
pub open spec fn decodes<T>(
    before: ReaderView,
    after: ReaderView,
    parsed: Option<(T, int)>,
    halt: Halt,
    got: Option<T>,
) -> bool {
    if before.overshoot {
        got is None && after == before
    } else {
        match parsed {
            Some((t, end)) => got == Some(t) && after == before.at(end),
            None => got is None && after == (ReaderView {
                buf: before.buf,
                pos: halt.pos,
                overshoot: halt.overshoot,
            }),
        }
    }
}

/// A cursor over a marshaled buffer.
///
/// Once a read runs past the end, every later read fails too, until the pointer
/// is put somewhere else.
pub struct Reader<'a> {
    buf: &'a [u8],
    pos: usize,
    overshoot: bool,
}

impl<'a> View for Reader<'a> {
    type V = ReaderView;

    closed spec fn view(&self) -> ReaderView {
        ReaderView { buf: self.buf@, pos: self.pos as int, overshoot: self.overshoot }
    }
}

impl<'a> Reader<'a> {
    /// The read pointer stays inside the buffer.
    #[verifier::type_invariant]
    pub open spec fn wf(self) -> bool {
        0 <= self@.pos <= self@.buf.len()
    }

    /// A reader at the start of `buf`.
    pub fn new(buf: &'a [u8]) -> (r: Reader<'a>)
        ensures
            r@ == (ReaderView { buf: buf@, pos: 0, overshoot: false }),
    {
        Reader { buf, pos: 0, overshoot: false }
    }

    /// Length of the buffer, as a length field would hold it.
    pub fn marshaled_length(&self) -> (r: u32)
        ensures
            r == self@.buf.len() % 0x1_0000_0000,
    {
        low32(self.buf.len())
    }

    /// Whether a read has run past the end.
    pub fn overshoot(&self) -> (r: bool)
        ensures
            r == self@.overshoot,
    {
        self.overshoot
    }

    /// Forgets that a read ran past the end.
    pub fn reset_overshoot(&mut self)
        ensures
            final(self)@ == old(self)@.at(old(self)@.pos),
    {
        proof {
            use_type_invariant(&*self);
        }
        self.overshoot = false;
    }

    /// The read pointer, as a `u32` field would hold it.
    pub fn read_pointer(&self) -> (r: u32)
        ensures
            r == self@.pos % 0x1_0000_0000,
    {
        low32(self.pos)
    }

    /// The read pointer.
    pub(crate) fn position(&self) -> (r: usize)
        ensures
            r == self@.pos,
    {
        self.pos
    }

    /// Puts the read pointer at `offset`. If that is past the end, the pointer
    /// goes back to 0 and the result is false.
    pub fn set_read_pointer(&mut self, offset: u32) -> (r: bool)
        ensures
            r == (offset <= old(self)@.buf.len()),
            final(self)@ == old(self)@.at(
                if r {
                    offset as int
                } else {
                    0
                },
            ),
    {
        proof {
            use_type_invariant(&*self);
        }
        self.overshoot = false;
        if offset as usize > self.buf.len() {
            self.pos = 0;
            false
        } else {
            self.pos = offset as usize;
            true
        }
    }

    /// Takes the read pointer back by `length` bytes. If it was no further than
    /// that, the pointer goes to 0 and the result is false.
    pub fn rewind_read_pointer(&mut self, length: u32) -> (r: bool)
        ensures
            r == (length < old(self)@.pos),
            final(self)@ == old(self)@.at(
                if r {
                    old(self)@.pos - length
                } else {
                    0
                },
            ),
    {
        proof {
            use_type_invariant(&*self);
        }
        self.overshoot = false;
        if length as usize >= self.pos {
            self.pos = 0;
            false
        } else {
            self.pos = self.pos - length as usize;
            true
        }
    }

    /// Takes the read pointer on by `length` bytes. If that overruns the
    /// buffer, the pointer goes to its end and the result is false.
    pub fn forward_read_pointer(&mut self, length: u32) -> (r: bool)
        ensures
            r == (old(self)@.pos + length <= old(self)@.buf.len()),
            final(self)@ == old(self)@.at(
                if r {
                    old(self)@.pos + length
                } else {
                    old(self)@.buf.len() as int
                },
            ),
    {
        proof {
            use_type_invariant(&*self);
        }
        self.overshoot = false;
        if length as usize > self.buf.len() - self.pos {
            self.pos = self.buf.len();
            false
        } else {
            self.pos = self.pos + length as usize;
            true
        }
    }

    /// Puts the read pointer back at the start.
    pub fn reset_read_pointer(&mut self)
        ensures
            final(self)@ == old(self)@.at(0),
    {
        self.pos = 0;
        self.overshoot = false;
    }

    /// Whether `len` more bytes can be read. If not, the reader is left as
    /// after a read past the end.
    pub fn test_read_remaining(&mut self, len: u32) -> (r: bool)
        ensures
            r == old(self)@.can_read(len as int),
            final(self)@ == (if r {
                old(self)@
            } else {
                old(self)@.overshot()
            }),
    {
        proof {
            use_type_invariant(&*self);
        }
        if self.overshoot || len as usize > self.buf.len() - self.pos {
            self.overshoot = true;
            false
        } else {
            true
        }
    }

    /// The guard that every read goes through.
    fn take(&mut self, len: usize) -> (r: Option<&'a [u8]>)
        ensures
            r is Some <==> old(self)@.can_read(len as int),
            r is Some ==> r->Some_0@ == old(self)@.next(len as int),
            final(self)@ == old(self)@.after(len as int),
    {
        proof {
            use_type_invariant(&*self);
        }
        if self.overshoot || len > self.buf.len() - self.pos {
            self.overshoot = true;
            return None;
        }
        let out = vstd::slice::slice_subrange(self.buf, self.pos, self.pos + len);
        self.pos = self.pos + len;
        Some(out)
    }

    /// Reads one byte.
    pub fn read_u8(&mut self) -> (r: Option<u8>)
        ensures
            r == (if old(self)@.can_read(1) {
                Some(old(self)@.buf[old(self)@.pos])
            } else {
                None
            }),
            final(self)@ == old(self)@.after(1),
    {
        match self.take(1) {
            Some(b) => Some(b[0]),
            None => None,
        }
    }

    /// Reads a flag. Any byte but zero is true.
    pub fn read_bool(&mut self) -> (r: Option<bool>)
        ensures
            r == (if old(self)@.can_read(1) {
                Some(old(self)@.buf[old(self)@.pos] != 0)
            } else {
                None
            }),
            final(self)@ == old(self)@.after(1),
    {
        match self.read_u8() {
            Some(b) => Some(b != 0),
            None => None,
        }
    }

    /// Reads a little-endian `u16`.
    pub fn read_u16(&mut self) -> (r: Option<u16>)
        ensures
            r == (if old(self)@.can_read(2) {
                Some(u16_at(old(self)@.buf, old(self)@.pos))
            } else {
                None
            }),
            final(self)@ == old(self)@.after(2),
    {
        reveal(u16_at);
        match self.take(2) {
            Some(b) => Some((b[0] as u16) | ((b[1] as u16) << 8)),
            None => None,
        }
    }

    /// Reads a little-endian `u32`.
    pub fn read_u32(&mut self) -> (r: Option<u32>)
        ensures
            r == (if old(self)@.can_read(4) {
                Some(u32_at(old(self)@.buf, old(self)@.pos))
            } else {
                None
            }),
            final(self)@ == old(self)@.after(4),
    {
        reveal(u32_at);
        match self.take(4) {
            Some(b) => Some(
                (b[0] as u32) | ((b[1] as u32) << 8) | ((b[2] as u32) << 16) | ((b[3] as u32)
                    << 24),
            ),
            None => None,
        }
    }

    /// Reads a little-endian `u64`.
    pub fn read_u64(&mut self) -> (r: Option<u64>)
        ensures
            r == (if old(self)@.can_read(8) {
                Some(u64_at(old(self)@.buf, old(self)@.pos))
            } else {
                None
            }),
            final(self)@ == old(self)@.after(8),
    {
        reveal(u64_at);
        match self.take(8) {
            Some(b) => Some(
                (b[0] as u64) | ((b[1] as u64) << 8) | ((b[2] as u64) << 16) | ((b[3] as u64) << 24)
                    | ((b[4] as u64) << 32) | ((b[5] as u64) << 40) | ((b[6] as u64) << 48) | ((
                b[7] as u64) << 56),
            ),
            None => None,
        }
    }

    /// Reads exactly `len` bytes.
    pub fn read_data(&mut self, len: u32) -> (r: Option<&'a [u8]>)
        ensures
            r is Some <==> old(self)@.can_read(len as int),
            r is Some ==> r->Some_0@ == old(self)@.next(len as int),
            final(self)@ == old(self)@.after(len as int),
    {
        self.take(len as usize)
    }

    /// Reads a string: its length as a `u32`, then its bytes. If it runs past the
    /// end, the pointer stays where it was.
    pub fn read_string(&mut self) -> (r: Option<&'a [u8]>)
        ensures
            r is Some <==> old(self)@.can_read_string(),
            r is Some ==> r->Some_0@ == old(self)@.at(old(self)@.pos + 4).next(
                old(self)@.string_len(),
            ),
            r is Some ==> final(self)@ == old(self)@.at(old(self)@.pos + 4 + old(self)@.string_len()),
            r is None ==> final(self)@ == old(self)@.overshot(),
    {
        proof {
            use_type_invariant(&*self);
        }
        let start: usize = self.pos;
        match self.read_u32() {
            Some(len) => {
                let s = self.take(len as usize);
                if s.is_none() {
                    self.pos = start;
                }
                s
            },
            None => None,
        }
    }

    /// The next `len` bytes, with the read pointer left where it is.
    pub fn peek_data_pointer(&mut self, len: u32) -> (r: Option<&'a [u8]>)
        ensures
            r is Some <==> old(self)@.can_read(len as int),
            r is Some ==> r->Some_0@ == old(self)@.next(len as int),
            final(self)@ == (if r is Some {
                old(self)@
            } else {
                old(self)@.overshot()
            }),
    {
        proof {
            use_type_invariant(&*self);
        }
        if self.overshoot || len as usize > self.buf.len() - self.pos {
            self.overshoot = true;
            return None;
        }
        Some(vstd::slice::slice_subrange(self.buf, self.pos, self.pos + len as usize))
    }
}

/// After a read past the end every read fails, whatever its length, and leaves
/// the reader as it is. Putting the pointer somewhere makes it read again.
pub proof fn law_overshoot_is_sticky(r: ReaderView, m: int, n: int, pos: int)
    requires
        0 <= m,
        0 <= n,
        !r.can_read(m),
    ensures
        r.after(m).overshoot,
        !r.after(m).can_read(n),
        r.after(m).after(n) == r.after(m),
        pos + n <= r.buf.len() ==> r.after(m).at(pos).can_read(n),
{
}

} // verus!
