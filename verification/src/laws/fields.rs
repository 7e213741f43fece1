//! Small fields, and where a reader stands.

use vstd::prelude::*;

use crate::bytes::{le32, u32_at};
use crate::marshal::{bool_bytes, container_length, patched, string_at, string_bytes, ReaderView};
use crate::source::{at_most, beyond};

verus! {

broadcast use crate::bytes::group_le_len;

/// A flag is one byte, which is 1 or 0.
pub proof fn law_flag_is_one_byte(flag: bool)
    ensures
        bool_bytes(flag).len() == 1,
        bool_bytes(flag)[0] == (if flag {
            1u8
        } else {
            0u8
        }),
{
}

/// A string is its length and its bytes.
pub proof fn law_string_is_length_and_bytes(s: Seq<u8>, i: int)
    requires
        s.len() <= 0xffff_ffff,
    ensures
        string_bytes(s).len() == 4 + s.len(),
        string_bytes(s).take(4) == le32(s.len() as u32),
        0 <= i < s.len() ==> string_bytes(s)[4 + i] == s[i],
{
    assert(string_bytes(s).take(4) =~= le32(s.len() as u32));
}

/// A string can be read where its length and all its bytes are there, and what is
/// read are those bytes.
pub proof fn law_string_is_read_if_it_is_there(s: Seq<u8>, pos: int)
    requires
        0 <= pos,
    ensures
        pos + 4 > s.len() ==> string_at(s, pos) is None,
        pos + 4 <= s.len() && pos + 4 + u32_at(s, pos) > s.len() ==> string_at(s, pos) is None,
        pos + 4 <= s.len() && pos + 4 + u32_at(s, pos) <= s.len() ==> string_at(s, pos) == Some(
            (s.subrange(pos + 4, pos + 4 + u32_at(s, pos)), pos + 4 + u32_at(s, pos)),
        ),
{
}

/// Replacing bytes leaves all others where they are.
pub proof fn law_patch_replaces_bytes(s: Seq<u8>, pos: int, part: Seq<u8>, i: int)
    requires
        0 <= pos,
        pos + part.len() <= s.len(),
        0 <= i < s.len(),
    ensures
        patched(s, pos, part).len() == s.len(),
        patched(s, pos, part)[i] == (if pos <= i < pos + part.len() {
            part[i - pos]
        } else {
            s[i]
        }),
{
}

/// The length field of a container is one byte or four, and holds the length.
pub proof fn law_container_holds_its_length(len: int)
    requires
        0 <= len,
    ensures
        len <= 0xff ==> container_length(true, len) == seq![len as u8],
        len <= 0xffff_ffff ==> container_length(false, len) == le32(len as u32),
{
}

/// A reader gives out bytes as long as there are enough, and goes on behind them.
/// Asked for more it stays where it is, and from then on gives out nothing.
pub proof fn law_reader_goes_on_or_stops(r: ReaderView, n: int, m: int)
    requires
        0 <= r.pos <= r.buf.len(),
        0 <= n,
        0 <= m,
    ensures
        ({
            let after = r.after(n);
            let there = !r.overshoot && r.pos + n <= r.buf.len();
            &&& r.can_read(n) == there
            &&& after.buf == r.buf
            &&& there ==> after.pos == r.pos + n && !after.overshoot
            &&& there ==> r.next(n) == r.buf.subrange(r.pos, r.pos + n)
            &&& !there ==> after.pos == r.pos && after.overshoot && !after.can_read(m)
        }),
{
}

/// A reader gives out a string if its length and all its bytes are there. Setting
/// its pointer lets it go on after it was asked for too much.
pub proof fn law_reader_reads_whole_strings(r: ReaderView, pos: int)
    requires
        0 <= r.pos <= r.buf.len(),
    ensures
        r.can_read_string() <==> !r.overshoot && r.pos + 4 <= r.buf.len() && r.pos + 4 + u32_at(
            r.buf,
            r.pos,
        ) <= r.buf.len(),
        r.string_len() == u32_at(r.buf, r.pos),
        r.at(pos) == (ReaderView { buf: r.buf, pos, overshoot: false }),
        r.overshot() == (ReaderView { buf: r.buf, pos: r.pos, overshoot: true }),
{
}

/// Bytes are the first of them and then the rest.
pub proof fn law_first_and_rest(s: Seq<u8>, n: int)
    requires
        0 <= n,
    ensures
        at_most(s, n) + beyond(s, n) == s,
        at_most(s, n).len() == (if n < s.len() {
            n
        } else {
            s.len() as int
        }),
{
    assert(at_most(s, n) + beyond(s, n) =~= s);
}

} // verus!
