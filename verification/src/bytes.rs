//! Little-endian integers and byte ranges inside a buffer.

use vstd::prelude::*;

verus! {

/// The unsigned 32-bit integer that the four bytes at `offset` encode,
/// least significant byte first.
pub open spec fn spec_u32_at(s: Seq<u8>, offset: int) -> u32 {
    (s[offset] as int + 256 * (s[offset + 1] as int) + 65536 * (s[offset + 2] as int) + 16777216
        * (s[offset + 3] as int)) as u32
}

/// `s` with the four bytes at `offset` replaced by the encoding of `value`.
pub open spec fn spec_put_u32(s: Seq<u8>, offset: int, value: u32) -> Seq<u8> {
    s.update(offset, (value % 256) as u8).update(offset + 1, ((value / 256) % 256) as u8).update(
        offset + 2,
        ((value / 65536) % 256) as u8,
    ).update(offset + 3, (value / 16777216) as u8)
}

/// `dst` with the `len` bytes at `dst_offset` replaced by the `len` bytes of
/// `src` at `src_offset`.
pub open spec fn spec_copy(
    dst: Seq<u8>,
    dst_offset: int,
    src: Seq<u8>,
    src_offset: int,
    len: int,
) -> Seq<u8> {
    Seq::new(
        dst.len(),
        |i: int|
            if dst_offset <= i < dst_offset + len {
                src[src_offset + (i - dst_offset)]
            } else {
                dst[i]
            },
    )
}

/// Reading back an integer at the place where it was written gives that
/// integer; the length of the buffer stays.
pub proof fn lemma_put_then_get(s: Seq<u8>, offset: int, value: u32)
    requires
        0 <= offset,
        offset + 4 <= s.len(),
    ensures
        spec_u32_at(spec_put_u32(s, offset, value), offset) == value,
        spec_put_u32(s, offset, value).len() == s.len(),
{
    let b0 = (value % 256) as u8;
    let b1 = ((value / 256) % 256) as u8;
    let b2 = ((value / 65536) % 256) as u8;
    let b3 = (value / 16777216) as u8;
    let t = spec_put_u32(s, offset, value);
    assert(t[offset] == b0);
    assert(t[offset + 1] == b1);
    assert(t[offset + 2] == b2);
    assert(t[offset + 3] == b3);
    assert(b0 as int + 256 * (b1 as int) + 65536 * (b2 as int) + 16777216 * (b3 as int)
        == value as int);
}

/// Reads the little-endian integer at `offset`.
pub fn read_u32(buffer: &Vec<u8>, offset: usize) -> (value: u32)
    requires
        offset + 4 <= buffer.len(),
    ensures
        value == spec_u32_at(buffer@, offset as int),
{
    let b0: u32 = buffer[offset] as u32;
    let b1: u32 = buffer[offset + 1] as u32;
    let b2: u32 = buffer[offset + 2] as u32;
    let b3: u32 = buffer[offset + 3] as u32;
    b0 + 256 * b1 + 65536 * b2 + 16777216 * b3
}

/// Writes `value` at `offset`, least significant byte first.
pub fn write_u32(buffer: &mut Vec<u8>, offset: usize, value: u32)
    requires
        offset + 4 <= old(buffer).len(),
    ensures
        final(buffer)@ == spec_put_u32(old(buffer)@, offset as int, value),
        final(buffer).len() == old(buffer).len(),
{
    buffer[offset] = (value % 256) as u8;
    buffer[offset + 1] = ((value / 256) % 256) as u8;
    buffer[offset + 2] = ((value / 65536) % 256) as u8;
    buffer[offset + 3] = (value / 16777216) as u8;
}

/// Copies `len` bytes from `src` at `src_offset` into `dst` at `dst_offset`.
pub fn copy_bytes(
    dst: &mut Vec<u8>,
    dst_offset: usize,
    src: &Vec<u8>,
    src_offset: usize,
    len: usize,
)
    requires
        dst_offset + len <= old(dst).len(),
        src_offset + len <= src.len(),
    ensures
        final(dst)@ == spec_copy(old(dst)@, dst_offset as int, src@, src_offset as int, len as int),
        final(dst).len() == old(dst).len(),
{
    assert(dst@ =~= spec_copy(dst@, dst_offset as int, src@, src_offset as int, 0));
    let mut i: usize = 0;
    while i < len
        invariant
            i <= len,
            dst.len() == old(dst).len(),
            dst_offset + len <= dst.len(),
            src_offset + len <= src.len(),
            dst@ == spec_copy(old(dst)@, dst_offset as int, src@, src_offset as int, i as int),
        decreases len - i,
    {
        dst[dst_offset + i] = src[src_offset + i];
        i += 1;
        assert(dst@ =~= spec_copy(
            old(dst)@,
            dst_offset as int,
            src@,
            src_offset as int,
            i as int,
        ));
    }
}

/// A copy of the `len` bytes of `src` at `offset`.
pub fn read_bytes(src: &Vec<u8>, offset: usize, len: usize) -> (out: Vec<u8>)
    requires
        offset + len <= src.len(),
    ensures
        out@ == src@.subrange(offset as int, offset + len),
{
    let mut out: Vec<u8> = Vec::new();
    let mut i: usize = 0;
    while i < len
        invariant
            i <= len,
            offset + len <= src.len(),
            out@ == src@.subrange(offset as int, offset + i),
        decreases len - i,
    {
        out.push(src[offset + i]);
        i += 1;
        assert(out@ =~= src@.subrange(offset as int, offset + i));
    }
    out
}

/// Copies `len` bytes of `buffer` from `src_offset` to `dst_offset`. The two
/// ranges must not overlap.
pub fn move_bytes(buffer: &mut Vec<u8>, dst_offset: usize, src_offset: usize, len: usize)
    requires
        dst_offset + len <= old(buffer).len(),
        src_offset + len <= old(buffer).len(),
        dst_offset + len <= src_offset || src_offset + len <= dst_offset,
    ensures
        final(buffer)@ == spec_copy(
            old(buffer)@,
            dst_offset as int,
            old(buffer)@,
            src_offset as int,
            len as int,
        ),
        final(buffer).len() == old(buffer).len(),
{
    assert(buffer@ =~= spec_copy(buffer@, dst_offset as int, buffer@, src_offset as int, 0));
    let mut i: usize = 0;
    while i < len
        invariant
            i <= len,
            buffer.len() == old(buffer).len(),
            dst_offset + len <= buffer.len(),
            src_offset + len <= buffer.len(),
            dst_offset + len <= src_offset || src_offset + len <= dst_offset,
            buffer@ == spec_copy(
                old(buffer)@,
                dst_offset as int,
                old(buffer)@,
                src_offset as int,
                i as int,
            ),
        decreases len - i,
    {
        let byte = buffer[src_offset + i];
        buffer[dst_offset + i] = byte;
        i += 1;
        assert(buffer@ =~= spec_copy(
            old(buffer)@,
            dst_offset as int,
            old(buffer)@,
            src_offset as int,
            i as int,
        ));
    }
}

/// The first place from `from` on where `s` has the byte `byte`, if
/// `until_equal`, or another byte, if not; the length of `s` where there is
/// none.
pub open spec fn spec_scan(s: Seq<u8>, from: int, byte: u8, until_equal: bool) -> int
    decreases s.len() - from,
{
    if from >= s.len() {
        s.len() as int
    } else if (s[from] == byte) == until_equal {
        from
    } else {
        spec_scan(s, from + 1, byte, until_equal)
    }
}

/// The text of a buffer: its bytes before the first zero byte.
pub open spec fn spec_text(buffer: Seq<u8>) -> Seq<u8> {
    buffer.take(spec_scan(buffer, 0, 0, true))
}

/// The first place from `from` on, below `limit`, where `buffer` has the
/// byte `byte`, if `until_equal`, or another byte, if not; `limit` where
/// there is none.
pub fn scan(buffer: &[u8], limit: usize, from: usize, byte: u8, until_equal: bool) -> (at: usize)
    requires
        from <= limit <= buffer.len(),
    ensures
        from <= at <= limit,
        at == spec_scan(buffer@.take(limit as int), from as int, byte, until_equal),
{
    let ghost text = buffer@.take(limit as int);
    let mut i = from;
    while i < limit && (buffer[i] == byte) != until_equal
        invariant
            from <= i <= limit <= buffer.len(),
            text == buffer@.take(limit as int),
            spec_scan(text, from as int, byte, until_equal) == spec_scan(
                text,
                i as int,
                byte,
                until_equal,
            ),
        decreases limit - i,
    {
        assert(text[i as int] == buffer@[i as int]);
        i += 1;
    }
    proof {
        if i < limit {
            assert(text[i as int] == buffer@[i as int]);
        }
    }
    i
}

/// The length of the text of the buffer: the number of its bytes before the
/// first zero byte.
pub fn text_length(buffer: &[u8]) -> (len: usize)
    ensures
        len <= buffer.len(),
        buffer@.take(len as int) == spec_text(buffer@),
{
    let len = scan(buffer, buffer.len(), 0, 0, true);
    assert(buffer@.take(buffer.len() as int) =~= buffer@);
    len
}

} // verus!
