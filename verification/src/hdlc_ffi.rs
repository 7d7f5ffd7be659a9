//! Encode, decode and frame search on whole buffers.
//!
//! These are the entry points in the shape that callers on the far side of
//! a foreign function boundary know: the caller brings the buffers, and a
//! failure is a small negative number. Nothing here keeps state between
//! calls.

use crate::hdlc::{
    flags, has_no_flag, lemma_stream_of_frames, payloads, wire_frames, FramerModel,
    CONTROL_ESCAPE, ESCAPE_MASK, FLAG,
};
use crate::stuffing::{
    bare_flag_at, encoded, has_no_bare_flag, is_frame_body, lemma_encoded_flags,
    lemma_no_bare_flag_push, lemma_stuff_prefix_len, lemma_stuff_push, lemma_stuff_unstuff,
    lemma_unstuff_prefix_len, lemma_unstuff_push, stuff, unescape, unstuff,
};
use vstd::prelude::*;

verus! {

/// The destination cannot hold the result.
pub const ERR_HDLC_BUFFER_TOO_SMALL: isize = -1;

/// The buffer holds no complete frame from the given offset on.
pub const ERR_HDLC_NO_FRAME_FOUND: isize = -2;

/// The bytes end on a control escape that nothing follows.
pub const ERR_HDLC_TRUNCATED_ESCAPE: isize = -3;

/// The index of the first flag in `buffer` at or after `from`.
pub open spec fn first_flag(buffer: Seq<u8>, from: int) -> Option<int>
    decreases buffer.len() - from,
{
    if from < 0 || from >= buffer.len() {
        None
    } else if buffer[from] == FLAG {
        Some(from)
    } else {
        first_flag(buffer, from + 1)
    }
}

/// How the scan of a frame body ends.
pub enum BodyEnd {
    /// At a flag that no escape precedes, at this index.
    Closed(int),
    /// At the end of the buffer, with no flag met.
    Open,
    /// At the end of the buffer, on an escape with nothing after it.
    Dangling,
}

/// Scans a frame body from index `at` on. An escape and the byte after it
/// are passed over together, so an escaped flag does not close the body.
pub open spec fn body_end(buffer: Seq<u8>, at: int) -> BodyEnd
    decreases buffer.len() - at,
{
    if at < 0 || at >= buffer.len() {
        BodyEnd::Open
    } else if buffer[at] == FLAG {
        BodyEnd::Closed(at)
    } else if buffer[at] == CONTROL_ESCAPE {
        if at + 1 >= buffer.len() {
            BodyEnd::Dangling
        } else {
            body_end(buffer, at + 2)
        }
    } else {
        body_end(buffer, at + 1)
    }
}

/// The first frame after the flag at index `open`, as offset and length of
/// what stands between its two flags. Where the next byte is a flag again
/// there is nothing between the two, and the search goes on from that one.
pub open spec fn search_from(buffer: Seq<u8>, open: int) -> Result<(int, int), isize>
    decreases buffer.len() - open,
{
    if 0 <= open && open + 1 < buffer.len() && buffer[open + 1] == FLAG {
        search_from(buffer, open + 1)
    } else {
        match body_end(buffer, open + 1) {
            BodyEnd::Closed(end) => Ok((open + 1, end - (open + 1))),
            BodyEnd::Open => Err(ERR_HDLC_NO_FRAME_FOUND),
            BodyEnd::Dangling => Err(ERR_HDLC_TRUNCATED_ESCAPE),
        }
    }
}

/// The first frame in `buffer` that opens at or after `start`: offset and
/// length of its body, or the reason why there is none.
pub open spec fn frame_search(buffer: Seq<u8>, start: int) -> Result<(int, int), isize> {
    match first_flag(buffer, start) {
        Some(open) => search_from(buffer, open),
        None => Err(ERR_HDLC_NO_FRAME_FOUND),
    }
}

/// Writes `packet` into `frame` as one frame: a flag, the stuffed packet,
/// a flag.
///
/// Returns the number of bytes written, which start at the front of
/// `frame`; the bytes behind them are left as they were. Fails with
/// [`ERR_HDLC_BUFFER_TOO_SMALL`], and leaves `frame` untouched, exactly
/// when `frame` is shorter than the frame to write. A buffer of twice the
/// packet's length and two is always long enough.
pub fn hdlc_encode(frame: &mut [u8], packet: &[u8]) -> (r: Result<usize, isize>)
    ensures
        if encoded(packet@).len() <= old(frame)@.len() {
            &&& r == Ok::<usize, isize>(encoded(packet@).len() as usize)
            &&& final(frame)@ == encoded(packet@) + old(frame)@.skip(encoded(packet@).len() as int)
        } else {
            &&& r == Err::<usize, isize>(ERR_HDLC_BUFFER_TOO_SMALL)
            &&& final(frame)@ == old(frame)@
        },
{
    let capacity = frame.len();
    let count = packet.len();
    if capacity < 2 {
        return Err(ERR_HDLC_BUFFER_TOO_SMALL);
    }
    let mut needed: usize = 2;
    let mut i: usize = 0;
    while i < count
        invariant
            count == packet.len(),
            i <= count,
            needed == stuff(packet@.take(i as int)).len() + 2,
            needed <= capacity,
            capacity == frame@.len(),
            frame@ == old(frame)@,
        decreases count - i,
    {
        let byte = packet[i];
        let width: usize = if byte == FLAG || byte == CONTROL_ESCAPE {
            2
        } else {
            1
        };
        proof {
            assert(packet@.take(i as int).push(byte) =~= packet@.take(i + 1));
            lemma_stuff_push(packet@.take(i as int), byte);
        }
        if capacity - needed < width {
            proof {
                lemma_stuff_prefix_len(packet@, i + 1);
            }
            return Err(ERR_HDLC_BUFFER_TOO_SMALL);
        }
        needed += width;
        i += 1;
    }
    proof {
        assert(packet@.take(count as int) =~= packet@);
    }
    frame[0] = FLAG;
    let mut at: usize = 1;
    let mut i: usize = 0;
    while i < count
        invariant
            count == packet.len(),
            i <= count,
            frame@.len() == capacity,
            needed == stuff(packet@).len() + 2,
            needed <= capacity,
            at == stuff(packet@.take(i as int)).len() + 1,
            at < needed,
            frame@.subrange(0, at as int) == seq![FLAG] + stuff(packet@.take(i as int)),
            frame@.skip(needed as int) == old(frame)@.skip(needed as int),
        decreases count - i,
    {
        let byte = packet[i];
        let ghost before = frame@;
        proof {
            assert(packet@.take(i as int).push(byte) =~= packet@.take(i + 1));
            lemma_stuff_push(packet@.take(i as int), byte);
            lemma_stuff_prefix_len(packet@, i + 1);
        }
        if byte == FLAG || byte == CONTROL_ESCAPE {
            frame[at] = CONTROL_ESCAPE;
            frame[at + 1] = byte ^ ESCAPE_MASK;
            proof {
                assert(frame@.subrange(0, at + 2) =~= before.subrange(0, at as int) + seq![
                    CONTROL_ESCAPE,
                    byte ^ ESCAPE_MASK,
                ]);
                assert(frame@.skip(needed as int) =~= before.skip(needed as int));
            }
            at += 2;
        } else {
            frame[at] = byte;
            proof {
                assert(frame@.subrange(0, at + 1) =~= before.subrange(0, at as int) + seq![byte]);
                assert(frame@.skip(needed as int) =~= before.skip(needed as int));
            }
            at += 1;
        }
        i += 1;
    }
    let ghost before = frame@;
    frame[at] = FLAG;
    proof {
        assert(packet@.take(count as int) =~= packet@);
        assert(frame@.subrange(0, at + 1) =~= before.subrange(0, at as int) + seq![FLAG]);
        assert(frame@.skip(needed as int) =~= before.skip(needed as int));
        assert(frame@ =~= frame@.subrange(0, at + 1) + frame@.skip(needed as int));
    }
    Ok(at + 1)
}

/// Encodes `packet` into a frame of its own: a flag, the stuffed packet, a
/// flag.
///
/// The frame is built in a buffer of twice the packet's length and two,
/// which holds every frame of that packet. The call fails, with
/// [`ERR_HDLC_BUFFER_TOO_SMALL`], only if that length is more than a
/// `usize` can say.
pub fn hdlc_encode_ffi(packet: &[u8]) -> (r: Result<Vec<u8>, isize>)
    ensures
        match r {
            Ok(frame) => frame@ == encoded(packet@) && 2 * packet@.len() + 2 <= usize::MAX,
            Err(code) => code == ERR_HDLC_BUFFER_TOO_SMALL && 2 * packet@.len() + 2 > usize::MAX,
        },
{
    let count = packet.len();
    if count > (usize::MAX - 2) / 2 {
        return Err(ERR_HDLC_BUFFER_TOO_SMALL);
    }
    let mut frame: Vec<u8> = vec![0u8; 2 * count + 2];
    proof {
        lemma_stuff_unstuff(packet@);
    }
    match hdlc_encode(frame.as_mut_slice(), packet) {
        Ok(written) => {
            frame.truncate(written);
            Ok(frame)
        },
        // The buffer holds the longest frame of the packet, so this is never taken.
        Err(code) => Err(code),
    }
}

/// Finds the first frame in `buffer`, looking from `start` on.
///
/// Returns the offset of the frame's first byte and the number of bytes
/// between its two flags, the flags themselves left out. The bytes are
/// still stuffed: [`hdlc_decode_ffi`] turns them into the packet.
///
/// Fails with [`ERR_HDLC_NO_FRAME_FOUND`] where there is no flag from
/// `start` on or no second flag to close the frame, and with
/// [`ERR_HDLC_TRUNCATED_ESCAPE`] where the buffer ends on a control escape
/// inside the frame. The buffer is only read, so a second call with the
/// same arguments gives the same answer.
pub fn hdlc_find_frame(buffer: &[u8], start: usize) -> (r: Result<(usize, usize), isize>)
    ensures
        match frame_search(buffer@, start as int) {
            Ok((offset, length)) => {
                &&& r == Ok::<(usize, usize), isize>((offset as usize, length as usize))
                &&& start < offset
                &&& 0 < length
                &&& offset + length < buffer.len()
            },
            Err(code) => r == Err::<(usize, usize), isize>(code),
        },
{
    let n = buffer.len();
    let mut open = start;
    while open < n && buffer[open] != FLAG
        invariant
            n == buffer.len(),
            start <= open,
            first_flag(buffer@, start as int) == first_flag(buffer@, open as int),
        decreases n - open,
    {
        open += 1;
    }
    if open >= n {
        return Err(ERR_HDLC_NO_FRAME_FOUND);
    }
    while open + 1 < n && buffer[open + 1] == FLAG
        invariant
            n == buffer.len(),
            start <= open < n,
            frame_search(buffer@, start as int) == search_from(buffer@, open as int),
        decreases n - open,
    {
        open += 1;
    }
    let offset = open + 1;
    let mut at = offset;
    while at < n
        invariant
            n == buffer.len(),
            start <= open < n,
            offset == open + 1,
            offset <= at <= n,
            offset < n ==> buffer@[offset as int] != FLAG,
            frame_search(buffer@, start as int) == search_from(buffer@, open as int),
            body_end(buffer@, offset as int) == body_end(buffer@, at as int),
        decreases n - at,
    {
        let byte = buffer[at];
        if byte == FLAG {
            return Ok((offset, at - offset));
        }
        if byte == CONTROL_ESCAPE {
            if at + 1 >= n {
                return Err(ERR_HDLC_TRUNCATED_ESCAPE);
            }
            at += 2;
        } else {
            at += 1;
        }
    }
    Err(ERR_HDLC_NO_FRAME_FOUND)
}

/// Finds the first frame in `buffer` and returns the bytes between its
/// flags, still stuffed.
///
/// Fails as [`hdlc_find_frame`] does when it searches from the start.
pub fn hdlc_find_frame_ffi(buffer: &[u8]) -> (r: Result<&[u8], isize>)
    ensures
        match frame_search(buffer@, 0) {
            Ok((offset, length)) => r matches Ok(frame) && frame@ == buffer@.subrange(
                offset,
                offset + length,
            ),
            Err(code) => r == Err::<&[u8], isize>(code),
        },
{
    match hdlc_find_frame(buffer, 0) {
        Ok((offset, length)) => Ok(&buffer[offset..offset + length]),
        Err(code) => Err(code),
    }
}

/// Undoes the stuffing of `frame`, which is what stands between two flags,
/// and writes the packet to the front of `packet`.
///
/// Returns the packet's length; the bytes of `packet` behind it are left
/// as they were. No byte of `frame` is taken for a delimiter: a flag in it
/// is copied like any other byte. Fails with
/// [`ERR_HDLC_TRUNCATED_ESCAPE`] where `frame` ends on a control escape,
/// and with [`ERR_HDLC_BUFFER_TOO_SMALL`] where `packet` is shorter than
/// the packet to write. A call that fails leaves `packet` untouched.
pub fn hdlc_decode_ffi(frame: &[u8], packet: &mut [u8]) -> (r: Result<usize, isize>)
    ensures
        match unescape(frame@) {
            None => {
                &&& r == Err::<usize, isize>(ERR_HDLC_TRUNCATED_ESCAPE)
                &&& final(packet)@ == old(packet)@
            },
            Some(bytes) => if bytes.len() <= old(packet)@.len() {
                &&& r == Ok::<usize, isize>(bytes.len() as usize)
                &&& final(packet)@ == bytes + old(packet)@.skip(bytes.len() as int)
            } else {
                &&& r == Err::<usize, isize>(ERR_HDLC_BUFFER_TOO_SMALL)
                &&& final(packet)@ == old(packet)@
            },
        },
{
    let count = frame.len();
    let capacity = packet.len();
    let mut length: usize = 0;
    let mut escaped = false;
    let mut i: usize = 0;
    while i < count
        invariant
            count == frame.len(),
            i <= count,
            length <= i,
            length == unstuff(frame@.take(i as int)).bytes.len(),
            escaped == unstuff(frame@.take(i as int)).escaped,
            capacity == packet@.len(),
            packet@ == old(packet)@,
        decreases count - i,
    {
        proof {
            assert(frame@.take(i + 1).drop_last() =~= frame@.take(i as int));
        }
        if escaped {
            length += 1;
            escaped = false;
        } else if frame[i] == CONTROL_ESCAPE {
            escaped = true;
        } else {
            length += 1;
        }
        i += 1;
    }
    proof {
        assert(frame@.take(count as int) =~= frame@);
    }
    if escaped {
        return Err(ERR_HDLC_TRUNCATED_ESCAPE);
    }
    if length > capacity {
        return Err(ERR_HDLC_BUFFER_TOO_SMALL);
    }
    let mut at: usize = 0;
    let mut i: usize = 0;
    while i < count
        invariant
            count == frame.len(),
            i <= count,
            capacity == packet@.len(),
            length == unstuff(frame@).bytes.len(),
            length <= capacity,
            at == unstuff(frame@.take(i as int)).bytes.len(),
            at <= length,
            escaped == unstuff(frame@.take(i as int)).escaped,
            packet@.subrange(0, at as int) == unstuff(frame@.take(i as int)).bytes,
            packet@.skip(length as int) == old(packet)@.skip(length as int),
        decreases count - i,
    {
        let byte = frame[i];
        let ghost before = packet@;
        proof {
            assert(frame@.take(i + 1).drop_last() =~= frame@.take(i as int));
            assert(frame@.take(count as int) =~= frame@);
            lemma_unstuff_prefix_len(frame@, i + 1, count as int);
        }
        if escaped {
            packet[at] = byte ^ ESCAPE_MASK;
            proof {
                assert(packet@.subrange(0, at + 1) =~= before.subrange(0, at as int).push(
                    byte ^ ESCAPE_MASK,
                ));
                assert(packet@.skip(length as int) =~= before.skip(length as int));
            }
            at += 1;
            escaped = false;
        } else if byte == CONTROL_ESCAPE {
            escaped = true;
        } else {
            packet[at] = byte;
            proof {
                assert(packet@.subrange(0, at + 1) =~= before.subrange(0, at as int).push(byte));
                assert(packet@.skip(length as int) =~= before.skip(length as int));
            }
            at += 1;
        }
        i += 1;
    }
    proof {
        assert(frame@.take(count as int) =~= frame@);
        assert(packet@ =~= packet@.subrange(0, at as int) + packet@.skip(length as int));
    }
    Ok(at)
}

/// What [`first_flag`] finds is a flag, and no flag stands before it from
/// `from` on; where it finds none, there is none.
pub proof fn lemma_first_flag(buffer: Seq<u8>, from: int)
    requires
        0 <= from,
    ensures
        match first_flag(buffer, from) {
            Some(open) => {
                &&& from <= open < buffer.len()
                &&& buffer[open] == FLAG
                &&& forall|j: int| from <= j < open ==> buffer[j] != FLAG
            },
            None => forall|j: int| from <= j < buffer.len() ==> buffer[j] != FLAG,
        },
    decreases buffer.len() - from,
{
    if from < buffer.len() && buffer[from] != FLAG {
        lemma_first_flag(buffer, from + 1);
    }
}

/// A buffer without a flag holds no frame, wherever the search starts.
pub proof fn lemma_search_without_flag(buffer: Seq<u8>, start: int)
    requires
        0 <= start,
        has_no_flag(buffer),
    ensures
        frame_search(buffer, start) == Err::<(int, int), isize>(ERR_HDLC_NO_FRAME_FOUND),
{
    lemma_first_flag(buffer, start);
}

/// The scan of a body, taken up at `at` after bytes that hold no bare flag
/// and leave no escape hanging, ends where the first bare flag of the body
/// stands, or at the end of the buffer where there is none.
proof fn lemma_body_scan(buffer: Seq<u8>, offset: int, at: int)
    requires
        0 <= offset <= at <= buffer.len(),
        has_no_bare_flag(buffer.subrange(offset, at)),
        !unstuff(buffer.subrange(offset, at)).escaped,
    ensures
        match body_end(buffer, at) {
            BodyEnd::Closed(end) => {
                &&& at <= end < buffer.len()
                &&& buffer[end] == FLAG
                &&& has_no_bare_flag(buffer.subrange(offset, end))
                &&& !unstuff(buffer.subrange(offset, end)).escaped
            },
            BodyEnd::Open => {
                &&& has_no_bare_flag(buffer.subrange(offset, buffer.len() as int))
                &&& !unstuff(buffer.subrange(offset, buffer.len() as int)).escaped
            },
            BodyEnd::Dangling => {
                &&& has_no_bare_flag(buffer.subrange(offset, buffer.len() as int))
                &&& unstuff(buffer.subrange(offset, buffer.len() as int)).escaped
            },
        },
    decreases buffer.len() - at,
{
    let read = buffer.subrange(offset, at);
    if at < buffer.len() && buffer[at] != FLAG {
        let byte = buffer[at];
        lemma_no_bare_flag_push(read, byte);
        lemma_unstuff_push(read, byte);
        assert(buffer.subrange(offset, at + 1) =~= read.push(byte));
        if byte == CONTROL_ESCAPE {
            if at + 1 < buffer.len() {
                let next = buffer[at + 1];
                lemma_no_bare_flag_push(read.push(byte), next);
                lemma_unstuff_push(read.push(byte), next);
                assert(buffer.subrange(offset, at + 2) =~= read.push(byte).push(next));
                lemma_body_scan(buffer, offset, at + 2);
            }
        } else {
            lemma_body_scan(buffer, offset, at + 1);
        }
    }
}

/// What the search from the flag at `open` comes to, in terms of the
/// bytes: after `open` the flags go on up to the index that is returned,
/// and the frame body, or what there is of one, starts there.
proof fn lemma_search_from(buffer: Seq<u8>, open: int) -> (offset: int)
    requires
        0 <= open < buffer.len(),
        buffer[open] == FLAG,
    ensures
        open < offset <= buffer.len(),
        buffer.subrange(open, offset) == flags((offset - open) as nat),
        offset < buffer.len() ==> buffer[offset] != FLAG,
        match search_from(buffer, open) {
            Ok((found, length)) => {
                &&& found == offset
                &&& 0 < length
                &&& offset + length < buffer.len()
                &&& buffer[offset + length] == FLAG
                &&& is_frame_body(buffer.subrange(offset, offset + length))
            },
            Err(code) => {
                &&& has_no_bare_flag(buffer.subrange(offset, buffer.len() as int))
                &&& code == if unstuff(buffer.subrange(offset, buffer.len() as int)).escaped {
                    ERR_HDLC_TRUNCATED_ESCAPE
                } else {
                    ERR_HDLC_NO_FRAME_FOUND
                }
            },
        },
    decreases buffer.len() - open,
{
    if open + 1 < buffer.len() && buffer[open + 1] == FLAG {
        let offset = lemma_search_from(buffer, open + 1);
        assert(buffer.subrange(open, offset) =~= flags((offset - open) as nat)) by {
            assert forall|j: int| 0 <= j < offset - open implies buffer.subrange(open, offset)[j]
                == FLAG by {
                if j > 0 {
                    assert(buffer.subrange(open + 1, offset)[j - 1] == FLAG);
                }
            }
        }
        offset
    } else {
        let offset = open + 1;
        assert(buffer.subrange(open, offset) =~= flags(1));
        assert(buffer.subrange(offset, offset) =~= Seq::<u8>::empty());
        lemma_body_scan(buffer, offset, offset);
        offset
    }
}

/// Whether a frame body may start at `offset` for a search from `start`:
/// from `start` up to `open` stands no flag, and from `open` up to `offset`
/// stand flags and nothing else, at least one.
pub open spec fn opens_at(buffer: Seq<u8>, start: int, open: int, offset: int) -> bool {
    &&& 0 <= start <= open < offset <= buffer.len()
    &&& has_no_flag(buffer.subrange(start, open))
    &&& buffer.subrange(open, offset) == flags((offset - open) as nat)
}

/// What the search comes to, said without the scan.
///
/// A search that succeeds has found a body that [`is_frame_body`] accepts,
/// with a flag right behind it; before the body stand flags, and before
/// those no flag from `start` on. A search fails for want of a frame where
/// no flag stands from `start` on, or where behind the first flags no bare
/// flag follows; it fails for a truncated escape where, behind the first
/// flags, no bare flag follows and the buffer ends on an escape that is
/// left hanging. No two of these hold of one buffer, so they say what the
/// search returns.
pub proof fn lemma_search_characterized(buffer: Seq<u8>, start: int)
    requires
        0 <= start,
    ensures
        match frame_search(buffer, start) {
            Ok((offset, length)) => {
                &&& exists|open: int| opens_at(buffer, start, open, offset)
                &&& 0 < length
                &&& offset + length < buffer.len()
                &&& buffer[offset + length] == FLAG
                &&& is_frame_body(buffer.subrange(offset, offset + length))
                &&& unescape(buffer.subrange(offset, offset + length)) is Some
            },
            Err(code) => {
                ||| {
                    &&& code == ERR_HDLC_NO_FRAME_FOUND
                    &&& forall|j: int| start <= j < buffer.len() ==> buffer[j] != FLAG
                }
                ||| exists|open: int, offset: int|
                    {
                        &&& #[trigger] opens_at(buffer, start, open, offset)
                        &&& has_no_bare_flag(buffer.subrange(offset, buffer.len() as int))
                        &&& code == if unstuff(
                            buffer.subrange(offset, buffer.len() as int),
                        ).escaped {
                            ERR_HDLC_TRUNCATED_ESCAPE
                        } else {
                            ERR_HDLC_NO_FRAME_FOUND
                        }
                    }
            },
        },
{
    lemma_first_flag(buffer, start);
    if let Some(open) = first_flag(buffer, start) {
        let offset = lemma_search_from(buffer, open);
        assert(has_no_flag(buffer.subrange(start, open)));
        assert(opens_at(buffer, start, open, offset));
    }
}

/// Where flags run from `open` up to `offset` after bytes that hold none,
/// `open` is the first flag from `start` on.
proof fn lemma_run_is_found(buffer: Seq<u8>, start: int, open: int, offset: int)
    requires
        opens_at(buffer, start, open, offset),
    ensures
        first_flag(buffer, start) == Some(open),
        buffer[open] == FLAG,
{
    lemma_first_flag(buffer, start);
    assert(buffer.subrange(open, offset)[0] == FLAG);
    assert forall|j: int| start <= j < open implies buffer[j] != FLAG by {
        assert(buffer.subrange(start, open)[j - start] == buffer[j]);
    }
}

/// A run of flags from `open` on that ends before a byte that is no flag,
/// or at the end of the buffer, ends in one place only.
proof fn lemma_same_run(buffer: Seq<u8>, open: int, one: int, other: int)
    requires
        0 <= open < one <= buffer.len(),
        open < other <= buffer.len(),
        buffer.subrange(open, one) == flags((one - open) as nat),
        buffer.subrange(open, other) == flags((other - open) as nat),
        one < buffer.len() ==> buffer[one] != FLAG,
        other < buffer.len() ==> buffer[other] != FLAG,
    ensures
        one == other,
{
    if one < other {
        assert(buffer.subrange(open, other)[one - open] == FLAG);
    } else if other < one {
        assert(buffer.subrange(open, one)[other - open] == FLAG);
    }
}

/// A flag at index `at` that no escape precedes, reading from `offset`, is
/// a bare flag of every stretch that starts at `offset` and reaches beyond
/// `at`.
proof fn lemma_bare_flag_in_longer(buffer: Seq<u8>, offset: int, at: int, end: int)
    requires
        0 <= offset <= at < end <= buffer.len(),
        buffer[at] == FLAG,
        !unstuff(buffer.subrange(offset, at)).escaped,
    ensures
        bare_flag_at(buffer.subrange(offset, end), at - offset),
{
    assert(buffer.subrange(offset, end).take(at - offset) =~= buffer.subrange(offset, at));
}

/// The converse of [`lemma_search_characterized`], for a frame: where a
/// frame stands as that lemma says, the search finds it, and no other.
pub proof fn lemma_frame_is_found(
    buffer: Seq<u8>,
    start: int,
    open: int,
    offset: int,
    length: int,
)
    requires
        opens_at(buffer, start, open, offset),
        0 < length,
        offset + length < buffer.len(),
        buffer[offset + length] == FLAG,
        is_frame_body(buffer.subrange(offset, offset + length)),
    ensures
        frame_search(buffer, start) == Ok::<(int, int), isize>((offset, length)),
{
    let end = offset + length;
    let body = buffer.subrange(offset, end);
    lemma_run_is_found(buffer, start, open, offset);
    assert(body[0] == buffer[offset]);
    assert(body.take(0) =~= Seq::<u8>::empty());
    assert(!bare_flag_at(body, 0));
    let found = lemma_search_from(buffer, open);
    lemma_same_run(buffer, open, offset, found);
    match search_from(buffer, open) {
        Ok((_, other)) => {
            if other < length {
                lemma_bare_flag_in_longer(buffer, offset, offset + other, end);
            } else if other > length {
                lemma_bare_flag_in_longer(buffer, offset, end, offset + other);
            }
        },
        Err(_) => {
            lemma_bare_flag_in_longer(buffer, offset, end, buffer.len() as int);
        },
    }
}

/// The converse of [`lemma_search_characterized`], for a failure: where
/// behind the first flags no bare flag follows, the search fails, and a
/// hanging escape at the end of the buffer decides how.
pub proof fn lemma_no_frame_is_found(buffer: Seq<u8>, start: int, open: int, offset: int)
    requires
        opens_at(buffer, start, open, offset),
        has_no_bare_flag(buffer.subrange(offset, buffer.len() as int)),
    ensures
        frame_search(buffer, start) == Err::<(int, int), isize>(
            if unstuff(buffer.subrange(offset, buffer.len() as int)).escaped {
                ERR_HDLC_TRUNCATED_ESCAPE
            } else {
                ERR_HDLC_NO_FRAME_FOUND
            },
        ),
{
    let rest = buffer.subrange(offset, buffer.len() as int);
    lemma_run_is_found(buffer, start, open, offset);
    if offset < buffer.len() {
        assert(rest[0] == buffer[offset]);
        assert(rest.take(0) =~= Seq::<u8>::empty());
        assert(!bare_flag_at(rest, 0));
    }
    let found = lemma_search_from(buffer, open);
    lemma_same_run(buffer, open, offset, found);
    match search_from(buffer, open) {
        Ok((_, length)) => {
            lemma_bare_flag_in_longer(buffer, offset, offset + length, buffer.len() as int);
        },
        Err(_) => {},
    }
}

/// The search and the streaming framer agree.
///
/// The frame that the search finds from `start` on is the first that a
/// fresh framer hands out when it is fed the buffer from `start` on: it
/// hands out the unstuffed body at the closing flag and nothing before.
/// Where the search finds no frame, whatever the reason, the framer hands
/// out nothing for all that is left of the buffer.
pub proof fn lemma_search_is_first_frame(buffer: Seq<u8>, start: int)
    requires
        0 <= start <= buffer.len(),
    ensures
        match frame_search(buffer, start) {
            Ok((offset, length)) => {
                &&& FramerModel::fresh().emitted(buffer.subrange(start, offset + length))
                    == Seq::<Seq<u8>>::empty()
                &&& FramerModel::fresh().emitted(buffer.subrange(start, offset + length + 1))
                    == seq![unstuff(buffer.subrange(offset, offset + length)).bytes]
            },
            Err(_) => FramerModel::fresh().emitted(buffer.skip(start)) == Seq::<Seq<u8>>::empty(),
        },
{
    let none = Seq::<u8>::empty();
    let no_bodies = Seq::<Seq<u8>>::empty();
    let no_idle = Seq::<nat>::empty();
    lemma_first_flag(buffer, start);
    match first_flag(buffer, start) {
        None => {
            assert(has_no_flag(buffer.skip(start)));
            lemma_stream_of_frames(none, 0, no_bodies, no_idle, none);
            lemma_stream_of_frames(buffer.skip(start), 0, no_bodies, no_idle, none);
            crate::hdlc::lemma_noise_is_skipped(FramerModel::fresh(), buffer.skip(start));
        },
        Some(open) => {
            let offset = lemma_search_from(buffer, open);
            let noise = buffer.subrange(start, open);
            let lead = (offset - open - 1) as nat;
            assert(buffer.subrange(open, offset) == flags(lead + 1));
            assert(wire_frames(no_bodies, no_idle) =~= none);
            assert(payloads(no_bodies) =~= no_bodies);
            match search_from(buffer, open) {
                Ok((found, length)) => {
                    let body = buffer.subrange(offset, offset + length);
                    lemma_stream_of_frames(noise, lead, no_bodies, no_idle, body);
                    assert(buffer.subrange(start, offset + length) =~= noise + flags(lead + 1)
                        + none + body);
                    let bodies = seq![body];
                    let idle = seq![0nat];
                    assert(bodies.drop_last() =~= no_bodies);
                    assert(idle.drop_last() =~= no_idle);
                    assert(wire_frames(bodies, idle) =~= body + flags(1));
                    assert(payloads(bodies) =~= seq![unstuff(body).bytes]);
                    lemma_stream_of_frames(noise, lead, bodies, idle, none);
                    assert(buffer.subrange(start, offset + length + 1) =~= noise + flags(lead + 1)
                        + (body + flags(1)) + none);
                },
                Err(_) => {
                    let rest = buffer.subrange(offset, buffer.len() as int);
                    lemma_stream_of_frames(noise, lead, no_bodies, no_idle, rest);
                    assert(buffer.skip(start) =~= noise + flags(lead + 1) + none + rest);
                },
            }
        },
    }
}

/// In the encoding of a packet that is not empty the search finds the
/// stuffed packet, right behind the first flag. The encoding of the empty
/// packet is two flags with nothing between them: no frame.
pub proof fn lemma_search_in_encoded(packet: Seq<u8>)
    ensures
        frame_search(encoded(packet), 0) == if packet.len() > 0 {
            Ok::<(int, int), isize>((1, stuff(packet).len() as int))
        } else {
            Err::<(int, int), isize>(ERR_HDLC_NO_FRAME_FOUND)
        },
{
    let wire = encoded(packet);
    let last = wire.len() - 1;
    lemma_encoded_flags(packet);
    lemma_stuff_unstuff(packet);
    assert(wire[0] == FLAG);
    assert(wire[last] == FLAG);
    assert(first_flag(wire, 0) == Some(0int));
    if packet.len() > 0 {
        assert(wire[1] != FLAG);
        assert(wire.subrange(1, 1) =~= Seq::<u8>::empty());
        lemma_body_scan(wire, 1, 1);
        assert(wire.subrange(1, last) =~= stuff(packet));
        match body_end(wire, 1) {
            BodyEnd::Closed(end) => {
                assert(wire[end] == FLAG);
            },
            _ => {
                let rest = wire.subrange(1, wire.len() as int);
                assert(rest.take(last - 1) =~= stuff(packet));
                assert(bare_flag_at(rest, last - 1));
            },
        }
    } else {
        assert(stuff(packet) =~= Seq::<u8>::empty());
        assert(wire.len() == 2);
        assert(search_from(wire, 1) == Err::<(int, int), isize>(ERR_HDLC_NO_FRAME_FOUND)) by {
            assert(body_end(wire, 2) == BodyEnd::Open);
        }
    }
}

} // verus!
