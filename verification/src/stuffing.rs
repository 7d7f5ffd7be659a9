//! The arithmetic of byte stuffing: what a packet looks like on the wire and
//! what a stretch of wire bytes means, as functions on sequences.
//!
//! Nothing here runs. The executable code in the other modules is specified
//! in these terms, and the lemmas state how stuffing and unstuffing fit
//! together.

use crate::hdlc::{CONTROL_ESCAPE, ESCAPE_MASK, FLAG};
use vstd::prelude::*;

verus! {

/// The two byte values that may not travel as they are.
pub open spec fn is_reserved(b: u8) -> bool {
    b == FLAG || b == CONTROL_ESCAPE
}

/// The wire image of one packet byte.
pub open spec fn stuff_byte(b: u8) -> Seq<u8> {
    if is_reserved(b) {
        seq![CONTROL_ESCAPE, b ^ ESCAPE_MASK]
    } else {
        seq![b]
    }
}

/// The wire image of a packet, without the flags around it.
pub open spec fn stuff(packet: Seq<u8>) -> Seq<u8>
    decreases packet.len(),
{
    if packet.len() == 0 {
        Seq::empty()
    } else {
        stuff(packet.drop_last()) + stuff_byte(packet.last())
    }
}

/// A packet as it is sent: its wire image between two flags.
pub open spec fn encoded(packet: Seq<u8>) -> Seq<u8> {
    seq![FLAG] + stuff(packet) + seq![FLAG]
}

/// A wire frame without its first and its last byte.
pub open spec fn strip_flags(wire: Seq<u8>) -> Seq<u8> {
    wire.subrange(1, wire.len() - 1)
}

/// What reading a stretch of wire bytes from left to right has produced:
/// the packet bytes so far, and whether the last byte read was an escape
/// that still waits for the byte it applies to.
pub struct Unstuffed {
    pub bytes: Seq<u8>,
    pub escaped: bool,
}

/// Reads `wire` from left to right and undoes the stuffing. A flag byte is
/// not special here: unless it follows an escape it is copied like any
/// other byte.
pub open spec fn unstuff(wire: Seq<u8>) -> Unstuffed
    decreases wire.len(),
{
    if wire.len() == 0 {
        Unstuffed { bytes: Seq::empty(), escaped: false }
    } else {
        let before = unstuff(wire.drop_last());
        let b = wire.last();
        if before.escaped {
            Unstuffed { bytes: before.bytes.push(b ^ ESCAPE_MASK), escaped: false }
        } else if b == CONTROL_ESCAPE {
            Unstuffed { bytes: before.bytes, escaped: true }
        } else {
            Unstuffed { bytes: before.bytes.push(b), escaped: false }
        }
    }
}

/// The packet that `wire` decodes to, or `None` where `wire` ends on an
/// escape with nothing after it.
pub open spec fn unescape(wire: Seq<u8>) -> Option<Seq<u8>> {
    let u = unstuff(wire);
    if u.escaped {
        None
    } else {
        Some(u.bytes)
    }
}

/// Whether the byte at `i` is a flag that no escape precedes, reading from
/// the start of `wire`.
pub open spec fn bare_flag_at(wire: Seq<u8>, i: int) -> bool {
    0 <= i < wire.len() && wire[i] == FLAG && !unstuff(wire.take(i)).escaped
}

/// No flag in `wire` would end a frame.
pub open spec fn has_no_bare_flag(wire: Seq<u8>) -> bool {
    forall|i: int| 0 <= i < wire.len() ==> !bare_flag_at(wire, i)
}

/// What may stand between two flags as one frame: at least one byte, no flag
/// but an escaped one, and no escape left hanging at the end.
pub open spec fn is_frame_body(wire: Seq<u8>) -> bool {
    &&& wire.len() > 0
    &&& has_no_bare_flag(wire)
    &&& !unstuff(wire).escaped
}

/// Two escapes of the same byte cancel.
pub proof fn lemma_mask_twice(b: u8)
    ensures
        (b ^ ESCAPE_MASK) ^ ESCAPE_MASK == b,
{
    assert((b ^ 0x20) ^ 0x20 == b) by (bit_vector);
}

/// Neither reserved byte is reserved any more once it is masked.
pub proof fn lemma_masked_is_plain(b: u8)
    requires
        is_reserved(b),
    ensures
        !is_reserved(b ^ ESCAPE_MASK),
{
    assert(0x7eu8 ^ 0x20 == 0x5e) by (bit_vector);
    assert(0x7du8 ^ 0x20 == 0x5d) by (bit_vector);
}

/// Reading one byte more continues from where reading the bytes before it ended.
pub proof fn lemma_unstuff_push(wire: Seq<u8>, b: u8)
    ensures
        unstuff(wire.push(b)) == if unstuff(wire).escaped {
            (Unstuffed { bytes: unstuff(wire).bytes.push(b ^ ESCAPE_MASK), escaped: false })
        } else if b == CONTROL_ESCAPE {
            (Unstuffed { bytes: unstuff(wire).bytes, escaped: true })
        } else {
            (Unstuffed { bytes: unstuff(wire).bytes.push(b), escaped: false })
        },
{
    assert(wire.push(b).drop_last() =~= wire);
}

/// Wire bytes in which no bare flag stands stay so when one byte more
/// arrives, unless that byte is a flag that no escape precedes.
pub proof fn lemma_no_bare_flag_push(wire: Seq<u8>, b: u8)
    requires
        has_no_bare_flag(wire),
        b != FLAG || unstuff(wire).escaped,
    ensures
        has_no_bare_flag(wire.push(b)),
{
    let longer = wire.push(b);
    assert forall|i: int| 0 <= i < longer.len() implies !bare_flag_at(longer, i) by {
        if i < wire.len() {
            assert(longer.take(i) =~= wire.take(i));
            assert(!bare_flag_at(wire, i));
        } else {
            assert(longer.take(i) =~= wire);
        }
    }
}

/// Stuffing a packet that grew by one byte appends that byte's wire image.
pub proof fn lemma_stuff_push(packet: Seq<u8>, b: u8)
    ensures
        stuff(packet.push(b)) == stuff(packet) + stuff_byte(b),
{
    assert(packet.push(b).drop_last() =~= packet);
}

/// Stuffing goes byte by byte: the wire image of two packets joined is
/// their wire images joined.
pub proof fn lemma_stuff_concat(a: Seq<u8>, b: Seq<u8>)
    ensures
        stuff(a + b) == stuff(a) + stuff(b),
    decreases b.len(),
{
    if b.len() == 0 {
        assert(a + b =~= a);
        assert(stuff(a) + stuff(b) =~= stuff(a));
    } else {
        lemma_stuff_concat(a, b.drop_last());
        assert((a + b).drop_last() =~= a + b.drop_last());
        assert(stuff(a + b) =~= stuff(a) + stuff(b));
    }
}

/// The wire image of the first `i` bytes of a packet is no longer than
/// that of the whole packet.
pub proof fn lemma_stuff_prefix_len(packet: Seq<u8>, i: int)
    requires
        0 <= i <= packet.len(),
    ensures
        stuff(packet.take(i)).len() <= stuff(packet).len(),
{
    lemma_stuff_concat(packet.take(i), packet.skip(i));
    assert(packet.take(i) + packet.skip(i) =~= packet);
}

/// Reading on never takes back a byte: what the first `i` wire bytes
/// unstuff to is no longer than what the first `j` do, for `i <= j`.
pub proof fn lemma_unstuff_prefix_len(wire: Seq<u8>, i: int, j: int)
    requires
        0 <= i <= j <= wire.len(),
    ensures
        unstuff(wire.take(i)).bytes.len() <= unstuff(wire.take(j)).bytes.len(),
    decreases j - i,
{
    if i < j {
        lemma_unstuff_prefix_len(wire, i, j - 1);
        assert(wire.take(j).drop_last() =~= wire.take(j - 1));
    }
}

/// A stuffed packet never leaves an escape hanging, holds no flag byte at
/// all, and unstuffs to the packet it came from.
pub proof fn lemma_stuff_unstuff(packet: Seq<u8>)
    ensures
        unstuff(stuff(packet)) == (Unstuffed { bytes: packet, escaped: false }),
        forall|i: int| 0 <= i < stuff(packet).len() ==> stuff(packet)[i] != FLAG,
        packet.len() <= stuff(packet).len() <= 2 * packet.len(),
    decreases packet.len(),
{
    if packet.len() > 0 {
        let head = packet.drop_last();
        let b = packet.last();
        let w = stuff(head);
        lemma_stuff_unstuff(head);
        if is_reserved(b) {
            let m = b ^ ESCAPE_MASK;
            assert(stuff(packet) =~= w.push(CONTROL_ESCAPE).push(m));
            lemma_unstuff_push(w, CONTROL_ESCAPE);
            lemma_unstuff_push(w.push(CONTROL_ESCAPE), m);
            lemma_mask_twice(b);
            lemma_masked_is_plain(b);
        } else {
            assert(stuff(packet) =~= w.push(b));
            lemma_unstuff_push(w, b);
        }
        assert(head.push(b) =~= packet);
    } else {
        assert(packet =~= Seq::<u8>::empty());
    }
}

/// Decoding what lies between the flags of an encoded packet gives the
/// packet back, for every packet, the empty one included.
pub proof fn lemma_round_trip(packet: Seq<u8>)
    ensures
        unescape(strip_flags(encoded(packet))) == Some(packet),
{
    lemma_stuff_unstuff(packet);
    assert(strip_flags(encoded(packet)) =~= stuff(packet));
}

/// An encoded packet holds exactly two flag bytes: its first byte and its last.
pub proof fn lemma_encoded_flags(packet: Seq<u8>)
    ensures
        encoded(packet).len() == stuff(packet).len() + 2,
        forall|i: int|
            0 <= i < encoded(packet).len() ==> (#[trigger] encoded(packet)[i] == FLAG <==> (i == 0
                || i == encoded(packet).len() - 1)),
{
    lemma_stuff_unstuff(packet);
    let w = stuff(packet);
    assert forall|i: int| 0 <= i < encoded(packet).len() implies (#[trigger] encoded(packet)[i]
        == FLAG <==> (i == 0 || i == encoded(packet).len() - 1)) by {
        if 0 < i < encoded(packet).len() - 1 {
            assert(encoded(packet)[i] == w[i - 1]);
        }
    }
}

} // verus!
