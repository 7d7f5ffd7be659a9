//! The CRC-16 of the PPP frame check sequence: generator
//! x^16 + x^12 + x^5 + 1, processed least significant bit first.

use vstd::prelude::*;

verus! {

/// The generator polynomial, bit-reversed for right-shifting arithmetic.
pub const CRC_POLY: u16 = 0x8408;

/// The seed a sender and a receiver start from.
pub const CRC_INIT: u16 = 0xffff;

/// What the checksum of a packet followed by its own check trailer comes to.
pub const CRC_RESIDUE: u16 = 0xf0b8;

/// One division step: shift out the lowest bit, subtract the generator if it was set.
pub open spec fn crc_shift(c: u16) -> u16 {
    if c & 1 == 1 {
        (c >> 1) ^ CRC_POLY
    } else {
        c >> 1
    }
}

/// `n` division steps in a row.
pub open spec fn crc_shifts(c: u16, n: nat) -> u16
    decreases n,
{
    if n == 0 {
        c
    } else {
        crc_shift(crc_shifts(c, (n - 1) as nat))
    }
}

/// The checksum state after one more byte.
pub open spec fn crc_update(c: u16, b: u8) -> u16 {
    crc_shifts(c ^ (b as u16), 8)
}

/// The checksum of `bytes` started from `seed`: a left fold of [`crc_update`].
pub open spec fn crc16_of(seed: u16, bytes: Seq<u8>) -> u16
    decreases bytes.len(),
{
    if bytes.len() == 0 {
        seed
    } else {
        crc_update(crc16_of(seed, bytes.drop_last()), bytes.last())
    }
}

/// The two bytes a sender appends to a packet whose checksum is `c`:
/// the complement of `c`, low byte first.
pub open spec fn check_trailer(c: u16) -> Seq<u8> {
    seq![((c ^ 0xffff) & 0xff) as u8, ((c ^ 0xffff) >> 8) as u8]
}

fn crc16_step(c: u16, b: u8) -> (r: u16)
    ensures
        r == crc_update(c, b),
{
    let mut x: u16 = c ^ (b as u16);
    let mut k: u8 = 0;
    while k < 8
        invariant
            k <= 8,
            x == crc_shifts(c ^ (b as u16), k as nat),
        decreases 8 - k,
    {
        x = if x & 1 == 1 {
            (x >> 1) ^ CRC_POLY
        } else {
            x >> 1
        };
        k += 1;
    }
    x
}

/// Computes the checksum of `bytes`, continuing from `seed`.
///
/// The result depends on the two arguments alone, so a long packet may be
/// summed piece by piece: see [`lemma_crc16_chunks`].
pub fn crc16(seed: u16, bytes: &[u8]) -> (r: u16)
    ensures
        r == crc16_of(seed, bytes@),
{
    let mut c: u16 = seed;
    let mut i: usize = 0;
    while i < bytes.len()
        invariant
            i <= bytes.len(),
            c == crc16_of(seed, bytes@.take(i as int)),
        decreases bytes.len() - i,
    {
        proof {
            assert(bytes@.take(i + 1).drop_last() =~= bytes@.take(i as int));
        }
        c = crc16_step(c, bytes[i]);
        i += 1;
    }
    proof {
        assert(bytes@.take(bytes.len() as int) =~= bytes@);
    }
    c
}

/// The two bytes to send behind a packet whose checksum is `crc`: the
/// complement of the checksum, low byte first. A receiver that sums the
/// packet and these two bytes ends on [`CRC_RESIDUE`]: see
/// [`lemma_crc16_residue`].
pub fn crc16_trailer(crc: u16) -> (r: [u8; 2])
    ensures
        r@ == check_trailer(crc),
{
    let check: u16 = crc ^ 0xffff;
    assert(check & 0xff < 0x100) by (bit_vector);
    assert(check >> 8 < 0x100) by (bit_vector);
    let r: [u8; 2] = [(check & 0xff) as u8, (check >> 8) as u8];
    assert(r@ =~= check_trailer(crc));
    r
}

/// Summing `a` and then `b`, the second from where the first ended, gives
/// the checksum of `a` followed by `b`.
pub proof fn lemma_crc16_chunks(seed: u16, a: Seq<u8>, b: Seq<u8>)
    ensures
        crc16_of(crc16_of(seed, a), b) == crc16_of(seed, a + b),
    decreases b.len(),
{
    if b.len() == 0 {
        assert(a + b =~= a);
    } else {
        lemma_crc16_chunks(seed, a, b.drop_last());
        assert((a + b).drop_last() =~= a + b.drop_last());
    }
}

/// After the low byte of the trailer the state no longer holds the low byte
/// of `c`: it is the high byte of `c`, xored with a constant.
proof fn lemma_trailer_low_byte(c: u16)
    ensures
        crc_update(c, check_trailer(c)[0]) == (c >> 8) ^ 0x0f78,
{
    let h = c >> 8;
    let lo = ((c ^ 0xffff) & 0xff) as u8;
    assert(h < 256) by (bit_vector)
        requires
            h == c >> 8,
    ;
    assert(c ^ (lo as u16) == (h << 8) ^ 0x00ff) by (bit_vector)
        requires
            h == c >> 8,
            lo == ((c ^ 0xffff) & 0xff) as u8,
    ;
    assert(crc_shift((h << 8) ^ 0x00ff) == (h << 7) ^ 0x8477) by (bit_vector)
        requires
            h < 256,
    ;
    assert(crc_shift((h << 7) ^ 0x8477) == (h << 6) ^ 0xc633) by (bit_vector)
        requires
            h < 256,
    ;
    assert(crc_shift((h << 6) ^ 0xc633) == (h << 5) ^ 0xe711) by (bit_vector)
        requires
            h < 256,
    ;
    assert(crc_shift((h << 5) ^ 0xe711) == (h << 4) ^ 0xf780) by (bit_vector)
        requires
            h < 256,
    ;
    assert(crc_shift((h << 4) ^ 0xf780) == (h << 3) ^ 0x7bc0) by (bit_vector)
        requires
            h < 256,
    ;
    assert(crc_shift((h << 3) ^ 0x7bc0) == (h << 2) ^ 0x3de0) by (bit_vector)
        requires
            h < 256,
    ;
    assert(crc_shift((h << 2) ^ 0x3de0) == (h << 1) ^ 0x1ef0) by (bit_vector)
        requires
            h < 256,
    ;
    assert(crc_shift((h << 1) ^ 0x1ef0) == (h << 0) ^ 0x0f78) by (bit_vector)
        requires
            h < 256,
    ;
    assert((h << 0) ^ 0x0f78 == h ^ 0x0f78) by (bit_vector);
    reveal_with_fuel(crc_shifts, 9);
}

/// The high byte of the trailer cancels what is left of `c`, and eight
/// steps on the constant that remains end in the residue.
proof fn lemma_trailer_high_byte(c: u16)
    ensures
        crc_update((c >> 8) ^ 0x0f78, check_trailer(c)[1]) == CRC_RESIDUE,
{
    let hi = ((c ^ 0xffff) >> 8) as u8;
    assert(((c >> 8) ^ 0x0f78) ^ (hi as u16) == 0x0f87) by (bit_vector)
        requires
            hi == ((c ^ 0xffff) >> 8) as u8,
    ;
    assert(crc_shift(0x0f87u16) == 0x83cbu16) by (bit_vector);
    assert(crc_shift(0x83cbu16) == 0xc5edu16) by (bit_vector);
    assert(crc_shift(0xc5edu16) == 0xe6feu16) by (bit_vector);
    assert(crc_shift(0xe6feu16) == 0x737fu16) by (bit_vector);
    assert(crc_shift(0x737fu16) == 0xbdb7u16) by (bit_vector);
    assert(crc_shift(0xbdb7u16) == 0xdad3u16) by (bit_vector);
    assert(crc_shift(0xdad3u16) == 0xe961u16) by (bit_vector);
    assert(crc_shift(0xe961u16) == 0xf0b8u16) by (bit_vector);
    reveal_with_fuel(crc_shifts, 9);
}

proof fn lemma_trailer_residue(c: u16)
    ensures
        crc16_of(c, check_trailer(c)) == CRC_RESIDUE,
{
    let t = check_trailer(c);
    assert(t.drop_last() =~= seq![t[0]]);
    assert(seq![t[0]].drop_last() =~= Seq::<u8>::empty());
    assert(crc16_of(c, Seq::<u8>::empty()) == c);
    assert(crc16_of(c, seq![t[0]]) == crc_update(c, t[0]));
    lemma_trailer_low_byte(c);
    lemma_trailer_high_byte(c);
}

/// A packet followed by the check trailer of its own checksum always sums
/// to [`CRC_RESIDUE`], whatever the packet and the seed.
pub proof fn lemma_crc16_residue(seed: u16, packet: Seq<u8>)
    ensures
        crc16_of(seed, packet + check_trailer(crc16_of(seed, packet))) == CRC_RESIDUE,
{
    let c = crc16_of(seed, packet);
    lemma_crc16_chunks(seed, packet, check_trailer(c));
    lemma_trailer_residue(c);
}

} // verus!
