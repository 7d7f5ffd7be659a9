//! A single-track Gray code for an angle of 360 degrees: one track of marks
//! that nine sensors read, 40 degrees apart, such that every degree has a
//! nine-bit word of its own and one step changes one bit.
//!
//! The functions build the two tables that go with a track, from angle to
//! word and back, and test the two properties that make the track a Gray
//! code.

use bitintr::Popcnt;
use vstd::prelude::*;

verus! {

/// The number of positions on the track, one for each degree.
pub const TRACK_LENGTH: usize = 360;

/// The number of sensors around the track.
pub const SENSORS: usize = 9;

/// The distance from one sensor to the next, in positions.
pub const SENSOR_SPACING: usize = 40;

/// The number of words that nine sensors can read.
pub const CODES: usize = 512;

/// The byte that stands for a mark on the track, the digit one.
pub const MARK: u8 = 0x31;

/// A single-track Gray code for nine sensors at every 40 degrees, in steps
/// of one degree: a digit for each position, one for a mark.
pub const SINGLE_TRACK: &'static str = "001100000000000000000011111100111111100000011111000000011111000111111110011100000000000111100111001111110000011111100000000000000011110001111111111111111100000000000000000011111111100001100000000000000000000000000000000111111111111111111100011111000000000000000000000000001111111000000111100000000000000000111111111111111111111111111111111111111111111111111111";

/// Whether the sensor with number `sensor` stands over a mark when the
/// track is turned to `angle`.
pub open spec fn reads_mark(track: Seq<u8>, angle: int, sensor: int) -> bool {
    track[(angle + sensor * SENSOR_SPACING) % (TRACK_LENGTH as int)] == MARK
}

/// The word that the first `sensors` sensors read at `angle`: the sensor
/// with number `k` gives bit `k`.
pub open spec fn sensor_word(track: Seq<u8>, angle: int, sensors: nat) -> u16
    decreases sensors,
{
    if sensors == 0 {
        0
    } else {
        let bit: u16 = if reads_mark(track, angle, sensors - 1) {
            1
        } else {
            0
        };
        sensor_word(track, angle, (sensors - 1) as nat) | (bit << ((sensors - 1) as u16))
    }
}

/// Builds the table from angle to word: what the nine sensors read at each
/// of the 360 angles. A byte of the track that is [`MARK`] is a mark, every
/// other byte is none.
pub fn sensor_outputs(track: &[u8]) -> (table: Vec<u16>)
    requires
        track@.len() == TRACK_LENGTH,
    ensures
        table@.len() == TRACK_LENGTH,
        forall|angle: int|
            0 <= angle < TRACK_LENGTH ==> table@[angle] == sensor_word(
                track@,
                angle,
                SENSORS as nat,
            ),
        forall|angle: int| 0 <= angle < TRACK_LENGTH ==> table@[angle] < CODES,
{
    let mut table: Vec<u16> = Vec::new();
    let mut angle: usize = 0;
    while angle < TRACK_LENGTH
        invariant
            angle <= TRACK_LENGTH,
            track@.len() == TRACK_LENGTH,
            table@.len() == angle,
            forall|a: int|
                0 <= a < angle ==> table@[a] == sensor_word(track@, a, SENSORS as nat),
            forall|a: int| 0 <= a < angle ==> table@[a] < CODES,
        decreases TRACK_LENGTH - angle,
    {
        let mut output: u16 = 0;
        let mut sensor: u16 = 0;
        assert(0u16 < (1u16 << 0u16)) by (bit_vector);
        while sensor < SENSORS as u16
            invariant
                sensor <= SENSORS,
                angle < TRACK_LENGTH,
                track@.len() == TRACK_LENGTH,
                output == sensor_word(track@, angle as int, sensor as nat),
                output < (1u16 << sensor),
            decreases SENSORS - sensor,
        {
            let at = (angle + (sensor as usize) * SENSOR_SPACING) % TRACK_LENGTH;
            let bit: u16 = if track[at] == MARK {
                1
            } else {
                0
            };
            assert((output | (bit << sensor)) < (1u16 << ((sensor + 1) as u16))) by (bit_vector)
                requires
                    output < (1u16 << sensor),
                    bit <= 1,
                    sensor < 9,
            ;
            output = output | (bit << sensor);
            sensor += 1;
        }
        assert((1u16 << 9u16) == 512) by (bit_vector);
        table.push(output);
        angle += 1;
    }
    table
}

/// The number of bits that are set among the lowest `bits` bits of `x`.
pub open spec fn ones_below(x: u16, bits: nat) -> nat
    decreases bits,
{
    if bits == 0 {
        0
    } else {
        ones_below(x, (bits - 1) as nat) + if (x >> ((bits - 1) as u16)) & 1 == 1 {
            1nat
        } else {
            0nat
        }
    }
}

/// The number of bits that are set in `x`.
pub open spec fn count_ones(x: u16) -> nat {
    ones_below(x, 16)
}

/// Calls `bitintr::Popcnt::popcnt` on a `u16`. The contract claims what the
/// crate documents: the call counts the bits that are set in `x`.
#[verifier::external_body]
fn popcnt(x: u16) -> (r: u16)
    ensures
        r == count_ones(x),
{
    x.popcnt()
}

/// Whether a step from `angle` to the next angle, the last to the first,
/// changes exactly one bit of the word.
pub open spec fn step_changes_one_bit(table: Seq<u16>, angle: int) -> bool {
    count_ones(table[angle] ^ table[(angle + 1) % (TRACK_LENGTH as int)]) == 1
}

/// Tests the Gray property: from every angle to the next, and from the
/// last to the first, exactly one bit of the word changes.
pub fn steps_change_one_bit(table: &[u16]) -> (r: bool)
    requires
        table@.len() == TRACK_LENGTH,
    ensures
        r == forall|angle: int| 0 <= angle < TRACK_LENGTH ==> step_changes_one_bit(table@, angle),
{
    let mut a: usize = 0;
    while a < TRACK_LENGTH
        invariant
            a <= TRACK_LENGTH,
            table@.len() == TRACK_LENGTH,
            forall|angle: int| 0 <= angle < a ==> step_changes_one_bit(table@, angle),
        decreases TRACK_LENGTH - a,
    {
        let changed_bits = table[a] ^ table[(a + 1) % TRACK_LENGTH];
        if popcnt(changed_bits) != 1 {
            assert(!step_changes_one_bit(table@, a as int));
            return false;
        }
        a += 1;
    }
    true
}

/// The angle at which `code` is read, the last one where there are several.
pub open spec fn angle_of(table: Seq<u16>, code: int) -> Option<u16>
    decreases table.len(),
{
    if table.len() == 0 {
        None
    } else if table.last() == code {
        Some((table.len() - 1) as u16)
    } else {
        angle_of(table.drop_last(), code)
    }
}

/// Builds the table from word to angle: for each of the 512 words the
/// angle at which the sensors read it, or `None` for a word that they read
/// at no angle.
pub fn angle_lookup(table: &[u16]) -> (lookup: Vec<Option<u16>>)
    requires
        table@.len() == TRACK_LENGTH,
        forall|angle: int| 0 <= angle < TRACK_LENGTH ==> table@[angle] < CODES,
    ensures
        lookup@.len() == CODES,
        forall|code: int| 0 <= code < CODES ==> lookup@[code] == angle_of(table@, code),
{
    let mut lookup: Vec<Option<u16>> = Vec::new();
    let mut code: usize = 0;
    while code < CODES
        invariant
            code <= CODES,
            lookup@.len() == code,
            forall|c: int| 0 <= c < code ==> lookup@[c] == None::<u16>,
        decreases CODES - code,
    {
        lookup.push(None);
        code += 1;
    }
    let mut a: usize = 0;
    while a < TRACK_LENGTH
        invariant
            a <= TRACK_LENGTH,
            table@.len() == TRACK_LENGTH,
            forall|angle: int| 0 <= angle < TRACK_LENGTH ==> table@[angle] < CODES,
            lookup@.len() == CODES,
            forall|c: int| 0 <= c < CODES ==> lookup@[c] == angle_of(table@.take(a as int), c),
        decreases TRACK_LENGTH - a,
    {
        proof {
            assert(table@.take(a + 1).drop_last() =~= table@.take(a as int));
        }
        lookup[table[a] as usize] = Some(a as u16);
        a += 1;
    }
    proof {
        assert(table@.take(TRACK_LENGTH as int) =~= table@);
    }
    lookup
}

/// In a table that holds no word twice the lookup leads back from the word
/// at an angle to that angle, and it never leads to an angle at which
/// another word stands.
pub proof fn lemma_lookup_inverts(table: Seq<u16>, angle: int)
    requires
        table.len() <= 0x1_0000,
        0 <= angle < table.len(),
        table.no_duplicates(),
    ensures
        angle_of(table, table[angle] as int) == Some(angle as u16),
    decreases table.len(),
{
    if angle < table.len() - 1 {
        lemma_lookup_inverts(table.drop_last(), angle);
    }
}

/// What the lookup gives for a word is an angle at which the table holds
/// that word; it gives `None` only for a word that the table does not hold.
pub proof fn lemma_lookup_is_sound(table: Seq<u16>, code: int)
    requires
        table.len() <= 0x1_0000,
    ensures
        match angle_of(table, code) {
            Some(angle) => angle < table.len() && table[angle as int] == code,
            None => forall|a: int| 0 <= a < table.len() ==> table[a] != code,
        },
    decreases table.len(),
{
    if table.len() > 0 && table.last() != code {
        let head = table.drop_last();
        lemma_lookup_is_sound(head, code);
        match angle_of(head, code) {
            Some(angle) => {
                assert(head[angle as int] == table[angle as int]);
            },
            None => {
                assert forall|a: int| 0 <= a < table.len() implies table[a] != code by {
                    if a < head.len() {
                        assert(head[a] == table[a]);
                    }
                }
            },
        }
    }
}

/// No word stands before a smaller one.
pub open spec fn ascending(table: Seq<u16>) -> bool {
    forall|i: int, j: int| 0 <= i <= j < table.len() ==> table[i] <= table[j]
}

/// Calls `<[u16]>::sort`, the sort of std's slices, on the words of
/// `table`. The contract claims what std documents of it: afterwards the
/// table holds the words it held before, each as often as before, in
/// ascending order.
#[verifier::external_body]
fn sort_words(table: &mut Vec<u16>)
    ensures
        ascending(final(table)@),
        final(table)@.to_multiset() == old(table)@.to_multiset(),
{
    table.sort();
}

/// Two tables that hold the same words, each as often as the other, hold
/// a word twice or not together.
proof fn lemma_same_words_same_duplicates(a: Seq<u16>, b: Seq<u16>)
    requires
        a.to_multiset() == b.to_multiset(),
        a.no_duplicates(),
    ensures
        b.no_duplicates(),
{
    a.lemma_multiset_has_no_duplicates();
    b.lemma_multiset_has_no_duplicates_conv();
}

/// Whether the word at `angle` differs from the word at the next angle,
/// the last from the first.
pub open spec fn next_differs(table: Seq<u16>, angle: int) -> bool {
    table[angle] != table[(angle + 1) % (TRACK_LENGTH as int)]
}

/// In an ascending table in which no word equals the next, every word is
/// smaller than all that follow it.
proof fn lemma_strictly_ascending(table: Seq<u16>, i: int, j: int)
    requires
        table.len() == TRACK_LENGTH,
        ascending(table),
        forall|a: int| 0 <= a < TRACK_LENGTH ==> #[trigger] next_differs(table, a),
        0 <= i < j < table.len(),
    ensures
        table[i] < table[j],
    decreases j - i,
{
    assert(next_differs(table, j - 1));
    if i + 1 < j {
        lemma_strictly_ascending(table, i, j - 1);
    }
}

/// Sorts the table and tests that it holds no word twice.
///
/// The table comes back in ascending order, with the words it held before.
pub fn codes_are_distinct(table: &mut Vec<u16>) -> (r: bool)
    requires
        old(table)@.len() == TRACK_LENGTH,
    ensures
        r == old(table)@.no_duplicates(),
        ascending(final(table)@),
        final(table)@.to_multiset() == old(table)@.to_multiset(),
        final(table)@.len() == TRACK_LENGTH,
{
    sort_words(table);
    proof {
        old(table)@.to_multiset_ensures();
        table@.to_multiset_ensures();
    }
    let mut a: usize = 0;
    while a < TRACK_LENGTH
        invariant
            a <= TRACK_LENGTH,
            table@.len() == TRACK_LENGTH,
            ascending(table@),
            table@.to_multiset() == old(table)@.to_multiset(),
            forall|i: int| 0 <= i < a ==> #[trigger] next_differs(table@, i),
        decreases TRACK_LENGTH - a,
    {
        if table[a] == table[(a + 1) % TRACK_LENGTH] {
            proof {
                if old(table)@.no_duplicates() {
                    lemma_same_words_same_duplicates(old(table)@, table@);
                }
            }
            return false;
        }
        a += 1;
    }
    proof {
        assert forall|i: int, j: int|
            0 <= i < table@.len() && 0 <= j < table@.len() && i != j implies table@[i]
            != table@[j] by {
            if i < j {
                lemma_strictly_ascending(table@, i, j);
            } else {
                lemma_strictly_ascending(table@, j, i);
            }
        }
        lemma_same_words_same_duplicates(table@, old(table)@);
    }
    true
}

} // verus!
