//! Fixed-width bit vectors and their conversions.

use rand::Rng;
use vstd::prelude::*;
use vstd::std_specs::cmp::PartialEqSpecImpl;
use vstd::std_specs::convert::{FromSpecImpl, TryFromSpecImpl};

verus! {

/// The bits of `byte`, most significant first.
pub open spec fn byte_bits(byte: u8) -> Seq<bool> {
    seq![
        byte & 0x80 != 0,
        byte & 0x40 != 0,
        byte & 0x20 != 0,
        byte & 0x10 != 0,
        byte & 0x08 != 0,
        byte & 0x04 != 0,
        byte & 0x02 != 0,
        byte & 0x01 != 0,
    ]
}

/// The weight that the bit at `index` of an 8-bit vector carries: 128 for
/// index 0 down to 1 for index 7, and 0 past the end.
pub open spec fn bit_weight(index: int) -> int {
    if index == 0 {
        128
    } else if index == 1 {
        64
    } else if index == 2 {
        32
    } else if index == 3 {
        16
    } else if index == 4 {
        8
    } else if index == 5 {
        4
    } else if index == 6 {
        2
    } else if index == 7 {
        1
    } else {
        0
    }
}

/// The sum of the weights of the set bits among the first `count` of `bits`.
pub open spec fn bits_value(bits: Seq<bool>, count: int) -> int
    decreases count,
{
    if count <= 0 {
        0
    } else {
        bits_value(bits, count - 1) + if bits[count - 1] {
            bit_weight(count - 1)
        } else {
            0
        }
    }
}

/// The number that eight bits spell, most significant first.
pub open spec fn bits_byte(bits: Seq<bool>) -> int {
    bits_value(bits, 8)
}

/// For each byte, whether it is nonzero.
pub open spec fn nonzero_flags(bytes: Seq<u8>) -> Seq<bool> {
    Seq::new(bytes.len(), |i: int| bytes[i] != 0)
}

/// The text of a run of bits: `'1'` for a set bit and `'0'` for a clear one,
/// in index order.
pub open spec fn bit_chars(bits: Seq<bool>) -> Seq<char> {
    Seq::new(
        bits.len(),
        |i: int|
            if bits[i] {
                '1'
            } else {
                '0'
            },
    )
}

/// `bits` with the bit at `index` inverted.
pub open spec fn flipped(bits: Seq<bool>, index: int) -> Seq<bool> {
    bits.update(index, !bits[index])
}

/// A vector of exactly `SIZE` bits, index 0 first.
#[derive(Debug, Eq)]
pub struct BitVector<const SIZE: usize>(Vec<bool>);

impl<const SIZE: usize> View for BitVector<SIZE> {
    type V = Seq<bool>;

    closed spec fn view(&self) -> Seq<bool> {
        self.0@
    }
}

impl<const SIZE: usize> BitVector<SIZE> {
    /// Every vector holds exactly `SIZE` bits.
    #[verifier::type_invariant]
    pub open spec fn has_size(&self) -> bool {
        self@.len() == SIZE
    }

    /// Overwrites the bit at `index`.
    pub fn set(&mut self, index: usize, bit: bool)
        requires
            index < SIZE,
        ensures
            final(self)@ == old(self)@.update(index as int, bit),
    {
        proof {
            use_type_invariant(&*self);
        }
        self.0[index] = bit;
    }

    /// Renders the bits as a string of `'0'` and `'1'` in index order.
    pub fn to_string(&self) -> (text: String)
        ensures
            text@ == bit_chars(self@),
    {
        let mut text = String::new();
        let mut index: usize = 0;
        while index < self.0.len()
            invariant
                index <= self.0@.len(),
                text@ == bit_chars(self.0@.take(index as int)),
            decreases self.0@.len() - index,
        {
            proof {
                reveal_strlit("1");
                reveal_strlit("0");
            }
            if self.0[index] {
                text.append("1");
            } else {
                text.append("0");
            }
            index += 1;
            assert(text@ =~= bit_chars(self.0@.take(index as int)));
        }
        assert(self.0@.take(index as int) =~= self.0@);
        text
    }
}

impl<const SIZE: usize> Clone for BitVector<SIZE> {
    fn clone(&self) -> (copy: Self)
        ensures
            copy@ == self@,
    {
        proof {
            use_type_invariant(self);
        }
        let bits = self.0.clone();
        assert(bits@ =~= self.0@);
        BitVector(bits)
    }
}

impl<const SIZE: usize> PartialEq for BitVector<SIZE> {
    fn eq(&self, other: &Self) -> (equal: bool) {
        let equal = self.0 == other.0;
        proof {
            if equal {
                assert(self.0@ =~= other.0@);
            }
        }
        equal
    }
}

impl<const SIZE: usize> PartialEqSpecImpl for BitVector<SIZE> {
    open spec fn obeys_eq_spec() -> bool {
        true
    }

    open spec fn eq_spec(&self, other: &Self) -> bool {
        self@ == other@
    }
}

impl<const SIZE: usize> std::ops::Deref for BitVector<SIZE> {
    type Target = [bool];

    fn deref(&self) -> (bits: &[bool])
        ensures
            bits@ == self@,
            bits@.len() == SIZE,
    {
        proof {
            use_type_invariant(self);
        }
        self.0.as_slice()
    }
}

impl<const SIZE: usize> TryFrom<Vec<bool>> for BitVector<SIZE> {
    type Error = ();

    /// Accepts exactly `SIZE` bits and refuses any other length.
    fn try_from(value: Vec<bool>) -> (result: Result<Self, ()>)
        ensures
            value@.len() == SIZE ==> result is Ok && result->Ok_0@ == value@,
            value@.len() != SIZE ==> result is Err,
    {
        if value.len() != SIZE {
            return Err(());
        }
        Ok(BitVector(value))
    }
}

impl<const SIZE: usize> TryFromSpecImpl<Vec<bool>> for BitVector<SIZE> {
    open spec fn obeys_try_from_spec() -> bool {
        true
    }

    closed spec fn try_from_spec(value: Vec<bool>) -> Result<Self, ()> {
        if value@.len() == SIZE {
            Ok(BitVector(value))
        } else {
            Err(())
        }
    }
}

impl<const SIZE: usize> TryFrom<Vec<u8>> for BitVector<SIZE> {
    type Error = ();

    /// Accepts exactly `SIZE` bytes, reading each nonzero byte as a set bit,
    /// and refuses any other length.
    fn try_from(value: Vec<u8>) -> (result: Result<Self, ()>)
        ensures
            value@.len() == SIZE ==> result is Ok && result->Ok_0@ == nonzero_flags(value@),
            value@.len() != SIZE ==> result is Err,
    {
        if value.len() != SIZE {
            return Err(());
        }
        let mut bits: Vec<bool> = Vec::new();
        let mut index: usize = 0;
        while index < value.len()
            invariant
                index <= value@.len(),
                bits@ == nonzero_flags(value@.take(index as int)),
            decreases value@.len() - index,
        {
            bits.push(value[index] != 0);
            index += 1;
            assert(bits@ =~= nonzero_flags(value@.take(index as int)));
        }
        assert(value@.take(index as int) =~= value@);
        BitVector::try_from(bits)
    }
}

/// The conversion builds a new vector, and two vectors that hold the same
/// bits need not be one value: what it returns is stated on `try_from`, over
/// the bits of the result.
impl<const SIZE: usize> TryFromSpecImpl<Vec<u8>> for BitVector<SIZE> {
    open spec fn obeys_try_from_spec() -> bool {
        false
    }

    closed spec fn try_from_spec(value: Vec<u8>) -> Result<Self, ()> {
        arbitrary()
    }
}

impl From<u8> for BitVector<8> {
    /// Expands a byte into its eight bits, most significant first.
    fn from(item: u8) -> (vector: Self)
        ensures
            vector@ == byte_bits(item),
            bits_byte(vector@) == item,
    {
        proof {
            lemma_byte_round_trip(item);
        }
        let mut item = item;
        let ghost byte = item;
        let mut buf: Vec<bool> = Vec::new();
        let mut count: u8 = 0;
        assert(byte << 0u8 == byte) by (bit_vector);
        while count < 8
            invariant
                count <= 8,
                item == byte << count,
                buf@ == byte_bits(byte).take(count as int),
            decreases 8 - count,
        {
            assert(((byte << count) & 128 != 0) == (byte & (0x80u8 >> count) != 0)
                && ((byte << count) << 1u8) == byte << ((count + 1) as u8)) by (bit_vector)
                requires
                    count < 8,
            ;
            assert(0x80u8 >> 0u8 == 0x80 && 0x80u8 >> 1u8 == 0x40 && 0x80u8 >> 2u8 == 0x20
                && 0x80u8 >> 3u8 == 0x10 && 0x80u8 >> 4u8 == 0x08 && 0x80u8 >> 5u8 == 0x04
                && 0x80u8 >> 6u8 == 0x02 && 0x80u8 >> 7u8 == 0x01) by (bit_vector);
            buf.push(item & 128 != 0);
            item <<= 1;
            count += 1;
            assert(buf@ =~= byte_bits(byte).take(count as int));
        }
        assert(byte_bits(byte).take(8) =~= byte_bits(byte));
        BitVector(buf)
    }
}

/// The conversion builds a new vector, and two vectors that hold the same
/// bits need not be one value: what it returns is stated on `from`, over the
/// bits of the result.
impl FromSpecImpl<u8> for BitVector<8> {
    open spec fn obeys_from_spec() -> bool {
        false
    }

    closed spec fn from_spec(item: u8) -> Self {
        arbitrary()
    }
}

impl<'a> From<&'a BitVector<8>> for u8 {
    /// Reads eight bits, most significant first, as a byte.
    fn from(val: &'a BitVector<8>) -> (byte: u8)
        ensures
            byte == bits_byte(val@),
            byte_bits(byte) == val@,
    {
        proof {
            use_type_invariant(val);
            lemma_bits_round_trip(val@);
        }
        let mut result = 0u8;
        let mut power: u8 = 128;
        let mut index: usize = 0;
        while index < 8
            invariant
                index <= 8,
                val.0@.len() == 8,
                power == bit_weight(index as int),
                result == bits_value(val.0@, index as int),
                result + 2 * power <= 256,
            decreases 8 - index,
        {
            if val.0[index] {
                result += power;
            }
            assert(power >> 1u8 == power / 2) by (bit_vector);
            power >>= 1;
            index += 1;
        }
        result
    }
}

impl<'a> FromSpecImpl<&'a BitVector<8>> for u8 {
    open spec fn obeys_from_spec() -> bool {
        true
    }

    open spec fn from_spec(val: &'a BitVector<8>) -> u8 {
        bits_byte(val@) as u8
    }
}

/// A byte survives expansion into bits and reading back.
pub proof fn lemma_byte_round_trip(byte: u8)
    ensures
        bits_byte(byte_bits(byte)) == byte,
{
    reveal_with_fuel(bits_value, 9);
    assert((if byte & 0x80 != 0 { 128int } else { 0 }) + (if byte & 0x40 != 0 { 64int } else { 0 })
        + (if byte & 0x20 != 0 { 32int } else { 0 }) + (if byte & 0x10 != 0 { 16int } else { 0 })
        + (if byte & 0x08 != 0 { 8int } else { 0 }) + (if byte & 0x04 != 0 { 4int } else { 0 })
        + (if byte & 0x02 != 0 { 2int } else { 0 }) + (if byte & 0x01 != 0 { 1int } else { 0 })
        == byte) by (bit_vector);
}

/// Eight bits survive reading as a byte and expansion back.
pub proof fn lemma_bits_round_trip(bits: Seq<bool>)
    requires
        bits.len() == 8,
    ensures
        0 <= bits_byte(bits) < 256,
        byte_bits(bits_byte(bits) as u8) == bits,
{
    reveal_with_fuel(bits_value, 9);
    let b0 = bits[0];
    let b1 = bits[1];
    let b2 = bits[2];
    let b3 = bits[3];
    let b4 = bits[4];
    let b5 = bits[5];
    let b6 = bits[6];
    let b7 = bits[7];
    let byte = bits_byte(bits) as u8;
    assert(byte == (if b0 { 128u8 } else { 0 }) + (if b1 { 64u8 } else { 0 }) + (if b2 { 32u8 } else { 0 })
        + (if b3 { 16u8 } else { 0 }) + (if b4 { 8u8 } else { 0 }) + (if b5 { 4u8 } else { 0 })
        + (if b6 { 2u8 } else { 0 }) + (if b7 { 1u8 } else { 0 }));
    assert((byte & 0x80 != 0) == b0 && (byte & 0x40 != 0) == b1 && (byte & 0x20 != 0) == b2
        && (byte & 0x10 != 0) == b3 && (byte & 0x08 != 0) == b4 && (byte & 0x04 != 0) == b5
        && (byte & 0x02 != 0) == b6 && (byte & 0x01 != 0) == b7) by (bit_vector)
        requires
            byte == (if b0 { 128u8 } else { 0 }) + (if b1 { 64u8 } else { 0 }) + (if b2 { 32u8 } else { 0 })
                + (if b3 { 16u8 } else { 0 }) + (if b4 { 8u8 } else { 0 }) + (if b5 { 4u8 } else { 0 })
                + (if b6 { 2u8 } else { 0 }) + (if b7 { 1u8 } else { 0 }),
    ;
    assert(byte_bits(byte) =~= bits);
}

/// `bits` with the bit at each of `positions` inverted, one after the other.
pub open spec fn flipped_all(bits: Seq<bool>, positions: Seq<usize>) -> Seq<bool>
    decreases positions.len(),
{
    if positions.len() == 0 {
        bits
    } else {
        flipped(flipped_all(bits, positions.drop_last()), positions.last() as int)
    }
}

/// How many positions below `bound` do not occur in `taken`.
pub open spec fn free_below(taken: Seq<usize>, bound: int) -> int
    decreases bound,
{
    if bound <= 0 {
        0
    } else {
        free_below(taken, bound - 1) + if taken.contains((bound - 1) as usize) {
            0int
        } else {
            1
        }
    }
}

/// With nothing taken, every position is free.
proof fn lemma_free_below_none(bound: int)
    requires
        0 <= bound,
    ensures
        free_below(Seq::<usize>::empty(), bound) == bound,
    decreases bound,
{
    if bound > 0 {
        lemma_free_below_none(bound - 1);
    }
}

/// Taking one more position leaves one free position fewer below any bound
/// above it, and as many below any other bound.
proof fn lemma_free_below_push(taken: Seq<usize>, position: usize, bound: int)
    requires
        0 <= bound <= usize::MAX,
        !taken.contains(position),
    ensures
        free_below(taken.push(position), bound) == free_below(taken, bound) - if position < bound {
            1int
        } else {
            0
        },
    decreases bound,
{
    if bound > 0 {
        lemma_free_below_push(taken, position, bound - 1);
        let more = taken.push(position);
        let here = (bound - 1) as usize;
        assert(more[taken.len() as int] == position);
        if taken.contains(here) {
            let i = choose|i: int| 0 <= i < taken.len() && taken[i] == here;
            assert(more[i] == here);
        }
        if more.contains(here) && here != position {
            let i = choose|i: int| 0 <= i < more.len() && more[i] == here;
            assert(taken[i] == here);
        }
    }
}

/// Of `length` positions, as many are free as have not been taken.
pub proof fn lemma_free_count(taken: Seq<usize>, length: int)
    requires
        0 <= length <= usize::MAX,
        taken.no_duplicates(),
        forall|i: int| 0 <= i < taken.len() ==> taken[i] < length,
    ensures
        free_below(taken, length) == length - taken.len(),
    decreases taken.len(),
{
    if taken.len() == 0 {
        assert(taken =~= Seq::<usize>::empty());
        lemma_free_below_none(length);
    } else {
        let rest = taken.drop_last();
        let last = taken.last();
        assert(rest.push(last) =~= taken);
        assert(!rest.contains(last)) by {
            if rest.contains(last) {
                let i = choose|i: int| 0 <= i < rest.len() && rest[i] == last;
                assert(taken[i] == taken[taken.len() - 1]);
            }
        }
        lemma_free_count(rest, length);
        lemma_free_below_push(rest, last, length);
    }
}

/// Inverts the bit at `index`.
pub fn flip_bit(buf: &mut [bool], index: usize)
    requires
        index < old(buf)@.len(),
    ensures
        final(buf)@ == flipped(old(buf)@, index as int),
{
    buf[index] = !buf[index];
}

/// Whether `position` occurs in `positions`.
pub fn holds_position(positions: &[usize], position: usize) -> (found: bool)
    ensures
        found == positions@.contains(position),
{
    let mut index: usize = 0;
    while index < positions.len()
        invariant
            index <= positions@.len(),
            forall|i: int| 0 <= i < index ==> positions@[i] != position,
        decreases positions@.len() - index,
    {
        if positions[index] == position {
            return true;
        }
        index += 1;
    }
    false
}

/// The free position that has exactly `rank` free positions below it, where
/// a position is free when it does not occur in `taken`.
pub fn nth_free_position(taken: &[usize], length: usize, rank: usize) -> (position: usize)
    requires
        rank < free_below(taken@, length as int),
    ensures
        position < length,
        !taken@.contains(position),
        free_below(taken@, position as int) == rank,
{
    let mut position: usize = 0;
    let mut remaining: usize = rank;
    loop
        invariant
            position < length,
            remaining + free_below(taken@, position as int) == rank,
            rank < free_below(taken@, length as int),
        decreases length - position,
    {
        if !holds_position(taken, position) {
            if remaining == 0 {
                return position;
            }
            remaining -= 1;
        }
        position += 1;
    }
}

/// A uniformly random index below `bound`, from `rand::Rng::gen_range` on
/// the generator that `rand::thread_rng` hands out. The call panics on an
/// empty range, so `bound` must be positive; all that is claimed of the
/// result is that it lies in the range. Nothing is claimed of how the
/// indices are distributed, nor of a system whose entropy source fails, on
/// which `rand::thread_rng` panics.
#[verifier::external_body]
fn random_index(bound: usize) -> (index: usize)
    requires
        bound > 0,
    ensures
        index < bound,
{
    rand::thread_rng().gen_range(0..bound)
}

/// A uniformly random position among those below `length` that `taken` does
/// not hold yet.
fn random_free_position(taken: &Vec<usize>, length: usize) -> (position: usize)
    requires
        taken@.no_duplicates(),
        forall|i: int| 0 <= i < taken@.len() ==> taken@[i] < length,
        taken@.len() < length,
    ensures
        position < length,
        !taken@.contains(position),
{
    proof {
        lemma_free_count(taken@, length as int);
    }
    let rank = random_index(length - taken.len());
    nth_free_position(taken, length, rank)
}

/// Inverts one bit of `buf`, chosen uniformly at random, and returns its
/// position.
pub fn break_one_bit(buf: &mut [bool]) -> (idx: usize)
    requires
        old(buf)@.len() > 0,
    ensures
        idx < old(buf)@.len(),
        final(buf)@ == flipped(old(buf)@, idx as int),
{
    let idx = random_index(buf.len());
    flip_bit(buf, idx);
    idx
}

/// Inverts two distinct bits of `buf`, chosen uniformly at random, and
/// returns their positions in the order in which they were chosen.
pub fn break_two_bits(buf: &mut [bool]) -> (positions: [usize; 2])
    requires
        old(buf)@.len() > 1,
    ensures
        positions@[0] < old(buf)@.len(),
        positions@[1] < old(buf)@.len(),
        positions@[0] != positions@[1],
        final(buf)@ == flipped(flipped(old(buf)@, positions@[0] as int), positions@[1] as int),
{
    let idx1 = random_index(buf.len());
    let mut taken: Vec<usize> = Vec::new();
    taken.push(idx1);
    let idx2 = random_free_position(&taken, buf.len());
    assert(taken@[0] == idx1);
    flip_bit(buf, idx1);
    flip_bit(buf, idx2);
    [idx1, idx2]
}

/// Inverts `n_bits` distinct bits of `buf`, chosen uniformly at random
/// without replacement, and returns their positions in the order in which
/// they were chosen.
pub fn break_n_bits(buf: &mut [bool], n_bits: usize) -> (broken: Vec<usize>)
    requires
        n_bits <= old(buf)@.len(),
    ensures
        broken@.len() == n_bits,
        forall|i: int| 0 <= i < n_bits ==> broken@[i] < old(buf)@.len(),
        broken@.no_duplicates(),
        final(buf)@ == flipped_all(old(buf)@, broken@),
{
    let mut broken: Vec<usize> = Vec::new();
    let mut count: usize = 0;
    while count < n_bits
        invariant
            count <= n_bits <= old(buf)@.len(),
            buf@.len() == old(buf)@.len(),
            broken@.len() == count,
            forall|i: int| 0 <= i < count ==> broken@[i] < buf@.len(),
            broken@.no_duplicates(),
            buf@ == flipped_all(old(buf)@, broken@),
        decreases n_bits - count,
    {
        let this_bit = random_free_position(&broken, buf.len());
        let ghost before = broken@;
        flip_bit(buf, this_bit);
        broken.push(this_bit);
        count += 1;
        proof {
            assert(broken@.drop_last() =~= before);
            assert forall|i: int, j: int|
                0 <= i < broken@.len() && 0 <= j < broken@.len() && i != j implies broken@[i]
                != broken@[j] by {
                if i < before.len() {
                    assert(before[i] == broken@[i]);
                }
                if j < before.len() {
                    assert(before[j] == broken@[j]);
                }
            }
        }
    }
    broken
}

} // verus!
