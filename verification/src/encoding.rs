//! The Hamming(13,8) codec: eight information bits, four check bits and one
//! checksum bit over the other twelve. Decoding corrects any single wrong
//! bit and detects any two.

use crate::bits::{flipped, holds_position, BitVector};
use vstd::prelude::*;
use vstd::slice::slice_to_vec;
use vstd::std_specs::cmp::PartialEqSpecImpl;

verus! {

/// The positions of the four check bits in a codeword.
pub const CHECK_POSITIONS: [usize; 4] = [0, 1, 3, 7];

/// The position of the checksum bit in a codeword.
pub const CHECKSUM_POSITION: usize = 12;

/// Eight information bits, most significant first.
pub type InfoVector = BitVector<8>;

/// A codeword of thirteen bits.
pub type CodeVector = BitVector<13>;

/// What the bit at a position of a codeword is for.
#[derive(Clone, Copy, Debug, PartialEq, Eq, Structural)]
pub enum BitRole {
    /// One of the four check bits.
    Check,
    /// The checksum bit.
    Checksum,
    /// One of the eight information bits.
    Info,
}

/// The role of each position: 0, 1, 3 and 7 hold check bits, 12 holds the
/// checksum bit, and every other position holds an information bit.
pub open spec fn role_of(position: int) -> BitRole {
    if position == 0 || position == 1 || position == 3 || position == 7 {
        BitRole::Check
    } else if position == 12 {
        BitRole::Checksum
    } else {
        BitRole::Info
    }
}

/// The position in a codeword of information bit `k`.
pub open spec fn info_position(k: int) -> int {
    if k == 0 {
        2
    } else if k == 1 {
        4
    } else if k == 2 {
        5
    } else if k == 3 {
        6
    } else if k == 4 {
        8
    } else if k == 5 {
        9
    } else if k == 6 {
        10
    } else {
        11
    }
}

/// Whether an odd number of the first `count` bits are set.
pub open spec fn parity_upto(bits: Seq<bool>, count: int) -> bool
    decreases count,
{
    if count <= 0 {
        false
    } else {
        parity_upto(bits, count - 1) != bits[count - 1]
    }
}

/// Whether an odd number of the bits are set.
pub open spec fn parity(bits: Seq<bool>) -> bool {
    parity_upto(bits, bits.len() as int)
}

/// The value that the check bit at position 0 must have.
pub open spec fn check_bit_0(code: Seq<bool>) -> bool {
    code[2] != (code[4] != (code[6] != (code[8] != code[10])))
}

/// The value that the check bit at position 1 must have.
pub open spec fn check_bit_1(code: Seq<bool>) -> bool {
    code[2] != (code[5] != (code[6] != (code[9] != code[10])))
}

/// The value that the check bit at position 3 must have.
pub open spec fn check_bit_3(code: Seq<bool>) -> bool {
    code[4] != (code[5] != (code[6] != code[11]))
}

/// The value that the check bit at position 7 must have.
pub open spec fn check_bit_7(code: Seq<bool>) -> bool {
    code[8] != (code[9] != (code[10] != code[11]))
}

/// `code` with its four check bits recomputed from the information bits.
pub open spec fn with_check_bits(code: Seq<bool>) -> Seq<bool> {
    code.update(0, check_bit_0(code)).update(1, check_bit_1(code)).update(
        3,
        check_bit_3(code),
    ).update(7, check_bit_7(code))
}

/// `code` with its four check bits recomputed and, at position 12, the
/// parity of the twelve bits before it, recomputed check bits included.
pub open spec fn with_checks(code: Seq<bool>) -> Seq<bool> {
    let checked = with_check_bits(code);
    checked.update(12, parity_upto(checked, 12))
}

/// The eight information bits laid out in a codeword whose check bits and
/// checksum bit are still clear.
pub open spec fn spread_info(info: Seq<bool>) -> Seq<bool> {
    seq![
        false,
        false,
        info[0],
        false,
        info[1],
        info[2],
        info[3],
        false,
        info[4],
        info[5],
        info[6],
        info[7],
        false,
    ]
}

/// The eight information bits that a codeword carries.
pub open spec fn info_bits(code: Seq<bool>) -> Seq<bool> {
    seq![code[2], code[4], code[5], code[6], code[8], code[9], code[10], code[11]]
}

/// The codeword of eight information bits.
pub open spec fn encode_spec(info: Seq<bool>) -> Seq<bool> {
    with_checks(spread_info(info))
}

/// The classic syndrome of thirteen received bits: the sum of the weights 1,
/// 2, 4 and 8 of the check bits at positions 0, 1, 3 and 7 that disagree with
/// the information bits. Of a codeword with one wrong bit among the first
/// twelve, it is that bit's position plus one.
pub open spec fn syndrome(code: Seq<bool>) -> int {
    (if code[0] != check_bit_0(code) {
        1int
    } else {
        0
    }) + (if code[1] != check_bit_1(code) {
        2int
    } else {
        0
    }) + (if code[3] != check_bit_3(code) {
        4int
    } else {
        0
    }) + (if code[7] != check_bit_7(code) {
        8int
    } else {
        0
    })
}

/// What decoding a codeword gives.
#[derive(Debug, Eq)]
pub enum DecodeResult {
    /// The codeword was consistent; these are its information bits.
    Intact(InfoVector),
    /// One bit, at the given position, was wrong and has been corrected;
    /// these are the information bits after the correction.
    ErrorFixed(InfoVector, usize),
    /// More than one bit is wrong; nothing was corrected.
    MultipleErrorsDetected,
}

/// A decoding result over plain sequences.
pub enum DecodeView {
    Intact(Seq<bool>),
    ErrorFixed(Seq<bool>, int),
    MultipleErrorsDetected,
}

impl View for DecodeResult {
    type V = DecodeView;

    open spec fn view(&self) -> DecodeView {
        match self {
            DecodeResult::Intact(info) => DecodeView::Intact(info@),
            DecodeResult::ErrorFixed(info, position) => DecodeView::ErrorFixed(
                info@,
                *position as int,
            ),
            DecodeResult::MultipleErrorsDetected => DecodeView::MultipleErrorsDetected,
        }
    }
}

impl Clone for DecodeResult {
    fn clone(&self) -> (copy: Self)
        ensures
            copy@ == self@,
    {
        match self {
            DecodeResult::Intact(info) => DecodeResult::Intact(info.clone()),
            DecodeResult::ErrorFixed(info, position) => DecodeResult::ErrorFixed(
                info.clone(),
                *position,
            ),
            DecodeResult::MultipleErrorsDetected => DecodeResult::MultipleErrorsDetected,
        }
    }
}

impl PartialEq for DecodeResult {
    fn eq(&self, other: &Self) -> (equal: bool) {
        match (self, other) {
            (DecodeResult::Intact(left), DecodeResult::Intact(right)) => left == right,
            (
                DecodeResult::ErrorFixed(left, left_position),
                DecodeResult::ErrorFixed(right, right_position),
            ) => left == right && *left_position == *right_position,
            (
                DecodeResult::MultipleErrorsDetected,
                DecodeResult::MultipleErrorsDetected,
            ) => true,
            _ => false,
        }
    }
}

impl PartialEqSpecImpl for DecodeResult {
    open spec fn obeys_eq_spec() -> bool {
        true
    }

    open spec fn eq_spec(&self, other: &Self) -> bool {
        self@ == other@
    }
}

/// What decoding the thirteen bits `code` gives.
///
/// With a zero syndrome the information bits are taken as they are: the
/// word is consistent when its overall parity is even, and otherwise the
/// checksum bit alone is wrong. With a nonzero syndrome and odd overall
/// parity, the bit that the syndrome names is inverted, unless the syndrome
/// names no position before the checksum bit. A nonzero syndrome with even
/// overall parity shows two wrong bits.
pub open spec fn decode_spec(code: Seq<bool>) -> DecodeView {
    let s = syndrome(code);
    if s == 0 {
        if parity(code) {
            DecodeView::ErrorFixed(info_bits(code), 12)
        } else {
            DecodeView::Intact(info_bits(code))
        }
    } else if s > 12 || !parity(code) {
        DecodeView::MultipleErrorsDetected
    } else {
        DecodeView::ErrorFixed(info_bits(flipped(code, s - 1)), s - 1)
    }
}

/// Whether thirteen bits form a codeword: every check bit agrees with the
/// information bits and the overall parity is even.
pub open spec fn is_codeword(code: Seq<bool>) -> bool {
    code.len() == 13 && syndrome(code) == 0 && !parity(code)
}

/// Tells what the bit at `position` of a codeword is for.
pub fn bit_role(position: usize) -> (role: BitRole)
    ensures
        role == role_of(position as int),
{
    assert(CHECK_POSITIONS@[0] == 0 && CHECK_POSITIONS@[1] == 1 && CHECK_POSITIONS@[2] == 3
        && CHECK_POSITIONS@[3] == 7);
    if holds_position(&CHECK_POSITIONS, position) {
        BitRole::Check
    } else if position == CHECKSUM_POSITION {
        BitRole::Checksum
    } else {
        BitRole::Info
    }
}

/// Folds the bits with exclusive or: `true` when an odd number are set.
pub fn compute_checksum(data: &[bool]) -> (checksum: bool)
    ensures
        checksum == parity(data@),
{
    let mut checksum = false;
    let mut index: usize = 0;
    while index < data.len()
        invariant
            index <= data@.len(),
            checksum == parity_upto(data@, index as int),
        decreases data@.len() - index,
    {
        checksum = checksum ^ data[index];
        index += 1;
    }
    checksum
}

/// Recomputes the four check bits from the information bits, then stores at
/// position 12 the parity of the twelve bits before it. Bits past position
/// 12 are neither read nor written.
pub fn compute_checks_inplace(buf: &mut [bool])
    requires
        old(buf)@.len() >= 13,
    ensures
        final(buf)@ == with_checks(old(buf)@),
{
    buf[0] = buf[2] ^ buf[4] ^ buf[6] ^ buf[8] ^ buf[10];
    buf[1] = buf[2] ^ buf[5] ^ buf[6] ^ buf[9] ^ buf[10];
    buf[3] = buf[4] ^ buf[5] ^ buf[6] ^ buf[11];
    buf[7] = buf[8] ^ buf[9] ^ buf[10] ^ buf[11];
    assert(buf@ =~= with_check_bits(old(buf)@));
    let checksum = compute_checksum(&buf[0..CHECKSUM_POSITION]);
    proof {
        lemma_parity_of_prefix(buf@.subrange(0, 12), buf@, 12);
    }
    buf[CHECKSUM_POSITION] = checksum;
}

/// Encodes eight information bits as a codeword, which decodes to the same
/// bits with no error reported.
pub fn encode_hamming(vec: &InfoVector) -> (code: CodeVector)
    ensures
        code@ == encode_spec(vec@),
        is_codeword(code@),
        decode_spec(code@) == DecodeView::Intact(vec@),
{
    proof {
        use_type_invariant(vec);
        lemma_round_trip(vec@);
    }
    let mut buf = vec![false; 13];
    let info_digits: [usize; 8] = [3, 5, 6, 7, 9, 10, 11, 12];
    let mut index: usize = 0;
    while index < 8
        invariant
            index <= 8,
            vec@.len() == 8,
            buf@.len() == 13,
            info_digits@ == seq![3usize, 5, 6, 7, 9, 10, 11, 12],
            forall|p: int| 0 <= p < 13 && role_of(p) != BitRole::Info ==> !buf@[p],
            forall|k: int| 0 <= k < 8 ==> buf@[#[trigger] info_position(k)] == (k < index && vec@[k]),
        decreases 8 - index,
    {
        let ghost before = buf@;
        buf[info_digits[index] - 1] = vec[index];
        assert(info_digits[index as int] - 1 == info_position(index as int));
        assert forall|k: int| 0 <= k < 8 implies buf@[#[trigger] info_position(k)] == (k < index + 1
            && vec@[k]) by {
            assert(before[info_position(k)] == (k < index && vec@[k]));
        }
        index += 1;
    }
    proof {
        assert(info_position(0) == 2 && info_position(1) == 4 && info_position(2) == 5
            && info_position(3) == 6 && info_position(4) == 8 && info_position(5) == 9
            && info_position(6) == 10 && info_position(7) == 11);
        assert(role_of(0) != BitRole::Info && role_of(1) != BitRole::Info && role_of(3)
            != BitRole::Info && role_of(7) != BitRole::Info && role_of(12) != BitRole::Info);
        assert(buf@ =~= spread_info(vec@));
    }
    compute_checks_inplace(&mut buf);
    buf.try_into().unwrap()
}

/// Takes the eight information bits out of a codeword.
fn extract_info_vector(vec: &CodeVector) -> (info: InfoVector)
    ensures
        info@ == info_bits(vec@),
{
    proof {
        use_type_invariant(vec);
    }
    let mut bits: Vec<bool> = Vec::new();
    let mut index: usize = 0;
    while index < 13
        invariant
            index <= 13,
            vec@.len() == 13,
            bits@ == info_bits(vec@).take(info_rank(index as int)),
        decreases 13 - index,
    {
        proof {
            lemma_info_rank(index as int);
        }
        if bit_role(index) == BitRole::Info {
            bits.push(vec[index]);
        }
        index += 1;
        assert(bits@ =~= info_bits(vec@).take(info_rank(index as int)));
    }
    proof {
        reveal_with_fuel(info_rank, 14);
    }
    assert(bits@ =~= info_bits(vec@));
    bits.try_into().unwrap()
}

/// The positions at which two runs of bits of one length differ, rising.
fn differing_positions(left: &[bool], right: &[bool]) -> (positions: Vec<usize>)
    requires
        left@.len() == right@.len(),
    ensures
        positions@ == differing(left@, right@, left@.len() as int),
{
    let mut positions: Vec<usize> = Vec::new();
    let mut index: usize = 0;
    while index < left.len()
        invariant
            index <= left@.len(),
            left@.len() == right@.len(),
            positions@ == differing(left@, right@, index as int),
        decreases left@.len() - index,
    {
        if left[index] != right[index] {
            positions.push(index);
        }
        index += 1;
    }
    positions
}

/// Drops every occurrence of `excluded` from `positions`.
fn positions_without(positions: Vec<usize>, excluded: usize) -> (kept: Vec<usize>)
    ensures
        kept@ == without(positions@, excluded),
{
    let mut kept: Vec<usize> = Vec::new();
    let mut index: usize = 0;
    while index < positions.len()
        invariant
            index <= positions@.len(),
            kept@ == without(positions@.take(index as int), excluded),
        decreases positions@.len() - index,
    {
        assert(positions@.take(index + 1).drop_last() =~= positions@.take(index as int));
        if positions[index] != excluded {
            kept.push(positions[index]);
        }
        index += 1;
    }
    assert(positions@.take(index as int) =~= positions@);
    kept
}

/// Adds up `positions`.
fn sum_positions(positions: &Vec<usize>) -> (sum: usize)
    requires
        total(positions@) <= usize::MAX,
    ensures
        sum == total(positions@),
{
    let mut sum: usize = 0;
    let mut index: usize = 0;
    while index < positions.len()
        invariant
            index <= positions@.len(),
            sum == total(positions@.take(index as int)),
            total(positions@) <= usize::MAX,
        decreases positions@.len() - index,
    {
        assert(positions@.take(index + 1).drop_last() =~= positions@.take(index as int));
        proof {
            lemma_total_of_prefix(positions@, index + 1);
        }
        sum += positions[index];
        index += 1;
    }
    assert(positions@.take(index as int) =~= positions@);
    sum
}

/// Decodes thirteen received bits: takes a consistent word as it is,
/// corrects a single wrong bit, and reports two wrong bits without
/// correcting anything.
///
/// The bits are compared with their recomputed form. Where only the
/// checksum bit disagrees, it is the wrong bit. Otherwise the disagreeing
/// check positions name the wrong bit: their sum plus their count, less one.
/// The correction stands only if that position precedes the checksum bit and
/// the corrected word has even overall parity.
pub fn decode_hamming(vec: &CodeVector) -> (outcome: DecodeResult)
    ensures
        outcome@ == decode_spec(vec@),
{
    proof {
        use_type_invariant(vec);
        lemma_differing_is_syndrome(vec@);
    }
    let mut received = slice_to_vec(vec);
    let mut recomputed_copy = slice_to_vec(vec);
    compute_checks_inplace(&mut recomputed_copy);

    let errors = differing_positions(vec, &recomputed_copy);

    if errors.is_empty() {
        return DecodeResult::Intact(extract_info_vector(vec));
    }
    let errors_without_checksum = positions_without(errors, CHECKSUM_POSITION);

    if errors_without_checksum.is_empty() {
        return DecodeResult::ErrorFixed(
            extract_info_vector(&received.try_into().unwrap()),
            CHECKSUM_POSITION,
        );
    }
    let flip_idx: usize = sum_positions(&errors_without_checksum) + errors_without_checksum.len()
        - 1;

    if flip_idx >= CHECKSUM_POSITION {
        return DecodeResult::MultipleErrorsDetected;
    }
    received[flip_idx] = !received[flip_idx];
    proof {
        lemma_parity_of_flipped(vec@, flip_idx as int, 13);
    }

    let checksum = compute_checksum(&received);

    if checksum {
        DecodeResult::MultipleErrorsDetected
    } else {
        DecodeResult::ErrorFixed(extract_info_vector(&received.try_into().unwrap()), flip_idx)
    }
}

/// How many information bits a codeword holds below `position`.
spec fn info_rank(position: int) -> int
    decreases position,
{
    if position <= 0 {
        0
    } else {
        info_rank(position - 1) + if role_of(position - 1) == BitRole::Info {
            1int
        } else {
            0
        }
    }
}

/// The positions below `count`, in rising order, at which `left` and `right`
/// differ.
spec fn differing(left: Seq<bool>, right: Seq<bool>, count: int) -> Seq<usize>
    decreases count,
{
    if count <= 0 {
        Seq::empty()
    } else if left[count - 1] != right[count - 1] {
        differing(left, right, count - 1).push((count - 1) as usize)
    } else {
        differing(left, right, count - 1)
    }
}

/// `positions` without every occurrence of `excluded`.
spec fn without(positions: Seq<usize>, excluded: usize) -> Seq<usize>
    decreases positions.len(),
{
    if positions.len() == 0 {
        positions
    } else if positions.last() == excluded {
        without(positions.drop_last(), excluded)
    } else {
        without(positions.drop_last(), excluded).push(positions.last())
    }
}

/// The sum of `positions`.
spec fn total(positions: Seq<usize>) -> int
    decreases positions.len(),
{
    if positions.len() == 0 {
        0
    } else {
        total(positions.drop_last()) + positions.last()
    }
}

/// How many positions below `count` differ between `left` and `right`.
spec fn differing_count(left: Seq<bool>, right: Seq<bool>, count: int) -> int
    decreases count,
{
    if count <= 0 {
        0
    } else {
        differing_count(left, right, count - 1) + if left[count - 1] != right[count - 1] {
            1int
        } else {
            0
        }
    }
}

/// The sum of the positions below `count` that differ between `left` and
/// `right`.
spec fn differing_total(left: Seq<bool>, right: Seq<bool>, count: int) -> int
    decreases count,
{
    if count <= 0 {
        0
    } else {
        differing_total(left, right, count - 1) + if left[count - 1] != right[count - 1] {
            count - 1
        } else {
            0
        }
    }
}

/// Information bit `k` stands at the position that has `k` information
/// bits below it.
proof fn lemma_info_rank(position: int)
    requires
        0 <= position < 13,
    ensures
        0 <= info_rank(position) <= 8,
        role_of(position) == BitRole::Info ==> info_rank(position) < 8 && info_position(
            info_rank(position),
        ) == position,
{
    reveal_with_fuel(info_rank, 14);
}

/// The sum of a prefix is at most the sum of the whole.
proof fn lemma_total_of_prefix(positions: Seq<usize>, count: int)
    requires
        0 <= count <= positions.len(),
    ensures
        total(positions.take(count)) <= total(positions),
    decreases positions.len() - count,
{
    if count < positions.len() {
        lemma_total_of_prefix(positions, count + 1);
        assert(positions.take(count + 1).drop_last() =~= positions.take(count));
    } else {
        assert(positions.take(count) =~= positions);
    }
}

/// Leaving out a position that does not occur changes nothing.
proof fn lemma_without_absent(positions: Seq<usize>, excluded: usize)
    requires
        forall|i: int| 0 <= i < positions.len() ==> positions[i] != excluded,
    ensures
        without(positions, excluded) == positions,
    decreases positions.len(),
{
    if positions.len() > 0 {
        lemma_without_absent(positions.drop_last(), excluded);
        assert(positions.drop_last().push(positions.last()) =~= positions);
    }
}

/// The differing positions below `count` are as many as `differing_count`
/// says, add up to `differing_total`, and all lie below `count`.
proof fn lemma_differing_summary(left: Seq<bool>, right: Seq<bool>, count: int)
    requires
        0 <= count <= usize::MAX,
    ensures
        differing(left, right, count).len() == differing_count(left, right, count),
        without(differing(left, right, count), count as usize) == differing(left, right, count),
        total(differing(left, right, count)) == differing_total(left, right, count),
        forall|i: int|
            0 <= i < differing(left, right, count).len() ==> differing(left, right, count)[i]
                < count,
    decreases count,
{
    if count > 0 {
        let shorter = differing(left, right, count - 1);
        lemma_differing_summary(left, right, count - 1);
        lemma_without_absent(shorter, count as usize);
        if left[count - 1] != right[count - 1] {
            let longer = shorter.push((count - 1) as usize);
            assert(longer.drop_last() =~= shorter);
        }
    }
}

/// The count and the sum of the differing positions below 12, where only the
/// four check positions can differ.
proof fn lemma_differing_at_checks(left: Seq<bool>, right: Seq<bool>)
    requires
        forall|k: int| 0 <= k < 8 ==> left[#[trigger] info_position(k)] == right[info_position(k)],
    ensures
        differing_count(left, right, 12) == (if left[0] != right[0] {
            1int
        } else {
            0
        }) + (if left[1] != right[1] {
            1int
        } else {
            0
        }) + (if left[3] != right[3] {
            1int
        } else {
            0
        }) + (if left[7] != right[7] {
            1int
        } else {
            0
        }),
        differing_total(left, right, 12) == (if left[1] != right[1] {
            1int
        } else {
            0
        }) + (if left[3] != right[3] {
            3int
        } else {
            0
        }) + (if left[7] != right[7] {
            7int
        } else {
            0
        }),
{
    assert(info_position(0) == 2 && info_position(1) == 4 && info_position(2) == 5
        && info_position(3) == 6 && info_position(4) == 8 && info_position(5) == 9
        && info_position(6) == 10 && info_position(7) == 11);
    reveal_with_fuel(differing_count, 13);
    reveal_with_fuel(differing_total, 13);
}

/// How the positions at which thirteen bits differ from their recomputed
/// form relate to the syndrome and the overall parity.
proof fn lemma_differing_is_syndrome(code: Seq<bool>)
    requires
        code.len() == 13,
    ensures
        ({
            let all = differing(code, with_checks(code), 13);
            let checks = without(all, 12);
            &&& total(checks) + checks.len() == syndrome(code)
            &&& 0 <= total(checks) <= 11
            &&& checks.len() == 0 <==> syndrome(code) == 0
            &&& syndrome(code) == 0 ==> (all.len() == 0 <==> !parity(code))
            &&& syndrome(code) != 0 ==> all.len() != 0
        }),
{
    let recomputed = with_checks(code);
    let below = differing(code, recomputed, 12);
    lemma_differing_summary(code, recomputed, 12);
    assert(recomputed[0] == check_bit_0(code) && recomputed[1] == check_bit_1(code)
        && recomputed[3] == check_bit_3(code) && recomputed[7] == check_bit_7(code));
    assert forall|k: int| 0 <= k < 8 implies code[#[trigger] info_position(k)]
        == recomputed[info_position(k)] by {}
    lemma_differing_at_checks(code, recomputed);
    assert(differing(code, recomputed, 13) == if code[12] != recomputed[12] {
        below.push(12usize)
    } else {
        below
    });
    if code[12] != recomputed[12] {
        let all = below.push(12usize);
        assert(all.drop_last() =~= below);
        assert(without(all, 12) == below);
    }
    if syndrome(code) == 0 {
        assert(with_check_bits(code) =~= code);
        assert(parity_upto(code, 13) == (parity_upto(code, 12) != code[12]));
    }
}

/// The parity of the first `count` bits depends on those bits alone.
pub proof fn lemma_parity_of_prefix(left: Seq<bool>, right: Seq<bool>, count: int)
    requires
        forall|i: int| 0 <= i < count ==> left[i] == right[i],
    ensures
        parity_upto(left, count) == parity_upto(right, count),
    decreases count,
{
    if count > 0 {
        lemma_parity_of_prefix(left, right, count - 1);
    }
}

/// Inverting one bit inverts the parity of every span that holds it.
pub proof fn lemma_parity_of_flipped(bits: Seq<bool>, index: int, count: int)
    requires
        0 <= index < bits.len(),
        count <= bits.len(),
    ensures
        parity_upto(flipped(bits, index), count) == (parity_upto(bits, count) != (index < count)),
    decreases count,
{
    if count > 0 {
        lemma_parity_of_flipped(bits, index, count - 1);
    }
}

/// Encoding gives a codeword that carries the information bits unchanged.
pub proof fn lemma_encode_is_codeword(info: Seq<bool>)
    requires
        info.len() == 8,
    ensures
        is_codeword(encode_spec(info)),
        info_bits(encode_spec(info)) == info,
{
    let code = encode_spec(info);
    assert(info_bits(code) =~= info);
    reveal_with_fuel(parity_upto, 14);
}

/// Decoding what encoding gave returns the information bits, with no error
/// reported. This holds of every eight information bits, and so of the bits
/// of every byte.
pub proof fn lemma_round_trip(info: Seq<bool>)
    requires
        info.len() == 8,
    ensures
        decode_spec(encode_spec(info)) == DecodeView::Intact(info),
{
    lemma_encode_is_codeword(info);
}

/// The syndrome of a codeword with one inverted bit names that bit: it is
/// the bit's position plus one, and zero for the checksum bit.
pub proof fn lemma_syndrome_of_flipped(code: Seq<bool>, position: int)
    requires
        is_codeword(code),
        0 <= position < 13,
    ensures
        syndrome(flipped(code, position)) == if position < 12 {
            position + 1
        } else {
            0
        },
{
}

/// After any single bit of the codeword of any eight information bits is
/// inverted, the checksum bit included, decoding corrects that bit and
/// returns the encoded information bits with the bit's position.
pub proof fn lemma_single_error_corrected(info: Seq<bool>, position: int)
    requires
        info.len() == 8,
        0 <= position < 13,
    ensures
        decode_spec(flipped(encode_spec(info), position)) == DecodeView::ErrorFixed(
            info,
            position,
        ),
{
    let code = encode_spec(info);
    let received = flipped(code, position);
    lemma_encode_is_codeword(info);
    lemma_syndrome_of_flipped(code, position);
    lemma_parity_of_flipped(code, position, 13);
    if position < 12 {
        assert(flipped(received, position) =~= code);
    } else {
        assert(info_bits(received) =~= info_bits(code));
    }
}

/// After any two distinct bits of the codeword of any eight information
/// bits are inverted, decoding reports multiple errors: no pair of errors
/// passes for a consistent word or for a single error.
pub proof fn lemma_double_error_detected(info: Seq<bool>, first: int, second: int)
    requires
        info.len() == 8,
        0 <= first < 13,
        0 <= second < 13,
        first != second,
    ensures
        decode_spec(flipped(flipped(encode_spec(info), first), second))
            == DecodeView::MultipleErrorsDetected,
{
    let code = encode_spec(info);
    let once = flipped(code, first);
    let twice = flipped(once, second);
    lemma_encode_is_codeword(info);
    lemma_parity_of_flipped(code, first, 13);
    lemma_parity_of_flipped(once, second, 13);
    assert(!parity(twice));
    assert(syndrome(twice) != 0);
}

} // verus!
