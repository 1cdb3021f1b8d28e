//! How full blocks of integers are packed, which is what decoding takes back.
use vstd::prelude::*;

use crate::block_decoder;
use crate::block_decoder::{COMPRESSION_BLOCK_SIZE, MAX_BIT_WIDTH};

verus! {

/// True when each of `values` takes no more than `bit_width` bits.
pub open spec fn fits(values: Seq<u32>, bit_width: u8) -> bool {
    forall|i: int|
        0 <= i < values.len() ==> (#[trigger] values[i]) < vstd::arithmetic::power2::pow2(
            bit_width as nat,
        )
}

/// The bits of a lane as one number: the first `rows` of its integers, the first one lowest.
pub open spec fn lane_bits(values: Seq<u32>, bit_width: u8, lane: int, rows: nat) -> nat
    decreases rows,
{
    if rows == 0 {
        0
    } else {
        lane_bits(values, bit_width, lane, (rows - 1) as nat) + values[4 * (rows - 1) + lane] as nat
            * vstd::arithmetic::power2::pow2(((rows - 1) * bit_width) as nat)
    }
}

/// The number of integers in a lane.
pub open spec fn lane_len() -> nat {
    32
}

/// The `index`-th byte of the packed block.
pub open spec fn packed_byte(values: Seq<u32>, bit_width: u8, index: int) -> u8 {
    let word = index / 4;
    let bits = lane_bits(values, bit_width, word % 4, lane_len());
    let first_bit = 32 * (word / 4) + 8 * (index % 4);
    ((bits / vstd::arithmetic::power2::pow2(first_bit as nat)) % 256) as u8
}

/// The bytes of `values`, packed as a full block of the given width.
pub open spec fn packed_block(values: Seq<u32>, bit_width: u8) -> Seq<u8> {
    Seq::new(
        block_decoder::block_len(bit_width),
        |index: int| packed_byte(values, bit_width, index),
    )
}

pub(crate) proof fn lemma_four_bytes(number: nat)
    ensures
        number % 256 + 0x100 * ((number / 256) % 256) + 0x1_0000 * ((number / 0x1_0000) % 256)
            + 0x100_0000 * ((number / 0x100_0000) % 256) == number % 0x1_0000_0000,
{
    let second = number as int / 256;
    let third = second / 256;
    let fourth = third / 256;
    assert(number / 0x1_0000 == third);
    assert(number / 0x100_0000 == fourth);
    vstd::arithmetic::div_mod::lemma_mod_breakdown(number as int, 256, 0x100_0000);
    vstd::arithmetic::div_mod::lemma_mod_breakdown(second, 256, 0x1_0000);
    vstd::arithmetic::div_mod::lemma_mod_breakdown(third, 256, 256);
}

proof fn lemma_shifted(bits: nat, from: nat, more: nat)
    ensures
        bits / vstd::arithmetic::power2::pow2(from + more) == (bits
            / vstd::arithmetic::power2::pow2(from)) / vstd::arithmetic::power2::pow2(more),
{
    vstd::arithmetic::power2::lemma_pow2_adds(from, more);
    vstd::arithmetic::power2::lemma_pow2_pos(from);
    vstd::arithmetic::power2::lemma_pow2_pos(more);
    vstd::arithmetic::div_mod::lemma_div_denominator(
        bits as int,
        vstd::arithmetic::power2::pow2(from) as int,
        vstd::arithmetic::power2::pow2(more) as int,
    );
}

/// A word of the packed block is a part of the bits of its lane.
proof fn lemma_packed_word(values: Seq<u32>, bit_width: u8, lane: int, row: int)
    requires
        0 <= lane < 4,
        0 <= row < bit_width,
    ensures
        block_decoder::word_at(packed_block(values, bit_width), 4 * row + lane) == (lane_bits(
            values,
            bit_width,
            lane,
            lane_len(),
        ) / vstd::arithmetic::power2::pow2((32 * row) as nat)) % 0x1_0000_0000,
{
    let bits = lane_bits(values, bit_width, lane, lane_len());
    let number = bits / vstd::arithmetic::power2::pow2((32 * row) as nat);
    let word = 4 * row + lane;
    let data = packed_block(values, bit_width);
    vstd::arithmetic::power2::lemma2_to64();
    lemma_shifted(bits, (32 * row) as nat, 0);
    lemma_shifted(bits, (32 * row) as nat, 8);
    lemma_shifted(bits, (32 * row) as nat, 16);
    lemma_shifted(bits, (32 * row) as nat, 24);
    assert(word / 4 == row && word % 4 == lane);
    assert(data[4 * word] == packed_byte(values, bit_width, 4 * word));
    assert(data[4 * word + 1] == packed_byte(values, bit_width, 4 * word + 1));
    assert(data[4 * word + 2] == packed_byte(values, bit_width, 4 * word + 2));
    assert(data[4 * word + 3] == packed_byte(values, bit_width, 4 * word + 3));
    lemma_four_bytes(number);
}

/// Some bits from the middle of a number are the same bits of its lower part.
proof fn lemma_middle_bits(number: nat, shift: nat, width: nat, kept: nat)
    requires
        shift + width <= kept,
    ensures
        ((number % vstd::arithmetic::power2::pow2(kept)) / vstd::arithmetic::power2::pow2(shift))
            % vstd::arithmetic::power2::pow2(width) == (number / vstd::arithmetic::power2::pow2(
            shift,
        )) % vstd::arithmetic::power2::pow2(width),
{
    let low = vstd::arithmetic::power2::pow2(shift) as int;
    let middle = vstd::arithmetic::power2::pow2(width) as int;
    let high = vstd::arithmetic::power2::pow2((kept - shift - width) as nat) as int;
    let above = middle * high;
    vstd::arithmetic::power2::lemma_pow2_pos(shift);
    vstd::arithmetic::power2::lemma_pow2_pos(width);
    vstd::arithmetic::power2::lemma_pow2_pos((kept - shift - width) as nat);
    vstd::arithmetic::power2::lemma_pow2_adds(width, (kept - shift - width) as nat);
    vstd::arithmetic::power2::lemma_pow2_adds(shift, (kept - shift) as nat);
    assert(vstd::arithmetic::power2::pow2(kept) == low * above);
    assert(above > 0) by (nonlinear_arith)
        requires
            middle > 0,
            high > 0,
            above == middle * high,
    ;
    let part = (number as int / low) % above;
    vstd::arithmetic::div_mod::lemma_mod_breakdown(number as int, low, above);
    vstd::arithmetic::div_mod::lemma_mod_bound(number as int, low);
    assert(number as int % (low * above) == part * low + number as int % low) by {
        vstd::arithmetic::mul::lemma_mul_is_commutative(low, part);
    }
    vstd::arithmetic::div_mod::lemma_fundamental_div_mod_converse(
        number as int % (low * above),
        low,
        part,
        number as int % low,
    );
    vstd::arithmetic::div_mod::lemma_mod_mod(number as int / low, middle, high);
}

/// The bits of the first integers of a lane take no more than their width.
proof fn lemma_lane_bits_bound(values: Seq<u32>, bit_width: u8, lane: int, rows: nat)
    requires
        values.len() == COMPRESSION_BLOCK_SIZE,
        fits(values, bit_width),
        0 <= lane < 4,
        rows <= lane_len(),
    ensures
        lane_bits(values, bit_width, lane, rows) < vstd::arithmetic::power2::pow2(
            (rows * bit_width) as nat,
        ),
    decreases rows,
{
    vstd::arithmetic::power2::lemma2_to64();
    if rows > 0 {
        let row = (rows - 1) as nat;
        lemma_lane_bits_bound(values, bit_width, lane, row);
        let below = vstd::arithmetic::power2::pow2((row * bit_width) as nat) as int;
        let width = vstd::arithmetic::power2::pow2(bit_width as nat) as int;
        let value = values[4 * row + lane] as int;
        assert(row * bit_width + bit_width == rows * bit_width) by (nonlinear_arith)
            requires
                rows == row + 1,
        ;
        assert((row * bit_width) as nat + bit_width as nat == (rows * bit_width) as nat);
        vstd::arithmetic::power2::lemma_pow2_adds((row * bit_width) as nat, bit_width as nat);
        assert(value * below + below <= below * width) by (nonlinear_arith)
            requires
                value < width,
                below >= 0,
        ;
        assert(lane_bits(values, bit_width, lane, rows) == lane_bits(
            values,
            bit_width,
            lane,
            row,
        ) + value * below);
    } else {
        assert((rows * bit_width) as nat == 0) by (nonlinear_arith)
            requires
                rows == 0,
        ;
    }
}

/// An integer of a lane lies at its place in the bits of the lane.
proof fn lemma_lane_digit(values: Seq<u32>, bit_width: u8, lane: int, row: nat, rows: nat)
    requires
        values.len() == COMPRESSION_BLOCK_SIZE,
        fits(values, bit_width),
        0 <= lane < 4,
        row < rows <= lane_len(),
    ensures
        (lane_bits(values, bit_width, lane, rows) / vstd::arithmetic::power2::pow2(
            (row * bit_width) as nat,
        )) % vstd::arithmetic::power2::pow2(bit_width as nat) == values[4 * row + lane],
    decreases rows,
{
    let width = vstd::arithmetic::power2::pow2(bit_width as nat) as int;
    let below = vstd::arithmetic::power2::pow2((row * bit_width) as nat) as int;
    vstd::arithmetic::power2::lemma_pow2_pos(bit_width as nat);
    vstd::arithmetic::power2::lemma_pow2_pos((row * bit_width) as nat);
    if row + 1 == rows {
        let value = values[4 * row + lane] as int;
        let rest = lane_bits(values, bit_width, lane, row) as int;
        lemma_lane_bits_bound(values, bit_width, lane, row);
        vstd::arithmetic::div_mod::lemma_fundamental_div_mod_converse(
            value * below + rest,
            below,
            value,
            rest,
        );
        vstd::arithmetic::div_mod::lemma_small_mod(value as nat, width as nat);
    } else {
        let last = (rows - 1) as nat;
        let rest = lane_bits(values, bit_width, lane, last) as int;
        let value = values[4 * last + lane] as int;
        let gap = ((last - row - 1) * bit_width) as nat;
        let between = vstd::arithmetic::power2::pow2(gap) as int;
        lemma_lane_digit(values, bit_width, lane, row, last);
        assert(row * bit_width + (bit_width + (last - row - 1) * bit_width) == last * bit_width
            && (last - row - 1) * bit_width >= 0) by (nonlinear_arith)
            requires
                row < last,
        ;
        vstd::arithmetic::power2::lemma_pow2_adds((row * bit_width) as nat, bit_width as nat + gap);
        vstd::arithmetic::power2::lemma_pow2_adds(bit_width as nat, gap);
        let place = vstd::arithmetic::power2::pow2((last * bit_width) as nat) as int;
        assert(place == below * (width * between));
        let added = value * between;
        assert(value * place == below * (width * added)) by (nonlinear_arith)
            requires
                place == below * (width * between),
                added == value * between,
        ;
        let total = rest + value * place;
        vstd::arithmetic::div_mod::lemma_fundamental_div_mod(rest, below);
        vstd::arithmetic::div_mod::lemma_mod_bound(rest, below);
        let quotient = rest / below + width * added;
        assert(total == quotient * below + rest % below) by (nonlinear_arith)
            requires
                total == rest + value * place,
                value * place == below * (width * added),
                rest == below * (rest / below) + rest % below,
                quotient == rest / below + width * added,
        ;
        vstd::arithmetic::div_mod::lemma_fundamental_div_mod_converse(
            total,
            below,
            quotient,
            rest % below,
        );
        vstd::arithmetic::div_mod::lemma_mod_multiples_vanish(added, rest / below, width);
        assert(quotient % width == (rest / below) % width);
    }
}

/// A packed block takes as many bytes as a block of its width does, and decoding gives back
/// what was packed.
pub proof fn lemma_packed_block_roundtrip(values: Seq<u32>, bit_width: u8)
    requires
        values.len() == COMPRESSION_BLOCK_SIZE,
        bit_width <= MAX_BIT_WIDTH,
        fits(values, bit_width),
    ensures
        packed_block(values, bit_width).len() == block_decoder::block_len(bit_width),
        block_decoder::unpacked_block(packed_block(values, bit_width), bit_width) == values,
{
    let data = packed_block(values, bit_width);
    if bit_width == 0 {
        block_decoder::lemma_zero_width_block(data);
        vstd::arithmetic::power2::lemma2_to64();
        assert forall|i: int| 0 <= i < values.len() implies values[i] == 0 by {
            assert(values[i] < vstd::arithmetic::power2::pow2(0));
        }
        assert(block_decoder::unpacked_block(data, bit_width) =~= values);
    } else {
        assert forall|index: int| 0 <= index < COMPRESSION_BLOCK_SIZE implies
            block_decoder::unpacked(data, bit_width, index) == values[index] by {
            lemma_unpacked_packed(values, bit_width, index);
        }
        assert(block_decoder::unpacked_block(data, bit_width) =~= values);
    }
}

/// Any 128 integers are packed into 16 bytes for each bit of a width that they fit, which may be
/// any up to 32, and are read back from these.
pub proof fn lemma_every_width(values: Seq<u32>, bit_width: u8)
    requires
        values.len() == 128,
        bit_width <= 32,
        forall|i: int|
            0 <= i < 128 ==> (#[trigger] values[i]) < vstd::arithmetic::power2::pow2(
                bit_width as nat,
            ),
    ensures
        packed_block(values, bit_width).len() == 16 * bit_width,
        block_decoder::unpacked_block(packed_block(values, bit_width), bit_width) == values,
{
    lemma_packed_block_roundtrip(values, bit_width);
}

proof fn lemma_unpacked_packed(values: Seq<u32>, bit_width: u8, index: int)
    requires
        values.len() == COMPRESSION_BLOCK_SIZE,
        0 < bit_width <= MAX_BIT_WIDTH,
        fits(values, bit_width),
        0 <= index < COMPRESSION_BLOCK_SIZE,
    ensures
        block_decoder::unpacked(packed_block(values, bit_width), bit_width, index)
            == values[index],
{
    let data = packed_block(values, bit_width);
    let lane = index % 4;
    let row = (index / 4) as nat;
    let bits = lane_bits(values, bit_width, lane, lane_len());
    let first_bit = row * bit_width;
    let word = first_bit / 32;
    let shift = (first_bit % 32) as nat;
    let width = bit_width as nat;
    block_decoder::lemma_bits_in_range(bit_width, index as usize);
    lemma_packed_word(values, bit_width, lane, word);
    let number = bits / vstd::arithmetic::power2::pow2((32 * word) as nat);
    lemma_shifted(bits, (32 * word) as nat, shift);
    lemma_lane_digit(values, bit_width, lane, row, lane_len());
    assert(32 * word + shift == first_bit);
    assert(values[index] == values[4 * row + lane]);
    vstd::arithmetic::power2::lemma2_to64();
    vstd::arithmetic::power2::lemma2_to64_rest();
    if shift + bit_width > 32 {
        lemma_packed_word(values, bit_width, lane, word + 1);
        lemma_shifted(bits, (32 * word) as nat, 32);
        assert((32 * word) as nat + 32 == (32 * (word + 1)) as nat);
        let both = number % 0x1_0000_0000 + 0x1_0000_0000 * ((number / 0x1_0000_0000)
            % 0x1_0000_0000);
        assert(both == number % 0x1_0000_0000_0000_0000);
        lemma_middle_bits(number, shift, width, 64);
    } else {
        lemma_middle_bits(number, shift, width, 32);
    }
}

} // verus!
