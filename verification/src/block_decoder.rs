//! Decoding of blocks of 32-bit integers.
//!
//! A full block holds [`COMPRESSION_BLOCK_SIZE`] integers of one bit width. The integers are
//! dealt out to four lanes in turn; each lane is a stream of bits, cut into 32-bit
//! little-endian words, and the words of the four lanes alternate in the data.
//! What does not fill a block is written as variable-length integers.
use vstd::arithmetic::div_mod;
use vstd::arithmetic::power2;
use vstd::prelude::*;

use crate::vint;

verus! {

/// The number of integers in a full block.
pub const COMPRESSION_BLOCK_SIZE: usize = 128;

/// The widest integer of a block, in bits.
pub const MAX_BIT_WIDTH: u8 = 32;

/// How many bytes a full block takes for each bit of its width.
pub const BLOCK_BYTES_PER_BIT: usize = 16;

/// How many bytes a full block of the given width takes.
pub open spec fn block_len(bit_width: u8) -> nat {
    bit_width as nat * BLOCK_BYTES_PER_BIT as nat
}

/// The `index`-th little-endian 32-bit word of `data`.
pub open spec fn word_at(data: Seq<u8>, index: int) -> nat {
    data[4 * index] as nat + 0x100 * data[4 * index + 1] as nat + 0x1_0000 * data[4 * index
        + 2] as nat + 0x100_0000 * data[4 * index + 3] as nat
}

/// The `index`-th integer of the full block `data`: `bit_width` bits of the lane
/// `index % 4`, from the bit `index / 4 * bit_width` of that lane on.
pub open spec fn unpacked(data: Seq<u8>, bit_width: u8, index: int) -> u32 {
    let lane = index % 4;
    let first_bit = (index / 4) * bit_width;
    let word = first_bit / 32;
    let shift = (first_bit % 32) as nat;
    let low = word_at(data, 4 * word + lane);
    let high = if shift + bit_width > 32 {
        word_at(data, 4 * (word + 1) + lane)
    } else {
        0
    };
    (((low + 0x1_0000_0000 * high) / vstd::arithmetic::power2::pow2(shift))
        % vstd::arithmetic::power2::pow2(bit_width as nat)) as u32
}

/// The integers of the full block `data`.
pub open spec fn unpacked_block(data: Seq<u8>, bit_width: u8) -> Seq<u32> {
    Seq::new(COMPRESSION_BLOCK_SIZE as nat, |index: int| unpacked(data, bit_width, index))
}

/// A block of width 0 takes no bytes and holds zeros.
pub proof fn lemma_zero_width_block(data: Seq<u8>)
    ensures
        unpacked_block(data, 0) == Seq::new(COMPRESSION_BLOCK_SIZE as nat, |index: int| 0u32),
        block_len(0) == 0,
{
    assert forall|index: int| 0 <= index < COMPRESSION_BLOCK_SIZE implies unpacked(data, 0, index)
        == 0 by {
        vstd::arithmetic::power2::lemma2_to64();
    }
    assert(unpacked_block(data, 0) =~= Seq::new(
        COMPRESSION_BLOCK_SIZE as nat,
        |index: int| 0u32,
    ));
}

fn read_word(data: &[u8], index: usize) -> (word: u64)
    requires
        4 * index + 3 < data@.len(),
    ensures
        word == word_at(data@, index as int),
        word <= u32::MAX,
{
    assert(data.len() == data@.len());
    let at: usize = 4 * index;
    data[at] as u64 + 0x100 * data[at + 1] as u64 + 0x1_0000 * data[at + 2] as u64 + 0x100_0000
        * data[at + 3] as u64
}

pub(crate) proof fn lemma_bits_in_range(bit_width: u8, index: usize)
    requires
        0 < bit_width <= MAX_BIT_WIDTH,
        index < COMPRESSION_BLOCK_SIZE,
    ensures
        ({
            let first_bit = (index / 4) * bit_width;
            &&& 0 <= first_bit <= 31 * bit_width
            &&& first_bit + bit_width <= 32 * bit_width
            &&& first_bit / 32 < bit_width
            &&& first_bit % 32 + bit_width > 32 ==> first_bit / 32 + 1 < bit_width
        }),
{
    let row = (index / 4) as int;
    let width = bit_width as int;
    assert(0 <= row * width <= 31 * width) by (nonlinear_arith)
        requires
            0 <= row <= 31,
            0 < width,
    ;
}

/// A full block depends on no more bytes than it takes.
pub proof fn lemma_unpacked_prefix(data: Seq<u8>, bit_width: u8)
    requires
        bit_width <= MAX_BIT_WIDTH,
        data.len() >= block_len(bit_width),
    ensures
        unpacked_block(data.take(block_len(bit_width) as int), bit_width) == unpacked_block(
            data,
            bit_width,
        ),
{
    let part = data.take(block_len(bit_width) as int);
    if bit_width == 0 {
        lemma_zero_width_block(data);
        lemma_zero_width_block(part);
    } else {
        assert forall|index: int| 0 <= index < COMPRESSION_BLOCK_SIZE implies unpacked(
            part,
            bit_width,
            index,
        ) == unpacked(data, bit_width, index) by {
            lemma_bits_in_range(bit_width, index as usize);
        }
        assert(unpacked_block(part, bit_width) =~= unpacked_block(data, bit_width));
    }
}

/// A bit of a part of a number is a bit of the number.
proof fn lemma_bit_of_part(number: nat, shift: nat, width: nat, bit: nat)
    requires
        bit < width,
    ensures
        ((number / power2::pow2(shift)) % power2::pow2(width)) / power2::pow2(bit) % 2 == number / power2::pow2(shift + bit) % 2,
{
    let shifted = (number / power2::pow2(shift)) as int;
    let low = power2::pow2(bit) as int;
    let high = power2::pow2((width - bit) as nat) as int;
    let half = power2::pow2((width - bit - 1) as nat) as int;
    power2::lemma_pow2_pos(shift);
    power2::lemma_pow2_pos(bit);
    power2::lemma_pow2_pos((width - bit) as nat);
    power2::lemma_pow2_pos((width - bit - 1) as nat);
    power2::lemma_pow2_adds(bit, (width - bit) as nat);
    power2::lemma_pow2_adds(shift, bit);
    power2::lemma_pow2_unfold((width - bit) as nat);
    assert(number as int / power2::pow2(shift) as int >= 0) by {
        div_mod::lemma_div_pos_is_pos(number as int, power2::pow2(shift) as int);
    }
    let digits = shifted / low;
    div_mod::lemma_mod_breakdown(shifted, low, high);
    let part = shifted % (low * high);
    assert(part == (digits % high) * low + shifted % low) by (nonlinear_arith)
        requires
            part == low * (digits % high) + shifted % low,
    ;
    div_mod::lemma_mod_bound(shifted, low);
    div_mod::lemma_fundamental_div_mod_converse(part, low, digits % high, shifted % low);
    div_mod::lemma_mod_mod(digits, 2, half);
    div_mod::lemma_div_denominator(number as int, power2::pow2(shift) as int, low);
}

/// A bit of two numbers put together is a bit of the one or of the other.
proof fn lemma_bit_of_joined(low: nat, high: nat, width: nat, bit: nat)
    requires
        low < power2::pow2(width),
    ensures
        (low + power2::pow2(width) * high) / power2::pow2(bit) % 2 == if bit < width {
            low / power2::pow2(bit) % 2
        } else {
            high / power2::pow2((bit - width) as nat) % 2
        },
{
    let joined = (low + power2::pow2(width) * high) as int;
    power2::lemma_pow2_pos(bit);
    power2::lemma_pow2_pos(width);
    if bit < width {
        let over = (width - bit) as nat;
        let half = power2::pow2((over - 1) as nat);
        power2::lemma_pow2_adds(bit, over);
        power2::lemma_pow2_unfold(over);
        let more = (power2::pow2(over) * high) as int;
        assert(joined == low as int + more * power2::pow2(bit)) by (nonlinear_arith)
            requires
                joined == low + power2::pow2(width) * high,
                power2::pow2(width) == power2::pow2(bit) * power2::pow2(over),
                more == power2::pow2(over) * high,
        ;
        div_mod::lemma_hoist_over_denominator(low as int, more, power2::pow2(bit));
        assert(more == 2 * (half * high)) by (nonlinear_arith)
            requires
                more == power2::pow2(over) * high,
                power2::pow2(over) == 2 * half,
        ;
        div_mod::lemma_mod_multiples_vanish(
            (half * high) as int,
            low as int / power2::pow2(bit) as int,
            2,
        );
    } else {
        let over = (bit - width) as nat;
        power2::lemma_pow2_adds(width, over);
        power2::lemma_pow2_pos(over);
        assert(joined == high * power2::pow2(width) + low) by (nonlinear_arith)
            requires
                joined == low + power2::pow2(width) * high,
        ;
        assert(joined >= 0) by (nonlinear_arith)
            requires
                joined == low + power2::pow2(width) * high,
        ;
        div_mod::lemma_fundamental_div_mod_converse(
            joined,
            power2::pow2(width) as int,
            high as int,
            low as int,
        );
        div_mod::lemma_div_denominator(joined, power2::pow2(width) as int, power2::pow2(over) as int);
    }
}

/// A bit of a word is a bit of one of its bytes, the first of which is the least significant.
proof fn lemma_bit_of_word(data: Seq<u8>, index: int, bit: nat)
    requires
        bit < 32,
    ensures
        word_at(data, index) / power2::pow2(bit) % 2 == data[4 * index + bit as int / 8] as nat / power2::pow2(
            bit % 8,
        ) % 2,
        word_at(data, index) < power2::pow2(32),
{
    let one = data[4 * index] as nat;
    let two = data[4 * index + 1] as nat;
    let three = data[4 * index + 2] as nat;
    let four = data[4 * index + 3] as nat;
    power2::lemma2_to64();
    lemma_bit_of_joined(one, two + 256 * (three + 256 * four), 8, bit);
    if bit >= 8 {
        lemma_bit_of_joined(two, three + 256 * four, 8, (bit - 8) as nat);
    }
    if bit >= 16 {
        lemma_bit_of_joined(three, four, 8, (bit - 16) as nat);
    }
}

/// The two words of a lane from the one on in which its bit `first_bit` stands, the second
/// where it is needed for `width` bits.
spec fn lane_words(data: Seq<u8>, lane: int, first_bit: int, width: int) -> nat {
    let word = first_bit / 32;
    word_at(data, 4 * word + lane) + 0x1_0000_0000 * if first_bit % 32 + width > 32 {
        word_at(data, 4 * (word + 1) + lane)
    } else {
        0
    }
}

/// Where a bit of a lane stands.
proof fn lemma_bit_of_lane(data: Seq<u8>, lane: int, first_bit: int, width: nat, bit: nat)
    requires
        0 <= first_bit,
        bit < width <= 32,
    ensures
        ({
            let at = first_bit + bit;
            let both = lane_words(data, lane, first_bit, width as int);
            both / power2::pow2((first_bit % 32) as nat + bit) % 2 == data[16 * (at / 32) + 4 * lane
                + at % 32 / 8] as nat / power2::pow2((at % 8) as nat) % 2
        }),
{
    let word = first_bit / 32;
    let shift = (first_bit % 32) as nat;
    let at = first_bit + bit;
    let low = word_at(data, 4 * word + lane);
    let high = if shift + width > 32 {
        word_at(data, 4 * (word + 1) + lane)
    } else {
        0
    };
    assert(power2::pow2(32) == 0x1_0000_0000) by {
        power2::lemma2_to64();
    }
    lemma_bit_of_word(data, 4 * word + lane, 0);
    lemma_bit_of_joined(low, high, 32, shift + bit);
    if shift + bit < 32 {
        assert(at / 32 == word && at % 32 == shift + bit);
        lemma_bit_of_word(data, 4 * word + lane, shift + bit);
        assert((shift + bit) % 8 == at % 8);
    } else {
        assert(at / 32 == word + 1 && at % 32 == shift + bit - 32);
        lemma_bit_of_word(data, 4 * (word + 1) + lane, (shift + bit - 32) as nat);
        assert((shift + bit - 32) % 8 == at % 8);
    }
}

/// Where each bit of the integers of a full block stands: the integers are dealt out to four
/// lanes in turn, the words of the lanes alternate, and both words and bytes are filled from
/// their low ends.
pub proof fn lemma_bit_of_block(data: Seq<u8>, bit_width: u8, index: int, bit: nat)
    requires
        0 < bit_width <= 32,
        0 <= index < 128,
        bit < bit_width,
    ensures
        ({
            let at = index / 4 * bit_width + bit;
            let byte = data[16 * (at / 32) + 4 * (index % 4) + at % 32 / 8];
            unpacked(data, bit_width, index) as nat / power2::pow2(bit) % 2 == byte as nat
                / power2::pow2((at % 8) as nat) % 2
        }),
        unpacked(data, bit_width, index) < power2::pow2(bit_width as nat),
{
    let lane = index % 4;
    let first_bit = (index / 4) * bit_width;
    let width = bit_width as nat;
    let shift = (first_bit % 32) as nat;
    let both = lane_words(data, lane, first_bit, bit_width as int);
    assert(first_bit >= 0) by (nonlinear_arith)
        requires
            first_bit == (index / 4) * bit_width,
            0 <= index / 4,
    ;
    let part = (both / power2::pow2(shift)) % power2::pow2(width);
    assert(0 <= part < power2::pow2(width) <= 0x1_0000_0000) by {
        power2::lemma2_to64();
        power2::lemma_pow2_pos(width);
        if width < 32 {
            power2::lemma_pow2_strictly_increases(width, 32);
        }
        div_mod::lemma_mod_bound(
            both as int / power2::pow2(shift) as int,
            power2::pow2(width) as int,
        );
    }
    let word = first_bit / 32;
    let low = word_at(data, 4 * word + lane);
    let high = if shift + bit_width > 32 {
        word_at(data, 4 * (word + 1) + lane)
    } else {
        0
    };
    assert(both == low + 0x1_0000_0000 * high);
    assert(unpacked(data, bit_width, index) == part as u32);
    lemma_bit_of_part(both, shift, width, bit);
    lemma_bit_of_lane(data, lane, first_bit, width, bit);
}

fn unpack_one(data: &[u8], bit_width: u8, index: usize) -> (value: u32)
    requires
        0 < bit_width <= MAX_BIT_WIDTH,
        data@.len() >= block_len(bit_width),
        index < COMPRESSION_BLOCK_SIZE,
    ensures
        value == unpacked(data@, bit_width, index as int),
{
    proof {
        lemma_bits_in_range(bit_width, index);
    }
    let lane: usize = index % 4;
    let first_bit: usize = (index / 4) * (bit_width as usize);
    let word: usize = first_bit / 32;
    let shift: usize = first_bit % 32;
    let low: u64 = read_word(data, 4 * word + lane);
    let high: u64 = if shift + (bit_width as usize) > 32 {
        read_word(data, 4 * (word + 1) + lane)
    } else {
        0
    };
    let both: u64 = low + 0x1_0000_0000 * high;
    let modulus: u64 = 1u64 << (bit_width as u64);
    proof {
        vstd::arithmetic::power2::lemma2_to64();
        vstd::arithmetic::power2::lemma2_to64_rest();
        vstd::bits::lemma_u64_shr_is_div(both, shift as u64);
        if bit_width < 32 {
            vstd::arithmetic::power2::lemma_pow2_strictly_increases(bit_width as nat, 32);
        }
        vstd::arithmetic::power2::lemma_pow2_pos(bit_width as nat);
        assert(1 * vstd::arithmetic::power2::pow2(bit_width as nat) <= u64::MAX);
        vstd::bits::lemma_u64_shl_is_mul(1, bit_width as u64);
        assert(modulus == vstd::arithmetic::power2::pow2(bit_width as nat));
    }
    ((both >> (shift as u64)) % modulus) as u32
}

/// Decodes one block at a time.
pub struct BlockDecoder {
    output: Vec<u32>,
    output_len: usize,
}

impl BlockDecoder {
    pub closed spec fn wf(&self) -> bool {
        self.output@.len() == COMPRESSION_BLOCK_SIZE && self.output_len <= COMPRESSION_BLOCK_SIZE
    }

    /// The integers of the block decoded last.
    pub closed spec fn view(&self) -> Seq<u32> {
        self.output@.take(self.output_len as int)
    }

    /// A decoder that has decoded nothing yet.
    pub fn new() -> (decoder: BlockDecoder)
        ensures
            decoder.wf(),
            decoder@ == Seq::<u32>::empty(),
    {
        let decoder = BlockDecoder { output: vec![0u32; COMPRESSION_BLOCK_SIZE], output_len: 0 };
        assert(decoder@ =~= Seq::<u32>::empty());
        decoder
    }

    /// Decodes the full block at the start of `compressed_data`.
    pub fn uncompress_block_unsorted(&mut self, compressed_data: &[u8], bit_width: u8)
        requires
            old(self).wf(),
            bit_width <= MAX_BIT_WIDTH,
            compressed_data@.len() >= block_len(bit_width),
        ensures
            final(self).wf(),
            final(self)@ == unpacked_block(compressed_data@, bit_width),
    {
        self.output_len = COMPRESSION_BLOCK_SIZE;
        let mut index: usize = 0;
        while index < COMPRESSION_BLOCK_SIZE
            invariant
                index <= COMPRESSION_BLOCK_SIZE,
                self.wf(),
                self.output_len == COMPRESSION_BLOCK_SIZE,
                bit_width <= MAX_BIT_WIDTH,
                compressed_data@.len() >= block_len(bit_width),
                forall|i: int|
                    0 <= i < index ==> self.output@[i] == unpacked(compressed_data@, bit_width, i),
            decreases COMPRESSION_BLOCK_SIZE - index,
        {
            if bit_width == 0 {
                proof {
                    lemma_zero_width_block(compressed_data@);
                    assert(unpacked_block(compressed_data@, 0)[index as int] == 0);
                }
                self.output[index] = 0;
            } else {
                self.output[index] = unpack_one(compressed_data, bit_width, index);
            }
            index = index + 1;
        }
        assert(self@ =~= unpacked_block(compressed_data@, bit_width));
    }

    /// Decodes the variable-length integers of `compressed_data`, up to its end or to a full
    /// block of them.
    pub fn uncompress_vint_unsorted_until_end(&mut self, compressed_data: &[u8])
        requires
            old(self).wf(),
            vint::vint_run_ok(compressed_data@, COMPRESSION_BLOCK_SIZE as nat),
        ensures
            final(self).wf(),
            final(self)@ == vint::vint_run(compressed_data@, COMPRESSION_BLOCK_SIZE as nat),
    {
        let mut rest: &[u8] = compressed_data;
        let mut count: usize = 0;
        let ghost done = Seq::<u32>::empty();
        while count < COMPRESSION_BLOCK_SIZE && rest.len() > 0
            invariant
                count <= COMPRESSION_BLOCK_SIZE,
                self.wf(),
                done.len() == count,
                forall|i: int| 0 <= i < count ==> self.output@[i] == done[i],
                vint::vint_run_ok(rest@, (COMPRESSION_BLOCK_SIZE - count) as nat),
                vint::vint_run(compressed_data@, COMPRESSION_BLOCK_SIZE as nat) == done
                    + vint::vint_run(rest@, (COMPRESSION_BLOCK_SIZE - count) as nat),
            decreases COMPRESSION_BLOCK_SIZE - count,
        {
            let ghost before = rest@;
            let value: u32 = vint::read_u32_vint(&mut rest);
            self.output[count] = value;
            proof {
                let next = done.push(value);
                assert(done + (seq![value] + vint::vint_run(
                    rest@,
                    (COMPRESSION_BLOCK_SIZE - count - 1) as nat,
                )) =~= next + vint::vint_run(rest@, (COMPRESSION_BLOCK_SIZE - count - 1) as nat));
                done = next;
            }
            count = count + 1;
        }
        self.output_len = count;
        assert(self@ =~= done);
        assert(done + Seq::<u32>::empty() =~= done);
    }

    /// The integers of the block decoded last.
    pub fn output_array(&self) -> (output: &[u32])
        requires
            self.wf(),
        ensures
            output@ == self@,
    {
        &self.output.as_slice()[0..self.output_len]
    }
}

impl Clone for BlockDecoder {
    fn clone(&self) -> (copy: Self)
        ensures
            self.wf() ==> copy.wf(),
            copy@ == self@,
    {
        let copy = BlockDecoder { output: self.output.clone(), output_len: self.output_len };
        assert(copy.output@ =~= self.output@);
        copy
    }
}

} // verus!
