//! The JSON array paths that are stored behind the positions of a term.
//!
//! The metadata of a term is, in this order:
//! - the version, as a variable-length integer;
//! - the number of documents, likewise;
//! - for each document the number of its path ids, as packed values;
//! - the number of all path ids, as a variable-length integer;
//! - the path ids of all documents, one document after the other, as packed values.
//!
//! Packed values are the number of their full blocks, the bit width of each full block, the
//! bytes of the full blocks, and what does not fill a block as variable-length integers.
//! A path id is a place in the path table; the id 0 stands for the empty path.
use std::sync::Arc;

use vstd::prelude::*;

use crate::block_decoder;
use crate::block_decoder::{BlockDecoder, BLOCK_BYTES_PER_BIT, COMPRESSION_BLOCK_SIZE, MAX_BIT_WIDTH};
use crate::json_path_writer::JsonArrayPathEntry;
use crate::owned_bytes::OwnedBytes;
use crate::vint;

verus! {

/// The only version of the metadata.
pub const JSON_METADATA_VERSION: u32 = 1;

/// The arrays on the way to a value, from the outermost one inwards.
pub type JsonArrayPath = Arc<[JsonArrayPathEntry]>;

/// The path that each path id stands for.
pub type JsonPathTable = Arc<Vec<JsonArrayPath>>;

/// Why positions cannot be opened.
#[derive(Clone, Copy, Debug, PartialEq, Eq, Structural)]
pub enum PositionError {
    /// The data ends within the number of blocks, or that number is too long.
    InvalidBlockCount,
    /// The metadata has a version that is not [`JSON_METADATA_VERSION`].
    UnsupportedVersion,
}

/// How many bytes full blocks of the given widths take.
pub open spec fn blocks_len(bit_widths: Seq<u8>) -> nat
    decreases bit_widths.len(),
{
    if bit_widths.len() == 0 {
        0
    } else {
        blocks_len(bit_widths.drop_last()) + block_decoder::block_len(bit_widths.last())
    }
}

/// Where the `block`-th full block starts.
pub open spec fn block_start(bit_widths: Seq<u8>, block: int) -> nat {
    blocks_len(bit_widths.take(block))
}

/// The integers of the `block`-th full block.
pub open spec fn block_values(bit_widths: Seq<u8>, data: Seq<u8>, block: int) -> Seq<u32> {
    block_decoder::unpacked_block(
        data.subrange(
            block_start(bit_widths, block) as int,
            block_start(bit_widths, block + 1) as int,
        ),
        bit_widths[block],
    )
}

/// The integers of all full blocks, one block after the other.
pub open spec fn all_block_values(bit_widths: Seq<u8>, data: Seq<u8>) -> Seq<u32> {
    Seq::new(
        bit_widths.len() * COMPRESSION_BLOCK_SIZE as nat,
        |index: int|
            block_values(bit_widths, data, index / COMPRESSION_BLOCK_SIZE as int)[index
                % COMPRESSION_BLOCK_SIZE as int],
    )
}

/// True when each width is one that a block can have.
pub open spec fn widths_ok(bit_widths: Seq<u8>) -> bool {
    forall|block: int| 0 <= block < bit_widths.len() ==> bit_widths[block] <= MAX_BIT_WIDTH
}

/// The widths of the full blocks of the packed values at the start of `bytes`.
pub open spec fn packed_widths(bytes: Seq<u8>) -> Seq<u8> {
    vint::after_vint(bytes).take(vint::vint32(bytes) as int)
}

/// What follows those widths.
pub open spec fn after_packed_widths(bytes: Seq<u8>) -> Seq<u8> {
    vint::after_vint(bytes).skip(vint::vint32(bytes) as int)
}

/// The bytes of the full blocks of the packed values at the start of `bytes`.
pub open spec fn packed_data(bytes: Seq<u8>) -> Seq<u8> {
    after_packed_widths(bytes).take(blocks_len(packed_widths(bytes)) as int)
}

/// What follows those blocks.
pub open spec fn after_packed_data(bytes: Seq<u8>) -> Seq<u8> {
    after_packed_widths(bytes).skip(blocks_len(packed_widths(bytes)) as int)
}

/// How many of `count` packed values do not fill a block.
pub open spec fn remainder_count(count: nat) -> nat {
    count % COMPRESSION_BLOCK_SIZE as nat
}

/// True when `bytes` starts with the widths of full blocks and with those blocks.
pub open spec fn packed_blocks_ok(bytes: Seq<u8>) -> bool {
    &&& vint::vint32_ok(bytes)
    &&& vint::vint32(bytes) <= vint::after_vint(bytes).len()
    &&& vint::vint32(bytes) * COMPRESSION_BLOCK_SIZE <= usize::MAX
    &&& blocks_len(packed_widths(bytes)) <= after_packed_widths(bytes).len()
}

/// True when `bytes` starts with `count` packed values.
pub open spec fn packed_ok(bytes: Seq<u8>, count: nat) -> bool {
    packed_blocks_ok(bytes) && vint::vints_ok(after_packed_data(bytes), remainder_count(count))
}

/// Those of the `count` packed values at the start of `bytes` that do not fill a block.
pub open spec fn packed_remainder(bytes: Seq<u8>, count: nat) -> Seq<u32> {
    vint::vints(after_packed_data(bytes), remainder_count(count))
}

/// The `count` packed values at the start of `bytes`: fewer, when there are too few blocks.
pub open spec fn packed_values(bytes: Seq<u8>, count: nat) -> Seq<u32> {
    let blocks = all_block_values(packed_widths(bytes), packed_data(bytes));
    let in_blocks = (count - remainder_count(count)) as int;
    (if in_blocks < blocks.len() {
        blocks.take(in_blocks)
    } else {
        blocks
    }) + packed_remainder(bytes, count)
}

/// What follows the `count` packed values at the start of `bytes`.
pub open spec fn after_packed(bytes: Seq<u8>, count: nat) -> Seq<u8> {
    vint::after_vints(after_packed_data(bytes), remainder_count(count))
}

/// The sum of `values`.
pub open spec fn sum(values: Seq<u32>) -> nat
    decreases values.len(),
{
    if values.len() == 0 {
        0
    } else {
        sum(values.drop_last()) + values.last() as nat
    }
}

/// Full blocks stand in order.
pub proof fn lemma_block_start_monotonic(bit_widths: Seq<u8>, low: int, high: int)
    requires
        0 <= low <= high <= bit_widths.len(),
    ensures
        block_start(bit_widths, low) <= block_start(bit_widths, high),
    decreases high,
{
    if low < high {
        lemma_block_start_monotonic(bit_widths, low, high - 1);
        lemma_block_start_next(bit_widths, high - 1);
    }
}

/// Each full block starts where the one before it ends.
pub proof fn lemma_block_start_next(bit_widths: Seq<u8>, block: int)
    requires
        0 <= block < bit_widths.len(),
    ensures
        block_start(bit_widths, block + 1) == block_start(bit_widths, block)
            + block_decoder::block_len(bit_widths[block]),
{
    assert(bit_widths.take(block + 1).drop_last() =~= bit_widths.take(block));
}

/// A full block lies within the bytes of the full blocks.
pub proof fn lemma_block_in_data(bit_widths: Seq<u8>, block: int)
    requires
        0 <= block < bit_widths.len(),
    ensures
        block_start(bit_widths, block + 1) == block_start(bit_widths, block)
            + block_decoder::block_len(bit_widths[block]),
        block_start(bit_widths, block + 1) <= blocks_len(bit_widths),
{
    lemma_block_start_next(bit_widths, block);
    lemma_block_start_monotonic(bit_widths, block + 1, bit_widths.len() as int);
    assert(bit_widths.take(bit_widths.len() as int) =~= bit_widths);
}

fn read_vint_and_update(cursor: &mut &[u8], consumed: &mut usize) -> (value: u32)
    requires
        vint::vint32_ok(old(cursor)@),
        *old(consumed) + old(cursor)@.len() <= usize::MAX,
    ensures
        value == vint::vint32(old(cursor)@),
        final(cursor)@ == vint::after_vint(old(cursor)@),
        *final(consumed) + final(cursor)@.len() == *old(consumed) + old(cursor)@.len(),
{
    let before: usize = cursor.len();
    proof {
        vint::lemma_vint_len(cursor@);
    }
    let value: u32 = vint::read_u32_vint(cursor);
    *consumed = *consumed + (before - cursor.len());
    value
}

fn read_byte_and_update(cursor: &mut &[u8], consumed: &mut usize) -> (byte: u8)
    requires
        old(cursor)@.len() > 0,
        *old(consumed) + old(cursor)@.len() <= usize::MAX,
    ensures
        byte == old(cursor)@[0],
        final(cursor)@ == old(cursor)@.drop_first(),
        *final(consumed) + final(cursor)@.len() == *old(consumed) + old(cursor)@.len(),
{
    let byte: u8 = cursor[0];
    *cursor = &cursor[1..cursor.len()];
    *consumed = *consumed + 1;
    byte
}

/// Reads the number of the full blocks and their widths.
fn read_bit_widths(cursor: &mut &[u8], consumed: &mut usize) -> (bit_widths: Vec<u8>)
    requires
        packed_blocks_ok(old(cursor)@),
        *old(consumed) + old(cursor)@.len() <= usize::MAX,
    ensures
        bit_widths@ == packed_widths(old(cursor)@),
        final(cursor)@ == after_packed_widths(old(cursor)@),
        *final(consumed) + final(cursor)@.len() == *old(consumed) + old(cursor)@.len(),
{
    let ghost bytes = cursor@;
    let ghost total = *consumed + cursor@.len();
    let num_blocks: usize = read_vint_and_update(cursor, consumed) as usize;
    let ghost body = cursor@;
    let mut bit_widths: Vec<u8> = Vec::with_capacity(num_blocks);
    let mut block: usize = 0;
    assert(body.skip(0) =~= body);
    while block < num_blocks
        invariant
            block <= num_blocks,
            num_blocks <= body.len(),
            bit_widths@ == body.take(block as int),
            cursor@ == body.skip(block as int),
            *consumed + cursor@.len() == total,
            total <= usize::MAX,
        decreases num_blocks - block,
    {
        bit_widths.push(read_byte_and_update(cursor, consumed));
        proof {
            assert(body.take(block + 1) =~= body.take(block as int).push(body[block as int]));
            assert(body.skip(block as int).drop_first() =~= body.skip(block + 1));
        }
        block = block + 1;
    }
    bit_widths
}

/// Where each full block starts, and how many bytes all of them take.
fn block_layout(bit_widths: &Vec<u8>) -> (layout: (Vec<usize>, usize))
    requires
        blocks_len(bit_widths@) <= usize::MAX,
    ensures
        layout.0@.len() == bit_widths@.len(),
        forall|block: int|
            0 <= block < bit_widths@.len() ==> layout.0@[block] == block_start(bit_widths@, block),
        layout.1 == blocks_len(bit_widths@),
{
    let num_blocks: usize = bit_widths.len();
    let mut block_offsets: Vec<usize> = Vec::with_capacity(num_blocks);
    let mut total_block_bytes: usize = 0;
    let mut block: usize = 0;
    while block < num_blocks
        invariant
            block <= num_blocks,
            num_blocks == bit_widths@.len(),
            blocks_len(bit_widths@) <= usize::MAX,
            block_offsets@.len() == block,
            forall|i: int|
                0 <= i < block ==> block_offsets@[i] == block_start(bit_widths@, i),
            total_block_bytes == block_start(bit_widths@, block as int),
        decreases num_blocks - block,
    {
        proof {
            lemma_block_in_data(bit_widths@, block as int);
        }
        block_offsets.push(total_block_bytes);
        total_block_bytes = total_block_bytes + (bit_widths[block] as usize) * BLOCK_BYTES_PER_BIT;
        block = block + 1;
    }
    assert(bit_widths@.take(num_blocks as int) =~= bit_widths@);
    (block_offsets, total_block_bytes)
}

/// Reads `count` variable-length integers.
fn read_vints(cursor: &mut &[u8], consumed: &mut usize, count: usize) -> (values: Vec<u32>)
    requires
        vint::vints_ok(old(cursor)@, count as nat),
        *old(consumed) + old(cursor)@.len() <= usize::MAX,
    ensures
        values@ == vint::vints(old(cursor)@, count as nat),
        final(cursor)@ == vint::after_vints(old(cursor)@, count as nat),
        *final(consumed) + final(cursor)@.len() == *old(consumed) + old(cursor)@.len(),
{
    let ghost bytes = cursor@;
    let ghost total = *consumed + cursor@.len();
    let mut values: Vec<u32> = Vec::with_capacity(count);
    let mut read: usize = 0;
    assert(values@ + vint::vints(bytes, count as nat) =~= vint::vints(bytes, count as nat));
    while read < count
        invariant
            read <= count,
            vint::vints_ok(cursor@, (count - read) as nat),
            vint::vints(bytes, count as nat) == values@ + vint::vints(
                cursor@,
                (count - read) as nat,
            ),
            vint::after_vints(bytes, count as nat) == vint::after_vints(
                cursor@,
                (count - read) as nat,
            ),
            *consumed + cursor@.len() == total,
            total <= usize::MAX,
        decreases count - read,
    {
        let ghost done = values@;
        let value: u32 = read_vint_and_update(cursor, consumed);
        values.push(value);
        proof {
            let rest = vint::vints(cursor@, (count - read - 1) as nat);
            assert(done + (seq![value] + rest) =~= done.push(value) + rest);
        }
        read = read + 1;
    }
    assert(values@ + Seq::<u32>::empty() =~= values@);
    values
}

/// Reads `num_values` packed values from `cursor`, which is what follows the first
/// `consumed` of `metadata_bytes`.
fn decode_bitpacked_values(
    metadata_bytes: &OwnedBytes,
    cursor: &mut &[u8],
    consumed: &mut usize,
    num_values: usize,
) -> (values: Result<Vec<u32>, PositionError>)
    requires
        packed_ok(old(cursor)@, num_values as nat),
        widths_ok(packed_widths(old(cursor)@)),
        *old(consumed) <= metadata_bytes@.len(),
        old(cursor)@ == metadata_bytes@.skip(*old(consumed) as int),
    ensures
        values matches Ok(values) && values@ == packed_values(old(cursor)@, num_values as nat),
        final(cursor)@ == after_packed(old(cursor)@, num_values as nat),
        *final(consumed) + final(cursor)@.len() == metadata_bytes@.len(),
{
    let ghost bytes = cursor@;
    let len: usize = metadata_bytes.len();
    let bit_widths: Vec<u8> = read_bit_widths(cursor, consumed);
    let num_blocks: usize = bit_widths.len();
    let (block_offsets, total_block_bytes) = block_layout(&bit_widths);
    proof {
        vint::lemma_vint_len(bytes);
        assert(cursor@ =~= metadata_bytes@.skip(*consumed as int));
    }
    let block_data = metadata_bytes.slice(*consumed, *consumed + total_block_bytes);
    assert(block_data@ =~= packed_data(bytes));
    *cursor = &cursor[total_block_bytes..cursor.len()];
    assert(cursor@ =~= after_packed_data(bytes));
    *consumed = *consumed + total_block_bytes;
    let remainder: usize = num_values % COMPRESSION_BLOCK_SIZE;
    let mut remainder_values: Vec<u32> = read_vints(cursor, consumed, remainder);
    let mut values: Vec<u32> = Vec::new();
    let mut decoder = BlockDecoder::new();
    let data_slice: &[u8] = block_data.as_slice();
    let mut block: usize = 0;
    while block < num_blocks
        invariant
            block <= num_blocks,
            num_blocks == bit_widths@.len(),
            block_offsets@.len() == num_blocks,
            forall|i: int|
                0 <= i < num_blocks ==> block_offsets@[i] == block_start(bit_widths@, i),
            widths_ok(bit_widths@),
            data_slice@.len() == blocks_len(bit_widths@),
            decoder.wf(),
            num_blocks * COMPRESSION_BLOCK_SIZE <= usize::MAX,
            values@.len() == block * COMPRESSION_BLOCK_SIZE,
            forall|i: int|
                0 <= i < values@.len() ==> values@[i] == all_block_values(
                    bit_widths@,
                    data_slice@,
                )[i],
        decreases num_blocks - block,
    {
        let bit_width: u8 = bit_widths[block];
        let offset: usize = block_offsets[block];
        proof {
            lemma_block_in_data(bit_widths@, block as int);
            assert(data_slice@.len() == data_slice.len());
        }
        let ghost done = values@;
        if bit_width == 0 {
            proof {
                block_decoder::lemma_zero_width_block(
                    data_slice@.subrange(
                        block_start(bit_widths@, block as int) as int,
                        block_start(bit_widths@, block + 1) as int,
                    ),
                );
            }
            values.resize(values.len() + COMPRESSION_BLOCK_SIZE, 0u32);
            assert(values@.subrange(0, done.len() as int) == done);
            assert forall|i: int| 0 <= i < values@.len() implies values@[i] == all_block_values(
                bit_widths@,
                data_slice@,
            )[i] by {
                if i < done.len() {
                    assert(values@.subrange(0, done.len() as int)[i] == values@[i]);
                } else {
                    assert(i / COMPRESSION_BLOCK_SIZE as int == block);
                }
            }
        } else {
            decoder.uncompress_block_unsorted(
                &data_slice[offset..offset + (bit_width as usize) * BLOCK_BYTES_PER_BIT],
                bit_width,
            );
            values.extend_from_slice(decoder.output_array());
            assert forall|i: int| 0 <= i < values@.len() implies values@[i] == all_block_values(
                bit_widths@,
                data_slice@,
            )[i] by {
                if i >= done.len() {
                    assert(i / COMPRESSION_BLOCK_SIZE as int == block);
                    assert(i % COMPRESSION_BLOCK_SIZE as int == i - done.len());
                }
            }
        }
        block = block + 1;
    }
    assert(values@ =~= all_block_values(packed_widths(bytes), packed_data(bytes)));
    values.truncate(num_values - remainder);
    values.append(&mut remainder_values);
    assert(values@ =~= packed_values(bytes, num_values as nat));
    Ok(values)
}

/// The path ids of all documents, as they are stored.
pub struct PackedIndexes {
    pub bit_widths: Seq<u8>,
    pub data: Seq<u8>,
    pub tail: Seq<u32>,
}

impl PackedIndexes {
    /// How many path ids lie in full blocks.
    pub open spec fn tail_start(self) -> nat {
        self.bit_widths.len() * COMPRESSION_BLOCK_SIZE as nat
    }

    /// How many path ids there are.
    pub open spec fn len(self) -> nat {
        self.tail_start() + self.tail.len()
    }

    /// The `index`-th path id.
    pub open spec fn value_at(self, index: int) -> u32 {
        if index < self.tail_start() {
            block_values(self.bit_widths, self.data, index / COMPRESSION_BLOCK_SIZE as int)[index
                % COMPRESSION_BLOCK_SIZE as int]
        } else {
            self.tail[index - self.tail_start()]
        }
    }

    /// The path ids from the `start`-th on, `count` in number.
    pub open spec fn range(self, start: int, count: nat) -> Seq<u32> {
        Seq::new(count, |i: int| self.value_at(start + i))
    }

    /// True when those path ids are there, in blocks of a width that can be decoded.
    pub open spec fn range_ok(self, start: int, count: nat) -> bool {
        &&& start + count <= self.len()
        &&& forall|block: int|
            0 <= block < self.bit_widths.len() && block * COMPRESSION_BLOCK_SIZE < start + count
                && start < (block + 1) * COMPRESSION_BLOCK_SIZE
                ==> #[trigger] self.bit_widths[block] <= MAX_BIT_WIDTH
    }
}

/// The `count` packed path ids at the start of `bytes`.
pub open spec fn packed_indexes(bytes: Seq<u8>, count: nat) -> PackedIndexes {
    PackedIndexes {
        bit_widths: packed_widths(bytes),
        data: packed_data(bytes),
        tail: packed_remainder(bytes, count),
    }
}

/// A range of path ids is its two parts, one after the other, wherever it is cut.
pub proof fn lemma_range_parts(indexes: PackedIndexes, start: int, first: nat, second: nat)
    ensures
        indexes.range(start, first + second) == indexes.range(start, first) + indexes.range(
            start + first,
            second,
        ),
        indexes.range(start, first).len() == first,
{
    assert(indexes.range(start, first + second) =~= indexes.range(start, first) + indexes.range(
        start + first,
        second,
    ));
}

proof fn lemma_vints_len(bytes: Seq<u8>, count: nat)
    ensures
        vint::vints(bytes, count).len() == count,
    decreases count,
{
    if count > 0 {
        lemma_vints_len(vint::after_vint(bytes), (count - 1) as nat);
    }
}

/// Where there are as many full blocks as packed path ids fill, the path ids are the packed
/// values, in order.
pub proof fn lemma_indexes_are_packed_values(bytes: Seq<u8>, count: nat)
    requires
        packed_widths(bytes).len() == count / COMPRESSION_BLOCK_SIZE as nat,
        widths_ok(packed_widths(bytes)),
    ensures
        packed_indexes(bytes, count).len() == count,
        packed_indexes(bytes, count).range_ok(0, count),
        packed_indexes(bytes, count).range(0, count) == packed_values(bytes, count),
{
    let indexes = packed_indexes(bytes, count);
    let blocks = all_block_values(packed_widths(bytes), packed_data(bytes));
    lemma_vints_len(after_packed_data(bytes), remainder_count(count));
    assert(indexes.tail_start() == count - remainder_count(count));
    assert(packed_values(bytes, count) =~= blocks + packed_remainder(bytes, count));
    assert(indexes.range(0, count) =~= packed_values(bytes, count));
}

/// What the packed values are, one by one: those that fill blocks of 128, as far as there are
/// such blocks, and then the numbers that follow the blocks.
pub proof fn lemma_each_packed_value(bytes: Seq<u8>, count: nat, index: int)
    ensures
        ({
            let widths = packed_widths(bytes);
            let stored = widths.len() * 128;
            let wanted = count / 128 * 128;
            let in_blocks = if wanted < stored {
                wanted as int
            } else {
                stored as int
            };
            let values = packed_values(bytes, count);
            &&& values.len() == in_blocks + count % 128
            &&& 0 <= index < in_blocks ==> values[index] == block_values(
                widths,
                packed_data(bytes),
                index / 128,
            )[index % 128]
            &&& in_blocks <= index < values.len() ==> values[index] == vint::vints(
                after_packed_data(bytes),
                count % 128,
            )[index - in_blocks]
        }),
{
    lemma_vints_len(after_packed_data(bytes), remainder_count(count));
    assert(count - count % 128 == count / 128 * 128);
}

/// How many bytes blocks of 128 integers take: for each bit of its width a block takes 16, and
/// blocks stand one after the other.
pub proof fn lemma_block_bytes(bit_widths: Seq<u8>, block: int)
    requires
        0 <= block <= bit_widths.len(),
    ensures
        block_start(bit_widths, block) == bit_widths.take(block).fold_left(
            0int,
            |total: int, width: u8| total + 16 * width,
        ),
    decreases block,
{
    reveal_with_fuel(Seq::<_>::fold_left, 2);
    if block > 0 {
        lemma_block_bytes(bit_widths, block - 1);
        lemma_block_start_next(bit_widths, block - 1);
        assert(bit_widths.take(block).drop_last() =~= bit_widths.take(block - 1));
    }
}

/// Path ids in full blocks, of which one at a time is decoded, and the rest.
pub(crate) struct JsonIndexBlocks {
    bit_widths: Vec<u8>,
    block_offsets: Vec<usize>,
    blocks_data: OwnedBytes,
    tail_values: Vec<u32>,
    block_decoder: BlockDecoder,
    decoded_block: Vec<u32>,
    decoded_block_idx: Option<usize>,
}

impl JsonIndexBlocks {
    pub(crate) closed spec fn view(&self) -> PackedIndexes {
        PackedIndexes {
            bit_widths: self.bit_widths@,
            data: self.blocks_data@,
            tail: self.tail_values@,
        }
    }

    pub(crate) closed spec fn wf(&self) -> bool {
        &&& self.bit_widths@.len() * COMPRESSION_BLOCK_SIZE <= usize::MAX
        &&& self.block_offsets@.len() == self.bit_widths@.len()
        &&& forall|block: int|
            0 <= block < self.bit_widths@.len() ==> self.block_offsets@[block] == block_start(
                self.bit_widths@,
                block,
            )
        &&& self.blocks_data@.len() == blocks_len(self.bit_widths@)
        &&& self.block_decoder.wf()
        &&& self.decoded_block@.len() == COMPRESSION_BLOCK_SIZE
        &&& self.decoded_block_idx matches Some(block) ==> block < self.bit_widths@.len()
            && self.decoded_block@ == block_values(
            self.bit_widths@,
            self.blocks_data@,
            block as int,
        )
    }

    fn parse(cursor: &mut &[u8], consumed: &mut usize, total_indexes: usize) -> (blocks: Result<
        JsonIndexBlocks,
        PositionError,
    >)
        requires
            packed_ok(old(cursor)@, total_indexes as nat),
            *old(consumed) + old(cursor)@.len() <= usize::MAX,
        ensures
            blocks matches Ok(blocks) && blocks.wf() && blocks@ == packed_indexes(
                old(cursor)@,
                total_indexes as nat,
            ),
            final(cursor)@ == after_packed(old(cursor)@, total_indexes as nat),
            *final(consumed) + final(cursor)@.len() == *old(consumed) + old(cursor)@.len(),
    {
        let ghost bytes = cursor@;
        let bit_widths: Vec<u8> = read_bit_widths(cursor, consumed);
        proof {
            vint::lemma_vint_len(bytes);
        }
        let (block_offsets, total_block_bytes) = block_layout(&bit_widths);
        let blocks_data = OwnedBytes::new(
            vstd::slice::slice_to_vec(&cursor[0..total_block_bytes]),
        );
        assert(blocks_data@ =~= packed_data(bytes));
        *cursor = &cursor[total_block_bytes..cursor.len()];
        assert(cursor@ =~= after_packed_data(bytes));
        *consumed = *consumed + total_block_bytes;
        let remainder: usize = total_indexes % COMPRESSION_BLOCK_SIZE;
        let tail_values: Vec<u32> = read_vints(cursor, consumed, remainder);
        Ok(
            JsonIndexBlocks {
                bit_widths,
                block_offsets,
                blocks_data,
                tail_values,
                block_decoder: BlockDecoder::new(),
                decoded_block: vec![0u32; COMPRESSION_BLOCK_SIZE],
                decoded_block_idx: None,
            },
        )
    }

    /// Puts the path ids from the `start`-th on, `len` in number, into `output`.
    fn read_range(&mut self, start: usize, len: usize, output: &mut Vec<u32>)
        requires
            old(self).wf(),
            len > 0 ==> old(self)@.range_ok(start as int, len as nat),
        ensures
            final(self).wf(),
            final(self)@ == old(self)@,
            final(output)@ == old(self)@.range(start as int, len as nat),
    {
        output.clear();
        if len == 0 {
            assert(output@ =~= self@.range(start as int, 0));
            return;
        }
        let ghost ids = self@;
        let tail_start: usize = self.bit_widths.len() * COMPRESSION_BLOCK_SIZE;
        proof {
            assert(self.tail_values@.len() == self.tail_values.len());
        }
        let mut done: usize = 0;
        while done < len
            invariant
                self.wf(),
                self@ == ids,
                ids.range_ok(start as int, len as nat),
                tail_start == ids.tail_start(),
                done <= len,
                output@ == ids.range(start as int, done as nat),
                self.tail_values@.len() <= usize::MAX,
            decreases len - done,
        {
            let remaining: usize = len - done;
            let ghost before = output@;
            if start >= tail_start || done >= tail_start - start {
                let tail_idx: usize = if start >= tail_start {
                    (start - tail_start) + done
                } else {
                    done - (tail_start - start)
                };
                let in_tail: usize = self.tail_values.len() - tail_idx;
                let take: usize = if remaining <= in_tail {
                    remaining
                } else {
                    in_tail
                };
                output.extend_from_slice(&self.tail_values.as_slice()[tail_idx..tail_idx + take]);
                assert(output@ =~= ids.range(start as int, (done + take) as nat));
                done = done + take;
            } else {
                let offset: usize = start + done;
                let block_idx: usize = offset / COMPRESSION_BLOCK_SIZE;
                self.ensure_block(block_idx);
                let within_block: usize = offset % COMPRESSION_BLOCK_SIZE;
                let in_block: usize = COMPRESSION_BLOCK_SIZE - within_block;
                let take: usize = if remaining <= in_block {
                    remaining
                } else {
                    in_block
                };
                output.extend_from_slice(
                    &self.decoded_block.as_slice()[within_block..within_block + take],
                );
                proof {
                    assert forall|i: int| before.len() <= i < before.len() + take implies output@[i]
                        == ids.value_at(start + i) by {
                        assert((start + i) / COMPRESSION_BLOCK_SIZE as int == block_idx);
                        assert((start + i) % COMPRESSION_BLOCK_SIZE as int == within_block + (i
                            - before.len()));
                    }
                    assert(output@ =~= ids.range(start as int, (done + take) as nat));
                }
                done = done + take;
            }
        }
    }

    /// Decodes the block `block_idx`, unless it is the one decoded last.
    fn ensure_block(&mut self, block_idx: usize)
        requires
            old(self).wf(),
            block_idx < old(self)@.bit_widths.len() ==> old(self)@.bit_widths[block_idx as int]
                <= MAX_BIT_WIDTH,
        ensures
            final(self).wf(),
            final(self)@ == old(self)@,
            block_idx < old(self)@.bit_widths.len() ==> final(self).decoded_block_idx == Some(
                block_idx,
            ),
            block_idx >= old(self)@.bit_widths.len() ==> final(self).decoded_block_idx == old(
                self,
            ).decoded_block_idx && final(self).decoded_block@ == old(self).decoded_block@,
    {
        if let Some(decoded) = self.decoded_block_idx {
            if decoded == block_idx {
                return;
            }
        }
        if block_idx >= self.bit_widths.len() {
            return;
        }
        let bit_width: u8 = self.bit_widths[block_idx];
        let start: usize = self.block_offsets[block_idx];
        proof {
            lemma_block_in_data(self.bit_widths@, block_idx as int);
        }
        self.decoded_block_idx = None;
        let blocks_data: &[u8] = self.blocks_data.as_slice();
        assert(blocks_data@.len() == blocks_data.len());
        let data: &[u8] = &blocks_data[start..start + (bit_width as usize) * BLOCK_BYTES_PER_BIT];
        let mut block: Vec<u32> = Vec::new();
        if bit_width == 0 {
            proof {
                block_decoder::lemma_zero_width_block(data@);
            }
            block.resize(COMPRESSION_BLOCK_SIZE, 0u32);
        } else {
            self.block_decoder.uncompress_block_unsorted(data, bit_width);
            block.extend_from_slice(self.block_decoder.output_array());
        }
        assert(block@ =~= block_decoder::unpacked_block(data@, bit_width));
        self.decoded_block = block;
        self.decoded_block_idx = Some(block_idx);
    }
}

impl JsonIndexBlocks {
    /// The same once more.
    pub(crate) fn copied(&self) -> (copy: Self)
        ensures
            self.wf() ==> copy.wf(),
            copy@ == self@,
    {
        let copy = JsonIndexBlocks {
            bit_widths: self.bit_widths.clone(),
            block_offsets: self.block_offsets.clone(),
            blocks_data: self.blocks_data.clone(),
            tail_values: self.tail_values.clone(),
            block_decoder: self.block_decoder.clone(),
            decoded_block: self.decoded_block.clone(),
            decoded_block_idx: self.decoded_block_idx,
        };
        assert(copy.bit_widths@ =~= self.bit_widths@);
        assert(copy.block_offsets@ =~= self.block_offsets@);
        assert(copy.tail_values@ =~= self.tail_values@);
        assert(copy.decoded_block@ =~= self.decoded_block@);
        copy
    }
}

/// What the metadata of a term says, as it is stored.
pub struct IndexedMetadata {
    /// The number of path ids of each document.
    pub counts: Seq<u32>,
    /// The path ids of all documents.
    pub indexes: PackedIndexes,
    /// The path that each path id stands for.
    pub paths: Seq<JsonArrayPath>,
}

/// The paths that `ids` stand for, without the id 0 and without ids that `paths` does not
/// have.
pub open spec fn resolve_paths(paths: Seq<JsonArrayPath>, ids: Seq<u32>) -> Seq<JsonArrayPath>
    decreases ids.len(),
{
    if ids.len() == 0 {
        Seq::empty()
    } else {
        let before = resolve_paths(paths, ids.drop_last());
        if 0 < ids.last() < paths.len() {
            before.push(paths[ids.last() as int])
        } else {
            before
        }
    }
}

impl IndexedMetadata {
    /// How many path ids the documents before the `doc_ord`-th have.
    pub open spec fn first_index(self, doc_ord: int) -> nat {
        sum(self.counts.take(doc_ord))
    }

    /// The path ids of the `doc_ord`-th document.
    pub open spec fn doc_path_ids(self, doc_ord: int) -> Seq<u32> {
        if 0 <= doc_ord < self.counts.len() {
            self.indexes.range(self.first_index(doc_ord) as int, self.counts[doc_ord] as nat)
        } else {
            Seq::empty()
        }
    }

    /// The paths of the `doc_ord`-th document.
    pub open spec fn doc_paths(self, doc_ord: int) -> Seq<JsonArrayPath> {
        resolve_paths(self.paths, self.doc_path_ids(doc_ord))
    }

    /// True when the path ids of the `doc_ord`-th document are stored.
    pub open spec fn doc_ok(self, doc_ord: int) -> bool {
        0 <= doc_ord < self.counts.len() && self.counts[doc_ord] > 0 ==> self.indexes.range_ok(
            self.first_index(doc_ord) as int,
            self.counts[doc_ord] as nat,
        )
    }
}

/// Each path id other than 0 that the table has stands for its path, in order, and no other
/// path is there.
pub proof fn lemma_paths_of_ids(paths: Seq<JsonArrayPath>, ids: Seq<u32>)
    ensures
        resolve_paths(paths, ids) == ids.filter(|id: u32| id != 0 && id < paths.len()).map_values(
            |id: u32| paths[id as int],
        ),
        (forall|i: int| #![trigger ids[i]] 0 <= i < ids.len() ==> 0 < ids[i] < paths.len()) ==> {
            &&& resolve_paths(paths, ids).len() == ids.len()
            &&& forall|i: int|
                #![trigger resolve_paths(paths, ids)[i]]
                0 <= i < ids.len() ==> resolve_paths(paths, ids)[i] == paths[ids[i] as int]
        },
    decreases ids.len(),
{
    reveal(Seq::filter);
    let known = |id: u32| id != 0 && id < paths.len();
    let path = |id: u32| paths[id as int];
    if ids.len() > 0 {
        let rest = ids.drop_last();
        lemma_paths_of_ids(paths, rest);
        assert(ids[ids.len() - 1] == ids.last());
        if forall|i: int| #![trigger ids[i]] 0 <= i < ids.len() ==> 0 < ids[i] < paths.len() {
            assert forall|i: int| #![trigger rest[i]] 0 <= i < rest.len() implies 0 < rest[i]
                < paths.len() by {
                assert(ids[i] == rest[i]);
            }
            assert forall|i: int|
                #![trigger resolve_paths(paths, ids)[i]]
                0 <= i < ids.len() implies resolve_paths(paths, ids)[i]
                == paths[ids[i] as int] by {
                if i < rest.len() {
                    assert(resolve_paths(paths, rest)[i] == paths[rest[i] as int]);
                }
            }
        }
        assert(resolve_paths(paths, ids) =~= ids.filter(known).map_values(path));
    } else {
        assert(resolve_paths(paths, ids) =~= ids.filter(known).map_values(path));
    }
}

/// The paths of two lists of path ids are those of each.
pub proof fn lemma_paths_added(paths: Seq<JsonArrayPath>, first: Seq<u32>, second: Seq<u32>)
    ensures
        resolve_paths(paths, first + second) == resolve_paths(paths, first) + resolve_paths(
            paths,
            second,
        ),
    decreases second.len(),
{
    let both = first + second;
    if second.len() == 0 {
        assert(both =~= first);
        assert(resolve_paths(paths, both) =~= resolve_paths(paths, first) + resolve_paths(
            paths,
            second,
        ));
    } else {
        lemma_paths_added(paths, first, second.drop_last());
        assert(both.drop_last() =~= first + second.drop_last());
        assert(resolve_paths(paths, both) =~= resolve_paths(paths, first) + resolve_paths(
            paths,
            second,
        ));
    }
}

/// The sum of values is what adding them one after the other makes.
pub proof fn lemma_sum_of_each(values: Seq<u32>)
    ensures
        sum(values) == values.fold_left(0int, |total: int, value: u32| total + value),
    decreases values.len(),
{
    reveal_with_fuel(Seq::<_>::fold_left, 2);
    if values.len() > 0 {
        lemma_sum_of_each(values.drop_last());
    }
}

/// A document has as many path ids as its count says, behind those of the documents before
/// it, and the paths they stand for. One behind the last has none.
pub proof fn lemma_doc_paths(metadata: IndexedMetadata, doc_ord: int)
    requires
        0 <= doc_ord,
    ensures
        doc_ord >= metadata.counts.len() ==> metadata.doc_paths(doc_ord).len() == 0,
        doc_ord < metadata.counts.len() ==> {
            let ids = Seq::new(
                metadata.counts[doc_ord] as nat,
                |i: int|
                    metadata.indexes.value_at(
                        metadata.counts.take(doc_ord).fold_left(
                            0int,
                            |total: int, count: u32| total + count,
                        ) + i,
                    ),
            );
            metadata.doc_paths(doc_ord) == ids.filter(
                |id: u32| id != 0 && id < metadata.paths.len(),
            ).map_values(|id: u32| metadata.paths[id as int])
        },
{
    if doc_ord < metadata.counts.len() {
        let ids = Seq::new(
            metadata.counts[doc_ord] as nat,
            |i: int|
                metadata.indexes.value_at(
                    metadata.counts.take(doc_ord).fold_left(
                        0int,
                        |total: int, count: u32| total + count,
                    ) + i,
                ),
        );
        let added = |total: int, value: u32| total + value;
        let stated = |total: int, count: u32| total + count;
        assert(added =~= stated);
        lemma_sum_of_each(metadata.counts.take(doc_ord));
        assert(metadata.doc_path_ids(doc_ord) =~= ids);
        lemma_paths_of_ids(metadata.paths, ids);
        let known = |id: u32| id != 0 && id < metadata.paths.len();
        let path = |id: u32| metadata.paths[id as int];
        assert(metadata.doc_paths(doc_ord) =~= ids.filter(known).map_values(path));
    }
}

/// The metadata of a term that has paths.
pub(crate) struct JsonIndexedMetadata {
    counts: Vec<u32>,
    prefix_sums: Vec<u32>,
    indexes: JsonIndexBlocks,
    scratch: Vec<u32>,
    global_paths: JsonPathTable,
}

impl JsonIndexedMetadata {
    pub(crate) closed spec fn view(&self) -> IndexedMetadata {
        IndexedMetadata {
            counts: self.counts@,
            indexes: self.indexes@,
            paths: self.global_paths@,
        }
    }

    pub(crate) closed spec fn wf(&self) -> bool {
        &&& self.prefix_sums@.len() == self.counts@.len()
        &&& forall|doc_ord: int|
            0 <= doc_ord < self.counts@.len() ==> self.prefix_sums@[doc_ord] == sum(
                self.counts@.take(doc_ord + 1),
            )
        &&& self.indexes.wf()
    }

    /// Puts the paths of the `doc_ord`-th document into `output`. Says whether there are any.
    pub(crate) fn fill(
        &mut self,
        _doc_id: u32,
        doc_ord: u32,
        output: &mut Vec<JsonArrayPath>,
    ) -> (found: bool)
        requires
            old(self).wf(),
            old(self)@.doc_ok(doc_ord as int),
        ensures
            final(self).wf(),
            final(self)@ == old(self)@,
            final(output)@ == old(self)@.doc_paths(doc_ord as int),
            found == (old(self)@.doc_paths(doc_ord as int).len() > 0),
    {
        let doc_ord: usize = doc_ord as usize;
        output.clear();
        if doc_ord >= self.counts.len() {
            return false;
        }
        let count: usize = self.counts[doc_ord] as usize;
        if count == 0 {
            return false;
        }
        let start: usize = if doc_ord == 0 {
            0
        } else {
            self.prefix_sums[doc_ord - 1] as usize
        };
        self.indexes.read_range(start, count, &mut self.scratch);
        let ghost ids = self.scratch@;
        let num_ids: usize = self.scratch.len();
        let mut read: usize = 0;
        while read < num_ids
            invariant
                read <= num_ids,
                num_ids == ids.len(),
                self.scratch@ == ids,
                output@ == resolve_paths(self.global_paths@, ids.take(read as int)),
            decreases num_ids - read,
        {
            let idx: u32 = self.scratch[read];
            assert(ids.take(read + 1).drop_last() =~= ids.take(read as int));
            if idx != 0 && (idx as usize) < self.global_paths.len() {
                output.push(self.global_paths[idx as usize].clone());
            }
            read = read + 1;
        }
        assert(ids.take(num_ids as int) =~= ids);
        !output.is_empty()
    }

    /// Makes the metadata as it was when it was opened: reading it leaves nothing behind.
    pub(crate) fn reset(&mut self)
        ensures
            *final(self) == *old(self),
    {
    }
}

impl JsonIndexedMetadata {
    /// The same once more.
    pub(crate) fn copied(&self) -> (copy: Self)
        ensures
            self.wf() ==> copy.wf(),
            copy@ == self@,
    {
        let copy = JsonIndexedMetadata {
            counts: self.counts.clone(),
            prefix_sums: self.prefix_sums.clone(),
            indexes: self.indexes.copied(),
            scratch: self.scratch.clone(),
            global_paths: self.global_paths.clone(),
        };
        assert(copy.counts@ =~= self.counts@);
        assert(copy.prefix_sums@ =~= self.prefix_sums@);
        copy
    }
}

/// The metadata of a term.
pub(crate) enum JsonMetadata {
    /// There are no paths.
    Absent,
    /// The paths of each document.
    Indexed(Box<JsonIndexedMetadata>),
}

impl JsonMetadata {
    pub(crate) open spec fn view(&self) -> Option<IndexedMetadata> {
        match self {
            JsonMetadata::Absent => None,
            JsonMetadata::Indexed(indexed) => Some(indexed@),
        }
    }

    pub(crate) open spec fn wf(&self) -> bool {
        self matches JsonMetadata::Indexed(indexed) ==> indexed.wf()
    }

    pub(crate) fn reset(&mut self)
        ensures
            *final(self) == *old(self),
    {
        if let JsonMetadata::Indexed(indexed) = self {
            indexed.reset();
        }
    }
}

impl JsonMetadata {
    /// The same once more.
    pub(crate) fn copied(&self) -> (copy: Self)
        ensures
            self.wf() ==> copy.wf(),
            copy@ == self@,
    {
        match self {
            JsonMetadata::Absent => JsonMetadata::Absent,
            JsonMetadata::Indexed(indexed) => JsonMetadata::Indexed(
                Box::new((&**indexed).copied()),
            ),
        }
    }
}

/// What follows the version in the metadata `bytes`.
pub open spec fn after_version(bytes: Seq<u8>) -> Seq<u8> {
    vint::after_vint(bytes)
}

/// The number of documents in the metadata `bytes`.
pub open spec fn metadata_num_docs(bytes: Seq<u8>) -> nat {
    vint::vint32(after_version(bytes)) as nat
}

/// The packed numbers of path ids in the metadata `bytes`, and what follows them.
pub open spec fn metadata_counts_on(bytes: Seq<u8>) -> Seq<u8> {
    vint::after_vint(after_version(bytes))
}

/// The number of path ids of each document in the metadata `bytes`.
pub open spec fn metadata_counts(bytes: Seq<u8>) -> Seq<u32> {
    packed_values(metadata_counts_on(bytes), metadata_num_docs(bytes))
}

/// The number of all path ids in the metadata `bytes`, and what follows it.
pub open spec fn metadata_total_on(bytes: Seq<u8>) -> Seq<u8> {
    after_packed(metadata_counts_on(bytes), metadata_num_docs(bytes))
}

/// The number of all path ids in the metadata `bytes`.
pub open spec fn metadata_total(bytes: Seq<u8>) -> nat {
    vint::vint32(metadata_total_on(bytes)) as nat
}

/// The packed path ids in the metadata `bytes`.
pub open spec fn metadata_indexes_on(bytes: Seq<u8>) -> Seq<u8> {
    vint::after_vint(metadata_total_on(bytes))
}

/// True when no value is other than 0.
pub open spec fn all_zero(values: Seq<u32>) -> bool {
    forall|i: int| 0 <= i < values.len() ==> values[i] == 0
}

/// True when the metadata `bytes` is complete, as far as it is read.
pub open spec fn metadata_ok(bytes: Seq<u8>, has_paths: bool) -> bool {
    bytes.len() > 0 ==> {
        &&& vint::vint32_ok(bytes)
        &&& has_paths && vint::vint32(bytes) == JSON_METADATA_VERSION ==> {
            &&& vint::vint32_ok(after_version(bytes))
            &&& metadata_num_docs(bytes) > 0 ==> {
                &&& packed_ok(metadata_counts_on(bytes), metadata_num_docs(bytes))
                &&& widths_ok(packed_widths(metadata_counts_on(bytes)))
                &&& !all_zero(metadata_counts(bytes)) ==> {
                    &&& vint::vint32_ok(metadata_total_on(bytes))
                    &&& metadata_total(bytes) > 0 ==> {
                        &&& packed_ok(metadata_indexes_on(bytes), metadata_total(bytes))
                        &&& sum(metadata_counts(bytes)) <= u32::MAX
                    }
                }
            }
        }
    }
}

/// What the metadata `bytes` says, given the path that each path id stands for.
pub open spec fn parsed_metadata(bytes: Seq<u8>, paths: Option<Seq<JsonArrayPath>>) -> Result<
    Option<IndexedMetadata>,
    PositionError,
> {
    if bytes.len() == 0 || paths is None {
        Ok(None)
    } else if vint::vint32(bytes) != JSON_METADATA_VERSION {
        Err(PositionError::UnsupportedVersion)
    } else if metadata_num_docs(bytes) == 0 || all_zero(metadata_counts(bytes)) || metadata_total(
        bytes,
    ) == 0 {
        Ok(None)
    } else {
        Ok(
            Some(
                IndexedMetadata {
                    counts: metadata_counts(bytes),
                    indexes: packed_indexes(metadata_indexes_on(bytes), metadata_total(bytes)),
                    paths: paths->Some_0,
                },
            ),
        )
    }
}

/// The paths of an optional path table.
pub open spec fn table_paths(table: Option<JsonPathTable>) -> Option<Seq<JsonArrayPath>> {
    match table {
        Some(paths) => Some(paths@),
        None => None,
    }
}

/// The paths of a table are those it holds, however many, and there are none without a table.
pub proof fn lemma_table_paths(table: Option<JsonPathTable>)
    ensures
        table is None <==> table_paths(table) is None,
        table matches Some(paths) ==> table_paths(table)->0 == paths@,
{
}

pub(crate) proof fn lemma_sum_monotonic(values: Seq<u32>, low: int, high: int)
    requires
        0 <= low <= high <= values.len(),
    ensures
        sum(values.take(low)) <= sum(values.take(high)),
    decreases high,
{
    if low < high {
        lemma_sum_monotonic(values, low, high - 1);
        assert(values.take(high).drop_last() =~= values.take(high - 1));
    }
}

/// The sum of the first values, for each number of first values.
fn running_sums(values: &Vec<u32>) -> (sums: Vec<u32>)
    requires
        sum(values@) <= u32::MAX,
    ensures
        sums@.len() == values@.len(),
        forall|i: int| 0 <= i < values@.len() ==> sums@[i] == sum(values@.take(i + 1)),
{
    let len: usize = values.len();
    let mut sums: Vec<u32> = Vec::with_capacity(len);
    let mut total: u32 = 0;
    let mut at: usize = 0;
    while at < len
        invariant
            at <= len,
            len == values@.len(),
            sum(values@) <= u32::MAX,
            total == sum(values@.take(at as int)),
            sums@.len() == at,
            forall|i: int| 0 <= i < at ==> sums@[i] == sum(values@.take(i + 1)),
        decreases len - at,
    {
        proof {
            assert(values@.take(at + 1).drop_last() =~= values@.take(at as int));
            lemma_sum_monotonic(values@, at + 1, len as int);
            assert(values@.take(len as int) =~= values@);
        }
        total = total + values[at];
        sums.push(total);
        at = at + 1;
    }
    sums
}

fn is_all_zero(values: &Vec<u32>) -> (zero: bool)
    ensures
        zero == all_zero(values@),
{
    let mut at: usize = 0;
    while at < values.len()
        invariant
            at <= values@.len(),
            forall|i: int| 0 <= i < at ==> values@[i] == 0,
        decreases values@.len() - at,
    {
        if values[at] != 0 {
            return false;
        }
        at = at + 1;
    }
    true
}

/// Reads the metadata of a term.
pub(crate) fn parse_json_metadata(
    metadata_bytes: OwnedBytes,
    global_paths: Option<JsonPathTable>,
) -> (metadata: Result<JsonMetadata, PositionError>)
    requires
        metadata_ok(metadata_bytes@, global_paths is Some),
    ensures
        match metadata {
            Ok(metadata) => metadata.wf() && parsed_metadata(
                metadata_bytes@,
                table_paths(global_paths),
            ) == Ok::<Option<IndexedMetadata>, PositionError>(metadata@),
            Err(error) => parsed_metadata(metadata_bytes@, table_paths(global_paths)) == Err::<
                Option<IndexedMetadata>,
                PositionError,
            >(error),
        },
{
    if metadata_bytes.is_empty() {
        return Ok(JsonMetadata::Absent);
    }
    let mut cursor: &[u8] = metadata_bytes.as_slice();
    let mut consumed: usize = 0;
    assert(cursor@.len() == cursor.len());
    let ghost bytes = cursor@;
    let header: u32 = read_vint_and_update(&mut cursor, &mut consumed);
    let global_paths: JsonPathTable = match global_paths {
        Some(global_paths) => global_paths,
        None => {
            return Ok(JsonMetadata::Absent);
        },
    };
    if header != JSON_METADATA_VERSION {
        return Err(PositionError::UnsupportedVersion);
    }
    proof {
        vint::lemma_vint_len(bytes);
        vint::lemma_vint_len(after_version(bytes));
    }
    let num_docs: usize = read_vint_and_update(&mut cursor, &mut consumed) as usize;
    if num_docs == 0 {
        return Ok(JsonMetadata::Absent);
    }
    assert(cursor@ =~= bytes.skip(consumed as int));
    let counts: Vec<u32> = match decode_bitpacked_values(
        &metadata_bytes,
        &mut cursor,
        &mut consumed,
        num_docs,
    ) {
        Ok(counts) => counts,
        Err(error) => {
            return Err(error);
        },
    };
    if is_all_zero(&counts) {
        return Ok(JsonMetadata::Absent);
    }
    let total_indexes: usize = read_vint_and_update(&mut cursor, &mut consumed) as usize;
    if total_indexes == 0 {
        return Ok(JsonMetadata::Absent);
    }
    let indexes: JsonIndexBlocks = match JsonIndexBlocks::parse(
        &mut cursor,
        &mut consumed,
        total_indexes,
    ) {
        Ok(indexes) => indexes,
        Err(error) => {
            return Err(error);
        },
    };
    let prefix_sums: Vec<u32> = running_sums(&counts);
    Ok(
        JsonMetadata::Indexed(
            Box::new(
                JsonIndexedMetadata {
                    counts,
                    prefix_sums,
                    indexes,
                    scratch: Vec::new(),
                    global_paths,
                },
            ),
        ),
    )
}

} // verus!
