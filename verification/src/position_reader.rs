//! Random access to the positions of a term.
//!
//! The positions of a term are the number of their full blocks, the bit width of each full
//! block, the bytes of the full blocks, and what does not fill a block as variable-length
//! integers. JSON metadata may follow: its bytes, a marker and its length, as a big-endian
//! 32-bit integer.
use vstd::prelude::*;

use crate::block_decoder;
use crate::block_decoder::{BlockDecoder, BLOCK_BYTES_PER_BIT, COMPRESSION_BLOCK_SIZE, MAX_BIT_WIDTH};
use crate::docset::DocId;
use crate::json_metadata;
use crate::json_metadata::{
    parse_json_metadata, IndexedMetadata, JsonArrayPath, JsonMetadata, JsonPathTable,
    PositionError,
};
use crate::owned_bytes::OwnedBytes;
use crate::vint;

verus! {

/// The byte that stands before the length of the JSON metadata.
pub const JSON_METADATA_MARKER: u8 = 0xFE;

/// How many bytes the marker and the length take.
pub const JSON_TRAILER_LEN: usize = 5;

/// The positions of a term, as they are stored.
pub struct Positions {
    /// The width of each full block.
    pub bit_widths: Seq<u8>,
    /// The full blocks and what follows them.
    pub body: Seq<u8>,
    /// The paths of each document, where there are any.
    pub metadata: Option<IndexedMetadata>,
}

impl Positions {
    /// True when the `block`-th block can be decoded. The last block is the one that is not
    /// full.
    pub open spec fn block_ok(self, block: int) -> bool {
        ||| 0 <= block < self.bit_widths.len() && self.bit_widths[block] <= MAX_BIT_WIDTH
            && json_metadata::block_start(self.bit_widths, block + 1) <= self.body.len()
        ||| block == self.bit_widths.len() && json_metadata::blocks_len(self.bit_widths)
            <= self.body.len() && vint::vint_run_ok(
            self.body.skip(json_metadata::blocks_len(self.bit_widths) as int),
            COMPRESSION_BLOCK_SIZE as nat,
        )
    }

    /// The integers of the `block`-th block.
    pub open spec fn block(self, block: int) -> Seq<u32> {
        if block < self.bit_widths.len() {
            json_metadata::block_values(self.bit_widths, self.body, block)
        } else {
            vint::vint_run(
                self.body.skip(json_metadata::blocks_len(self.bit_widths) as int),
                COMPRESSION_BLOCK_SIZE as nat,
            )
        }
    }

    /// The `index`-th position.
    pub open spec fn position_at(self, index: int) -> u32 {
        self.block(index / COMPRESSION_BLOCK_SIZE as int)[index % COMPRESSION_BLOCK_SIZE as int]
    }

    /// The positions from the `offset`-th on, `count` in number.
    pub open spec fn range(self, offset: int, count: nat) -> Seq<u32> {
        Seq::new(count, |i: int| self.position_at(offset + i))
    }

    /// The last block that holds one of those positions.
    pub open spec fn last_block(self, offset: int, count: nat) -> int {
        if count == 0 {
            offset / COMPRESSION_BLOCK_SIZE as int
        } else {
            (offset + count - 1) / COMPRESSION_BLOCK_SIZE as int
        }
    }

    /// True when those positions are there, in blocks that can be decoded.
    pub open spec fn range_ok(self, offset: int, count: nat) -> bool {
        let last = self.last_block(offset, count);
        &&& forall|block: int|
            offset / COMPRESSION_BLOCK_SIZE as int <= block <= last ==> #[trigger] self.block_ok(
                block,
            )
        &&& offset + count - last * COMPRESSION_BLOCK_SIZE <= self.block(last).len()
        &&& offset + count < i64::MAX
    }
}

/// The number that the last four bytes of `bytes` hold, the most significant one first.
pub open spec fn trailer_len(bytes: Seq<u8>) -> nat {
    let at = bytes.len() - 4;
    0x100_0000 * bytes[at] as nat + 0x1_0000 * bytes[at + 1] as nat + 0x100 * bytes[at + 2] as nat
        + bytes[at + 3] as nat
}

/// True when JSON metadata stands at the end of `bytes`.
pub open spec fn has_trailer(bytes: Seq<u8>) -> bool {
    &&& bytes.len() > JSON_TRAILER_LEN
    &&& bytes[bytes.len() - JSON_TRAILER_LEN] == JSON_METADATA_MARKER
    &&& trailer_len(bytes) <= bytes.len() - JSON_TRAILER_LEN
}

/// Where the JSON metadata at the end of `bytes` starts.
pub open spec fn trailer_start(bytes: Seq<u8>) -> int {
    bytes.len() - JSON_TRAILER_LEN - trailer_len(bytes)
}

/// The JSON metadata at the end of `bytes`.
pub open spec fn trailer_metadata(bytes: Seq<u8>) -> Seq<u8> {
    bytes.subrange(trailer_start(bytes), bytes.len() - JSON_TRAILER_LEN)
}

/// What follows the widths of the full blocks in the positions data `bytes`.
pub open spec fn after_widths(bytes: Seq<u8>) -> Seq<u8> {
    vint::after_vint(bytes).skip(vint::vint64(bytes) as int)
}

/// True when the positions data `bytes` is complete, as far as it is read to open it.
pub open spec fn open_ok(bytes: Seq<u8>, has_paths: bool) -> bool {
    vint::vint64_ok(bytes) ==> {
        &&& vint::vint64(bytes) <= vint::after_vint(bytes).len()
        &&& has_trailer(after_widths(bytes)) ==> json_metadata::metadata_ok(
            trailer_metadata(after_widths(bytes)),
            has_paths,
        )
    }
}

/// What the positions data `bytes` holds, given the path that each path id stands for.
pub open spec fn opened(bytes: Seq<u8>, paths: Option<Seq<JsonArrayPath>>) -> Result<
    Positions,
    PositionError,
> {
    let bit_widths = vint::after_vint(bytes).take(vint::vint64(bytes) as int);
    let rest = after_widths(bytes);
    if !vint::vint64_ok(bytes) {
        Err(PositionError::InvalidBlockCount)
    } else if !has_trailer(rest) {
        Ok(Positions { bit_widths, body: rest, metadata: None })
    } else {
        match json_metadata::parsed_metadata(trailer_metadata(rest), paths) {
            Ok(metadata) => Ok(
                Positions { bit_widths, body: rest.take(trailer_start(rest)), metadata },
            ),
            Err(error) => Err(error),
        }
    }
}

/// Metadata stands at the end of bytes exactly where the fifth last byte is the marker and the
/// number in the last four, the first of them being the most significant, is no more than the
/// bytes before the marker. It is then as long as that number says, and ends before the marker.
pub proof fn lemma_trailer(bytes: Seq<u8>)
    requires
        bytes.len() >= 5,
    ensures
        ({
            let at = bytes.len() - 5;
            let len = bytes[at + 1] * 0x100_0000 + bytes[at + 2] * 0x1_0000 + bytes[at + 3] * 0x100
                + bytes[at + 4];
            &&& has_trailer(bytes) <==> at > 0 && bytes[at] == 0xFE && len <= at
            &&& has_trailer(bytes) ==> trailer_metadata(bytes) == bytes.subrange(at - len, at)
            &&& has_trailer(bytes) ==> trailer_start(bytes) == at - len
        }),
{
}

/// Positions data is refused exactly where none of its first ten bytes ends the number of blocks,
/// or where the metadata is.
pub proof fn lemma_refused(bytes: Seq<u8>, paths: Option<Seq<JsonArrayPath>>)
    ensures
        opened(bytes, paths) == Err::<Positions, PositionError>(PositionError::InvalidBlockCount)
            <==> forall|i: int|
            #![trigger bytes[i]]
            0 <= i < 10 && i < bytes.len() ==> bytes[i] < 128,
        opened(bytes, paths) == Err::<Positions, PositionError>(PositionError::UnsupportedVersion)
            ==> paths is Some && has_trailer(after_widths(bytes)),
{
    vint::lemma_lengths(bytes);
}

/// The number of blocks, which ends with the first byte whose top bit is set, is how many widths
/// follow it, and the rest is what follows these, up to the metadata where there is some.
pub proof fn lemma_opened_parts(
    bytes: Seq<u8>,
    paths: Option<Seq<JsonArrayPath>>,
    last: int,
)
    requires
        0 <= last < bytes.len(),
        bytes[last] >= 128,
        forall|i: int| #![trigger bytes[i]] 0 <= i < last ==> bytes[i] < 128,
    ensures
        last >= 10 ==> opened(bytes, paths) == Err::<Positions, PositionError>(
            PositionError::InvalidBlockCount,
        ),
        last < 10 ==> {
            let count = bytes.take(last + 1).fold_right(
                |byte: u8, higher: int| byte % 128 + 128 * higher,
                0,
            ) % 0x1_0000_0000_0000_0000;
            let rest = bytes.skip(last + 1).skip(count);
            &&& !has_trailer(rest) ==> opened(bytes, paths) == Ok::<Positions, PositionError>(
                Positions {
                    bit_widths: bytes.skip(last + 1).take(count),
                    body: rest,
                    metadata: None,
                },
            )
            &&& has_trailer(rest) ==> match json_metadata::parsed_metadata(
                trailer_metadata(rest),
                paths,
            ) {
                Ok(metadata) => opened(bytes, paths) == Ok::<Positions, PositionError>(
                    Positions {
                        bit_widths: bytes.skip(last + 1).take(count),
                        body: rest.take(rest.len() - 5 - trailer_metadata(rest).len()),
                        metadata,
                    },
                ),
                Err(error) => opened(bytes, paths) == Err::<Positions, PositionError>(error),
            }
        },
{
    vint::lemma_digits(bytes, last);
    vint::lemma_lengths(bytes);
    assert(bytes.subrange(last + 1, bytes.len() as int) =~= bytes.skip(last + 1));
    if last >= 10 {
        assert(!vint::vint64_ok(bytes));
    }
}

/// Reads ranges of the positions of a term. Going forward is cheap.
pub struct PositionReader {
    bit_widths: OwnedBytes,
    positions: OwnedBytes,
    block_decoder: BlockDecoder,
    // The first position of the block that is decoded, or `NO_BLOCK`.
    block_offset: u64,
    // The first position of the first block that `positions` holds.
    anchor_offset: u64,
    original_bit_widths: OwnedBytes,
    original_positions: OwnedBytes,
    json_metadata: JsonMetadata,
}

const NO_BLOCK: u64 = 0x7fff_ffff_ffff_ffff;

proof fn lemma_blocks_len_of_part(bit_widths: Seq<u8>, from: int, count: int)
    requires
        0 <= from,
        0 <= count,
        from + count <= bit_widths.len(),
    ensures
        json_metadata::block_start(bit_widths, from) + json_metadata::blocks_len(
            bit_widths.skip(from).take(count),
        ) == json_metadata::block_start(bit_widths, from + count),
    decreases count,
{
    let part = bit_widths.skip(from).take(count);
    if count > 0 {
        lemma_blocks_len_of_part(bit_widths, from, count - 1);
        json_metadata::lemma_block_start_next(bit_widths, from + count - 1);
        assert(part.drop_last() =~= bit_widths.skip(from).take(count - 1));
    }
}

proof fn lemma_same_block(index: int, step: int)
    requires
        0 <= index,
        0 <= step < COMPRESSION_BLOCK_SIZE as int - index % COMPRESSION_BLOCK_SIZE as int,
    ensures
        (index + step) / COMPRESSION_BLOCK_SIZE as int == index / COMPRESSION_BLOCK_SIZE as int,
        (index + step) % COMPRESSION_BLOCK_SIZE as int == index % COMPRESSION_BLOCK_SIZE as int
            + step,
{
}

/// How many bytes the first `num_blocks` full blocks take.
fn skipped_bytes(bit_widths: &[u8], num_blocks: usize) -> (bytes: usize)
    requires
        num_blocks <= bit_widths@.len(),
        json_metadata::block_start(bit_widths@, num_blocks as int) <= usize::MAX,
    ensures
        bytes == json_metadata::block_start(bit_widths@, num_blocks as int),
{
    let mut bytes: usize = 0;
    let mut block: usize = 0;
    while block < num_blocks
        invariant
            block <= num_blocks,
            num_blocks <= bit_widths@.len(),
            json_metadata::block_start(bit_widths@, num_blocks as int) <= usize::MAX,
            bytes == json_metadata::block_start(bit_widths@, block as int),
        decreases num_blocks - block,
    {
        proof {
            json_metadata::lemma_block_start_next(bit_widths@, block as int);
            json_metadata::lemma_block_start_monotonic(
                bit_widths@,
                block + 1,
                num_blocks as int,
            );
        }
        bytes = bytes + (bit_widths[block] as usize) * BLOCK_BYTES_PER_BIT;
        block = block + 1;
    }
    bytes
}

/// Copies `count` integers of `from`, from `start` on, to `to`, from `at` on.
fn copy_range(to: &mut [u32], at: usize, from: &[u32], start: usize, count: usize)
    requires
        at + count <= old(to)@.len(),
        start + count <= from@.len(),
    ensures
        final(to)@.len() == old(to)@.len(),
        forall|i: int|
            0 <= i < old(to)@.len() ==> final(to)@[i] == if at <= i < at + count {
                from@[start + i - at]
            } else {
                old(to)@[i]
            },
{
    let mut done: usize = 0;
    assert(to@.len() == to.len());
    assert(from@.len() == from.len());
    while done < count
        invariant
            done <= count,
            at + count <= to@.len(),
            start + count <= from@.len(),
            to@.len() == old(to)@.len(),
            to@.len() <= usize::MAX,
            from@.len() <= usize::MAX,
            forall|i: int|
                0 <= i < old(to)@.len() ==> to@[i] == if at <= i < at + done {
                    from@[start + i - at]
                } else {
                    old(to)@[i]
                },
        decreases count - done,
    {
        to[at + done] = from[start + done];
        done = done + 1;
    }
}

/// The number that the four bytes from `at` on hold, the most significant one first.
fn read_be_u32(bytes: &[u8], at: usize) -> (value: u32)
    requires
        at + 4 == bytes@.len(),
    ensures
        value == trailer_len(bytes@),
{
    assert(bytes@.len() == bytes.len());
    0x100_0000 * (bytes[at] as u32) + 0x1_0000 * (bytes[at + 1] as u32) + 0x100 * (bytes[at
        + 2] as u32) + (bytes[at + 3] as u32)
}

impl PositionReader {
    /// What the reader reads.
    pub closed spec fn view(&self) -> Positions {
        Positions {
            bit_widths: self.original_bit_widths@,
            body: self.original_positions@,
            metadata: self.json_metadata@,
        }
    }

    spec fn anchor_block(&self) -> int {
        self.anchor_offset as int / COMPRESSION_BLOCK_SIZE as int
    }

    spec fn loaded_block(&self) -> int {
        self.block_offset as int / COMPRESSION_BLOCK_SIZE as int
    }

    spec fn anchored(&self) -> bool {
        &&& self.anchor_offset as int % COMPRESSION_BLOCK_SIZE as int == 0
        &&& self.anchor_block() <= self.original_bit_widths@.len()
        &&& json_metadata::block_start(self.original_bit_widths@, self.anchor_block())
            <= self.original_positions@.len()
        &&& self.bit_widths@ == self.original_bit_widths@.skip(self.anchor_block())
        &&& self.positions@ == self.original_positions@.skip(
            json_metadata::block_start(self.original_bit_widths@, self.anchor_block()) as int,
        )
        &&& self.block_decoder.wf()
        &&& self.json_metadata.wf()
    }

    spec fn loaded(&self) -> bool {
        &&& self.block_offset < NO_BLOCK
        &&& self.block_offset as int % COMPRESSION_BLOCK_SIZE as int == 0
        &&& self.anchor_offset <= self.block_offset
        &&& self@.block_ok(self.loaded_block())
        &&& self.block_decoder@ == self@.block(self.loaded_block())
    }

    /// True of every reader that [`PositionReader::open`] gives, and of what it becomes.
    pub closed spec fn wf(&self) -> bool {
        &&& self.anchored()
        &&& self.block_offset == NO_BLOCK || self.loaded()
    }

    /// Opens the positions data of a term, given the path that each path id stands for.
    pub fn open(
        positions_data: OwnedBytes,
        json_path_table: Option<JsonPathTable>,
    ) -> (reader: Result<PositionReader, PositionError>)
        requires
            open_ok(positions_data@, json_path_table is Some),
        ensures
            match reader {
                Ok(reader) => reader.wf() && opened(
                    positions_data@,
                    json_metadata::table_paths(json_path_table),
                ) == Ok::<Positions, PositionError>(reader@),
                Err(error) => opened(
                    positions_data@,
                    json_metadata::table_paths(json_path_table),
                ) == Err::<Positions, PositionError>(error),
            },
    {
        let mut positions_data = positions_data;
        let ghost bytes = positions_data@;
        let num_blocks: usize = match vint::read_u64_vint(positions_data.as_slice()) {
            Some((num_blocks, len)) => {
                positions_data.advance(len);
                let rest_len: usize = positions_data.len();
                assert(num_blocks <= rest_len);
                num_blocks as usize
            },
            None => {
                return Err(PositionError::InvalidBlockCount);
            },
        };
        let (bit_widths, mut positions) = positions_data.split(num_blocks);
        let mut json_metadata = JsonMetadata::Absent;
        let ghost rest = positions@;
        if positions.len() > JSON_TRAILER_LEN {
            let slice: &[u8] = positions.as_slice();
            let marker_idx: usize = slice.len() - JSON_TRAILER_LEN;
            if slice[marker_idx] == JSON_METADATA_MARKER {
                let meta_len: usize = read_be_u32(slice, marker_idx + 1) as usize;
                if marker_idx >= meta_len {
                    let metadata_bytes = positions.slice(marker_idx - meta_len, marker_idx);
                    match parse_json_metadata(metadata_bytes, json_path_table) {
                        Ok(metadata) => {
                            json_metadata = metadata;
                        },
                        Err(error) => {
                            return Err(error);
                        },
                    }
                    positions = positions.slice(0, marker_idx - meta_len);
                    assert(positions@ =~= rest.take(trailer_start(rest)));
                }
            }
        }
        let reader = PositionReader {
            bit_widths: bit_widths.clone(),
            positions: positions.clone(),
            block_decoder: BlockDecoder::new(),
            block_offset: NO_BLOCK,
            anchor_offset: 0,
            original_bit_widths: bit_widths,
            original_positions: positions,
            json_metadata,
        };
        proof {
            reader.lemma_anchor_at_start();
        }
        Ok(reader)
    }

    proof fn lemma_anchor_at_start(&self)
        requires
            self.anchor_offset == 0,
        ensures
            json_metadata::block_start(self.original_bit_widths@, 0) == 0,
            self.original_bit_widths@.skip(0) == self.original_bit_widths@,
            self.original_positions@.skip(0) == self.original_positions@,
    {
        assert(self.original_bit_widths@.take(0) =~= Seq::<u8>::empty());
        assert(self.original_bit_widths@.skip(0) =~= self.original_bit_widths@);
        assert(self.original_positions@.skip(0) =~= self.original_positions@);
    }

    fn reset(&mut self)
        requires
            old(self).wf(),
        ensures
            final(self).wf(),
            final(self)@ == old(self)@,
            final(self).anchor_offset == 0,
            final(self).block_offset == NO_BLOCK,
    {
        self.positions = self.original_positions.clone();
        self.bit_widths = self.original_bit_widths.clone();
        self.block_offset = NO_BLOCK;
        self.anchor_offset = 0;
        self.json_metadata.reset();
        proof {
            self.lemma_anchor_at_start();
        }
    }

    /// Moves the anchor forward by `num_blocks` full blocks.
    fn advance_num_blocks(&mut self, num_blocks: usize)
        requires
            old(self).anchored(),
            old(self).anchor_block() + num_blocks <= old(self).original_bit_widths@.len(),
            json_metadata::block_start(
                old(self).original_bit_widths@,
                old(self).anchor_block() + num_blocks,
            ) <= old(self).original_positions@.len(),
            old(self).anchor_offset + num_blocks * COMPRESSION_BLOCK_SIZE <= u64::MAX,
        ensures
            final(self).anchored(),
            final(self)@ == old(self)@,
            final(self).anchor_offset == old(self).anchor_offset + num_blocks
                * COMPRESSION_BLOCK_SIZE,
            final(self).block_offset == old(self).block_offset,
            final(self).block_decoder@ == old(self).block_decoder@,
    {
        let ghost anchor = self.anchor_block();
        let ghost widths = self.original_bit_widths@;
        proof {
            lemma_blocks_len_of_part(widths, anchor, num_blocks as int);
            json_metadata::lemma_block_start_monotonic(widths, anchor, anchor + num_blocks);
        }
        let len: usize = self.positions.len();
        let num_bytes_to_skip: usize = skipped_bytes(self.bit_widths.as_slice(), num_blocks);
        self.bit_widths.advance(num_blocks);
        self.positions.advance(num_bytes_to_skip);
        self.anchor_offset = self.anchor_offset + (num_blocks as u64) * (
        COMPRESSION_BLOCK_SIZE as u64);
        proof {
            assert(self.anchor_block() == anchor + num_blocks);
            assert(self.bit_widths@ =~= widths.skip(anchor + num_blocks));
            assert(self.positions@ =~= self.original_positions@.skip(
                json_metadata::block_start(widths, anchor + num_blocks) as int,
            ));
        }
    }

    /// Decodes the block that is the `block_rel_id`-th from the anchor.
    #[verifier::rlimit(40)]
    fn load_block(&mut self, block_rel_id: usize)
        requires
            old(self).anchored(),
            old(self)@.block_ok(old(self).anchor_block() + block_rel_id),
            old(self).anchor_offset + block_rel_id * COMPRESSION_BLOCK_SIZE < NO_BLOCK,
        ensures
            final(self).wf(),
            final(self)@ == old(self)@,
            final(self).anchor_offset == old(self).anchor_offset,
            final(self).block_offset == old(self).anchor_offset + block_rel_id
                * COMPRESSION_BLOCK_SIZE,
    {
        let ghost anchor = self.anchor_block();
        let ghost block = anchor + block_rel_id;
        let ghost widths = self.original_bit_widths@;
        let ghost body = self.original_positions@;
        proof {
            lemma_blocks_len_of_part(widths, anchor, block_rel_id as int);
            json_metadata::lemma_block_start_monotonic(widths, anchor, block);
            assert(widths.take(widths.len() as int) =~= widths);
            if block < widths.len() {
                json_metadata::lemma_block_start_next(widths, block);
            }
        }
        let len: usize = self.positions.len();
        let bit_widths: &[u8] = self.bit_widths.as_slice();
        let byte_offset: usize = skipped_bytes(bit_widths, block_rel_id);
        let compressed_data: &[u8] = &self.positions.as_slice()[byte_offset..len];
        assert(compressed_data@ =~= body.skip(json_metadata::block_start(widths, block) as int));
        if bit_widths.len() > block_rel_id {
            let bit_width: u8 = bit_widths[block_rel_id];
            self.block_decoder.uncompress_block_unsorted(compressed_data, bit_width);
            proof {
                block_decoder::lemma_unpacked_prefix(compressed_data@, bit_width);
                assert(compressed_data@.take(block_decoder::block_len(bit_width) as int)
                    =~= body.subrange(
                    json_metadata::block_start(widths, block) as int,
                    json_metadata::block_start(widths, block + 1) as int,
                ));
            }
        } else {
            self.block_decoder.uncompress_vint_unsorted_until_end(compressed_data);
        }
        self.block_offset = self.anchor_offset + (block_rel_id as u64) * (
        COMPRESSION_BLOCK_SIZE as u64);
        assert(self.loaded_block() == block);
    }

    /// Moves the anchor to the block that holds the `offset`-th position, and decodes that
    /// block unless it is the one decoded last.
    #[verifier::rlimit(40)]
    fn load_block_of(&mut self, offset: u64)
        requires
            old(self).wf(),
            old(self)@.block_ok(offset as int / COMPRESSION_BLOCK_SIZE as int),
            offset < NO_BLOCK,
        ensures
            final(self).wf(),
            final(self)@ == old(self)@,
            final(self).loaded(),
            final(self).anchor_block() == offset as int / COMPRESSION_BLOCK_SIZE as int,
            final(self).loaded_block() == offset as int / COMPRESSION_BLOCK_SIZE as int,
    {
        let ghost positions = self@;
        let ghost block = offset as int / COMPRESSION_BLOCK_SIZE as int;
        let num_widths: usize = self.original_bit_widths.len();
        proof {
            if block < positions.bit_widths.len() {
                json_metadata::lemma_block_start_next(positions.bit_widths, block);
            }
            assert(positions.bit_widths.take(positions.bit_widths.len() as int)
                =~= positions.bit_widths);
        }
        if offset < self.anchor_offset {
            self.reset();
        }
        let delta_to_block_offset: i64 = (offset as i64) - (self.block_offset as i64);
        if delta_to_block_offset < 0 || delta_to_block_offset >= 128 {
            let delta_to_anchor_offset: u64 = offset - self.anchor_offset;
            proof {
                assert(block == self.anchor_block() + delta_to_anchor_offset as int
                    / COMPRESSION_BLOCK_SIZE as int);
            }
            let num_blocks_to_skip: usize = (delta_to_anchor_offset / (
            COMPRESSION_BLOCK_SIZE as u64)) as usize;
            self.advance_num_blocks(num_blocks_to_skip);
            self.load_block(0);
        } else {
            assert(self.loaded());
            assert(self.loaded_block() == block);
            let delta_to_anchor_offset: u64 = self.block_offset - self.anchor_offset;
            proof {
                assert(block == self.anchor_block() + delta_to_anchor_offset as int
                    / COMPRESSION_BLOCK_SIZE as int);
            }
            let num_blocks_to_skip: usize = (delta_to_anchor_offset / (
            COMPRESSION_BLOCK_SIZE as u64)) as usize;
            self.advance_num_blocks(num_blocks_to_skip);
        }
    }

    /// Fills `output` with the positions from the `offset`-th on.
    pub fn read(&mut self, offset: u64, output: &mut [u32])
        requires
            old(self).wf(),
            old(self)@.range_ok(offset as int, old(output)@.len()),
        ensures
            final(self).wf(),
            final(self)@ == old(self)@,
            final(output)@ == old(self)@.range(offset as int, old(output)@.len()),
    {
        let ghost positions = self@;
        let total: usize = output.len();
        let ghost last = positions.last_block(offset as int, total as nat);
        let num_widths: usize = self.original_bit_widths.len();
        assert(positions.block_ok(offset as int / COMPRESSION_BLOCK_SIZE as int));
        self.load_block_of(offset);
        let mut offset_now: u64 = offset;
        let mut filled: usize = 0;
        loop
            invariant
                self.wf(),
                self@ == positions,
                num_widths == positions.bit_widths.len(),
                last == positions.last_block(offset as int, total as nat),
                positions.range_ok(offset as int, total as nat),
                output@.len() == total,
                filled < total || (total == 0 && filled == 0),
                offset_now == offset + filled,
                self.loaded(),
                self.anchor_block() == offset as int / COMPRESSION_BLOCK_SIZE as int,
                self.loaded_block() == offset_now as int / COMPRESSION_BLOCK_SIZE as int,
                forall|i: int|
                    0 <= i < filled ==> output@[i] == positions.position_at(offset + i),
            ensures
                self.wf(),
                self@ == positions,
                output@ == positions.range(offset as int, total as nat),
            decreases total - filled,
        {
            let offset_in_block: usize = (offset_now % (COMPRESSION_BLOCK_SIZE as u64)) as usize;
            let remaining_in_block: usize = COMPRESSION_BLOCK_SIZE - offset_in_block;
            let wanted: usize = total - filled;
            let ghost block = self.loaded_block();
            let ghost before = output@;
            if remaining_in_block >= wanted {
                proof {
                    assert(block == last);
                }
                copy_range(
                    output,
                    filled,
                    self.block_decoder.output_array(),
                    offset_in_block,
                    wanted,
                );
                proof {
                    assert forall|i: int| filled <= i < total implies output@[i]
                        == positions.position_at(offset + i) by {
                        lemma_same_block(offset_now as int, i - filled);
                    }
                    assert(output@ =~= positions.range(offset as int, total as nat));
                }
                break;
            }
            proof {
                assert(block < last);
                assert(positions.block_ok(last));
                assert(positions.block(block).len() == COMPRESSION_BLOCK_SIZE);
            }
            copy_range(
                output,
                filled,
                self.block_decoder.output_array(),
                offset_in_block,
                remaining_in_block,
            );
            proof {
                assert forall|i: int| filled <= i < filled + remaining_in_block implies output@[i]
                    == positions.position_at(offset + i) by {
                    lemma_same_block(offset_now as int, i - filled);
                }
                assert(positions.block_ok(block + 1));
            }
            filled = filled + remaining_in_block;
            offset_now = offset_now + remaining_in_block as u64;
            let next_block: usize = ((offset_now - self.anchor_offset) / (
            COMPRESSION_BLOCK_SIZE as u64)) as usize;
            self.load_block(next_block);
        }
    }

    /// Says whether the term has JSON array paths.
    pub fn has_json_metadata(&self) -> (has: bool)
        ensures
            has == (self@.metadata is Some),
    {
        !matches!(self.json_metadata, JsonMetadata::Absent)
    }

    /// Puts the JSON array paths of the `doc_ord`-th document of the term into `output`. Says
    /// whether there are any.
    pub fn fill_doc_json_metadata_refs(
        &mut self,
        doc_id: DocId,
        doc_ord: u32,
        output: &mut Vec<JsonArrayPath>,
    ) -> (found: bool)
        requires
            old(self).wf(),
            old(self)@.metadata matches Some(metadata) ==> metadata.doc_ok(doc_ord as int),
        ensures
            final(self).wf(),
            final(self)@ == old(self)@,
            final(output)@ == match old(self)@.metadata {
                Some(metadata) => metadata.doc_paths(doc_ord as int),
                None => Seq::<JsonArrayPath>::empty(),
            },
            found == (final(output)@.len() > 0),
    {
        match &mut self.json_metadata {
            JsonMetadata::Absent => {
                output.clear();
                false
            },
            JsonMetadata::Indexed(indexed) => indexed.fill(doc_id, doc_ord, output),
        }
    }
}

impl Clone for PositionReader {
    fn clone(&self) -> (copy: Self)
        ensures
            self.wf() ==> copy.wf(),
            copy@ == self@,
    {
        PositionReader {
            bit_widths: self.bit_widths.clone(),
            positions: self.positions.clone(),
            block_decoder: self.block_decoder.clone(),
            block_offset: self.block_offset,
            anchor_offset: self.anchor_offset,
            original_bit_widths: self.original_bit_widths.clone(),
            original_positions: self.original_positions.clone(),
            json_metadata: self.json_metadata.copied(),
        }
    }
}

} // verus!
