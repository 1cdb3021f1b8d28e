//! How packed values, JSON metadata and positions are laid out, which is what reading takes
//! back.
use vstd::prelude::*;

use crate::block_decoder::{COMPRESSION_BLOCK_SIZE, MAX_BIT_WIDTH};
use crate::block_packing;
use crate::json_metadata;
use crate::json_metadata::{
    IndexedMetadata, JsonArrayPath, PackedIndexes, PositionError, JSON_METADATA_VERSION,
};
use crate::position_reader;
use crate::position_reader::{Positions, JSON_METADATA_MARKER, JSON_TRAILER_LEN};
use crate::vint;

verus! {

/// Those of `values` that fill the `block`-th block.
pub open spec fn block_of(values: Seq<u32>, block: int) -> Seq<u32> {
    values.subrange(
        block * COMPRESSION_BLOCK_SIZE,
        block * COMPRESSION_BLOCK_SIZE + COMPRESSION_BLOCK_SIZE,
    )
}

/// True when there is a width for each full block of `values`, and each block fits its width.
pub open spec fn widths_fit(values: Seq<u32>, bit_widths: Seq<u8>) -> bool {
    &&& bit_widths.len() == values.len() / COMPRESSION_BLOCK_SIZE as nat
    &&& forall|block: int|
        0 <= block < bit_widths.len() ==> (#[trigger] bit_widths[block]) <= MAX_BIT_WIDTH
            && block_packing::fits(block_of(values, block), bit_widths[block])
}

/// The bytes of the first full blocks of `values`, as many as there are widths.
pub open spec fn packed_blocks(values: Seq<u32>, bit_widths: Seq<u8>) -> Seq<u8>
    decreases bit_widths.len(),
{
    if bit_widths.len() == 0 {
        Seq::empty()
    } else {
        packed_blocks(values, bit_widths.drop_last()) + block_packing::packed_block(
            block_of(values, bit_widths.len() - 1),
            bit_widths.last(),
        )
    }
}

/// Those of `values` that do not fill a block.
pub open spec fn remainder(values: Seq<u32>, bit_widths: Seq<u8>) -> Seq<u32> {
    values.skip(bit_widths.len() * COMPRESSION_BLOCK_SIZE)
}

/// The full blocks of `values`, and what does not fill a block.
pub open spec fn packed_body(values: Seq<u32>, bit_widths: Seq<u8>) -> Seq<u8> {
    packed_blocks(values, bit_widths) + vint::encode_vints(remainder(values, bit_widths))
}

/// `values`, packed: the number of full blocks, their widths, their bytes, and what does not
/// fill a block.
pub open spec fn packed(values: Seq<u32>, bit_widths: Seq<u8>) -> Seq<u8> {
    vint::encode_vint(bit_widths.len()) + bit_widths + packed_body(values, bit_widths)
}

/// The metadata of a term: for each document the number of its path ids, and the path ids of
/// all documents, one document after the other.
pub open spec fn metadata(
    counts: Seq<u32>,
    count_widths: Seq<u8>,
    ids: Seq<u32>,
    id_widths: Seq<u8>,
) -> Seq<u8> {
    vint::encode_vint(JSON_METADATA_VERSION as nat) + (vint::encode_vint(counts.len()) + (packed(
        counts,
        count_widths,
    ) + (vint::encode_vint(ids.len()) + packed(ids, id_widths))))
}

/// `number` in four bytes, the most significant one first.
pub open spec fn be_bytes(number: nat) -> Seq<u8> {
    seq![
        (number / 0x100_0000 % 256) as u8,
        (number / 0x1_0000 % 256) as u8,
        (number / 0x100 % 256) as u8,
        (number % 256) as u8,
    ]
}

/// Metadata as it stands at the end of the positions of a term.
pub open spec fn trailer(metadata: Seq<u8>) -> Seq<u8> {
    metadata + seq![JSON_METADATA_MARKER] + be_bytes(metadata.len())
}

proof fn lemma_packed_blocks_len(values: Seq<u32>, bit_widths: Seq<u8>)
    ensures
        packed_blocks(values, bit_widths).len() == json_metadata::blocks_len(bit_widths),
    decreases bit_widths.len(),
{
    if bit_widths.len() > 0 {
        lemma_packed_blocks_len(values, bit_widths.drop_last());
    }
}

/// A full block is read back, whatever follows the blocks.
proof fn lemma_block_values(values: Seq<u32>, bit_widths: Seq<u8>, rest: Seq<u8>, block: int)
    requires
        bit_widths.len() * COMPRESSION_BLOCK_SIZE <= values.len(),
        0 <= block < bit_widths.len(),
        bit_widths[block] <= MAX_BIT_WIDTH,
        block_packing::fits(block_of(values, block), bit_widths[block]),
    ensures
        json_metadata::block_start(bit_widths, block + 1) <= packed_blocks(
            values,
            bit_widths,
        ).len(),
        json_metadata::block_values(bit_widths, packed_blocks(values, bit_widths) + rest, block)
            == block_of(values, block),
    decreases bit_widths.len(),
{
    let fewer = bit_widths.drop_last();
    let last = block_packing::packed_block(
        block_of(values, bit_widths.len() - 1),
        bit_widths.last(),
    );
    let data = packed_blocks(values, bit_widths) + rest;
    lemma_packed_blocks_len(values, fewer);
    lemma_packed_blocks_len(values, bit_widths);
    json_metadata::lemma_block_in_data(bit_widths, block);
    if block < bit_widths.len() - 1 {
        lemma_block_values(values, fewer, last + rest, block);
        assert(data =~= packed_blocks(values, fewer) + (last + rest));
        assert(fewer.take(block) =~= bit_widths.take(block));
        assert(fewer.take(block + 1) =~= bit_widths.take(block + 1));
    } else {
        assert(bit_widths.take(block) =~= fewer);
        assert(data.subrange(
            json_metadata::block_start(bit_widths, block) as int,
            json_metadata::block_start(bit_widths, block + 1) as int,
        ) =~= last);
        block_packing::lemma_packed_block_roundtrip(block_of(values, block), bit_widths[block]);
    }
}

/// The integers of all full blocks are read back.
proof fn lemma_all_block_values(values: Seq<u32>, bit_widths: Seq<u8>)
    requires
        widths_fit(values, bit_widths),
    ensures
        json_metadata::all_block_values(bit_widths, packed_blocks(values, bit_widths))
            == values.take(bit_widths.len() * COMPRESSION_BLOCK_SIZE),
{
    let blocks = packed_blocks(values, bit_widths);
    let in_blocks = json_metadata::all_block_values(bit_widths, blocks);
    assert forall|index: int| 0 <= index < in_blocks.len() implies in_blocks[index]
        == values[index] by {
        let block = index / COMPRESSION_BLOCK_SIZE as int;
        assert(bit_widths[block] <= MAX_BIT_WIDTH);
        lemma_block_values(values, bit_widths, Seq::empty(), block);
        assert(blocks + Seq::<u8>::empty() =~= blocks);
        assert(block_of(values, block)[index % COMPRESSION_BLOCK_SIZE as int] == values[index]);
    }
    assert(in_blocks =~= values.take(bit_widths.len() * COMPRESSION_BLOCK_SIZE));
}

/// The parts of packed values lie where they are looked for.
proof fn lemma_packed_parts(values: Seq<u32>, bit_widths: Seq<u8>, rest: Seq<u8>)
    requires
        values.len() <= u32::MAX,
        widths_fit(values, bit_widths),
    ensures
        json_metadata::packed_blocks_ok(packed(values, bit_widths) + rest),
        json_metadata::packed_widths(packed(values, bit_widths) + rest) == bit_widths,
        json_metadata::packed_data(packed(values, bit_widths) + rest) == packed_blocks(
            values,
            bit_widths,
        ),
        json_metadata::after_packed_data(packed(values, bit_widths) + rest) == vint::encode_vints(
            remainder(values, bit_widths),
        ) + rest,
{
    let bytes = packed(values, bit_widths) + rest;
    let blocks = packed_blocks(values, bit_widths);
    let after_blocks = vint::encode_vints(remainder(values, bit_widths)) + rest;
    let after_widths = blocks + after_blocks;
    let after_count = bit_widths + after_widths;
    let num_blocks = bit_widths.len();
    assert(bytes =~= vint::encode_vint(num_blocks) + after_count);
    vint::lemma_vint_roundtrip(num_blocks, after_count);
    vint::lemma_encode_vint32_len(num_blocks as u32);
    assert(vint::vint32(bytes) == num_blocks);
    assert(after_count.take(num_blocks as int) =~= bit_widths);
    assert(after_count.skip(num_blocks as int) =~= after_widths);
    lemma_packed_blocks_len(values, bit_widths);
    assert(after_widths.take(blocks.len() as int) =~= blocks);
    assert(after_widths.skip(blocks.len() as int) =~= after_blocks);
}

/// Values are read back from what they are packed to, whatever follows.
pub proof fn lemma_packed_roundtrip(values: Seq<u32>, bit_widths: Seq<u8>, rest: Seq<u8>)
    requires
        values.len() <= u32::MAX,
        widths_fit(values, bit_widths),
    ensures
        json_metadata::packed_ok(packed(values, bit_widths) + rest, values.len()),
        json_metadata::packed_widths(packed(values, bit_widths) + rest) == bit_widths,
        json_metadata::widths_ok(bit_widths),
        json_metadata::packed_data(packed(values, bit_widths) + rest) == packed_blocks(
            values,
            bit_widths,
        ),
        json_metadata::packed_remainder(packed(values, bit_widths) + rest, values.len())
            == remainder(values, bit_widths),
        json_metadata::packed_values(packed(values, bit_widths) + rest, values.len()) == values,
        json_metadata::after_packed(packed(values, bit_widths) + rest, values.len()) == rest,
{
    let tail = remainder(values, bit_widths);
    lemma_packed_parts(values, bit_widths, rest);
    lemma_all_block_values(values, bit_widths);
    vint::lemma_vints_roundtrip(tail, rest);
    assert(tail.len() == json_metadata::remainder_count(values.len()));
    let in_blocks = values.take(bit_widths.len() * COMPRESSION_BLOCK_SIZE);
    assert(in_blocks + tail =~= values);
}

proof fn lemma_sum_zero(values: Seq<u32>)
    requires
        json_metadata::all_zero(values),
    ensures
        json_metadata::sum(values) == 0,
    decreases values.len(),
{
    if values.len() > 0 {
        lemma_sum_zero(values.drop_last());
    }
}

/// The path ids `values`, as they are stored.
pub open spec fn stored_indexes(values: Seq<u32>, bit_widths: Seq<u8>) -> PackedIndexes {
    PackedIndexes {
        bit_widths,
        data: packed_blocks(values, bit_widths),
        tail: remainder(values, bit_widths),
    }
}

/// Every range of path ids is read back from where they are stored.
pub proof fn lemma_packed_indexes(values: Seq<u32>, bit_widths: Seq<u8>, start: int, end: int)
    requires
        widths_fit(values, bit_widths),
        0 <= start <= end <= values.len(),
    ensures
        stored_indexes(values, bit_widths).range_ok(start, (end - start) as nat),
        stored_indexes(values, bit_widths).range(start, (end - start) as nat) == values.subrange(
            start,
            end,
        ),
{
    let indexes = stored_indexes(values, bit_widths);
    assert forall|index: int| 0 <= index < values.len() implies indexes.value_at(index)
        == values[index] by {
        if index < indexes.tail_start() {
            let block = index / COMPRESSION_BLOCK_SIZE as int;
            assert(bit_widths[block] <= MAX_BIT_WIDTH);
            lemma_block_values(values, bit_widths, Seq::empty(), block);
            assert(indexes.data + Seq::<u8>::empty() =~= indexes.data);
            assert(block_of(values, block)[index % COMPRESSION_BLOCK_SIZE as int]
                == values[index]);
        }
    }
    assert(indexes.range(start, (end - start) as nat) =~= values.subrange(start, end));
}

/// Path ids are read back from what they are packed to, whatever follows, and nothing of what
/// follows is taken.
pub proof fn lemma_indexes_roundtrip(values: Seq<u32>, bit_widths: Seq<u8>, rest: Seq<u8>)
    requires
        values.len() <= u32::MAX,
        widths_fit(values, bit_widths),
    ensures
        json_metadata::packed_ok(packed(values, bit_widths) + rest, values.len()),
        json_metadata::packed_indexes(packed(values, bit_widths) + rest, values.len())
            == stored_indexes(values, bit_widths),
        json_metadata::packed_indexes(packed(values, bit_widths) + rest, values.len()).range(
            0,
            values.len(),
        ) == values,
        json_metadata::after_packed(packed(values, bit_widths) + rest, values.len()) == rest,
{
    lemma_packed_roundtrip(values, bit_widths, rest);
    json_metadata::lemma_indexes_are_packed_values(
        packed(values, bit_widths) + rest,
        values.len(),
    );
}

/// A number is read back from its encoding as a 32-bit number.
proof fn lemma_vint32_roundtrip(value: nat, rest: Seq<u8>)
    requires
        value <= u32::MAX,
    ensures
        vint::vint32_ok(vint::encode_vint(value) + rest),
        vint::vint32(vint::encode_vint(value) + rest) == value,
        vint::after_vint(vint::encode_vint(value) + rest) == rest,
        vint::encode_vint(value).len() > 0,
{
    vint::lemma_vint_roundtrip(value, rest);
    vint::lemma_encode_vint32_len(value as u32);
}

/// The parts of the metadata of a term lie where they are looked for.
proof fn lemma_metadata_parts(
    counts: Seq<u32>,
    count_widths: Seq<u8>,
    ids: Seq<u32>,
    id_widths: Seq<u8>,
)
    requires
        counts.len() <= u32::MAX,
        ids.len() <= u32::MAX,
        widths_fit(counts, count_widths),
    ensures
        ({
            let bytes = metadata(counts, count_widths, ids, id_widths);
            &&& bytes.len() > 0
            &&& vint::vint32_ok(bytes)
            &&& vint::vint32(bytes) == JSON_METADATA_VERSION
            &&& vint::vint32_ok(json_metadata::after_version(bytes))
            &&& json_metadata::metadata_num_docs(bytes) == counts.len()
            &&& json_metadata::packed_ok(json_metadata::metadata_counts_on(bytes), counts.len())
            &&& json_metadata::widths_ok(
                json_metadata::packed_widths(json_metadata::metadata_counts_on(bytes)),
            )
            &&& json_metadata::metadata_counts(bytes) == counts
            &&& vint::vint32_ok(json_metadata::metadata_total_on(bytes))
            &&& json_metadata::metadata_total(bytes) == ids.len()
            &&& json_metadata::metadata_indexes_on(bytes) == packed(ids, id_widths)
        }),
{
    let indexes_on = packed(ids, id_widths);
    let total_on = vint::encode_vint(ids.len()) + indexes_on;
    let counts_on = packed(counts, count_widths) + total_on;
    let num_docs_on = vint::encode_vint(counts.len()) + counts_on;
    lemma_vint32_roundtrip(JSON_METADATA_VERSION as nat, num_docs_on);
    lemma_vint32_roundtrip(counts.len(), counts_on);
    lemma_packed_roundtrip(counts, count_widths, total_on);
    lemma_vint32_roundtrip(ids.len(), indexes_on);
}

/// The metadata of a term is read back.
proof fn lemma_metadata_parsed(
    counts: Seq<u32>,
    count_widths: Seq<u8>,
    ids: Seq<u32>,
    id_widths: Seq<u8>,
    paths: Seq<JsonArrayPath>,
)
    requires
        counts.len() <= u32::MAX,
        0 < ids.len() <= u32::MAX,
        widths_fit(counts, count_widths),
        widths_fit(ids, id_widths),
        json_metadata::sum(counts) == ids.len(),
    ensures
        json_metadata::metadata_ok(metadata(counts, count_widths, ids, id_widths), true),
        json_metadata::parsed_metadata(
            metadata(counts, count_widths, ids, id_widths),
            Some(paths),
        ) == Ok::<Option<IndexedMetadata>, PositionError>(
            Some(
                IndexedMetadata { counts, indexes: stored_indexes(ids, id_widths), paths },
            ),
        ),
{
    lemma_metadata_parts(counts, count_widths, ids, id_widths);
    lemma_packed_roundtrip(ids, id_widths, Seq::empty());
    assert(packed(ids, id_widths) + Seq::<u8>::empty() =~= packed(ids, id_widths));
    if json_metadata::all_zero(counts) {
        lemma_sum_zero(counts);
    }
}

/// The path ids of each document are read back from the metadata of a term.
pub proof fn lemma_metadata_roundtrip(
    counts: Seq<u32>,
    count_widths: Seq<u8>,
    ids: Seq<u32>,
    id_widths: Seq<u8>,
    paths: Seq<JsonArrayPath>,
    doc_ord: int,
)
    requires
        counts.len() <= u32::MAX,
        0 < ids.len() <= u32::MAX,
        widths_fit(counts, count_widths),
        widths_fit(ids, id_widths),
        json_metadata::sum(counts) == ids.len(),
        0 <= doc_ord < counts.len(),
    ensures
        json_metadata::metadata_ok(metadata(counts, count_widths, ids, id_widths), true),
        json_metadata::parsed_metadata(
            metadata(counts, count_widths, ids, id_widths),
            Some(paths),
        ) matches Ok(Some(found)) && found.counts == counts && found.paths == paths
            && found.doc_ok(doc_ord) && found.doc_path_ids(doc_ord) == ids.subrange(
            json_metadata::sum(counts.take(doc_ord)) as int,
            json_metadata::sum(counts.take(doc_ord + 1)) as int,
        ),
{
    let start = json_metadata::sum(counts.take(doc_ord)) as int;
    let end = json_metadata::sum(counts.take(doc_ord + 1)) as int;
    lemma_metadata_parsed(counts, count_widths, ids, id_widths, paths);
    assert(counts.take(doc_ord + 1).drop_last() =~= counts.take(doc_ord));
    json_metadata::lemma_sum_monotonic(counts, doc_ord + 1, counts.len() as int);
    assert(counts.take(counts.len() as int) =~= counts);
    lemma_packed_indexes(ids, id_widths, start, end);
}

/// The paths of each document are read back from the metadata of a term: as many as the
/// document has path ids, each of them the one that the table has for the path id. Path ids
/// that are 0 or not in the table are passed over, where there are any. Documents behind the
/// last have no paths.
pub proof fn lemma_paths_roundtrip(
    counts: Seq<u32>,
    count_widths: Seq<u8>,
    ids: Seq<u32>,
    id_widths: Seq<u8>,
    paths: Seq<JsonArrayPath>,
    doc_ord: int,
)
    requires
        counts.len() <= u32::MAX,
        0 < ids.len() <= u32::MAX,
        widths_fit(counts, count_widths),
        widths_fit(ids, id_widths),
        json_metadata::sum(counts) == ids.len(),
        0 <= doc_ord,
    ensures
        json_metadata::parsed_metadata(
            metadata(counts, count_widths, ids, id_widths),
            Some(paths),
        ) matches Ok(Some(found)) && {
            let start = json_metadata::sum(counts.take(doc_ord)) as int;
            let found_paths = found.doc_paths(doc_ord);
            &&& found.doc_ok(doc_ord)
            &&& doc_ord >= counts.len() ==> found_paths.len() == 0
            &&& doc_ord < counts.len() ==> {
                &&& start + counts[doc_ord] <= ids.len()
                &&& found_paths == ids.subrange(start, start + counts[doc_ord]).filter(
                    |id: u32| id != 0 && id < paths.len(),
                ).map_values(|id: u32| paths[id as int])
                &&& (forall|i: int|
                    #![trigger ids[i]]
                    0 <= i < ids.len() ==> 0 < ids[i] < paths.len()) ==> {
                    &&& found_paths.len() == counts[doc_ord]
                    &&& forall|i: int|
                        #![trigger found_paths[i]]
                        0 <= i < counts[doc_ord] ==> found_paths[i] == paths[ids[start + i] as int]
                }
            }
        },
{
    lemma_metadata_parsed(counts, count_widths, ids, id_widths, paths);
    if doc_ord < counts.len() {
        let start = json_metadata::sum(counts.take(doc_ord)) as int;
        let own = ids.subrange(start, start + counts[doc_ord]);
        lemma_metadata_roundtrip(counts, count_widths, ids, id_widths, paths, doc_ord);
        assert(counts.take(doc_ord + 1).drop_last() =~= counts.take(doc_ord));
        assert(json_metadata::sum(counts.take(doc_ord + 1)) == start + counts[doc_ord]);
        json_metadata::lemma_sum_monotonic(counts, doc_ord + 1, counts.len() as int);
        assert(counts.take(counts.len() as int) =~= counts);
        json_metadata::lemma_paths_of_ids(paths, own);
        let known = |id: u32| id != 0 && id < paths.len();
        let path = |id: u32| paths[id as int];
        assert(json_metadata::resolve_paths(paths, own) =~= own.filter(known).map_values(path));
        if forall|i: int| #![trigger ids[i]] 0 <= i < ids.len() ==> 0 < ids[i] < paths.len() {
            assert forall|i: int| #![trigger own[i]] 0 <= i < own.len() implies 0 < own[i]
                < paths.len() by {
                assert(own[i] == ids[start + i]);
            }
            let found_paths = json_metadata::resolve_paths(paths, own);
            assert forall|i: int|
                #![trigger found_paths[i]]
                0 <= i < counts[doc_ord] implies found_paths[i] == paths[ids[start
                + i] as int] by {
                assert(own[i] == ids[start + i]);
            }
        }
    }
}

/// Metadata that says of no path is as if there was none, and so is any without a table. A
/// version other than the only one is refused, whatever follows.
pub proof fn lemma_metadata_without_paths(
    counts: Seq<u32>,
    count_widths: Seq<u8>,
    ids: Seq<u32>,
    id_widths: Seq<u8>,
    paths: Seq<JsonArrayPath>,
    version: u32,
    rest: Seq<u8>,
)
    requires
        counts.len() <= u32::MAX,
        ids.len() <= u32::MAX,
        widths_fit(counts, count_widths),
        widths_fit(ids, id_widths),
    ensures
        counts.len() == 0 || ids.len() == 0 || (forall|i: int|
            #![trigger counts[i]]
            0 <= i < counts.len() ==> counts[i] == 0) ==> json_metadata::parsed_metadata(
            metadata(counts, count_widths, ids, id_widths),
            Some(paths),
        ) == Ok::<Option<IndexedMetadata>, PositionError>(None),
        json_metadata::parsed_metadata(rest, None) == Ok::<Option<IndexedMetadata>, PositionError>(
            None,
        ),
        json_metadata::parsed_metadata(Seq::empty(), Some(paths)) == Ok::<
            Option<IndexedMetadata>,
            PositionError,
        >(None),
        version != 1 ==> json_metadata::parsed_metadata(
            vint::encode_vint(version as nat) + rest,
            Some(paths),
        ) == Err::<Option<IndexedMetadata>, PositionError>(PositionError::UnsupportedVersion),
{
    lemma_metadata_parts(counts, count_widths, ids, id_widths);
    lemma_vint32_roundtrip(version as nat, rest);
}

/// How values are laid out: the number of full blocks of 128, a byte for the width of each, the
/// blocks, and the rest of the values as variable-length integers. Metadata is the version, which
/// is one, the number of documents, the packed counts, the number of ids and the packed ids. At
/// the end of positions it is followed by a marker and its length in four bytes.
pub proof fn lemma_layout(
    values: Seq<u32>,
    bit_widths: Seq<u8>,
    counts: Seq<u32>,
    count_widths: Seq<u8>,
    bytes: Seq<u8>,
)
    requires
        widths_fit(values, bit_widths),
    ensures
        bit_widths.len() == values.len() / 128,
        packed(values, bit_widths) == vint::encode_vint(values.len() / 128) + bit_widths
            + packed_blocks(values, bit_widths) + vint::encode_vints(
            values.skip((values.len() / 128 * 128) as int),
        ),
        metadata(counts, count_widths, values, bit_widths) == seq![129u8] + vint::encode_vint(
            counts.len(),
        ) + packed(counts, count_widths) + vint::encode_vint(values.len()) + packed(
            values,
            bit_widths,
        ),
        trailer(bytes) == bytes + seq![
            0xFEu8,
            (bytes.len() / 0x100_0000 % 256) as u8,
            (bytes.len() / 0x1_0000 % 256) as u8,
            (bytes.len() / 0x100 % 256) as u8,
            (bytes.len() % 256) as u8,
        ],
{
    assert(vint::encode_vint(1) =~= seq![129u8]);
    assert(packed(values, bit_widths) =~= vint::encode_vint(values.len() / 128) + bit_widths
        + packed_blocks(values, bit_widths) + vint::encode_vints(
        values.skip((values.len() / 128 * 128) as int),
    ));
    assert(metadata(counts, count_widths, values, bit_widths) =~= seq![129u8] + vint::encode_vint(
        counts.len(),
    ) + packed(counts, count_widths) + vint::encode_vint(values.len()) + packed(
        values,
        bit_widths,
    ));
    assert(trailer(bytes) =~= bytes + seq![
        0xFEu8,
        (bytes.len() / 0x100_0000 % 256) as u8,
        (bytes.len() / 0x1_0000 % 256) as u8,
        (bytes.len() / 0x100 % 256) as u8,
        (bytes.len() % 256) as u8,
    ]);
}

/// The positions `values`, with `metadata`.
pub open spec fn positions(
    values: Seq<u32>,
    bit_widths: Seq<u8>,
    metadata: Option<IndexedMetadata>,
) -> Positions {
    Positions { bit_widths, body: packed_body(values, bit_widths), metadata }
}

/// Every range of positions is read back.
pub proof fn lemma_positions_roundtrip(
    values: Seq<u32>,
    bit_widths: Seq<u8>,
    metadata: Option<IndexedMetadata>,
    offset: int,
    count: nat,
)
    requires
        values.len() < i64::MAX,
        widths_fit(values, bit_widths),
        0 <= offset,
        offset + count <= values.len(),
    ensures
        positions(values, bit_widths, metadata).range_ok(offset, count),
        positions(values, bit_widths, metadata).range(offset, count) == values.subrange(
            offset,
            offset + count,
        ),
{
    let stored = positions(values, bit_widths, metadata);
    let num_blocks = bit_widths.len() as int;
    assert forall|block: int| 0 <= block <= num_blocks implies #[trigger] stored.block_ok(block)
        && stored.block(block) == if block < num_blocks {
        block_of(values, block)
    } else {
        remainder(values, bit_widths)
    } by {
        lemma_stored_block(values, bit_widths, metadata, block);
    }
    assert forall|index: int| 0 <= index < values.len() implies stored.position_at(index)
        == values[index] by {
        let block = index / COMPRESSION_BLOCK_SIZE as int;
        assert(stored.block_ok(block));
    }
    assert(stored.range(offset, count) =~= values.subrange(offset, offset + count));
    let last = stored.last_block(offset, count);
    assert(stored.block_ok(last));
}

proof fn lemma_stored_block(
    values: Seq<u32>,
    bit_widths: Seq<u8>,
    metadata: Option<IndexedMetadata>,
    block: int,
)
    requires
        widths_fit(values, bit_widths),
        0 <= block <= bit_widths.len(),
    ensures
        positions(values, bit_widths, metadata).block_ok(block),
        positions(values, bit_widths, metadata).block(block) == if block < bit_widths.len() {
            block_of(values, block)
        } else {
            remainder(values, bit_widths)
        },
{
    let stored = positions(values, bit_widths, metadata);
    let tail = vint::encode_vints(remainder(values, bit_widths));
    lemma_packed_blocks_len(values, bit_widths);
    if block < bit_widths.len() {
        assert(bit_widths[block] <= MAX_BIT_WIDTH);
        lemma_block_values(values, bit_widths, tail, block);
    } else {
        assert(stored.body.skip(json_metadata::blocks_len(bit_widths) as int) =~= tail);
        vint::lemma_vint_run_roundtrip(
            remainder(values, bit_widths),
            COMPRESSION_BLOCK_SIZE as nat,
        );
    }
}

/// The widths of positions are read back, whatever follows them.
proof fn lemma_opened_widths(values: Seq<u32>, bit_widths: Seq<u8>, rest: Seq<u8>)
    requires
        bit_widths.len() <= u64::MAX,
    ensures
        ({
            let bytes = packed(values, bit_widths) + rest;
            &&& vint::vint64_ok(bytes)
            &&& vint::vint64(bytes) == bit_widths.len()
            &&& vint::vint64(bytes) <= vint::after_vint(bytes).len()
            &&& vint::after_vint(bytes).take(bit_widths.len() as int) == bit_widths
            &&& position_reader::after_widths(bytes) == packed_body(values, bit_widths) + rest
        }),
{
    let bytes = packed(values, bit_widths) + rest;
    let num_blocks = bit_widths.len();
    let body = packed_body(values, bit_widths) + rest;
    assert(bytes =~= vint::encode_vint(num_blocks) + (bit_widths + body));
    vint::lemma_vint_roundtrip(num_blocks, bit_widths + body);
    vint::lemma_encode_vint64_len(num_blocks as u64);
    assert((bit_widths + body).take(num_blocks as int) =~= bit_widths);
    assert((bit_widths + body).skip(num_blocks as int) =~= body);
}

/// Positions without metadata are opened as they are, unless they look as if they had some.
pub proof fn lemma_opened_without_trailer(
    values: Seq<u32>,
    bit_widths: Seq<u8>,
    paths: Option<Seq<JsonArrayPath>>,
)
    requires
        bit_widths.len() <= u64::MAX,
        !position_reader::has_trailer(packed_body(values, bit_widths)),
    ensures
        position_reader::open_ok(packed(values, bit_widths), paths is Some),
        position_reader::opened(packed(values, bit_widths), paths) == Ok::<
            Positions,
            PositionError,
        >(positions(values, bit_widths, None)),
{
    lemma_opened_widths(values, bit_widths, Seq::empty());
    assert(packed(values, bit_widths) + Seq::<u8>::empty() =~= packed(values, bit_widths));
    assert(packed_body(values, bit_widths) + Seq::<u8>::empty() =~= packed_body(
        values,
        bit_widths,
    ));
}

/// Metadata at the end of bytes is found.
proof fn lemma_trailer_found(body: Seq<u8>, metadata: Seq<u8>)
    requires
        metadata.len() <= u32::MAX,
        body.len() + metadata.len() > 0,
    ensures
        ({
            let bytes = body + trailer(metadata);
            &&& position_reader::has_trailer(bytes)
            &&& position_reader::trailer_metadata(bytes) == metadata
            &&& bytes.take(position_reader::trailer_start(bytes)) == body
        }),
{
    let bytes = body + trailer(metadata);
    let len = metadata.len();
    let start = (body.len() + len) as int;
    assert(trailer(metadata).len() == len + JSON_TRAILER_LEN);
    assert(bytes.len() == start + JSON_TRAILER_LEN);
    assert(bytes[start] == JSON_METADATA_MARKER);
    assert(position_reader::trailer_len(bytes) == len) by {
        assert(bytes[start + 1] == be_bytes(len)[0]);
        assert(bytes[start + 2] == be_bytes(len)[1]);
        assert(bytes[start + 3] == be_bytes(len)[2]);
        assert(bytes[start + 4] == be_bytes(len)[3]);
        block_packing::lemma_four_bytes(len);
    }
    assert(position_reader::trailer_metadata(bytes) =~= metadata);
    assert(bytes.take(position_reader::trailer_start(bytes)) =~= body);
}

/// Metadata at the end of positions leaves them as they are: they are opened as they would be
/// without it, and with what the metadata says.
pub proof fn lemma_opened_with_trailer(
    values: Seq<u32>,
    bit_widths: Seq<u8>,
    metadata: Seq<u8>,
    paths: Option<Seq<JsonArrayPath>>,
)
    requires
        bit_widths.len() <= u64::MAX,
        metadata.len() <= u32::MAX,
        packed_body(values, bit_widths).len() + metadata.len() > 0,
    ensures
        position_reader::open_ok(packed(values, bit_widths) + trailer(metadata), paths is Some)
            <==> json_metadata::metadata_ok(metadata, paths is Some),
        position_reader::opened(packed(values, bit_widths) + trailer(metadata), paths) == (
        match json_metadata::parsed_metadata(metadata, paths) {
            Ok(found) => Ok(positions(values, bit_widths, found)),
            Err(error) => Err(error),
        }),
{
    lemma_opened_widths(values, bit_widths, trailer(metadata));
    lemma_trailer_found(packed_body(values, bit_widths), metadata);
}

/// Positions and paths are read back from what the positions of a term are written to: every
/// range of the positions, and of each document the path that the table has for each of its
/// path ids.
pub proof fn lemma_term_roundtrip(
    values: Seq<u32>,
    bit_widths: Seq<u8>,
    counts: Seq<u32>,
    count_widths: Seq<u8>,
    ids: Seq<u32>,
    id_widths: Seq<u8>,
    paths: Seq<JsonArrayPath>,
    offset: int,
    count: nat,
    doc_ord: int,
)
    requires
        values.len() < i64::MAX,
        widths_fit(values, bit_widths),
        0 <= offset,
        offset + count <= values.len(),
        counts.len() <= u32::MAX,
        0 < ids.len() <= u32::MAX,
        widths_fit(counts, count_widths),
        widths_fit(ids, id_widths),
        json_metadata::sum(counts) == ids.len(),
        forall|i: int| #![trigger ids[i]] 0 <= i < ids.len() ==> 0 < ids[i] < paths.len(),
        metadata(counts, count_widths, ids, id_widths).len() <= u32::MAX,
        0 <= doc_ord < counts.len(),
    ensures
        position_reader::opened(
            packed(values, bit_widths) + trailer(metadata(counts, count_widths, ids, id_widths)),
            Some(paths),
        ) matches Ok(opened) && {
            let start = json_metadata::sum(counts.take(doc_ord)) as int;
            &&& opened.range_ok(offset, count)
            &&& opened.range(offset, count) == values.subrange(offset, offset + count)
            &&& opened.metadata matches Some(found) && {
                let found_paths = found.doc_paths(doc_ord);
                &&& found.doc_ok(doc_ord)
                &&& start + counts[doc_ord] <= ids.len()
                &&& found_paths.len() == counts[doc_ord]
                &&& forall|i: int|
                    #![trigger found_paths[i]]
                    0 <= i < counts[doc_ord] ==> found_paths[i] == paths[ids[start + i] as int]
            }
        },
{
    let bytes = metadata(counts, count_widths, ids, id_widths);
    assert(bytes.len() > 0) by {
        lemma_metadata_parts(counts, count_widths, ids, id_widths);
    }
    lemma_paths_roundtrip(counts, count_widths, ids, id_widths, paths, doc_ord);
    let parsed = json_metadata::parsed_metadata(bytes, Some(paths));
    let found = parsed->Ok_0->Some_0;
    lemma_opened_with_trailer(values, bit_widths, bytes, Some(paths));
    lemma_positions_roundtrip(values, bit_widths, Some(found), offset, count);
}

} // verus!
