//! Documents of a segment.
use vstd::prelude::*;

verus! {

/// A document, by its number in the segment.
pub type DocId = u32;

/// What a cursor stands on when it has passed all documents.
pub const TERMINATED: DocId = 0x7fff_ffff;

/// The number of documents in a full block.
pub const COLLECT_BLOCK_BUFFER_LEN: usize = 64;

/// The documents of several blocks, one block after the other.
pub open spec fn joined(blocks: Seq<Vec<DocId>>) -> Seq<DocId>
    decreases blocks.len(),
{
    if blocks.len() == 0 {
        Seq::empty()
    } else {
        joined(blocks.drop_last()) + blocks.last()@
    }
}

/// True when all blocks but the last are full, and the last is not.
pub open spec fn filled(blocks: Seq<Vec<DocId>>) -> bool {
    &&& blocks.len() > 0
    &&& forall|i: int|
        0 <= i < blocks.len() - 1 ==> (#[trigger] blocks[i])@.len() == COLLECT_BLOCK_BUFFER_LEN
    &&& blocks.last()@.len() < COLLECT_BLOCK_BUFFER_LEN
}

/// True when each document is before the next.
pub open spec fn ascending(docs: Seq<DocId>) -> bool {
    forall|i: int, j: int| 0 <= i < j < docs.len() ==> docs[i] < docs[j]
}

/// Blocks stand one after the other. In those that are filled, each but the last has 64
/// documents and the last has fewer, so that a document's place says where it is found.
pub proof fn lemma_joined(blocks: Seq<Vec<DocId>>)
    ensures
        joined(blocks) == blocks.flat_map(|block: Vec<DocId>| block@),
        filled(blocks) ==> {
            &&& blocks.len() == joined(blocks).len() / 64 + 1
            &&& forall|i: int|
                #![trigger joined(blocks)[i]]
                0 <= i < joined(blocks).len() ==> {
                    &&& i % 64 < blocks[i / 64]@.len()
                    &&& joined(blocks)[i] == blocks[i / 64]@[i % 64]
                }
        },
{
    lemma_joined_flat(blocks);
    if filled(blocks) {
        let full = blocks.drop_last();
        assert forall|i: int| 0 <= i < full.len() implies (#[trigger] full[i])@.len() == 64 by {
            assert(blocks[i] == full[i]);
        }
        lemma_joined_full(full);
        assert(blocks[blocks.len() - 1] == blocks.last());
        assert forall|i: int| #![trigger joined(blocks)[i]] 0 <= i < joined(blocks).len() implies {
            &&& i % 64 < blocks[i / 64]@.len()
            &&& joined(blocks)[i] == blocks[i / 64]@[i % 64]
        } by {
            if i < joined(full).len() {
                assert(joined(full)[i] == full[i / 64]@[i % 64]);
                assert(full[i / 64] == blocks[i / 64]);
                assert(full[i / 64]@.len() == 64);
            } else {
                assert(i / 64 == blocks.len() - 1);
                assert(i % 64 == i - joined(full).len());
            }
        }
    }
}

/// Joining blocks is joining what they hold.
proof fn lemma_joined_flat(blocks: Seq<Vec<DocId>>)
    ensures
        joined(blocks) == blocks.flat_map(|block: Vec<DocId>| block@),
    decreases blocks.len(),
{
    let docs = |block: Vec<DocId>| block@;
    if blocks.len() > 0 {
        let fewer = blocks.drop_last();
        lemma_joined_flat(fewer);
        fewer.lemma_flat_map_push(docs, blocks.last());
        assert(fewer.push(blocks.last()) =~= blocks);
    } else {
        assert(blocks.map_values(docs) =~= Seq::empty());
    }
}

/// Where a document of full blocks is found.
proof fn lemma_joined_full(blocks: Seq<Vec<DocId>>)
    requires
        forall|i: int| 0 <= i < blocks.len() ==> (#[trigger] blocks[i])@.len() == 64,
    ensures
        joined(blocks).len() == 64 * blocks.len(),
        forall|i: int|
            #![trigger joined(blocks)[i]]
            0 <= i < joined(blocks).len() ==> joined(blocks)[i] == blocks[i / 64]@[i % 64],
    decreases blocks.len(),
{
    if blocks.len() > 0 {
        let fewer = blocks.drop_last();
        assert forall|i: int| 0 <= i < fewer.len() implies (#[trigger] fewer[i])@.len() == 64 by {
            assert(blocks[i] == fewer[i]);
        }
        lemma_joined_full(fewer);
        assert(blocks[blocks.len() - 1] == blocks.last());
        assert forall|i: int|
            #![trigger joined(blocks)[i]]
            0 <= i < joined(blocks).len() implies joined(blocks)[i] == blocks[i / 64]@[i
            % 64] by {
            if i < joined(fewer).len() {
                assert(joined(fewer)[i] == fewer[i / 64]@[i % 64]);
            } else {
                assert(i / 64 == blocks.len() - 1);
                assert(i % 64 == i - joined(fewer).len());
            }
        }
    }
}

/// Documents that ascend hold none twice, and stand in the order of their numbers.
pub proof fn lemma_ascending(docs: Seq<DocId>)
    ensures
        ascending(docs) <==> docs.no_duplicates() && forall|i: int, j: int|
            #![trigger docs[i], docs[j]]
            0 <= i <= j < docs.len() ==> docs[i] <= docs[j],
{
    if docs.no_duplicates() && forall|i: int, j: int|
        #![trigger docs[i], docs[j]]
        0 <= i <= j < docs.len() ==> docs[i] <= docs[j] {
        assert forall|i: int, j: int| 0 <= i < j < docs.len() implies docs[i] < docs[j] by {
            assert(docs[i] <= docs[j]);
            assert(docs[i] != docs[j]);
        }
    }
}

} // verus!
