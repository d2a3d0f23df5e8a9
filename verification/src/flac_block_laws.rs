//! What is found of the metadata blocks of a FLAC stream.

use vstd::prelude::*;
use crate::bytes::be24_at;
use crate::flac::{block_end, comment_block, last_block, payload_at, FlacError};
use crate::flac_laws::{chain, stream, Block};

verus! {

/// The comment block is the first block of the stream that holds comments, and its
/// payload is that block's. Where there is none, no block holds comments.
pub proof fn law_comment_block_is_the_first(data: Seq<u8>)
    requires
        stream(data) is Some,
    ensures
        ({
            let blocks = stream_blocks(data);
            match comment_block(data, 4) {
                Ok(Some(h)) => exists|i: int|
                    0 <= i < blocks.len() && (#[trigger] blocks[i]).kind == 4 && blocks[i].payload
                        == payload_at(data, h) && forall|j: int|
                        0 <= j < i ==> (#[trigger] blocks[j]).kind != 4,
                Ok(None) => forall|j: int| 0 <= j < blocks.len() ==> (#[trigger] blocks[j]).kind != 4,
                Err(_) => false,
            }
        }),
{
    lemma_first_comments(data, 4);
    assert(stream_blocks(data) == blocks_of(data.skip(4)));
}

spec fn blocks_of(rest: Seq<u8>) -> Seq<Block> {
    match chain(rest) {
        Some((blocks, _)) => blocks,
        None => Seq::empty(),
    }
}

/// The metadata blocks of a FLAC stream.
pub open spec fn stream_blocks(data: Seq<u8>) -> Seq<Block> {
    match stream(data) {
        Some((blocks, _)) => blocks,
        None => Seq::empty(),
    }
}

proof fn lemma_first_comments(data: Seq<u8>, pos: int)
    requires
        0 <= pos <= data.len(),
        chain(data.skip(pos)) is Some,
    ensures
        ({
            let blocks = blocks_of(data.skip(pos));
            match comment_block(data, pos) {
                Ok(Some(h)) => exists|i: int|
                    0 <= i < blocks.len() && (#[trigger] blocks[i]).kind == 4 && blocks[i].payload
                        == payload_at(data, h) && forall|j: int|
                        0 <= j < i ==> (#[trigger] blocks[j]).kind != 4,
                Ok(None) => forall|j: int| 0 <= j < blocks.len() ==> (#[trigger] blocks[j]).kind != 4,
                Err(_) => false,
            }
        }),
    decreases data.len() - pos,
{
    let rest = data.skip(pos);
    let end = block_end(data, pos);
    let blocks = blocks_of(rest);
    assert(be24_at(rest, 1) == be24_at(data, pos + 1));
    let block = Block { kind: (rest[0] % 128) as u8, payload: rest.subrange(4, end - pos) };
    assert(rest.subrange(4, end - pos) =~= data.subrange(pos + 4, end));
    assert(rest.skip(end - pos) =~= data.skip(end));
    assert(blocks[0] == block);
    if data[pos] % 128 == 4 {
        assert(blocks[0].payload == payload_at(data, pos));
    } else if data[pos] < 128 {
        lemma_first_comments(data, end);
        let tail = blocks_of(data.skip(end));
        assert(blocks == seq![block] + tail);
        match comment_block(data, end) {
            Ok(Some(h)) => {
                let i = choose|i: int|
                    0 <= i < tail.len() && (#[trigger] tail[i]).kind == 4 && tail[i].payload
                        == payload_at(data, h) && forall|j: int|
                        0 <= j < i ==> (#[trigger] tail[j]).kind != 4;
                assert(blocks[i + 1] == tail[i]);
                assert forall|j: int| 0 <= j < i + 1 implies (#[trigger] blocks[j]).kind != 4 by {
                    if j > 0 {
                        assert(blocks[j] == tail[j - 1]);
                    }
                }
            },
            Ok(None) => {
                assert forall|j: int| 0 <= j < blocks.len() implies (#[trigger] blocks[j]).kind
                    != 4 by {
                    if j > 0 {
                        assert(blocks[j] == tail[j - 1]);
                    }
                }
            },
            Err(_) => {},
        }
    }
}

/// Why a stream is refused: it ends within the header of a block, or within a
/// block. The block that is looked for counts as found where it begins, if it holds
/// comments, and where it is marked as the last one, if that is looked for.
pub proof fn law_truncated_streams(data: Seq<u8>, pos: int)
    requires
        0 <= pos,
    ensures
        ({
            let short = data.len() < pos + 4;
            let next = pos + 4 + (data[pos + 1] * 256 + data[pos + 2]) * 256 + data[pos + 3];
            let marked = data[pos] >= 128;
            let comments_here = data[pos] == 4 || data[pos] == 132;
            &&& short ==> last_block(data, pos) == Err::<int, FlacError>(
                FlacError::TruncatedMetadata,
            ) && comment_block(data, pos) == Err::<Option<int>, FlacError>(
                FlacError::TruncatedMetadata,
            )
            &&& !short && comments_here ==> comment_block(data, pos) == Ok::<Option<int>, FlacError>(
                Some(pos),
            )
            &&& !short && next > data.len() ==> last_block(data, pos) == Err::<int, FlacError>(
                FlacError::TruncatedBlock,
            ) && (!comments_here ==> comment_block(data, pos) == Err::<Option<int>, FlacError>(
                FlacError::TruncatedBlock,
            ))
            &&& !short && next <= data.len() && marked ==> last_block(data, pos) == Ok::<
                int,
                FlacError,
            >(pos) && (!comments_here ==> comment_block(data, pos) == Ok::<Option<int>, FlacError>(
                None,
            ))
            &&& !short && next <= data.len() && !marked ==> last_block(data, pos) == last_block(
                data,
                next,
            ) && (!comments_here ==> comment_block(data, pos) == comment_block(data, next))
        }),
{
}

} // verus!
