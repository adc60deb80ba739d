//! Decompression: the pair decoder, the scheduler that expands the pairs of a
//! large stream independently, and the entry point that returns text.

use crate::compression::{
    compressed, join_parts, lemma_compressed_round_trip, PARALLEL_THRESHOLD,
};
use crate::parallel::par_map;
use crate::rle::{repeat, rle_decode};
use crate::views::vec_views;
use std::string::FromUtf8Error;
use vstd::prelude::*;
use vstd::utf8::{decode_utf8, encode_utf8_decode_utf8, valid_utf8};

verus! {

/// The pairs of a stream, in order; a dangling last byte belongs to none.
pub open spec fn pairs_of(c: Seq<u8>) -> Seq<(usize, u8)> {
    Seq::new(c.len() / 2, |k: int| (c[2 * k] as usize, c[2 * k + 1]))
}

/// What each pair of a stream expands to, pair by pair.
pub open spec fn expansions(c: Seq<u8>) -> Seq<Seq<u8>> {
    pairs_of(c).map_values(|p: (usize, u8)| repeat(p.1, p.0 as nat))
}

/// Expanding every pair on its own and joining the results in the order of
/// the pairs gives the decoded bytes.
pub proof fn lemma_decode_by_pairs(c: Seq<u8>)
    ensures
        expansions(c).flatten() == rle_decode(c),
    decreases c.len(),
{
    let parts = expansions(c);
    if c.len() >= 2 {
        let rest = c.skip(2);
        lemma_decode_by_pairs(rest);
        assert(parts.first() == repeat(c[1], c[0] as nat));
        assert(parts.drop_first() == expansions(rest)) by {
            assert(parts.drop_first().len() == expansions(rest).len());
            assert forall|k: int| 0 <= k < expansions(rest).len() implies parts.drop_first()[k]
                == expansions(rest)[k] by {
                assert(parts.drop_first()[k] == parts[k + 1]);
                assert(rest[2 * k] == c[2 * (k + 1)]);
                assert(rest[2 * k + 1] == c[2 * (k + 1) + 1]);
            }
        }
    }
}

/// Round trip across both schedulers: a stream that `compress` wrote, on a
/// pool of any size, expands pair by pair to the bytes that went in.
pub proof fn lemma_parallel_round_trip(s: Seq<u8>, workers: nat)
    ensures
        expansions(compressed(s, workers)).flatten() == s,
{
    lemma_decode_by_pairs(compressed(s, workers));
    lemma_compressed_round_trip(s, workers);
}

/// Expands one pair: `byte` repeated `count` times.
pub fn expand_pair(count: usize, byte: u8) -> (chunk: Vec<u8>)
    ensures
        chunk@ == repeat(byte, count as nat),
{
    let mut chunk: Vec<u8> = Vec::with_capacity(count);
    let mut n: usize = 0;
    while n < count
        invariant
            n <= count,
            chunk@ == repeat(byte, n as nat),
        decreases count - n,
    {
        chunk.push(byte);
        n += 1;
        assert(chunk@ == repeat(byte, n as nat));
    }
    chunk
}

/// Decodes the whole stream in the calling thread.
pub fn decompress_sequential_binary(compressed: Vec<u8>) -> (out: Vec<u8>)
    ensures
        out@ == rle_decode(compressed@),
{
    let len: usize = compressed.len();
    let mut decompressed: Vec<u8> = Vec::new();
    let mut i: usize = 0;
    proof {
        assert(compressed@.skip(0) == compressed@);
    }
    while len - i > 1
        invariant
            len == compressed@.len(),
            i <= len,
            rle_decode(compressed@) == decompressed@ + rle_decode(compressed@.skip(i as int)),
        decreases len - i,
    {
        let count: usize = compressed[i] as usize;
        let byte: u8 = compressed[i + 1];
        let ghost before = decompressed@;
        let mut n: usize = 0;
        while n < count
            invariant
                n <= count,
                decompressed@ == before + repeat(byte, n as nat),
            decreases count - n,
        {
            decompressed.push(byte);
            n += 1;
            assert(decompressed@ == before + repeat(byte, n as nat));
        }
        proof {
            let rest = compressed@.skip(i as int);
            assert(rest.skip(2) == compressed@.skip(i + 2));
        }
        i += 2;
    }
    decompressed
}

/// Splits the stream into its pairs, left to right.
pub fn split_pairs(compressed: &Vec<u8>) -> (work_items: Vec<(usize, u8)>)
    ensures
        work_items@ == pairs_of(compressed@),
{
    let len: usize = compressed.len();
    let mut work_items: Vec<(usize, u8)> = Vec::new();
    let mut i: usize = 0;
    while len - i > 1
        invariant
            len == compressed@.len(),
            i <= len,
            i % 2 == 0,
            work_items@ == pairs_of(compressed@).take(i as int / 2),
        decreases len - i,
    {
        let count: usize = compressed[i] as usize;
        let byte: u8 = compressed[i + 1];
        work_items.push((count, byte));
        i += 2;
        assert(work_items@ == pairs_of(compressed@).take(i as int / 2));
    }
    assert(work_items@ == pairs_of(compressed@));
    work_items
}

/// Decodes on the parallel path, whatever the length of the stream: the pairs
/// are split off in order, expanded independently on the worker pool, and the
/// expansions joined in the order of the pairs.
pub fn decompress_parallel(compressed: Vec<u8>) -> (out: Vec<u8>)
    ensures
        out@ == rle_decode(compressed@),
{
    let work_items: Vec<(usize, u8)> = split_pairs(&compressed);
    let expand = |item: &(usize, u8)| -> (chunk: Vec<u8>)
        ensures
            chunk@ == repeat(item.1, item.0 as nat),
        { expand_pair(item.0, item.1) };
    let chunks: Vec<Vec<u8>> = par_map(&work_items, expand);
    proof {
        assert(vec_views(chunks@) == expansions(compressed@));
        lemma_decode_by_pairs(compressed@);
    }
    join_parts(&chunks)
}

/// Decompresses a stream of `(count, value)` pairs into bytes.
///
/// Streams shorter than `PARALLEL_THRESHOLD` are decoded in one piece, longer
/// ones pair by pair on the worker pool; the bytes are the same. A dangling
/// last byte is dropped and a zero count expands to nothing, so every stream
/// decodes and the result is never an error.
pub fn decompress_binary(compressed: Vec<u8>) -> (r: Result<Vec<u8>, std::io::Error>)
    ensures
        r matches Ok(bytes) && bytes@ == rle_decode(compressed@),
{
    if compressed.len() < PARALLEL_THRESHOLD {
        return Ok(decompress_sequential_binary(compressed));
    }
    Ok(decompress_parallel(compressed))
}

/// Decompresses a stream and reads the bytes as UTF-8 text.
///
/// Fails exactly when the decoded bytes are not well-formed UTF-8.
pub fn decompress(compressed: Vec<u8>) -> (r: Result<String, FromUtf8Error>)
    ensures
        r is Ok <==> valid_utf8(rle_decode(compressed@)),
        r matches Ok(text) ==> text@ == decode_utf8(rle_decode(compressed@)),
{
    let bytes: Vec<u8> = decompress_binary(compressed).unwrap();
    let r = String::from_utf8(bytes);
    proof {
        if r is Ok {
            encode_utf8_decode_utf8(r->Ok_0@);
        }
    }
    r
}

/// Decodes in the calling thread and reads the bytes as UTF-8 text.
pub fn decompress_sequential(compressed: Vec<u8>) -> (r: Result<String, FromUtf8Error>)
    ensures
        r is Ok <==> valid_utf8(rle_decode(compressed@)),
        r matches Ok(text) ==> text@ == decode_utf8(rle_decode(compressed@)),
{
    let r = String::from_utf8(decompress_sequential_binary(compressed));
    proof {
        if r is Ok {
            encode_utf8_decode_utf8(r->Ok_0@);
        }
    }
    r
}

} // verus!
