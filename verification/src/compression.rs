//! Compression: the pair encoder, and the scheduler that runs it over
//! independent chunks of a large input.

use crate::parallel::par_map;
use crate::rle::{
    lemma_decode_concat, lemma_encode_well_formed, lemma_first_run_unique, lemma_round_trip,
    rle_decode, rle_encode, well_formed, MAX_RUN,
};
use crate::views::{slice_views, vec_views};
use vstd::arithmetic::div_mod::{lemma_div_plus_one, lemma_fundamental_div_mod_converse};
use vstd::prelude::*;
use vstd::slice::slice_subrange;

verus! {

/// Inputs shorter than this are encoded in one piece by the caller.
pub const PARALLEL_THRESHOLD: usize = 10000;

/// No chunk of the parallel path is cut shorter than this, but the last.
pub const MIN_CHUNK_SIZE: usize = 1024;

/// Encodes one contiguous piece of input into `(count, value)` pairs.
pub fn encode_chunk(chunk: &[u8]) -> (out: Vec<u8>)
    ensures
        out@ == rle_encode(chunk@),
{
    let mut compressed: Vec<u8> = Vec::new();
    let len: usize = chunk.len();
    let mut i: usize = 0;
    proof {
        assert(chunk@.skip(0) == chunk@);
    }
    while i < len
        invariant
            len == chunk@.len(),
            i <= len,
            rle_encode(chunk@) == compressed@ + rle_encode(chunk@.skip(i as int)),
        decreases len - i,
    {
        let start: usize = i;
        let byte: u8 = chunk[i];
        let mut count: u8 = 1;
        while i + 1 < len && chunk[i + 1] == byte && count < MAX_RUN
            invariant
                len == chunk@.len(),
                start <= i < len,
                count == i - start + 1,
                1 <= count <= 255,
                byte == chunk@[start as int],
                forall|k: int| start <= k <= i ==> #[trigger] chunk@[k] == byte,
            decreases len - i,
        {
            count += 1;
            i += 1;
        }
        proof {
            let rest = chunk@.skip(start as int);
            assert forall|k: int| 0 <= k < count implies #[trigger] rest[k] == rest[0] by {
                assert(rest[k] == chunk@[start + k]);
            }
            lemma_first_run_unique(rest, count as nat);
            assert(rest.skip(count as int) == chunk@.skip(i + 1));
            assert(compressed@ + (seq![count, byte] + rle_encode(chunk@.skip(i + 1)))
                == compressed@.push(count).push(byte) + rle_encode(chunk@.skip(i + 1)));
        }
        compressed.push(count);
        compressed.push(byte);
        i += 1;
    }
    compressed
}

/// Encodes the whole input in the calling thread.
pub fn compress_sequential(input: Vec<u8>) -> (out: Vec<u8>)
    ensures
        out@ == rle_encode(input@),
{
    encode_chunk(input.as_slice())
}

/// The input cut into contiguous chunks of `size` bytes, the last one
/// possibly shorter: no overlap, no gap, no empty chunk.
pub open spec fn chunks_of(s: Seq<u8>, size: nat) -> Seq<Seq<u8>>
    decreases s.len(),
{
    if s.len() == 0 || size == 0 {
        Seq::empty()
    } else if s.len() <= size {
        seq![s]
    } else {
        seq![s.take(size as int)] + chunks_of(s.skip(size as int), size)
    }
}

/// The stream of the parallel path: the encodings of the chunks, each made on
/// its own, one after the other in the order of the chunks.
pub open spec fn encode_chunked(s: Seq<u8>, size: nat) -> Seq<u8> {
    chunks_of(s, size).map_values(|c: Seq<u8>| rle_encode(c)).flatten()
}

/// The chunk size of the parallel path: an even share of the input for each
/// worker, but never under `MIN_CHUNK_SIZE`.
pub open spec fn chunk_size_for(len: nat, workers: nat) -> nat {
    if workers > 0 && len / workers >= MIN_CHUNK_SIZE {
        len / workers
    } else {
        MIN_CHUNK_SIZE as nat
    }
}

/// What `compress` writes for `s` on a pool of `workers` threads.
pub open spec fn compressed(s: Seq<u8>, workers: nat) -> Seq<u8> {
    if s.len() < PARALLEL_THRESHOLD {
        rle_encode(s)
    } else {
        encode_chunked(s, chunk_size_for(s.len(), workers))
    }
}

/// The chunked stream, one chunk at a time: the first chunk's encoding, then
/// the chunked stream of what follows it.
pub proof fn lemma_encode_chunked_step(s: Seq<u8>, size: nat)
    requires
        size >= 1,
    ensures
        s.len() == 0 ==> encode_chunked(s, size) == Seq::<u8>::empty(),
        0 < s.len() <= size ==> encode_chunked(s, size) == rle_encode(s),
        s.len() > size ==> encode_chunked(s, size) == rle_encode(s.take(size as int))
            + encode_chunked(s.skip(size as int), size),
{
    let encode = |c: Seq<u8>| rle_encode(c);
    let pieces = chunks_of(s, size).map_values(encode);
    if s.len() == 0 {
        assert(pieces == Seq::<Seq<u8>>::empty());
    } else if s.len() <= size {
        assert(pieces == seq![rle_encode(s)]);
        assert(pieces.drop_first() == Seq::<Seq<u8>>::empty());
        assert(pieces.drop_first().flatten() == Seq::<u8>::empty());
        assert(pieces.flatten() == pieces.first() + pieces.drop_first().flatten());
    } else {
        let rest = chunks_of(s.skip(size as int), size);
        assert(pieces.first() == rle_encode(s.take(size as int)));
        assert(pieces.drop_first() == rest.map_values(encode));
    }
}

/// The chunks, joined again, are the input: chunking loses and adds nothing.
pub proof fn lemma_chunks_join(s: Seq<u8>, size: nat)
    requires
        size >= 1,
    ensures
        chunks_of(s, size).flatten() == s,
    decreases s.len(),
{
    let chunks = chunks_of(s, size);
    if s.len() == 0 {
    } else if s.len() <= size {
        assert(chunks.drop_first() == Seq::<Seq<u8>>::empty());
        assert(chunks.drop_first().flatten() == Seq::<u8>::empty());
        assert(chunks.flatten() == chunks.first() + chunks.drop_first().flatten());
    } else {
        lemma_chunks_join(s.skip(size as int), size);
        assert(chunks.drop_first() == chunks_of(s.skip(size as int), size));
        assert(s.take(size as int) + s.skip(size as int) == s);
    }
}

/// The chunks partition the input evenly: as many as it takes to cover the
/// input, every chunk full but the last, and the last not empty.
pub proof fn lemma_chunks_lengths(s: Seq<u8>, size: nat)
    requires
        size >= 1,
    ensures
        chunks_of(s, size).len() == (s.len() + size - 1) / (size as int),
        forall|i: int|
            0 <= i < chunks_of(s, size).len() ==> 1 <= (#[trigger] chunks_of(s, size)[i]).len()
                <= size,
        forall|i: int|
            0 <= i < chunks_of(s, size).len() - 1 ==> (#[trigger] chunks_of(s, size)[i]).len()
                == size,
    decreases s.len(),
{
    let chunks = chunks_of(s, size);
    let d = size as int;
    if s.len() == 0 {
        lemma_fundamental_div_mod_converse(s.len() + size - 1, d, 0, size - 1);
    } else if s.len() <= size {
        lemma_fundamental_div_mod_converse(s.len() + size - 1, d, 1, s.len() - 1);
    } else {
        let rest = chunks_of(s.skip(d), size);
        lemma_chunks_lengths(s.skip(d), size);
        lemma_div_plus_one(s.len() - 1, d);
        assert forall|i: int| 0 <= i < chunks.len() implies 1 <= (#[trigger] chunks[i]).len()
            <= size by {
            if i > 0 {
                assert(chunks[i] == rest[i - 1]);
            }
        }
        assert forall|i: int| 0 <= i < chunks.len() - 1 implies (#[trigger] chunks[i]).len()
            == size by {
            if i > 0 {
                assert(chunks[i] == rest[i - 1]);
            }
        }
    }
}

/// The chunked stream is a whole number of pairs with no zero count.
pub proof fn lemma_encode_chunked_well_formed(s: Seq<u8>, size: nat)
    requires
        size >= 1,
    ensures
        well_formed(encode_chunked(s, size)),
    decreases s.len(),
{
    lemma_encode_chunked_step(s, size);
    if s.len() == 0 {
    } else if s.len() <= size {
        lemma_encode_well_formed(s);
    } else {
        let head = rle_encode(s.take(size as int));
        let tail = encode_chunked(s.skip(size as int), size);
        lemma_encode_well_formed(s.take(size as int));
        lemma_encode_chunked_well_formed(s.skip(size as int), size);
        assert forall|k: int| 0 <= k < (head + tail).len() && k % 2 == 0 implies #[trigger] (head
            + tail)[k] >= 1 by {
            if k >= head.len() {
                assert((head + tail)[k] == tail[k - head.len()]);
            }
        }
    }
}

/// Decoding undoes chunked encoding, whatever the chunk size: a chunk
/// boundary may cut a run in two, but it never falls inside a pair.
pub proof fn lemma_chunked_round_trip(s: Seq<u8>, size: nat)
    requires
        size >= 1,
    ensures
        rle_decode(encode_chunked(s, size)) == s,
    decreases s.len(),
{
    lemma_encode_chunked_step(s, size);
    if s.len() == 0 {
    } else if s.len() <= size {
        lemma_round_trip(s);
    } else {
        let head = s.take(size as int);
        let tail = s.skip(size as int);
        lemma_encode_well_formed(head);
        lemma_decode_concat(rle_encode(head), encode_chunked(tail, size));
        lemma_round_trip(head);
        lemma_chunked_round_trip(tail, size);
        assert(head + tail == s);
    }
}

/// Round trip of `compress`, on either path and for every size of the pool.
pub proof fn lemma_compressed_round_trip(s: Seq<u8>, workers: nat)
    ensures
        rle_decode(compressed(s, workers)) == s,
        well_formed(compressed(s, workers)),
{
    if s.len() < PARALLEL_THRESHOLD {
        lemma_round_trip(s);
        lemma_encode_well_formed(s);
    } else {
        lemma_chunked_round_trip(s, chunk_size_for(s.len(), workers));
        lemma_encode_chunked_well_formed(s, chunk_size_for(s.len(), workers));
    }
}

/// Computes the chunk size for an input of `len` bytes and a pool of
/// `workers` threads.
pub fn chunk_size(len: usize, workers: usize) -> (size: usize)
    requires
        workers >= 1,
    ensures
        size == chunk_size_for(len as nat, workers as nat),
        size >= MIN_CHUNK_SIZE,
{
    let share: usize = len / workers;
    if share >= MIN_CHUNK_SIZE {
        share
    } else {
        MIN_CHUNK_SIZE
    }
}

/// Cuts the input into chunks of `size` bytes; the last may be shorter.
pub fn split_chunks<'a>(input: &'a [u8], size: usize) -> (chunks: Vec<&'a [u8]>)
    requires
        size >= 1,
    ensures
        slice_views(chunks@) == chunks_of(input@, size as nat),
{
    let len: usize = input.len();
    let mut chunks: Vec<&'a [u8]> = Vec::new();
    let mut start: usize = 0;
    proof {
        assert(input@.skip(0) == input@);
        assert(slice_views(chunks@) == Seq::<Seq<u8>>::empty());
    }
    while start < len
        invariant
            size >= 1,
            len == input@.len(),
            start <= len,
            chunks_of(input@, size as nat) == slice_views(chunks@) + chunks_of(
                input@.skip(start as int),
                size as nat,
            ),
        decreases len - start,
    {
        let end: usize = if len - start > size {
            start + size
        } else {
            len
        };
        let chunk: &'a [u8] = slice_subrange(input, start, end);
        proof {
            let rest = input@.skip(start as int);
            assert(rest.skip(end - start) == input@.skip(end as int));
            if len - start > size {
                assert(chunk@ == rest.take(size as int));
            } else {
                assert(chunk@ == rest);
                assert(chunks_of(input@.skip(end as int), size as nat) == Seq::<Seq<u8>>::empty());
            }
            assert(slice_views(chunks@.push(chunk)) == slice_views(chunks@).push(chunk@));
            assert(slice_views(chunks@) + (seq![chunk@] + chunks_of(
                input@.skip(end as int),
                size as nat,
            )) == slice_views(chunks@).push(chunk@) + chunks_of(
                input@.skip(end as int),
                size as nat,
            ));
        }
        chunks.push(chunk);
        start = end;
    }
    chunks
}

/// Joins the parts into one buffer, in their order.
pub fn join_parts(parts: &Vec<Vec<u8>>) -> (out: Vec<u8>)
    ensures
        out@ == vec_views(parts@).flatten(),
{
    let mut out: Vec<u8> = Vec::new();
    let mut i: usize = 0;
    proof {
        assert(vec_views(parts@).skip(0) == vec_views(parts@));
    }
    while i < parts.len()
        invariant
            i <= parts@.len(),
            vec_views(parts@).flatten() == out@ + vec_views(parts@).skip(i as int).flatten(),
        decreases parts@.len() - i,
    {
        let ghost before = out@;
        out.extend_from_slice(parts[i].as_slice());
        proof {
            let rest = vec_views(parts@).skip(i as int);
            assert(rest.first() == parts@[i as int]@);
            assert(rest.drop_first() == vec_views(parts@).skip(i + 1));
            assert(out@ == before + parts@[i as int]@);
        }
        i += 1;
    }
    out
}

/// Encodes the input chunk by chunk on the worker pool, in chunks of `size`
/// bytes, and joins the encodings in the order of the chunks.
pub fn compress_chunks(input: &[u8], size: usize) -> (out: Vec<u8>)
    requires
        size >= 1,
    ensures
        out@ == encode_chunked(input@, size as nat),
{
    let chunks: Vec<&[u8]> = split_chunks(input, size);
    let encode = |chunk: &&[u8]| -> (piece: Vec<u8>)
        ensures
            piece@ == rle_encode(chunk@),
        { encode_chunk(*chunk) };
    let pieces: Vec<Vec<u8>> = par_map(&chunks, encode);
    proof {
        assert(vec_views(pieces@) == chunks_of(input@, size as nat).map_values(
            |c: Seq<u8>| rle_encode(c),
        )) by {
            let want = chunks_of(input@, size as nat).map_values(|c: Seq<u8>| rle_encode(c));
            assert(vec_views(pieces@).len() == want.len());
            assert forall|i: int| 0 <= i < want.len() implies vec_views(pieces@)[i] == want[i] by {
                assert(slice_views(chunks@)[i] == chunks@[i]@);
            }
        }
    }
    join_parts(&pieces)
}

/// Compresses on the parallel path, for a pool of `workers` threads, whatever
/// the length of the input.
pub fn compress_parallel(input: Vec<u8>, workers: usize) -> (out: Vec<u8>)
    requires
        workers >= 1,
    ensures
        out@ == encode_chunked(input@, chunk_size_for(input@.len(), workers as nat)),
{
    let size: usize = chunk_size(input.len(), workers);
    compress_chunks(input.as_slice(), size)
}

/// Compresses a byte sequence into `(count, value)` pairs.
///
/// Short inputs are encoded in one piece. From `PARALLEL_THRESHOLD` bytes on,
/// the input is cut into chunks by the size of the worker pool and the chunks
/// are encoded independently. Either way the result decodes to the input.
pub fn compress(input: Vec<u8>) -> (out: Vec<u8>)
    ensures
        rle_decode(out@) == input@,
        well_formed(out@),
        input@.len() < PARALLEL_THRESHOLD ==> out@ == rle_encode(input@),
        exists|workers: nat| workers >= 1 && out@ == compressed(input@, workers),
{
    if input.len() < PARALLEL_THRESHOLD {
        let out = compress_sequential(input);
        proof {
            lemma_compressed_round_trip(input@, 1);
            assert(out@ == compressed(input@, 1));
        }
        return out;
    }
    let workers: usize = rayon::current_num_threads();
    let out = compress_parallel(input, workers);
    proof {
        lemma_compressed_round_trip(input@, workers as nat);
        assert(out@ == compressed(input@, workers as nat));
    }
    out
}

} // verus!
