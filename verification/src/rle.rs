//! The pair encoding: its mathematical model and the facts that hold of it.
//!
//! A compressed stream is a flat sequence of two-byte pairs `(count, value)`.
//! Every function of the library is specified against `rle_encode` and
//! `rle_decode`, which say what a stream is for a sequence of bytes.

use vstd::prelude::*;

verus! {

/// The longest run that one pair can hold.
pub const MAX_RUN: u8 = 255;

/// The byte `value` repeated `count` times.
pub open spec fn repeat(value: u8, count: nat) -> Seq<u8> {
    Seq::new(count, |i: int| value)
}

/// Length of the run that opens `s`, capped at 255: the number of leading
/// bytes equal to `s[0]`, or 255 where there are more. Zero only for the
/// empty sequence.
pub open spec fn first_run(s: Seq<u8>) -> nat
    decreases s.len(),
{
    if s.len() == 0 {
        0
    } else if s.len() >= 2 && s[1] == s[0] {
        let rest = first_run(s.drop_first());
        if rest < 255 {
            rest + 1
        } else {
            255
        }
    } else {
        1
    }
}

/// The run that opens a non-empty sequence holds at least one byte, at most
/// 255, and never more than the sequence has.
pub proof fn lemma_first_run_bounds(s: Seq<u8>)
    requires
        s.len() > 0,
    ensures
        1 <= first_run(s) <= 255,
        first_run(s) <= s.len(),
    decreases s.len(),
{
    if s.len() >= 2 && s[1] == s[0] {
        lemma_first_run_bounds(s.drop_first());
    }
}

/// Every byte of the opening run equals the first byte.
pub proof fn lemma_first_run_uniform(s: Seq<u8>)
    ensures
        forall|k: int| 0 <= k < first_run(s) ==> #[trigger] s[k] == s[0],
    decreases s.len(),
{
    if s.len() >= 2 && s[1] == s[0] {
        let t = s.drop_first();
        lemma_first_run_uniform(t);
        lemma_first_run_bounds(t);
        assert forall|k: int| 0 <= k < first_run(s) implies #[trigger] s[k] == s[0] by {
            if k > 0 {
                assert(s[k] == t[k - 1]);
            }
        }
    }
}

/// The opening run is greedy: it stops only at the cap, at the end of the
/// input, or in front of a different byte.
pub proof fn lemma_first_run_maximal(s: Seq<u8>)
    requires
        s.len() > 0,
    ensures
        first_run(s) == 255 || first_run(s) == s.len() || s[first_run(s) as int] != s[0],
    decreases s.len(),
{
    if s.len() >= 2 && s[1] == s[0] {
        let t = s.drop_first();
        lemma_first_run_maximal(t);
        lemma_first_run_bounds(t);
        let r = first_run(t);
        if r < 255 && r < t.len() {
            assert(t[r as int] == s[r as int + 1]);
        }
    }
}

/// The three facts above determine the run: any `n` that is in range, covers
/// only bytes equal to the first and stops for one of the three reasons is the
/// length of the opening run.
pub proof fn lemma_first_run_unique(s: Seq<u8>, n: nat)
    requires
        1 <= n <= 255,
        n <= s.len(),
        forall|k: int| 0 <= k < n ==> #[trigger] s[k] == s[0],
        n == 255 || n == s.len() || s[n as int] != s[0],
    ensures
        first_run(s) == n,
    decreases n,
{
    if s.len() >= 2 && s[1] == s[0] {
        let t = s.drop_first();
        if n == 1 {
            assert(s[n as int] != s[0]);
        } else {
            assert forall|k: int| 0 <= k < n - 1 implies #[trigger] t[k] == t[0] by {
                assert(t[k] == s[k + 1]);
            }
            if n < 255 && n < s.len() {
                assert(t[n - 1] == s[n as int]);
            }
            if n == 255 {
                // The tail's run may itself be cut at the cap, one byte later.
                lemma_first_run_bounds(t);
                if t.len() >= 255 && t[254] == t[0] {
                    lemma_first_run_at_least(t, 255);
                } else {
                    lemma_first_run_unique(t, 254);
                }
            } else {
                lemma_first_run_unique(t, (n - 1) as nat);
            }
        }
    } else {
        if n >= 2 {
            assert(s[1] == s[0]);
        }
    }
}

/// A run of `n` equal bytes at the front makes the opening run at least `n`
/// long, up to the cap.
pub proof fn lemma_first_run_at_least(s: Seq<u8>, n: nat)
    requires
        1 <= n <= 255,
        n <= s.len(),
        forall|k: int| 0 <= k < n ==> #[trigger] s[k] == s[0],
    ensures
        first_run(s) >= n,
    decreases n,
{
    if n >= 2 {
        let t = s.drop_first();
        assert(s[1] == s[0]);
        assert forall|k: int| 0 <= k < n - 1 implies #[trigger] t[k] == t[0] by {
            assert(t[k] == s[k + 1]);
        }
        lemma_first_run_at_least(t, (n - 1) as nat);
    } else {
        lemma_first_run_bounds(s);
    }
}

/// The compressed form of `s`: one pair `(count, value)` for each run, left to
/// right, each run cut greedily and capped at 255.
pub open spec fn rle_encode(s: Seq<u8>) -> Seq<u8>
    decreases s.len(),
    via rle_encode_decreases
{
    if s.len() == 0 {
        Seq::empty()
    } else {
        let n = first_run(s);
        seq![n as u8, s[0]] + rle_encode(s.skip(n as int))
    }
}

#[via_fn]
proof fn rle_encode_decreases(s: Seq<u8>) {
    if s.len() > 0 {
        lemma_first_run_bounds(s);
    }
}

/// The bytes that a compressed stream stands for: each pair expands to its
/// value repeated `count` times; a dangling last byte is dropped.
pub open spec fn rle_decode(c: Seq<u8>) -> Seq<u8>
    decreases c.len(),
{
    if c.len() < 2 {
        Seq::empty()
    } else {
        repeat(c[1], c[0] as nat) + rle_decode(c.skip(2))
    }
}

/// A compressed stream is well formed when it is a whole number of pairs and
/// no pair has a zero count: the form of everything the encoder writes.
pub open spec fn well_formed(c: Seq<u8>) -> bool {
    &&& c.len() % 2 == 0
    &&& forall|k: int| 0 <= k < c.len() && k % 2 == 0 ==> #[trigger] c[k] >= 1
}

/// The encoder writes whole pairs with counts of at least one, and never more
/// than two bytes for each byte of input.
pub proof fn lemma_encode_well_formed(s: Seq<u8>)
    ensures
        well_formed(rle_encode(s)),
        rle_encode(s).len() <= 2 * s.len(),
    decreases s.len(),
{
    if s.len() > 0 {
        lemma_first_run_bounds(s);
        let n = first_run(s);
        let head = seq![n as u8, s[0]];
        let tail = rle_encode(s.skip(n as int));
        lemma_encode_well_formed(s.skip(n as int));
        assert forall|k: int| 0 <= k < (head + tail).len() && k % 2 == 0 implies #[trigger] (head
            + tail)[k] >= 1 by {
            if k >= 2 {
                assert((head + tail)[k] == tail[k - 2]);
            }
        }
    }
}

/// An input without two equal neighbours gains nothing: every pair has count
/// one and the stream is exactly twice as long as the input.
pub proof fn lemma_encode_no_repeats(s: Seq<u8>)
    requires
        forall|k: int| 0 <= k < s.len() - 1 ==> #[trigger] s[k] != s[k + 1],
    ensures
        rle_encode(s).len() == 2 * s.len(),
        forall|k: int| 0 <= k < s.len() ==> #[trigger] rle_encode(s)[2 * k] == 1,
        forall|k: int| 0 <= k < s.len() ==> rle_encode(s)[2 * k + 1] == #[trigger] s[k],
    decreases s.len(),
{
    if s.len() > 0 {
        assert(s.len() >= 2 ==> s[0int] != s[0int + 1]);
        assert(first_run(s) == 1);
        let t = s.skip(1);
        assert forall|k: int| 0 <= k < t.len() - 1 implies #[trigger] t[k] != t[k + 1] by {
            assert(s[k + 1] != s[k + 1 + 1]);
        }
        lemma_encode_no_repeats(t);
        let head = seq![1u8, s[0]];
        let e = rle_encode(s);
        assert(e == head + rle_encode(t));
        assert forall|k: int| 0 <= k < s.len() implies #[trigger] e[2 * k] == 1 by {
            if k > 0 {
                assert(e[2 * k] == rle_encode(t)[2 * (k - 1)]);
            }
        }
        assert forall|k: int| 0 <= k < s.len() implies e[2 * k + 1] == #[trigger] s[k] by {
            if k > 0 {
                assert(e[2 * k + 1] == rle_encode(t)[2 * (k - 1) + 1]);
                assert(t[k - 1] == s[k]);
            }
        }
    }
}

/// Decoding is local to each pair: a stream cut between two pairs decodes to
/// the two halves' bytes, one after the other.
pub proof fn lemma_decode_concat(a: Seq<u8>, b: Seq<u8>)
    requires
        a.len() % 2 == 0,
    ensures
        rle_decode(a + b) == rle_decode(a) + rle_decode(b),
    decreases a.len(),
{
    if a.len() == 0 {
        assert(a + b == b);
    } else {
        let ab = a + b;
        assert(ab.skip(2) == a.skip(2) + b);
        lemma_decode_concat(a.skip(2), b);
    }
}

/// Decoding undoes encoding, for every sequence of bytes.
pub proof fn lemma_round_trip(s: Seq<u8>)
    ensures
        rle_decode(rle_encode(s)) == s,
    decreases s.len(),
{
    if s.len() > 0 {
        lemma_first_run_bounds(s);
        lemma_first_run_uniform(s);
        let n = first_run(s);
        let rest = s.skip(n as int);
        let e = rle_encode(s);
        assert(e.skip(2) == rle_encode(rest));
        lemma_round_trip(rest);
        assert(repeat(s[0], n) == s.take(n as int));
        assert(s.take(n as int) + rest == s);
    }
}

/// The pairs of one run of `count` equal bytes: pairs of the full 255 as long
/// as more than 255 bytes are left, then one pair for what is left.
pub open spec fn capped_runs(value: u8, count: nat) -> Seq<u8>
    decreases count,
{
    if count == 0 {
        Seq::empty()
    } else if count <= 255 {
        seq![count as u8, value]
    } else {
        seq![255u8, value] + capped_runs(value, (count - 255) as nat)
    }
}

/// A run longer than the cap is written as several pairs, each of them full
/// but the last.
pub proof fn lemma_encode_uniform(value: u8, count: nat)
    ensures
        rle_encode(repeat(value, count)) == capped_runs(value, count),
    decreases count,
{
    let s = repeat(value, count);
    if count > 0 {
        let n: nat = if count <= 255 {
            count
        } else {
            255
        };
        lemma_first_run_unique(s, n);
        assert(s.skip(n as int) == repeat(value, (count - n) as nat));
        lemma_encode_uniform(value, (count - n) as nat);
        if count <= 255 {
            assert(seq![count as u8, value] + Seq::<u8>::empty() == seq![count as u8, value]);
        }
    }
}

} // verus!
