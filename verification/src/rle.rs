//! Run-length encoding of a frame: each maximal run of identical bytes
//! becomes a (count, value) pair, with counts capped at 255. A run longer
//! than 255 bytes is flushed as (255, value) and the remainder is counted
//! as a fresh run, so no byte is skipped or counted twice.
//!
//! This stage demonstrates an alternative encoding; its output feeds
//! neither the stream compressor nor the decoder.

use vstd::prelude::*;

use crate::delta::views_of;

verus! {

/// The length of the maximal prefix of `s` whose bytes all equal `s[0]`.
pub open spec fn leading_run(s: Seq<u8>) -> nat
    decreases s.len(),
{
    if s.len() == 0 {
        0
    } else if s.len() == 1 {
        1
    } else if s[1] == s[0] {
        (1 + leading_run(s.drop_first())) as nat
    } else {
        1
    }
}

/// The run-length encoding of a byte sequence: the flat (count, value)
/// pairs, scanning left to right, counts capped at 255.
pub open spec fn rle_spec(s: Seq<u8>) -> Seq<u8>
    decreases s.len(),
    via rle_spec_decreases
{
    if s.len() == 0 {
        Seq::empty()
    } else {
        let n: nat = if leading_run(s) <= 255 { leading_run(s) } else { 255 };
        seq![n as u8, s[0]] + rle_spec(s.skip(n as int))
    }
}

#[via_fn]
proof fn rle_spec_decreases(s: Seq<u8>) {
    if s.len() > 0 {
        lemma_leading_run_props(s);
    }
}

/// Expands flat (count, value) pairs back into the run of bytes they stand
/// for; a trailing odd byte (which a well-formed encoding never has) is
/// ignored.
pub open spec fn rle_decode(r: Seq<u8>) -> Seq<u8>
    decreases r.len(),
{
    if r.len() < 2 {
        Seq::empty()
    } else {
        Seq::new(r[0] as nat, |i: int| r[1]) + rle_decode(r.skip(2))
    }
}

/// The sum of the counts of flat (count, value) pairs.
pub open spec fn counts_sum(r: Seq<u8>) -> int
    decreases r.len(),
{
    if r.len() < 2 {
        0
    } else {
        r[0] + counts_sum(r.skip(2))
    }
}

/// The run-length encoding of every frame of a video, in frame order.
pub open spec fn rle_video(v: Seq<Seq<u8>>) -> Seq<Seq<u8>> {
    Seq::new(v.len(), |i: int| rle_spec(v[i]))
}

/// `leading_run` is between 1 and the length, all bytes before it equal
/// the first, and the byte right after it (if any) differs.
pub proof fn lemma_leading_run_props(s: Seq<u8>)
    requires
        s.len() > 0,
    ensures
        1 <= leading_run(s) <= s.len(),
        forall|i: int| 0 <= i < leading_run(s) ==> #[trigger] s[i] == s[0],
        leading_run(s) < s.len() ==> s[leading_run(s) as int] != s[0],
    decreases s.len(),
{
    if s.len() == 1 {
    } else if s[1] == s[0] {
        let t = s.drop_first();
        lemma_leading_run_props(t);
        assert(forall|i: int| 0 <= i < t.len() ==> #[trigger] t[i] == s[i + 1]);
        assert forall|i: int| 0 <= i < leading_run(s) implies #[trigger] s[i] == s[0] by {
            if i >= 1 {
                assert(t[i - 1] == s[i]);
                assert(t[i - 1] == t[0]);
            }
        }
    }
}

/// Any prefix of bytes all equal to the first is no longer than the
/// maximal such prefix.
pub proof fn lemma_leading_run_at_least(s: Seq<u8>, m: int)
    requires
        0 <= m <= s.len(),
        forall|i: int| 0 <= i < m ==> #[trigger] s[i] == s[0],
    ensures
        leading_run(s) >= m,
    decreases s.len(),
{
    if m >= 2 {
        let t = s.drop_first();
        assert(forall|i: int| 0 <= i < t.len() ==> #[trigger] t[i] == s[i + 1]);
        assert(forall|i: int| 0 <= i < m - 1 ==> #[trigger] t[i] == t[0]);
        lemma_leading_run_at_least(t, m - 1);
    }
}

/// Decoding expands exactly as many bytes as the counts promise.
pub proof fn lemma_decode_len(r: Seq<u8>)
    ensures
        rle_decode(r).len() == counts_sum(r),
    decreases r.len(),
{
    if r.len() >= 2 {
        lemma_decode_len(r.skip(2));
    }
}

/// Run-length decoding inverts run-length encoding: every byte of the
/// input is reproduced, in order, with none skipped and none repeated.
pub proof fn lemma_rle_round_trip(s: Seq<u8>)
    ensures
        rle_decode(rle_spec(s)) == s,
    decreases s.len(),
{
    if s.len() == 0 {
        assert(rle_decode(rle_spec(s)) =~= s);
    } else {
        lemma_leading_run_props(s);
        let n: nat = if leading_run(s) <= 255 { leading_run(s) } else { 255 };
        let r = rle_spec(s);
        assert(r == seq![n as u8, s[0]] + rle_spec(s.skip(n as int)));
        assert(r.skip(2) =~= rle_spec(s.skip(n as int)));
        lemma_rle_round_trip(s.skip(n as int));
        assert(Seq::new(n, |i: int| s[0]) =~= s.take(n as int));
        assert(rle_decode(r) =~= s.take(n as int) + s.skip(n as int));
        assert(s.take(n as int) + s.skip(n as int) =~= s);
    }
}

/// Total-byte conservation: the counts of an encoding always sum to the
/// length of the bytes encoded, even across forced splits at 255.
pub proof fn lemma_rle_counts_total(s: Seq<u8>)
    ensures
        counts_sum(rle_spec(s)) == s.len(),
{
    lemma_rle_round_trip(s);
    lemma_decode_len(rle_spec(s));
}

/// An encoding holds whole pairs and is never longer than twice its input.
pub proof fn lemma_rle_len_bound(s: Seq<u8>)
    ensures
        rle_spec(s).len() % 2 == 0,
        rle_spec(s).len() <= 2 * s.len(),
    decreases s.len(),
{
    if s.len() > 0 {
        lemma_leading_run_props(s);
        let n: nat = if leading_run(s) <= 255 { leading_run(s) } else { 255 };
        lemma_rle_len_bound(s.skip(n as int));
    }
}

/// The run-length encodings of a whole video are never more than twice
/// its total size.
pub proof fn lemma_rle_video_size(v: Seq<Seq<u8>>)
    ensures
        rle_video(v).len() == v.len(),
        0 <= crate::chunk::total_size(rle_video(v)) <= 2 * crate::chunk::total_size(v),
    decreases v.len(),
{
    crate::chunk::lemma_total_size_nonneg(rle_video(v));
    if v.len() > 0 {
        let w = v.drop_last();
        lemma_rle_video_size(w);
        assert(rle_video(v).drop_last() =~= rle_video(w));
        assert(rle_video(v).last() == rle_spec(v.last()));
        lemma_rle_len_bound(v.last());
    }
}

/// Run-length encodes one frame into flat (count, value) byte pairs.
#[verifier::loop_isolation(false)]
pub fn rle_frame(f: &Vec<u8>) -> (r: Vec<u8>)
    ensures
        r@ == rle_spec(f@),
{
    let mut out: Vec<u8> = Vec::new();
    let mut index: usize = 0;
    assert(f@.skip(0) =~= f@);
    while index < f.len()
        invariant
            index <= f@.len(),
            out@ + rle_spec(f@.skip(index as int)) =~= rle_spec(f@),
        decreases f@.len() - index,
    {
        let ghost s = f@.skip(index as int);
        let value = f[index];
        assert(s[0] == value);
        let mut j: usize = index + 1;
        while j < f.len() && j - index < 255 && f[j] == value
            invariant
                index < j <= f@.len(),
                j - index <= 255,
                forall|k: int| index <= k < j ==> #[trigger] f@[k] == value,
            decreases f@.len() - j,
        {
            j += 1;
        }
        let count: usize = j - index;
        proof {
            lemma_leading_run_props(s);
            assert(forall|i: int| 0 <= i < s.len() ==> #[trigger] s[i] == f@[index + i]);
            assert(forall|i: int| 0 <= i < count ==> #[trigger] s[i] == s[0]);
            lemma_leading_run_at_least(s, count as int);
            if count < 255 {
                if (j as int) < f@.len() {
                    assert(s[count as int] != s[0]);
                    assert(leading_run(s) <= count);
                } else {
                    assert(s.len() == count);
                }
                assert(leading_run(s) == count);
            } else {
                assert(count == 255);
                assert(leading_run(s) >= 255);
            }
        }
        let ghost before = out@;
        out.push(count as u8);
        out.push(value);
        proof {
            let n: nat = if leading_run(s) <= 255 { leading_run(s) } else { 255 };
            assert(n == count);
            assert(rle_spec(s) == seq![n as u8, s[0]] + rle_spec(s.skip(n as int)));
            assert(s.skip(n as int) =~= f@.skip(index + count));
            assert(out@ =~= before + seq![count as u8, value]);
            assert(out@ + rle_spec(f@.skip(index + count)) =~= rle_spec(f@));
        }
        index = j;
    }
    proof {
        assert(f@.skip(index as int) =~= Seq::<u8>::empty());
        assert(out@ =~= rle_spec(f@));
    }
    out
}

/// Run-length encodes every frame of a video, for observability only.
#[verifier::loop_isolation(false)]
pub fn create_run_length_encoding(frames: &Vec<Vec<u8>>) -> (rle: Vec<Vec<u8>>)
    ensures
        views_of(rle@) == rle_video(views_of(frames@)),
{
    let ghost dv = views_of(frames@);
    let mut rle: Vec<Vec<u8>> = Vec::with_capacity(frames.len());
    let mut index: usize = 0;
    while index < frames.len()
        invariant
            index <= dv.len(),
            rle@.len() == index,
            views_of(rle@) =~= rle_video(dv).take(index as int),
        decreases frames@.len() - index,
    {
        let ghost before = rle@;
        rle.push(rle_frame(&frames[index]));
        assert(views_of(rle@) =~= rle_video(dv).take(index as int + 1)) by {
            assert(forall|i: int|
                0 <= i < index ==> #[trigger] rle@[i]@ == views_of(before)[i]);
            assert(rle@[index as int]@ == rle_video(dv)[index as int]);
        }
        index += 1;
    }
    assert(views_of(rle@) =~= rle_video(dv));
    rle
}

} // verus!
