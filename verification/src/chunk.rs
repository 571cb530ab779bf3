//! Frame chunking: the encoder concatenates all frame buffers into one
//! flat stream before compression, and the decoder splits the decompressed
//! stream back into fixed-size frame buffers. A final partial chunk is
//! preserved by the splitter; whether to keep it is the caller's decision.

use vstd::prelude::*;

use crate::delta::views_of;

verus! {

/// The byte length of a planar YUV 4:2:0 frame at the configured
/// resolution: one full luma plane and two quarter-size chroma planes.
pub open spec fn frame_len_yuv(width: nat, height: nat) -> nat {
    width * height + 2 * ((width * height) / 4)
}

/// The byte length of an interleaved RGB frame at the configured
/// resolution.
pub open spec fn frame_len_rgb(width: nat, height: nat) -> nat {
    width * height * 3
}

/// The concatenation of all frames, in order, with no separators.
pub open spec fn concat_of(frames: Seq<Seq<u8>>) -> Seq<u8>
    decreases frames.len(),
{
    if frames.len() == 0 {
        Seq::empty()
    } else {
        concat_of(frames.drop_last()) + frames.last()
    }
}

/// The total byte size of a video: the sum of its frames' lengths.
pub open spec fn total_size(frames: Seq<Seq<u8>>) -> int
    decreases frames.len(),
{
    if frames.len() == 0 {
        0
    } else {
        total_size(frames.drop_last()) + frames.last().len()
    }
}

/// Splitting a buffer into consecutive chunks of `n` bytes; the final
/// chunk may be shorter but is never empty and never padded.
pub open spec fn split_spec(data: Seq<u8>, n: nat) -> Seq<Seq<u8>>
    decreases data.len(),
    when n >= 1
{
    if data.len() == 0 {
        Seq::empty()
    } else if data.len() <= n {
        seq![data]
    } else {
        seq![data.take(n as int)] + split_spec(data.skip(n as int), n)
    }
}

/// A split video with any trailing partial frame dropped.
pub open spec fn drop_partial(v: Seq<Seq<u8>>, n: nat) -> Seq<Seq<u8>> {
    if v.len() > 0 && v.last().len() < n {
        v.drop_last()
    } else {
        v
    }
}

/// Shape of a split: every chunk except the last is full, the last is
/// non-empty and at most full, and the chunks concatenate back to the
/// input.
pub proof fn lemma_split_props(data: Seq<u8>, n: nat)
    requires
        n >= 1,
    ensures
        forall|i: int|
            0 <= i < split_spec(data, n).len() - 1 ==> (#[trigger] split_spec(data, n)[i]).len()
                == n,
        data.len() > 0 ==> split_spec(data, n).len() > 0
            && 0 < split_spec(data, n).last().len() <= n,
        data.len() == 0 ==> split_spec(data, n).len() == 0,
        n * split_spec(data, n).len() < data.len() + n,
        data.len() <= n * split_spec(data, n).len(),
    decreases data.len(),
{
    if data.len() == 0 {
    } else if data.len() <= n {
        assert(n * 1 == n);
    } else {
        let rest = data.skip(n as int);
        lemma_split_props(rest, n);
        let s = split_spec(data, n);
        let sr = split_spec(rest, n);
        assert(s == seq![data.take(n as int)] + sr);
        assert(forall|i: int| 0 <= i < sr.len() ==> #[trigger] sr[i] == s[i + 1]);
        assert(s.last() == sr.last());
        let k = sr.len() as int;
        assert(s.len() == k + 1);
        assert(n * (k + 1) == n * k + n) by (nonlinear_arith);
    }
}

/// A concatenation can also be peeled from the front: the first frame,
/// then the concatenation of the rest.
pub proof fn lemma_concat_first(v: Seq<Seq<u8>>)
    requires
        v.len() > 0,
    ensures
        concat_of(v) == v.first() + concat_of(v.drop_first()),
    decreases v.len(),
{
    if v.len() == 1 {
        assert(v.drop_last() =~= Seq::<Seq<u8>>::empty());
        assert(v.drop_first() =~= Seq::<Seq<u8>>::empty());
        assert(concat_of(v) =~= v.first() + concat_of(v.drop_first()));
    } else {
        let w = v.drop_last();
        lemma_concat_first(w);
        assert(w.drop_first() =~= v.drop_first().drop_last());
        assert(v.drop_first().last() == v.last());
        assert(concat_of(v.drop_first()) == concat_of(v.drop_first().drop_last())
            + v.drop_first().last());
        assert(concat_of(v) =~= v.first() + concat_of(v.drop_first()));
    }
}

/// Splitting the concatenation of frames of exactly the chunk length
/// gives back those frames: concatenation and chunking are inverse for
/// uniform videos.
pub proof fn lemma_split_concat(v: Seq<Seq<u8>>, n: nat)
    requires
        n >= 1,
        crate::delta::uniform_len(v, n),
    ensures
        split_spec(concat_of(v), n) == v,
    decreases v.len(),
{
    let d = concat_of(v);
    lemma_concat_len(v);
    lemma_total_size_uniform(v, n);
    if v.len() == 0 {
        assert(split_spec(d, n) =~= v);
    } else {
        let rest = v.drop_first();
        lemma_concat_first(v);
        lemma_concat_len(rest);
        assert(crate::delta::uniform_len(rest, n));
        lemma_total_size_uniform(rest, n);
        assert(d.len() == v.len() * n);
        assert(v.len() * n == (v.len() - 1) * n + n) by (nonlinear_arith);
        if v.len() == 1 {
            assert(d.len() == n);
            assert(d =~= v.first());
            assert(split_spec(d, n) =~= v);
        } else {
            assert(d.len() > n) by (nonlinear_arith)
                requires
                    d.len() == v.len() * n,
                    v.len() >= 2,
                    n >= 1,
            ;
            lemma_split_concat(rest, n);
            assert(d.take(n as int) =~= v.first());
            assert(d.skip(n as int) =~= concat_of(rest));
            assert(split_spec(d, n) == seq![d.take(n as int)] + split_spec(
                d.skip(n as int),
                n,
            ));
            assert(split_spec(d, n) =~= v);
        }
    }
}

/// The total size of a prefix never exceeds the total size of the whole.
pub proof fn lemma_total_size_take_le(v: Seq<Seq<u8>>, i: int)
    requires
        0 <= i <= v.len(),
    ensures
        0 <= total_size(v.take(i)) <= total_size(v),
    decreases v.len(),
{
    if i == v.len() {
        assert(v.take(i) =~= v);
        lemma_total_size_nonneg(v);
    } else {
        let w = v.drop_last();
        lemma_total_size_take_le(w, i);
        assert(w.take(i) =~= v.take(i));
    }
}

/// A total size is never negative.
pub proof fn lemma_total_size_nonneg(v: Seq<Seq<u8>>)
    ensures
        total_size(v) >= 0,
    decreases v.len(),
{
    if v.len() > 0 {
        lemma_total_size_nonneg(v.drop_last());
    }
}

/// Splits a flat decompressed byte buffer into consecutive frame buffers
/// of the fixed planar YUV 4:2:0 length for the configured resolution; a
/// final partial chunk is kept as-is, neither discarded nor padded.
#[verifier::loop_isolation(false)]
pub fn split_data_to_frames(data: Vec<u8>, width: usize, height: usize) -> (result: Vec<
    Vec<u8>,
>)
    requires
        width * height * 3 <= usize::MAX,
        width * height >= 1,
    ensures
        views_of(result@) == split_spec(data@, ((width * height * 3) as nat) / 2),
{
    let frame_size: usize = (width * height * 3) / 2;
    assert(frame_size >= 1);
    let ghost fs = frame_size as nat;
    let mut result: Vec<Vec<u8>> = Vec::new();
    let mut index: usize = 0;
    assert(data@.skip(0) =~= data@);
    while index < data.len()
        invariant
            index <= data@.len(),
            views_of(result@) + split_spec(data@.skip(index as int), fs) =~= split_spec(
                data@,
                fs,
            ),
        decreases data@.len() - index,
    {
        let ghost s = data@.skip(index as int);
        let remaining = data.len() - index;
        let end: usize = if remaining <= frame_size {
            data.len()
        } else {
            index + frame_size
        };
        let mut chunk: Vec<u8> = Vec::new();
        let mut k: usize = index;
        while k < end
            invariant
                index <= k <= end <= data@.len(),
                chunk@ =~= data@.subrange(index as int, k as int),
            decreases end - k,
        {
            chunk.push(data[k]);
            k += 1;
        }
        let ghost before = result@;
        result.push(chunk);
        proof {
            if s.len() <= fs {
                assert(chunk@ =~= s);
                assert(split_spec(s, fs) == seq![s]);
                assert(data@.skip(end as int) =~= Seq::<u8>::empty());
            } else {
                assert(chunk@ =~= s.take(fs as int));
                assert(split_spec(s, fs) == seq![s.take(fs as int)] + split_spec(
                    s.skip(fs as int),
                    fs,
                ));
                assert(s.skip(fs as int) =~= data@.skip(end as int));
            }
            assert(forall|i: int|
                0 <= i < before.len() ==> #[trigger] result@[i]@ == views_of(before)[i]);
            assert(views_of(result@) =~= views_of(before) + seq![chunk@]);
            assert(views_of(result@) + split_spec(data@.skip(end as int), fs) =~= split_spec(
                data@,
                fs,
            ));
        }
        index = end;
    }
    proof {
        assert(data@.skip(index as int) =~= Seq::<u8>::empty());
        assert(views_of(result@) =~= split_spec(data@, fs));
    }
    result
}

/// Concatenates per-frame byte buffers, in order, into one flat stream.
#[verifier::loop_isolation(false)]
pub fn concat_frames(frames: &Vec<Vec<u8>>) -> (r: Vec<u8>)
    requires
        total_size(views_of(frames@)) <= usize::MAX,
    ensures
        r@ == concat_of(views_of(frames@)),
{
    let ghost dv = views_of(frames@);
    let mut r: Vec<u8> = Vec::new();
    let mut index: usize = 0;
    while index < frames.len()
        invariant
            index <= dv.len(),
            r@ =~= concat_of(dv.take(index as int)),
        decreases frames@.len() - index,
    {
        proof {
            lemma_concat_take_step(dv, index as int);
            lemma_concat_len(dv);
            lemma_total_size_take_le(dv, index as int + 1);
            lemma_concat_len(dv.take(index as int + 1));
            lemma_concat_len(dv.take(index as int));
        }
        let frame = &frames[index];
        let mut k: usize = 0;
        let ghost rbase = r@;
        while k < frame.len()
            invariant
                k <= frame@.len(),
                r@ =~= rbase + frame@.take(k as int),
                rbase.len() + frame@.len() <= usize::MAX,
            decreases frame@.len() - k,
        {
            r.push(frame[k]);
            k += 1;
        }
        assert(r@ =~= concat_of(dv.take(index as int + 1))) by {
            assert(frame@.take(frame@.len() as int) =~= frame@);
        }
        index += 1;
    }
    assert(r@ =~= concat_of(dv)) by {
        assert(dv.take(dv.len() as int) =~= dv);
    }
    r
}

/// Concatenating one more frame appends exactly its bytes.
proof fn lemma_concat_take_step(v: Seq<Seq<u8>>, i: int)
    requires
        0 <= i < v.len(),
    ensures
        concat_of(v.take(i + 1)) == concat_of(v.take(i)) + v[i],
{
    assert(v.take(i + 1).drop_last() =~= v.take(i));
    assert(v.take(i + 1).last() == v[i]);
}

/// A concatenation is exactly as long as the total size of its frames.
pub proof fn lemma_concat_len(v: Seq<Seq<u8>>)
    ensures
        concat_of(v).len() == total_size(v),
    decreases v.len(),
{
    if v.len() > 0 {
        lemma_concat_len(v.drop_last());
    }
}

/// With even dimensions the planar YUV 4:2:0 frame length is exactly one
/// and a half times the pixel count, and the quarter-size chroma plane is
/// the product of the halved dimensions.
pub proof fn lemma_frame_len_even(w: nat, h: nat)
    requires
        crate::dims_ok(w, h),
    ensures
        (w * h) / 4 == (w / 2) * (h / 2),
        frame_len_yuv(w, h) == (w * h * 3) / 2,
        frame_len_yuv(w, h) == w * h + 2 * ((w / 2) * (h / 2)),
        1 <= frame_len_yuv(w, h) <= frame_len_rgb(w, h),
        frame_len_rgb(w, h) == w * h * 3,
        2 * frame_len_yuv(w, h) == frame_len_rgb(w, h),
{
    let hw = w / 2;
    let hh = h / 2;
    assert(w == 2 * hw) by {
        vstd::arithmetic::div_mod::lemma_fundamental_div_mod(w as int, 2);
    }
    assert(h == 2 * hh) by {
        vstd::arithmetic::div_mod::lemma_fundamental_div_mod(h as int, 2);
    }
    let z = (hw * hh) as int;
    assert(w * h == 4 * z && w * h * 3 == 2 * (6 * z) && w * h + 2 * z == 6 * z) by (
    nonlinear_arith)
        requires
            w == 2 * hw,
            h == 2 * hh,
            z == hw * hh,
    ;
    assert((4 * z) / 4 == z) by {
        vstd::arithmetic::div_mod::lemma_div_multiples_vanish(z, 4);
    }
    assert((2 * (6 * z)) / 2 == 6 * z) by {
        vstd::arithmetic::div_mod::lemma_div_multiples_vanish(6 * z, 2);
    }
    assert(z >= 1) by (nonlinear_arith)
        requires
            hw >= 1,
            hh >= 1,
            z == hw * hh,
    ;
    assert(6 * z <= 12 * z);
}

/// A video of uniform frame length has total size frames times length.
pub proof fn lemma_total_size_uniform(v: Seq<Seq<u8>>, n: nat)
    requires
        crate::delta::uniform_len(v, n),
    ensures
        total_size(v) == v.len() * n,
    decreases v.len(),
{
    if v.len() == 0 {
    } else {
        let w = v.drop_last();
        assert(crate::delta::uniform_len(w, n));
        lemma_total_size_uniform(w, n);
        assert(v.len() * n == w.len() * n + n) by (nonlinear_arith)
            requires
                v.len() == w.len() + 1,
        ;
    }
}

/// Appends the bytes of one buffer to another.
pub(crate) fn append_bytes(dst: &mut Vec<u8>, src: &Vec<u8>)
    requires
        old(dst)@.len() + src@.len() <= usize::MAX,
    ensures
        final(dst)@ == old(dst)@ + src@,
{
    let ghost base = dst@;
    let mut k: usize = 0;
    while k < src.len()
        invariant
            k <= src@.len(),
            base.len() + src@.len() <= usize::MAX,
            dst@ =~= base + src@.take(k as int),
        decreases src@.len() - k,
    {
        dst.push(src[k]);
        k += 1;
    }
    assert(dst@ =~= base + src@);
}

/// The total in-memory byte size of a video's frame buffers.
#[verifier::loop_isolation(false)]
pub fn size(frames: &Vec<Vec<u8>>) -> (total: usize)
    requires
        total_size(views_of(frames@)) <= usize::MAX,
    ensures
        total == total_size(views_of(frames@)),
{
    let ghost dv = views_of(frames@);
    let mut total: usize = 0;
    let mut index: usize = 0;
    while index < frames.len()
        invariant
            index <= dv.len(),
            total == total_size(dv.take(index as int)),
        decreases frames@.len() - index,
    {
        proof {
            lemma_total_take_step(dv, index as int);
            lemma_total_size_take_le(dv, index as int + 1);
        }
        total = total + frames[index].len();
        index += 1;
    }
    assert(dv.take(dv.len() as int) =~= dv);
    total
}

/// One more frame adds exactly its length to the running total.
proof fn lemma_total_take_step(v: Seq<Seq<u8>>, i: int)
    requires
        0 <= i < v.len(),
    ensures
        total_size(v.take(i + 1)) == total_size(v.take(i)) + v[i].len(),
{
    assert(v.take(i + 1).drop_last() =~= v.take(i));
    assert(v.take(i + 1).last() == v[i]);
}

} // verus!
