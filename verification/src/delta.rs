//! Temporal delta coding: each frame after the first is stored as the
//! byte-wise wrap-around difference from its predecessor, and decoding
//! reverses it by wrap-around addition against the already-reconstructed
//! previous frame.

use vstd::prelude::*;

verus! {

/// The mathematical view of a video: the byte sequence of each frame,
/// in frame order.
pub open spec fn views_of(frames: Seq<Vec<u8>>) -> Seq<Seq<u8>> {
    Seq::new(frames.len(), |i: int| frames[i]@)
}

/// Byte-wise wrap-around (modulo-256) subtraction.
pub open spec fn sub_wrap(a: u8, b: u8) -> u8 {
    vstd::wrapping::u8_specs::wrapping_sub(a, b)
}

/// Byte-wise wrap-around (modulo-256) addition.
pub open spec fn add_wrap(a: u8, b: u8) -> u8 {
    vstd::wrapping::u8_specs::wrapping_add(a, b)
}

/// Wrap-around subtraction of a whole frame from another, pointwise.
pub open spec fn sub_frame(a: Seq<u8>, b: Seq<u8>) -> Seq<u8> {
    Seq::new(a.len(), |j: int| sub_wrap(a[j], b[j]))
}

/// Wrap-around addition of a whole frame to another, pointwise.
pub open spec fn add_frame(a: Seq<u8>, b: Seq<u8>) -> Seq<u8> {
    Seq::new(a.len(), |j: int| add_wrap(a[j], b[j]))
}

/// All frames of a video share one byte length.
pub open spec fn uniform_len(v: Seq<Seq<u8>>, n: nat) -> bool {
    forall|i: int| 0 <= i < v.len() ==> (#[trigger] v[i]).len() == n
}

/// Every frame has the same length as the frame before it.
pub open spec fn adjacent_lens_eq(v: Seq<Seq<u8>>) -> bool {
    forall|i: int| 0 < i < v.len() ==> (#[trigger] v[i]).len() == v[i - 1].len()
}

/// The delta encoding of a video: frame 0 unchanged, frame i > 0 the
/// wrap-around difference from frame i - 1 of the input.
pub open spec fn encode_deltas(v: Seq<Seq<u8>>) -> Seq<Seq<u8>> {
    Seq::new(v.len(), |i: int| if i == 0 { v[0] } else { sub_frame(v[i], v[i - 1]) })
}

/// The delta decoding of a video: frame 0 unchanged, frame i > 0 the
/// wrap-around sum of delta i and the already-reconstructed frame i - 1.
/// The recursion mirrors the strict sequential dependency of decoding.
pub open spec fn decode_deltas(v: Seq<Seq<u8>>) -> Seq<Seq<u8>>
    decreases v.len(),
{
    if v.len() == 0 {
        Seq::empty()
    } else if v.len() == 1 {
        seq![v[0]]
    } else {
        let prev = decode_deltas(v.drop_last());
        prev.push(add_frame(v.last(), prev.last()))
    }
}

/// Pointwise description of the recursive decode: frame 0 is unchanged,
/// every later frame is the wrap-around sum of its delta and the
/// reconstructed predecessor, and every frame keeps its length.
pub proof fn lemma_decode_deltas_pointwise(v: Seq<Seq<u8>>)
    ensures
        decode_deltas(v).len() == v.len(),
        v.len() > 0 ==> decode_deltas(v)[0] == v[0],
        forall|i: int|
            0 < i < v.len() ==> #[trigger] decode_deltas(v)[i]
                == add_frame(v[i], decode_deltas(v)[i - 1]),
        forall|i: int|
            0 <= i < v.len() ==> (#[trigger] decode_deltas(v)[i]).len() == v[i].len(),
    decreases v.len(),
{
    if v.len() <= 1 {
    } else {
        let w = v.drop_last();
        lemma_decode_deltas_pointwise(w);
        assert(forall|i: int|
            0 <= i < w.len() ==> #[trigger] decode_deltas(v)[i] == decode_deltas(w)[i]);
        assert(forall|i: int| 0 <= i < w.len() ==> #[trigger] w[i] == v[i]);
        let n = v.len() - 1;
        assert(decode_deltas(v)[n] == add_frame(v[n], decode_deltas(v)[n - 1]));
        assert(decode_deltas(v)[n].len() == v[n].len());
    }
}

/// Delta encoding keeps every frame's length.
pub proof fn lemma_encode_deltas_len(v: Seq<Seq<u8>>)
    ensures
        encode_deltas(v).len() == v.len(),
        forall|i: int|
            0 <= i < v.len() ==> (#[trigger] encode_deltas(v)[i]).len() == v[i].len(),
{
}

/// Wrap-around addition inverts wrap-around subtraction on every byte,
/// including across the 0/255 boundary.
pub proof fn lemma_wrap_round_trip(a: u8, b: u8)
    ensures
        add_wrap(sub_wrap(a, b), b) == a,
{
}

/// Delta decoding inverts delta encoding exactly, for any video whose
/// frames share one length, over every byte value.
pub proof fn lemma_delta_round_trip(v: Seq<Seq<u8>>, n: nat)
    requires
        uniform_len(v, n),
    ensures
        decode_deltas(encode_deltas(v)) == v,
    decreases v.len(),
{
    let e = encode_deltas(v);
    if v.len() == 0 {
        assert(decode_deltas(e) =~= v);
    } else if v.len() == 1 {
        assert(decode_deltas(e) =~= v);
    } else {
        let w = v.drop_last();
        lemma_delta_round_trip(w, n);
        assert(e.drop_last() =~= encode_deltas(w));
        let prev = decode_deltas(e.drop_last());
        assert(prev == w);
        let i = v.len() - 1;
        assert(e.last() == sub_frame(v[i], v[i - 1]));
        assert(prev.last() == v[i - 1]);
        assert(add_frame(e.last(), prev.last()) =~= v.last());
        assert(decode_deltas(e) =~= v);
    }
}

/// Copies a frame's bytes into a new owned frame.
pub fn copy_frame(f: &Vec<u8>) -> (r: Vec<u8>)
    ensures
        r@ == f@,
{
    let mut r: Vec<u8> = Vec::with_capacity(f.len());
    let mut j: usize = 0;
    while j < f.len()
        invariant
            j <= f@.len(),
            r@ =~= f@.take(j as int),
        decreases f@.len() - j,
    {
        r.push(f[j]);
        j += 1;
    }
    assert(r@ =~= f@);
    r
}

/// Adds two frames of equal length pointwise with wrap-around.
fn add_frame_exec(a: &Vec<u8>, b: &Vec<u8>) -> (r: Vec<u8>)
    requires
        a@.len() == b@.len(),
    ensures
        r@ == add_frame(a@, b@),
{
    let mut r: Vec<u8> = Vec::with_capacity(a.len());
    let mut j: usize = 0;
    while j < a.len()
        invariant
            j <= a@.len(),
            a@.len() == b@.len(),
            r@ =~= add_frame(a@, b@).take(j as int),
        decreases a@.len() - j,
    {
        r.push(a[j].wrapping_add(b[j]));
        j += 1;
    }
    assert(r@ =~= add_frame(a@, b@));
    r
}

/// Subtracts frame `b` from frame `a` pointwise with wrap-around.
fn sub_frame_exec(a: &Vec<u8>, b: &Vec<u8>) -> (r: Vec<u8>)
    requires
        a@.len() == b@.len(),
    ensures
        r@ == sub_frame(a@, b@),
{
    let mut r: Vec<u8> = Vec::with_capacity(a.len());
    let mut j: usize = 0;
    while j < a.len()
        invariant
            j <= a@.len(),
            a@.len() == b@.len(),
            r@ =~= sub_frame(a@, b@).take(j as int),
        decreases a@.len() - j,
    {
        r.push(a[j].wrapping_sub(b[j]));
        j += 1;
    }
    assert(r@ =~= sub_frame(a@, b@));
    r
}

/// Encodes a video as delta frames: frame 0 is copied through, frame i > 0
/// becomes its byte-wise wrapping difference from input frame i - 1.
#[verifier::loop_isolation(false)]
pub fn calculate_pixel_deltas(frames: &Vec<Vec<u8>>) -> (encoded: Vec<Vec<u8>>)
    requires
        adjacent_lens_eq(views_of(frames@)),
    ensures
        views_of(encoded@) == encode_deltas(views_of(frames@)),
{
    let ghost dv = views_of(frames@);
    let mut encoded: Vec<Vec<u8>> = Vec::with_capacity(frames.len());
    let mut index: usize = 0;
    while index < frames.len()
        invariant
            dv == views_of(frames@),
            adjacent_lens_eq(dv),
            index <= dv.len(),
            encoded@.len() == index,
            views_of(encoded@) =~= encode_deltas(dv).take(index as int),
        decreases frames@.len() - index,
    {
        let ghost before = encoded@;
        if index == 0 {
            encoded.push(copy_frame(&frames[0]));
        } else {
            assert(dv[index as int].len() == dv[index as int - 1].len());
            encoded.push(sub_frame_exec(&frames[index], &frames[index - 1]));
        }
        assert(views_of(encoded@) =~= encode_deltas(dv).take(index as int + 1)) by {
            assert(forall|i: int|
                0 <= i < index ==> #[trigger] encoded@[i]@ == views_of(before)[i]);
            assert(encoded@[index as int]@ == encode_deltas(dv)[index as int]);
        }
        index += 1;
    }
    assert(views_of(encoded@) =~= encode_deltas(dv));
    encoded
}

/// Decodes delta frames strictly in order: frame 0 is left unchanged,
/// frame i > 0 becomes its byte-wise wrapping sum with the
/// already-reconstructed frame i - 1, which replaces the video in place.
#[verifier::loop_isolation(false)]
pub fn decode_frame_deltas(frames: &mut Vec<Vec<u8>>)
    requires
        adjacent_lens_eq(views_of(old(frames)@)),
    ensures
        views_of(final(frames)@) == decode_deltas(views_of(old(frames)@)),
{
    let ghost dv = views_of(old(frames)@);
    let ghost target = decode_deltas(dv);
    proof {
        lemma_decode_deltas_pointwise(dv);
    }
    let mut out: Vec<Vec<u8>> = Vec::with_capacity(frames.len());
    let mut index: usize = 0;
    while index < frames.len()
        invariant
            dv == views_of(frames@),
            adjacent_lens_eq(dv),
            target == decode_deltas(dv),
            target.len() == dv.len(),
            forall|i: int| 0 <= i < dv.len() ==> (#[trigger] target[i]).len() == dv[i].len(),
            index <= dv.len(),
            out@.len() == index,
            views_of(out@) =~= target.take(index as int),
        decreases frames@.len() - index,
    {
        if index == 0 {
            assert(target[0] == dv[0]);
            out.push(copy_frame(&frames[0]));
        } else {
            assert(dv[index as int].len() == dv[index as int - 1].len());
            assert(views_of(out@)[index as int - 1] == target[index as int - 1]);
            assert(out@[index as int - 1]@ == target[index as int - 1]);
            let decoded = add_frame_exec(&frames[index], &out[index - 1]);
            assert(decoded@ == target[index as int]) by {
                assert(target[index as int]
                    == add_frame(dv[index as int], target[index as int - 1]));
            }
            out.push(decoded);
        }
        index += 1;
        assert(views_of(out@) =~= target.take(index as int));
    }
    assert(views_of(out@) =~= target);
    *frames = out;
}

} // verus!
