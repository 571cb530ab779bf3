//! The decode pipeline: deflate decompression, splitting the flat stream
//! back into fixed-size frame buffers, sequential delta decoding, and
//! color-space reconstruction to interleaved RGB.
//!
//! A trailing partial chunk of the decompressed stream (one shorter than
//! a full frame) is treated as recoverable: it is dropped, and the full
//! frames before it are decoded.

use vstd::prelude::*;

use crate::CodecError;
use crate::chunk::drop_partial;
use crate::chunk::frame_len_rgb;
use crate::chunk::frame_len_yuv;
use crate::chunk::lemma_frame_len_even;
use crate::chunk::lemma_split_props;
use crate::chunk::split_data_to_frames;
use crate::chunk::split_spec;
use crate::color::convert_yuv_to_rgb;
use crate::color::yuv_to_rgb_video;
use crate::delta::decode_deltas;
use crate::delta::decode_frame_deltas;
use crate::delta::lemma_decode_deltas_pointwise;
use crate::delta::uniform_len;
use crate::delta::views_of;
use crate::stream::deflate_of;
use crate::stream::inflate_bytes;

verus! {

/// What decoding reconstructs from the decompressed byte stream: split
/// into fixed YUV-frame-size chunks, drop a trailing partial chunk,
/// delta-decode strictly in order, then rebuild interleaved RGB.
pub open spec fn decoded_frames(x: Seq<u8>, w: nat, h: nat) -> Seq<Seq<u8>> {
    yuv_to_rgb_video(
        decode_deltas(drop_partial(split_spec(x, frame_len_yuv(w, h)), frame_len_yuv(w, h))),
        w,
        h,
    )
}

/// The two pipelines are inverse up to the lossy color stage: decoding
/// the byte stream the encoder builds from any uniform RGB video
/// reconstructs exactly the RGB rendering of its converted YUV frames —
/// delta coding, concatenation and chunking all cancel.
pub proof fn lemma_pipeline_round_trip(v: Seq<Seq<u8>>, w: nat, h: nat)
    requires
        crate::dims_ok(w, h),
        uniform_len(v, frame_len_rgb(w, h)),
    ensures
        decoded_frames(crate::encoder::encoded_stream(v, w, h), w, h) == yuv_to_rgb_video(
            crate::encoder::yuv_video(v, w, h),
            w,
            h,
        ),
{
    let fs = frame_len_yuv(w, h);
    let yv = crate::encoder::yuv_video(v, w, h);
    lemma_frame_len_even(w, h);
    assert forall|k: int| 0 <= k < yv.len() implies (#[trigger] yv[k]).len() == fs by {
        assert(yv[k].len() == w * h + (w / 2) * (h / 2) + (w / 2) * (h / 2));
    }
    let d = crate::delta::encode_deltas(yv);
    crate::delta::lemma_encode_deltas_len(yv);
    assert(uniform_len(d, fs));
    crate::chunk::lemma_split_concat(d, fs);
    let chunks = split_spec(crate::chunk::concat_of(d), fs);
    assert(drop_partial(chunks, fs) == d) by {
        if d.len() > 0 {
            assert(chunks.last().len() == fs);
        }
    }
    crate::delta::lemma_delta_round_trip(yv, fs);
}

/// Runs the whole decode pipeline over a compressed stream. Dimensions
/// must be positive and even, and must match the configuration used at
/// encode time: the stream itself carries no resolution metadata. A
/// stream that is the compression of any byte sequence decodes to
/// exactly the frames that sequence describes; one that the compressor
/// rejects surfaces as a corrupt stream.
pub fn decode_video(data: Vec<u8>, width: usize, height: usize) -> (r: Result<
    Vec<Vec<u8>>,
    CodecError,
>)
    requires
        width * height * 3 <= usize::MAX,
    ensures
        !crate::dims_ok(width as nat, height as nat) ==> r == Err::<Vec<Vec<u8>>, CodecError>(
            CodecError::ConfigurationError,
        ),
        crate::dims_ok(width as nat, height as nat) ==> forall|x: Seq<u8>|
            data@ == #[trigger] deflate_of(x) ==> r is Ok && views_of(r->Ok_0@)
                == decoded_frames(x, width as nat, height as nat),
        crate::dims_ok(width as nat, height as nat) && r is Err ==> r == Err::<
            Vec<Vec<u8>>,
            CodecError,
        >(CodecError::CorruptStream),
        r is Ok ==> uniform_len(
            views_of(r->Ok_0@),
            frame_len_rgb(width as nat, height as nat),
        ),
{
    let ghost w = width as nat;
    let ghost h = height as nat;
    if !crate::check_dims(width, height) {
        return Err(CodecError::ConfigurationError);
    }
    let decoded_data = match inflate_bytes(&data) {
        Ok(d) => d,
        Err(_) => {
            return Err(CodecError::CorruptStream);
        },
    };
    let ghost x0 = decoded_data@;
    proof {
        lemma_frame_len_even(w, h);
    }
    let ghost fs = frame_len_yuv(w, h);
    let ghost chunks = split_spec(x0, fs);
    let mut frames = split_data_to_frames(decoded_data, width, height);
    proof {
        assert(((width * height * 3) as nat) / 2 == fs);
        assert(views_of(frames@) == chunks);
        lemma_split_props(x0, fs);
    }
    let frame_size: usize = (width * height * 3) / 2;
    if frames.len() > 0 {
        let last_index = frames.len() - 1;
        if frames[last_index].len() < frame_size {
            let ghost before = frames@;
            let _partial = frames.pop();
            assert(views_of(frames@) =~= views_of(before).drop_last());
        }
    }
    let ghost kept = views_of(frames@);
    proof {
        assert(kept == drop_partial(chunks, fs));
        assert forall|i: int| 0 <= i < kept.len() implies (#[trigger] kept[i]).len() == fs by {
            if i < chunks.len() - 1 {
                assert(chunks[i].len() == fs);
            } else {
                assert(kept[i] == chunks.last());
            }
        }
        assert(uniform_len(kept, fs));
        assert(crate::delta::adjacent_lens_eq(kept));
    }
    decode_frame_deltas(&mut frames);
    proof {
        lemma_decode_deltas_pointwise(kept);
        assert(uniform_len(decode_deltas(kept), fs));
        assert forall|i: int| 0 <= i < frames@.len() implies (#[trigger] frames@[i])@.len()
            == fs by {
            assert(frames@[i]@ == views_of(frames@)[i]);
            assert(views_of(frames@)[i] == decode_deltas(kept)[i]);
        }
    }
    convert_yuv_to_rgb(&mut frames, width, height);
    let ghost out = views_of(frames@);
    proof {
        assert(out == decoded_frames(x0, w, h));
        assert forall|i: int| 0 <= i < out.len() implies (#[trigger] out[i]).len()
            == frame_len_rgb(w, h) by {
            assert(out[i].len() == w * h * 3);
        }
    }
    Ok(frames)
}

} // verus!
