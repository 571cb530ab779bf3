//! The encode pipeline: color-space conversion and chroma subsampling per
//! frame, temporal delta coding across frames, a demonstrative run-length
//! pass for size reporting, concatenation, and the final deflate stage.

use vstd::prelude::*;

use crate::CodecError;
use crate::chunk::append_bytes;
use crate::chunk::concat_frames;
use crate::chunk::concat_of;
use crate::chunk::frame_len_rgb;
use crate::chunk::frame_len_yuv;
use crate::chunk::lemma_frame_len_even;
use crate::chunk::lemma_total_size_uniform;
use crate::chunk::size;
use crate::chunk::total_size;
use crate::color::chroma_subsampling_420;
use crate::color::convert_frame_to_yuv;
use crate::color::frame_to_yuv;
use crate::color::lemma_chroma_planes_ok;
use crate::delta::calculate_pixel_deltas;
use crate::delta::encode_deltas;
use crate::delta::lemma_encode_deltas_len;
use crate::delta::uniform_len;
use crate::delta::views_of;
use crate::rle::create_run_length_encoding;
use crate::rle::lemma_rle_video_size;
use crate::rle::rle_video;
use crate::stream::deflate_bytes;
use crate::stream::deflate_of;

verus! {

/// Every frame of a video encoded as planar YUV 4:2:0, in order.
pub open spec fn yuv_video(v: Seq<Seq<u8>>, w: nat, h: nat) -> Seq<Seq<u8>> {
    Seq::new(v.len(), |i: int| frame_to_yuv(v[i], w, h))
}

/// The flat byte stream handed to the compressor: the delta-coded YUV
/// frames concatenated in frame order, with no boundary markers.
pub open spec fn encoded_stream(v: Seq<Seq<u8>>, w: nat, h: nat) -> Seq<u8> {
    concat_of(encode_deltas(yuv_video(v, w, h)))
}

/// The result of an encode run: the compressed stream, and the size
/// observations the pipeline reports instead of printing them.
pub struct EncodedVideo {
    /// The compressed byte stream.
    pub data: Vec<u8>,
    /// Total byte size of the raw RGB input frames.
    pub original_size: usize,
    /// Total byte size of the frames after conversion and subsampling.
    pub yuv_size: usize,
    /// Total byte size of the demonstrative run-length encoding of the
    /// delta frames.
    pub rle_size: usize,
}

/// The encode pipeline is deterministic: identical inputs at identical
/// configuration produce byte-identical compressed output.
pub proof fn lemma_encode_deterministic(a: Seq<Seq<u8>>, b: Seq<Seq<u8>>, w: nat, h: nat)
    requires
        a == b,
    ensures
        deflate_of(encoded_stream(a, w, h)) == deflate_of(encoded_stream(b, w, h)),
{
}

/// Runs the whole encode pipeline over a video of raw interleaved RGB
/// frames. Dimensions must be positive and even, and every frame must
/// have exactly the RGB byte length of the configured resolution; the
/// matching errors are returned before any work is done.
#[verifier::loop_isolation(false)]
pub fn encode_video(video_frames: &Vec<Vec<u8>>, width: usize, height: usize) -> (r: Result<
    EncodedVideo,
    CodecError,
>)
    requires
        width * height * 3 <= usize::MAX,
        video_frames@.len() * frame_len_rgb(width as nat, height as nat) <= usize::MAX,
    ensures
        !crate::dims_ok(width as nat, height as nat) ==> r == Err::<EncodedVideo, CodecError>(
            CodecError::ConfigurationError,
        ),
        crate::dims_ok(width as nat, height as nat) && !uniform_len(
            views_of(video_frames@),
            frame_len_rgb(width as nat, height as nat),
        ) ==> r == Err::<EncodedVideo, CodecError>(CodecError::FrameLengthMismatch),
        r is Ok <==> crate::dims_ok(width as nat, height as nat) && uniform_len(
            views_of(video_frames@),
            frame_len_rgb(width as nat, height as nat),
        ),
        r is Ok ==> {
            let out = r->Ok_0;
            let dv = views_of(video_frames@);
            let w = width as nat;
            let h = height as nat;
            out.data@ == deflate_of(encoded_stream(dv, w, h)) && out.original_size == total_size(
                dv,
            ) && out.yuv_size == total_size(yuv_video(dv, w, h)) && out.rle_size == total_size(
                rle_video(encode_deltas(yuv_video(dv, w, h))),
            )
        },
{
    let ghost w = width as nat;
    let ghost h = height as nat;
    let ghost dv = views_of(video_frames@);
    if !crate::check_dims(width, height) {
        return Err(CodecError::ConfigurationError);
    }
    proof {
        lemma_frame_len_even(w, h);
    }
    let expected: usize = width * height * 3;
    let mut i: usize = 0;
    while i < video_frames.len()
        invariant
            i <= dv.len(),
            dv == views_of(video_frames@),
            forall|k: int| 0 <= k < i ==> (#[trigger] dv[k]).len() == expected,
        decreases dv.len() - i,
    {
        if video_frames[i].len() != expected {
            assert(dv[i as int].len() != frame_len_rgb(w, h));
            assert(!uniform_len(dv, frame_len_rgb(w, h)));
            return Err(CodecError::FrameLengthMismatch);
        }
        i += 1;
    }
    assert(uniform_len(dv, frame_len_rgb(w, h)));
    proof {
        lemma_total_size_uniform(dv, frame_len_rgb(w, h));
    }
    let original_size = size(video_frames);

    let ghost yv = yuv_video(dv, w, h);
    let mut yuv: Vec<Vec<u8>> = Vec::with_capacity(video_frames.len());
    let mut index: usize = 0;
    while index < video_frames.len()
        invariant
            index <= dv.len(),
            yuv@.len() == index,
            views_of(yuv@) =~= yv.take(index as int),
        decreases dv.len() - index,
    {
        let frame = &video_frames[index];
        assert(frame@ == dv[index as int]);
        assert(frame@.len() == frame_len_rgb(w, h));
        let (y, u, v) = convert_frame_to_yuv(width, height, frame);
        proof {
            lemma_chroma_planes_ok(frame@, w, h);
        }
        let (u_sub_sampling, v_sub_sampling) = chroma_subsampling_420(width, height, u, v);
        let mut assembled = y;
        append_bytes(&mut assembled, &u_sub_sampling);
        append_bytes(&mut assembled, &v_sub_sampling);
        let ghost before = yuv@;
        assert(assembled@ == frame_to_yuv(dv[index as int], w, h));
        yuv.push(assembled);
        assert(views_of(yuv@) =~= yv.take(index as int + 1)) by {
            assert(forall|k: int|
                0 <= k < index ==> #[trigger] yuv@[k]@ == views_of(before)[k]);
            assert(yuv@[index as int]@ == yv[index as int]);
        }
        index += 1;
    }
    assert(views_of(yuv@) =~= yv);
    proof {
        assert forall|k: int| 0 <= k < yv.len() implies (#[trigger] yv[k]).len() == frame_len_yuv(
            w,
            h,
        ) by {
            assert(yv[k].len() == w * h + (w / 2) * (h / 2) + (w / 2) * (h / 2));
        }
        lemma_total_size_uniform(yv, frame_len_yuv(w, h));
        assert(yv.len() * frame_len_yuv(w, h) * 2 == yv.len() * frame_len_rgb(w, h))
            by (nonlinear_arith)
            requires
                2 * frame_len_yuv(w, h) == frame_len_rgb(w, h),
        ;
        assert(crate::delta::adjacent_lens_eq(yv));
    }
    let yuv_size = size(&yuv);

    let ghost deltas_spec = encode_deltas(yv);
    let pixel_delta_frames = calculate_pixel_deltas(&yuv);
    proof {
        lemma_encode_deltas_len(yv);
        assert(uniform_len(deltas_spec, frame_len_yuv(w, h)));
        lemma_total_size_uniform(deltas_spec, frame_len_yuv(w, h));
        lemma_rle_video_size(deltas_spec);
    }
    let rle_frames = create_run_length_encoding(&pixel_delta_frames);
    let rle_size = size(&rle_frames);

    let stream_bytes = concat_frames(&pixel_delta_frames);
    let data = deflate_bytes(&stream_bytes);
    Ok(EncodedVideo { data, original_size, yuv_size, rle_size })
}

} // verus!
