use video_codec::CodecError;
use video_codec::chunk::size;
use video_codec::chunk::split_data_to_frames;
use video_codec::color::chroma_subsampling_420;
use video_codec::color::convert_frame_to_yuv;
use video_codec::color::yuv_frame_to_rgb;
use video_codec::decoder::decode_video;
use video_codec::delta::calculate_pixel_deltas;
use video_codec::delta::decode_frame_deltas;
use video_codec::encoder::encode_video;
use video_codec::rle::create_run_length_encoding;
use std::io::Write;

#[test]
fn calculate_correct_deltas() {
    let original = Vec::from([
        Vec::from([5, 3, 3, 1]),
        Vec::from([6, 1, 2, 1]),
        Vec::from([5, 1, 2, 1]),
    ]);

    let correct_calculation = Vec::from([
        Vec::from([5, 3, 3, 1]),
        Vec::from([1, 254, 255, 0]),
        Vec::from([255, 0, 0, 0]),
    ]);

    let calculated_deltas = calculate_pixel_deltas(&original);
    assert_eq!(calculated_deltas, correct_calculation);
}

#[test]
fn mod_calculate_correct_deltas() {
    let mut original = Vec::from([
        Vec::from([5, 3, 3, 1]),
        Vec::from([1, 254, 255, 0]),
        Vec::from([255, 0, 0, 0]),
    ]);

    let correct_calculation = Vec::from([
        Vec::from([5, 3, 3, 1]),
        Vec::from([6, 1, 2, 1]),
        Vec::from([5, 1, 2, 1]),
    ]);

    decode_frame_deltas(&mut original);
    assert_eq!(original, correct_calculation);
}

#[test]
fn delta_round_trip_boundary_values() {
    let frames = vec![vec![0u8, 255, 128, 1], vec![255, 0, 129, 0], vec![1, 1, 1, 1]];
    let mut encoded = calculate_pixel_deltas(&frames);
    decode_frame_deltas(&mut encoded);
    assert_eq!(encoded, frames);
}

#[test]
fn run_length_small_runs() {
    let frames = vec![vec![7u8, 7, 7, 7, 9]];
    let rle = create_run_length_encoding(&frames);
    assert_eq!(rle, vec![vec![4u8, 7, 1, 9]]);
}

#[test]
fn run_length_forced_split_at_255() {
    let frames = vec![vec![3u8; 300]];
    let rle = create_run_length_encoding(&frames);
    assert_eq!(rle, vec![vec![255u8, 3, 45, 3]]);
    let counts: u32 = rle[0].iter().step_by(2).map(|&c| c as u32).sum();
    assert_eq!(counts, 300);
}

#[test]
fn run_length_exact_256_and_empty() {
    let frames = vec![vec![9u8; 256], vec![]];
    let rle = create_run_length_encoding(&frames);
    assert_eq!(rle[0], vec![255u8, 9, 1, 9]);
    assert_eq!(rle[1], Vec::<u8>::new());
}

#[test]
fn chroma_block_mean_truncated() {
    // One 2x2 plane holding the scaled chroma values 10, 20, 30 and 40:
    // their mean is 25, reached exactly after truncation.
    let scale = 10000u32;
    let u = vec![10 * scale, 20 * scale, 30 * scale, 40 * scale];
    let v = vec![10 * scale, 20 * scale, 30 * scale, 41 * scale];
    let (u_sub, v_sub) = chroma_subsampling_420(2, 2, u, v);
    assert_eq!(u_sub, vec![25u8]);
    // 101 / 4 = 25.25 truncates to 25 as well.
    assert_eq!(v_sub, vec![25u8]);
}

#[test]
fn convert_red_frame_to_yuv() {
    let frame = vec![255u8, 0, 0, 255, 0, 0, 255, 0, 0, 255, 0, 0];
    let (y, u, v) = convert_frame_to_yuv(2, 2, &frame);
    // 0.299 * 255 = 76.245 truncates to 76.
    assert_eq!(y, vec![76u8; 4]);
    // -0.169 * 255 + 128 = 84.905, scaled by 10000.
    assert_eq!(u, vec![849050u32; 4]);
    // 0.499 * 255 + 128 = 255.245, scaled by 10000.
    assert_eq!(v, vec![2552450u32; 4]);
}

#[test]
fn reconstruct_rgb_from_yuv_frame() {
    // Luma 76 everywhere, subsampled chroma (84, 255): the channels come
    // back as (254, 0, 0), with green and blue clamped at zero.
    let yuv = vec![76u8, 76, 76, 76, 84, 255];
    let rgb = yuv_frame_to_rgb(&yuv, 2, 2);
    assert_eq!(rgb, vec![254u8, 0, 0, 254, 0, 0, 254, 0, 0, 254, 0, 0]);
}

#[test]
fn color_round_trip_lossy_but_bounded() {
    let frame = vec![255u8, 0, 0, 255, 0, 0, 255, 0, 0, 255, 0, 0];
    let (y, u, v) = convert_frame_to_yuv(2, 2, &frame);
    let (u_sub, v_sub) = chroma_subsampling_420(2, 2, u, v);
    let mut yuv = y;
    yuv.extend_from_slice(&u_sub);
    yuv.extend_from_slice(&v_sub);
    let rgb = yuv_frame_to_rgb(&yuv, 2, 2);
    // Lossy by design: not bit-exact...
    assert_ne!(rgb, frame);
    // ...but every channel is within a small tolerance of the original.
    for (a, b) in rgb.iter().zip(frame.iter()) {
        let diff = if a > b { a - b } else { b - a };
        assert!(diff <= 8, "channel off by {}", diff);
    }
}

#[test]
fn frame_chunking_with_partial_tail() {
    // The configured 2x2 resolution gives a frame length of 6 bytes; a
    // buffer of two and a half frames splits into two full frames and a
    // partial frame of 3 bytes.
    let data: Vec<u8> = (0u8..15).collect();
    let frames = split_data_to_frames(data, 2, 2);
    assert_eq!(frames.len(), 3);
    assert_eq!(frames[0], vec![0u8, 1, 2, 3, 4, 5]);
    assert_eq!(frames[1], vec![6u8, 7, 8, 9, 10, 11]);
    assert_eq!(frames[2], vec![12u8, 13, 14]);
}

#[test]
fn size_sums_frame_lengths() {
    let frames = vec![vec![1u8, 2], vec![3u8], vec![]];
    assert_eq!(size(&frames), 3);
}

#[test]
fn encode_rejects_bad_configuration() {
    let frames = vec![vec![0u8; 12]];
    assert_eq!(encode_video(&frames, 3, 2).err(), Some(CodecError::ConfigurationError));
    assert_eq!(encode_video(&frames, 2, 0).err(), Some(CodecError::ConfigurationError));
}

#[test]
fn encode_rejects_frame_length_mismatch() {
    let frames = vec![vec![0u8; 12], vec![0u8; 5]];
    assert_eq!(encode_video(&frames, 2, 2).err(), Some(CodecError::FrameLengthMismatch));
}

#[test]
fn decode_rejects_bad_configuration() {
    assert_eq!(decode_video(vec![], 5, 2), Err(CodecError::ConfigurationError));
}

#[test]
fn decode_rejects_corrupt_stream() {
    // A reserved block type in the first byte is never a valid stream.
    let garbage = vec![7u8, 7, 7, 7, 7];
    assert_eq!(decode_video(garbage, 2, 2), Err(CodecError::CorruptStream));
}

#[test]
fn encode_is_deterministic() {
    let frames = vec![
        vec![10u8, 20, 30, 40, 50, 60, 70, 80, 90, 100, 110, 120],
        vec![12u8, 22, 32, 42, 52, 62, 72, 82, 92, 102, 112, 122],
    ];
    let first = encode_video(&frames, 2, 2).unwrap();
    let second = encode_video(&frames, 2, 2).unwrap();
    assert_eq!(first.data, second.data);
}

#[test]
fn encode_reports_stage_sizes() {
    let frames = vec![vec![0u8; 12], vec![0u8; 12]];
    let out = encode_video(&frames, 2, 2).unwrap();
    assert_eq!(out.original_size, 24);
    // Two planar YUV 4:2:0 frames of 6 bytes each.
    assert_eq!(out.yuv_size, 12);
    // The first YUV frame is [0,0,0,0,128,128], two runs; its delta
    // successor is six zero bytes, one run: three (count, value) pairs.
    assert_eq!(out.rle_size, 6);
    assert!(!out.data.is_empty());
}

#[test]
fn encode_decode_round_trip() {
    let frames = vec![
        vec![10u8, 20, 30, 40, 50, 60, 70, 80, 90, 100, 110, 120],
        vec![12u8, 22, 32, 42, 52, 62, 72, 82, 92, 102, 112, 122],
        vec![200u8, 0, 55, 13, 255, 1, 128, 127, 126, 3, 2, 1],
    ];
    let encoded = encode_video(&frames, 2, 2).unwrap();
    let decoded = decode_video(encoded.data, 2, 2).unwrap();
    assert_eq!(decoded.len(), frames.len());
    // Delta coding and compression cancel exactly: what remains is the
    // lossy color reconstruction of each converted frame.
    for (i, frame) in frames.iter().enumerate() {
        let (y, u, v) = convert_frame_to_yuv(2, 2, frame);
        let (u_sub, v_sub) = chroma_subsampling_420(2, 2, u, v);
        let mut yuv = y;
        yuv.extend_from_slice(&u_sub);
        yuv.extend_from_slice(&v_sub);
        let expected = yuv_frame_to_rgb(&yuv, 2, 2);
        assert_eq!(decoded[i], expected);
    }
}

#[test]
fn decode_drops_trailing_partial_frame() {
    // Compress two and a half 6-byte YUV frames directly: the decoder
    // must keep the two full frames and drop the 3-byte tail.
    let stream: Vec<u8> = (0u8..15).collect();
    let mut encoder =
        flate2::write::DeflateEncoder::new(Vec::new(), flate2::Compression::best());
    encoder.write_all(&stream).unwrap();
    let compressed = encoder.finish().unwrap();
    let decoded = decode_video(compressed, 2, 2).unwrap();
    assert_eq!(decoded.len(), 2);
    assert!(decoded.iter().all(|f| f.len() == 12));
}
