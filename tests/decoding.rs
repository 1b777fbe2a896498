use emfir::accumulate::{add_frame_into, frames_to_process, FrameAccumulator, FrameAction};
use emfir::image::CountImage;
use emfir::decode::{
    decode_eer_frame, decode_strip, get_compression_params, get_strips_info, needs_custom_fields,
    CompressionParams, EerError, StripInfo,
};

fn image_of(counts: &[u16]) -> CountImage {
    CountImage::from_counts(1, counts.len(), &counts.to_vec()).unwrap()
}

fn eight_bit() -> CompressionParams {
    CompressionParams { code_len: 8, horz_sub_bits: 2, vert_sub_bits: 2 }
}

#[test]
fn fixed_codings_resolve() {
    assert_eq!(
        get_compression_params(65000, None),
        Ok(CompressionParams { code_len: 8, horz_sub_bits: 2, vert_sub_bits: 2 })
    );
    assert_eq!(
        get_compression_params(65001, None),
        Ok(CompressionParams { code_len: 7, horz_sub_bits: 2, vert_sub_bits: 2 })
    );
    assert!(!needs_custom_fields(65000));
    assert!(needs_custom_fields(65002));
}

#[test]
fn variable_coding_takes_custom_fields() {
    let custom = CompressionParams { code_len: 6, horz_sub_bits: 1, vert_sub_bits: 3 };
    assert_eq!(get_compression_params(65002, Some(custom)), Ok(custom));
    assert_eq!(get_compression_params(65002, None), Err(EerError::MissingCompressionFields));
}

#[test]
fn unsupported_compression_is_reported() {
    assert_eq!(get_compression_params(1, None), Err(EerError::UnsupportedCompression(1)));
    assert_eq!(
        get_compression_params(65003, Some(eight_bit())),
        Err(EerError::UnsupportedCompression(65003))
    );
}

#[test]
fn strip_table_pairs_offsets_and_sizes() {
    let r = get_strips_info(&vec![100, 200], &vec![10, 20]).unwrap();
    assert_eq!(
        r,
        vec![StripInfo { offset: 100, size: 10 }, StripInfo { offset: 200, size: 20 }]
    );
    assert_eq!(get_strips_info(&vec![100, 200], &vec![10]), Err(EerError::StripCountMismatch));
    assert_eq!(get_strips_info(&vec![], &vec![]), Ok(vec![]));
}

#[test]
fn sentinel_only_strip_counts_nothing() {
    let strips = vec![vec![0xFF]];
    let img = decode_eer_frame(10, 1, 1, &eight_bit(), &strips).unwrap().to_vec();
    assert_eq!(img, vec![0u16; 10]);
    // a strip longer than the run needs more code words than it holds
    assert!(matches!(
        decode_eer_frame(300, 1, 1, &eight_bit(), &strips),
        Err(EerError::TruncatedStrip(0))
    ));
}

#[test]
fn single_event_strip_counts_one_pixel() {
    // skip 4, then two vertical and two horizontal sub-pixel bits
    let strips = vec![vec![0x04, 0x00]];
    let img = decode_eer_frame(5, 1, 1, &eight_bit(), &strips).unwrap().to_vec();
    assert_eq!(img, vec![0, 0, 0, 0, 1]);
}

#[test]
fn skip_sentinel_skip_trace() {
    // codes 5, 255, 3 with zero sub-pixel bits after 5 and 3
    let strips = vec![vec![0x05, 0xF0, 0x3F, 0x00]];
    let img = decode_eer_frame(10, 1, 1, &eight_bit(), &strips).unwrap().to_vec();
    let mut expected = vec![0u16; 10];
    expected[5] = 1;
    assert_eq!(img, expected);

    let img = decode_eer_frame(265, 1, 1, &eight_bit(), &strips).unwrap().to_vec();
    let mut expected = vec![0u16; 265];
    expected[5] = 1;
    expected[264] = 1;
    assert_eq!(img, expected);
}

#[test]
fn strips_cover_their_rows() {
    let strips = vec![vec![0x01, 0x50, 0x00], vec![0x02, 0xF0, 0x0F]];
    let img = decode_eer_frame(4, 3, 2, &eight_bit(), &strips).unwrap().to_vec();
    assert_eq!(img, vec![0, 1, 0, 0, 0, 0, 0, 1, 0, 0, 1, 0]);
}

#[test]
fn empty_strip_has_no_events() {
    let strips = vec![vec![]];
    assert_eq!(decode_eer_frame(4, 1, 0, &eight_bit(), &strips).unwrap().to_vec(), vec![0u16; 4]);
    assert_eq!(decode_eer_frame(4, 1, 1, &eight_bit(), &strips).unwrap().to_vec(), vec![0u16; 4]);
    // an empty strip leaves its rows untouched and the next strip is still decoded
    let strips = vec![vec![], vec![0x01, 0x00]];
    let img = decode_eer_frame(2, 2, 1, &eight_bit(), &strips).unwrap().to_vec();
    assert_eq!(img, vec![0, 0, 0, 1]);
}

#[test]
fn seven_bit_codes() {
    let params = CompressionParams { code_len: 7, horz_sub_bits: 2, vert_sub_bits: 2 };
    // skip 2 (7 bits) + 4 sub-pixel bits, then 127 which runs past the end
    let strips = vec![vec![0x02, 0xF8, 0x07]];
    let img = decode_eer_frame(6, 1, 1, &params, &strips).unwrap().to_vec();
    assert_eq!(img, vec![0, 0, 1, 0, 0, 0]);
}

#[test]
fn invalid_widths_are_rejected() {
    let strips = vec![vec![0x00]];
    let zero = CompressionParams { code_len: 0, horz_sub_bits: 2, vert_sub_bits: 2 };
    assert!(matches!(decode_eer_frame(4, 1, 1, &zero, &strips), Err(EerError::InvalidParams)));
    let wide = CompressionParams { code_len: 33, horz_sub_bits: 2, vert_sub_bits: 2 };
    assert!(matches!(decode_eer_frame(4, 1, 1, &wide, &strips), Err(EerError::InvalidParams)));
}

#[test]
fn strip_decoder_adds_to_existing_counts() {
    let mut img = image_of(&[7, 65535, 0]);
    let ok = decode_strip(&mut img, &[0x01, 0x00], &eight_bit(), 0, 2);
    assert!(ok);
    assert_eq!(img.to_vec(), vec![7, 0, 0]);
    assert_eq!(img.shape(), (1, 3));
}

#[test]
fn frame_sum_is_order_free() {
    let a = image_of(&[1, 0, 65535]);
    let b = image_of(&[2, 3, 2]);
    let mut ab = image_of(&[0, 0, 0]);
    add_frame_into(&mut ab, &a);
    add_frame_into(&mut ab, &b);
    let mut ba = image_of(&[0, 0, 0]);
    add_frame_into(&mut ba, &b);
    add_frame_into(&mut ba, &a);
    assert_eq!(ab.to_vec(), ba.to_vec());
    assert_eq!(ab.to_vec(), vec![3, 3, 1]);
    // one frame holding the pixelwise sum gives the same image
    let mut once = image_of(&[0, 0, 0]);
    add_frame_into(&mut once, &image_of(&[3, 3, 1]));
    assert_eq!(once.to_vec(), ab.to_vec());
}

#[test]
fn stride_decodes_rounded_up_share() {
    assert_eq!(frames_to_process(25, 10), 3);
    assert_eq!(frames_to_process(30, 10), 3);
    assert_eq!(frames_to_process(0, 10), 0);
    assert_eq!(frames_to_process(7, 1), 7);
    assert_eq!(frames_to_process(u32::MAX, 2), 1 << 31);
}

#[test]
fn accumulator_walks_the_stack() {
    let mut acc = FrameAccumulator::new(2, 1, 25, Some(10)).unwrap();
    let mut decoded_at = Vec::new();
    let mut index = 0;
    loop {
        match acc.next_action() {
            FrameAction::Decode => {
                decoded_at.push(index);
                acc.add_frame(&image_of(&[1, 2])).unwrap();
            }
            FrameAction::Skip => acc.skip_frame(),
            FrameAction::Done => break,
        }
        index += 1;
    }
    assert_eq!(index, 25);
    assert_eq!(decoded_at, vec![0, 10, 20]);
    assert_eq!(acc.frames_decoded(), 3);
    assert_eq!(acc.into_image().to_vec(), vec![3, 6]);
}

#[test]
fn accumulator_rejects_bad_input() {
    assert!(matches!(FrameAccumulator::new(2, 2, 5, Some(0)), Err(EerError::ZeroStride)));
    let mut acc = FrameAccumulator::new(2, 2, 5, None).unwrap();
    assert_eq!(acc.add_frame(&image_of(&[1, 2, 3, 4])), Err(EerError::FrameSizeMismatch));
    assert_eq!(acc.frames_decoded(), 0);
    assert_eq!(acc.next_action(), FrameAction::Decode);
}

#[test]
fn count_images_from_rows() {
    let img = CountImage::from_counts(2, 3, &vec![1, 2, 3, 4, 5, 6]).unwrap();
    assert_eq!(img.shape(), (2, 3));
    assert_eq!(img.to_vec(), vec![1, 2, 3, 4, 5, 6]);
    assert!(CountImage::from_counts(2, 3, &vec![1, 2, 3]).is_none());
    assert!(CountImage::from_counts(0, 3, &vec![]).is_some());
    assert!(CountImage::from_counts(3, 0, &vec![1]).is_none());
}

#[test]
fn accumulator_over_no_frames() {
    let acc = FrameAccumulator::new(3, 2, 0, Some(4)).unwrap();
    assert_eq!(acc.next_action(), FrameAction::Done);
    assert_eq!(acc.frames_decoded(), 0);
    let img = acc.into_image();
    assert_eq!(img.shape(), (2, 3));
    assert_eq!(img.to_vec(), vec![0u16; 6]);
}
