use pq2hlg::io::{read_frame_max_channel, FrameError};

#[test]
fn max_channel_takes_the_low_byte_first() {
    // 0x00FF before 0x0100: the larger sample has the smaller first byte.
    let input = vec![0xFF_u8, 0x00, 0x00, 0x01, 0x00, 0x00];

    assert_eq!(read_frame_max_channel(&input, 1), Ok(0x0100));
}

#[test]
fn max_channel_is_found_in_every_place() {
    for place in 0..6 {
        let mut input = vec![0x05_u8, 0x00, 0x05, 0x00, 0x05, 0x00, 0x05, 0x00, 0x05, 0x00, 0x05, 0x00];
        input[2 * place] = 0x34;
        input[2 * place + 1] = 0x12;

        assert_eq!(read_frame_max_channel(&input, 2), Ok(0x1234), "sample {}", place);
    }
}

#[test]
fn max_channel_looks_at_one_frame_only() {
    let input = vec![0x01_u8, 0x00, 0x02, 0x00, 0x03, 0x00, 0xFF, 0xFF, 0xFF, 0xFF, 0xFF, 0xFF];

    assert_eq!(read_frame_max_channel(&input, 1), Ok(3));
    assert_eq!(read_frame_max_channel(&input, 2), Ok(0xFFFF));
}

#[test]
fn max_channel_of_no_pixels() {
    assert_eq!(read_frame_max_channel(&[], 0), Ok(0));
    assert_eq!(read_frame_max_channel(&[0xFF, 0xFF, 0xFF], 0), Ok(0));
}

#[test]
fn max_channel_ends_on_a_pixel_boundary() {
    let input = vec![0xFF_u8; 12];

    assert_eq!(read_frame_max_channel(&input, 3), Err(FrameError::EndOfStream));
    assert_eq!(read_frame_max_channel(&[], 1), Err(FrameError::EndOfStream));
}

#[test]
fn max_channel_ends_inside_a_pixel() {
    for len in [1, 2, 3, 4, 5, 7, 11, 13, 17] {
        let input = vec![0xFF_u8; len];

        assert_eq!(read_frame_max_channel(&input, 3), Err(FrameError::Truncated), "{} bytes", len);
    }
}

#[test]
fn max_channel_of_a_frame_too_large_for_any_input() {
    let input = vec![0x00_u8; 12];

    assert_eq!(read_frame_max_channel(&input, usize::MAX), Err(FrameError::EndOfStream));
    assert_eq!(read_frame_max_channel(&input[..11], usize::MAX), Err(FrameError::Truncated));
}
