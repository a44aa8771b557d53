use pq2hlg::io::{read_frame, FrameError, Pixel};

#[test]
fn test_read_frame() {

    let input = vec![
        0x00_u8, 0x00_u8, 0x00_u8, 0x00_u8, 0x00_u8, 0x00_u8,
        0xFF_u8, 0xFF_u8, 0x00_u8, 0x00_u8, 0x00_u8, 0x00_u8,
        0x00_u8, 0x00_u8, 0xFF_u8, 0xFF_u8, 0x00_u8, 0x00_u8,
        0x00_u8, 0x00_u8, 0x00_u8, 0x00_u8, 0xFF_u8, 0xFF_u8,
        0xFF_u8, 0xFF_u8, 0xFF_u8, 0xFF_u8, 0xFF_u8, 0xFF_u8,
        0xFF_u8, 0x7F_u8, 0xFF_u8, 0x7F_u8, 0xFF_u8, 0x7F_u8,
    ];
    let mut frame = vec![Pixel { red: 0, green: 0, blue: 0 }; 6];

    read_frame(&input, &mut frame).unwrap();

    assert_eq!(frame[0], Pixel {
        red: 0x0000,
        green: 0x0000,
        blue: 0x0000,
    });
    assert_eq!(frame[1], Pixel {
        red: 0xFFFF,
        green: 0x0000,
        blue: 0x0000,
    });
    assert_eq!(frame[2], Pixel {
        red: 0x0000,
        green: 0xFFFF,
        blue: 0x0000,
    });
    assert_eq!(frame[3], Pixel {
        red: 0x0000,
        green: 0x0000,
        blue: 0xFFFF,
    });
    assert_eq!(frame[4], Pixel {
        red: 0xFFFF,
        green: 0xFFFF,
        blue: 0xFFFF,
    });
    assert_eq!(frame[5], Pixel {
        red: 0x7FFF,
        green: 0x7FFF,
        blue: 0x7FFF
    });
}

#[test]
fn read_frame_takes_the_low_byte_first() {
    let input = vec![0x01_u8, 0x02, 0x03, 0x04, 0x05, 0x06];
    let mut frame = vec![Pixel { red: 0, green: 0, blue: 0 }; 1];

    assert_eq!(read_frame(&input, &mut frame), Ok(()));

    assert_eq!(frame[0], Pixel { red: 0x0201, green: 0x0403, blue: 0x0605 });
}

#[test]
fn read_frame_leaves_bytes_after_the_frame() {
    let input = vec![0x10_u8, 0x00, 0x20, 0x00, 0x30, 0x00, 0xAA, 0xBB, 0xCC];
    let mut frame = vec![Pixel { red: 9, green: 9, blue: 9 }; 1];

    assert_eq!(read_frame(&input, &mut frame), Ok(()));

    assert_eq!(frame, vec![Pixel { red: 0x10, green: 0x20, blue: 0x30 }]);
}

#[test]
fn read_frame_of_no_pixels() {
    let mut frame: Vec<Pixel> = vec![];

    assert_eq!(read_frame(&[], &mut frame), Ok(()));
    assert_eq!(read_frame(&[0x01], &mut frame), Ok(()));
}

#[test]
fn read_frame_ends_on_a_pixel_boundary() {
    let input = vec![0x01_u8, 0x00, 0x02, 0x00, 0x03, 0x00];
    let mut frame = vec![Pixel { red: 7, green: 8, blue: 9 }; 3];

    assert_eq!(read_frame(&input, &mut frame), Err(FrameError::EndOfStream));

    // The pixel that was there in full was read, the others were left.
    assert_eq!(frame[0], Pixel { red: 1, green: 2, blue: 3 });
    assert_eq!(frame[1], Pixel { red: 7, green: 8, blue: 9 });
    assert_eq!(frame[2], Pixel { red: 7, green: 8, blue: 9 });
}

#[test]
fn read_frame_of_empty_input() {
    let mut frame = vec![Pixel { red: 7, green: 8, blue: 9 }; 2];

    assert_eq!(read_frame(&[], &mut frame), Err(FrameError::EndOfStream));

    assert_eq!(frame, vec![Pixel { red: 7, green: 8, blue: 9 }; 2]);
}

#[test]
fn read_frame_ends_inside_a_pixel() {
    let input = vec![0x01_u8, 0x00, 0x02, 0x00, 0x03, 0x00, 0x04, 0x00, 0x05, 0x00, 0x06];
    let mut frame = vec![Pixel { red: 7, green: 8, blue: 9 }; 2];

    assert_eq!(read_frame(&input, &mut frame), Err(FrameError::Truncated));

    assert_eq!(frame[0], Pixel { red: 1, green: 2, blue: 3 });
    assert_eq!(frame[1], Pixel { red: 7, green: 8, blue: 9 });
}
