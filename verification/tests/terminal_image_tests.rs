use qemu_hmp::terminal_image::{
    detect_image_format, display_png, display_ppm, image_output, kitty_chunks, parse_ppm_header,
    ImageFormat,
};

#[test]
fn parse_ppm_basic() {
    let mut data = b"P6\n4 3\n255\n".to_vec();
    data.extend_from_slice(&[0u8; 4 * 3 * 3]); // 4x3 RGB
    let (w, h, off) = parse_ppm_header(&data).unwrap();
    assert_eq!(w, 4);
    assert_eq!(h, 3);
    assert_eq!(off, b"P6\n4 3\n255\n".len());
}

#[test]
fn parse_ppm_with_comment() {
    let header = b"P6\n# a comment\n2 2\n255\n";
    let mut data = header.to_vec();
    data.extend_from_slice(&[0u8; 2 * 2 * 3]);
    let (w, h, off) = parse_ppm_header(&data).unwrap();
    assert_eq!(w, 2);
    assert_eq!(h, 2);
    assert_eq!(off, header.len());
}

#[test]
fn parse_ppm_invalid() {
    assert!(parse_ppm_header(b"P5\n1 1\n255\n").is_none());
    assert!(parse_ppm_header(b"").is_none());
}

#[test]
fn parse_ppm_missing_or_huge_dimensions() {
    assert!(parse_ppm_header(b"P6\n x 3\n255\n").is_none());
    assert!(parse_ppm_header(b"P6\n4294967296 1\n255\n").is_none());
    assert_eq!(parse_ppm_header(b"P6 4294967295 1 255"), Some((4294967295, 1, 19)));
}

#[test]
fn detect_formats() {
    assert_eq!(detect_image_format(b"\x89PNG\r\n"), Some(ImageFormat::Png));
    assert_eq!(detect_image_format(b"P6\n"), Some(ImageFormat::Ppm));
    assert_eq!(detect_image_format(b"GIF8"), None);
    assert_eq!(image_output(b"GIF89a"), None);
}

#[test]
fn kitty_single_chunk() {
    assert_eq!(kitty_chunks(b"QUJD", b"a=T,f=100"), b"\x1b_Ga=T,f=100;QUJD\x1b\\\n".to_vec());
}

#[test]
fn kitty_multiple_chunks() {
    let payload = vec![b'A'; 4096 * 2 + 10];
    let out = kitty_chunks(&payload, b"c");
    let mut expected = Vec::new();
    expected.extend_from_slice(b"\x1b_Gc,m=1;");
    expected.extend_from_slice(&payload[..4096]);
    expected.extend_from_slice(b"\x1b\\\x1b_Gm=1;");
    expected.extend_from_slice(&payload[4096..8192]);
    expected.extend_from_slice(b"\x1b\\\x1b_Gm=0;");
    expected.extend_from_slice(&payload[8192..]);
    expected.extend_from_slice(b"\x1b\\\n");
    assert_eq!(out, expected);
}

#[test]
fn png_is_base64_encoded() {
    let out = display_png(b"\x89PNG");
    assert_eq!(out, b"\x1b_Ga=T,f=100;iVBORw==\x1b\\\n".to_vec());
    assert_eq!(image_output(b"\x89PNG"), Some(out));
}

#[test]
fn ppm_pixels_are_sent_as_rgb() {
    let out = display_ppm(b"P6\n1 1\n255\nabc").unwrap();
    assert_eq!(out, b"\x1b_Ga=T,f=24,s=1,v=1;YWJj\x1b\\\n".to_vec());
    assert!(display_ppm(b"P6\nx").is_none());
}
