use scop::ppm::{parse, HeaderScanner};

#[test]
fn parse_accepts_p6_pixels_and_header_comments() {
    let image = parse(b"P6\n# palette\n2 1\n255\n\x00\x01\x02\xfd\xfe\xff").unwrap();

    assert_eq!(image.pixels, [0, 1, 2, 253, 254, 255]);
}

#[test]
fn parse_preserves_whitespace_as_first_pixel_byte() {
    let image = parse(b"P6\n1 1\n255\n\x20\x00\xff").unwrap();

    assert_eq!(image.pixels, [32, 0, 255]);
}

#[test]
fn parse_rejects_truncated_pixel_data() {
    let error = parse(b"P6\n1 1\n255\n\x00\x01").unwrap_err();

    assert_eq!(
        error.message(),
        "invalid PPM: expected 3 bytes of pixel data, found 2"
    );
}

#[test]
fn parse_rejects_unsupported_maximum_color_value() {
    let error = parse(b"P6\n1 1\n100\n\x00\x01\x02").unwrap_err();

    assert_eq!(
        error.message(),
        "invalid PPM: maximum color value must be 255"
    );
}

#[test]
fn parse_reads_dimensions() {
    let image = parse(b"P6 2 3 255 ......------++++++").unwrap();

    assert_eq!(image.width, 2);
    assert_eq!(image.height, 3);
    assert_eq!(image.pixels.len(), 18);
}

#[test]
fn parse_takes_crlf_as_one_separator() {
    let image = parse(b"P6\r\n1 1\r\n255\r\n\x01\x02\x03").unwrap();

    assert_eq!(image.pixels, [1, 2, 3]);
}

#[test]
fn parse_takes_only_a_line_feed_after_a_carriage_return() {
    let image = parse(b"P6 1 1 255\r\x0b\x02\x03").unwrap();
    assert_eq!(image.pixels, [11, 2, 3]);

    let error = parse(b"P6 1 1 255\r\n\x02\x03").unwrap_err();
    assert_eq!(error.message(), "invalid PPM: expected 3 bytes of pixel data, found 2");
}

#[test]
fn parse_rejects_empty_input() {
    assert_eq!(parse(b"").unwrap_err().message(), "invalid PPM: incomplete header");
    assert_eq!(
        parse(b"P6 1 # no height\n").unwrap_err().message(),
        "invalid PPM: incomplete header"
    );
}

#[test]
fn parse_rejects_other_magic_numbers() {
    assert_eq!(
        parse(b"P3 1 1 255\n\x00\x00\x00").unwrap_err().message(),
        "invalid PPM: expected P6 magic number"
    );
    assert_eq!(
        parse(b"P66 1 1 255\n\x00\x00\x00").unwrap_err().message(),
        "invalid PPM: expected P6 magic number"
    );
}

#[test]
fn parse_rejects_zero_dimensions() {
    assert_eq!(
        parse(b"P6 0 1 255\n").unwrap_err().message(),
        "invalid PPM: width must be greater than zero"
    );
    assert_eq!(
        parse(b"P6 1 +0 255\n").unwrap_err().message(),
        "invalid PPM: height must be greater than zero"
    );
}

#[test]
fn parse_rejects_malformed_numbers() {
    assert_eq!(
        parse(b"P6 1x 1 255\n\x00\x00\x00").unwrap_err().message(),
        "invalid PPM: invalid width '1x'"
    );
    assert_eq!(
        parse(b"P6 1 -1 255\n\x00\x00\x00").unwrap_err().message(),
        "invalid PPM: invalid height '-1'"
    );
    assert_eq!(
        parse(b"P6 1 1 4294967296\n\x00\x00\x00").unwrap_err().message(),
        "invalid PPM: invalid maximum color value '4294967296'"
    );
    assert_eq!(
        parse(b"P6 \xff 1 255\n\x00\x00\x00").unwrap_err().message(),
        "invalid PPM: width is not valid ASCII"
    );
    assert_eq!(
        parse("P6 \u{e9} 1 255\n".as_bytes()).unwrap_err().message(),
        "invalid PPM: invalid width '\u{e9}'"
    );
}

#[test]
fn parse_requires_whitespace_before_pixels() {
    assert_eq!(
        parse(b"P6 1 1 255").unwrap_err().message(),
        "invalid PPM: missing whitespace before pixel data"
    );
    assert_eq!(
        parse(b"P6 1 1 255#\n\x00\x00\x00").unwrap_err().message(),
        "invalid PPM: missing whitespace before pixel data"
    );
}

#[test]
fn parse_reports_extra_pixel_bytes() {
    assert_eq!(
        parse(b"P6 1 1 255\n\x00\x00\x00\x00").unwrap_err().message(),
        "invalid PPM: expected 3 bytes of pixel data, found 4"
    );
}

#[test]
fn parse_rejects_dimensions_beyond_the_address_space() {
    let bytes = b"P6 4294967295 4294967295 255\n";
    let expected_bytes = (4294967295u128 * 4294967295u128 * 3) as f64;
    if expected_bytes > usize::MAX as f64 {
        assert_eq!(
            parse(bytes).unwrap_err().message(),
            "invalid PPM: image dimensions are too large"
        );
    }
}

#[test]
fn scanner_reads_tokens_and_skips_comments() {
    let bytes = b"  P6 # comment\n#another\n 12\t34 255\n";
    let mut scanner = HeaderScanner::new(bytes);
    assert_eq!(scanner.token().unwrap(), b"P6");
    assert_eq!(scanner.token().unwrap(), b"12");
    assert_eq!(scanner.token().unwrap(), b"34");
    assert_eq!(scanner.token().unwrap(), b"255");
    assert_eq!(scanner.pixel_start().unwrap(), bytes.len());
    assert!(scanner.token().is_err());
}

#[test]
fn a_written_header_and_any_pixels_decode_back() {
    for (width, height) in [(1u32, 1u32), (2, 3), (12, 1), (1, 10)] {
        let count = (width * height * 3) as usize;
        for first in [b' ', b'#', b'\n', b'P', b'7'] {
            let mut pixels: Vec<u8> = (0..count).map(|i| (i * 37 % 256) as u8).collect();
            pixels[0] = first;
            let mut bytes = format!("P6\n{width} {height}\n255\n").into_bytes();
            bytes.extend_from_slice(&pixels);

            let image = parse(&bytes).unwrap();
            assert_eq!((image.width, image.height), (width, height));
            assert_eq!(image.pixels, pixels);
        }
    }
}
