use coldiron::decode::Header;
use coldiron::image::{Color8, Encoding, Error, Format, Image, ImageData};

fn decode(text: &[u8]) -> Result<Image, Error> {
    Image::read_from(text)
}

fn encode(img: &Image, encoding: Encoding) -> Vec<u8> {
    let mut out = Vec::new();
    img.write_to(&mut out, encoding);
    out
}

fn gray_values(img: &Image) -> Vec<u8> {
    let mut v = Vec::new();
    for y in 0..img.height() {
        for x in 0..img.width() {
            v.push(img.get_pixel(x, y).unwrap());
        }
    }
    v
}

fn image_with(format: Format, width: usize, height: usize, values: &[u8]) -> Image {
    let mut img = Image::new(format, width, height);
    for y in 0..height {
        for x in 0..width {
            img.set_pixel(x, y, values[y * width + x]).unwrap();
        }
    }
    img
}

#[test]
fn graymap_ascii_scenario() {
    let img = decode(b"P2\n2 2\n255\n0 128 255 64\n").unwrap();
    assert_eq!(img.format, Format::Graymap);
    assert_eq!(img.width(), 2);
    assert_eq!(img.height(), 2);
    assert_eq!(gray_values(&img), vec![0, 128, 255, 64]);
    assert_eq!(encode(&img, Encoding::Ascii), b"P2\n2 2\n255\n0 128 255 64 ".to_vec());
}

#[test]
fn bitmap_binary_scenario() {
    let img = image_with(Format::Bitmap, 3, 1, &[1, 0, 0]);
    let out = encode(&img, Encoding::Binary);
    assert_eq!(out, b"P4\n3 1\n\x60".to_vec());
}

#[test]
fn graymap_round_trip_both_encodings() {
    let values: Vec<u8> = vec![0, 1, 9, 10, 99, 100, 200, 255, 17, 3, 42, 128];
    let img = image_with(Format::Graymap, 4, 3, &values);
    for enc in [Encoding::Ascii, Encoding::Binary] {
        let back = decode(&encode(&img, enc)).unwrap();
        assert_eq!(back.format, Format::Graymap);
        assert_eq!(back.width(), 4);
        assert_eq!(back.height(), 3);
        assert_eq!(gray_values(&back), values);
    }
}

#[test]
fn bitmap_round_trip_inverts_ink() {
    let values: Vec<u8> = vec![0, 1, 0, 0, 1, 1, 0, 1, 0, 0, 1];
    let img = image_with(Format::Bitmap, 11, 1, &values);
    let expected: Vec<u8> = values.iter().map(|&v| if v == 0 { 1 } else { 0 }).collect();
    for enc in [Encoding::Ascii, Encoding::Binary] {
        let back = decode(&encode(&img, enc)).unwrap();
        assert_eq!(back.format, Format::Bitmap);
        assert_eq!(gray_values(&back), expected);
    }
}

#[test]
fn bitmap_ascii_encoding() {
    let img = image_with(Format::Bitmap, 3, 1, &[0, 5, 0]);
    assert_eq!(encode(&img, Encoding::Ascii), b"P1\n3 1\n1 0 1 ".to_vec());
}

#[test]
fn bitmap_binary_rows_padded_independently() {
    // Two rows of width 9: each takes two bytes.
    let mut values = vec![1u8; 18];
    values[0] = 0;
    values[8] = 0;
    values[9] = 0;
    let img = image_with(Format::Bitmap, 9, 2, &values);
    assert_eq!(encode(&img, Encoding::Binary), b"P4\n9 2\n\x80\x80\x80\x00".to_vec());
    let back = decode(b"P4\n9 2\n\x80\x80\x80\x00").unwrap();
    assert_eq!(gray_values(&back), vec![1, 0, 0, 0, 0, 0, 0, 0, 1, 1, 0, 0, 0, 0, 0, 0, 0, 0]);
}

#[test]
fn header_with_comments_and_blank_lines() {
    let plain = decode(b"P2\n2 1\n255\n7 8\n").unwrap();
    let noisy = decode(b"# made by hand\nP2\n\n# width\n2\n  # height next\n1\n\n255\n# body\n7\n\n8\n").unwrap();
    assert_eq!(noisy.width(), plain.width());
    assert_eq!(noisy.height(), plain.height());
    assert_eq!(gray_values(&noisy), gray_values(&plain));
}

#[test]
fn bitmap_ascii_characters_are_tokens() {
    let img = decode(b"P1\n4 2\n0101\n1 0\n 0 x\n").unwrap();
    assert_eq!(img.format, Format::Bitmap);
    assert_eq!(gray_values(&img), vec![0, 1, 0, 1, 1, 0, 0, 1]);
}

#[test]
fn graymap_ascii_rescales_by_maxval() {
    let img = decode(b"P2\n3 1\n15\n0 15 7\n").unwrap();
    // round(7 * 255 / 15) = 119
    assert_eq!(gray_values(&img), vec![0, 255, 119]);
    let img = decode(b"P2\n1 1\n2\n1\n").unwrap();
    // round(127.5) = 128
    assert_eq!(gray_values(&img), vec![128]);
}

#[test]
fn pixmap_ascii_and_binary() {
    let img = decode(b"P3\n2 1\n255\n1 2 3 4 5 6\n").unwrap();
    assert_eq!(img.format, Format::Pixmap);
    match &img.data {
        ImageData::Pixmap(c) => {
            assert_eq!(c, &vec![Color8::new(1, 2, 3), Color8::new(4, 5, 6)]);
        }
        _ => panic!("expected pixmap data"),
    }
    assert_eq!(encode(&img, Encoding::Ascii), b"P3\n2 1\n255\n1 2 3 4 5 6 ".to_vec());
    let bin = encode(&img, Encoding::Binary);
    assert_eq!(bin, b"P6\n2 1\n255\n\x01\x02\x03\x04\x05\x06".to_vec());
    let back = decode(&bin).unwrap();
    match &back.data {
        ImageData::Pixmap(c) => {
            assert_eq!(c, &vec![Color8::new(1, 2, 3), Color8::new(4, 5, 6)]);
        }
        _ => panic!("expected pixmap data"),
    }
    assert_eq!(back.get_pixel(0, 0), Err(Error::UnsupportedForFormat));
}

#[test]
fn binary_graymap_keeps_its_format() {
    let img = decode(b"P5\n2 1\n255\n\x05\xfa").unwrap();
    assert_eq!(img.format, Format::Graymap);
    assert!(matches!(img.data, ImageData::Graymap(_)));
    assert_eq!(gray_values(&img), vec![5, 250]);
}

#[test]
fn truncated_binary_bodies() {
    assert_eq!(decode(b"P5\n2 2\n255\n\x01\x02\x03").err(), Some(Error::UnexpectedEof));
    assert_eq!(decode(b"P6\n1 1\n255\n\x01\x02").err(), Some(Error::UnexpectedEof));
    assert_eq!(decode(b"P4\n9 2\n\x01\x02\x03").err(), Some(Error::UnexpectedEof));
}

#[test]
fn truncated_text_bodies_and_headers() {
    assert_eq!(decode(b"P2\n2 2\n255\n1 2 3\n").err(), Some(Error::UnexpectedEof));
    assert_eq!(decode(b"P1\n2 2\n1 0\n").err(), Some(Error::UnexpectedEof));
    assert_eq!(decode(b"").err(), Some(Error::UnexpectedEof));
    assert_eq!(decode(b"P2\n2").err(), Some(Error::UnexpectedEof));
    assert_eq!(decode(b"P2\n2 2\n").err(), Some(Error::UnexpectedEof));
}

#[test]
fn header_errors() {
    assert_eq!(decode(b"P7\n1 1\n").err(), Some(Error::UnrecognizedMagic));
    assert_eq!(decode(b"P2 1 1\n255\n0\n").err(), Some(Error::UnrecognizedMagic));
    assert_eq!(decode(b"P1\nx 1\n0\n").err(), Some(Error::InvalidDimension));
    assert_eq!(decode(b"P1\n1 -1\n0\n").err(), Some(Error::InvalidDimension));
    assert_eq!(decode(b"P2\n1 1\nabc\n0\n").err(), Some(Error::InvalidMaxval));
    assert_eq!(decode(b"P2\n1 1\n0\n0\n").err(), Some(Error::InvalidMaxval));
    assert_eq!(decode(b"P2\n1 1\n70000\n0\n").err(), Some(Error::InvalidMaxval));
}

#[test]
fn body_errors() {
    assert_eq!(decode(b"P2\n2 1\n255\n1 x\n").err(), Some(Error::InvalidPixelValue));
    assert_eq!(decode(b"P3\n1 1\n255\n1 2 99999\n").err(), Some(Error::InvalidPixelValue));
    assert_eq!(decode(b"P5\n1 1\n65535\n\x00\x00").err(), Some(Error::SixteenBitSamples));
    assert_eq!(decode(b"P6\n1 1\n256\n\x00\x00\x00\x00\x00\x00").err(), Some(Error::SixteenBitSamples));
}

#[test]
fn huge_dimensions_rejected() {
    assert_eq!(
        decode(b"P5\n18446744073709551615 2\n255\n").err(),
        Some(Error::InvalidDimension)
    );
    assert_eq!(
        decode(b"P5\n18446744073709551616 1\n255\n").err(),
        Some(Error::InvalidDimension)
    );
}

#[test]
fn header_fields() {
    let hd: Header = coldiron::decode::read_header(b"P6\n# c\n640\n480\n255\nrest").unwrap();
    assert_eq!((hd.digit, hd.width, hd.height, hd.maxval), (6, 640, 480, 255));
    assert_eq!((hd.last, hd.end), (18, 18));
    let hd = coldiron::decode::read_header(b"P2\n2 2 255\n").unwrap();
    assert_eq!((hd.digit, hd.width, hd.height, hd.maxval), (2, 2, 2, 255));
    assert_eq!((hd.last, hd.end), (10, 10));
    let hd = coldiron::decode::read_header(b"P4\n3 1\n").unwrap();
    assert_eq!((hd.digit, hd.width, hd.height, hd.maxval), (4, 3, 1, 0));
    assert_eq!((hd.last, hd.end), (6, 6));
}

#[test]
fn header_fields_share_lines() {
    let img = decode(b"P2\n2 2 255\n0 128 255 64\n").unwrap();
    assert_eq!(gray_values(&img), vec![0, 128, 255, 64]);
    let img = decode(b"P2\n2 2 255 0 128\n255 64\n").unwrap();
    assert_eq!(gray_values(&img), vec![0, 128, 255, 64]);
    // The token after the height is the maxval, whatever follows it.
    let img = decode(b"P2\n1 2 9\n9 0\n").unwrap();
    assert_eq!(gray_values(&img), vec![255, 0]);
    let img = decode(b"P1\n2 1 0 1\n").unwrap();
    assert_eq!(gray_values(&img), vec![0, 1]);
    // A binary body starts on the line after the maxval.
    let img = decode(b"P5\n2 1 255\n\x07\x08").unwrap();
    assert_eq!(gray_values(&img), vec![7, 8]);
    let img = decode(b"P2\n+2 1\n+255\n+3 4\n").unwrap();
    assert_eq!(gray_values(&img), vec![3, 4]);
    assert_eq!(decode(b"P2\n1 1 x\n0\n").err(), Some(Error::InvalidMaxval));
    assert_eq!(decode(b"P2\n1 1\n255 x\n").err(), Some(Error::InvalidPixelValue));
    assert_eq!(decode(b"P2\n1 1").err(), Some(Error::UnexpectedEof));
}

#[test]
fn magic_number_tables() {
    let cases = [
        ("P1", Format::Bitmap, Encoding::Ascii),
        ("P2", Format::Graymap, Encoding::Ascii),
        ("P3", Format::Pixmap, Encoding::Ascii),
        ("P4", Format::Bitmap, Encoding::Binary),
        ("P5", Format::Graymap, Encoding::Binary),
        ("P6", Format::Pixmap, Encoding::Binary),
    ];
    for (m, f, e) in cases {
        assert_eq!(Format::from_magic_number(m), Some(f));
        assert_eq!(Encoding::from_magic_number(m), Some(e));
    }
    assert_eq!(Format::from_magic_number("P7"), None);
    assert_eq!(Encoding::from_magic_number("P0"), None);
    assert_eq!(Format::from_magic_number("P12"), None);
    assert_eq!(Encoding::from_magic_number(""), None);
}

#[test]
fn pixel_store_access() {
    let mut img = Image::new(Format::Graymap, 3, 2);
    assert_eq!(gray_values(&img), vec![0; 6]);
    assert_eq!(img.set_pixel(2, 1, 9), Ok(()));
    assert_eq!(img.get_pixel(2, 1), Ok(9));
    assert_eq!(img.set_pixel(3, 0, 1), Err(Error::OutOfBounds));
    assert_eq!(img.get_pixel(0, 2), Err(Error::OutOfBounds));
    let mut color = Image::new(Format::Pixmap, 1, 1);
    assert_eq!(color.set_pixel(0, 0, 77), Ok(()));
    match &color.data {
        ImageData::Pixmap(c) => assert_eq!(c[0], Color8::new(77, 77, 77)),
        _ => panic!("expected pixmap data"),
    }
    assert_eq!(color.get_pixel(0, 0), Err(Error::UnsupportedForFormat));
}

#[test]
fn empty_image_round_trip() {
    let img = Image::new(Format::Bitmap, 0, 0);
    let out = encode(&img, Encoding::Binary);
    assert_eq!(out, b"P4\n0 0\n".to_vec());
    let back = decode(&out).unwrap();
    assert_eq!((back.width(), back.height()), (0, 0));
}
