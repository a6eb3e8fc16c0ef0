use coldiron::decode::rescale_sample;
use coldiron::number::{parse_number, push_decimal};
use coldiron::text::{first_token_from, next_token};

#[test]
fn parse_numbers() {
    assert_eq!(parse_number(b"123", 0, 3, 1000), Some(123));
    assert_eq!(parse_number(b"x0042y", 1, 5, 65535), Some(42));
    assert_eq!(parse_number(b"1001", 0, 4, 1000), None);
    assert_eq!(parse_number(b"12a", 0, 3, 1000), None);
    assert_eq!(parse_number(b"+5", 0, 2, 1000), Some(5));
    assert_eq!(parse_number(b"+", 0, 1, 1000), None);
    assert_eq!(parse_number(b"++5", 0, 3, 1000), None);
    assert_eq!(parse_number(b"", 0, 0, 1000), None);
    assert_eq!(parse_number(b"18446744073709551615", 0, 20, u64::MAX), Some(u64::MAX));
    assert_eq!(parse_number(b"18446744073709551616", 0, 20, u64::MAX), None);
}

#[test]
fn print_numbers() {
    let mut out = b"n=".to_vec();
    push_decimal(&mut out, 0);
    out.push(b' ');
    push_decimal(&mut out, 255);
    out.push(b' ');
    push_decimal(&mut out, u64::MAX);
    assert_eq!(out, b"n=0 255 18446744073709551615".to_vec());
}

#[test]
fn tokens_skip_blank_and_comment_lines() {
    let b = b"  # note\n\n ab  c\n#x y\n d";
    let (s, t, e) = first_token_from(b, 0, false).unwrap();
    assert_eq!((s, t, e), (11, 13, 16));
    let (s, t, e) = next_token(b, t, e, false).unwrap();
    assert_eq!((s, t, e), (15, 16, 16));
    let (s, t, e) = next_token(b, t, e, false).unwrap();
    assert_eq!((s, t, e), (23, 24, 24));
    assert_eq!(next_token(b, t, e, false), None);
    let (s, t, _) = first_token_from(b, 0, true).unwrap();
    assert_eq!((s, t), (11, 12));
}

#[test]
fn rescaled_samples() {
    assert_eq!(rescale_sample(7, 15), 119);
    assert_eq!(rescale_sample(255, 255), 255);
    assert_eq!(rescale_sample(1, 2), 128);
    assert_eq!(rescale_sample(65535, 65535), 255);
    // above the maximum: rescaled, then narrowed to 8 bits
    assert_eq!(rescale_sample(2, 1), 254);
}
