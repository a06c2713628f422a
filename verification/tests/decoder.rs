use json_parser::reader::DecodeError;
use json_parser::reader::DecodeErrorKind;
use json_parser::reader::JsonReader;
use json_parser::reader::Pull;
use json_parser::source::MemorySource;

#[test]
fn ascii_four_bytes() {
    let mut r = JsonReader::from_bytes(b"abcd");
    assert_eq!(r.next(), Pull::Scalar('a'));
    assert_eq!(r.next(), Pull::Scalar('b'));
    assert_eq!(r.next(), Pull::Scalar('c'));
    assert_eq!(r.next(), Pull::Scalar('d'));
    assert_eq!(r.next(), Pull::End);
}

#[test]
fn end_signal_is_idempotent() {
    let mut r = JsonReader::from_bytes(b"a");
    assert_eq!(r.next(), Pull::Scalar('a'));
    assert_eq!(r.next(), Pull::End);
    assert_eq!(r.next(), Pull::End);
    assert_eq!(r.next(), Pull::End);
}

#[test]
fn euro_sign_then_ascii() {
    // Three bytes of a euro sign, then two ASCII bytes: the first window
    // holds the whole sign plus 'a', the second only 'b'.
    let mut r = JsonReader::from_bytes(&[0xe2, 0x82, 0xac, b'a', b'b']);
    assert_eq!(r.next(), Pull::Scalar('\u{20ac}'));
    assert_eq!(r.next(), Pull::Scalar('a'));
    assert_eq!(r.next(), Pull::Scalar('b'));
    assert_eq!(r.next(), Pull::End);
}

#[test]
fn three_byte_scalar_straddles_window() {
    // The euro sign starts at offset 2, so the first window cuts it after
    // two of its bytes; the decoder must rewind and re-read it whole.
    let mut r = JsonReader::from_bytes(&[b'a', b'b', 0xe2, 0x82, 0xac, 0xc3, 0xa9]);
    assert_eq!(r.next(), Pull::Scalar('a'));
    assert_eq!(r.next(), Pull::Scalar('b'));
    assert_eq!(r.next(), Pull::Scalar('\u{20ac}'));
    assert_eq!(r.next(), Pull::Scalar('\u{e9}'));
    assert_eq!(r.next(), Pull::End);
}

#[test]
fn two_byte_scalar_straddles_window() {
    let mut r = JsonReader::from_bytes(&[b'a', b'b', b'c', 0xc3, 0xa9]);
    assert_eq!(r.next(), Pull::Scalar('a'));
    assert_eq!(r.next(), Pull::Scalar('b'));
    assert_eq!(r.next(), Pull::Scalar('c'));
    assert_eq!(r.next(), Pull::Scalar('\u{e9}'));
    assert_eq!(r.next(), Pull::End);
}

#[test]
fn empty_input_ends_immediately() {
    let mut r = JsonReader::from_bytes(&[]);
    assert_eq!(r.next(), Pull::End);
}

#[test]
fn short_tail_is_not_padded() {
    // A two-byte input must yield exactly two scalars: the short chunk read
    // near the end of the input must not turn into phantom NUL characters.
    let mut r = JsonReader::from_bytes(b"ab");
    assert_eq!(r.next(), Pull::Scalar('a'));
    assert_eq!(r.next(), Pull::Scalar('b'));
    assert_eq!(r.next(), Pull::End);
}

#[test]
fn lone_continuation_byte_fails() {
    let mut r = JsonReader::from_bytes(&[0x80]);
    assert_eq!(
        r.next(),
        Pull::Fail(DecodeError { position: 0, kind: DecodeErrorKind::InvalidByte })
    );
}

#[test]
fn invalid_byte_mid_stream_reports_its_position() {
    let mut r = JsonReader::from_bytes(&[b'a', b'b', 0xff, b'c']);
    assert_eq!(r.next(), Pull::Scalar('a'));
    assert_eq!(r.next(), Pull::Scalar('b'));
    assert_eq!(
        r.next(),
        Pull::Fail(DecodeError { position: 2, kind: DecodeErrorKind::InvalidByte })
    );
}

#[test]
fn invalid_byte_after_full_window_of_scalars() {
    let mut r = JsonReader::from_bytes(&[b'a', 0xc3, 0xa9, 0xff]);
    assert_eq!(r.next(), Pull::Scalar('a'));
    assert_eq!(r.next(), Pull::Scalar('\u{e9}'));
    assert_eq!(
        r.next(),
        Pull::Fail(DecodeError { position: 3, kind: DecodeErrorKind::InvalidByte })
    );
}

#[test]
fn truncated_three_byte_scalar_fails() {
    let mut r = JsonReader::from_bytes(&[0xe2, 0x82]);
    assert_eq!(
        r.next(),
        Pull::Fail(DecodeError { position: 0, kind: DecodeErrorKind::TruncatedScalar })
    );
}

#[test]
fn truncated_scalar_after_ascii_fails() {
    let mut r = JsonReader::from_bytes(&[b'a', 0xe2, 0x82]);
    assert_eq!(r.next(), Pull::Scalar('a'));
    assert_eq!(
        r.next(),
        Pull::Fail(DecodeError { position: 1, kind: DecodeErrorKind::TruncatedScalar })
    );
}

#[test]
fn lone_two_byte_lead_is_truncated() {
    let mut r = JsonReader::from_bytes(&[0xc3]);
    assert_eq!(
        r.next(),
        Pull::Fail(DecodeError { position: 0, kind: DecodeErrorKind::TruncatedScalar })
    );
}

#[test]
fn truncated_four_byte_scalar_fails() {
    let mut r = JsonReader::from_bytes(&[0xf0, 0x9f, 0x98]);
    assert_eq!(
        r.next(),
        Pull::Fail(DecodeError { position: 0, kind: DecodeErrorKind::TruncatedScalar })
    );
}

#[test]
fn overlong_two_byte_encoding_fails() {
    // 0xc0 0xaf would be an overlong encoding of '/': no extension can
    // redeem a 0xc0 lead, so this is invalid, not truncated.
    let mut r = JsonReader::from_bytes(&[0xc0, 0xaf]);
    assert_eq!(
        r.next(),
        Pull::Fail(DecodeError { position: 0, kind: DecodeErrorKind::InvalidByte })
    );
}

#[test]
fn overlong_three_byte_prefix_fails_as_invalid() {
    // 0xe0 0x80 can only continue into an overlong encoding, so it is a
    // genuine error even though the input stops early.
    let mut r = JsonReader::from_bytes(&[0xe0, 0x80]);
    assert_eq!(
        r.next(),
        Pull::Fail(DecodeError { position: 0, kind: DecodeErrorKind::InvalidByte })
    );
}

#[test]
fn surrogate_encoding_fails() {
    // 0xed 0xa0 0x80 encodes a high surrogate, which is not a scalar.
    let mut r = JsonReader::from_bytes(&[0xed, 0xa0, 0x80]);
    assert_eq!(
        r.next(),
        Pull::Fail(DecodeError { position: 0, kind: DecodeErrorKind::InvalidByte })
    );
}

#[test]
fn surrogate_prefix_fails_as_invalid() {
    let mut r = JsonReader::from_bytes(&[0xed, 0xa0]);
    assert_eq!(
        r.next(),
        Pull::Fail(DecodeError { position: 0, kind: DecodeErrorKind::InvalidByte })
    );
}

#[test]
fn four_byte_scalar_decodes() {
    let mut r = JsonReader::from_bytes(&[0xf0, 0x9f, 0x98, 0x80]);
    assert_eq!(r.next(), Pull::Scalar('\u{1f600}'));
    assert_eq!(r.next(), Pull::End);
}

#[test]
fn largest_scalar_decodes() {
    let mut r = JsonReader::from_bytes(&[0xf4, 0x8f, 0xbf, 0xbf]);
    assert_eq!(r.next(), Pull::Scalar('\u{10ffff}'));
    assert_eq!(r.next(), Pull::End);
}

#[test]
fn beyond_largest_scalar_fails() {
    let mut r = JsonReader::from_bytes(&[0xf4, 0x90, 0x80, 0x80]);
    assert_eq!(
        r.next(),
        Pull::Fail(DecodeError { position: 0, kind: DecodeErrorKind::InvalidByte })
    );
}

#[test]
fn reader_over_memory_source() {
    let mut r = JsonReader::new(MemorySource::from_slice(b"hi"));
    assert_eq!(r.next(), Pull::Scalar('h'));
    assert_eq!(r.next(), Pull::Scalar('i'));
    assert_eq!(r.next(), Pull::End);
}

fn pull_all(bytes: &[u8]) -> (String, Pull) {
    let mut r = JsonReader::from_bytes(bytes);
    let mut out = String::new();
    loop {
        match r.next() {
            Pull::Scalar(c) => out.push(c),
            other => return (out, other),
        }
    }
}

#[test]
fn round_trip_reproduces_the_string() {
    let text = "h\u{e9}llo w\u{f6}rld \u{20ac}\u{1f600} \u{5d0}\u{5d1}";
    let (out, last) = pull_all(text.as_bytes());
    assert_eq!(last, Pull::End);
    assert_eq!(out, text);
}

#[test]
fn chunked_decode_matches_single_step_decode() {
    // Scalars of every width, placed so their encodings fall on all
    // possible offsets relative to the 4-byte windows.
    let text = "a\u{20ac}b\u{1f600}\u{e9}c\u{10ffff}\u{7ff}d";
    let (out, last) = pull_all(text.as_bytes());
    assert_eq!(last, Pull::End);
    let chars: Vec<char> = out.chars().collect();
    let expected: Vec<char> = text.chars().collect();
    assert_eq!(chars, expected);
}

#[test]
fn pull_count_is_bounded() {
    // Every input of n bytes ends (or fails) within n + 1 pulls.
    let inputs: [&[u8]; 4] = [b"abcd", &[0xe2, 0x82, 0xac, b'a', b'b'], &[0x80], &[]];
    for bytes in inputs {
        let mut r = JsonReader::from_bytes(bytes);
        let mut pulls: usize = 0;
        loop {
            match r.next() {
                Pull::Scalar(_) => {
                    pulls += 1;
                    assert!(pulls <= bytes.len());
                }
                _ => break,
            }
        }
    }
}
