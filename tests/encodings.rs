use encoding_rs::UTF_8;
use quickcheck::{quickcheck, TestResult};
use xml_textbuf::encodings::{
    step_outcome, Buffer, DecodeError, DecodeStatus, DecodingReader, Delimited, DelimitingReader,
    StrBuffer,
};

fn read_until_from(
    reader: &mut DelimitingReader,
    src: &[u8],
    at: &mut usize,
    delim: char,
    target: &mut String,
) -> Result<bool, DecodeError> {
    loop {
        match reader.read_until(&delim, target)? {
            Delimited::Found => return Ok(true),
            Delimited::EndOfInput => return Ok(false),
            Delimited::Pending => {
                if reader.wants_input() {
                    let n = std::cmp::min(reader.input_capacity(), src.len() - *at);
                    if n == 0 {
                        reader.end_input();
                    } else {
                        reader.fill(&src[*at..*at + n]);
                        *at += n;
                    }
                }
            }
        }
    }
}

#[test]
fn test_read_until_simple_utf8() {
    let data = "\u{15f}\u{14f}\u{43c}\u{119} \u{167}\u{115}\u{d7}\u{167} - \u{15f}\u{451}\u{3c1}\u{3ac}\u{155}\u{1eb3}\u{165}\u{212e}\u{111} - w\u{ec}\u{167}\u{125} - \u{10f}\u{e5}\u{161}\u{45b}\u{451}\u{161}";
    let src = data.as_bytes();
    let mut at = 0usize;
    let mut reader = DelimitingReader::new(UTF_8, Buffer::new_owned(16), StrBuffer::new_owned(24));

    let mut result = String::new();

    assert_eq!(read_until_from(&mut reader, src, &mut at, '-', &mut result).unwrap(), true);
    assert_eq!(result, "\u{15f}\u{14f}\u{43c}\u{119} \u{167}\u{115}\u{d7}\u{167} -");
    result.clear();

    assert_eq!(read_until_from(&mut reader, src, &mut at, '-', &mut result).unwrap(), true);
    assert_eq!(result, " \u{15f}\u{451}\u{3c1}\u{3ac}\u{155}\u{1eb3}\u{165}\u{212e}\u{111} -");
    result.clear();

    assert_eq!(read_until_from(&mut reader, src, &mut at, '-', &mut result).unwrap(), true);
    assert_eq!(result, " w\u{ec}\u{167}\u{125} -");
    result.clear();

    assert_eq!(read_until_from(&mut reader, src, &mut at, '-', &mut result).unwrap(), false);
    assert_eq!(result, " \u{10f}\u{e5}\u{161}\u{45b}\u{451}\u{161}");
    result.clear();

    assert_eq!(read_until_from(&mut reader, src, &mut at, '-', &mut result).unwrap(), false);
    assert!(result.is_empty());
}

fn split_join_prop(decoding_buf_cap: usize, delim_buf_cap: usize, parts: Vec<String>) -> TestResult {
    if decoding_buf_cap > 2048 || delim_buf_cap > 2048 || delim_buf_cap < 4 || decoding_buf_cap == 0 {
        return TestResult::discard();
    }

    if parts.iter().any(|s| s.contains('-')) {
        return TestResult::discard();
    }

    let source_data = parts.join("-");
    let src = source_data.as_bytes();
    let mut at = 0usize;
    let mut reader = DelimitingReader::new(
        UTF_8,
        Buffer::new_owned(decoding_buf_cap),
        StrBuffer::new_owned(delim_buf_cap),
    );

    let mut result = String::new();
    let mut i = 0;
    while read_until_from(&mut reader, src, &mut at, '-', &mut result).unwrap() {
        i += 1;
        let expected = parts[..i].join("-") + "-";
        if result != expected {
            return TestResult::error(format!(
                "Invalid intermediate result: {:?}, expected: {:?}",
                result, expected
            ));
        }
    }

    if result != source_data {
        return TestResult::error(format!("Invalid final result: {:?}, expected: {:?}", result, source_data));
    }

    TestResult::passed()
}

#[test]
fn test_read_until_utf8_buffer_sizes() {
    quickcheck(split_join_prop as fn(usize, usize, Vec<String>) -> TestResult);
}

#[test]
fn split_join_smallest_buffers() {
    let parts = vec!["\u{15f}\u{14f}\u{43c}".to_string(), String::new(), "ab".to_string(), "\u{20ac}x".to_string()];
    assert!(!split_join_prop(1, 4, parts.clone()).is_failure());
    assert!(!split_join_prop(2048, 2048, parts.clone()).is_failure());
    assert!(!split_join_prop(3, 5, parts).is_failure());
}

#[test]
fn three_parts_by_dash() {
    let src = "abc-def-ghi".as_bytes();
    let mut at = 0usize;
    let mut reader = DelimitingReader::new(UTF_8, Buffer::new_owned(4), StrBuffer::new_owned(4));
    let mut out = String::new();
    assert_eq!(read_until_from(&mut reader, src, &mut at, '-', &mut out), Ok(true));
    assert_eq!(out, "abc-");
    out.clear();
    assert_eq!(read_until_from(&mut reader, src, &mut at, '-', &mut out), Ok(true));
    assert_eq!(out, "def-");
    out.clear();
    assert_eq!(read_until_from(&mut reader, src, &mut at, '-', &mut out), Ok(false));
    assert_eq!(out, "ghi");
}

#[test]
fn empty_input_is_not_found() {
    let mut at = 0usize;
    let mut reader = DelimitingReader::new(UTF_8, Buffer::new_owned(8), StrBuffer::new_owned(8));
    let mut out = String::new();
    assert_eq!(read_until_from(&mut reader, &[], &mut at, '-', &mut out), Ok(false));
    assert!(out.is_empty());
    assert_eq!(read_until_from(&mut reader, &[], &mut at, '-', &mut out), Ok(false));
    assert!(out.is_empty());
}

#[test]
fn single_byte_staging_decodes_three_byte_char() {
    let euro = "\u{20ac}".as_bytes();
    assert_eq!(euro.len(), 3);
    let mut reader = DecodingReader::new(UTF_8, Buffer::new_owned(1));
    let mut dst = "\0".repeat(4);
    reader.fill(&euro[0..1]);
    assert_eq!(reader.decode_to_str(dst.as_mut_str()), Ok(Some(0)));
    assert!(reader.wants_input());
    reader.fill(&euro[1..2]);
    assert_eq!(reader.decode_to_str(dst.as_mut_str()), Ok(Some(0)));
    reader.fill(&euro[2..3]);
    assert_eq!(reader.decode_to_str(dst.as_mut_str()), Ok(Some(3)));
    assert_eq!(&dst.as_str()[..3], "\u{20ac}");
    assert!(dst.as_str().starts_with("\u{20ac}"));
}

#[test]
fn truncated_sequence_at_end_is_an_error() {
    let mut reader = DecodingReader::new(UTF_8, Buffer::new_owned(8));
    let mut dst = "\0".repeat(8);
    reader.fill(&[b'a', 0xE2, 0x82]);
    assert_eq!(reader.decode_to_str(dst.as_mut_str()), Ok(Some(1)));
    assert!(dst.as_str().starts_with('a'));
    reader.end_input();
    assert_eq!(reader.decode_to_str(dst.as_mut_str()), Err(DecodeError::Malformed));
}

#[test]
fn malformed_byte_is_an_error() {
    let mut reader = DecodingReader::new(UTF_8, Buffer::new_owned(8));
    let mut dst = "\0".repeat(8);
    reader.fill(&[0xFF]);
    assert_eq!(reader.decode_to_str(dst.as_mut_str()), Err(DecodeError::Malformed));
}

#[test]
fn no_more_input_stays_so() {
    let mut reader = DecodingReader::new(UTF_8, Buffer::new_owned(8));
    let mut dst = "\0".repeat(8);
    reader.end_input();
    assert_eq!(reader.decode_to_str(dst.as_mut_str()), Ok(Some(0)));
    for _ in 0..5 {
        assert_eq!(reader.decode_to_str(dst.as_mut_str()), Ok(None));
    }
}

#[test]
fn byte_order_mark_is_removed() {
    let src = [0xEF, 0xBB, 0xBF, b'x', b'-', b'y'];
    let mut at = 0usize;
    let mut reader = DelimitingReader::new(UTF_8, Buffer::new_owned(2), StrBuffer::new_owned(4));
    let mut out = String::new();
    assert_eq!(read_until_from(&mut reader, &src, &mut at, '-', &mut out), Ok(true));
    assert_eq!(out, "x-");
}

#[test]
fn utf16_input_is_decoded() {
    let src = [b'a', 0, b';', 0, b'b', 0];
    let mut at = 0usize;
    let mut reader = DelimitingReader::new(encoding_rs::UTF_16LE, Buffer::new_owned(3), StrBuffer::new_owned(4));
    let mut out = String::new();
    assert_eq!(read_until_from(&mut reader, &src, &mut at, ';', &mut out), Ok(true));
    assert_eq!(out, "a;");
    out.clear();
    assert_eq!(read_until_from(&mut reader, &src, &mut at, ';', &mut out), Ok(false));
    assert_eq!(out, "b");
}

#[test]
fn borrowed_staging_buffers() {
    let mut bytes = [0u8; 2];
    let mut text = String::from("\0\0\0\0\0\0");
    let src = "x|yz|".as_bytes();
    let mut at = 0usize;
    let mut reader = DelimitingReader::new(
        UTF_8,
        Buffer::new_borrowed(&mut bytes),
        StrBuffer::new_borrowed(text.as_mut_str()),
    );
    let mut out = String::new();
    assert_eq!(read_until_from(&mut reader, src, &mut at, '|', &mut out), Ok(true));
    assert_eq!(out, "x|");
    out.clear();
    assert_eq!(read_until_from(&mut reader, src, &mut at, '|', &mut out), Ok(true));
    assert_eq!(out, "yz|");
}

#[test]
fn written_count_is_in_bytes() {
    let mut reader = DecodingReader::new(UTF_8, Buffer::new_owned(8));
    let mut dst = "\0".repeat(8);
    reader.fill("\u{15f}a".as_bytes());
    assert_eq!(reader.decode_to_str(dst.as_mut_str()), Ok(Some(3)));
    assert_eq!(&dst.as_str()[..3], "\u{15f}a");
    reader.end_input();
    assert_eq!(reader.decode_to_str(dst.as_mut_str()), Ok(Some(0)));
    assert_eq!(reader.decode_to_str(dst.as_mut_str()), Ok(None));
    assert_eq!(&dst.as_str()[..3], "\u{15f}a");
}

#[test]
fn outcome_of_each_status() {
    assert_eq!(step_outcome(DecodeStatus::InputEmpty, 3), Ok(Some(3)));
    assert_eq!(step_outcome(DecodeStatus::OutputFull, 0), Ok(Some(0)));
    assert_eq!(step_outcome(DecodeStatus::Malformed, 2), Err(DecodeError::Malformed));
}

#[test]
fn error_after_valid_text_comes_before_end() {
    let src = [b'o', b'k', 0xFF, b'z'];
    let mut at = 0usize;
    let mut reader = DelimitingReader::new(UTF_8, Buffer::new_owned(4), StrBuffer::new_owned(4));
    let mut out = String::new();
    assert_eq!(read_until_from(&mut reader, &src, &mut at, '-', &mut out), Err(DecodeError::Malformed));
    assert!(reader.has_failed());
    assert!("ok".starts_with(out.as_str()));
}

#[test]
fn wrapped_decoder_keeps_decoding() {
    let mut dec = DecodingReader::new(UTF_8, Buffer::new_owned(8));
    let mut dst = "\0".repeat(8);
    dec.fill(b"ab-cd");
    assert_eq!(dec.decode_to_str(dst.as_mut_str()), Ok(Some(5)));
    assert!(!dec.has_failed());
    let mut reader = DelimitingReader::wrap(dec, StrBuffer::new_owned(8));
    let mut at = 0usize;
    let mut out = String::new();
    assert_eq!(read_until_from(&mut reader, b"x-y", &mut at, '-', &mut out), Ok(true));
    assert_eq!(out, "x-");
}
