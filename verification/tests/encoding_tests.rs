use qr_gen::bitstream::BitStream;
use qr_gen::encoder::{
    alphanum_value, is_kanji, AlphanumEncoder, BytesEncoder, Encoder, KanjiEncoder,
    NumeralEncoder,
};
use qr_gen::QrError;

#[test]
fn bitstream_bytes_and_length() {
    let mut bs = BitStream::new();
    bs.push_bits(0b101, 3);
    assert_eq!(bs.size(), 3);
    bs.push(0xFF);
    let (bytes, len) = bs.consume();
    assert_eq!(len, 11);
    // 101 11111 111 followed by five zero pad bits.
    assert_eq!(bytes, vec![0xBF, 0xE0]);
}

#[test]
fn bitstream_wide_push() {
    let mut bs = BitStream::new();
    bs.push_bits_big(0x1F25, 13);
    let (bytes, len) = bs.consume();
    assert_eq!(len, 13);
    // 1111100100101 padded with three zeros.
    assert_eq!(bytes, vec![0xF9, 0x28]);
}

#[test]
fn numeric_segment_12345() {
    let chars: Vec<char> = "12345".chars().collect();
    let mut bs = BitStream::new();
    let r = NumeralEncoder::encode(&chars, 0, 5, &mut bs, 1);
    assert!(r.is_ok());
    let (bytes, len) = bs.consume();
    assert_eq!(len, 31);
    assert_eq!(bytes, vec![0x10, 0x14, 0x7B, 0x5A]);
}

#[test]
fn numeric_segment_rejects_letters() {
    let chars: Vec<char> = "12a45".chars().collect();
    let mut bs = BitStream::new();
    let r = NumeralEncoder::encode(&chars, 0, 5, &mut bs, 1);
    assert_eq!(r, Err(QrError::EncodingFailure));
    let (bytes, len) = bs.consume();
    assert_eq!(len, 0);
    assert!(bytes.is_empty());
}

#[test]
fn alphanumeric_single_character() {
    let chars: Vec<char> = "A".chars().collect();
    let mut bs = BitStream::new();
    let r = AlphanumEncoder::encode(&chars, 0, 1, &mut bs, 1);
    assert!(r.is_ok());
    let (bytes, len) = bs.consume();
    assert_eq!(len, 19);
    // 0010 000000001 001010: the six-bit payload of "A" is 001010.
    assert_eq!(bytes, vec![0x20, 0x09, 0x40]);
}

#[test]
fn alphanumeric_values() {
    assert_eq!(alphanum_value('0'), Some(0));
    assert_eq!(alphanum_value('9'), Some(9));
    assert_eq!(alphanum_value('A'), Some(10));
    assert_eq!(alphanum_value('Z'), Some(35));
    assert_eq!(alphanum_value(' '), Some(36));
    assert_eq!(alphanum_value(':'), Some(44));
    assert_eq!(alphanum_value('a'), None);
    assert_eq!(alphanum_value('!'), None);
}

#[test]
fn byte_segment_utf8_counts_bytes() {
    // One two-byte character: the count indicator holds 2, not 1.
    let chars: Vec<char> = "\u{e9}".chars().collect();
    let mut bs = BitStream::new();
    let r = BytesEncoder::encode(&chars, 0, 1, &mut bs, 1);
    assert!(r.is_ok());
    let (bytes, len) = bs.consume();
    assert_eq!(len, 4 + 8 + 16);
    // 0100 00000010 11000011 10101001
    assert_eq!(bytes, vec![0x40, 0x2C, 0x3A, 0x90]);
}

#[test]
fn kanji_segment_against_shift_jis() {
    let text = "\u{8317}";
    let (enc, _, err) = encoding_rs::SHIFT_JIS.encode(text);
    assert!(!err);
    assert_eq!(enc.len(), 2);
    let v = ((enc[0] as u32) << 8) | enc[1] as u32;
    let w = if v <= 0x9FFC { v - 0x8140 } else { v - 0xC140 };
    let val = (w >> 8) * 0xC0 + (w & 0xFF);

    let chars: Vec<char> = text.chars().collect();
    assert!(is_kanji(chars[0]));
    let mut bs = BitStream::new();
    let r = KanjiEncoder::encode(&chars, 0, 1, &mut bs, 1);
    assert!(r.is_ok());
    let (bytes, len) = bs.consume();
    assert_eq!(len, 4 + 8 + 13);
    let mut expect = BitStream::new();
    expect.push_bits(0b1000, 4);
    expect.push_bits_big(1, 8);
    expect.push_bits_big(val as usize, 13);
    let (ebytes, elen) = expect.consume();
    assert_eq!(len, elen);
    assert_eq!(bytes, ebytes);
}

#[test]
fn kanji_segment_rejects_ascii() {
    let chars: Vec<char> = "a".chars().collect();
    assert!(!is_kanji('a'));
    let mut bs = BitStream::new();
    let r = KanjiEncoder::encode(&chars, 0, 1, &mut bs, 1);
    assert_eq!(r, Err(QrError::EncodingFailure));
}
