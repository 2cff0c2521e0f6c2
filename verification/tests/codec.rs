use flp_vault::parser::{read_varint, decode_string, ParseError};

#[test]
fn test_read_varint_single_byte() {
    let bytes = [0x05u8, 0xff];
    assert_eq!(read_varint(&bytes, 0), Some((5, 1)));
}

#[test]
fn test_read_varint_multi_byte() {
    // 0x85 contributes its low seven bits, 0x01 the next seven
    let bytes = [0x85u8, 0x01];
    assert_eq!(read_varint(&bytes, 0), Some((133, 2)));
}

#[test]
fn test_read_varint_runs_off_the_end() {
    let bytes = [0x85u8];
    assert_eq!(read_varint(&bytes, 0), None);
}

#[test]
fn test_read_varint_overflow_is_refused() {
    // eleven continuation bytes push the shift past 64 bits
    let bytes = [0x81u8; 11];
    assert_eq!(read_varint(&bytes, 0), None);
}

#[test]
fn test_decode_string_utf8_strips_trailing_nul() {
    assert_eq!(decode_string(b"Kick\0"), "Kick");
}

#[test]
fn test_decode_string_utf16_heuristic() {
    // even length, zero bytes at offsets one and three: UTF-16 LE
    let bytes = [0x48u8, 0x00, 0x69, 0x00];
    assert_eq!(decode_string(&bytes), "Hi");
}

#[test]
fn test_decode_string_utf16_bom() {
    let bytes = [0xffu8, 0xfe, 0x48, 0x00, 0x69, 0x00, 0x00, 0x00];
    assert_eq!(decode_string(&bytes), "Hi");
}

#[test]
fn test_parse_error_texts() {
    assert_eq!(ParseError::InvalidMagic.message(), "Not a valid FLP file (wrong magic bytes)");
    assert_eq!(ParseError::TruncatedHeader.message(), "FLP header is truncated");
    assert_eq!(ParseError::InvalidMagic.debug_text(), "InvalidMagic");
    assert_eq!(ParseError::TruncatedHeader.debug_text(), "TruncatedHeader");
}
