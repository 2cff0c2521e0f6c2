use flp_vault::parser::{parse_flp, ParseError, EV_CHAN_TYPE, EV_NEW_CHAN, EV_NEW_PAT,
    EV_TEMPO, EV_TEMPO_LEGACY, EV_TEXT_CHAN_NAME, EV_TEXT_PLUGIN_NAME, EV_VERSION};

// Builds a minimal valid header: "FLhd" + size(6) + format(0) + channels + ppq
fn make_header(channels: u16, ppq: u16) -> Vec<u8> {
    let mut v = Vec::new();
    v.extend_from_slice(b"FLhd");
    v.extend_from_slice(&6u32.to_le_bytes());
    v.extend_from_slice(&0u16.to_le_bytes());
    v.extend_from_slice(&channels.to_le_bytes());
    v.extend_from_slice(&ppq.to_le_bytes());
    v
}

fn make_fldt(events: &[u8]) -> Vec<u8> {
    let mut v = Vec::new();
    v.extend_from_slice(b"FLdt");
    v.extend_from_slice(&(events.len() as u32).to_le_bytes());
    v.extend_from_slice(events);
    v
}

fn build_flp(channels: u16, ppq: u16, events: &[u8]) -> Vec<u8> {
    let mut v = make_header(channels, ppq);
    v.extend(make_fldt(events));
    v
}

fn dword_event(id: u8, value: u32) -> Vec<u8> {
    let mut v = vec![id];
    v.extend_from_slice(&value.to_le_bytes());
    v
}

fn word_event(id: u8, value: u16) -> Vec<u8> {
    let mut v = vec![id];
    v.extend_from_slice(&value.to_le_bytes());
    v
}

fn byte_event(id: u8, value: u8) -> Vec<u8> {
    vec![id, value]
}

fn text_event(id: u8, text: &str) -> Vec<u8> {
    raw_text_event(id, text.as_bytes())
}

fn raw_text_event(id: u8, bytes: &[u8]) -> Vec<u8> {
    let mut v = vec![id];
    let mut remaining = bytes.len();
    loop {
        let byte = (remaining & 0x7F) as u8;
        remaining >>= 7;
        if remaining > 0 {
            v.push(byte | 0x80);
        } else {
            v.push(byte);
            break;
        }
    }
    v.extend_from_slice(bytes);
    v
}

#[test]
fn test_valid_header_parses() {
    let data = build_flp(4, 96, &[]);
    let meta = parse_flp(&data).expect("should parse valid header");
    assert_eq!(meta.channel_count, 4);
}

#[test]
fn test_invalid_magic_returns_error() {
    let data = b"NOTFLP\x00\x00\x00\x00\x00\x00";
    let err = parse_flp(data).expect_err("should fail on wrong magic");
    assert!(matches!(err, ParseError::InvalidMagic));
}

#[test]
fn test_empty_bytes_returns_invalid_magic() {
    let err = parse_flp(&[]).expect_err("empty bytes should fail");
    assert!(matches!(err, ParseError::InvalidMagic));
}

#[test]
fn test_truncated_header_returns_error() {
    let err = parse_flp(b"FLhd\x06\x00").expect_err("short header should fail");
    assert!(matches!(err, ParseError::TruncatedHeader));
}

#[test]
fn test_modern_bpm_event_156() {
    // 128 BPM is stored as 128000 milli-BPM in event 156
    let mut events = Vec::new();
    events.extend(dword_event(EV_TEMPO, 128_000));
    let data = build_flp(1, 96, &events);
    let meta = parse_flp(&data).expect("should parse");
    assert_eq!(meta.bpm_millis, Some(128_000), "BPM should be 128.0");
}

#[test]
fn test_legacy_bpm_event_66() {
    let mut events = Vec::new();
    events.extend(word_event(EV_TEMPO_LEGACY, 140));
    let data = build_flp(1, 96, &events);
    let meta = parse_flp(&data).expect("should parse");
    assert_eq!(meta.bpm_millis, Some(140_000), "BPM should be 140.0");
}

#[test]
fn test_modern_bpm_overrides_legacy() {
    // both events present: the modern one (156) wins
    let mut events = Vec::new();
    events.extend(word_event(EV_TEMPO_LEGACY, 120));
    events.extend(dword_event(EV_TEMPO, 175_000));
    let data = build_flp(1, 96, &events);
    let meta = parse_flp(&data).expect("should parse");
    assert_eq!(meta.bpm_millis, Some(175_000), "Modern BPM should win");
}

#[test]
fn test_no_bpm_produces_none_and_warning() {
    let data = build_flp(1, 96, &[]);
    let meta = parse_flp(&data).expect("should parse");
    assert!(meta.bpm_millis.is_none(), "No BPM event -> bpm should be None");
    assert!(
        meta.warnings.iter().any(|w| w.contains("No BPM")),
        "Should warn about missing BPM"
    );
}

#[test]
fn test_bpm_out_of_range_produces_warning() {
    // a legacy tempo of zero is below the sane range
    let mut events = Vec::new();
    events.extend(word_event(EV_TEMPO_LEGACY, 0));
    let data = build_flp(1, 96, &events);
    let meta = parse_flp(&data).expect("should parse");
    assert!(meta.bpm_millis.is_none(), "Out-of-range BPM should be None");
    assert!(
        meta.warnings.iter().any(|w| w.contains("out of sane range")),
        "Should warn about out-of-range BPM"
    );
}

#[test]
fn test_channel_name_and_plugin() {
    let mut events = Vec::new();
    events.extend(word_event(EV_NEW_CHAN, 0));
    events.extend(text_event(EV_TEXT_CHAN_NAME, "Kick"));
    events.extend(text_event(EV_TEXT_PLUGIN_NAME, "FPC"));
    events.extend(word_event(EV_NEW_CHAN, 1));
    events.extend(text_event(EV_TEXT_CHAN_NAME, "Bass"));

    let data = build_flp(2, 96, &events);
    let meta = parse_flp(&data).expect("should parse");

    assert_eq!(meta.generators.len(), 2);
    assert_eq!(meta.generators[0].name, "Kick");
    assert_eq!(meta.generators[0].plugin_name.as_deref(), Some("FPC"));
    assert_eq!(meta.generators[1].name, "Bass");
    assert!(meta.generators[1].plugin_name.is_none());
}

#[test]
fn test_pattern_count() {
    let mut events = Vec::new();
    events.extend(word_event(EV_NEW_PAT, 1));
    events.extend(word_event(EV_NEW_PAT, 2));
    events.extend(word_event(EV_NEW_PAT, 3));
    let data = build_flp(1, 96, &events);
    let meta = parse_flp(&data).expect("should parse");
    assert_eq!(meta.pattern_count, 3);
}

#[test]
fn test_unknown_event_ids_skipped() {
    let mut events = Vec::new();
    // an unknown DWORD event (180) is read and discarded
    events.extend(dword_event(180, 0xDEADBEEF));
    events.extend(dword_event(EV_TEMPO, 90_000));
    let data = build_flp(1, 96, &events);
    let meta = parse_flp(&data).expect("should parse despite unknown event");
    assert_eq!(meta.bpm_millis, Some(90_000));
}

#[test]
fn test_fl_studio_version_extraction() {
    let mut events = Vec::new();
    events.extend(text_event(EV_VERSION, "21.0.3.3517"));
    let data = build_flp(1, 96, &events);
    let meta = parse_flp(&data).expect("should parse");
    assert_eq!(meta.fl_version.as_deref(), Some("21.0.3.3517"));
}

#[test]
fn test_truncated_file_returns_partial_with_warning() {
    // valid header + FLdt + size, then a DWORD event cut before its payload
    let mut data = make_header(1, 96);
    data.extend_from_slice(b"FLdt");
    data.extend_from_slice(&100u32.to_le_bytes());
    data.push(EV_TEMPO);

    let meta = parse_flp(&data).expect("truncated file should return partial result, not Err");
    assert!(meta.bpm_millis.is_none());
    assert!(
        meta.warnings.iter().any(|w| w.contains("Truncated")),
        "Should warn about truncation"
    );
}

#[test]
fn test_utf16_string_decoding() {
    // "Hi" as UTF-16 LE: H = 0x48 0x00, i = 0x69 0x00
    let utf16_bytes: Vec<u8> = vec![0x48, 0x00, 0x69, 0x00];
    let mut events = Vec::new();
    events.extend(raw_text_event(EV_VERSION, &utf16_bytes));
    let data = build_flp(1, 96, &events);
    let meta = parse_flp(&data).expect("should parse UTF-16 string");
    assert_eq!(meta.fl_version.as_deref(), Some("Hi"));
}

#[test]
fn test_utf16_bom_string_decoding() {
    // a BOM marks the payload as UTF-16 regardless of the heuristic
    let utf16_bytes: Vec<u8> = vec![0xFF, 0xFE, 0x48, 0x00, 0x69, 0x00];
    let mut events = Vec::new();
    events.extend(raw_text_event(EV_VERSION, &utf16_bytes));
    let data = build_flp(1, 96, &events);
    let meta = parse_flp(&data).expect("should parse UTF-16 string with BOM");
    assert_eq!(meta.fl_version.as_deref(), Some("Hi"));
}

#[test]
fn test_channel_type_extraction() {
    let mut events = Vec::new();
    events.extend(word_event(EV_NEW_CHAN, 0));
    events.extend(byte_event(EV_CHAN_TYPE, 3));
    events.extend(text_event(EV_TEXT_CHAN_NAME, "Snare"));
    let data = build_flp(1, 96, &events);
    let meta = parse_flp(&data).expect("should parse");
    assert_eq!(meta.generators.len(), 1);
    assert_eq!(meta.generators[0].channel_type, 3);
    assert_eq!(meta.generators[0].name, "Snare");
}

#[test]
fn test_stray_plugin_yields_unnamed_channel() {
    // a plugin name before any new-channel event survives into the next
    // flushed channel, which then has an empty name
    let mut events = Vec::new();
    events.extend(text_event(EV_TEXT_PLUGIN_NAME, "Sytrus"));
    events.extend(word_event(EV_NEW_CHAN, 0));
    let data = build_flp(1, 96, &events);
    let meta = parse_flp(&data).expect("should parse");
    assert_eq!(meta.generators.len(), 1);
    assert_eq!(meta.generators[0].name, "");
    assert_eq!(meta.generators[0].plugin_name.as_deref(), Some("Sytrus"));
}

#[test]
fn test_missing_fldt_chunk_warns() {
    let mut data = make_header(7, 96);
    data.extend_from_slice(b"XXXX\x00\x00\x00\x00");
    let meta = parse_flp(&data).expect("header-only data should parse");
    assert_eq!(meta.channel_count, 7);
    assert!(meta.warnings.iter().any(|w| w.contains("FLdt chunk not found")));
}

#[test]
fn test_absent_fldt_chunk_warns() {
    let data = make_header(7, 96);
    let meta = parse_flp(&data).expect("a bare header should parse");
    assert_eq!(meta.channel_count, 7);
    assert!(meta.warnings.iter().any(|w| w.contains("FLdt chunk not found")));
}

#[test]
fn test_one_byte_truncation_still_parses() {
    let mut events = Vec::new();
    events.extend(dword_event(EV_TEMPO, 128_000));
    events.extend(text_event(EV_TEXT_CHAN_NAME, "Kick"));
    let mut data = build_flp(1, 96, &events);
    data.pop();
    let meta = parse_flp(&data).expect("one missing byte is not fatal");
    assert_eq!(meta.bpm_millis, Some(128_000));
    assert!(meta.warnings.iter().any(|w| w.contains("Truncated")));
}
