use fresh_buffer::encoding::{
    bom_len, can_encode, contains_high_control, decode, detect, encode, is_ascii, is_clean,
    is_gb18030_plausible, is_representable, is_utf16_well_formed, push_char,
    windows1252_decode, windows1252_encode, Encoding,
};
use fresh_buffer::text_buffer::TextBuffer;
use fresh_buffer::unicode::{first_scalar, is_valid_utf8, push_scalar, push_utf8_lossy};

const UTF8_BOM: &[u8] = &[0xEF, 0xBB, 0xBF];
const UTF16_LE_BOM: &[u8] = &[0xFF, 0xFE];
const UTF16_BE_BOM: &[u8] = &[0xFE, 0xFF];

fn utf16le(text: &str) -> Vec<u8> {
    let mut out = Vec::new();
    for unit in text.encode_utf16() {
        out.extend_from_slice(&unit.to_le_bytes());
    }
    out
}

fn utf16be(text: &str) -> Vec<u8> {
    let mut out = Vec::new();
    for unit in text.encode_utf16() {
        out.extend_from_slice(&unit.to_be_bytes());
    }
    out
}

fn text_of(buffer: &TextBuffer) -> String {
    String::from_utf8(buffer.get_text_range(0, buffer.len()).unwrap()).unwrap()
}

#[test]
fn test_detect_encoding_utf8() {
    let content = "Hello, World!\n你好世界\n";
    let (buffer, encoding) = TextBuffer::from_bytes(content.as_bytes());
    assert_eq!(encoding, Encoding::Utf8);
    assert!(!buffer.has_bom());
    let screen = text_of(&buffer);
    assert!(screen.contains("Hello, World!"));
    assert!(screen.contains('你'), "Screen should contain '你'");
    assert!(screen.contains('好'), "Screen should contain '好'");
    assert!(screen.contains('世'), "Screen should contain '世'");
    assert!(screen.contains('界'), "Screen should contain '界'");
    assert_eq!(buffer.to_bytes(), content.as_bytes());
}

#[test]
fn test_utf8_bom_hidden_but_preserved() {
    let mut content = Vec::new();
    content.extend_from_slice(UTF8_BOM);
    content.extend_from_slice("Hello\n".as_bytes());

    let (mut buffer, encoding) = TextBuffer::from_bytes(&content);
    assert_eq!(encoding, Encoding::Utf8Bom);
    assert!(buffer.has_bom());
    let screen = text_of(&buffer);
    assert!(
        !screen.contains("\u{FEFF}"),
        "BOM character should not be visible in content"
    );
    assert_eq!(buffer.get_text_range(0, 5), Some(b"Hello".to_vec()));
    assert_eq!(buffer.to_bytes(), content);

    buffer.insert(5, b" World").unwrap();
    assert!(buffer.is_modified());
    let saved = buffer.to_bytes();
    buffer.mark_saved();
    assert!(!buffer.is_modified());
    assert!(saved.starts_with(UTF8_BOM), "BOM should be preserved after save");
    assert_eq!(&saved[3..], b"Hello World\n");
}

#[test]
fn test_empty_file_defaults_to_utf8() {
    let (mut buffer, encoding) = TextBuffer::from_bytes(b"");
    assert_eq!(encoding, Encoding::Utf8);
    assert_eq!(buffer.len(), 0);
    buffer.insert(0, "New content\n".as_bytes()).unwrap();
    let saved = buffer.to_bytes();
    assert!(
        !saved.starts_with(UTF8_BOM),
        "New files should not have BOM by default"
    );
    assert_eq!(String::from_utf8(saved).unwrap(), "New content\n");
}

#[test]
fn test_binary_with_fake_bom_detected() {
    let mut content = Vec::new();
    content.extend_from_slice(UTF16_LE_BOM);
    content.extend_from_slice(&[0x00, 0x00, 0x00, 0x00]);
    content.extend_from_slice(&[0x89, 0x50, 0x4E, 0x47]);
    let (buffer, encoding) = TextBuffer::from_bytes(&content);
    assert_eq!(encoding, Encoding::Utf16Le);
    assert_eq!(text_of(&buffer), "\u{0}\u{0}\u{5089}\u{474E}");
    assert_eq!(buffer.to_bytes(), content);
}

#[test]
fn test_gb18030_chinese_display() {
    let gb18030_bytes: &[u8] = &[0xC4, 0xE3, 0xBA, 0xC3, 0xCA, 0xC0, 0xBD, 0xE7, 0x0A];
    let (buffer, encoding) = TextBuffer::from_bytes(gb18030_bytes);
    assert_eq!(encoding, Encoding::Gb18030);
    let screen = text_of(&buffer);
    assert!(screen.contains('你'), "Screen should contain '你': {}", screen);
    assert!(screen.contains('好'), "Screen should contain '好': {}", screen);
    assert!(screen.contains('世'), "Screen should contain '世': {}", screen);
    assert!(screen.contains('界'), "Screen should contain '界': {}", screen);
    assert_eq!(screen, "你好世界\n");
    assert_eq!(buffer.to_bytes(), gb18030_bytes);
}

#[test]
fn test_latin1_special_chars_display() {
    let latin1_bytes: &[u8] = &[
        0x48, 0xE9, 0x6C, 0x6C, 0x6F, 0x20, 0x57, 0xF6, 0x72, 0x6C, 0x64, 0x20, 0x43, 0x61,
        0x66, 0xE9, 0x20, 0x72, 0xE9, 0x73, 0x75, 0x6D, 0xE9, 0x20, 0x6E, 0x61, 0xEF, 0x76,
        0x65, 0x0A,
    ];
    let (buffer, encoding) = TextBuffer::from_bytes(latin1_bytes);
    assert_eq!(encoding, Encoding::Latin1);
    let screen = text_of(&buffer);
    assert!(screen.contains("Héllo"));
    assert!(screen.contains("Wörld"));
    assert!(screen.contains("Café"));
    assert_eq!(screen, "Héllo Wörld Café résumé naïve\n");
    assert_eq!(buffer.to_bytes(), latin1_bytes);
}

#[test]
fn test_encoding_shown_in_status_bar() {
    let content = "Hello UTF-16";
    let mut utf16_bytes = vec![0xFF, 0xFE];
    utf16_bytes.extend_from_slice(&utf16le(content));
    let (buffer, encoding) = TextBuffer::from_bytes(&utf16_bytes);
    assert_eq!(encoding, Encoding::Utf16Le);
    assert_eq!(buffer.encoding(), Encoding::Utf16Le);
    assert_eq!(text_of(&buffer), content);
}

#[test]
fn test_clipboard_preserves_encoded_content() {
    let (mut buffer, encoding) = TextBuffer::from_bytes("Café résumé\n".as_bytes());
    assert_eq!(encoding, Encoding::Utf8);
    let copied = buffer.get_text_range(0, buffer.len()).unwrap();
    buffer.insert(buffer.len(), &copied).unwrap();
    let content = text_of(&buffer);
    assert!(
        content.matches("Café").count() == 2,
        "Should have two copies of Café: {}",
        content
    );
}

#[test]
fn test_large_utf16_file_navigation() {
    let line = "This is a test line with content\r\n";
    let num_lines = 500;
    let mut content = Vec::new();
    content.extend_from_slice(UTF16_LE_BOM);
    for _ in 0..num_lines {
        content.extend_from_slice(&utf16le(line));
    }
    let (buffer, encoding) = TextBuffer::from_bytes(&content);
    assert_eq!(encoding, Encoding::Utf16Le);
    assert_eq!(buffer.len(), line.len() * num_lines);
    let last = buffer.get_text_range(buffer.len() - line.len(), line.len()).unwrap();
    assert!(String::from_utf8(last).unwrap().contains("test line"));
    assert_eq!(buffer.to_bytes(), content);
}

#[test]
fn test_utf16_encoding_indicator_click_and_change() {
    let content = "Hello UTF-16!\nLine 2\n";
    let mut utf16_bytes = UTF16_LE_BOM.to_vec();
    utf16_bytes.extend_from_slice(&utf16le(content));
    let (mut buffer, encoding) = TextBuffer::from_bytes(&utf16_bytes);
    assert_eq!(encoding, Encoding::Utf16Le);
    assert!(!buffer.is_encoding_overridden());

    buffer.set_encoding(Encoding::Utf8);
    assert!(buffer.is_encoding_overridden());
    assert_eq!(buffer.encoding(), Encoding::Utf8);
    let saved = buffer.to_bytes();
    assert!(
        !saved.starts_with(UTF16_LE_BOM),
        "Saved file should not have UTF-16 LE BOM"
    );
    let saved = String::from_utf8(saved).expect("Saved file should be valid UTF-8");
    assert!(
        saved.contains("Hello UTF-16!"),
        "Saved file should contain the original text"
    );
    assert!(saved.contains("Line 2"), "Saved file should contain all lines");
    assert_eq!(saved, content);
}

#[test]
fn test_utf8_to_utf16_encoding_change() {
    let content = "Hello World! こんにちは\nLine 2\n";
    let (mut buffer, encoding) = TextBuffer::from_bytes(content.as_bytes());
    assert_eq!(encoding, Encoding::Utf8);
    buffer.set_encoding(Encoding::Utf16Le);
    assert_eq!(buffer.encoding(), Encoding::Utf16Le);
    assert!(buffer.has_bom());
    assert_eq!(text_of(&buffer), content);

    let saved = buffer.to_bytes();
    assert!(
        saved.starts_with(UTF16_LE_BOM),
        "Saved file should have UTF-16 LE BOM. Got first bytes: {:?}",
        &saved[..2]
    );
    let units: Vec<u16> = saved[2..]
        .chunks(2)
        .map(|pair| u16::from_le_bytes([pair[0], pair[1]]))
        .collect();
    let decoded = String::from_utf16(&units).expect("Should be valid UTF-16 LE");
    assert!(
        decoded.contains("Hello World!"),
        "Saved file should contain the original text. Got: {}",
        decoded
    );
    assert!(
        decoded.contains("こんにちは"),
        "Saved file should preserve Japanese characters"
    );
    assert_eq!(decoded, content);
}

#[test]
fn utf16_edit_then_save_keeps_bom_and_appends() {
    let original = "Grüße 😀\n";
    let mut file = UTF16_LE_BOM.to_vec();
    file.extend_from_slice(&utf16le(original));
    let (mut buffer, encoding) = TextBuffer::from_bytes(&file);
    assert_eq!(encoding, Encoding::Utf16Le);
    buffer.insert(buffer.len(), b"X").unwrap();
    let saved = buffer.to_bytes();
    assert!(saved.starts_with(&[0xFF, 0xFE]));
    let mut expected = utf16le(original);
    expected.extend_from_slice(&utf16le("X"));
    assert_eq!(&saved[2..], &expected[..]);
}

#[test]
fn utf8_bom_document_round_trips_nine_bytes() {
    let file = [0xEF, 0xBB, 0xBF, 0x48, 0x65, 0x6C, 0x6C, 0x6F, 0x0A];
    let (buffer, encoding) = TextBuffer::from_bytes(&file);
    assert_eq!(encoding, Encoding::Utf8Bom);
    assert_eq!(buffer.len(), 6);
    assert_eq!(buffer.get_text_range(0, 5), Some(b"Hello".to_vec()));
    assert!(!buffer.is_modified());
    assert_eq!(buffer.to_bytes(), file.to_vec());
}

#[test]
fn detection_follows_priority_order() {
    assert_eq!(detect(b""), Encoding::Utf8);
    assert_eq!(detect(b"plain"), Encoding::Ascii);
    assert_eq!(detect("é".as_bytes()), Encoding::Utf8);
    assert_eq!(detect(&[0xEF, 0xBB, 0xBF]), Encoding::Utf8Bom);
    assert_eq!(detect(&[0xFF, 0xFE, 0x41, 0x00]), Encoding::Utf16Le);
    assert_eq!(detect(&[0xFE, 0xFF, 0x00, 0x41]), Encoding::Utf16Be);
    assert_eq!(detect(&[0xC4, 0xE3, 0x0A]), Encoding::Gb18030);
    assert_eq!(detect(&[0x81, 0x30, 0x81, 0x30]), Encoding::Gb18030);
    assert_eq!(detect(&[b'a', 0xE9, b'b']), Encoding::Latin1);
    assert_eq!(detect(&[b'a', 0x93, b'b', 0x94]), Encoding::Windows1252);
    assert_eq!(detect(&[0xE9]), Encoding::Latin1);
    assert_eq!(detect(&[0x80]), Encoding::Windows1252);
    assert_eq!(detect(&[0xFF, b'a']), Encoding::Latin1);
}

#[test]
fn detection_helpers() {
    assert!(is_ascii(b"abc\n"));
    assert!(!is_ascii(&[b'a', 0x80]));
    assert!(contains_high_control(&[b'a', 0x9F]));
    assert!(!contains_high_control(&[b'a', 0xA0, 0x7F]));
    assert!(is_gb18030_plausible(b""));
    assert!(is_gb18030_plausible(&[b'a', 0xC4, 0xE3, b'b']));
    assert!(!is_gb18030_plausible(&[0xC4]));
    assert!(!is_gb18030_plausible(&[0xC4, b'a']));
    assert!(!is_gb18030_plausible(&[0x81, 0x30, 0x81]));
    assert!(!is_gb18030_plausible(&[0x80, 0x80]));
}

#[test]
fn every_encoding_round_trips_what_it_can_represent() {
    let cases: Vec<(Encoding, Vec<u8>)> = vec![
        (Encoding::Utf8, "añ€😀\n".as_bytes().to_vec()),
        (Encoding::Utf8Bom, [UTF8_BOM, "añ€😀".as_bytes()].concat()),
        (Encoding::Utf16Le, [UTF16_LE_BOM, &utf16le("añ€😀")[..]].concat()),
        (Encoding::Utf16Le, utf16le("no mark")),
        (Encoding::Utf16Be, [UTF16_BE_BOM, &utf16be("añ€😀")[..]].concat()),
        (Encoding::Ascii, b"just ascii\r\n".to_vec()),
        (Encoding::Latin1, (0u8..=255).collect()),
        (Encoding::Windows1252, (0u8..=255).collect()),
        (Encoding::Gb18030, vec![0xC4, 0xE3, b'!', 0x81, 0x30, 0x81, 0x30]),
    ];
    for (encoding, file) in cases {
        let buffer = TextBuffer::from_bytes_with(&file, encoding, 1 << 20);
        assert!(is_valid_utf8(&buffer.get_text_range(0, buffer.len()).unwrap()));
        assert_eq!(buffer.encoding(), encoding);
        assert_eq!(buffer.to_bytes(), file, "{:?}", encoding);
    }
}

#[test]
fn decode_replaces_what_is_malformed() {
    assert_eq!(decode(&[b'a', 0xFF, b'b'], Encoding::Utf8), "a\u{FFFD}b".as_bytes());
    assert_eq!(decode(&[0xE2, 0x82], Encoding::Utf8), "\u{FFFD}\u{FFFD}".as_bytes());
    assert_eq!(decode(&[0xED, 0xA0, 0x80], Encoding::Utf8), "\u{FFFD}\u{FFFD}\u{FFFD}".as_bytes());
    assert_eq!(decode(&[0xC0, 0x80], Encoding::Utf8), "\u{FFFD}\u{FFFD}".as_bytes());
    assert_eq!(decode(&[b'a', 0x80], Encoding::Ascii), "a\u{FFFD}".as_bytes());
    assert_eq!(decode(&[0x41, 0x00, 0x42], Encoding::Utf16Le), "A\u{FFFD}".as_bytes());
    assert_eq!(decode(&[0x00, 0xD8, 0x41, 0x00], Encoding::Utf16Le), "\u{FFFD}A".as_bytes());
    assert_eq!(decode(&[0x00, 0xDC], Encoding::Utf16Le), "\u{FFFD}".as_bytes());
    assert_eq!(decode(&[0xD8, 0x3D, 0xDE, 0x00], Encoding::Utf16Be), "😀".as_bytes());
    assert_eq!(decode(&[0xFF], Encoding::Gb18030), "\u{FFFD}".as_bytes());
}

#[test]
fn decode_single_byte_tables() {
    assert_eq!(decode(&[0xE9, 0x80], Encoding::Latin1), "é\u{80}".as_bytes());
    assert_eq!(decode(&[0x80, 0x99, 0x9F], Encoding::Windows1252), "€™Ÿ".as_bytes());
    assert_eq!(decode(&[0x81, 0xE9], Encoding::Windows1252), "\u{81}é".as_bytes());
    assert_eq!(windows1252_decode(0x80), 0x20AC);
    assert_eq!(windows1252_decode(0x41), 0x41);
    assert_eq!(windows1252_decode(0x8D), 0x8D);
    assert_eq!(windows1252_encode(0x20AC), Some(0x80));
    assert_eq!(windows1252_encode(0x80), None);
    assert_eq!(windows1252_encode(0x8D), Some(0x8D));
    assert_eq!(windows1252_encode(0xFF), Some(0xFF));
    assert_eq!(windows1252_encode(0x100), None);
    for b in 0u8..=255 {
        assert_eq!(windows1252_encode(windows1252_decode(b)), Some(b));
    }
}

#[test]
fn encode_substitutes_what_the_target_lacks() {
    assert_eq!(encode("aé€".as_bytes(), Encoding::Ascii), b"a??");
    assert_eq!(encode("aé€".as_bytes(), Encoding::Latin1), &[b'a', 0xE9, b'?']);
    assert_eq!(encode("aé€Ā".as_bytes(), Encoding::Windows1252), &[b'a', 0xE9, 0x80, b'?']);
    assert_eq!(encode("A😀".as_bytes(), Encoding::Utf16Le), &[0x41, 0x00, 0x3D, 0xD8, 0x00, 0xDE]);
    assert_eq!(encode("A😀".as_bytes(), Encoding::Utf16Be), &[0x00, 0x41, 0xD8, 0x3D, 0xDE, 0x00]);
    assert_eq!(encode("你好".as_bytes(), Encoding::Gb18030), &[0xC4, 0xE3, 0xBA, 0xC3]);
    assert_eq!(encode(&[b'a', 0xFF], Encoding::Utf8), &[b'a', 0xFF]);
    assert_eq!(encode(&[b'a', 0xFF], Encoding::Latin1), &[b'a', b'?']);
    assert_eq!(encode(&[b'a', 0xFF], Encoding::Utf16Le), &[0x61, 0x00, 0xFD, 0xFF]);
}

#[test]
fn scalar_reading_and_writing() {
    assert_eq!(first_scalar(b"A", 0), Some((0x41, 1)));
    assert_eq!(first_scalar("é".as_bytes(), 0), Some((0xE9, 2)));
    assert_eq!(first_scalar("x€".as_bytes(), 1), Some((0x20AC, 3)));
    assert_eq!(first_scalar("😀".as_bytes(), 0), Some((0x1F600, 4)));
    assert_eq!(first_scalar(&[0x80], 0), None);
    assert_eq!(first_scalar(&[0xC3], 0), None);
    assert_eq!(first_scalar(&[0xC1, 0x81], 0), None);
    assert_eq!(first_scalar(&[0xE0, 0x80, 0x80], 0), None);
    assert_eq!(first_scalar(&[0xF4, 0x90, 0x80, 0x80], 0), None);
    assert_eq!(first_scalar(&[0xF8, 0x80, 0x80, 0x80], 0), None);

    let mut out = Vec::new();
    for scalar in [0x41u32, 0xE9, 0x20AC, 0x1F600] {
        push_scalar(&mut out, scalar);
    }
    assert_eq!(out, "Aé€😀".as_bytes());

    let mut out = vec![b'>'];
    push_utf8_lossy(&mut out, &[b'a', 0xF0, 0x9F, b'b']);
    assert_eq!(out, ">a\u{FFFD}\u{FFFD}b".as_bytes());

    let mut out = Vec::new();
    push_char(&mut out, 0x20AC, Encoding::Windows1252);
    push_char(&mut out, 0x1F600, Encoding::Utf16Be);
    push_char(&mut out, 0x100, Encoding::Latin1);
    assert_eq!(out, vec![0x80, 0xD8, 0x3D, 0xDE, 0x00, b'?']);
}

#[test]
fn utf8_validity() {
    assert!(is_valid_utf8(b""));
    assert!(is_valid_utf8("añ€😀".as_bytes()));
    assert!(!is_valid_utf8(&[0xC3]));
    assert!(!is_valid_utf8(&[b'a', 0xED, 0xA0, 0x80]));
    assert!(!is_valid_utf8(&[0xC3, 0xA9, 0xFF]));
}

#[test]
fn clean_decoding_is_told_from_lossy() {
    assert!(is_clean("añ€😀".as_bytes(), Encoding::Utf8));
    assert!(!is_clean(&[b'a', 0xFF], Encoding::Utf8));
    assert!(!is_clean(&[b'a', 0xFF], Encoding::Utf8Bom));
    assert!(is_clean(b"abc", Encoding::Ascii));
    assert!(!is_clean(&[0x80], Encoding::Ascii));
    assert!(is_clean(&[0x80, 0xFF], Encoding::Latin1));
    assert!(is_clean(&[0x81, 0x8D], Encoding::Windows1252));
    assert!(is_clean(&utf16le("a😀"), Encoding::Utf16Le));
    assert!(is_clean(&utf16be("a😀"), Encoding::Utf16Be));
    assert!(!is_clean(&[0xDC, 0x00, 0x00, 0x41], Encoding::Utf16Be));
    assert!(!is_clean(&[0x41], Encoding::Utf16Le));
    assert!(is_clean(&[0xC4, 0xE3], Encoding::Gb18030));
    assert!(!is_clean(&[0xC4], Encoding::Gb18030));
    assert!(!is_clean(&[0xFF], Encoding::Gb18030));
}

#[test]
fn utf16_well_formedness() {
    assert!(is_utf16_well_formed(&[], false));
    assert!(is_utf16_well_formed(&[0x3D, 0xD8, 0x00, 0xDE], false));
    assert!(is_utf16_well_formed(&[0xD8, 0x3D, 0xDE, 0x00], true));
    assert!(!is_utf16_well_formed(&[0x3D, 0xD8], false));
    assert!(!is_utf16_well_formed(&[0x00, 0xDE, 0x3D, 0xD8], false));
    assert!(!is_utf16_well_formed(&[0x3D, 0xD8, 0x41, 0x00], false));
    assert!(!is_utf16_well_formed(&[0x41, 0x00, 0x42], false));
}

#[test]
fn representable_text_is_told_from_what_needs_substitutes() {
    assert!(is_representable(&[0xFF, 0xFE], Encoding::Utf8));
    assert!(is_representable("añ€😀".as_bytes(), Encoding::Utf8Bom));
    assert!(is_representable(b"abc", Encoding::Ascii));
    assert!(!is_representable("é".as_bytes(), Encoding::Ascii));
    assert!(is_representable("aéÿ".as_bytes(), Encoding::Latin1));
    assert!(!is_representable("a€".as_bytes(), Encoding::Latin1));
    assert!(is_representable("a€™".as_bytes(), Encoding::Windows1252));
    assert!(!is_representable("\u{80}".as_bytes(), Encoding::Windows1252));
    assert!(!is_representable("Ā".as_bytes(), Encoding::Windows1252));
    assert!(is_representable("a€😀".as_bytes(), Encoding::Utf16Le));
    assert!(!is_representable(&[b'a', 0xFF], Encoding::Utf16Le));
    assert!(!is_representable(&[b'a', 0xFF], Encoding::Latin1));
    assert!(is_representable("你好 😀".as_bytes(), Encoding::Gb18030));
    assert!(!is_representable(&[0xC4], Encoding::Gb18030));
    assert!(can_encode(0x7F, Encoding::Ascii));
    assert!(!can_encode(0x80, Encoding::Ascii));
    assert!(can_encode(0xFF, Encoding::Latin1));
    assert!(!can_encode(0x100, Encoding::Latin1));
    assert!(can_encode(0x2122, Encoding::Windows1252));
    assert!(!can_encode(0x2123, Encoding::Windows1252));
    assert!(can_encode(0x10FFFF, Encoding::Utf16Be));
}

#[test]
fn what_encodes_cleanly_decodes_to_itself() {
    let cases = [
        ("añ€😀\n", Encoding::Utf8),
        ("añ€😀\n", Encoding::Utf16Le),
        ("añ€😀\n", Encoding::Utf16Be),
        ("plain\r\n", Encoding::Ascii),
        ("aéÿ\u{80}", Encoding::Latin1),
        ("a€™Ÿ\u{81}é", Encoding::Windows1252),
        ("你好 😀", Encoding::Gb18030),
    ];
    for (text, encoding) in cases {
        assert!(is_representable(text.as_bytes(), encoding));
        let bytes = encode(text.as_bytes(), encoding);
        assert!(is_clean(&bytes, encoding));
        assert_eq!(decode(&bytes, encoding), text.as_bytes(), "{:?}", encoding);
    }
}

#[test]
fn byte_order_marks_are_measured() {
    assert_eq!(bom_len(&[0xEF, 0xBB, 0xBF, b'a'], Encoding::Utf8Bom), 3);
    assert_eq!(bom_len(&[0xEF, 0xBB, 0xBF, b'a'], Encoding::Utf8), 0);
    assert_eq!(bom_len(&[0xEF, 0xBB], Encoding::Utf8Bom), 0);
    assert_eq!(bom_len(&[0xFF, 0xFE], Encoding::Utf16Le), 2);
    assert_eq!(bom_len(&[0xFF, 0xFE], Encoding::Utf16Be), 0);
    assert_eq!(bom_len(&[0xFE, 0xFF, 0x00], Encoding::Utf16Be), 2);
    assert_eq!(bom_len(&[0xFE, 0xFF], Encoding::Latin1), 0);
}

#[test]
fn explicit_encoding_keeps_a_foreign_mark_as_text() {
    let file = [0xEF, 0xBB, 0xBF, b'a'];
    let buffer = TextBuffer::from_bytes_with(&file, Encoding::Utf8, 1 << 20);
    assert!(!buffer.has_bom());
    assert_eq!(text_of(&buffer), "\u{FEFF}a");
    assert_eq!(buffer.to_bytes(), file);
    let buffer = TextBuffer::from_bytes_with(&file, Encoding::Latin1, 1 << 20);
    assert_eq!(text_of(&buffer), "ï»¿a");
    assert_eq!(buffer.to_bytes(), file);
}
