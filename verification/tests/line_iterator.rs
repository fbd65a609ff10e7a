use fresh_buffer::line_iterator::LineIterator;
use fresh_buffer::text_buffer::TextBuffer;

const MIB: usize = 1 << 20;

fn small(content: &str) -> TextBuffer {
    TextBuffer::from_text(content.as_bytes().to_vec(), MIB)
}

fn forward(buffer: &TextBuffer) -> Vec<(usize, String)> {
    let mut it = LineIterator::new(buffer, 0, 80);
    let mut out = Vec::new();
    while let Some(line) = it.next() {
        out.push(line);
    }
    out
}

fn backward(buffer: &TextBuffer) -> Vec<(usize, String)> {
    let mut it = LineIterator::new(buffer, buffer.len(), 80);
    let mut out = Vec::new();
    while let Some(line) = it.prev() {
        out.push(line);
    }
    out
}

#[test]
fn prev_from_second_line_returns_first_line() {
    let buffer = small("Hello\nWorld!!\n");
    assert!(buffer.has_exact_lines());
    let mut it = LineIterator::new(&buffer, 7, 80);
    assert_eq!(it.current_position(), 6);
    assert_eq!(it.prev(), Some((0, "Hello\n".to_string())));
    assert_eq!(it.current_position(), 0);
    assert_eq!(it.prev(), None);
}

#[test]
fn large_buffer_positions_by_estimate() {
    let content = vec![b'a'; MIB + 1000];
    let buffer = TextBuffer::from_text(content, MIB);
    assert!(!buffer.has_exact_lines());
    let it = LineIterator::new(&buffer, 1000, 80);
    assert!(!it.is_exact());
    assert_eq!(it.current_position(), 960);
}

#[test]
fn large_buffer_prev_steps_by_estimate() {
    let mut content = Vec::new();
    for i in 0..300 {
        content.push(b'a' + (i % 26) as u8);
    }
    let buffer = TextBuffer::from_text(content.clone(), 100);
    assert!(!buffer.has_exact_lines());
    let mut it = LineIterator::new(&buffer, 170, 80);
    assert_eq!(it.current_position(), 160);
    let (at, text) = it.prev().unwrap();
    assert_eq!(at, 80);
    assert_eq!(text.as_bytes(), &content[80..160]);
    assert_eq!(it.current_position(), 80);
    let (at, text) = it.prev().unwrap();
    assert_eq!(at, 0);
    assert_eq!(text.as_bytes(), &content[0..80]);
    assert_eq!(it.prev(), None);
    assert_eq!(it.current_position(), 0);
}

#[test]
fn next_walks_lines_and_stops_at_end() {
    let buffer = small("ab\ncd\n\nlast");
    let mut it = LineIterator::new(&buffer, 0, 80);
    assert_eq!(it.next(), Some((0, "ab\n".to_string())));
    assert_eq!(it.current_position(), 3);
    assert_eq!(it.next(), Some((3, "cd\n".to_string())));
    assert_eq!(it.next(), Some((6, "\n".to_string())));
    assert_eq!(it.next(), Some((7, "last".to_string())));
    assert_eq!(it.current_position(), 11);
    assert_eq!(it.next(), None);
    assert_eq!(it.current_position(), 11);
}

#[test]
fn next_replaces_invalid_utf8() {
    let buffer = TextBuffer::from_text(vec![b'a', 0xFF, b'b', b'\n'], MIB);
    let mut it = LineIterator::new(&buffer, 0, 80);
    assert_eq!(it.next(), Some((0, "a\u{FFFD}b\n".to_string())));
}

#[test]
fn new_clamps_position_to_document() {
    let buffer = small("one\ntwo");
    let it = LineIterator::new(&buffer, 1000, 80);
    assert_eq!(it.current_position(), 4);
    let it = LineIterator::new(&buffer, 0, 80);
    assert_eq!(it.current_position(), 0);
}

#[test]
fn empty_document_has_no_lines() {
    let buffer = small("");
    let mut it = LineIterator::new(&buffer, 0, 80);
    assert_eq!(it.next(), None);
    assert_eq!(it.prev(), None);
    assert_eq!(it.current_position(), 0);
}

#[test]
fn forward_and_backward_agree_when_text_ends_with_newline() {
    let buffer = small("alpha\nbeta\n\ngamma\n");
    let mut lines = forward(&buffer);
    assert_eq!(lines.len(), 4);
    lines.reverse();
    assert_eq!(backward(&buffer), lines);
}

#[test]
fn lines_span_pieces_after_edits() {
    let mut buffer = small("Hello World\n");
    buffer.insert(5, b",\nbig").unwrap();
    buffer.delete(0, 1).unwrap();
    assert!(buffer.has_exact_lines());
    let lines = forward(&buffer);
    assert_eq!(
        lines,
        vec![(0, "ello,\n".to_string()), (6, "big World\n".to_string())]
    );
    let mut reversed = lines.clone();
    reversed.reverse();
    assert_eq!(backward(&buffer), reversed);
    let mut it = LineIterator::new(&buffer, 9, 80);
    assert_eq!(it.current_position(), 6);
    assert_eq!(it.prev(), Some((0, "ello,\n".to_string())));
}

#[test]
fn zero_estimate_is_fine_with_exact_lines() {
    let buffer = small("x\ny\n");
    let mut it = LineIterator::new(&buffer, 3, 0);
    assert_eq!(it.current_position(), 2);
    assert_eq!(it.prev(), Some((0, "x\n".to_string())));
}
