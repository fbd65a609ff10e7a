use fresh_buffer::line_iterator::LineIterator;
use fresh_buffer::text_buffer::TextBuffer;

/// A screen of the given size showing a document from its first line on,
/// with a gutter to the left of the text.
struct Screen {
    width: u16,
    height: u16,
    buffer: TextBuffer,
    selection: Option<(usize, usize)>,
}

const GUTTER: u16 = 8;

impl Screen {
    fn new(width: u16, height: u16, content: &str) -> Screen {
        Screen {
            width,
            height,
            buffer: TextBuffer::from_text(content.as_bytes().to_vec(), 1 << 20),
            selection: None,
        }
    }

    /// The document offset under a screen cell.
    fn offset_at(&self, col: u16, row: u16) -> usize {
        assert!(col < self.width && row < self.height);
        let mut lines = LineIterator::new(&self.buffer, 0, 80);
        let mut start = 0;
        let mut text = String::new();
        for _ in 0..=row {
            match lines.next() {
                Some((at, line)) => {
                    start = at;
                    text = line;
                }
                None => return self.buffer.len(),
            }
        }
        let visible = text.trim_end_matches('\n').len();
        start + usize::from(col.saturating_sub(GUTTER)).min(visible)
    }

    /// Three clicks on a cell select the line under it, newline included.
    fn triple_click(&mut self, col: u16, row: u16) {
        let offset = self.offset_at(col, row);
        let mut lines = LineIterator::new(&self.buffer, offset, 80);
        let start = lines.current_position();
        let end = match lines.next() {
            Some((_, line)) => start + line.len(),
            None => start,
        };
        self.selection = Some((start, end));
    }

    /// Two clicks on a cell select the word under it.
    fn double_click(&mut self, col: u16, row: u16) {
        let offset = self.offset_at(col, row);
        let all = self.buffer.get_text_range(0, self.buffer.len()).unwrap();
        let is_word = |b: u8| b.is_ascii_alphanumeric() || b == b'_';
        let mut start = offset;
        while start > 0 && is_word(all[start - 1]) {
            start -= 1;
        }
        let mut end = offset;
        while end < all.len() && is_word(all[end]) {
            end += 1;
        }
        self.selection = Some((start, end));
    }

    fn has_selection(&self) -> bool {
        matches!(self.selection, Some((start, end)) if start < end)
    }

    fn get_selected_text(&self) -> String {
        match self.selection {
            Some((start, end)) => {
                let bytes = self.buffer.get_text_range(start, end - start).unwrap();
                String::from_utf8_lossy(&bytes).into_owned()
            }
            None => String::new(),
        }
    }
}

#[test]
fn test_triple_click_selects_line() {
    let content = "First line here\nSecond line here\nThird line here\n";
    let mut screen = Screen::new(80, 24, content);
    let row = 0;

    screen.triple_click(12, row);

    assert!(screen.has_selection(), "Triple-click should create a selection");
    let selected = screen.get_selected_text();
    assert!(
        selected.contains("First line here"),
        "Triple-click should select the entire line. Got: '{}'",
        selected
    );
    assert_eq!(selected, "First line here\n");
}

#[test]
fn test_triple_click_middle_line() {
    let content = "Line one\nLine two\nLine three\n";
    let mut screen = Screen::new(80, 24, content);
    let row = 1;

    screen.triple_click(12, row);

    assert!(screen.has_selection(), "Triple-click should create a selection");
    let selected = screen.get_selected_text();
    assert!(
        selected.contains("Line two"),
        "Triple-click on second line should select it. Got: '{}'",
        selected
    );
    assert_eq!(selected, "Line two\n");
}

#[test]
fn test_double_click_still_selects_word() {
    let content = "hello world test\n";
    let mut screen = Screen::new(80, 24, content);
    let row = 0;

    screen.double_click(12, row);

    assert!(screen.has_selection(), "Double-click should create a selection");
    let selected = screen.get_selected_text();
    assert!(
        !selected.contains("hello world test"),
        "Double-click should select a word, not the whole line. Got: '{}'",
        selected
    );
    assert_eq!(selected, "hello");
}
