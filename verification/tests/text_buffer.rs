use fresh_buffer::buffer::{compute_line_starts, Buffer, BufferStore, SMALL_FILE_THRESHOLD};
use fresh_buffer::encoding::Encoding;
use fresh_buffer::piece_tree::{EditError, Piece, PieceTree, Position};
use fresh_buffer::text_buffer::TextBuffer;

fn small(content: &str) -> TextBuffer {
    TextBuffer::from_text(content.as_bytes().to_vec(), SMALL_FILE_THRESHOLD)
}

fn text_of(buffer: &TextBuffer) -> Vec<u8> {
    buffer.get_text_range(0, buffer.len()).unwrap()
}

fn pieces(tree: &PieceTree) -> Vec<Piece> {
    (0..tree.piece_count()).map(|i| tree.piece_at(i)).collect()
}

fn assert_partition(tree: &PieceTree) {
    let mut at = 0;
    for piece in pieces(tree) {
        assert!(piece.length > 0);
        assert_eq!(piece.doc_offset, at);
        at += piece.length;
    }
    assert_eq!(at, tree.len());
}

#[test]
fn line_starts_are_exact() {
    assert_eq!(compute_line_starts(b""), vec![0]);
    assert_eq!(compute_line_starts(b"Hello\nWorld!!\n"), vec![0, 6, 14]);
    assert_eq!(compute_line_starts(b"\n\nx"), vec![0, 1, 2]);
}

#[test]
fn buffer_store_indexes_small_buffers_only() {
    let mut store = BufferStore::new(8);
    assert_eq!(store.threshold(), 8);
    let small = store.load(b"a\nb\n".to_vec());
    let large = store.load(b"12345678".to_vec());
    let absent = store.reserve(100);
    assert_eq!((small, large, absent), (0, 1, 2));
    assert_eq!(store.count(), 3);
    assert_eq!(store.get(small).line_starts(), Some(&vec![0, 2, 4]));
    assert_eq!(store.get(large).line_starts(), None);
    assert_eq!(store.get_data(small), Some(&b"a\nb\n"[..]));
    assert_eq!(store.get_data(absent), None);
    assert_eq!(store.get(absent).len(), 100);
    assert!(!store.is_fully_indexed());
    assert_eq!(store.get(small).line_starts_upto(2), 2);
    assert_eq!(store.get(small).line_starts_upto(1), 1);
    assert_eq!(store.get(small).line_start_upto(3), 2);
    assert_eq!(store.get(small).nth_line_start(2), 4);
}

#[test]
fn add_buffer_grows_and_drops_its_index_at_the_threshold() {
    let mut store = BufferStore::new(8);
    assert_eq!(store.add_len(), 0);
    assert_eq!(store.append_to_add_buffer(b"ab\n"), (0, 0));
    assert_eq!(store.append_to_add_buffer(b"c\nd"), (0, 3));
    assert_eq!(store.add_len(), 6);
    assert_eq!(store.get_data(0), Some(&b"ab\nc\nd"[..]));
    assert_eq!(store.get(0).line_starts(), Some(&vec![0, 3, 5]));
    assert!(store.is_fully_indexed());
    assert_eq!(store.append_to_add_buffer(b"\n!"), (0, 6));
    assert_eq!(store.get(0).line_starts(), None);
    assert!(!store.is_fully_indexed());
}

#[test]
fn loaded_buffer_append_keeps_index_exact() {
    let buffer = Buffer::loaded(b"x\n".to_vec(), true);
    let buffer = buffer.append(b"yz\n\n", 100);
    assert_eq!(buffer.get_data(), Some(&b"x\nyz\n\n"[..]));
    assert_eq!(buffer.line_starts(), Some(&vec![0, 2, 5, 6]));
    let buffer = buffer.append(b"more", 8);
    assert_eq!(buffer.len(), 10);
    assert_eq!(buffer.line_starts(), None);
}

#[test]
fn tree_insert_splits_and_puts_new_piece_before_what_was_there() {
    let mut tree = PieceTree::from_buffer(0, 10);
    assert_eq!(tree.len(), 10);
    assert_eq!(tree.insert(4, 1, 0, 3), Ok(()));
    assert_eq!(
        pieces(&tree),
        vec![
            Piece { buffer_id: 0, buffer_offset: 0, length: 4, doc_offset: 0 },
            Piece { buffer_id: 1, buffer_offset: 0, length: 3, doc_offset: 4 },
            Piece { buffer_id: 0, buffer_offset: 4, length: 6, doc_offset: 7 },
        ]
    );
    // at a piece boundary the new piece comes first
    assert_eq!(tree.insert(4, 1, 3, 2), Ok(()));
    assert_eq!(tree.piece_at(1), Piece { buffer_id: 1, buffer_offset: 3, length: 2, doc_offset: 4 });
    assert_eq!(tree.piece_at(2), Piece { buffer_id: 1, buffer_offset: 0, length: 3, doc_offset: 6 });
    assert_eq!(tree.insert(15, 1, 5, 1), Ok(()));
    assert_eq!(tree.len(), 16);
    assert_eq!(tree.piece_count(), 5);
    assert_partition(&tree);
    assert_eq!(tree.insert(17, 1, 6, 1), Err(EditError::OutOfRange));
    assert_eq!(tree.insert(3, 1, 6, 0), Ok(()));
    assert_eq!(tree.piece_count(), 5);
}

#[test]
fn tree_delete_removes_and_truncates() {
    let mut tree = PieceTree::from_buffer(0, 10);
    tree.insert(4, 1, 0, 3).unwrap();
    assert_eq!(tree.delete(2, 9), Ok(()));
    assert_eq!(
        pieces(&tree),
        vec![
            Piece { buffer_id: 0, buffer_offset: 0, length: 2, doc_offset: 0 },
            Piece { buffer_id: 0, buffer_offset: 6, length: 4, doc_offset: 2 },
        ]
    );
    assert_eq!(tree.len(), 6);
    assert_eq!(tree.delete(3, 2), Err(EditError::OutOfRange));
    assert_eq!(tree.delete(0, 7), Err(EditError::OutOfRange));
    assert_eq!(tree.delete(6, 6), Ok(()));
    assert_eq!(tree.delete(0, 6), Ok(()));
    assert_eq!(tree.piece_count(), 0);
    assert_eq!(tree.len(), 0);
}

#[test]
fn tree_lookup_finds_the_owning_piece() {
    let mut tree = PieceTree::from_buffer(0, 10);
    tree.insert(4, 1, 0, 3).unwrap();
    assert_eq!(tree.lookup(0), Some((tree.piece_at(0), 0)));
    assert_eq!(tree.lookup(3), Some((tree.piece_at(0), 3)));
    assert_eq!(tree.lookup(4), Some((tree.piece_at(1), 0)));
    assert_eq!(tree.lookup(12), Some((tree.piece_at(2), 5)));
    assert_eq!(tree.lookup(13), None);
    assert_eq!(PieceTree::new().lookup(0), None);
    assert_eq!(tree.first_ending_after(3), 0);
    assert_eq!(tree.first_ending_after(4), 1);
    assert_eq!(tree.first_ending_after(13), 3);
}

#[test]
fn tree_range_pass_hands_out_overlapping_pieces_once() {
    let mut tree = PieceTree::from_buffer(0, 10);
    tree.insert(4, 1, 0, 3).unwrap();
    let all = pieces(&tree);
    let collect = |start: usize, end: usize| {
        let mut range = tree.iter_pieces_in_range(start, end);
        let mut out = Vec::new();
        while let Some(piece) = range.next_piece() {
            out.push(piece);
        }
        assert_eq!(range.next_piece(), None);
        out
    };
    assert_eq!(collect(0, 13), all);
    assert_eq!(collect(3, 5), all[0..2].to_vec());
    assert_eq!(collect(4, 7), all[1..2].to_vec());
    assert_eq!(collect(6, 8), all[1..3].to_vec());
    assert_eq!(collect(7, 100), all[2..3].to_vec());
    assert_eq!(collect(5, 5), vec![]);
    assert_eq!(collect(9, 2), vec![]);
    assert_eq!(collect(13, 20), vec![]);
}

#[test]
fn partition_holds_after_every_edit() {
    let mut buffer = small("0123456789");
    let edits: [(bool, usize, usize); 8] = [
        (true, 5, 3),
        (true, 0, 2),
        (false, 1, 4),
        (true, 12, 1),
        (false, 0, 1),
        (true, 6, 4),
        (false, 3, 13),
        (false, 0, 5),
    ];
    let mut model: Vec<u8> = b"0123456789".to_vec();
    for (insert, at, n) in edits {
        if insert {
            let text = vec![b'a' + n as u8; n];
            buffer.insert(at, &text).unwrap();
            model.splice(at..at, text);
        } else {
            buffer.delete(at, n).unwrap();
            model.drain(at..n);
        }
        assert_partition(buffer.piece_tree_ref());
        assert_eq!(buffer.len(), model.len());
        assert_eq!(text_of(&buffer), model);
    }
    assert_eq!(buffer.len(), 1);
}

#[test]
fn get_text_range_refuses_what_lies_beyond_the_end() {
    let mut buffer = small("Hello World");
    buffer.insert(5, b",").unwrap();
    assert_eq!(buffer.get_text_range(0, 12), Some(b"Hello, World".to_vec()));
    assert_eq!(buffer.get_text_range(3, 5), Some(b"lo, W".to_vec()));
    assert_eq!(buffer.get_text_range(12, 0), Some(vec![]));
    assert_eq!(buffer.get_text_range(12, 1), None);
    assert_eq!(buffer.get_text_range(13, 0), None);
    assert_eq!(buffer.get_text_range(1, usize::MAX), None);
}

#[test]
fn edits_out_of_range_are_refused_and_change_nothing() {
    let mut buffer = small("abc");
    assert_eq!(buffer.insert(4, b"x"), Err(EditError::OutOfRange));
    assert_eq!(buffer.delete(2, 1), Err(EditError::OutOfRange));
    assert_eq!(buffer.delete(0, 4), Err(EditError::OutOfRange));
    assert!(!buffer.is_modified());
    assert_eq!(text_of(&buffer), b"abc");
    assert_eq!(buffer.insert(3, b"d"), Ok(()));
    assert!(buffer.is_modified());
    assert_eq!(buffer.inserted_len(), 1);
    buffer.mark_saved();
    assert!(!buffer.is_modified());
    assert_eq!(buffer.delete(0, 1), Ok(()));
    assert!(buffer.is_modified());
    assert_eq!(text_of(&buffer), b"bcd");
}

#[test]
fn positions_and_offsets_are_inverse_with_exact_lines() {
    let mut buffer = small("Hello\nWorld!!\n");
    buffer.insert(6, b"big\n").unwrap();
    buffer.delete(0, 1).unwrap();
    // "ello\nbig\nWorld!!\n"
    assert!(buffer.has_exact_lines());
    assert_eq!(buffer.offset_to_position(0), Some(Position { line: 0, column: 0 }));
    assert_eq!(buffer.offset_to_position(4), Some(Position { line: 0, column: 4 }));
    assert_eq!(buffer.offset_to_position(5), Some(Position { line: 1, column: 0 }));
    assert_eq!(buffer.offset_to_position(11), Some(Position { line: 2, column: 2 }));
    assert_eq!(buffer.offset_to_position(17), Some(Position { line: 3, column: 0 }));
    assert_eq!(buffer.offset_to_position(18), None);
    for offset in 0..=buffer.len() {
        let pos = buffer.offset_to_position(offset).unwrap();
        assert_eq!(buffer.position_to_offset(pos), offset);
    }
    assert_eq!(buffer.position_to_offset(Position { line: 1, column: 100 }), 17);
    assert_eq!(buffer.position_to_offset(Position { line: 4, column: 0 }), 17);
    assert_eq!(buffer.position_to_offset(Position { line: usize::MAX, column: usize::MAX }), 17);
    assert_eq!(buffer.line_range(0), Some((0, Some(5))));
    assert_eq!(buffer.line_range(2), Some((9, Some(17))));
    assert_eq!(buffer.line_range(3), Some((17, None)));
    assert_eq!(buffer.line_range(4), None);
}

#[test]
fn positions_are_unavailable_without_line_index() {
    let buffer = TextBuffer::from_text(b"one\ntwo\nthree\n".to_vec(), 4);
    assert!(!buffer.has_exact_lines());
    assert_eq!(buffer.offset_to_position(5), None);
    assert_eq!(buffer.line_range(0), None);
    assert_eq!(buffer.position_to_offset(Position { line: 0, column: 3 }), 3);
    assert_eq!(buffer.position_to_offset(Position { line: 0, column: 30 }), 14);
    assert_eq!(buffer.position_to_offset(Position { line: 1, column: 0 }), 14);
}

#[test]
fn growing_past_the_threshold_ends_exact_lines() {
    let mut buffer = TextBuffer::from_text(b"ab\n".to_vec(), 8);
    assert!(buffer.has_exact_lines());
    buffer.insert(3, b"cd\nef").unwrap();
    assert!(buffer.has_exact_lines());
    assert_eq!(buffer.offset_to_position(7), Some(Position { line: 2, column: 1 }));
    buffer.insert(0, b"xyz").unwrap();
    assert!(!buffer.has_exact_lines());
    assert_eq!(buffer.offset_to_position(7), None);
}

#[test]
fn fresh_text_is_unmodified_utf8() {
    let buffer = small("text");
    assert!(!buffer.is_modified());
    assert_eq!(buffer.encoding(), Encoding::Utf8);
    assert!(!buffer.has_bom());
    assert!(!buffer.is_encoding_overridden());
    assert_eq!(buffer.buffers_ref().count(), 1);
    assert_eq!(buffer.to_bytes(), b"text");
}

#[test]
fn unloaded_buffer_can_be_filled_once() {
    let mut store = BufferStore::new(8);
    let id = store.reserve(3);
    assert!(!store.fill(id, b"toolong".to_vec()));
    assert!(!store.fill(id + 1, b"abc".to_vec()));
    assert_eq!(store.get_data(id), None);
    assert!(store.fill(id, b"a\nb".to_vec()));
    assert_eq!(store.get_data(id), Some(&b"a\nb"[..]));
    assert_eq!(store.get(id).line_starts(), Some(&vec![0, 2]));
    assert!(!store.fill(id, b"xyz".to_vec()));
    assert_eq!(store.get_data(id), Some(&b"a\nb"[..]));
}

#[test]
fn many_edits_keep_the_tree_in_step_with_a_plain_model() {
    let mut buffer = small("");
    let mut model: Vec<u8> = Vec::new();
    let mut state: u32 = 12345;
    let mut next = |bound: usize| {
        state = state.wrapping_mul(1103515245).wrapping_add(12345);
        ((state >> 8) as usize) % bound
    };
    for round in 0..400 {
        if model.is_empty() || next(3) != 0 {
            let at = next(model.len() + 1);
            let n = 1 + next(5);
            let text: Vec<u8> = (0..n)
                .map(|i| if (round + i) % 7 == 0 { b'\n' } else { b'a' + (round % 26) as u8 })
                .collect();
            assert_eq!(buffer.insert(at, &text), Ok(()));
            model.splice(at..at, text);
        } else {
            let start = next(model.len());
            let end = start + next(model.len() - start + 1).min(6);
            assert_eq!(buffer.delete(start, end), Ok(()));
            model.drain(start..end);
        }
        assert_partition(buffer.piece_tree_ref());
        assert_eq!(buffer.len(), model.len());
    }
    assert_eq!(text_of(&buffer), model);
    let newlines = model.iter().filter(|b| **b == b'\n').count();
    assert_eq!(
        buffer.offset_to_position(model.len()).map(|p| p.line),
        Some(newlines)
    );
    for offset in (0..=model.len()).step_by(17) {
        let pos = buffer.offset_to_position(offset).unwrap();
        assert_eq!(buffer.position_to_offset(pos), offset);
        let (piece, within) = match buffer.piece_tree_ref().lookup(offset) {
            Some(found) => found,
            None => {
                assert_eq!(offset, model.len());
                continue;
            }
        };
        assert_eq!(piece.doc_offset + within, offset);
        let data = buffer.buffers_ref().get_data(piece.buffer_id).unwrap();
        assert_eq!(data[piece.buffer_offset + within], model[offset]);
    }
}

#[test]
fn long_runs_of_edits_stay_fast() {
    let mut buffer = small("");
    for i in 0..20000 {
        buffer.insert(buffer.len(), if i % 10 == 9 { b"x\n" } else { b"xy" }).unwrap();
    }
    for i in 0..20000 {
        buffer.insert(i * 3, b"-").unwrap();
    }
    assert_eq!(buffer.len(), 60000);
    assert_eq!(buffer.piece_tree_ref().piece_count(), 40000);
    for offset in (0..60000).step_by(997) {
        let (piece, within) = buffer.piece_tree_ref().lookup(offset).unwrap();
        assert_eq!(piece.doc_offset + within, offset);
    }
    assert_eq!(buffer.get_text_range(0, 6), Some(b"-xy-xy".to_vec()));
    buffer.delete(10, 59990).unwrap();
    assert_eq!(buffer.len(), 20);
    assert_partition(buffer.piece_tree_ref());
}
