//! A cursor that hands out the lines of a document, forward and backward.
//!
//! Where the document knows its line starts exactly, the cursor moves from
//! line start to line start. Where it does not, as for large files, the
//! cursor moves backward in steps of an estimated line length, and the
//! "lines" it hands out on the way back are stretches of that length.
//! Moving forward always stops directly after the next newline byte.

use crate::lines::{
    lemma_line_end_of_bounds, lemma_line_end_of_is, lemma_line_end_of_is_len,
    lemma_line_start_is_nth, lemma_line_start_of_bounds, lemma_newlines_before_bounds,
    lemma_newlines_before_monotone, lemma_nth_line_start_bounds, lemma_nth_line_start_exact,
    line_end_of, line_start_of, newlines_before, nth_line_start, same_window, NEWLINE,
};
use crate::piece_tree::{
    lemma_contained_piece, lemma_tiles_drop_first, lemma_tiles_index, tiles, Position,
};
use crate::unicode::{decode_lossy, lossy_text};
use crate::text_buffer::TextBuffer;
use vstd::prelude::*;
use vstd::utf8::{decode_utf8, valid_utf8};

verus! {

/// The line length, in bytes, to assume where nothing better is known.
pub const DEFAULT_ESTIMATED_LINE_LENGTH: usize = 80;

/// Where a cursor made at `byte_pos` stands. The position is first brought
/// back into the document. With exact lines the cursor stands at the start
/// of the line that holds the position; without, at the last multiple of
/// the estimated line length that is not above it.
pub open spec fn initial_position(doc: Seq<u8>, exact: bool, byte_pos: int, estimate: int) -> int {
    let p = if byte_pos <= doc.len() {
        byte_pos
    } else {
        doc.len() as int
    };
    if p <= 0 {
        0
    } else if exact {
        line_start_of(doc, p)
    } else {
        (p / estimate) * estimate
    }
}

/// The line that a step forward from `pos` hands out, as the offsets where
/// it begins and ends: it runs up to and including the next newline byte,
/// or to the end of the document. There is none at the end of the document.
pub open spec fn next_line(doc: Seq<u8>, pos: int) -> Option<(int, int)> {
    if pos >= doc.len() {
        None
    } else {
        Some((pos, line_end_of(doc, pos)))
    }
}

/// The line that a step backward from `pos` hands out, as the offsets
/// where it begins and ends. With exact lines it is the line before the
/// one that holds `pos`. Without, it is the stretch of the estimated
/// length that ends at the last multiple of that length not above `pos`.
/// There is none when `pos` lies in the first line or stretch.
pub open spec fn prev_line(doc: Seq<u8>, exact: bool, estimate: int, pos: int) -> Option<
    (int, int),
> {
    if pos <= 0 {
        None
    } else if exact {
        let line = newlines_before(doc, pos);
        if line == 0 {
            None
        } else {
            Some((nth_line_start(doc, (line - 1) as nat), nth_line_start(doc, line)))
        }
    } else {
        let stretch = pos / estimate;
        if stretch == 0 {
            None
        } else {
            Some(((stretch - 1) * estimate, stretch * estimate))
        }
    }
}

/// What a step that hands out the line `line` of `doc` returns: nothing
/// where there is no line, else the offset where the line begins and its
/// bytes as text, which is their decoding where they are valid UTF-8.
pub open spec fn hands_out(
    doc: Seq<u8>,
    line: Option<(int, int)>,
    r: Option<(usize, String)>,
) -> bool {
    match line {
        None => r is None,
        Some((start, end)) => match r {
            Some((at, text)) => {
                &&& at == start
                &&& text@ == lossy_text(doc.subrange(start, end))
                &&& valid_utf8(doc.subrange(start, end)) ==> text@ == decode_utf8(
                    doc.subrange(start, end),
                )
            },
            None => false,
        },
    }
}

/// What stepping forward from `pos` until the end of the document hands
/// out: for each line, where it begins and its bytes.
pub open spec fn lines_forward(doc: Seq<u8>, pos: int) -> Seq<(int, Seq<u8>)>
    decreases doc.len() - pos,
    via lines_forward_decreases
{
    match next_line(doc, pos) {
        None => Seq::empty(),
        Some((start, end)) => seq![(start, doc.subrange(start, end))] + lines_forward(doc, end),
    }
}

#[via_fn]
proof fn lines_forward_decreases(doc: Seq<u8>, pos: int) {
    if pos < doc.len() {
        if pos < 0 {
            lemma_line_end_of_bounds(doc, 0);
        } else {
            lemma_line_end_of_bounds(doc, pos);
        }
    }
}

/// What stepping backward from `pos` until the start of the document hands
/// out where lines are known exactly: for each line, where it begins and
/// its bytes.
pub open spec fn lines_backward(doc: Seq<u8>, pos: int) -> Seq<(int, Seq<u8>)>
    decreases pos,
    via lines_backward_decreases
{
    match prev_line(doc, true, 1, pos) {
        None => Seq::empty(),
        Some((start, end)) => seq![(start, doc.subrange(start, end))] + lines_backward(doc, start),
    }
}

#[via_fn]
proof fn lines_backward_decreases(doc: Seq<u8>, pos: int) {
    let line = newlines_before(doc, pos);
    if pos > 0 && line > 0 {
        lemma_nth_line_start_bounds(doc, (line - 1) as nat);
        if pos <= doc.len() {
            lemma_newlines_before_monotone(doc, pos, doc.len() as int);
            lemma_nth_line_start_exact(doc, line);
            lemma_line_start_is_nth(doc, pos);
            lemma_line_start_of_bounds(doc, pos);
        }
    }
}

/// Line number `k` of `doc`: where it begins and its bytes.
pub open spec fn line_span(doc: Seq<u8>, k: int) -> (int, Seq<u8>) {
    (
        nth_line_start(doc, k as nat),
        doc.subrange(nth_line_start(doc, k as nat), nth_line_start(doc, (k + 1) as nat)),
    )
}

/// Stepping forward from the start of line `i` hands out the lines from
/// `i` on, up to the last one that a newline byte ends.
pub proof fn lemma_lines_forward(doc: Seq<u8>, i: int)
    requires
        0 <= i <= newlines_before(doc, doc.len() as int),
        doc.len() == 0 || doc.last() == NEWLINE,
    ensures
        lines_forward(doc, nth_line_start(doc, i as nat)) == Seq::new(
            (newlines_before(doc, doc.len() as int) - i) as nat,
            |k: int| line_span(doc, i + k),
        ),
    decreases newlines_before(doc, doc.len() as int) - i,
{
    let n = newlines_before(doc, doc.len() as int) as int;
    let pos = nth_line_start(doc, i as nat);
    let expect = Seq::new((n - i) as nat, |k: int| line_span(doc, i + k));
    if i == n {
        lemma_line_start_is_nth(doc, doc.len() as int);
        assert(lines_forward(doc, pos) =~= expect);
    } else {
        lemma_nth_line_start_exact(doc, (i + 1) as nat);
        lemma_lines_forward(doc, i + 1);
        let rest = Seq::new((n - i - 1) as nat, |k: int| line_span(doc, i + 1 + k));
        assert(seq![line_span(doc, i)] + rest =~= expect);
    }
}

/// Stepping backward from the start of line `j` hands out the lines
/// before `j`, the nearest first.
pub proof fn lemma_lines_backward(doc: Seq<u8>, j: int)
    requires
        0 <= j <= newlines_before(doc, doc.len() as int),
    ensures
        lines_backward(doc, nth_line_start(doc, j as nat)) == Seq::new(
            j as nat,
            |k: int| line_span(doc, j - 1 - k),
        ),
    decreases j,
{
    let expect = Seq::new(j as nat, |k: int| line_span(doc, j - 1 - k));
    if j == 0 {
        assert(lines_backward(doc, 0) =~= expect);
    } else {
        lemma_nth_line_start_exact(doc, j as nat);
        lemma_nth_line_start_exact(doc, (j - 1) as nat);
        lemma_lines_backward(doc, j - 1);
        let rest = Seq::new((j - 1) as nat, |k: int| line_span(doc, j - 2 - k));
        assert(seq![line_span(doc, j - 1)] + rest =~= expect);
    }
}

/// In a document that is empty or ends with a newline byte, and whose
/// lines are known exactly, a cursor made at the end stands at the end,
/// and stepping backward from there hands out the same lines as stepping
/// forward from offset 0, in reverse order.
pub proof fn lemma_forward_backward_symmetry(doc: Seq<u8>, estimate: int)
    requires
        doc.len() == 0 || doc.last() == NEWLINE,
    ensures
        initial_position(doc, true, doc.len() as int, estimate) == doc.len(),
        lines_backward(doc, doc.len() as int).len() == lines_forward(doc, 0).len(),
        forall|k: int|
            0 <= k < lines_forward(doc, 0).len() ==> #[trigger] lines_backward(
                doc,
                doc.len() as int,
            )[k] == lines_forward(doc, 0)[lines_forward(doc, 0).len() - 1 - k],
{
    let n = newlines_before(doc, doc.len() as int) as int;
    lemma_line_start_is_nth(doc, doc.len() as int);
    lemma_lines_forward(doc, 0);
    lemma_lines_backward(doc, n);
}

/// A cursor over the lines of a document.
pub struct LineIterator<'a> {
    buffer: &'a TextBuffer,
    /// The offset at which the current line begins.
    current_pos: usize,
    buffer_len: usize,
    /// The assumed line length in bytes, used where lines are not known
    /// exactly.
    estimated_line_length: usize,
}

impl<'a> LineIterator<'a> {
    /// The document that the cursor moves over.
    pub closed spec fn buffer(&self) -> &'a TextBuffer {
        self.buffer
    }

    /// The offset at which the cursor stands.
    pub closed spec fn spec_position(&self) -> usize {
        self.current_pos
    }

    /// The assumed line length.
    pub closed spec fn spec_estimate(&self) -> usize {
        self.estimated_line_length
    }

    /// The length of the document as the cursor recorded it.
    pub closed spec fn spec_len(&self) -> usize {
        self.buffer_len
    }

    /// The cursor stands inside a well-formed document whose length it
    /// knows, and has a usable line length where it needs one.
    pub open spec fn wf(&self) -> bool {
        &&& self.buffer().wf()
        &&& self.spec_len() == self.buffer()@.len()
        &&& self.spec_position() <= self.spec_len()
        &&& (self.spec_estimate() > 0 || self.buffer().spec_exact_lines())
    }

    /// A cursor over `buffer` that stands at the line which holds
    /// `byte_pos`, or at the estimated start of that line where lines are
    /// not known exactly.
    pub fn new(buffer: &'a TextBuffer, byte_pos: usize, estimated_line_length: usize) -> (it: Self)
        requires
            buffer.wf(),
            estimated_line_length > 0 || buffer.spec_exact_lines(),
        ensures
            it.wf(),
            it.buffer() == buffer,
            it.spec_estimate() == estimated_line_length,
            it.spec_position() == initial_position(
                buffer@,
                buffer.spec_exact_lines(),
                byte_pos as int,
                estimated_line_length as int,
            ),
    {
        let buffer_len = buffer.len();
        let byte_pos = if byte_pos < buffer_len {
            byte_pos
        } else {
            buffer_len
        };
        let line_start = if byte_pos == 0 {
            0
        } else {
            match buffer.offset_to_position(byte_pos) {
                Some(pos) => {
                    proof {
                        lemma_newlines_before_monotone(buffer@, byte_pos as int, buffer_len as int);
                        lemma_newlines_before_bounds(buffer@, byte_pos as int);
                        lemma_line_start_is_nth(buffer@, byte_pos as int);
                        lemma_line_start_of_bounds(buffer@, byte_pos as int);
                    }
                    buffer.position_to_offset(Position { line: pos.line, column: 0 })
                },
                None => {
                    // no exact lines: take the last multiple of the estimate
                    proof {
                        assert((byte_pos / estimated_line_length) * estimated_line_length
                            <= byte_pos) by (nonlinear_arith)
                            requires
                                estimated_line_length > 0,
                        ;
                    }
                    let estimated_line = byte_pos / estimated_line_length;
                    let estimated_start = estimated_line * estimated_line_length;
                    if estimated_start < byte_pos {
                        estimated_start
                    } else {
                        byte_pos
                    }
                },
            }
        };
        LineIterator { buffer, current_pos: line_start, buffer_len, estimated_line_length }
    }

    /// Whether the cursor moves by exact lines. If not, what `prev` hands
    /// out are stretches of the estimated length, which need not begin or
    /// end at a line boundary.
    pub fn is_exact(&self) -> (r: bool)
        ensures
            r == self.buffer().spec_exact_lines(),
    {
        self.buffer.has_exact_lines()
    }

    /// Hands out the line at which the cursor stands and moves the cursor
    /// to where that line ends. `None`, with the cursor unmoved, at the end
    /// of the document.
    pub fn next(&mut self) -> (r: Option<(usize, String)>)
        requires
            old(self).wf(),
        ensures
            final(self).wf(),
            final(self).buffer() == old(self).buffer(),
            final(self).spec_estimate() == old(self).spec_estimate(),
            hands_out(
                old(self).buffer()@,
                next_line(old(self).buffer()@, old(self).spec_position() as int),
                r,
            ),
            final(self).spec_position() == match next_line(
                old(self).buffer()@,
                old(self).spec_position() as int,
            ) {
                Some((start, end)) => end,
                None => old(self).spec_position() as int,
            },
    {
        if self.current_pos >= self.buffer_len {
            return None;
        }
        let line_start = self.current_pos;
        let end = self.buffer_len;
        let ghost doc = self.buffer@;
        let tree = self.buffer.piece_tree_ref();
        let store = self.buffer.buffers_ref();
        proof {
            self.buffer.lemma_len();
        }
        let mut pieces = tree.iter_pieces_in_range(line_start, end);
        let mut line_bytes: Vec<u8> = Vec::new();
        let mut found_newline = false;
        let mut reached: usize = line_start;
        let ghost mut lo: int = pieces.remaining()[0].doc_offset as int;
        let ghost hi: int = pieces.remaining().last().spec_end();
        while !found_newline && reached < end
            invariant
                self.buffer().wf(),
                pieces.wf(),
                *tree == self.buffer().tree(),
                *store == self.buffer().store(),
                doc == self.buffer()@,
                doc.len() == end,
                line_start <= reached <= end,
                line_bytes@ == doc.subrange(line_start as int, reached as int),
                found_newline ==> line_start < reached && doc[reached - 1] == NEWLINE,
                forall|j: int|
                    line_start <= j < reached - (if found_newline {
                        1int
                    } else {
                        0int
                    }) ==> doc[j] != NEWLINE,
                forall|i: int|
                    0 <= i < pieces.remaining().len() ==> tree@.contains(
                        #[trigger] pieces.remaining()[i],
                    ),
                !found_newline && reached < end ==> pieces.remaining().len() > 0 && tiles(
                    pieces.remaining(),
                    lo,
                    hi,
                ) && lo <= reached < pieces.remaining()[0].spec_end() && end <= hi,
            decreases end - reached,
        {
            let ghost rem = pieces.remaining();
            let piece = match pieces.next_piece() {
                Some(piece) => piece,
                None => {
                    return None;
                },
            };
            proof {
                assert(piece == rem[0]);
                assert(tree@.contains(piece));
                lemma_contained_piece(tree@, store@, 0, tree.spec_len() as int, piece);
                lemma_tiles_index(rem, lo, hi);
                lemma_tiles_drop_first(rem, lo, hi);
                assert forall|i: int| 0 <= i < pieces.remaining().len() implies tree@.contains(
                    #[trigger] pieces.remaining()[i],
                ) by {
                    assert(pieces.remaining()[i] == rem[i + 1]);
                }
                if rem.len() == 1 {
                    assert(rem[0] == rem.last());
                } else {
                    assert(pieces.remaining()[0] == rem[1]);
                    lemma_tiles_index(pieces.remaining(), piece.spec_end(), hi);
                }
            }
            let buffer_data = match store.get_data(piece.buffer_id) {
                Some(data) => data,
                None => {
                    return None;
                },
            };
            // where to start reading within this piece
            let offset_in_piece = reached - piece.doc_offset;
            let mut at: usize = piece.buffer_offset + offset_in_piece;
            let piece_end = piece.doc_offset + piece.length;
            while !found_newline && reached < piece_end
                invariant
                    line_start <= reached <= piece_end <= end,
                    piece_end == piece.spec_end(),
                    piece.doc_offset <= reached,
                    doc.len() == end,
                    at == piece.buffer_offset + (reached - piece.doc_offset),
                    piece.buffer_offset + piece.length <= buffer_data@.len(),
                    same_window(
                        doc,
                        piece.doc_offset as int,
                        buffer_data@,
                        piece.buffer_offset as int,
                        piece.length as int,
                    ),
                    line_bytes@ == doc.subrange(line_start as int, reached as int),
                    found_newline ==> line_start < reached && doc[reached - 1] == NEWLINE,
                    forall|j: int|
                        line_start <= j < reached - (if found_newline {
                            1int
                        } else {
                            0int
                        }) ==> doc[j] != NEWLINE,
                decreases piece_end - reached + (if found_newline {
                    0int
                } else {
                    1int
                }),
            {
                let byte = buffer_data[at];
                line_bytes.push(byte);
                proof {
                    assert(doc[reached as int] == buffer_data@[reached - piece.doc_offset
                        + piece.buffer_offset]);
                    assert(line_bytes@ =~= doc.subrange(line_start as int, reached + 1));
                }
                at += 1;
                reached += 1;
                if byte == NEWLINE {
                    found_newline = true;
                }
            }
            proof {
                lo = piece.spec_end();
            }
        }
        proof {
            if found_newline {
                lemma_line_end_of_is(doc, line_start as int, reached as int);
            } else {
                lemma_line_end_of_is_len(doc, line_start as int);
            }
        }
        // move to the next line
        self.current_pos = reached;
        let line_string = decode_lossy(line_bytes.as_slice());
        Some((line_start, line_string))
    }

    /// Moves the cursor back by one line, or by one stretch of the
    /// estimated length where lines are not known exactly, and hands out
    /// what it then stands at. `None`, with the cursor unmoved, when the
    /// cursor stands in the first line or stretch of the document.
    pub fn prev(&mut self) -> (r: Option<(usize, String)>)
        requires
            old(self).wf(),
        ensures
            final(self).wf(),
            final(self).buffer() == old(self).buffer(),
            final(self).spec_estimate() == old(self).spec_estimate(),
            hands_out(
                old(self).buffer()@,
                prev_line(
                    old(self).buffer()@,
                    old(self).buffer().spec_exact_lines(),
                    old(self).spec_estimate() as int,
                    old(self).spec_position() as int,
                ),
                r,
            ),
            final(self).spec_position() == match prev_line(
                old(self).buffer()@,
                old(self).buffer().spec_exact_lines(),
                old(self).spec_estimate() as int,
                old(self).spec_position() as int,
            ) {
                Some((start, end)) => start,
                None => old(self).spec_position() as int,
            },
    {
        if self.current_pos == 0 {
            return None;
        }
        let ghost doc = self.buffer@;
        let current_line = match self.buffer.offset_to_position(self.current_pos) {
            Some(pos) => pos.line,
            None => {
                // no exact lines: step back by the estimated line length
                let estimated_current_line = self.current_pos / self.estimated_line_length;
                if estimated_current_line == 0 {
                    return None;
                }
                let estimated_prev_line = estimated_current_line - 1;
                proof {
                    let pos = self.current_pos as int;
                    let est = self.estimated_line_length as int;
                    assert((pos / est) * est <= pos && (pos / est - 1) * est + est == (pos / est)
                        * est && 0 <= (pos / est - 1) * est) by (nonlinear_arith)
                        requires
                            est > 0,
                            pos / est >= 1,
                    ;
                }
                let estimated_prev_start = estimated_prev_line * self.estimated_line_length;
                let bytes = match self.buffer.get_text_range(
                    estimated_prev_start,
                    self.estimated_line_length,
                ) {
                    Some(bytes) => bytes,
                    None => {
                        return None;
                    },
                };
                self.current_pos = estimated_prev_start;
                let line_string = decode_lossy(bytes.as_slice());
                return Some((estimated_prev_start, line_string));
            },
        };
        proof {
            lemma_newlines_before_monotone(doc, self.current_pos as int, doc.len() as int);
            lemma_newlines_before_bounds(doc, self.current_pos as int);
        }
        if current_line == 0 {
            return None;
        }
        let prev_line = current_line - 1;
        proof {
            lemma_nth_line_start_exact(doc, current_line as nat);
        }
        let (line_start, line_end) = match self.buffer.line_range(prev_line) {
            Some(range) => range,
            None => {
                return None;
            },
        };
        let line_len = match line_end {
            Some(end) => end - line_start,
            None => self.buffer_len - line_start,
        };
        let line_bytes = match self.buffer.get_text_range(line_start, line_len) {
            Some(bytes) => bytes,
            None => {
                return None;
            },
        };
        self.current_pos = line_start;
        let line_string = decode_lossy(line_bytes.as_slice());
        Some((line_start, line_string))
    }

    /// The offset at which the cursor stands: where the current line
    /// begins.
    pub fn current_position(&self) -> (pos: usize)
        ensures
            pos == self.spec_position(),
    {
        self.current_pos
    }
}

} // verus!
