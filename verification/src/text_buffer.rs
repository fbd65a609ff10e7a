//! The document as editing commands see it: bytes that can be read by
//! range, addressed by line and column, and changed by insert and delete.

use crate::buffer::{Buffer, BufferStore, SMALL_FILE_THRESHOLD};
use crate::encoding::{
    body_of, bom_len, bom_of, decode, decoded, detect, detected, encode, file_bytes, has_bom,
    Encoding,
};
use crate::lines::{
    lemma_line_start_is_nth, lemma_line_start_of_bounds, lemma_newlines_before_bounds,
    lemma_newlines_before_monotone, line_count, line_start_of, newlines_before, nth_line_start,
};
use crate::piece_tree::{
    all_fit, doc_bytes, lemma_contained_piece, lemma_deleted, lemma_doc_bytes_len, lemma_inserted,
    lemma_tiles_drop_first, lemma_tiles_index, tiles, EditError, Piece, PieceTree, Position,
};
use vstd::prelude::*;

verus! {

/// The line and column of offset `o` in `doc`.
pub open spec fn position_of(doc: Seq<u8>, o: int) -> Position {
    Position {
        line: newlines_before(doc, o) as usize,
        column: (o - line_start_of(doc, o)) as usize,
    }
}

/// The offset that a position stands for in `doc`. With exact line
/// knowledge it is the start of the line plus the column, and the end of
/// the document for a line that the document does not have. Without it
/// only line 0 is known to begin at offset 0, and every other line counts
/// as beyond the document. The result never lies beyond the end of the
/// document.
pub open spec fn offset_of(doc: Seq<u8>, exact: bool, pos: Position) -> int {
    if exact && pos.line < line_count(doc) {
        if nth_line_start(doc, pos.line as nat) + pos.column <= doc.len() {
            nth_line_start(doc, pos.line as nat) + pos.column
        } else {
            doc.len() as int
        }
    } else if !exact && pos.line == 0 && pos.column <= doc.len() {
        pos.column as int
    } else {
        doc.len() as int
    }
}

/// Turning an offset into a position and the position back into an offset
/// gives the offset again, where lines are known exactly.
pub proof fn lemma_position_round_trip(doc: Seq<u8>, o: int)
    requires
        0 <= o <= doc.len() <= usize::MAX,
    ensures
        offset_of(doc, true, position_of(doc, o)) == o,
{
    lemma_newlines_before_bounds(doc, o);
    lemma_newlines_before_monotone(doc, o, doc.len() as int);
    lemma_line_start_of_bounds(doc, o);
    lemma_line_start_is_nth(doc, o);
}

/// Every loaded buffer of `old` is still loaded in `new` and begins with
/// the bytes it had.
pub open spec fn extends(new: Seq<Buffer>, old: Seq<Buffer>) -> bool {
    &&& old.len() <= new.len()
    &&& forall|i: int|
        0 <= i < old.len() && (#[trigger] old[i]).is_loaded() ==> new[i].is_loaded()
            && old[i].bytes().len() <= new[i].bytes().len() && new[i].bytes().subrange(
            0,
            old[i].bytes().len() as int,
        ) == old[i].bytes()
}

/// Pieces keep their bytes when buffers only grow at the end.
pub proof fn lemma_doc_bytes_stable(ps: Seq<Piece>, old: Seq<Buffer>, new: Seq<Buffer>)
    requires
        all_fit(ps, old),
        extends(new, old),
    ensures
        all_fit(ps, new),
        doc_bytes(ps, new) == doc_bytes(ps, old),
    decreases ps.len(),
{
    if ps.len() > 0 {
        let p = ps.last();
        let rest = ps.drop_last();
        assert(p.fits(old));
        assert(old[p.buffer_id as int].is_loaded());
        assert forall|i: int| 0 <= i < rest.len() implies (#[trigger] rest[i]).fits(old) by {
            assert(rest[i] == ps[i]);
        }
        lemma_doc_bytes_stable(rest, old, new);
        let was = old[p.buffer_id as int].bytes();
        let now = new[p.buffer_id as int].bytes();
        assert(now.subrange(0, was.len() as int) == was);
        assert(p.bytes(new) =~= p.bytes(old)) by {
            assert forall|j: int| 0 <= j < p.length implies p.bytes(new)[j] == p.bytes(old)[j] by {
                assert(now.subrange(0, was.len() as int)[p.buffer_offset + j] == now[p.buffer_offset
                    + j]);
            }
        }
        assert forall|i: int| 0 <= i < ps.len() implies (#[trigger] ps[i]).fits(new) by {
            assert(ps[i].fits(old));
            assert(old[ps[i].buffer_id as int].is_loaded());
        }
    }
}

/// A document: its buffers, its pieces, and what is known of its file.
pub struct TextBuffer {
    buffers: BufferStore,
    tree: PieceTree,
    modified: bool,
    encoding: Encoding,
    bom: bool,
    overridden: bool,
}

impl View for TextBuffer {
    type V = Seq<u8>;

    /// The bytes of the document, which are its text in UTF-8.
    open spec fn view(&self) -> Seq<u8> {
        doc_bytes(self.tree()@, self.store()@)
    }
}

impl TextBuffer {
    /// The buffers of the document.
    pub closed spec fn store(&self) -> BufferStore {
        self.buffers
    }

    /// The pieces of the document.
    pub closed spec fn tree(&self) -> PieceTree {
        self.tree
    }

    /// Whether the document was changed since it was loaded or saved.
    pub closed spec fn spec_modified(&self) -> bool {
        self.modified
    }

    /// The encoding in which the document is written out.
    pub closed spec fn spec_encoding(&self) -> Encoding {
        self.encoding
    }

    /// Whether the document is written out with a byte-order mark.
    pub closed spec fn spec_has_bom(&self) -> bool {
        self.bom
    }

    /// Whether the encoding was chosen by a request to change it, rather
    /// than found when the document was loaded.
    pub closed spec fn spec_encoding_overridden(&self) -> bool {
        self.overridden
    }

    /// The pieces tile the document, each lies inside a loaded buffer, and
    /// the store is in order.
    pub open spec fn wf(&self) -> bool {
        &&& self.tree().wf()
        &&& self.store().wf()
        &&& self.store()@.len() > 0
        &&& all_fit(self.tree()@, self.store()@)
    }

    /// Whether line and column addresses are exact: every buffer of the
    /// document carries a line index.
    pub open spec fn spec_exact_lines(&self) -> bool {
        self.store().fully_indexed()
    }

    /// How many bytes of inserted text the document has collected.
    pub open spec fn spec_inserted_len(&self) -> nat {
        self.store().add_bytes().len()
    }

    /// The document holds as many bytes as its pieces say.
    pub proof fn lemma_len(&self)
        requires
            self.wf(),
        ensures
            self@.len() == self.tree().spec_len(),
    {
        lemma_doc_bytes_len(self.tree()@, self.store()@, 0, self.tree().spec_len() as int);
    }

    /// The document whose text is `text`, unmodified, to be written out as
    /// UTF-8 without a byte-order mark. Its buffers carry a line index
    /// while they are shorter than `threshold` bytes.
    pub fn from_text(text: Vec<u8>, threshold: usize) -> (b: TextBuffer)
        ensures
            b.wf(),
            b@ == text@,
            !b.spec_modified(),
            b.spec_encoding() == Encoding::Utf8,
            !b.spec_has_bom(),
            !b.spec_encoding_overridden(),
            b.spec_exact_lines() <==> text@.len() < threshold,
            b.spec_inserted_len() == 0,
            b.store().spec_threshold() == threshold,
    {
        let length = text.len();
        let mut buffers = BufferStore::new(threshold);
        let id = buffers.load(text);
        let tree = PieceTree::from_buffer(id, length);
        proof {
            let piece = Piece { buffer_id: id, buffer_offset: 0, length, doc_offset: 0 };
            assert(piece.bytes(buffers@) =~= text@);
            if length > 0 {
                assert(tree@.last() == piece);
                assert(tree@.drop_last() =~= Seq::<Piece>::empty());
                assert(doc_bytes(tree@.drop_last(), buffers@) =~= Seq::<u8>::empty());
                assert(doc_bytes(tree@, buffers@) =~= Seq::<u8>::empty() + piece.bytes(buffers@));
            } else {
                assert(doc_bytes(tree@, buffers@) =~= text@);
            }
            assert(buffers@[0].has_line_index() <==> text@.len() < threshold);
        }
        TextBuffer {
            buffers,
            tree,
            modified: false,
            encoding: Encoding::Utf8,
            bom: false,
            overridden: false,
        }
    }

    /// Loads a file whose bytes are `bytes` as text in encoding `d`. The
    /// byte-order mark of `d`, if the bytes begin with it, is kept out of
    /// the text and remembered; the rest is decoded. Buffers carry a line
    /// index while they are shorter than `threshold` bytes.
    pub fn from_bytes_with(bytes: &[u8], d: Encoding, threshold: usize) -> (b: TextBuffer)
        requires
            d == Encoding::Gb18030 ==> bytes@.len() <= usize::MAX / 16,
        ensures
            b.wf(),
            b@ == decoded(body_of(bytes@, d), d),
            !b.spec_modified(),
            b.spec_encoding() == d,
            b.spec_has_bom() == has_bom(bytes@, d),
            !b.spec_encoding_overridden(),
            b.spec_exact_lines() <==> b@.len() < threshold,
            b.spec_inserted_len() == 0,
            b.store().spec_threshold() == threshold,
    {
        let skip = bom_len(bytes, d);
        let body = vstd::slice::slice_subrange(bytes, skip, bytes.len());
        proof {
            assert(body@ =~= body_of(bytes@, d));
        }
        let text = decode(body, d);
        let mut b = TextBuffer::from_text(text, threshold);
        b.encoding = d;
        b.bom = skip > 0;
        b
    }

    /// Loads a file whose bytes are `bytes`: finds their encoding, keeps a
    /// byte-order mark out of the text, and decodes the rest. Returns the
    /// document and the encoding that was found.
    pub fn from_bytes(bytes: &[u8]) -> (r: (TextBuffer, Encoding))
        requires
            detected(bytes@) == Encoding::Gb18030 ==> bytes@.len() <= usize::MAX / 16,
        ensures
            r.1 == detected(bytes@),
            r.0.wf(),
            r.0@ == decoded(body_of(bytes@, r.1), r.1),
            !r.0.spec_modified(),
            r.0.spec_encoding() == r.1,
            r.0.spec_has_bom() == has_bom(bytes@, r.1),
            !r.0.spec_encoding_overridden(),
            r.0.spec_exact_lines() <==> r.0@.len() < SMALL_FILE_THRESHOLD,
            r.0.spec_inserted_len() == 0,
            r.0.store().spec_threshold() == SMALL_FILE_THRESHOLD,
    {
        let d = detect(bytes);
        (TextBuffer::from_bytes_with(bytes, d, SMALL_FILE_THRESHOLD), d)
    }

    /// The bytes of the file that holds the document: the byte-order mark,
    /// if the document has one, and the text in the document's encoding.
    pub fn to_bytes(&self) -> (bytes: Vec<u8>)
        requires
            self.wf(),
            self.spec_encoding() == Encoding::Gb18030 ==> self@.len() <= usize::MAX / 64,
        ensures
            bytes@ == file_bytes(self@, self.spec_encoding(), self.spec_has_bom()),
    {
        let total = self.len();
        let text = match self.get_text_range(0, total) {
            Some(text) => text,
            None => Vec::new(),
        };
        proof {
            assert(self@.subrange(0, total as int) =~= self@);
        }
        let body = encode(text.as_slice(), self.encoding);
        if !self.bom {
            return body;
        }
        let mut out: Vec<u8> = Vec::new();
        match self.encoding {
            Encoding::Utf8Bom => {
                out.push(0xEF);
                out.push(0xBB);
                out.push(0xBF);
            },
            Encoding::Utf16Le => {
                out.push(0xFF);
                out.push(0xFE);
            },
            Encoding::Utf16Be => {
                out.push(0xFE);
                out.push(0xFF);
            },
            _ => {},
        }
        proof {
            assert(out@ =~= bom_of(self.spec_encoding()));
        }
        let mut i: usize = 0;
        let ghost mark = out@;
        while i < body.len()
            invariant
                0 <= i <= body@.len(),
                out@ == mark + body@.subrange(0, i as int),
            decreases body@.len() - i,
        {
            out.push(body[i]);
            proof {
                assert(out@ =~= mark + body@.subrange(0, i + 1));
            }
            i += 1;
        }
        proof {
            assert(body@.subrange(0, body@.len() as int) =~= body@);
        }
        out
    }

    /// The encoding in which the document is written out.
    pub fn encoding(&self) -> (d: Encoding)
        ensures
            d == self.spec_encoding(),
    {
        self.encoding
    }

    /// Whether the document is written out with a byte-order mark.
    pub fn has_bom(&self) -> (r: bool)
        ensures
            r == self.spec_has_bom(),
    {
        self.bom
    }

    /// Whether the encoding was chosen by a request to change it.
    pub fn is_encoding_overridden(&self) -> (r: bool)
        ensures
            r == self.spec_encoding_overridden(),
    {
        self.overridden
    }

    /// Changes the encoding in which the document is written out. The
    /// text stays as it is. From now on the document is written with a
    /// byte-order mark exactly if `d` is an encoding that has one.
    pub fn set_encoding(&mut self, d: Encoding)
        ensures
            final(self).spec_encoding() == d,
            final(self).spec_has_bom() == (bom_of(d).len() > 0),
            final(self).spec_encoding_overridden(),
            final(self).store() == old(self).store(),
            final(self).tree() == old(self).tree(),
            final(self).spec_modified() == old(self).spec_modified(),
    {
        self.encoding = d;
        self.bom = match d {
            Encoding::Utf8Bom | Encoding::Utf16Le | Encoding::Utf16Be => true,
            _ => false,
        };
        self.overridden = true;
    }

    /// The length of the document in bytes.
    pub fn len(&self) -> (n: usize)
        requires
            self.wf(),
        ensures
            n == self@.len(),
    {
        proof {
            self.lemma_len();
        }
        self.tree.len()
    }

    /// Whether the document was changed since it was loaded or saved.
    pub fn is_modified(&self) -> (r: bool)
        ensures
            r == self.spec_modified(),
    {
        self.modified
    }

    /// Whether line and column addresses are exact for this document. If
    /// not, positions are unavailable and line access works by estimate.
    pub fn has_exact_lines(&self) -> (r: bool)
        ensures
            r == self.spec_exact_lines(),
    {
        self.buffers.is_fully_indexed()
    }

    /// How many bytes of inserted text the document has collected.
    pub fn inserted_len(&self) -> (n: usize)
        requires
            self.wf(),
        ensures
            n == self.spec_inserted_len(),
    {
        self.buffers.add_len()
    }

    /// The pieces of the document.
    pub fn piece_tree_ref(&self) -> (t: &PieceTree)
        ensures
            *t == self.tree(),
    {
        &self.tree
    }

    /// The buffers of the document.
    pub fn buffers_ref(&self) -> (s: &BufferStore)
        ensures
            *s == self.store(),
    {
        &self.buffers
    }

    /// The `len` bytes of the document from `start` on. `None` if the
    /// range reaches beyond the end of the document.
    pub fn get_text_range(&self, start: usize, len: usize) -> (r: Option<Vec<u8>>)
        requires
            self.wf(),
        ensures
            r is Some <==> start + len <= self@.len(),
            r is Some ==> r->0@ == self@.subrange(start as int, start + len),
    {
        proof {
            self.lemma_len();
        }
        let total = self.tree.len();
        if start > total || len > total - start {
            return None;
        }
        let end = start + len;
        let mut out: Vec<u8> = Vec::new();
        let mut range = self.tree.iter_pieces_in_range(start, end);
        let mut reached: usize = start;
        let ghost mut lo: int = if start < end {
            range.remaining()[0].doc_offset as int
        } else {
            0
        };
        let ghost hi: int = if start < end {
            range.remaining().last().spec_end()
        } else {
            0
        };
        while reached < end
            invariant
                self.wf(),
                range.wf(),
                self@.len() == total,
                start <= reached <= end <= total,
                out@ == self@.subrange(start as int, reached as int),
                forall|i: int|
                    0 <= i < range.remaining().len() ==> self.tree()@.contains(
                        #[trigger] range.remaining()[i],
                    ),
                reached < end ==> range.remaining().len() > 0 && tiles(range.remaining(), lo, hi)
                    && lo <= reached < range.remaining()[0].spec_end() && end <= hi,
            decreases end - reached,
        {
            let ghost rem = range.remaining();
            let p = match range.next_piece() {
                Some(p) => p,
                None => {
                    return None;
                },
            };
            proof {
                assert(p == rem[0]);
                assert(self.tree()@.contains(p));
                lemma_contained_piece(
                    self.tree()@,
                    self.store()@,
                    0,
                    self.tree().spec_len() as int,
                    p,
                );
                lemma_tiles_index(rem, lo, hi);
                lemma_tiles_drop_first(rem, lo, hi);
                assert forall|i: int| 0 <= i < range.remaining().len() implies self.tree()@.contains(
                    #[trigger] range.remaining()[i],
                ) by {
                    assert(range.remaining()[i] == rem[i + 1]);
                }
                if rem.len() == 1 {
                    assert(rem[0] == rem.last());
                } else {
                    assert(range.remaining()[0] == rem[1]);
                    lemma_tiles_index(range.remaining(), p.spec_end(), hi);
                }
            }
            let piece_end = p.doc_offset + p.length;
            let stop = if piece_end <= end {
                piece_end
            } else {
                end
            };
            let data = match self.buffers.get_data(p.buffer_id) {
                Some(data) => data,
                None => {
                    return None;
                },
            };
            let ghost from = reached;
            let mut k: usize = p.buffer_offset + (reached - p.doc_offset);
            while reached < stop
                invariant
                    from <= reached <= stop <= p.spec_end(),
                    p.doc_offset <= from,
                    stop <= end <= total,
                    self@.len() == total,
                    k == p.buffer_offset + (reached - p.doc_offset),
                    p.buffer_offset + p.length <= data@.len(),
                    data@ == self.store()@[p.buffer_id as int].bytes(),
                    crate::lines::same_window(
                        self@,
                        p.doc_offset as int,
                        data@,
                        p.buffer_offset as int,
                        p.length as int,
                    ),
                    out@ == self@.subrange(start as int, reached as int),
                    start <= from,
                decreases stop - reached,
            {
                out.push(data[k]);
                proof {
                    assert(self@[reached as int] == data@[reached - p.doc_offset + p.buffer_offset]);
                    assert(out@ =~= self@.subrange(start as int, reached + 1));
                }
                k += 1;
                reached += 1;
            }
            proof {
                lo = p.spec_end();
            }
        }
        Some(out)
    }

    /// The line and column of `offset`. `None` if line addresses are not
    /// exact for this document, or if `offset` lies beyond its end.
    pub fn offset_to_position(&self, offset: usize) -> (r: Option<Position>)
        requires
            self.wf(),
        ensures
            r is Some <==> self.spec_exact_lines() && offset <= self@.len(),
            r is Some ==> r->0 == position_of(self@, offset as int),
    {
        proof {
            self.lemma_len();
            if offset <= self@.len() {
                lemma_newlines_before_bounds(self@, offset as int);
                lemma_line_start_of_bounds(self@, offset as int);
            }
        }
        self.tree.offset_to_position(offset, &self.buffers)
    }

    /// The offset that `pos` stands for, which never lies beyond the end
    /// of the document.
    pub fn position_to_offset(&self, pos: Position) -> (r: usize)
        requires
            self.wf(),
        ensures
            r == offset_of(self@, self.spec_exact_lines(), pos),
            r <= self@.len(),
    {
        proof {
            self.lemma_len();
        }
        let total = self.tree.len();
        match self.tree.line_start(pos.line, &self.buffers) {
            Some(start) => {
                if pos.column <= total - start {
                    start + pos.column
                } else {
                    total
                }
            },
            None => {
                if !self.buffers.is_fully_indexed() && pos.line == 0 && pos.column <= total {
                    pos.column
                } else {
                    total
                }
            },
        }
    }

    /// The byte range of line number `line`: where it begins and, unless
    /// it is the last line, where the next line begins. `None` if line
    /// addresses are not exact for this document, or if it has no such
    /// line.
    pub fn line_range(&self, line: usize) -> (r: Option<(usize, Option<usize>)>)
        requires
            self.wf(),
        ensures
            r is Some <==> self.spec_exact_lines() && line < line_count(self@),
            match r {
                Some((start, end)) => {
                    &&& start == nth_line_start(self@, line as nat)
                    &&& end is Some <==> line + 1 < line_count(self@)
                    &&& end is Some ==> end->0 == nth_line_start(self@, (line + 1) as nat) && start
                        < end->0 <= self@.len()
                },
                None => true,
            },
    {
        proof {
            self.lemma_len();
        }
        self.tree.line_range(line, &self.buffers)
    }

    /// Puts `text` into the document at `offset`, before what lay there.
    /// Refused, with the document unchanged, if `offset` lies beyond its
    /// end.
    pub fn insert(&mut self, offset: usize, text: &[u8]) -> (r: Result<(), EditError>)
        requires
            old(self).wf(),
            old(self)@.len() + text@.len() <= usize::MAX,
            old(self).spec_inserted_len() + text@.len() <= usize::MAX,
        ensures
            final(self).wf(),
            r is Err <==> offset > old(self)@.len(),
            r is Err ==> *final(self) == *old(self),
            r is Ok ==> final(self)@ == old(self)@.subrange(0, offset as int) + text@ + old(
                self,
            )@.subrange(offset as int, old(self)@.len() as int),
            r is Ok ==> final(self).spec_modified(),
            r is Ok ==> final(self).spec_inserted_len() == old(self).spec_inserted_len()
                + text@.len(),
            r is Ok ==> (final(self).spec_exact_lines() <==> old(self).spec_exact_lines()
                && final(self).spec_inserted_len() < final(self).store().spec_threshold()),
            final(self).spec_encoding() == old(self).spec_encoding(),
            final(self).spec_has_bom() == old(self).spec_has_bom(),
            final(self).spec_encoding_overridden() == old(self).spec_encoding_overridden(),
            final(self).store().spec_threshold() == old(self).store().spec_threshold(),
    {
        proof {
            self.lemma_len();
        }
        if offset > self.tree.len() {
            return Err(EditError::OutOfRange);
        }
        let ghost before = self.buffers@;
        let (id, at) = self.buffers.append_to_add_buffer(text);
        proof {
            assert forall|i: int| 0 <= i < before.len() && (#[trigger] before[i]).is_loaded() implies
                self.buffers@[i].is_loaded() && before[i].bytes().len()
                <= self.buffers@[i].bytes().len() && self.buffers@[i].bytes().subrange(
                0,
                before[i].bytes().len() as int,
            ) == before[i].bytes() by {
                if i == id {
                    assert((before[i].bytes() + text@).subrange(0, before[i].bytes().len() as int)
                        =~= before[i].bytes());
                } else {
                    assert(self.buffers@[i] == before[i]);
                    assert(before[i].bytes().subrange(0, before[i].bytes().len() as int)
                        =~= before[i].bytes());
                }
            }
            lemma_doc_bytes_stable(self.tree@, before, self.buffers@);
            let piece = Piece {
                buffer_id: id,
                buffer_offset: at,
                length: text.len(),
                doc_offset: offset,
            };
            assert(piece.fits(self.buffers@));
            assert(piece.bytes(self.buffers@) =~= text@);
            lemma_inserted(
                self.tree@,
                self.buffers@,
                self.tree.spec_len() as int,
                offset as int,
                id,
                at,
                text.len(),
            );
        }
        let done = self.tree.insert(offset, id, at, text.len());
        self.modified = true;
        proof {
            assert(done is Ok);
            assert forall|i: int| 0 <= i < self.buffers@.len() && i != id implies (
            #[trigger] self.buffers@[i]).has_line_index() == (i < before.len()
                && before[i].has_line_index()) by {
                if i < before.len() {
                    assert(self.buffers@[i] == before[i]);
                }
            }
            if old(self).spec_exact_lines() {
                assert forall|i: int| 0 <= i < self.buffers@.len() && i != id implies (
                #[trigger] self.buffers@[i]).has_line_index() by {
                    assert(before[i].has_line_index());
                }
            } else {
                let bad = choose|i: int|
                    0 <= i < before.len() && !(#[trigger] before[i]).has_line_index();
                if bad != id {
                    assert(!self.buffers@[bad].has_line_index());
                }
            }
        }
        Ok(())
    }

    /// Takes the range `[start, end)` out of the document. Refused, with
    /// the document unchanged, if the range is reversed or reaches beyond
    /// the end of the document.
    pub fn delete(&mut self, start: usize, end: usize) -> (r: Result<(), EditError>)
        requires
            old(self).wf(),
        ensures
            final(self).wf(),
            r is Err <==> start > end || end > old(self)@.len(),
            r is Err ==> *final(self) == *old(self),
            r is Ok ==> final(self)@ == old(self)@.subrange(0, start as int) + old(self)@.subrange(
                end as int,
                old(self)@.len() as int,
            ),
            r is Ok ==> final(self).spec_modified(),
            r is Ok ==> final(self).store() == old(self).store(),
            final(self).spec_encoding() == old(self).spec_encoding(),
            final(self).spec_has_bom() == old(self).spec_has_bom(),
            final(self).spec_encoding_overridden() == old(self).spec_encoding_overridden(),
    {
        proof {
            self.lemma_len();
            self.tree.lemma_len_bound();
            if start <= end <= self@.len() {
                lemma_deleted(
                    self.tree@,
                    self.buffers@,
                    self.tree.spec_len() as int,
                    start as int,
                    end as int,
                );
            }
        }
        if start > end || end > self.tree.len() {
            return Err(EditError::OutOfRange);
        }
        let done = self.tree.delete(start, end);
        self.modified = true;
        Ok(())
    }

    /// Records that the document was written out: it counts as unmodified
    /// until the next edit.
    pub fn mark_saved(&mut self)
        ensures
            !final(self).spec_modified(),
            final(self).store() == old(self).store(),
            final(self).tree() == old(self).tree(),
            final(self).spec_encoding() == old(self).spec_encoding(),
            final(self).spec_has_bom() == old(self).spec_has_bom(),
            final(self).spec_encoding_overridden() == old(self).spec_encoding_overridden(),
    {
        self.modified = false;
    }
}

} // verus!
