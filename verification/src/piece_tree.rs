//! The piece sequence of a document.
//!
//! A document is the concatenation, in order, of its pieces. Each piece is
//! a window into one buffer and knows the offset at which it begins in the
//! document, so that the pieces tile the document from offset 0 to its
//! length without gaps or overlaps.

use crate::buffer::{Buffer, BufferStore};
use crate::treap::{
    count, get, leaf, lemma_empty, lemma_pieces_shift, lemma_pieces_tile, lemma_total_bound, merge,
    node_wf, pieces_of, rank, split, total, total_of, Node,
};
use crate::lines::{
    lemma_line_start_is_nth, lemma_line_start_window_equal, lemma_newlines_before_bounds,
    lemma_newlines_before_monotone, lemma_newlines_window_equal, lemma_nth_line_start_exact,
    line_count, line_start_of, newlines_before, nth_line_start, same_window, NEWLINE,
};
use vstd::prelude::*;

verus! {

/// One contiguous run of bytes of one buffer that forms part of the
/// document.
#[derive(Clone, Copy, Debug, PartialEq, Eq, Structural)]
pub struct Piece {
    /// The buffer that holds the bytes.
    pub buffer_id: usize,
    /// Where in that buffer the run begins.
    pub buffer_offset: usize,
    /// How many bytes the run has.
    pub length: usize,
    /// Where in the document the run begins.
    pub doc_offset: usize,
}

/// A line and column address. The column counts bytes from the start of
/// the line.
#[derive(Clone, Copy, Debug, PartialEq, Eq, Structural)]
pub struct Position {
    pub line: usize,
    pub column: usize,
}

/// Why an edit was refused.
#[derive(Clone, Copy, Debug, PartialEq, Eq, Structural)]
pub enum EditError {
    /// An offset or range reaches beyond the document.
    OutOfRange,
}

impl Piece {
    /// The document offset directly after the piece.
    pub open spec fn spec_end(&self) -> int {
        self.doc_offset + self.length
    }

    /// The piece's bytes, read from `buffers`.
    pub open spec fn bytes(&self, buffers: Seq<Buffer>) -> Seq<u8> {
        buffers[self.buffer_id as int].bytes().subrange(
            self.buffer_offset as int,
            self.buffer_offset + self.length,
        )
    }

    /// The piece's window lies inside a loaded buffer of `buffers`.
    pub open spec fn fits(&self, buffers: Seq<Buffer>) -> bool {
        &&& self.buffer_id < buffers.len()
        &&& buffers[self.buffer_id as int].is_loaded()
        &&& self.buffer_offset + self.length <= buffers[self.buffer_id as int].bytes().len()
    }

    /// Whether the piece shares at least one byte with the range
    /// `[a, b)` of the document.
    pub open spec fn overlaps(&self, a: int, b: int) -> bool {
        a < b && self.doc_offset < b && a < self.spec_end()
    }
}

/// The pieces tile the range `[lo, hi)` of the document: none is empty,
/// the first begins at `lo`, each further one begins where the one before
/// it ends, and the last ends at `hi`. The window of each can be addressed
/// without overflow.
pub open spec fn tiles(ps: Seq<Piece>, lo: int, hi: int) -> bool
    decreases ps.len(),
{
    if ps.len() == 0 {
        lo == hi
    } else {
        let p = ps.last();
        &&& p.length > 0
        &&& p.buffer_offset + p.length <= usize::MAX
        &&& p.spec_end() == hi
        &&& lo <= p.doc_offset
        &&& tiles(ps.drop_last(), lo, p.doc_offset as int)
    }
}

/// Every piece lies inside a loaded buffer of `buffers`.
pub open spec fn all_fit(ps: Seq<Piece>, buffers: Seq<Buffer>) -> bool {
    forall|i: int| 0 <= i < ps.len() ==> (#[trigger] ps[i]).fits(buffers)
}

/// The bytes of the document: the bytes of the pieces, one after another.
pub open spec fn doc_bytes(ps: Seq<Piece>, buffers: Seq<Buffer>) -> Seq<u8>
    decreases ps.len(),
{
    if ps.len() == 0 {
        Seq::empty()
    } else {
        doc_bytes(ps.drop_last(), buffers) + ps.last().bytes(buffers)
    }
}

/// The part of piece `p` that lies in the range `[a, b)` of the document,
/// if there is any.
pub open spec fn clip_piece(p: Piece, a: int, b: int) -> Option<Piece> {
    let s = if p.doc_offset >= a {
        p.doc_offset as int
    } else {
        a
    };
    let e = if p.spec_end() <= b {
        p.spec_end()
    } else {
        b
    };
    if s < e {
        Some(
            Piece {
                buffer_id: p.buffer_id,
                buffer_offset: (p.buffer_offset + (s - p.doc_offset)) as usize,
                length: (e - s) as usize,
                doc_offset: s as usize,
            },
        )
    } else {
        None
    }
}

/// The pieces restricted to the range `[a, b)` of the document: pieces
/// outside it are left out, and those that cross its border are cut.
pub open spec fn clip(ps: Seq<Piece>, a: int, b: int) -> Seq<Piece>
    decreases ps.len(),
{
    if ps.len() == 0 {
        Seq::empty()
    } else {
        let rest = clip(ps.drop_last(), a, b);
        match clip_piece(ps.last(), a, b) {
            Some(q) => rest.push(q),
            None => rest,
        }
    }
}

/// The piece moved by `delta` bytes in the document.
pub open spec fn shift_piece(p: Piece, delta: int) -> Piece {
    Piece { doc_offset: (p.doc_offset + delta) as usize, ..p }
}

/// The pieces, each moved by `delta` bytes in the document.
pub open spec fn shift(ps: Seq<Piece>, delta: int) -> Seq<Piece> {
    Seq::new(ps.len(), |i: int| shift_piece(ps[i], delta))
}

/// The pieces that share at least one byte with the range `[a, b)` of the
/// document, uncut and in order.
pub open spec fn overlapping(ps: Seq<Piece>, a: int, b: int) -> Seq<Piece>
    decreases ps.len(),
{
    if ps.len() == 0 {
        Seq::empty()
    } else {
        let rest = overlapping(ps.drop_last(), a, b);
        if ps.last().overlaps(a, b) {
            rest.push(ps.last())
        } else {
            rest
        }
    }
}

/// What tiling means piece by piece.
pub proof fn lemma_tiles_index(ps: Seq<Piece>, lo: int, hi: int)
    requires
        tiles(ps, lo, hi),
    ensures
        lo <= hi,
        ps.len() == 0 <==> lo == hi,
        ps.len() > 0 ==> ps[0].doc_offset == lo && ps.last().spec_end() == hi,
        forall|i: int|
            0 <= i < ps.len() ==> (#[trigger] ps[i]).length > 0 && lo <= ps[i].doc_offset
                && ps[i].spec_end() <= hi && ps[i].buffer_offset + ps[i].length <= usize::MAX,
        forall|i: int, j: int|
            0 <= i < ps.len() && j == i + 1 && j < ps.len() ==> (#[trigger] ps[i]).spec_end() == (
            #[trigger] ps[j]).doc_offset,
        forall|i: int, j: int|
            0 <= i < j < ps.len() ==> (#[trigger] ps[i]).spec_end() <= (#[trigger] ps[j]).doc_offset,
    decreases ps.len(),
{
    if ps.len() > 0 {
        let p = ps.last();
        let rest = ps.drop_last();
        lemma_tiles_index(rest, lo, p.doc_offset as int);
        assert forall|i: int, j: int| 0 <= i < j < ps.len() implies (#[trigger] ps[i]).spec_end()
            <= (#[trigger] ps[j]).doc_offset by {
            assert(ps[i] == rest[i]);
            if j < rest.len() {
                assert(ps[j] == rest[j]);
            }
        }
        assert forall|i: int, j: int|
            0 <= i < ps.len() && j == i + 1 && j < ps.len() implies (#[trigger] ps[i]).spec_end()
            == (#[trigger] ps[j]).doc_offset by {
            assert(ps[i] == rest[i]);
            if j < rest.len() {
                assert(ps[j] == rest[j]);
            }
        }
        assert forall|i: int| 0 <= i < ps.len() implies (#[trigger] ps[i]).length > 0 && lo
            <= ps[i].doc_offset && ps[i].spec_end() <= hi && ps[i].buffer_offset + ps[i].length
            <= usize::MAX by {
            if i < rest.len() {
                assert(ps[i] == rest[i]);
            }
        }
        if rest.len() > 0 {
            assert(ps[0] == rest[0]);
        }
    }
}

/// Pieces that satisfy the piecewise conditions tile their range.
pub proof fn lemma_tiles_from_index(ps: Seq<Piece>, lo: int, hi: int)
    requires
        ps.len() == 0 ==> lo == hi,
        ps.len() > 0 ==> ps[0].doc_offset == lo && ps.last().spec_end() == hi,
        forall|i: int|
            0 <= i < ps.len() ==> (#[trigger] ps[i]).length > 0 && ps[i].buffer_offset
                + ps[i].length <= usize::MAX,
        forall|i: int, j: int|
            0 <= i < ps.len() && j == i + 1 && j < ps.len() ==> (#[trigger] ps[i]).spec_end() == (
            #[trigger] ps[j]).doc_offset,
    ensures
        tiles(ps, lo, hi),
    decreases ps.len(),
{
    if ps.len() > 0 {
        let p = ps.last();
        let rest = ps.drop_last();
        if rest.len() > 0 {
            assert(rest.last() == ps[ps.len() - 2]);
            assert(ps[ps.len() - 2].spec_end() == ps[ps.len() - 1].doc_offset);
            assert(rest[0] == ps[0]);
        }
        assert forall|i: int, j: int|
            0 <= i < rest.len() && j == i + 1 && j < rest.len() implies (
        #[trigger] rest[i]).spec_end() == (#[trigger] rest[j]).doc_offset by {
            assert(rest[i] == ps[i]);
            assert(rest[j] == ps[j]);
        }
        assert forall|i: int| 0 <= i < rest.len() implies (#[trigger] rest[i]).length > 0
            && rest[i].buffer_offset + rest[i].length <= usize::MAX by {
            assert(rest[i] == ps[i]);
        }
        lemma_tiles_from_index(rest, lo, p.doc_offset as int);
    }
}

/// Two tilings of adjoining ranges make one tiling of the whole.
pub proof fn lemma_tiles_concat(x: Seq<Piece>, y: Seq<Piece>, a: int, b: int, c: int)
    requires
        tiles(x, a, b),
        tiles(y, b, c),
    ensures
        tiles(x + y, a, c),
    decreases y.len(),
{
    if y.len() == 0 {
        assert(x + y == x);
    } else {
        lemma_tiles_concat(x, y.drop_last(), a, b, y.last().doc_offset as int);
        assert((x + y).drop_last() == x + y.drop_last());
        assert((x + y).last() == y.last());
        lemma_tiles_index(y.drop_last(), b, y.last().doc_offset as int);
        lemma_tiles_index(x, a, b);
    }
}

/// Moving a tiling moves the range that it tiles.
pub proof fn lemma_tiles_shift(ps: Seq<Piece>, lo: int, hi: int, delta: int)
    requires
        tiles(ps, lo, hi),
        0 <= lo + delta,
        hi + delta <= usize::MAX,
    ensures
        tiles(shift(ps, delta), lo + delta, hi + delta),
    decreases ps.len(),
{
    lemma_tiles_index(ps, lo, hi);
    if ps.len() > 0 {
        let p = ps.last();
        lemma_tiles_shift(ps.drop_last(), lo, p.doc_offset as int, delta);
        assert(shift(ps, delta).drop_last() == shift(ps.drop_last(), delta));
    }
}

/// A tiling cut to a range inside its own tiles that range.
pub proof fn lemma_tiles_clip(ps: Seq<Piece>, lo: int, hi: int, a: int, b: int)
    requires
        tiles(ps, lo, hi),
        lo <= a <= b <= hi,
        hi <= usize::MAX,
    ensures
        tiles(clip(ps, a, b), a, b),
    decreases ps.len(),
{
    lemma_tiles_index(ps, lo, hi);
    if ps.len() > 0 {
        let p = ps.last();
        let rest = ps.drop_last();
        let mid = p.doc_offset as int;
        if mid <= a {
            // only the last piece reaches into the range
            lemma_clip_outside(rest, lo, mid, a, b);
            if a < b {
                let q = clip_piece(p, a, b)->0;
                assert(clip(ps, a, b) == seq![q]);
                assert(seq![q].drop_last() == Seq::<Piece>::empty());
                assert(tiles(seq![q].drop_last(), a, a));
                assert(tiles(seq![q], a, b));
            } else {
                assert(clip(ps, a, b) == Seq::<Piece>::empty());
            }
        } else if b <= mid {
            lemma_tiles_clip(rest, lo, mid, a, b);
            assert(clip(ps, a, b) == clip(rest, a, b));
        } else {
            lemma_tiles_clip(rest, lo, mid, a, mid);
            lemma_clip_narrow(rest, lo, mid, a, mid, b);
            let q = clip_piece(p, a, b)->0;
            let out = clip(rest, a, mid).push(q);
            assert(clip(ps, a, b) == out);
            assert(out.drop_last() == clip(rest, a, mid));
            assert(out.last() == q);
            assert(tiles(out, a, b));
        }
    } else {
        assert(clip(ps, a, b) == Seq::<Piece>::empty());
    }
}

/// Pieces that end at or before `a` leave nothing in a range from `a` on.
pub proof fn lemma_clip_outside(ps: Seq<Piece>, lo: int, hi: int, a: int, b: int)
    requires
        tiles(ps, lo, hi),
        hi <= a || b <= lo,
    ensures
        clip(ps, a, b) == Seq::<Piece>::empty(),
    decreases ps.len(),
{
    lemma_tiles_index(ps, lo, hi);
    if ps.len() > 0 {
        lemma_clip_outside(ps.drop_last(), lo, ps.last().doc_offset as int, a, b);
    }
}

/// For pieces that end at or before `hi`, a range may be cut or widened
/// beyond `hi` without changing what is clipped.
pub proof fn lemma_clip_narrow(ps: Seq<Piece>, lo: int, hi: int, a: int, b: int, c: int)
    requires
        tiles(ps, lo, hi),
        hi <= b,
        hi <= c,
    ensures
        clip(ps, a, b) == clip(ps, a, c),
    decreases ps.len(),
{
    lemma_tiles_index(ps, lo, hi);
    if ps.len() > 0 {
        lemma_clip_narrow(ps.drop_last(), lo, ps.last().doc_offset as int, a, b, c);
    }
}

/// For pieces that begin at or after `lo`, a range may begin anywhere at
/// or before `lo` without changing what is clipped.
pub proof fn lemma_clip_narrow_low(ps: Seq<Piece>, lo: int, hi: int, a: int, b: int, c: int)
    requires
        tiles(ps, lo, hi),
        a <= lo,
        b <= lo,
    ensures
        clip(ps, a, c) == clip(ps, b, c),
    decreases ps.len(),
{
    lemma_tiles_index(ps, lo, hi);
    if ps.len() > 0 {
        lemma_clip_narrow_low(ps.drop_last(), lo, ps.last().doc_offset as int, a, b, c);
    }
}

/// Cutting two runs of pieces to a range cuts each of them.
pub proof fn lemma_clip_concat(x: Seq<Piece>, y: Seq<Piece>, a: int, b: int)
    ensures
        clip(x + y, a, b) == clip(x, a, b) + clip(y, a, b),
    decreases y.len(),
{
    if y.len() == 0 {
        assert(x + y =~= x);
        assert(clip(x, a, b) + clip(y, a, b) =~= clip(x, a, b));
    } else {
        lemma_clip_concat(x, y.drop_last(), a, b);
        assert((x + y).drop_last() =~= x + y.drop_last());
        assert((x + y).last() == y.last());
        assert(clip(x + y, a, b) =~= clip(x, a, b) + clip(y, a, b));
    }
}

/// Pieces that lie inside a range are not changed by cutting to it.
pub proof fn lemma_clip_inside(ps: Seq<Piece>, lo: int, hi: int, a: int, b: int)
    requires
        tiles(ps, lo, hi),
        a <= lo,
        hi <= b,
        0 <= lo,
        hi <= usize::MAX,
    ensures
        clip(ps, a, b) == ps,
    decreases ps.len(),
{
    lemma_tiles_index(ps, lo, hi);
    if ps.len() == 0 {
        assert(clip(ps, a, b) =~= ps);
    } else {
        lemma_clip_inside(ps.drop_last(), lo, ps.last().doc_offset as int, a, b);
        assert(clip_piece(ps.last(), a, b) == Some(ps.last()));
        assert(ps.drop_last().push(ps.last()) =~= ps);
    }
}

/// The bytes of two runs of pieces, one after the other.
pub proof fn lemma_doc_bytes_concat(x: Seq<Piece>, y: Seq<Piece>, buffers: Seq<Buffer>)
    ensures
        doc_bytes(x + y, buffers) == doc_bytes(x, buffers) + doc_bytes(y, buffers),
    decreases y.len(),
{
    if y.len() == 0 {
        assert(x + y == x);
    } else {
        lemma_doc_bytes_concat(x, y.drop_last(), buffers);
        assert((x + y).drop_last() == x + y.drop_last());
        assert((x + y).last() == y.last());
    }
}

/// Moving pieces in the document does not change their bytes.
pub proof fn lemma_doc_bytes_shift(ps: Seq<Piece>, buffers: Seq<Buffer>, delta: int)
    ensures
        doc_bytes(shift(ps, delta), buffers) == doc_bytes(ps, buffers),
    decreases ps.len(),
{
    if ps.len() > 0 {
        lemma_doc_bytes_shift(ps.drop_last(), buffers, delta);
        assert(shift(ps, delta).drop_last() == shift(ps.drop_last(), delta));
    }
}

/// A tiling holds as many bytes as its range is long.
pub proof fn lemma_doc_bytes_len(ps: Seq<Piece>, buffers: Seq<Buffer>, lo: int, hi: int)
    requires
        tiles(ps, lo, hi),
        all_fit(ps, buffers),
    ensures
        doc_bytes(ps, buffers).len() == hi - lo,
    decreases ps.len(),
{
    if ps.len() > 0 {
        let rest = ps.drop_last();
        assert(ps.last().fits(buffers));
        assert forall|i: int| 0 <= i < rest.len() implies (#[trigger] rest[i]).fits(buffers) by {
            assert(rest[i] == ps[i]);
        }
        lemma_doc_bytes_len(rest, buffers, lo, ps.last().doc_offset as int);
    }
}

/// The parts of pieces that lie inside their buffers lie inside them too.
pub proof fn lemma_clip_fits(ps: Seq<Piece>, buffers: Seq<Buffer>, lo: int, hi: int, a: int, b: int)
    requires
        tiles(ps, lo, hi),
        all_fit(ps, buffers),
        hi <= usize::MAX,
        0 <= a,
    ensures
        all_fit(clip(ps, a, b), buffers),
    decreases ps.len(),
{
    lemma_tiles_index(ps, lo, hi);
    if ps.len() > 0 {
        let p = ps.last();
        let rest = ps.drop_last();
        assert(p.fits(buffers));
        assert forall|i: int| 0 <= i < rest.len() implies (#[trigger] rest[i]).fits(buffers) by {
            assert(rest[i] == ps[i]);
        }
        lemma_clip_fits(rest, buffers, lo, p.doc_offset as int, a, b);
        let out = clip(ps, a, b);
        assert forall|i: int| 0 <= i < out.len() implies (#[trigger] out[i]).fits(buffers) by {
            if i < clip(rest, a, b).len() {
                assert(out[i] == clip(rest, a, b)[i]);
            }
        }
    }
}

/// For pieces that end at `hi`, a range can be cut off at `hi` without
/// changing what is clipped.
proof fn lemma_clip_clamp(ps: Seq<Piece>, lo: int, hi: int, a: int, b: int)
    requires
        tiles(ps, lo, hi),
        a <= b,
    ensures
        clip(ps, a, b) == clip(
            ps,
            if a <= hi {
                a
            } else {
                hi
            },
            if b <= hi {
                b
            } else {
                hi
            },
        ),
{
    if a > hi {
        lemma_clip_outside(ps, lo, hi, a, b);
        lemma_clip_outside(ps, lo, hi, hi, hi);
    } else if b > hi {
        lemma_clip_narrow(ps, lo, hi, a, hi, b);
    }
}

/// A range of two runs of bytes, one after the other, is the part of it
/// in the first run followed by the part of it in the second.
proof fn lemma_subrange_concat(head: Seq<u8>, tail: Seq<u8>, x: int, y: int)
    requires
        0 <= x <= y <= head.len() + tail.len(),
    ensures
        (head + tail).subrange(x, y) == head.subrange(
            if x <= head.len() {
                x
            } else {
                head.len() as int
            },
            if y <= head.len() {
                y
            } else {
                head.len() as int
            },
        ) + tail.subrange(
            if x >= head.len() {
                x - head.len()
            } else {
                0
            },
            if y >= head.len() {
                y - head.len()
            } else {
                0
            },
        ),
{
    let n = head.len() as int;
    let first = head.subrange(
        if x <= n {
            x
        } else {
            n
        },
        if y <= n {
            y
        } else {
            n
        },
    );
    let second = tail.subrange(
        if x >= n {
            x - n
        } else {
            0
        },
        if y >= n {
            y - n
        } else {
            0
        },
    );
    assert((head + tail).subrange(x, y) =~= first + second);
}

/// The bytes of what a range leaves of the last piece of a tiling.
proof fn lemma_clip_last_bytes(p: Piece, buffers: Seq<Buffer>, hi: int, a: int, b: int)
    requires
        p.fits(buffers),
        p.length > 0,
        p.buffer_offset + p.length <= usize::MAX,
        p.spec_end() == hi,
        hi <= usize::MAX,
        0 <= a <= b <= hi,
    ensures
        (match clip_piece(p, a, b) {
            Some(q) => q.bytes(buffers),
            None => Seq::empty(),
        }) == p.bytes(buffers).subrange(
            if a >= p.doc_offset {
                a - p.doc_offset
            } else {
                0
            },
            if b >= p.doc_offset {
                b - p.doc_offset
            } else {
                0
            },
        ),
{
    let from = if a >= p.doc_offset {
        a - p.doc_offset
    } else {
        0
    };
    let to = if b >= p.doc_offset {
        b - p.doc_offset
    } else {
        0
    };
    match clip_piece(p, a, b) {
        Some(q) => {
            assert(q.bytes(buffers) =~= p.bytes(buffers).subrange(from, to));
        },
        None => {
            assert(p.bytes(buffers).subrange(from, to) =~= Seq::<u8>::empty());
        },
    }
}

/// The bytes of a tiling cut to a range are that range of its bytes.
pub proof fn lemma_doc_bytes_clip(
    ps: Seq<Piece>,
    buffers: Seq<Buffer>,
    lo: int,
    hi: int,
    a: int,
    b: int,
)
    requires
        tiles(ps, lo, hi),
        all_fit(ps, buffers),
        0 <= lo <= a <= b <= hi,
        hi <= usize::MAX,
    ensures
        all_fit(clip(ps, a, b), buffers),
        doc_bytes(clip(ps, a, b), buffers) == doc_bytes(ps, buffers).subrange(a - lo, b - lo),
    decreases ps.len(),
{
    lemma_clip_fits(ps, buffers, lo, hi, a, b);
    lemma_doc_bytes_len(ps, buffers, lo, hi);
    if ps.len() == 0 {
        assert(doc_bytes(ps, buffers).subrange(a - lo, b - lo) =~= Seq::<u8>::empty());
    } else {
        let p = ps.last();
        let rest = ps.drop_last();
        let mid = p.doc_offset as int;
        let a1 = if a <= mid {
            a
        } else {
            mid
        };
        let b1 = if b <= mid {
            b
        } else {
            mid
        };
        assert(p.fits(buffers));
        assert forall|i: int| 0 <= i < rest.len() implies (#[trigger] rest[i]).fits(buffers) by {
            assert(rest[i] == ps[i]);
        }
        lemma_doc_bytes_len(rest, buffers, lo, mid);
        lemma_doc_bytes_clip(rest, buffers, lo, mid, a1, b1);
        lemma_clip_clamp(rest, lo, mid, a, b);
        lemma_clip_last_bytes(p, buffers, hi, a, b);
        lemma_subrange_concat(doc_bytes(rest, buffers), p.bytes(buffers), a - lo, b - lo);
        match clip_piece(p, a, b) {
            Some(q) => {
                assert(clip(ps, a, b).drop_last() =~= clip(rest, a, b));
            },
            None => {
                assert(doc_bytes(clip(rest, a, b), buffers) + Seq::<u8>::empty()
                    =~= doc_bytes(clip(rest, a, b), buffers));
            },
        }
    }
}

/// The pieces after `length` bytes of the window `[buffer_offset,
/// buffer_offset + length)` of buffer `buffer_id` were put in at `offset`:
/// what lay before `offset` stays, the new piece follows, and what lay at
/// or after `offset` follows it, moved up. Nothing changes when `length`
/// is 0.
pub open spec fn inserted(
    ps: Seq<Piece>,
    total: int,
    offset: int,
    buffer_id: usize,
    buffer_offset: usize,
    length: usize,
) -> Seq<Piece> {
    if length == 0 {
        ps
    } else {
        clip(ps, 0, offset).push(
            Piece { buffer_id, buffer_offset, length, doc_offset: offset as usize },
        ) + shift(clip(ps, offset, total), length as int)
    }
}

/// The pieces after the range `[start, end)` of the document was taken
/// out: what lay before `start` stays, and what lay at or after `end`
/// follows, moved down. Nothing changes when the range is empty.
pub open spec fn deleted(ps: Seq<Piece>, total: int, start: int, end: int) -> Seq<Piece> {
    if start == end {
        ps
    } else {
        clip(ps, 0, start) + shift(clip(ps, end, total), start - end)
    }
}

/// Inserting keeps the tiling and puts the new bytes between what lay
/// before the offset and what lay after it.
pub proof fn lemma_inserted(
    ps: Seq<Piece>,
    buffers: Seq<Buffer>,
    total: int,
    offset: int,
    buffer_id: usize,
    buffer_offset: usize,
    length: usize,
)
    requires
        tiles(ps, 0, total),
        0 <= offset <= total,
        total + length <= usize::MAX,
        buffer_offset + length <= usize::MAX,
    ensures
        tiles(inserted(ps, total, offset, buffer_id, buffer_offset, length), 0, total + length),
        all_fit(ps, buffers) && (Piece {
            buffer_id,
            buffer_offset,
            length,
            doc_offset: offset as usize,
        }).fits(buffers) ==> all_fit(
            inserted(ps, total, offset, buffer_id, buffer_offset, length),
            buffers,
        ) && doc_bytes(inserted(ps, total, offset, buffer_id, buffer_offset, length), buffers)
            == doc_bytes(ps, buffers).subrange(0, offset) + (Piece {
            buffer_id,
            buffer_offset,
            length,
            doc_offset: offset as usize,
        }).bytes(buffers) + doc_bytes(ps, buffers).subrange(offset, total),
{
    let piece = Piece { buffer_id, buffer_offset, length, doc_offset: offset as usize };
    let whole = doc_bytes(ps, buffers);
    if length > 0 {
        let head = clip(ps, 0, offset);
        let tail = clip(ps, offset, total);
        let moved = shift(tail, length as int);
        lemma_tiles_clip(ps, 0, total, 0, offset);
        lemma_tiles_clip(ps, 0, total, offset, total);
        lemma_tiles_shift(tail, offset, total, length as int);
        assert(head.push(piece).drop_last() == head);
        assert(tiles(head.push(piece), 0, offset + length));
        lemma_tiles_concat(head.push(piece), moved, 0, offset + length, total + length);
        if all_fit(ps, buffers) && piece.fits(buffers) {
            lemma_doc_bytes_clip(ps, buffers, 0, total, 0, offset);
            lemma_doc_bytes_clip(ps, buffers, 0, total, offset, total);
            lemma_doc_bytes_shift(tail, buffers, length as int);
            lemma_doc_bytes_concat(head.push(piece), moved, buffers);
            assert(doc_bytes(head.push(piece), buffers) == doc_bytes(head, buffers) + piece.bytes(
                buffers,
            ));
            let out = head.push(piece) + moved;
            assert forall|i: int| 0 <= i < out.len() implies (#[trigger] out[i]).fits(buffers) by {
                if i < head.len() {
                    assert(out[i] == head[i]);
                } else if i > head.len() {
                    assert(out[i] == moved[i - head.len() - 1]);
                    assert(tail[i - head.len() - 1].fits(buffers));
                }
            }
        }
    } else if all_fit(ps, buffers) && piece.fits(buffers) {
        lemma_doc_bytes_len(ps, buffers, 0, total);
        assert(piece.bytes(buffers) =~= Seq::<u8>::empty());
        assert(whole =~= whole.subrange(0, offset) + piece.bytes(buffers) + whole.subrange(
            offset,
            total,
        ));
    }
}

/// Deleting keeps the tiling and leaves what lay before the range
/// followed by what lay after it.
pub proof fn lemma_deleted(ps: Seq<Piece>, buffers: Seq<Buffer>, total: int, start: int, end: int)
    requires
        tiles(ps, 0, total),
        0 <= start <= end <= total,
        total <= usize::MAX,
    ensures
        tiles(deleted(ps, total, start, end), 0, total - (end - start)),
        all_fit(ps, buffers) ==> all_fit(deleted(ps, total, start, end), buffers) && doc_bytes(
            deleted(ps, total, start, end),
            buffers,
        ) == doc_bytes(ps, buffers).subrange(0, start) + doc_bytes(ps, buffers).subrange(
            end,
            total,
        ),
{
    let whole = doc_bytes(ps, buffers);
    if start < end {
        let head = clip(ps, 0, start);
        let tail = clip(ps, end, total);
        let moved = shift(tail, start - end);
        lemma_tiles_clip(ps, 0, total, 0, start);
        lemma_tiles_clip(ps, 0, total, end, total);
        lemma_tiles_shift(tail, end, total, start - end);
        lemma_tiles_concat(head, moved, 0, start, total - (end - start));
        if all_fit(ps, buffers) {
            lemma_doc_bytes_clip(ps, buffers, 0, total, 0, start);
            lemma_doc_bytes_clip(ps, buffers, 0, total, end, total);
            lemma_doc_bytes_shift(tail, buffers, start - end);
            lemma_doc_bytes_concat(head, moved, buffers);
            let out = head + moved;
            assert forall|i: int| 0 <= i < out.len() implies (#[trigger] out[i]).fits(buffers) by {
                if i < head.len() {
                    assert(out[i] == head[i]);
                } else {
                    assert(out[i] == moved[i - head.len()]);
                    assert(tail[i - head.len()].fits(buffers));
                }
            }
        }
    } else if all_fit(ps, buffers) {
        lemma_doc_bytes_len(ps, buffers, 0, total);
        assert(whole =~= whole.subrange(0, start) + whole.subrange(end, total));
    }
}

/// In a tiling every offset of the range lies in exactly one piece.
pub proof fn lemma_tiles_cover(ps: Seq<Piece>, lo: int, hi: int, o: int)
    requires
        tiles(ps, lo, hi),
        lo <= o < hi,
    ensures
        exists|i: int| 0 <= i < ps.len() && (#[trigger] ps[i]).doc_offset <= o < ps[i].spec_end(),
        forall|i: int, j: int|
            0 <= i < ps.len() && 0 <= j < ps.len() && (#[trigger] ps[i]).doc_offset <= o
                < ps[i].spec_end() && (#[trigger] ps[j]).doc_offset <= o < ps[j].spec_end() ==> i
                == j,
    decreases ps.len(),
{
    lemma_tiles_index(ps, lo, hi);
    let p = ps.last();
    if o < p.doc_offset {
        lemma_tiles_cover(ps.drop_last(), lo, p.doc_offset as int, o);
        let i = choose|i: int|
            0 <= i < ps.drop_last().len() && (#[trigger] ps.drop_last()[i]).doc_offset <= o
                < ps.drop_last()[i].spec_end();
        assert(ps[i] == ps.drop_last()[i]);
    } else {
        assert(ps[ps.len() - 1].doc_offset <= o < ps[ps.len() - 1].spec_end());
    }
    assert forall|i: int, j: int|
        0 <= i < ps.len() && 0 <= j < ps.len() && (#[trigger] ps[i]).doc_offset <= o
            < ps[i].spec_end() && (#[trigger] ps[j]).doc_offset <= o
            < ps[j].spec_end() implies i == j by {
        if i < j {
            assert(ps[i].spec_end() <= ps[j].doc_offset);
        } else if j < i {
            assert(ps[j].spec_end() <= ps[i].doc_offset);
        }
    }
}

/// The pieces `ps` tile a range that reaches from at or before `a` to at
/// or beyond `b`, the first of them holds the byte at `a`, and the last the
/// byte before `b`.
pub open spec fn covers(ps: Seq<Piece>, a: int, b: int) -> bool {
    &&& ps.len() > 0
    &&& ps[0].doc_offset <= a < ps[0].spec_end()
    &&& ps.last().doc_offset < b <= ps.last().spec_end()
    &&& tiles(ps, ps[0].doc_offset as int, ps.last().spec_end())
}

/// A run of consecutive pieces of a tiling is a tiling.
pub proof fn lemma_tiles_subrange(ps: Seq<Piece>, lo: int, hi: int, i: int, j: int)
    requires
        tiles(ps, lo, hi),
        0 <= i < j <= ps.len(),
    ensures
        tiles(ps.subrange(i, j), ps[i].doc_offset as int, ps[j - 1].spec_end()),
{
    lemma_tiles_index(ps, lo, hi);
    let sub = ps.subrange(i, j);
    assert forall|x: int, y: int|
        0 <= x < sub.len() && y == x + 1 && y < sub.len() implies (#[trigger] sub[x]).spec_end() == (
    #[trigger] sub[y]).doc_offset by {
        assert(sub[x] == ps[i + x]);
        assert(sub[y] == ps[i + y]);
        assert(ps[i + x].spec_end() == ps[i + y].doc_offset);
    }
    assert forall|x: int| 0 <= x < sub.len() implies (#[trigger] sub[x]).length > 0
        && sub[x].buffer_offset + sub[x].length <= usize::MAX by {
        assert(sub[x] == ps[i + x]);
    }
    assert(sub[0] == ps[i]);
    assert(sub.last() == ps[j - 1]);
    lemma_tiles_from_index(sub, ps[i].doc_offset as int, ps[j - 1].spec_end());
}

/// What remains of a tiling after its first piece is a tiling.
pub proof fn lemma_tiles_drop_first(ps: Seq<Piece>, lo: int, hi: int)
    requires
        tiles(ps, lo, hi),
        ps.len() > 0,
    ensures
        tiles(ps.drop_first(), ps[0].spec_end(), hi),
{
    lemma_tiles_index(ps, lo, hi);
    if ps.len() == 1 {
        assert(ps.drop_first() =~= Seq::<Piece>::empty());
    } else {
        lemma_tiles_subrange(ps, lo, hi, 1, ps.len() as int);
        assert(ps.drop_first() =~= ps.subrange(1, ps.len() as int));
        assert(ps[0].spec_end() == ps[1].doc_offset);
    }
}

/// What holds of a piece that belongs to a tiling whose pieces lie inside
/// their buffers: it is not empty, lies in the range, and its bytes stand
/// in the document at its offset.
pub proof fn lemma_contained_piece(ps: Seq<Piece>, buffers: Seq<Buffer>, lo: int, hi: int, p: Piece)
    requires
        tiles(ps, lo, hi),
        all_fit(ps, buffers),
        ps.contains(p),
    ensures
        p.fits(buffers),
        p.length > 0,
        lo <= p.doc_offset,
        p.spec_end() <= hi,
        p.buffer_offset + p.length <= usize::MAX,
        doc_bytes(ps, buffers).len() == hi - lo,
        same_window(
            doc_bytes(ps, buffers),
            p.doc_offset - lo,
            buffers[p.buffer_id as int].bytes(),
            p.buffer_offset as int,
            p.length as int,
        ),
{
    let i = choose|i: int| 0 <= i < ps.len() && ps[i] == p;
    lemma_tiles_index(ps, lo, hi);
    lemma_piece_window(ps, buffers, lo, hi, i);
}

/// Cutting what was cut to a wider range gives what cutting to the
/// narrower range gives.
pub proof fn lemma_clip_clip(ps: Seq<Piece>, lo: int, hi: int, a: int, b: int, c: int, d: int)
    requires
        tiles(ps, lo, hi),
        0 <= lo,
        hi <= usize::MAX,
        0 <= a <= c,
        d <= b,
    ensures
        clip(clip(ps, a, b), c, d) == clip(ps, c, d),
    decreases ps.len(),
{
    lemma_tiles_index(ps, lo, hi);
    if ps.len() == 0 {
        assert(clip(ps, a, b) =~= Seq::<Piece>::empty());
    } else {
        let rest = ps.drop_last();
        let p = ps.last();
        lemma_clip_clip(rest, lo, p.doc_offset as int, a, b, c, d);
        match clip_piece(p, a, b) {
            Some(q) => {
                assert(clip(ps, a, b).drop_last() =~= clip(rest, a, b));
                assert(clip_piece(q, c, d) == clip_piece(p, c, d));
            },
            None => {
                assert(clip_piece(p, c, d) is None);
            },
        }
    }
}

/// The pieces of a document, in document order, held in a balanced tree.
pub struct PieceTree {
    root: Option<Box<Node>>,
    seed: u64,
}

/// A single pass over a run of consecutive pieces of a tree.
pub struct PieceRange<'a> {
    tree: &'a PieceTree,
    next: usize,
    end: usize,
}

impl View for PieceTree {
    type V = Seq<Piece>;

    closed spec fn view(&self) -> Seq<Piece> {
        pieces_of(self.root, 0)
    }
}

impl<'a> PieceRange<'a> {
    /// The pieces that the pass has yet to hand out.
    pub closed spec fn remaining(&self) -> Seq<Piece> {
        if self.next <= self.end <= self.tree@.len() {
            self.tree@.subrange(self.next as int, self.end as int)
        } else {
            Seq::empty()
        }
    }

    /// The pass runs over a well-formed tree.
    pub closed spec fn wf(&self) -> bool {
        self.tree.wf()
    }

    /// Hands out the next piece of the pass, or `None` when none is left.
    pub fn next_piece(&mut self) -> (r: Option<Piece>)
        requires
            old(self).wf(),
        ensures
            final(self).wf(),
            old(self).remaining().len() == 0 ==> r is None && final(self).remaining()
                == old(self).remaining(),
            old(self).remaining().len() > 0 ==> r == Some(old(self).remaining()[0])
                && final(self).remaining() == old(self).remaining().drop_first(),
    {
        if self.next < self.end && self.end <= self.tree.piece_count() {
            let p = self.tree.piece_at(self.next);
            self.next = self.next + 1;
            proof {
                assert(final(self).remaining() =~= old(self).remaining().drop_first());
            }
            Some(p)
        } else {
            None
        }
    }
}

/// The value that follows `seed` in the fixed pseudo-random sequence from
/// which priorities are drawn: one step of a linear congruential generator
/// modulo 2^64.
pub open spec fn priority_after(seed: u64) -> u64 {
    seed.wrapping_mul(6364136223846793005).wrapping_add(1442695040888963407)
}

/// Moves `seed` one step along the pseudo-random sequence and returns the
/// value it then holds, which serves as the next priority.
fn next_priority(seed: &mut u64) -> (p: u64)
    ensures
        *final(seed) == priority_after(*old(seed)),
        p == priority_after(*old(seed)),
{
    *seed = seed.wrapping_mul(6364136223846793005).wrapping_add(1442695040888963407);
    *seed
}

impl PieceTree {
    /// The length of the document in bytes.
    pub closed spec fn spec_len(&self) -> nat {
        total_of(self.root)
    }

    /// The tree is in order: every node knows what lies below it.
    pub closed spec fn well_structured(&self) -> bool {
        node_wf(self.root)
    }

    /// The pieces tile the document from offset 0 to its length, with no
    /// gap and no overlap.
    pub open spec fn wf(&self) -> bool {
        &&& self.well_structured()
        &&& tiles(self@, 0, self.spec_len() as int)
    }

    /// The bytes of the document, read from `buffers`.
    pub open spec fn bytes(&self, buffers: Seq<Buffer>) -> Seq<u8> {
        doc_bytes(self@, buffers)
    }

    /// The partition law: in a well-formed tree every offset of the
    /// document lies in exactly one piece. Every constructor and every
    /// edit, accepted or refused, leaves the tree well formed.
    pub proof fn lemma_partition(&self, offset: int)
        requires
            self.wf(),
            0 <= offset < self.spec_len(),
        ensures
            exists|i: int|
                0 <= i < self@.len() && (#[trigger] self@[i]).doc_offset <= offset
                    < self@[i].spec_end(),
            forall|i: int, j: int|
                0 <= i < self@.len() && 0 <= j < self@.len() && (#[trigger] self@[i]).doc_offset
                    <= offset < self@[i].spec_end() && (#[trigger] self@[j]).doc_offset <= offset
                    < self@[j].spec_end() ==> i == j,
    {
        lemma_tiles_cover(self@, 0, self.spec_len() as int, offset);
    }

    /// The length of a document fits the machine's word.
    pub proof fn lemma_len_bound(&self)
        requires
            self.wf(),
        ensures
            self.spec_len() <= usize::MAX,
    {
        lemma_total_bound(self.root);
    }

    /// A tree without pieces: the empty document.
    pub fn new() -> (t: PieceTree)
        ensures
            t.wf(),
            t@.len() == 0,
            t.spec_len() == 0,
    {
        let t = PieceTree { root: None, seed: 0x2545F4914F6CDD1D };
        proof {
            lemma_empty(0);
            lemma_pieces_tile(t.root, 0);
        }
        t
    }

    /// The document that consists of the first `length` bytes of buffer
    /// `buffer_id`: one piece, or none if `length` is 0.
    pub fn from_buffer(buffer_id: usize, length: usize) -> (t: PieceTree)
        ensures
            t.wf(),
            t.spec_len() == length,
            t@ == if length == 0 {
                Seq::empty()
            } else {
                seq![Piece { buffer_id, buffer_offset: 0, length, doc_offset: 0 }]
            },
    {
        let mut t = PieceTree::new();
        let done = t.insert(0, buffer_id, 0, length);
        proof {
            assert(clip(Seq::<Piece>::empty(), 0, 0) =~= Seq::<Piece>::empty());
            assert(shift(Seq::<Piece>::empty(), length as int) =~= Seq::<Piece>::empty());
            if length > 0 {
                assert(t@ =~= seq![Piece { buffer_id, buffer_offset: 0, length, doc_offset: 0 }]);
            } else {
                assert(t@ =~= Seq::<Piece>::empty());
            }
        }
        t
    }

    /// The length of the document in bytes.
    pub fn len(&self) -> (n: usize)
        requires
            self.wf(),
        ensures
            n == self.spec_len(),
    {
        total(&self.root)
    }

    /// How many pieces the document consists of.
    pub fn piece_count(&self) -> (n: usize)
        requires
            self.wf(),
        ensures
            n == self@.len(),
    {
        proof {
            self.lemma_len_bound();
            lemma_pieces_tile(self.root, 0);
        }
        count(&self.root)
    }

    /// The piece at position `index` in document order.
    pub fn piece_at(&self, index: usize) -> (p: Piece)
        requires
            self.wf(),
            index < self@.len(),
        ensures
            p == self@[index as int],
    {
        proof {
            self.lemma_len_bound();
            lemma_pieces_tile(self.root, 0);
        }
        get(&self.root, index, 0)
    }

    /// How many pieces end at or before `offset`, which is the position of
    /// the first piece that reaches beyond it.
    pub fn first_ending_after(&self, offset: usize) -> (r: usize)
        requires
            self.wf(),
        ensures
            r <= self@.len(),
            forall|k: int| 0 <= k < r ==> (#[trigger] self@[k]).spec_end() <= offset,
            forall|k: int| r <= k < self@.len() ==> offset < (#[trigger] self@[k]).spec_end(),
    {
        proof {
            self.lemma_len_bound();
            lemma_pieces_tile(self.root, 0);
        }
        rank(&self.root, offset, 0)
    }

    /// The piece that holds the byte at `offset`, and how far into the
    /// piece that byte lies. `None` if the document has no such byte.
    pub fn lookup(&self, offset: usize) -> (r: Option<(Piece, usize)>)
        requires
            self.wf(),
        ensures
            match r {
                Some((piece, within)) => offset < self.spec_len() && self@.contains(piece)
                    && piece.doc_offset <= offset < piece.spec_end() && within == offset
                    - piece.doc_offset,
                None => offset >= self.spec_len(),
            },
    {
        if offset >= self.len() {
            return None;
        }
        proof {
            lemma_tiles_index(self@, 0, self.spec_len() as int);
        }
        let i = self.first_ending_after(offset);
        proof {
            if i == self@.len() {
                assert(self@.last().spec_end() <= offset);
            }
            if i > 0 {
                assert(self@[i - 1].spec_end() == self@[i as int].doc_offset);
            }
        }
        let p = self.piece_at(i);
        Some((p, offset - p.doc_offset))
    }

    /// Puts the window `[buffer_offset, buffer_offset + length)` of buffer
    /// `buffer_id` into the document at `offset`, before what lay there.
    /// Refused, with the tree unchanged, if `offset` lies beyond the end of
    /// the document.
    pub fn insert(
        &mut self,
        offset: usize,
        buffer_id: usize,
        buffer_offset: usize,
        length: usize,
    ) -> (r: Result<(), EditError>)
        requires
            old(self).wf(),
            old(self).spec_len() + length <= usize::MAX,
            buffer_offset + length <= usize::MAX,
        ensures
            final(self).wf(),
            r is Err <==> offset > old(self).spec_len(),
            r is Err ==> *final(self) == *old(self),
            r is Ok ==> final(self).spec_len() == old(self).spec_len() + length && final(self)@
                == inserted(
                old(self)@,
                old(self).spec_len() as int,
                offset as int,
                buffer_id,
                buffer_offset,
                length,
            ),
    {
        if offset > self.len() {
            return Err(EditError::OutOfRange);
        }
        if length == 0 {
            return Ok(());
        }
        let ghost before = self@;
        let ghost size = self.spec_len() as int;
        let priority = next_priority(&mut self.seed);
        let root = self.root.take();
        let (head, tail) = split(root, offset, Ghost(0int));
        let node = leaf(buffer_id, buffer_offset, length, priority);
        let grown = merge(head, node, Ghost(0int));
        proof {
            lemma_pieces_shift(tail, offset as int, length as int);
            lemma_inserted(
                before,
                Seq::empty(),
                size,
                offset as int,
                buffer_id,
                buffer_offset,
                length,
            );
        }
        self.root = merge(grown, tail, Ghost(0int));
        proof {
            assert(self@ =~= inserted(
                before,
                size,
                offset as int,
                buffer_id,
                buffer_offset,
                length,
            ));
        }
        Ok(())
    }

    /// Takes the range `[start, end)` out of the document. Refused, with
    /// the tree unchanged, if the range is reversed or reaches beyond the
    /// end of the document.
    pub fn delete(&mut self, start: usize, end: usize) -> (r: Result<(), EditError>)
        requires
            old(self).wf(),
        ensures
            final(self).wf(),
            r is Err <==> start > end || end > old(self).spec_len(),
            r is Err ==> *final(self) == *old(self),
            r is Ok ==> final(self).spec_len() == old(self).spec_len() - (end - start),
            r is Ok ==> final(self)@ == deleted(
                old(self)@,
                old(self).spec_len() as int,
                start as int,
                end as int,
            ),
    {
        if start > end || end > self.len() {
            return Err(EditError::OutOfRange);
        }
        if start == end {
            return Ok(());
        }
        let ghost before = self@;
        let ghost size = self.spec_len() as int;
        proof {
            self.lemma_len_bound();
        }
        let root = self.root.take();
        let (head, rest) = split(root, start, Ghost(0int));
        let (cut, tail) = split(rest, end - start, Ghost(start as int));
        proof {
            lemma_clip_clip(before, 0, size, start as int, size, end as int, size);
            lemma_pieces_shift(tail, end as int, start - end);
            lemma_deleted(before, Seq::empty(), size, start as int, end as int);
        }
        self.root = merge(head, tail, Ghost(0int));
        proof {
            assert(self@ =~= deleted(before, size, start as int, end as int));
        }
        Ok(())
    }

    /// A pass over the pieces that share at least one byte with the range
    /// `[start, end)` of the document, in document order. The pieces are
    /// handed out whole; a caller cuts them to the range by their document
    /// offsets.
    pub fn iter_pieces_in_range(&self, start: usize, end: usize) -> (r: PieceRange<'_>)
        requires
            self.wf(),
        ensures
            r.wf(),
            r.remaining() == overlapping(self@, start as int, end as int),
            forall|i: int|
                0 <= i < r.remaining().len() ==> self@.contains(#[trigger] r.remaining()[i]),
            start < end <= self.spec_len() ==> covers(r.remaining(), start as int, end as int),
    {
        if start >= end {
            proof {
                lemma_overlapping_is_subrange(self@, start as int, end as int, 0, 0);
                assert(self@.subrange(0, 0) =~= Seq::<Piece>::empty());
            }
            return PieceRange { tree: self, next: 0, end: 0 };
        }
        let lo = self.first_ending_after(start);
        let hi = if end > self.len() {
            self.piece_count()
        } else {
            // one past the piece that holds the last byte of the range
            let last = self.first_ending_after(end - 1);
            proof {
                self.lemma_len_bound();
                lemma_pieces_tile(self.root, 0);
                lemma_tiles_index(self@, 0, self.spec_len() as int);
                if last == self@.len() {
                    assert(self@.last().spec_end() <= end - 1);
                }
            }
            last + 1
        };
        proof {
            lemma_overlap_bounds(
                self@,
                self.spec_len() as int,
                start as int,
                end as int,
                lo as int,
                hi as int,
            );
        }
        PieceRange { tree: self, next: lo, end: hi }
    }
}

/// Where in a tiling the pieces that overlap a range stand: from the
/// first piece that ends after the start of the range up to the piece that
/// holds the last byte of the range, or up to the last piece if the range
/// reaches beyond the tiling.
pub proof fn lemma_overlap_bounds(ps: Seq<Piece>, total: int, start: int, end: int, lo: int, hi: int)
    requires
        tiles(ps, 0, total),
        0 <= start < end,
        0 <= lo <= ps.len(),
        forall|k: int| 0 <= k < lo ==> (#[trigger] ps[k]).spec_end() <= start,
        forall|k: int| lo <= k < ps.len() ==> start < (#[trigger] ps[k]).spec_end(),
        end > total ==> hi == ps.len(),
        end <= total ==> {
            &&& 1 <= hi <= ps.len() + 1
            &&& forall|k: int| 0 <= k < hi - 1 ==> (#[trigger] ps[k]).spec_end() <= end - 1
            &&& forall|k: int| hi - 1 <= k < ps.len() ==> end - 1 < (#[trigger] ps[k]).spec_end()
        },
    ensures
        0 <= lo <= hi <= ps.len(),
        overlapping(ps, start, end) == ps.subrange(lo, hi),
        forall|i: int| 0 <= i < hi - lo ==> ps.contains(#[trigger] ps.subrange(lo, hi)[i]),
        end <= total ==> covers(ps.subrange(lo, hi), start, end),
{
    lemma_tiles_index(ps, 0, total);
    if end <= total {
        // the piece that holds the last byte of the range
        if hi - 1 == ps.len() {
            assert(ps.last().spec_end() <= end - 1);
        }
        let last = hi - 1;
        if last > 0 {
            assert(ps[last - 1].spec_end() == ps[last].doc_offset);
        }
        if lo > last {
            assert(ps[last].spec_end() <= start);
        }
    }
    assert forall|k: int| 0 <= k < ps.len() implies ((#[trigger] ps[k]).overlaps(start, end) <==> lo
        <= k < hi) by {
        if end <= total {
            let last = hi - 1;
            if k < last {
                assert(ps[k].spec_end() <= ps[last].doc_offset);
            } else if k > last {
                assert(ps[last].spec_end() <= ps[k].doc_offset);
            }
        }
    }
    lemma_overlapping_is_subrange(ps, start, end, lo, hi);
    let found = ps.subrange(lo, hi);
    assert forall|i: int| 0 <= i < hi - lo implies ps.contains(#[trigger] found[i]) by {
        assert(found[i] == ps[lo + i]);
    }
    if end <= total {
        lemma_tiles_subrange(ps, 0, total, lo, hi);
        if lo > 0 {
            assert(ps[lo - 1].spec_end() == ps[lo].doc_offset);
        }
        assert(found[0] == ps[lo]);
        assert(found.last() == ps[hi - 1]);
    }
}

/// Where exactly the pieces from position `lo` up to position `hi` share
/// a byte with a range, they are the pieces that overlap it.
pub proof fn lemma_overlapping_is_subrange(ps: Seq<Piece>, a: int, b: int, lo: int, hi: int)
    requires
        0 <= lo <= hi <= ps.len(),
        forall|k: int| 0 <= k < lo ==> !(#[trigger] ps[k]).overlaps(a, b),
        forall|k: int| lo <= k < hi ==> (#[trigger] ps[k]).overlaps(a, b),
        forall|k: int| hi <= k < ps.len() ==> !(#[trigger] ps[k]).overlaps(a, b),
    ensures
        overlapping(ps, a, b) == ps.subrange(lo, hi),
    decreases ps.len(),
{
    if ps.len() == 0 {
        assert(ps.subrange(lo, hi) =~= Seq::<Piece>::empty());
    } else {
        let rest = ps.drop_last();
        let lo1 = if lo <= rest.len() {
            lo
        } else {
            rest.len() as int
        };
        let hi1 = if hi <= rest.len() {
            hi
        } else {
            rest.len() as int
        };
        assert forall|k: int| 0 <= k < rest.len() implies rest[k] == ps[k] by {}
        lemma_overlapping_is_subrange(rest, a, b, lo1, hi1);
        if ps.last().overlaps(a, b) {
            assert(ps[ps.len() - 1].overlaps(a, b));
            assert(hi == ps.len());
            assert(rest.subrange(lo1, hi1).push(ps.last()) =~= ps.subrange(lo, hi));
        } else {
            assert(!ps[ps.len() - 1].overlaps(a, b));
            assert(rest.subrange(lo1, hi1) =~= ps.subrange(lo, hi));
        }
    }
}

/// The bytes of a piece stand in the document at the piece's offset.
pub proof fn lemma_piece_window(ps: Seq<Piece>, buffers: Seq<Buffer>, lo: int, hi: int, i: int)
    requires
        tiles(ps, lo, hi),
        all_fit(ps, buffers),
        0 <= i < ps.len(),
    ensures
        doc_bytes(ps, buffers).len() == hi - lo,
        same_window(
            doc_bytes(ps, buffers),
            ps[i].doc_offset - lo,
            buffers[ps[i].buffer_id as int].bytes(),
            ps[i].buffer_offset as int,
            ps[i].length as int,
        ),
    decreases ps.len(),
{
    lemma_doc_bytes_len(ps, buffers, lo, hi);
    lemma_tiles_index(ps, lo, hi);
    let p = ps.last();
    let rest = ps.drop_last();
    assert(p.fits(buffers));
    assert forall|k: int| 0 <= k < rest.len() implies (#[trigger] rest[k]).fits(buffers) by {
        assert(rest[k] == ps[k]);
    }
    lemma_doc_bytes_len(rest, buffers, lo, p.doc_offset as int);
    if i < rest.len() {
        lemma_piece_window(rest, buffers, lo, p.doc_offset as int, i);
        assert(rest[i] == ps[i]);
        lemma_tiles_index(rest, lo, p.doc_offset as int);
    }
}

impl PieceTree {
    /// The line and column of `offset`, found from the line indexes of the
    /// buffers. `None` if some buffer of the store has no line index, or if
    /// `offset` lies beyond the end of the document.
    pub fn offset_to_position(&self, offset: usize, buffers: &BufferStore) -> (r: Option<Position>)
        requires
            self.wf(),
            buffers.wf(),
            all_fit(self@, buffers@),
        ensures
            r is Some <==> buffers.fully_indexed() && offset <= self.spec_len(),
            r is Some ==> r->0.line == newlines_before(self.bytes(buffers@), offset as int)
                && r->0.column == offset - line_start_of(self.bytes(buffers@), offset as int),
    {
        if offset > self.len() || !buffers.is_fully_indexed() {
            return None;
        }
        let ghost doc = self.bytes(buffers@);
        proof {
            self.lemma_len_bound();
            lemma_tiles_index(self@, 0, self.spec_len() as int);
            lemma_doc_bytes_len(self@, buffers@, 0, self.spec_len() as int);
        }
        let mut line: usize = 0;
        let mut start: usize = 0;
        let mut reached: usize = 0;
        let mut i: usize = 0;
        let n = self.piece_count();
        while i < n && reached < offset
            invariant
                0 <= i <= self@.len(),
                n == self@.len(),
                self.wf(),
                buffers.wf(),
                buffers.fully_indexed(),
                all_fit(self@, buffers@),
                doc == self.bytes(buffers@),
                doc.len() == self.spec_len(),
                offset <= self.spec_len(),
                reached <= offset,
                reached < offset ==> i < self@.len() && self@[i as int].doc_offset == reached,
                line == newlines_before(doc, reached as int),
                start == line_start_of(doc, reached as int),
            decreases self@.len() - i,
        {
            let p = self.piece_at(i);
            proof {
                lemma_tiles_index(self@, 0, self.spec_len() as int);
                lemma_piece_window(self@, buffers@, 0, self.spec_len() as int, i as int);
                assert(p.fits(buffers@));
                if i + 1 < self@.len() {
                    assert(self@[i as int].spec_end() == self@[i + 1].doc_offset);
                } else {
                    assert(self@.last() == p);
                }
            }
            let take = if p.length <= offset - reached {
                p.length
            } else {
                offset - reached
            };
            let buffer = buffers.get(p.buffer_id);
            let before = buffer.line_starts_upto(p.buffer_offset);
            let after = buffer.line_starts_upto(p.buffer_offset + take);
            proof {
                assert(same_window(
                    doc,
                    reached as int,
                    buffer.bytes(),
                    p.buffer_offset as int,
                    take as int,
                ));
                lemma_newlines_window_equal(
                    doc,
                    reached as int,
                    buffer.bytes(),
                    p.buffer_offset as int,
                    take as int,
                );
                lemma_line_start_window_equal(
                    doc,
                    reached as int,
                    buffer.bytes(),
                    p.buffer_offset as int,
                    take as int,
                );
                lemma_newlines_before_monotone(
                    buffer.bytes(),
                    p.buffer_offset as int,
                    p.buffer_offset + take,
                );
                lemma_newlines_before_bounds(doc, reached + take);
                crate::lines::lemma_line_start_of_bounds(buffer.bytes(), p.buffer_offset + take);
            }
            if after > before {
                line = line + (after - before);
                start = reached + (buffer.line_start_upto(p.buffer_offset + take) - p.buffer_offset);
            }
            reached = reached + take;
            i += 1;
        }
        proof {
            crate::lines::lemma_line_start_of_bounds(doc, offset as int);
        }
        Some(Position { line, column: offset - start })
    }

    /// Where line number `line` of the document begins, found from the
    /// line indexes of the buffers. `None` if some buffer of the store has
    /// no line index, or if the document has no such line.
    pub fn line_start(&self, line: usize, buffers: &BufferStore) -> (r: Option<usize>)
        requires
            self.wf(),
            buffers.wf(),
            all_fit(self@, buffers@),
        ensures
            r is Some <==> buffers.fully_indexed() && line < line_count(self.bytes(buffers@)),
            r is Some ==> r->0 == nth_line_start(self.bytes(buffers@), line as nat) && r->0
                <= self.spec_len(),
    {
        if !buffers.is_fully_indexed() {
            return None;
        }
        if line == 0 {
            return Some(0);
        }
        let ghost doc = self.bytes(buffers@);
        proof {
            self.lemma_len_bound();
            lemma_tiles_index(self@, 0, self.spec_len() as int);
            lemma_doc_bytes_len(self@, buffers@, 0, self.spec_len() as int);
        }
        let mut seen: usize = 0;
        let mut i: usize = 0;
        let n = self.piece_count();
        while i < n
            invariant
                0 <= i <= self@.len(),
                n == self@.len(),
                self.wf(),
                buffers.wf(),
                buffers.fully_indexed(),
                all_fit(self@, buffers@),
                doc == self.bytes(buffers@),
                doc.len() == self.spec_len(),
                doc.len() <= usize::MAX,
                i < self@.len() ==> seen == newlines_before(doc, self@[i as int].doc_offset as int),
                i == self@.len() ==> seen == newlines_before(doc, doc.len() as int),
                seen < line,
            decreases self@.len() - i,
        {
            let p = self.piece_at(i);
            proof {
                lemma_tiles_index(self@, 0, self.spec_len() as int);
                lemma_piece_window(self@, buffers@, 0, self.spec_len() as int, i as int);
                assert(p.fits(buffers@));
                if i + 1 < self@.len() {
                    assert(self@[i as int].spec_end() == self@[i + 1].doc_offset);
                } else {
                    assert(self@.last() == p);
                }
            }
            let buffer = buffers.get(p.buffer_id);
            let before = buffer.line_starts_upto(p.buffer_offset);
            let after = buffer.line_starts_upto(p.buffer_offset + p.length);
            proof {
                lemma_newlines_window_equal(
                    doc,
                    p.doc_offset as int,
                    buffer.bytes(),
                    p.buffer_offset as int,
                    p.length as int,
                );
                lemma_newlines_before_monotone(
                    buffer.bytes(),
                    p.buffer_offset as int,
                    p.buffer_offset + p.length,
                );
                lemma_newlines_before_monotone(
                    buffer.bytes(),
                    p.buffer_offset + p.length,
                    buffer.bytes().len() as int,
                );
                lemma_newlines_before_bounds(doc, p.spec_end());
            }
            let gained = after - before;
            if line - seen <= gained {
                // the line begins in this piece, after its newline number `line - seen`
                let target = before + (line - seen) - 1;
                let q = buffer.nth_line_start(target);
                proof {
                    let data = buffer.bytes();
                    lemma_nth_line_start_exact(data, target as nat);
                    // between the window's borders, by the count of newlines before each
                    if q <= p.buffer_offset {
                        lemma_newlines_before_monotone(data, q as int, p.buffer_offset as int);
                    }
                    if q > p.buffer_offset + p.length {
                        lemma_newlines_before_monotone(data, p.buffer_offset + p.length, q - 1);
                        assert(newlines_before(data, q as int) == newlines_before(data, q - 1) + 1);
                    }
                    let k = q - p.buffer_offset;
                    assert(same_window(
                        doc,
                        p.doc_offset as int,
                        data,
                        p.buffer_offset as int,
                        k as int,
                    ));
                    lemma_newlines_window_equal(
                        doc,
                        p.doc_offset as int,
                        data,
                        p.buffer_offset as int,
                        k as int,
                    );
                    let s = p.doc_offset + k;
                    assert(doc[s - 1] == data[s - 1 - p.doc_offset + p.buffer_offset]);
                    assert(doc[s - 1] == NEWLINE);
                    lemma_line_start_is_nth(doc, s);
                    lemma_newlines_before_monotone(doc, s, doc.len() as int);
                }
                return Some(p.doc_offset + (q - p.buffer_offset));
            }
            seen = seen + gained;
            i += 1;
        }
        None
    }

    /// The byte range of line number `line`: where it begins and, unless it
    /// is the last line of the document, where the next line begins.
    /// `None` if some buffer of the store has no line index, or if the
    /// document has no such line.
    pub fn line_range(&self, line: usize, buffers: &BufferStore) -> (r: Option<
        (usize, Option<usize>),
    >)
        requires
            self.wf(),
            buffers.wf(),
            all_fit(self@, buffers@),
        ensures
            r is Some <==> buffers.fully_indexed() && line < line_count(self.bytes(buffers@)),
            match r {
                Some((start, end)) => {
                    &&& start == nth_line_start(self.bytes(buffers@), line as nat)
                    &&& end is Some <==> line + 1 < line_count(self.bytes(buffers@))
                    &&& end is Some ==> end->0 == nth_line_start(
                        self.bytes(buffers@),
                        (line + 1) as nat,
                    ) && start < end->0 <= self.spec_len()
                },
                None => true,
            },
    {
        let start = match self.line_start(line, buffers) {
            Some(start) => start,
            None => {
                return None;
            },
        };
        proof {
            self.lemma_len_bound();
            lemma_doc_bytes_len(self@, buffers@, 0, self.spec_len() as int);
            lemma_newlines_before_bounds(self.bytes(buffers@), self.spec_len() as int);
        }
        if line == usize::MAX {
            return Some((start, None));
        }
        let end = self.line_start(line + 1, buffers);
        proof {
            if end is Some {
                lemma_nth_line_start_exact(self.bytes(buffers@), (line + 1) as nat);
            }
        }
        Some((start, end))
    }
}

} // verus!
