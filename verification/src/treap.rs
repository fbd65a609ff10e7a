//! The balanced tree that holds the pieces of a document.
//!
//! Each node holds one piece and, for the subtree below it, the number of
//! pieces and of bytes. The pieces of the document are the pieces of the
//! tree from left to right; where a piece begins in the document follows
//! from the bytes to its left. The tree is kept balanced in expectation by
//! priorities: no node has a higher priority than its parent. It is edited
//! by two operations, cutting a tree in two at an offset and joining two
//! trees, which meet the tree only along one path from the root.

use crate::piece_tree::{
    clip, clip_piece, lemma_clip_concat, lemma_clip_inside, lemma_clip_narrow,
    lemma_clip_narrow_low, lemma_clip_outside, lemma_tiles_concat, lemma_tiles_index, shift,
    tiles, Piece,
};
use vstd::prelude::*;

verus! {

/// A node of the tree.
pub struct Node {
    left: Option<Box<Node>>,
    right: Option<Box<Node>>,
    buffer_id: usize,
    buffer_offset: usize,
    length: usize,
    priority: u64,
    count: usize,
    total: usize,
}

/// How many bytes the pieces of a tree hold.
pub closed spec fn total_of(node: Option<Box<Node>>) -> nat
    decreases node,
{
    match node {
        None => 0,
        Some(n) => total_of(n.left) + n.length as nat + total_of(n.right),
    }
}

/// How many pieces a tree holds.
pub closed spec fn count_of(node: Option<Box<Node>>) -> nat
    decreases node,
{
    match node {
        None => 0,
        Some(n) => count_of(n.left) + 1nat + count_of(n.right),
    }
}

/// The priority of the root of a tree; 0 for the empty tree.
pub closed spec fn priority_of(node: Option<Box<Node>>) -> u64 {
    match node {
        None => 0,
        Some(n) => n.priority,
    }
}

/// The pieces of a tree, from left to right, where the first of them
/// begins at offset `base` of the document.
#[verifier::opaque]
pub closed spec fn pieces_of(node: Option<Box<Node>>, base: int) -> Seq<Piece>
    decreases node,
{
    match node {
        None => Seq::empty(),
        Some(n) => pieces_of(n.left, base).push(
            Piece {
                buffer_id: n.buffer_id,
                buffer_offset: n.buffer_offset,
                length: n.length,
                doc_offset: (base + total_of(n.left)) as usize,
            },
        ) + pieces_of(n.right, base + total_of(n.left) + n.length),
    }
}

/// Every node holds a piece that is not empty and whose window can be
/// addressed, knows the number of pieces and bytes below it, and has no
/// child of higher priority.
#[verifier::opaque]
pub closed spec fn node_wf(node: Option<Box<Node>>) -> bool
    decreases node,
{
    match node {
        None => true,
        Some(n) => {
            &&& node_wf(n.left)
            &&& node_wf(n.right)
            &&& n.length > 0
            &&& n.buffer_offset + n.length <= usize::MAX
            &&& n.total == total_of(n.left) + n.length + total_of(n.right)
            &&& n.count == count_of(n.left) + 1 + count_of(n.right)
            &&& priority_of(n.left) <= n.priority
            &&& priority_of(n.right) <= n.priority
        },
    }
}

/// The pieces of a well-formed tree tile the range from `base` to `base`
/// plus the bytes of the tree, and are as many as the tree counts.
pub proof fn lemma_pieces_tile(node: Option<Box<Node>>, base: int)
    requires
        node_wf(node),
        0 <= base,
        base + total_of(node) <= usize::MAX,
    ensures
        tiles(pieces_of(node, base), base, base + total_of(node)),
        pieces_of(node, base).len() == count_of(node),
        total_of(node) <= usize::MAX,
        count_of(node) <= total_of(node),
    decreases node,
{
    reveal(pieces_of);
    reveal(node_wf);
    match node {
        None => {},
        Some(n) => {
            let mid = base + total_of(n.left);
            lemma_pieces_tile(n.left, base);
            lemma_pieces_tile(n.right, mid + n.length);
            let p = Piece {
                buffer_id: n.buffer_id,
                buffer_offset: n.buffer_offset,
                length: n.length,
                doc_offset: mid as usize,
            };
            let front = pieces_of(n.left, base).push(p);
            assert(front.drop_last() =~= pieces_of(n.left, base));
            assert(tiles(front, base, mid + n.length));
            lemma_tiles_concat(
                front,
                pieces_of(n.right, mid + n.length),
                base,
                mid + n.length,
                base + total_of(node),
            );
        },
    }
}

/// The pieces of a tree that begins elsewhere in the document are the
/// same pieces, moved.
pub proof fn lemma_pieces_shift(node: Option<Box<Node>>, base: int, delta: int)
    requires
        node_wf(node),
        0 <= base,
        0 <= base + delta,
        base + total_of(node) <= usize::MAX,
        base + delta + total_of(node) <= usize::MAX,
    ensures
        pieces_of(node, base + delta) == shift(pieces_of(node, base), delta),
    decreases node,
{
    reveal(pieces_of);
    reveal(node_wf);
    match node {
        None => {
            assert(pieces_of(node, base + delta) =~= shift(pieces_of(node, base), delta));
        },
        Some(n) => {
            let mid = base + total_of(n.left);
            lemma_pieces_shift(n.left, base, delta);
            lemma_pieces_shift(n.right, mid + n.length, delta);
            lemma_pieces_tile(n.left, base);
            lemma_pieces_tile(n.right, mid + n.length);
            assert(pieces_of(node, base + delta) =~= shift(pieces_of(node, base), delta));
        },
    }
}

/// How many bytes the pieces of a tree hold.
pub fn total(node: &Option<Box<Node>>) -> (r: usize)
    requires
        node_wf(*node),
    ensures
        r == total_of(*node),
{
    proof {
        reveal(node_wf);
    }
    match node {
        None => 0,
        Some(n) => n.total,
    }
}

/// How many pieces a tree holds.
pub fn count(node: &Option<Box<Node>>) -> (r: usize)
    requires
        node_wf(*node),
    ensures
        r == count_of(*node),
{
    proof {
        reveal(node_wf);
    }
    match node {
        None => 0,
        Some(n) => n.count,
    }
}

/// The tree whose root holds the given piece between the trees `left` and
/// `right`.
fn make(
    left: Option<Box<Node>>,
    right: Option<Box<Node>>,
    buffer_id: usize,
    buffer_offset: usize,
    length: usize,
    priority: u64,
) -> (r: Option<Box<Node>>)
    requires
        node_wf(left),
        node_wf(right),
        length > 0,
        buffer_offset + length <= usize::MAX,
        total_of(left) + length + total_of(right) <= usize::MAX,
        priority_of(left) <= priority,
        priority_of(right) <= priority,
    ensures
        node_wf(r),
        total_of(r) == total_of(left) + length + total_of(right),
        count_of(r) == count_of(left) + 1 + count_of(right),
        priority_of(r) == priority,
        forall|base: int| #[trigger]
            pieces_of(r, base) == around(
                pieces_of(left, base),
                Piece {
                    buffer_id,
                    buffer_offset,
                    length,
                    doc_offset: (base + total_of(left)) as usize,
                },
                pieces_of(right, base + total_of(left) + length),
            ),
{
    proof {
        lemma_pieces_tile(left, 0);
        lemma_pieces_tile(right, 0);
    }
    let c = count(&left) + 1 + count(&right);
    let t = total(&left) + length + total(&right);
    let r = Some(
        Box::new(
            Node { left, right, buffer_id, buffer_offset, length, priority, count: c, total: t },
        ),
    );
    proof {
        reveal(node_wf);
        assert forall|base: int| #[trigger]
            pieces_of(r, base) == around(
                pieces_of(left, base),
                Piece {
                    buffer_id,
                    buffer_offset,
                    length,
                    doc_offset: (base + total_of(left)) as usize,
                },
                pieces_of(right, base + total_of(left) + length),
            ) by {
            lemma_pieces_around(r, base);
        }
    }
    r
}

/// The tree that holds one piece.
pub fn leaf(buffer_id: usize, buffer_offset: usize, length: usize, priority: u64) -> (r: Option<
    Box<Node>,
>)
    requires
        length > 0,
        buffer_offset + length <= usize::MAX,
    ensures
        node_wf(r),
        total_of(r) == length,
        count_of(r) == 1,
        forall|base: int|
            0 <= base <= usize::MAX ==> #[trigger] pieces_of(r, base) == seq![
                Piece { buffer_id, buffer_offset, length, doc_offset: base as usize },
            ],
{
    proof {
        lemma_empty(0);
    }
    let r = make(None, None, buffer_id, buffer_offset, length, priority);
    proof {
        assert forall|base: int| 0 <= base <= usize::MAX implies #[trigger] pieces_of(r, base)
            == seq![Piece { buffer_id, buffer_offset, length, doc_offset: base as usize }] by {
            reveal(around);
            lemma_empty(base);
            lemma_empty(base + length);
            assert(pieces_of(r, base) =~= seq![
                Piece { buffer_id, buffer_offset, length, doc_offset: base as usize },
            ]);
        }
    }
    r
}

/// The pieces of a node: those of its left subtree, its own, those of its
/// right subtree.
#[verifier::opaque]
pub open spec fn around(lp: Seq<Piece>, p: Piece, rp: Seq<Piece>) -> Seq<Piece> {
    lp.push(p) + rp
}

/// Cutting the pieces of a node to a range cuts the three parts.
proof fn lemma_clip_around(lp: Seq<Piece>, p: Piece, rp: Seq<Piece>, a: int, b: int)
    ensures
        clip(around(lp, p, rp), a, b) == clip(lp, a, b) + (match clip_piece(p, a, b) {
            Some(q) => seq![q],
            None => Seq::empty(),
        }) + clip(rp, a, b),
{
    reveal(around);
    lemma_clip_concat(lp.push(p), rp, a, b);
    assert(lp.push(p).drop_last() =~= lp);
    assert(clip(lp.push(p), a, b) =~= clip(lp, a, b) + (match clip_piece(p, a, b) {
        Some(q) => seq![q],
        None => Seq::empty(),
    }));
}

/// A cut in the left subtree: before it lies what of the left subtree lies
/// before it; after it, the rest of the left subtree, the node's piece and
/// the right subtree.
proof fn lemma_cut_left(lp: Seq<Piece>, p: Piece, rp: Seq<Piece>, base: int, end: int, x: int)
    requires
        0 <= base,
        end <= usize::MAX,
        tiles(lp, base, p.doc_offset as int),
        p.length > 0,
        tiles(rp, p.spec_end(), end),
        base <= x <= p.doc_offset,
    ensures
        clip(around(lp, p, rp), base, x) == clip(lp, base, x),
        clip(around(lp, p, rp), x, end) == around(clip(lp, x, p.doc_offset as int), p, rp),
{
    reveal(around);
    lemma_tiles_index(rp, p.spec_end(), end);
    lemma_clip_around(lp, p, rp, base, x);
    lemma_clip_around(lp, p, rp, x, end);
    lemma_clip_outside(rp, p.spec_end(), end, base, x);
    lemma_clip_narrow(lp, base, p.doc_offset as int, x, p.doc_offset as int, end);
    lemma_clip_inside(rp, p.spec_end(), end, x, end);
    assert(clip_piece(p, base, x) is None);
    assert(clip_piece(p, x, end) == Some(p));
    assert(clip(lp, base, x) + Seq::<Piece>::empty() + Seq::<Piece>::empty() =~= clip(
        lp,
        base,
        x,
    ));
    assert(clip(lp, x, p.doc_offset as int) + seq![p] + rp =~= around(
        clip(lp, x, p.doc_offset as int),
        p,
        rp,
    ));
}

/// A cut in the right subtree: before it lie the left subtree, the node's
/// piece and what of the right subtree lies before it; after it, the rest
/// of the right subtree.
proof fn lemma_cut_right(lp: Seq<Piece>, p: Piece, rp: Seq<Piece>, base: int, end: int, x: int)
    requires
        0 <= base,
        end <= usize::MAX,
        tiles(lp, base, p.doc_offset as int),
        p.length > 0,
        tiles(rp, p.spec_end(), end),
        p.spec_end() <= x <= end,
    ensures
        clip(around(lp, p, rp), base, x) == around(lp, p, clip(rp, p.spec_end(), x)),
        clip(around(lp, p, rp), x, end) == clip(rp, x, end),
{
    reveal(around);
    lemma_tiles_index(lp, base, p.doc_offset as int);
    lemma_tiles_index(rp, p.spec_end(), end);
    lemma_clip_around(lp, p, rp, base, x);
    lemma_clip_around(lp, p, rp, x, end);
    lemma_clip_inside(lp, base, p.doc_offset as int, base, x);
    lemma_clip_outside(lp, base, p.doc_offset as int, x, end);
    lemma_clip_narrow_low(rp, p.spec_end(), end, base, p.spec_end(), x);
    assert(clip_piece(p, base, x) == Some(p));
    assert(clip_piece(p, x, end) is None);
    assert(lp + seq![p] + clip(rp, p.spec_end(), x) =~= around(
        lp,
        p,
        clip(rp, p.spec_end(), x),
    ));
    assert(Seq::<Piece>::empty() + Seq::<Piece>::empty() + clip(rp, x, end) =~= clip(
        rp,
        x,
        end,
    ));
}

/// A cut through the node's piece: before it lie the left subtree and the
/// first part of the piece; after it, the second part and the right
/// subtree.
proof fn lemma_cut_through(lp: Seq<Piece>, p: Piece, rp: Seq<Piece>, base: int, end: int, x: int)
    requires
        0 <= base,
        end <= usize::MAX,
        tiles(lp, base, p.doc_offset as int),
        p.buffer_offset + p.length <= usize::MAX,
        tiles(rp, p.spec_end(), end),
        p.doc_offset < x < p.spec_end(),
    ensures
        clip(around(lp, p, rp), base, x) == lp.push(
            Piece { length: (x - p.doc_offset) as usize, ..p },
        ),
        clip(around(lp, p, rp), x, end) == around(
            Seq::empty(),
            Piece {
                buffer_id: p.buffer_id,
                buffer_offset: (p.buffer_offset + (x - p.doc_offset)) as usize,
                length: (p.spec_end() - x) as usize,
                doc_offset: x as usize,
            },
            rp,
        ),
{
    reveal(around);
    lemma_tiles_index(lp, base, p.doc_offset as int);
    lemma_tiles_index(rp, p.spec_end(), end);
    lemma_clip_around(lp, p, rp, base, x);
    lemma_clip_around(lp, p, rp, x, end);
    lemma_clip_inside(lp, base, p.doc_offset as int, base, x);
    lemma_clip_outside(lp, base, p.doc_offset as int, x, end);
    lemma_clip_outside(rp, p.spec_end(), end, base, x);
    lemma_clip_inside(rp, p.spec_end(), end, x, end);
    let first = Piece { length: (x - p.doc_offset) as usize, ..p };
    let second = Piece {
        buffer_id: p.buffer_id,
        buffer_offset: (p.buffer_offset + (x - p.doc_offset)) as usize,
        length: (p.spec_end() - x) as usize,
        doc_offset: x as usize,
    };
    assert(clip_piece(p, base, x) == Some(first));
    assert(clip_piece(p, x, end) == Some(second));
    assert(lp + seq![first] + Seq::<Piece>::empty() =~= lp.push(first));
    assert(Seq::<Piece>::empty() + seq![second] + rp =~= around(Seq::empty(), second, rp));
}

/// The pieces of a tree are those of the left subtree of its root, the
/// piece of the root, and those of its right subtree.
proof fn lemma_pieces_around(node: Option<Box<Node>>, base: int)
    requires
        node is Some,
    ensures
        pieces_of(node, base) == around(
            pieces_of(node->0.left, base),
            Piece {
                buffer_id: node->0.buffer_id,
                buffer_offset: node->0.buffer_offset,
                length: node->0.length,
                doc_offset: (base + total_of(node->0.left)) as usize,
            },
            pieces_of(node->0.right, base + total_of(node->0.left) + node->0.length),
        ),
        pieces_of(node, base) == around(
            pieces_of(node->0.left, base),
            root_piece(node, base),
            pieces_of(node->0.right, base + total_of(node->0.left) + node->0.length),
        ),
        total_of(node) == total_of(node->0.left) + node->0.length + total_of(node->0.right),
        count_of(node) == count_of(node->0.left) + 1 + count_of(node->0.right),
        node_wf(node) ==> {
            &&& node_wf(node->0.left)
            &&& node_wf(node->0.right)
            &&& node->0.length > 0
            &&& node->0.buffer_offset + node->0.length <= usize::MAX
            &&& node->0.total == total_of(node)
            &&& node->0.count == count_of(node)
            &&& priority_of(node->0.left) <= node->0.priority
            &&& priority_of(node->0.right) <= node->0.priority
        },
{
    reveal(pieces_of);
    reveal(node_wf);
    reveal(around);
}

/// A well-formed tree holds no more bytes than the machine's word counts.
pub proof fn lemma_total_bound(node: Option<Box<Node>>)
    requires
        node_wf(node),
    ensures
        total_of(node) <= usize::MAX,
{
    reveal(node_wf);
}

/// The empty tree is well formed and holds no pieces.
pub proof fn lemma_empty(base: int)
    ensures
        node_wf(None),
        pieces_of(None, base) == Seq::<Piece>::empty(),
        total_of(None) == 0,
        count_of(None) == 0,
{
    reveal(pieces_of);
    reveal(node_wf);
}

/// The piece that the root of a tree holds, where the first piece of the
/// tree begins at offset `base` of the document.
pub closed spec fn root_piece(node: Option<Box<Node>>, base: int) -> Piece {
    Piece {
        buffer_id: node->0.buffer_id,
        buffer_offset: node->0.buffer_offset,
        length: node->0.length,
        doc_offset: (base + total_of(node->0.left)) as usize,
    }
}

/// What of a tree lies before a cut at `at` bytes from its start.
#[verifier::opaque]
pub open spec fn cut_before(node: Option<Box<Node>>, base: int, at: int) -> Seq<Piece> {
    clip(pieces_of(node, base), base, base + at)
}

/// What of a tree lies at or after a cut at `at` bytes from its start.
#[verifier::opaque]
pub open spec fn cut_after(node: Option<Box<Node>>, base: int, at: int) -> Seq<Piece> {
    clip(pieces_of(node, base), base + at, base + total_of(node))
}

/// What a cut at `at` bytes into a tree leaves on either side, by where
/// the cut falls: in the left subtree of the root, in its right subtree,
/// or in the piece of the root itself.
proof fn lemma_cut(node: Option<Box<Node>>, base: int, at: int)
    requires
        node is Some,
        node_wf(node),
        0 <= at <= total_of(node),
        0 <= base,
        base + total_of(node) <= usize::MAX,
    ensures
        ({
            let n = node->0;
            let mid = base + total_of(n.left);
            let p = root_piece(node, base);
            let lp = pieces_of(n.left, base);
            let rp = pieces_of(n.right, mid + n.length);
            &&& at <= total_of(n.left) ==> {
                &&& cut_before(node, base, at) == cut_before(n.left, base, at)
                &&& cut_after(node, base, at) == around(cut_after(n.left, base, at), p, rp)
            }
            &&& at >= total_of(n.left) + n.length ==> {
                &&& cut_before(node, base, at) == around(
                    lp,
                    p,
                    cut_before(n.right, mid + n.length, at - total_of(n.left) - n.length),
                )
                &&& cut_after(node, base, at) == cut_after(
                    n.right,
                    mid + n.length,
                    at - total_of(n.left) - n.length,
                )
            }
            &&& total_of(n.left) < at < total_of(n.left) + n.length ==> {
                &&& cut_before(node, base, at) == around(
                    lp,
                    Piece { length: (base + at - mid) as usize, ..p },
                    Seq::empty(),
                )
                &&& cut_after(node, base, at) == around(
                    Seq::empty(),
                    Piece {
                        buffer_id: p.buffer_id,
                        buffer_offset: (p.buffer_offset + (base + at - mid)) as usize,
                        length: (mid + n.length - base - at) as usize,
                        doc_offset: (base + at) as usize,
                    },
                    rp,
                )
            }
        }),
{
    reveal(cut_before);
    reveal(cut_after);
    let n = node->0;
    let mid = base + total_of(n.left);
    let end = base + total_of(node);
    let p = root_piece(node, base);
    let lp = pieces_of(n.left, base);
    let rp = pieces_of(n.right, mid + n.length);
    lemma_pieces_around(node, base);
    lemma_pieces_tile(n.left, base);
    lemma_pieces_tile(n.right, mid + n.length);
    if at <= total_of(n.left) {
        lemma_cut_left(lp, p, rp, base, end, base + at);
    } else if at >= total_of(n.left) + n.length {
        lemma_cut_right(lp, p, rp, base, end, base + at);
    } else {
        lemma_cut_through(lp, p, rp, base, end, base + at);
        let first = Piece { length: (base + at - mid) as usize, ..p };
        assert(around(lp, first, Seq::empty()) =~= lp.push(first)) by {
            reveal(around);
        }
    }
}

/// The cut of the empty tree is empty on both sides.
proof fn lemma_cut_empty(base: int)
    ensures
        cut_before(None, base, 0) == Seq::<Piece>::empty(),
        cut_after(None, base, 0) == Seq::<Piece>::empty(),
{
    reveal(cut_before);
    reveal(cut_after);
    lemma_empty(base);
    assert(clip(Seq::<Piece>::empty(), base, base) =~= Seq::<Piece>::empty());
}

/// Cuts a tree in two at `at` bytes from its start, with the result told
/// by what lies before and after the cut.
fn cut(node: Option<Box<Node>>, at: usize, Ghost(base): Ghost<int>) -> (r: (
    Option<Box<Node>>,
    Option<Box<Node>>,
))
    requires
        node_wf(node),
        at <= total_of(node),
        0 <= base,
        base + total_of(node) <= usize::MAX,
    ensures
        node_wf(r.0),
        node_wf(r.1),
        total_of(r.0) == at,
        total_of(r.1) == total_of(node) - at,
        priority_of(r.0) <= priority_of(node),
        priority_of(r.1) <= priority_of(node),
        pieces_of(r.0, base) == cut_before(node, base, at as int),
        pieces_of(r.1, base + at) == cut_after(node, base, at as int),
    decreases node,
{
    match node {
        None => {
            proof {
                lemma_empty(base);
                lemma_cut_empty(base);
            }
            (None, None)
        },
        Some(boxed) => {
            proof {
                lemma_cut(node, base, at as int);
                lemma_pieces_around(node, base);
                lemma_empty(base + at);
            }
            let n = *boxed;
            let ghost mid = base + total_of(n.left);
            let ghost p = root_piece(node, base);
            let left_total = total(&n.left);
            if at <= left_total {
                let (a, b) = cut(n.left, at, Ghost(base));
                let r = make(b, n.right, n.buffer_id, n.buffer_offset, n.length, n.priority);
                proof {
                    assert(base + at + total_of(b) == mid);
                    assert(pieces_of(r, base + at) == around(
                        pieces_of(b, base + at),
                        p,
                        pieces_of(n.right, mid + n.length),
                    ));
                }
                (a, r)
            } else if at - left_total >= n.length {
                let (a, b) = cut(n.right, at - left_total - n.length, Ghost(mid + n.length));
                let r = make(n.left, a, n.buffer_id, n.buffer_offset, n.length, n.priority);
                proof {
                    assert(mid + n.length + (at - left_total - n.length) == base + at);
                    assert(pieces_of(r, base) == around(
                        pieces_of(n.left, base),
                        p,
                        pieces_of(a, mid + n.length),
                    ));
                }
                (r, b)
            } else {
                // the cut runs through the piece of this node
                let k = at - left_total;
                let a = make(n.left, None, n.buffer_id, n.buffer_offset, k, n.priority);
                let b = make(
                    None,
                    n.right,
                    n.buffer_id,
                    n.buffer_offset + k,
                    n.length - k,
                    n.priority,
                );
                proof {
                    lemma_empty(mid + k);
                    assert(pieces_of(a, base) == around(
                        pieces_of(n.left, base),
                        Piece { length: k, ..p },
                        Seq::empty(),
                    ));
                    assert(pieces_of(b, base + at) == around(
                        Seq::empty(),
                        Piece {
                            buffer_id: p.buffer_id,
                            buffer_offset: (p.buffer_offset + k) as usize,
                            length: (n.length - k) as usize,
                            doc_offset: (base + at) as usize,
                        },
                        pieces_of(n.right, mid + n.length),
                    ));
                }
                (a, b)
            }
        },
    }
}

/// Cuts a tree in two at `at` bytes from its start: the first tree holds
/// what lies before, the second what lies at or after. A piece that the
/// cut runs through is divided between them.
pub fn split(node: Option<Box<Node>>, at: usize, Ghost(base): Ghost<int>) -> (r: (
    Option<Box<Node>>,
    Option<Box<Node>>,
))
    requires
        node_wf(node),
        at <= total_of(node),
        0 <= base,
        base + total_of(node) <= usize::MAX,
    ensures
        node_wf(r.0),
        node_wf(r.1),
        total_of(r.0) == at,
        total_of(r.1) == total_of(node) - at,
        pieces_of(r.0, base) == clip(pieces_of(node, base), base, base + at),
        pieces_of(r.1, base + at) == clip(
            pieces_of(node, base),
            base + at,
            base + total_of(node),
        ),
{
    proof {
        reveal(cut_before);
        reveal(cut_after);
    }
    cut(node, at, Ghost(base))
}

/// Joins two trees: the pieces of the first, then those of the second.
pub fn merge(a: Option<Box<Node>>, b: Option<Box<Node>>, Ghost(base): Ghost<int>) -> (r: Option<
    Box<Node>,
>)
    requires
        node_wf(a),
        node_wf(b),
        0 <= base,
        base + total_of(a) + total_of(b) <= usize::MAX,
    ensures
        node_wf(r),
        total_of(r) == total_of(a) + total_of(b),
        count_of(r) == count_of(a) + count_of(b),
        priority_of(r) == priority_of(a) || priority_of(r) == priority_of(b),
        pieces_of(r, base) == pieces_of(a, base) + pieces_of(b, base + total_of(a)),
    decreases a, b,
{
    match a {
        None => {
            proof {
                lemma_empty(base);
                assert(pieces_of(a, base) + pieces_of(b, base) =~= pieces_of(b, base));
            }
            b
        },
        Some(boxed_a) => {
            match b {
                None => {
                    let r = Some(boxed_a);
                    proof {
                        lemma_empty(base + total_of(a));
                        assert(pieces_of(a, base) + pieces_of(b, base + total_of(a))
                            =~= pieces_of(a, base));
                    }
                    r
                },
                Some(boxed_b) => {
                    proof {
                        lemma_pieces_around(a, base);
                        lemma_pieces_around(b, base + total_of(a));
                    }
                    if boxed_a.priority >= boxed_b.priority {
                        let n = *boxed_a;
                        let ghost mid = base + total_of(n.left);
                        let joined = merge(n.right, Some(boxed_b), Ghost(mid + n.length));
                        let r = make(
                            n.left,
                            joined,
                            n.buffer_id,
                            n.buffer_offset,
                            n.length,
                            n.priority,
                        );
                        proof {
                            reveal(around);
                            assert(pieces_of(r, base) =~= pieces_of(a, base) + pieces_of(
                                b,
                                base + total_of(a),
                            ));
                        }
                        r
                    } else {
                        let n = *boxed_b;
                        let ghost ta = total_of(a);
                        let joined = merge(Some(boxed_a), n.left, Ghost(base));
                        let r = make(
                            joined,
                            n.right,
                            n.buffer_id,
                            n.buffer_offset,
                            n.length,
                            n.priority,
                        );
                        proof {
                            reveal(around);
                            assert(pieces_of(r, base) =~= pieces_of(a, base) + pieces_of(
                                b,
                                base + ta,
                            ));
                        }
                        r
                    }
                },
            }
        },
    }
}

/// The piece at position `index` of a tree whose first piece begins at
/// offset `base` of the document.
pub fn get(node: &Option<Box<Node>>, index: usize, base: usize) -> (p: Piece)
    requires
        node_wf(*node),
        index < count_of(*node),
        base + total_of(*node) <= usize::MAX,
    ensures
        p == pieces_of(*node, base as int)[index as int],
    decreases node,
{
    match node {
        None => Piece { buffer_id: 0, buffer_offset: 0, length: 0, doc_offset: 0 },
        Some(n) => {
            proof {
                reveal(around);
                lemma_pieces_around(*node, base as int);
                lemma_pieces_tile(n.left, base as int);
                lemma_pieces_tile(n.right, base + total_of(n.left) + n.length);
            }
            let left_count = count(&n.left);
            let left_total = total(&n.left);
            if index < left_count {
                get(&n.left, index, base)
            } else if index == left_count {
                Piece {
                    buffer_id: n.buffer_id,
                    buffer_offset: n.buffer_offset,
                    length: n.length,
                    doc_offset: base + left_total,
                }
            } else {
                get(&n.right, index - left_count - 1, base + left_total + n.length)
            }
        },
    }
}

/// How many pieces of a tree end at or before `offset` of the document,
/// where the first piece of the tree begins at offset `base`.
pub fn rank(node: &Option<Box<Node>>, offset: usize, base: usize) -> (r: usize)
    requires
        node_wf(*node),
        base + total_of(*node) <= usize::MAX,
    ensures
        r <= count_of(*node),
        forall|k: int|
            0 <= k < r ==> (#[trigger] pieces_of(*node, base as int)[k]).spec_end() <= offset,
        forall|k: int|
            r <= k < count_of(*node) ==> offset < (#[trigger] pieces_of(
                *node,
                base as int,
            )[k]).spec_end(),
    decreases node,
{
    match node {
        None => 0,
        Some(n) => {
            let ghost whole = pieces_of(*node, base as int);
            let ghost mid = base + total_of(n.left);
            proof {
                reveal(around);
                lemma_pieces_around(*node, base as int);
                lemma_pieces_tile(*node, base as int);
                lemma_pieces_tile(n.left, base as int);
                lemma_pieces_tile(n.right, mid + n.length);
                lemma_tiles_index(whole, base as int, base + total_of(*node));
                assert forall|k: int| 0 <= k < count_of(n.left) implies whole[k] == pieces_of(
                    n.left,
                    base as int,
                )[k] by {}
                assert forall|k: int| count_of(n.left) < k < count_of(*node) implies whole[k]
                    == pieces_of(n.right, mid + n.length)[k - count_of(n.left) - 1] by {}
                assert(whole[count_of(n.left) as int].doc_offset == mid);
            }
            let left_count = count(&n.left);
            let left_total = total(&n.left);
            if offset < base + left_total {
                let r = rank(&n.left, offset, base);
                proof {
                    assert forall|k: int| r <= k < count_of(*node) implies offset < (
                    #[trigger] whole[k]).spec_end() by {
                        if k >= left_count {
                            assert(whole[left_count as int].doc_offset <= whole[k].doc_offset) by {
                                if k > left_count {
                                    assert(whole[left_count as int].spec_end() <= whole[k].doc_offset);
                                }
                            }
                        }
                    }
                }
                r
            } else if offset - base - left_total < n.length {
                proof {
                    assert forall|k: int| 0 <= k < left_count implies (
                    #[trigger] whole[k]).spec_end() <= offset by {
                        assert(whole[k].spec_end() <= whole[left_count as int].doc_offset);
                    }
                    assert forall|k: int| left_count <= k < count_of(*node) implies offset < (
                    #[trigger] whole[k]).spec_end() by {
                        if k > left_count {
                            assert(whole[left_count as int].spec_end() <= whole[k].doc_offset);
                        }
                    }
                }
                left_count
            } else {
                let r = rank(&n.right, offset, base + left_total + n.length);
                proof {
                    assert forall|k: int| 0 <= k < left_count + 1 + r implies (
                    #[trigger] whole[k]).spec_end() <= offset by {
                        if k < left_count {
                            assert(whole[k].spec_end() <= whole[left_count as int].doc_offset);
                        } else if k > left_count {
                            assert(whole[k] == pieces_of(n.right, mid + n.length)[k - left_count
                                - 1]);
                        }
                    }
                    assert forall|k: int| left_count + 1 + r <= k < count_of(*node) implies offset
                        < (#[trigger] whole[k]).spec_end() by {
                        assert(whole[k] == pieces_of(n.right, mid + n.length)[k - left_count - 1]);
                    }
                }
                left_count + 1 + r
            }
        },
    }
}

} // verus!
