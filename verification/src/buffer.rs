//! Byte buffers and the store that owns them.
//!
//! A buffer is either a placeholder for content that has not been read yet
//! or loaded bytes, which may carry an index of their line starts. Buffers
//! only ever grow at the end, so a window into one stays valid for as long
//! as the store lives.

use crate::lines::{
    is_line_index, lemma_line_starts_are_nth, lemma_line_starts_extend, lemma_line_starts_prefix,
    lemma_line_starts_upto, line_count, line_start_of, line_starts_of, line_starts_upto,
    newlines_before, nth_line_start, NEWLINE,
};
use vstd::prelude::*;

verus! {

/// Buffers shorter than this many bytes carry a line index by default.
pub const SMALL_FILE_THRESHOLD: usize = 1048576;

/// The content of one buffer.
pub enum Buffer {
    /// Content of known length that has not been brought into memory.
    Unloaded { length: usize },
    /// Content in memory, with the offsets of its line starts if they are
    /// tracked.
    Loaded { data: Vec<u8>, line_starts: Option<Vec<usize>> },
}

impl Buffer {
    /// A line index, where there is one, lists exactly the line starts of
    /// the data.
    pub open spec fn wf(&self) -> bool {
        match self {
            Buffer::Loaded { data, line_starts: Some(index) } => is_line_index(index@, data@),
            _ => true,
        }
    }

    pub open spec fn is_loaded(&self) -> bool {
        self is Loaded
    }

    pub open spec fn has_line_index(&self) -> bool {
        match self {
            Buffer::Loaded { line_starts: Some(_), .. } => true,
            _ => false,
        }
    }

    /// The bytes of a loaded buffer; of an unloaded one, none.
    pub open spec fn bytes(&self) -> Seq<u8> {
        match self {
            Buffer::Loaded { data, .. } => data@,
            Buffer::Unloaded { .. } => Seq::empty(),
        }
    }

    pub open spec fn spec_len(&self) -> nat {
        match self {
            Buffer::Loaded { data, .. } => data@.len(),
            Buffer::Unloaded { length } => *length as nat,
        }
    }

    /// The number of bytes the buffer stands for.
    pub fn len(&self) -> (n: usize)
        ensures
            n == self.spec_len(),
    {
        match self {
            Buffer::Loaded { data, .. } => data.len(),
            Buffer::Unloaded { length } => *length,
        }
    }

    /// The bytes of the buffer, unless it is still unloaded.
    pub fn get_data(&self) -> (r: Option<&[u8]>)
        ensures
            r is Some <==> self.is_loaded(),
            r is Some ==> r->0@ == self.bytes(),
    {
        match self {
            Buffer::Loaded { data, .. } => Some(data.as_slice()),
            Buffer::Unloaded { .. } => None,
        }
    }

    /// The line index of the buffer, if it has one.
    pub fn line_starts(&self) -> (r: Option<&Vec<usize>>)
        ensures
            r is Some <==> self.has_line_index(),
            r is Some && self.wf() ==> is_line_index(r->0@, self.bytes()),
    {
        match self {
            Buffer::Loaded { line_starts: Some(index), .. } => Some(index),
            _ => None,
        }
    }
}

/// Lists the line starts of `bytes`: offset 0 and every offset that
/// directly follows a newline byte.
pub fn compute_line_starts(bytes: &[u8]) -> (index: Vec<usize>)
    ensures
        is_line_index(index@, bytes@),
{
    let mut index: Vec<usize> = Vec::new();
    index.push(0);
    let mut i: usize = 0;
    while i < bytes.len()
        invariant
            0 <= i <= bytes.len(),
            index@.len() == line_starts_upto(bytes@, i as int).len(),
            forall|k: int|
                0 <= k < index@.len() ==> #[trigger] index@[k] as int == line_starts_upto(
                    bytes@,
                    i as int,
                )[k],
        decreases bytes.len() - i,
    {
        if bytes[i] == NEWLINE {
            index.push(i + 1);
        }
        i += 1;
    }
    index
}

/// How many line starts of `data` are not above `x`, found by bisection of
/// the line index.
fn count_line_starts_upto(index: &Vec<usize>, x: usize, Ghost(data): Ghost<Seq<u8>>) -> (r:
    usize)
    requires
        is_line_index(index@, data),
        x <= data.len(),
    ensures
        r == newlines_before(data, x as int) + 1,
        1 <= r <= index@.len(),
        index@[r - 1] as int == line_start_of(data, x as int),
{
    proof {
        lemma_line_starts_upto(data, data.len() as int);
        lemma_line_starts_upto(data, x as int);
        lemma_line_starts_prefix(data, x as int, data.len() as int);
    }
    let ghost all = line_starts_of(data);
    let ghost m = line_starts_upto(data, x as int).len();
    let mut lo: usize = 1;
    let mut hi: usize = index.len();
    while lo < hi
        invariant
            1 <= lo <= hi <= index@.len(),
            is_line_index(index@, data),
            all == line_starts_of(data),
            index@.len() == all.len(),
            m == line_starts_upto(data, x as int).len(),
            1 <= m <= all.len(),
            lo <= m <= hi,
            forall|i: int| 0 <= i < m ==> #[trigger] all[i] <= x,
            forall|i: int| m <= i < all.len() ==> x < #[trigger] all[i],
        decreases hi - lo,
    {
        let mid: usize = lo + (hi - lo) / 2;
        if index[mid] <= x {
            proof {
                assert(index@[mid as int] as int == all[mid as int]);
            }
            lo = mid + 1;
        } else {
            proof {
                assert(index@[mid as int] as int == all[mid as int]);
            }
            hi = mid;
        }
    }
    proof {
        assert(index@[lo - 1] as int == all[lo - 1]);
    }
    lo
}

impl Buffer {
    /// A loaded buffer holding `data`, with a line index if `indexed`.
    pub fn loaded(data: Vec<u8>, indexed: bool) -> (b: Buffer)
        ensures
            b.wf(),
            b.is_loaded(),
            b.bytes() == data@,
            b.has_line_index() == indexed,
    {
        let line_starts = if indexed {
            Some(compute_line_starts(data.as_slice()))
        } else {
            None
        };
        Buffer::Loaded { data, line_starts }
    }

    /// The buffer with `bytes` added at its end. It carries a line index
    /// if and only if it is then shorter than `threshold`.
    pub fn append(self, bytes: &[u8], threshold: usize) -> (b: Buffer)
        requires
            self.wf(),
            self.is_loaded(),
            self.bytes().len() + bytes@.len() <= usize::MAX,
        ensures
            b.wf(),
            b.is_loaded(),
            b.bytes() == self.bytes() + bytes@,
            b.has_line_index() <==> b.bytes().len() < threshold,
    {
        match self {
            Buffer::Loaded { data, line_starts } => {
                let mut data = data;
                let base = data.len();
                let keep = bytes.len() < threshold && base < threshold - bytes.len();
                let mut index = match line_starts {
                    Some(index) => index,
                    None => if keep {
                        compute_line_starts(data.as_slice())
                    } else {
                        Vec::new()
                    },
                };
                let ghost before = data@;
                let mut i: usize = 0;
                while i < bytes.len()
                    invariant
                        0 <= i <= bytes.len(),
                        base == before.len(),
                        base + bytes@.len() <= usize::MAX,
                        data@ == before + bytes@.subrange(0, i as int),
                        keep ==> is_line_index(index@, data@),
                    decreases bytes.len() - i,
                {
                    let byte = bytes[i];
                    let ghost prior = data@;
                    data.push(byte);
                    proof {
                        assert(data@ == before + bytes@.subrange(0, i + 1));
                        if keep {
                            lemma_line_starts_extend(prior, byte);
                        }
                    }
                    if keep && byte == NEWLINE {
                        index.push(base + i + 1);
                    }
                    i += 1;
                }
                proof {
                    assert(bytes@.subrange(0, bytes@.len() as int) == bytes@);
                }
                Buffer::Loaded { data, line_starts: if keep { Some(index) } else { None } }
            },
            Buffer::Unloaded { length } => Buffer::Unloaded { length },
        }
    }

    /// How many line starts of the buffer are not above `x`, which is one
    /// more than the number of newline bytes before `x`.
    pub fn line_starts_upto(&self, x: usize) -> (r: usize)
        requires
            self.wf(),
            self.has_line_index(),
            x <= self.spec_len(),
        ensures
            r == newlines_before(self.bytes(), x as int) + 1,
    {
        match self {
            Buffer::Loaded { data, line_starts: Some(index) } => count_line_starts_upto(
                index,
                x,
                Ghost(data@),
            ),
            _ => 1,
        }
    }

    /// Where the line that contains offset `x` of the buffer begins.
    pub fn line_start_upto(&self, x: usize) -> (r: usize)
        requires
            self.wf(),
            self.has_line_index(),
            x <= self.spec_len(),
        ensures
            r == line_start_of(self.bytes(), x as int),
    {
        match self {
            Buffer::Loaded { data, line_starts: Some(index) } => {
                let r = count_line_starts_upto(index, x, Ghost(data@));
                index[r - 1]
            },
            _ => 0,
        }
    }

    /// Where line number `n` of the buffer begins, for a line that the
    /// buffer has.
    pub fn nth_line_start(&self, n: usize) -> (r: usize)
        requires
            self.wf(),
            self.has_line_index(),
            n < line_count(self.bytes()),
        ensures
            r == nth_line_start(self.bytes(), n as nat),
            r <= self.spec_len(),
    {
        match self {
            Buffer::Loaded { data, line_starts: Some(index) } => {
                proof {
                    lemma_line_starts_upto(data@, data@.len() as int);
                    lemma_line_starts_are_nth(data@, data@.len() as int, n as int);
                }
                index[n]
            },
            _ => 0,
        }
    }
}

/// The buffers of one document, addressed by their position in the store.
pub struct BufferStore {
    buffers: Vec<Buffer>,
    add_buffer: Option<usize>,
    threshold: usize,
}

impl View for BufferStore {
    type V = Seq<Buffer>;

    closed spec fn view(&self) -> Seq<Buffer> {
        self.buffers@
    }
}

impl BufferStore {
    /// The buffer that collects inserted text, once there is one.
    pub closed spec fn add_buffer_id(&self) -> Option<usize> {
        self.add_buffer
    }

    /// The size below which a buffer carries a line index.
    pub closed spec fn spec_threshold(&self) -> usize {
        self.threshold
    }

    /// Every buffer is well formed, the buffer for inserted text is a
    /// loaded one, and a buffer carries a line index if and only if it is
    /// loaded and shorter than the threshold.
    pub open spec fn wf(&self) -> bool {
        &&& forall|i: int| 0 <= i < self@.len() ==> (#[trigger] self@[i]).wf()
        &&& forall|i: int|
            0 <= i < self@.len() ==> ((#[trigger] self@[i]).has_line_index() <==> self@[i].is_loaded()
                && self@[i].spec_len() < self.spec_threshold())
        &&& match self.add_buffer_id() {
            Some(id) => id < self@.len() && self@[id as int].is_loaded(),
            None => true,
        }
    }

    /// Whether every buffer of the store carries a line index.
    pub open spec fn fully_indexed(&self) -> bool {
        forall|i: int| 0 <= i < self@.len() ==> (#[trigger] self@[i]).has_line_index()
    }

    /// An empty store whose buffers carry a line index while they are
    /// shorter than `threshold` bytes.
    pub fn new(threshold: usize) -> (s: BufferStore)
        ensures
            s.wf(),
            s@.len() == 0,
            s.add_buffer_id() is None,
            s.spec_threshold() == threshold,
    {
        BufferStore { buffers: Vec::new(), add_buffer: None, threshold }
    }

    /// Whether every buffer of the store carries a line index.
    pub fn is_fully_indexed(&self) -> (r: bool)
        ensures
            r == self.fully_indexed(),
    {
        let mut i: usize = 0;
        while i < self.buffers.len()
            invariant
                0 <= i <= self@.len(),
                forall|k: int| 0 <= k < i ==> (#[trigger] self@[k]).has_line_index(),
            decreases self@.len() - i,
        {
            if self.buffers[i].line_starts().is_none() {
                return false;
            }
            i += 1;
        }
        true
    }

    /// How many bytes the buffer for inserted text has collected.
    pub fn add_len(&self) -> (n: usize)
        requires
            self.wf(),
        ensures
            n == self.add_bytes().len(),
    {
        match self.add_buffer {
            Some(id) => self.buffers[id].len(),
            None => 0,
        }
    }

    /// How many buffers the store holds.
    pub fn count(&self) -> (n: usize)
        ensures
            n == self@.len(),
    {
        self.buffers.len()
    }

    /// The size below which a buffer carries a line index.
    pub fn threshold(&self) -> (t: usize)
        ensures
            t == self.spec_threshold(),
    {
        self.threshold
    }

    /// The buffer with the given id.
    pub fn get(&self, id: usize) -> (b: &Buffer)
        requires
            id < self@.len(),
        ensures
            *b == self@[id as int],
    {
        &self.buffers[id]
    }

    /// The bytes of the buffer with the given id, unless it is unloaded.
    pub fn get_data(&self, id: usize) -> (r: Option<&[u8]>)
        requires
            id < self@.len(),
        ensures
            r is Some <==> self@[id as int].is_loaded(),
            r is Some ==> r->0@ == self@[id as int].bytes(),
    {
        self.buffers[id].get_data()
    }

    /// Stores `bytes` as a new loaded buffer and returns its id. The
    /// buffer gets a line index if and only if it is shorter than the
    /// threshold.
    pub fn load(&mut self, bytes: Vec<u8>) -> (id: usize)
        requires
            old(self).wf(),
        ensures
            final(self).wf(),
            id == old(self)@.len(),
            final(self)@.len() == old(self)@.len() + 1,
            forall|i: int| 0 <= i < old(self)@.len() ==> final(self)@[i] == old(self)@[i],
            final(self)@[id as int].is_loaded(),
            final(self)@[id as int].bytes() == bytes@,
            final(self)@[id as int].has_line_index() <==> bytes@.len() < old(self).spec_threshold(),
            final(self).add_buffer_id() == old(self).add_buffer_id(),
            final(self).spec_threshold() == old(self).spec_threshold(),
    {
        let id = self.buffers.len();
        let indexed = bytes.len() < self.threshold;
        self.buffers.push(Buffer::loaded(bytes, indexed));
        id
    }

    /// The bytes collected so far in the buffer for inserted text.
    pub open spec fn add_bytes(&self) -> Seq<u8> {
        match self.add_buffer_id() {
            Some(id) => self@[id as int].bytes(),
            None => Seq::empty(),
        }
    }

    /// Appends `bytes` to the buffer for inserted text, which is created
    /// on first use, and returns that buffer's id and the offset in it at
    /// which the new bytes begin. No other buffer changes, and what the
    /// buffer held before stays in place.
    pub fn append_to_add_buffer(&mut self, bytes: &[u8]) -> (r: (usize, usize))
        requires
            old(self).wf(),
            old(self).add_bytes().len() + bytes@.len() <= usize::MAX,
        ensures
            final(self).wf(),
            final(self).add_buffer_id() == Some(r.0),
            final(self).spec_threshold() == old(self).spec_threshold(),
            match old(self).add_buffer_id() {
                Some(id) => r.0 == id && final(self)@.len() == old(self)@.len(),
                None => r.0 == old(self)@.len() && final(self)@.len() == old(self)@.len() + 1,
            },
            r.1 == old(self).add_bytes().len(),
            final(self).add_bytes() == old(self).add_bytes() + bytes@,
            forall|i: int|
                0 <= i < old(self)@.len() && i != r.0 ==> final(self)@[i] == old(self)@[i],
    {
        let id = match self.add_buffer {
            Some(id) => id,
            None => {
                let id = self.buffers.len();
                let indexed = 0 < self.threshold;
                self.buffers.push(Buffer::loaded(Vec::new(), indexed));
                self.add_buffer = Some(id);
                id
            },
        };
        let ghost before = self.buffers@;
        let mut taken = Buffer::Unloaded { length: 0 };
        core::mem::swap(&mut self.buffers[id], &mut taken);
        let offset = taken.len();
        let grown = taken.append(bytes, self.threshold);
        let mut grown = grown;
        core::mem::swap(&mut self.buffers[id], &mut grown);
        proof {
            assert forall|i: int| 0 <= i < self@.len() implies (#[trigger] self@[i]).wf() && (
            self@[i].has_line_index() <==> self@[i].is_loaded() && self@[i].spec_len()
                < self.spec_threshold()) by {
                if i != id {
                    assert(self@[i] == before[i]);
                    if i < old(self)@.len() {
                        assert(before[i] == old(self)@[i]);
                    }
                }
            }
        }
        (id, offset)
    }

    /// Brings the content of an unloaded buffer into memory. Refused, with
    /// the store unchanged, unless the buffer exists, is still unloaded
    /// and stands for as many bytes as `bytes` has. The buffer gets a line
    /// index if and only if it is shorter than the threshold.
    pub fn fill(&mut self, id: usize, bytes: Vec<u8>) -> (done: bool)
        requires
            old(self).wf(),
        ensures
            final(self).wf(),
            done <==> (id < old(self)@.len() && !old(self)@[id as int].is_loaded()
                && old(self)@[id as int].spec_len() == bytes@.len()),
            !done ==> *final(self) == *old(self),
            done ==> final(self)@.len() == old(self)@.len() && final(self)@[id as int].is_loaded()
                && final(self)@[id as int].bytes() == bytes@,
            forall|i: int|
                0 <= i < old(self)@.len() && i != id ==> final(self)@[i] == old(self)@[i],
            final(self).add_buffer_id() == old(self).add_buffer_id(),
            final(self).spec_threshold() == old(self).spec_threshold(),
    {
        if id >= self.buffers.len() {
            return false;
        }
        let fits = match &self.buffers[id] {
            Buffer::Unloaded { length } => *length == bytes.len(),
            Buffer::Loaded { .. } => false,
        };
        if !fits {
            return false;
        }
        let indexed = bytes.len() < self.threshold;
        let mut loaded = Buffer::loaded(bytes, indexed);
        core::mem::swap(&mut self.buffers[id], &mut loaded);
        proof {
            assert forall|i: int| 0 <= i < self@.len() implies (#[trigger] self@[i]).wf() && (
            self@[i].has_line_index() <==> self@[i].is_loaded() && self@[i].spec_len()
                < self.spec_threshold()) by {
                if i != id {
                    assert(self@[i] == old(self)@[i]);
                }
            }
        }
        true
    }

    /// Registers content of `length` bytes that is not in memory yet and
    /// returns the id of its buffer.
    pub fn reserve(&mut self, length: usize) -> (id: usize)
        requires
            old(self).wf(),
        ensures
            final(self).wf(),
            id == old(self)@.len(),
            final(self)@ == old(self)@.push(Buffer::Unloaded { length }),
            final(self).add_buffer_id() == old(self).add_buffer_id(),
            final(self).spec_threshold() == old(self).spec_threshold(),
    {
        let id = self.buffers.len();
        self.buffers.push(Buffer::Unloaded { length });
        proof {
            assert forall|i: int| 0 <= i < self@.len() implies (#[trigger] self@[i]).wf() && (
            self@[i].has_line_index() <==> self@[i].is_loaded() && self@[i].spec_len()
                < self.spec_threshold()) by {
                if i < id {
                    assert(self@[i] == old(self)@[i]);
                }
            }
        }
        id
    }
}

} // verus!
