//! The line structure of a byte sequence, as mathematical definitions.
//!
//! A line ends with the newline byte `0x0A`, which belongs to the line it
//! terminates. Every contract in this crate that speaks of lines does so in
//! terms of the functions defined here.

use vstd::prelude::*;

verus! {

/// The byte that terminates a line.
pub const NEWLINE: u8 = 0x0A;

/// How many newline bytes occur among the first `n` bytes of `s`.
pub open spec fn newlines_before(s: Seq<u8>, n: int) -> nat
    decreases n,
{
    if n <= 0 {
        0
    } else {
        newlines_before(s, n - 1) + if s[n - 1] == NEWLINE {
            1nat
        } else {
            0nat
        }
    }
}

/// How many lines `s` has: one more than it has newline bytes.
pub open spec fn line_count(s: Seq<u8>) -> nat {
    newlines_before(s, s.len() as int) + 1
}

/// Where the line that contains offset `o` begins: the largest offset not
/// above `o` that is 0 or directly follows a newline byte.
pub open spec fn line_start_of(s: Seq<u8>, o: int) -> int
    decreases o,
{
    if o <= 0 {
        0
    } else if s[o - 1] == NEWLINE {
        o
    } else {
        line_start_of(s, o - 1)
    }
}

/// Where the line that contains offset `o` ends: directly after the first
/// newline byte at or after `o`, or at the end of `s` if there is none.
pub open spec fn line_end_of(s: Seq<u8>, o: int) -> int
    decreases s.len() - o,
{
    if o >= s.len() {
        s.len() as int
    } else if o < 0 {
        line_end_of(s, 0)
    } else if s[o] == NEWLINE {
        o + 1
    } else {
        line_end_of(s, o + 1)
    }
}

/// Where line number `n` begins. Line 0 begins at 0, and each further line
/// where the one before it ends.
pub open spec fn nth_line_start(s: Seq<u8>, n: nat) -> int
    decreases n,
{
    if n == 0 {
        0
    } else {
        line_end_of(s, nth_line_start(s, (n - 1) as nat))
    }
}

/// The line starts of `s` that are not above `n`, in increasing order.
pub open spec fn line_starts_upto(s: Seq<u8>, n: int) -> Seq<int>
    decreases n,
{
    if n <= 0 {
        seq![0int]
    } else if s[n - 1] == NEWLINE {
        line_starts_upto(s, n - 1).push(n)
    } else {
        line_starts_upto(s, n - 1)
    }
}

/// All line starts of `s`.
pub open spec fn line_starts_of(s: Seq<u8>) -> Seq<int> {
    line_starts_upto(s, s.len() as int)
}

/// `index` lists exactly the line starts of `data`.
pub open spec fn is_line_index(index: Seq<usize>, data: Seq<u8>) -> bool {
    &&& index.len() == line_starts_of(data).len()
    &&& forall|i: int| 0 <= i < index.len() ==> #[trigger] index[i] as int == line_starts_of(data)[i]
}

pub proof fn lemma_newlines_before_bounds(s: Seq<u8>, n: int)
    requires
        0 <= n,
    ensures
        newlines_before(s, n) <= n,
    decreases n,
{
    if n > 0 {
        lemma_newlines_before_bounds(s, n - 1);
    }
}

pub proof fn lemma_newlines_before_monotone(s: Seq<u8>, a: int, b: int)
    requires
        0 <= a <= b,
    ensures
        newlines_before(s, a) <= newlines_before(s, b),
    decreases b - a,
{
    if a < b {
        lemma_newlines_before_monotone(s, a, b - 1);
    }
}

pub proof fn lemma_line_start_of_bounds(s: Seq<u8>, o: int)
    requires
        0 <= o,
    ensures
        0 <= line_start_of(s, o) <= o,
        line_start_of(s, o) == 0 || s[line_start_of(s, o) - 1] == NEWLINE,
        forall|j: int| line_start_of(s, o) <= j < o ==> s[j] != NEWLINE,
        newlines_before(s, line_start_of(s, o)) == newlines_before(s, o),
        line_start_of(s, line_start_of(s, o)) == line_start_of(s, o),
    decreases o,
{
    if o > 0 && s[o - 1] != NEWLINE {
        lemma_line_start_of_bounds(s, o - 1);
    }
}

pub proof fn lemma_line_end_of_bounds(s: Seq<u8>, o: int)
    requires
        0 <= o <= s.len(),
    ensures
        o <= line_end_of(s, o) <= s.len(),
        o < s.len() ==> o < line_end_of(s, o),
        forall|j: int| o <= j < line_end_of(s, o) - 1 ==> s[j] != NEWLINE,
        line_end_of(s, o) < s.len() ==> s[line_end_of(s, o) - 1] == NEWLINE,
        o < line_end_of(s, o) && s[line_end_of(s, o) - 1] != NEWLINE ==> line_end_of(s, o)
            == s.len(),
    decreases s.len() - o,
{
    if o < s.len() && s[o] != NEWLINE {
        lemma_line_end_of_bounds(s, o + 1);
    }
}

/// A line that has no newline byte before offset `e - 1` and one at
/// `e - 1` ends at `e`.
pub proof fn lemma_line_end_of_is(s: Seq<u8>, o: int, e: int)
    requires
        0 <= o < e <= s.len(),
        forall|j: int| o <= j < e - 1 ==> s[j] != NEWLINE,
        s[e - 1] == NEWLINE,
    ensures
        line_end_of(s, o) == e,
    decreases e - o,
{
    if o < e - 1 {
        lemma_line_end_of_is(s, o + 1, e);
    }
}

/// A line that runs to the end of `s` without a newline byte ends there.
pub proof fn lemma_line_end_of_is_len(s: Seq<u8>, o: int)
    requires
        0 <= o <= s.len(),
        forall|j: int| o <= j < s.len() ==> s[j] != NEWLINE,
    ensures
        line_end_of(s, o) == s.len(),
    decreases s.len() - o,
{
    if o < s.len() {
        lemma_line_end_of_is_len(s, o + 1);
    }
}

/// The line that contains an offset begins where the line of that number
/// begins.
pub proof fn lemma_line_start_is_nth(s: Seq<u8>, o: int)
    requires
        0 <= o <= s.len(),
    ensures
        nth_line_start(s, newlines_before(s, o)) == line_start_of(s, o),
    decreases o,
{
    if o > 0 {
        lemma_line_start_is_nth(s, o - 1);
        if s[o - 1] == NEWLINE {
            lemma_line_start_of_bounds(s, o - 1);
            lemma_line_end_of_is(s, line_start_of(s, o - 1), o);
        }
    }
}

pub proof fn lemma_nth_line_start_bounds(s: Seq<u8>, n: nat)
    ensures
        0 <= nth_line_start(s, n) <= s.len(),
    decreases n,
{
    if n > 0 {
        lemma_nth_line_start_bounds(s, (n - 1) as nat);
        lemma_line_end_of_bounds(s, nth_line_start(s, (n - 1) as nat));
    }
}

/// Facts about a line that exists: it begins at or after the line before
/// it, it holds as many newline bytes before its start as its number says,
/// and it is its own line start.
pub proof fn lemma_nth_line_start_exact(s: Seq<u8>, n: nat)
    requires
        n < line_count(s),
    ensures
        0 <= nth_line_start(s, n) <= s.len(),
        newlines_before(s, nth_line_start(s, n)) == n,
        line_start_of(s, nth_line_start(s, n)) == nth_line_start(s, n),
        n > 0 ==> nth_line_start(s, (n - 1) as nat) < nth_line_start(s, n),
        n > 0 ==> s[nth_line_start(s, n) - 1] == NEWLINE,
    decreases n,
{
    lemma_nth_line_start_bounds(s, n);
    if n > 0 {
        let m = (n - 1) as nat;
        lemma_nth_line_start_exact(s, m);
        let a = nth_line_start(s, m);
        let e = line_end_of(s, a);
        lemma_line_end_of_bounds(s, a);
        lemma_newlines_window_free(s, a, if a < e { e - 1 } else { a });
        if a == e {
            // the line before is empty and ends the text: no newline is left
            assert(newlines_before(s, s.len() as int) == m);
            assert(false);
        } else if s[e - 1] != NEWLINE {
            assert(e == s.len());
            lemma_newlines_window_free(s, a, e);
            assert(false);
        }
    }
}

/// The `k` bytes of `s` from `a` on are the `k` bytes of `t` from `b` on.
pub open spec fn same_window(s: Seq<u8>, a: int, t: Seq<u8>, b: int, k: int) -> bool {
    forall|j: int| a <= j < a + k ==> #[trigger] s[j] == t[j - a + b]
}

/// A stretch without newline bytes adds none to the count.
pub proof fn lemma_newlines_window_free(s: Seq<u8>, a: int, b: int)
    requires
        0 <= a <= b,
        forall|j: int| a <= j < b ==> s[j] != NEWLINE,
    ensures
        newlines_before(s, b) == newlines_before(s, a),
    decreases b - a,
{
    if a < b {
        lemma_newlines_window_free(s, a, b - 1);
    }
}

/// Two texts that agree on a stretch of bytes gain the same number of
/// newline bytes over it.
pub proof fn lemma_newlines_window_equal(s: Seq<u8>, a: int, t: Seq<u8>, b: int, k: int)
    requires
        0 <= a,
        0 <= b,
        0 <= k,
        same_window(s, a, t, b, k),
    ensures
        newlines_before(s, a + k) - newlines_before(s, a) == newlines_before(t, b + k)
            - newlines_before(t, b),
    decreases k,
{
    if k > 0 {
        lemma_newlines_window_equal(s, a, t, b, k - 1);
        assert(s[a + k - 1] == t[a + k - 1 - a + b]);
    }
}

/// Two texts that agree on a stretch of bytes which holds a newline byte
/// have their last line start in it at the same place.
pub proof fn lemma_line_start_window_equal(s: Seq<u8>, a: int, t: Seq<u8>, b: int, k: int)
    requires
        0 <= a,
        0 <= b,
        0 <= k,
        same_window(s, a, t, b, k),
    ensures
        newlines_before(s, a + k) == newlines_before(s, a) ==> line_start_of(s, a + k)
            == line_start_of(s, a),
        newlines_before(s, a + k) > newlines_before(s, a) ==> line_start_of(s, a + k) - a
            == line_start_of(t, b + k) - b && line_start_of(t, b + k) > b,
    decreases k,
{
    if k > 0 {
        lemma_line_start_window_equal(s, a, t, b, k - 1);
        lemma_newlines_window_equal(s, a, t, b, k - 1);
        lemma_newlines_before_monotone(s, a, a + k - 1);
        assert(s[a + k - 1] == t[a + k - 1 - a + b]);
    }
}

/// What the list of line starts up to `n` holds.
pub proof fn lemma_line_starts_upto(s: Seq<u8>, n: int)
    requires
        0 <= n,
    ensures
        line_starts_upto(s, n).len() == newlines_before(s, n) + 1,
        line_starts_upto(s, n)[0] == 0,
        line_starts_upto(s, n).last() == line_start_of(s, n),
        forall|i: int|
            0 <= i < line_starts_upto(s, n).len() ==> 0 <= #[trigger] line_starts_upto(s, n)[i]
                <= n,
        forall|i: int, j: int|
            0 <= i < j < line_starts_upto(s, n).len() ==> #[trigger] line_starts_upto(s, n)[i]
                < #[trigger] line_starts_upto(s, n)[j],
    decreases n,
{
    if n > 0 {
        lemma_line_starts_upto(s, n - 1);
    }
}

/// The line starts up to `m` open the list of those up to any later `n`,
/// and the rest of that list lies above `m`.
pub proof fn lemma_line_starts_prefix(s: Seq<u8>, m: int, n: int)
    requires
        0 <= m <= n,
    ensures
        line_starts_upto(s, m).len() <= line_starts_upto(s, n).len(),
        forall|i: int|
            0 <= i < line_starts_upto(s, m).len() ==> #[trigger] line_starts_upto(s, n)[i]
                == line_starts_upto(s, m)[i],
        forall|i: int|
            line_starts_upto(s, m).len() <= i < line_starts_upto(s, n).len() ==> m
                < #[trigger] line_starts_upto(s, n)[i],
    decreases n - m,
{
    if m < n {
        lemma_line_starts_prefix(s, m, n - 1);
    }
}

/// The line starts up to `n` depend only on the first `n` bytes.
pub proof fn lemma_line_starts_same_prefix(s: Seq<u8>, t: Seq<u8>, n: int)
    requires
        0 <= n <= s.len(),
        n <= t.len(),
        forall|j: int| 0 <= j < n ==> s[j] == t[j],
    ensures
        line_starts_upto(s, n) == line_starts_upto(t, n),
    decreases n,
{
    if n > 0 {
        lemma_line_starts_same_prefix(s, t, n - 1);
    }
}

/// One more byte at the end adds a line start exactly if it is a newline.
pub proof fn lemma_line_starts_extend(s: Seq<u8>, byte: u8)
    ensures
        line_starts_of(s.push(byte)) == if byte == NEWLINE {
            line_starts_of(s).push(s.len() as int + 1)
        } else {
            line_starts_of(s)
        },
{
    lemma_line_starts_same_prefix(s, s.push(byte), s.len() as int);
}

/// Entry `i` of the list of line starts is where line `i` begins.
pub proof fn lemma_line_starts_are_nth(s: Seq<u8>, n: int, i: int)
    requires
        0 <= n <= s.len(),
        0 <= i < line_starts_upto(s, n).len(),
    ensures
        line_starts_upto(s, n)[i] == nth_line_start(s, i as nat),
    decreases n,
{
    lemma_line_starts_upto(s, n);
    if n > 0 {
        lemma_line_starts_upto(s, n - 1);
        if i < line_starts_upto(s, n - 1).len() {
            lemma_line_starts_are_nth(s, n - 1, i);
        } else {
            lemma_line_start_is_nth(s, n);
        }
    }
}

} // verus!
