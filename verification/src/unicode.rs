//! UTF-8 in executable form: reading one scalar value from bytes, writing
//! one to bytes, the total decoding that puts U+FFFD in place of bytes
//! that begin no valid encoding, and the making of strings from bytes.

use vstd::prelude::*;
use vstd::utf8::{
    decode_first_scalar, decode_utf8, encode_scalar, encode_utf8, is_scalar,
    length_of_first_scalar, pop_first_scalar, valid_first_scalar, valid_utf8,
};

verus! {

/// The replacement character, which stands in for what cannot be decoded.
pub const REPLACEMENT: u32 = 0xFFFD;

/// The characters that `bytes` stand for when read as UTF-8 from front to
/// back: where a valid encoding of a scalar value begins, that value, and
/// where none begins, U+FFFD for the one byte that is then skipped.
pub open spec fn utf8_lossy(bytes: Seq<u8>) -> Seq<char>
    decreases bytes.len(),
{
    if bytes.len() == 0 {
        Seq::empty()
    } else if valid_first_scalar(bytes) {
        seq![decode_first_scalar(bytes) as char] + utf8_lossy(pop_first_scalar(bytes))
    } else {
        seq![REPLACEMENT as char] + utf8_lossy(bytes.subrange(1, bytes.len() as int))
    }
}

/// Valid UTF-8 loses nothing: it decodes to the characters it encodes.
pub proof fn lemma_utf8_lossy_valid(bytes: Seq<u8>)
    requires
        valid_utf8(bytes),
    ensures
        utf8_lossy(bytes) == decode_utf8(bytes),
    decreases bytes.len(),
{
    if bytes.len() > 0 {
        lemma_utf8_lossy_valid(pop_first_scalar(bytes));
    }
}

/// The encoding of characters followed by one more is the encoding of the
/// characters followed by that of the one.
pub proof fn lemma_encode_utf8_push(chars: Seq<char>, c: char)
    ensures
        encode_utf8(chars.push(c)) == encode_utf8(chars) + encode_scalar(c as u32),
    decreases chars.len(),
{
    if chars.len() == 0 {
        assert(chars.push(c).drop_first() =~= Seq::<char>::empty());
        assert(encode_utf8(chars.push(c)) =~= encode_scalar(c as u32) + encode_utf8(
            Seq::<char>::empty(),
        ));
        assert(encode_utf8(chars) + encode_scalar(c as u32) =~= encode_scalar(c as u32));
    } else {
        lemma_encode_utf8_push(chars.drop_first(), c);
        assert(chars.push(c).drop_first() =~= chars.drop_first().push(c));
        assert(encode_utf8(chars.push(c)) =~= encode_utf8(chars) + encode_scalar(c as u32));
    }
}

/// The characters that lossy UTF-8 decoding makes of `bytes`: the
/// characters that the bytes encode, with the replacement character U+FFFD
/// in place of each stretch that is not valid UTF-8.
pub uninterp spec fn lossy_text(bytes: Seq<u8>) -> Seq<char>;

/// Calls `String::from_utf8_lossy` and takes ownership of what it returns.
/// The standard library documents that valid UTF-8 comes back as the string
/// it encodes, and that invalid sequences are replaced by U+FFFD; how the
/// invalid stretches are divided up is left to `lossy_text`.
#[verifier::external_body]
pub(crate) fn decode_lossy(bytes: &[u8]) -> (s: String)
    ensures
        s@ == lossy_text(bytes@),
        valid_utf8(bytes@) ==> s@ == decode_utf8(bytes@),
{
    String::from_utf8_lossy(bytes).into_owned()
}

/// Whether `byte` continues the encoding of a scalar value.
fn is_continuation(byte: u8) -> (r: bool)
    ensures
        r == vstd::utf8::is_continuation_byte(byte),
{
    0x80 <= byte && byte <= 0xBF
}

/// Reads the scalar value whose encoding begins at index `i` of `bytes`,
/// and tells how many bytes encode it. `None` if no valid encoding begins
/// there.
pub fn first_scalar(bytes: &[u8], i: usize) -> (r: Option<(u32, usize)>)
    requires
        i < bytes@.len(),
    ensures
        match r {
            Some((scalar, width)) => {
                &&& valid_first_scalar(bytes@.subrange(i as int, bytes@.len() as int))
                &&& scalar == decode_first_scalar(bytes@.subrange(i as int, bytes@.len() as int))
                &&& width == length_of_first_scalar(
                    bytes@.subrange(i as int, bytes@.len() as int),
                )
                &&& 1 <= width <= 4
                &&& i + width <= bytes@.len()
                &&& is_scalar(scalar)
                &&& encode_scalar(scalar).len() == width
            },
            None => !valid_first_scalar(bytes@.subrange(i as int, bytes@.len() as int)),
        },
{
    let ghost rest = bytes@.subrange(i as int, bytes@.len() as int);
    let n = bytes.len();
    let b0 = bytes[i];
    assert(rest[0] == b0);
    if b0 <= 0x7F {
        let scalar = (b0 & 0x7F) as u32;
        assert(scalar <= 0x7F) by (bit_vector)
            requires
                scalar == (b0 & 0x7F) as u32,
        ;
        Some((scalar, 1))
    } else if 0xC0 <= b0 && b0 <= 0xDF {
        if n - i < 2 {
            return None;
        }
        let b1 = bytes[i + 1];
        assert(rest[1] == b1);
        if !is_continuation(b1) {
            return None;
        }
        let scalar = (((b0 & 0x1F) as u32) << 6) | ((b1 & 0x3F) as u32);
        assert(scalar <= 0x7FF) by (bit_vector)
            requires
                scalar == (((b0 & 0x1F) as u32) << 6) | ((b1 & 0x3F) as u32),
        ;
        if scalar >= 0x80 {
            Some((scalar, 2))
        } else {
            None
        }
    } else if 0xE0 <= b0 && b0 <= 0xEF {
        if n - i < 3 {
            return None;
        }
        let b1 = bytes[i + 1];
        let b2 = bytes[i + 2];
        assert(rest[1] == b1 && rest[2] == b2);
        if !is_continuation(b1) || !is_continuation(b2) {
            return None;
        }
        let scalar = (((b0 & 0x0F) as u32) << 12) | (((b1 & 0x3F) as u32) << 6) | ((b2
            & 0x3F) as u32);
        assert(scalar <= 0xFFFF) by (bit_vector)
            requires
                scalar == (((b0 & 0x0F) as u32) << 12) | (((b1 & 0x3F) as u32) << 6) | ((b2
                    & 0x3F) as u32),
        ;
        if scalar >= 0x800 && !(0xD800 <= scalar && scalar <= 0xDFFF) {
            Some((scalar, 3))
        } else {
            None
        }
    } else if 0xF0 <= b0 && b0 <= 0xF7 {
        if n - i < 4 {
            return None;
        }
        let b1 = bytes[i + 1];
        let b2 = bytes[i + 2];
        let b3 = bytes[i + 3];
        assert(rest[1] == b1 && rest[2] == b2 && rest[3] == b3);
        if !is_continuation(b1) || !is_continuation(b2) || !is_continuation(b3) {
            return None;
        }
        let scalar = (((b0 & 0x07) as u32) << 18) | (((b1 & 0x3F) as u32) << 12) | (((b2
            & 0x3F) as u32) << 6) | ((b3 & 0x3F) as u32);
        if 0x10000 <= scalar && scalar <= 0x10FFFF {
            Some((scalar, 4))
        } else {
            None
        }
    } else {
        None
    }
}

/// Appends the UTF-8 encoding of `scalar` to `out`.
pub fn push_scalar(out: &mut Vec<u8>, scalar: u32)
    requires
        is_scalar(scalar),
    ensures
        final(out)@ == old(out)@ + encode_scalar(scalar),
{
    if scalar <= 0x7F {
        out.push(#[verifier::truncate] ((scalar & 0x7F) as u8));
        assert(out@ =~= old(out)@ + encode_scalar(scalar));
    } else if scalar <= 0x7FF {
        out.push(0xC0 | #[verifier::truncate] (((scalar >> 6) & 0x1F) as u8));
        out.push(0x80 | #[verifier::truncate] ((scalar & 0x3F) as u8));
        assert(out@ =~= old(out)@ + encode_scalar(scalar));
    } else if scalar <= 0xFFFF {
        out.push(0xE0 | #[verifier::truncate] (((scalar >> 12) & 0x0F) as u8));
        out.push(0x80 | #[verifier::truncate] (((scalar >> 6) & 0x3F) as u8));
        out.push(0x80 | #[verifier::truncate] ((scalar & 0x3F) as u8));
        assert(out@ =~= old(out)@ + encode_scalar(scalar));
    } else {
        out.push(0xF0 | #[verifier::truncate] (((scalar >> 18) & 0x7) as u8));
        out.push(0x80 | #[verifier::truncate] (((scalar >> 12) & 0x3F) as u8));
        out.push(0x80 | #[verifier::truncate] (((scalar >> 6) & 0x3F) as u8));
        out.push(0x80 | #[verifier::truncate] ((scalar & 0x3F) as u8));
        assert(out@ =~= old(out)@ + encode_scalar(scalar));
    }
}

/// Whether `bytes` are valid UTF-8.
pub fn is_valid_utf8(bytes: &[u8]) -> (r: bool)
    ensures
        r == valid_utf8(bytes@),
{
    let n = bytes.len();
    let mut i: usize = 0;
    proof {
        assert(bytes@.subrange(0, n as int) =~= bytes@);
    }
    while i < n
        invariant
            0 <= i <= n,
            n == bytes@.len(),
            valid_utf8(bytes@) <==> valid_utf8(bytes@.subrange(i as int, n as int)),
        decreases n - i,
    {
        let ghost rest = bytes@.subrange(i as int, n as int);
        match first_scalar(bytes, i) {
            Some((_, width)) => {
                proof {
                    assert(pop_first_scalar(rest) =~= bytes@.subrange(i + width, n as int));
                }
                i += width;
            },
            None => {
                return false;
            },
        }
    }
    proof {
        assert(bytes@.subrange(n as int, n as int) =~= Seq::<u8>::empty());
    }
    true
}

/// Decodes `bytes` as UTF-8 that may be broken and appends the result,
/// encoded as UTF-8, to `out`: valid stretches are copied, and each byte
/// that begins no valid encoding becomes U+FFFD.
pub fn push_utf8_lossy(out: &mut Vec<u8>, bytes: &[u8])
    ensures
        final(out)@ == old(out)@ + encode_utf8(utf8_lossy(bytes@)),
        final(out)@.len() <= old(out)@.len() + 3 * bytes@.len(),
{
    let n = bytes.len();
    let mut i: usize = 0;
    let ghost mut done: Seq<char> = Seq::empty();
    proof {
        assert(bytes@.subrange(0, n as int) =~= bytes@);
        assert(old(out)@ + encode_utf8(done) =~= old(out)@);
    }
    while i < n
        invariant
            0 <= i <= n,
            n == bytes@.len(),
            done + utf8_lossy(bytes@.subrange(i as int, n as int)) == utf8_lossy(bytes@),
            out@ == old(out)@ + encode_utf8(done),
            out@.len() <= old(out)@.len() + 3 * i,
        decreases n - i,
    {
        let ghost rest = bytes@.subrange(i as int, n as int);
        let ghost before = out@;
        let (scalar, width) = match first_scalar(bytes, i) {
            Some(found) => found,
            None => (REPLACEMENT, 1),
        };
        push_scalar(out, scalar);
        proof {
            let c = scalar as char;
            assert(c as u32 == scalar);
            let after = bytes@.subrange(i + width, n as int);
            if valid_first_scalar(rest) {
                assert(pop_first_scalar(rest) =~= after);
            } else {
                assert(rest.subrange(1, rest.len() as int) =~= after);
            }
            assert(utf8_lossy(rest) == seq![c] + utf8_lossy(after));
            assert(done.push(c) + utf8_lossy(after) =~= done + utf8_lossy(rest));
            lemma_encode_utf8_push(done, c);
            assert(before + encode_scalar(scalar) =~= old(out)@ + (encode_utf8(done)
                + encode_scalar(scalar)));
            done = done.push(c);
        }
        i += width;
    }
    proof {
        assert(bytes@.subrange(n as int, n as int) =~= Seq::<u8>::empty());
        assert(done + Seq::<char>::empty() =~= done);
    }
}

} // verus!
