//! Lines of text as the bytes of a file, and the proof that the reader takes
//! them apart again.

use crate::parser::error::Fault;
use crate::parser::source::{after_line, first_line, lemma_line_len_step, line_len};
use crate::util::after;
use vstd::prelude::*;
use vstd::utf8::{
    char_is_scalar, encode_scalar, encode_utf8, encode_utf8_decode_utf8, encode_utf8_valid_utf8,
    has_width_1_encoding,
};

verus! {

/// The bytes of the lines `lines` in UTF-8, one line after the other.
pub open spec fn line_bytes(lines: Seq<Seq<char>>) -> Seq<u8>
    decreases lines.len(),
{
    if lines.len() == 0 {
        Seq::empty()
    } else {
        encode_utf8(lines[0]) + line_bytes(lines.drop_first())
    }
}

/// The number of the line that comes `n` lines after line `line`.
pub open spec fn advanced(line: usize, n: nat) -> usize
    decreases n,
{
    if n == 0 {
        line
    } else {
        advanced(after(line), (n - 1) as nat)
    }
}

/// Whether `l` is one line: it ends with a line feed and holds no other.
pub open spec fn is_line(l: Seq<char>) -> bool {
    l.len() > 0 && l.last() == '\n' && forall|i: int| 0 <= i < l.len() - 1 ==> #[trigger] l[i] != '\n'
}

/// A character of one byte is written as the byte of a line feed only if it
/// is a line feed.
proof fn lemma_width_1(u: u32)
    by (bit_vector)
    requires
        u <= 0x7F,
    ensures
        (u & 0x7F) as u8 == 10 <==> u == 10,
{
}

/// No byte of a character of several bytes is the byte of a line feed.
proof fn lemma_leading(u: u32)
    by (bit_vector)
    ensures
        0xC0u8 | ((u >> 6) & 0x1F) as u8 != 10,
        0xE0u8 | ((u >> 12) & 0x0F) as u8 != 10,
        0xF0u8 | ((u >> 18) & 0x7) as u8 != 10,
        0x80u8 | (u & 0x3F) as u8 != 10,
        0x80u8 | ((u >> 6) & 0x3F) as u8 != 10,
        0x80u8 | ((u >> 12) & 0x3F) as u8 != 10,
{
}

/// The encoding of a character holds the byte of a line feed only where the
/// character is a line feed, whose encoding is that byte alone.
pub proof fn lemma_scalar_line_feed(c: char)
    ensures
        c != '\n' ==> forall|j: int|
            0 <= j < encode_scalar(c as u32).len() ==> #[trigger] encode_scalar(c as u32)[j] != 10,
        c == '\n' ==> encode_scalar(c as u32) == seq![10u8],
        encode_scalar(c as u32).len() > 0,
{
    let u = c as u32;
    char_is_scalar(c);
    lemma_leading(u);
    if has_width_1_encoding(u) {
        lemma_width_1(u);
        if c == '\n' {
            assert(encode_scalar(u) =~= seq![10u8]);
        }
    }
}

/// The encoding of two texts in a row is the encoding of the one and then
/// the encoding of the other.
pub proof fn lemma_encode_concat(a: Seq<char>, b: Seq<char>)
    ensures
        encode_utf8(a + b) == encode_utf8(a) + encode_utf8(b),
    decreases a.len(),
{
    if a.len() == 0 {
        assert(a + b =~= b);
        assert(encode_utf8(a) + encode_utf8(b) =~= encode_utf8(b));
    } else {
        lemma_encode_concat(a.drop_first(), b);
        assert((a + b).drop_first() =~= a.drop_first() + b);
        assert(encode_utf8(a + b) =~= encode_utf8(a) + encode_utf8(b));
    }
}

/// The encoding of a text without a line feed holds no byte of a line feed.
pub proof fn lemma_encode_no_line_feed(s: Seq<char>)
    requires
        forall|i: int| 0 <= i < s.len() ==> #[trigger] s[i] != '\n',
    ensures
        forall|j: int| 0 <= j < encode_utf8(s).len() ==> #[trigger] encode_utf8(s)[j] != 10,
    decreases s.len(),
{
    if s.len() > 0 {
        lemma_scalar_line_feed(s[0]);
        lemma_encode_no_line_feed(s.drop_first());
        let head = encode_scalar(s[0] as u32);
        let rest = encode_utf8(s.drop_first());
        assert forall|j: int| 0 <= j < encode_utf8(s).len() implies #[trigger] encode_utf8(s)[j]
            != 10 by {
            if j < head.len() {
                assert(encode_utf8(s)[j] == head[j]);
            } else {
                assert(encode_utf8(s)[j] == rest[j - head.len()]);
            }
        }
    }
}

/// The bytes of a line, with whatever follows them, are read as that line,
/// and what follows is left.
pub proof fn lemma_first_line(l: Seq<char>, rest: Seq<u8>)
    requires
        is_line(l),
    ensures
        first_line(encode_utf8(l) + rest) == Ok::<Seq<char>, Fault>(l),
        after_line(encode_utf8(l) + rest) == rest,
        (encode_utf8(l) + rest).len() > rest.len(),
{
    let body = l.drop_last();
    let bytes = encode_utf8(l) + rest;
    assert(l =~= body + seq!['\n']);
    lemma_encode_concat(body, seq!['\n']);
    lemma_scalar_line_feed('\n');
    let feed = seq!['\n'];
    assert(feed.len() == 1 && feed[0] == '\n');
    assert(feed.drop_first().len() == 0);
    assert(encode_utf8(feed.drop_first()) =~= Seq::<u8>::empty());
    assert(encode_utf8(feed) == encode_scalar(feed[0] as u32) + encode_utf8(feed.drop_first()));
    assert(encode_utf8(feed) =~= seq![10u8]);
    assert forall|i: int| 0 <= i < body.len() implies #[trigger] body[i] != '\n' by {
        assert(body[i] == l[i]);
    }
    lemma_encode_no_line_feed(body);
    let n = encode_utf8(body).len() as int;
    assert forall|k: int| 0 <= k < n implies bytes[k] != 10 by {
        assert(bytes[k] == encode_utf8(body)[k]);
    }
    lemma_line_len_step(bytes, n);
    assert(bytes.skip(n)[0] == 10);
    assert(line_len(bytes) == n + 1);
    assert(bytes.take(n + 1) =~= encode_utf8(l));
    assert(bytes.skip(n + 1) =~= rest);
    encode_utf8_valid_utf8(l);
    encode_utf8_decode_utf8(l);
}

} // verus!
