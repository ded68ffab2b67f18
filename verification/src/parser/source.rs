//! The bytes of a file, read from the front: line by line, or a given number
//! of bytes at a time.

use super::error::Fault;
use vstd::prelude::*;
use vstd::utf8::{decode_utf8, valid_utf8};

verus! {

/// The length of the first line of `bytes`, its line feed included; the
/// length of `bytes` if they hold no line feed.
pub open spec fn line_len(bytes: Seq<u8>) -> int
    decreases bytes.len(),
{
    if bytes.len() == 0 {
        0
    } else if bytes[0] == 10 {
        1
    } else {
        1 + line_len(bytes.drop_first())
    }
}

/// The first line lies within the bytes, and is not empty where a byte is
/// left.
pub proof fn lemma_line_len(bytes: Seq<u8>)
    ensures
        0 <= line_len(bytes) <= bytes.len(),
        bytes.len() > 0 ==> line_len(bytes) > 0,
    decreases bytes.len(),
{
    if bytes.len() > 0 && bytes[0] != 10 {
        lemma_line_len(bytes.drop_first());
    }
}

/// A first line that has no line feed among its first `n` bytes goes on after
/// them.
pub proof fn lemma_line_len_step(bytes: Seq<u8>, n: int)
    requires
        0 <= n <= bytes.len(),
        forall|k: int| 0 <= k < n ==> bytes[k] != 10,
    ensures
        line_len(bytes) == n + line_len(bytes.skip(n)),
    decreases n,
{
    if n > 0 {
        lemma_line_len_step(bytes.drop_first(), n - 1);
        assert(bytes.drop_first().skip(n - 1) =~= bytes.skip(n));
    } else {
        assert(bytes.skip(0) =~= bytes);
    }
}

/// What the first line of `bytes` holds: its text, or why it has none. No
/// line is left where no byte is left.
pub open spec fn first_line(bytes: Seq<u8>) -> Result<Seq<char>, Fault> {
    let raw = bytes.take(line_len(bytes));
    if bytes.len() == 0 {
        Err(Fault::UnexpectedEof(1))
    } else if !valid_utf8(raw) {
        Err(Fault::InvalidText)
    } else {
        Ok(decode_utf8(raw))
    }
}

/// What is left of `bytes` after their first line.
pub open spec fn after_line(bytes: Seq<u8>) -> Seq<u8> {
    bytes.skip(line_len(bytes))
}

/// The text that `bytes` encode in UTF-8, if they encode one. This is
/// `core::str::from_utf8`: it accepts the byte sequences that are
/// well-formed UTF-8 and no others, and the text it gives is the one they
/// encode.
#[verifier::external_body]
fn text_in(bytes: &[u8]) -> (r: Option<&str>)
    ensures
        r is Some <==> valid_utf8(bytes@),
        r is Some ==> r.unwrap()@ == decode_utf8(bytes@),
{
    core::str::from_utf8(bytes).ok()
}

/// A source of bytes that is read from the front.
#[derive(Debug)]
pub struct Source {
    data: Vec<u8>,
    position: usize,
}

impl Source {
    /// The reading position lies within the data.
    #[verifier::type_invariant]
    spec fn inv(self) -> bool {
        self.position <= self.data@.len()
    }

    /// The bytes that have not been read yet.
    pub closed spec fn rest(self) -> Seq<u8> {
        self.data@.skip(self.position as int)
    }

    /// A source that gives the bytes of `data`.
    pub fn new(data: Vec<u8>) -> (r: Self)
        ensures
            r.rest() == data@,
    {
        let r = Source { data, position: 0 };
        assert(r.rest() =~= data@);
        r
    }

    /// The number of bytes that have not been read yet.
    pub fn remaining(&self) -> (r: usize)
        ensures
            r == self.rest().len(),
    {
        proof {
            use_type_invariant(self);
        }
        self.data.len() - self.position
    }

    /// The next `n` bytes, which stay unread.
    pub fn peek(&self, n: usize) -> (r: Result<&[u8], Fault>)
        ensures
            match r {
                Ok(b) => n <= self.rest().len() && b@ == self.rest().take(n as int),
                Err(f) => n > self.rest().len() && f == Fault::UnexpectedEof(
                    (n - self.rest().len()) as usize,
                ),
            },
    {
        proof {
            use_type_invariant(self);
        }
        let left = self.data.len() - self.position;
        if n > left {
            return Err(Fault::UnexpectedEof(n - left));
        }
        let b = vstd::slice::slice_subrange(self.data.as_slice(), self.position, self.position + n);
        assert(b@ =~= self.rest().take(n as int));
        Ok(b)
    }

    /// Passes over the next `n` bytes.
    pub fn advance(&mut self, n: usize)
        requires
            n <= old(self).rest().len(),
        ensures
            final(self).rest() == old(self).rest().skip(n as int),
    {
        proof {
            use_type_invariant(&*self);
        }
        let ghost before = self.rest();
        let total = self.data.len();
        assert(before.len() == total - self.position);
        self.position = self.position + n;
        assert(self.rest() =~= before.skip(n as int));
    }

    /// Reads the next `n` bytes. Where fewer are left, none is read.
    pub fn read_exact(&mut self, n: usize) -> (r: Result<Vec<u8>, Fault>)
        ensures
            match r {
                Ok(b) => {
                    &&& n <= old(self).rest().len()
                    &&& b@ == old(self).rest().take(n as int)
                    &&& final(self).rest() == old(self).rest().skip(n as int)
                },
                Err(f) => {
                    &&& n > old(self).rest().len()
                    &&& f == Fault::UnexpectedEof((n - old(self).rest().len()) as usize)
                    &&& final(self).rest() == old(self).rest()
                },
            },
    {
        let bytes = match self.peek(n) {
            Ok(b) => vstd::slice::slice_to_vec(b),
            Err(f) => {
                return Err(f);
            },
        };
        self.advance(n);
        Ok(bytes)
    }

    /// Reads the next line, its line ending included. The last line of a
    /// source may lack the line ending. A line that is no text in UTF-8 is
    /// passed over all the same.
    pub fn read_line(&mut self) -> (r: Result<String, Fault>)
        ensures
            final(self).rest() == after_line(old(self).rest()),
            match r {
                Ok(t) => first_line(old(self).rest()) == Ok::<Seq<char>, Fault>(t@),
                Err(f) => first_line(old(self).rest()) == Err::<Seq<char>, Fault>(f),
            },
    {
        proof {
            use_type_invariant(&*self);
        }
        let ghost before = self.rest();
        let start = self.position;
        let mut end = start;
        while end < self.data.len() && self.data[end] != 10
            invariant
                start <= end <= self.data@.len(),
                start == self.position,
                before == self.rest(),
                forall|k: int| 0 <= k < end - start ==> before[k] != 10,
            decreases self.data@.len() - end,
        {
            end += 1;
        }
        proof {
            lemma_line_len_step(before, end - start);
            lemma_line_len(before.skip(end - start));
            if end < self.data@.len() {
                assert(before.skip(end - start)[0] == 10);
            }
        }
        if end < self.data.len() {
            end += 1;
        }
        assert(end - start == line_len(before));
        if end == start {
            return Err(Fault::UnexpectedEof(1));
        }
        let raw = vstd::slice::slice_subrange(self.data.as_slice(), start, end);
        assert(raw@ =~= before.take(line_len(before)));
        let r = match text_in(raw) {
            Some(t) => Ok(t.to_owned()),
            None => Err(Fault::InvalidText),
        };
        self.position = end;
        assert(self.rest() =~= after_line(before));
        r
    }
}

} // verus!
