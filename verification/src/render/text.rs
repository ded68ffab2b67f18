//! Numbers written in decimal digits, and words written with one space
//! between them.

use crate::parser::grammar::{slice, words};
use crate::text::{
    blank_end, decimal, digit_end, digit_value, has_blank, has_line_break, is_blank, is_digit,
    is_line_break, lemma_blank_end, lemma_digit_end_step, lemma_word_end, lemma_word_end_step,
    word_end,
};
use vstd::prelude::*;

verus! {

/// The digit that stands for `d`, a number below ten.
pub open spec fn digit_char(d: int) -> char {
    if d == 0 {
        '0'
    } else if d == 1 {
        '1'
    } else if d == 2 {
        '2'
    } else if d == 3 {
        '3'
    } else if d == 4 {
        '4'
    } else if d == 5 {
        '5'
    } else if d == 6 {
        '6'
    } else if d == 7 {
        '7'
    } else if d == 8 {
        '8'
    } else {
        '9'
    }
}

/// The number `n` in decimal digits, without leading zeros.
pub open spec fn digits(n: nat) -> Seq<char>
    decreases n,
{
    if n < 10 {
        seq![digit_char(n as int)]
    } else {
        digits(n / 10).push(digit_char((n % 10) as int))
    }
}

/// The whole number `v` in decimal digits, with a minus sign before them if
/// it is negative.
pub open spec fn integer_text(v: int) -> Seq<char> {
    if v < 0 {
        seq!['-'] + digits((-v) as nat)
    } else {
        digits(v as nat)
    }
}

/// A text that can stand as one word of a line: it is not empty and holds no
/// space, no tab and no line break.
pub open spec fn is_word(w: Seq<char>) -> bool {
    w.len() > 0 && !has_blank(w) && !has_line_break(w)
}

/// The words `ws` in a row, with one space between each two.
pub open spec fn joined(ws: Seq<Seq<char>>) -> Seq<char>
    decreases ws.len(),
{
    if ws.len() == 0 {
        Seq::empty()
    } else if ws.len() == 1 {
        ws[0]
    } else {
        ws[0] + seq![' '] + joined(ws.drop_first())
    }
}

/// A digit stands for its number.
pub proof fn lemma_digit_char(d: int)
    requires
        0 <= d < 10,
    ensures
        is_digit(digit_char(d)),
        digit_value(digit_char(d)) == d,
        !is_blank(digit_char(d)),
        !is_line_break(digit_char(d)),
{
}

/// The digits of a number are digits, and spell the number.
pub proof fn lemma_digits(n: nat)
    ensures
        digits(n).len() > 0,
        forall|i: int| 0 <= i < digits(n).len() ==> is_digit(#[trigger] digits(n)[i]),
        decimal(digits(n)) == n,
        digit_end(digits(n), 0) == digits(n).len(),
        is_word(digits(n)),
    decreases n,
{
    let s = digits(n);
    if n < 10 {
        lemma_digit_char(n as int);
        assert(s.drop_last() =~= Seq::<char>::empty());
        assert(decimal(s.drop_last()) == 0);
    } else {
        lemma_digits(n / 10);
        lemma_digit_char((n % 10) as int);
        assert(s.drop_last() =~= digits(n / 10));
    }
    assert forall|i: int| 0 <= i < s.len() implies is_digit(#[trigger] s[i]) && !is_blank(s[i])
        && !is_line_break(s[i]) by {
        if n >= 10 && i < s.len() - 1 {
            assert(s[i] == digits(n / 10)[i]);
        }
    }
    lemma_digit_end_step(s, 0, s.len() as int);
}

/// Scanning for the end of the blanks in the later part of a text is
/// scanning in that part alone.
pub proof fn lemma_blank_end_shift(p: Seq<char>, r: Seq<char>, i: int)
    requires
        0 <= i <= r.len(),
    ensures
        blank_end(p + r, p.len() + i) == p.len() + blank_end(r, i),
    decreases r.len() - i,
{
    if i < r.len() {
        assert((p + r)[p.len() + i] == r[i]);
        if is_blank(r[i]) {
            lemma_blank_end_shift(p, r, i + 1);
        }
    }
}

/// Scanning for the end of a word in the later part of a text is scanning
/// in that part alone.
pub proof fn lemma_word_end_shift(p: Seq<char>, r: Seq<char>, i: int)
    requires
        0 <= i <= r.len(),
    ensures
        word_end(p + r, p.len() + i) == p.len() + word_end(r, i),
    decreases r.len() - i,
{
    if i < r.len() {
        assert((p + r)[p.len() + i] == r[i]);
        if !is_blank(r[i]) {
            lemma_word_end_shift(p, r, i + 1);
        }
    }
}

/// The words in the later part of a text are the words of that part alone,
/// each moved by the length of the earlier part.
pub proof fn lemma_words_shift(p: Seq<char>, r: Seq<char>, i: int)
    requires
        0 <= i <= r.len(),
    ensures
        words(p + r, p.len() + i).len() == words(r, i).len(),
        forall|k: int|
            0 <= k < words(r, i).len() ==> (#[trigger] words(p + r, p.len() + i)[k]) == (
                words(r, i)[k].0 + p.len(),
                words(r, i)[k].1 + p.len(),
            ),
    decreases r.len() - i,
{
    let s = p + r;
    lemma_blank_end_shift(p, r, i);
    lemma_blank_end(r, i);
    let a = blank_end(r, i);
    if a < r.len() {
        lemma_word_end_shift(p, r, a);
        lemma_word_end(r, a);
        let b = word_end(r, a);
        lemma_words_shift(p, r, b);
        assert(words(r, i) =~= seq![(a, b)] + words(r, b));
        assert(words(s, p.len() + i) =~= seq![(p.len() + a, p.len() + b)] + words(
            s,
            p.len() + b,
        ));
        assert forall|k: int| 0 <= k < words(r, i).len() implies (#[trigger] words(
            s,
            p.len() + i,
        )[k]) == (words(r, i)[k].0 + p.len(), words(r, i)[k].1 + p.len()) by {
            if k > 0 {
                assert(words(r, i)[k] == words(r, b)[k - 1]);
                assert(words(s, p.len() + i)[k] == words(s, p.len() + b)[k - 1]);
            }
        }
    }
}

/// Words in a row hold no line break, and start with the first word.
pub proof fn lemma_joined(ws: Seq<Seq<char>>)
    requires
        ws.len() > 0,
        forall|k: int| 0 <= k < ws.len() ==> is_word(#[trigger] ws[k]),
    ensures
        joined(ws).len() >= ws[0].len(),
        joined(ws).subrange(0, ws[0].len() as int) == ws[0],
        !has_line_break(joined(ws)),
        !is_blank(joined(ws)[0]),
        !is_blank(joined(ws).last()),
        !is_line_break(joined(ws).last()),
    decreases ws.len(),
{
    let s = joined(ws);
    let w = ws[0];
    assert(is_word(w));
    if ws.len() == 1 {
        assert(s.subrange(0, w.len() as int) =~= w);
    } else {
        let rest = ws.drop_first();
        assert forall|k: int| 0 <= k < rest.len() implies is_word(#[trigger] rest[k]) by {
            assert(rest[k] == ws[k + 1]);
        }
        lemma_joined(rest);
        let r = joined(rest);
        assert(s.subrange(0, w.len() as int) =~= w);
        assert(s[0] == w[0]);
        assert(s.last() == r.last());
        assert forall|i: int| 0 <= i < s.len() implies !is_line_break(#[trigger] s[i]) by {
            if i < w.len() {
                assert(s[i] == w[i]);
            } else if i > w.len() {
                assert(s[i] == r[i - w.len() - 1]);
            }
        }
    }
}

/// The words of words in a row are those words.
pub proof fn lemma_words_of_joined(ws: Seq<Seq<char>>)
    requires
        forall|k: int| 0 <= k < ws.len() ==> is_word(#[trigger] ws[k]),
    ensures
        words(joined(ws), 0).len() == ws.len(),
        forall|k: int|
            0 <= k < ws.len() ==> slice(joined(ws), #[trigger] words(joined(ws), 0)[k]) == ws[k],
        forall|k: int|
            0 <= k < ws.len() ==> 0 <= (#[trigger] words(joined(ws), 0)[k]).0 <= words(
                joined(ws),
                0,
            )[k].1 <= joined(ws).len(),
    decreases ws.len(),
{
    let s = joined(ws);
    if ws.len() == 0 {
    } else {
        let w = ws[0];
        assert(is_word(w));
        let n = w.len() as int;
        lemma_joined(ws);
        assert forall|j: int| 0 <= j < n implies !is_blank(#[trigger] s[j]) by {
            assert(s.subrange(0, n)[j] == s[j]);
        }
        lemma_word_end_step(s, 0, n);
        if ws.len() == 1 {
            assert(word_end(s, n) == n);
            assert(blank_end(s, n) == n);
            assert(words(s, n) =~= Seq::empty());
            assert(words(s, 0) =~= seq![(0int, n)]);
            assert(slice(s, words(s, 0)[0]) =~= w);
        } else {
            let rest = ws.drop_first();
            assert forall|k: int| 0 <= k < rest.len() implies is_word(#[trigger] rest[k]) by {
                assert(rest[k] == ws[k + 1]);
            }
            let r = joined(rest);
            lemma_joined(rest);
            lemma_words_of_joined(rest);
            let p = w + seq![' '];
            assert(s =~= p + r);
            assert(s[n] == ' ');
            assert(word_end(s, n) == n);
            assert(words(s, 0) =~= seq![(0int, n)] + words(s, n));
            // the blank after the first word is passed over
            assert(s[n + 1] == r[0]);
            assert(blank_end(s, n + 1) == n + 1);
            assert(blank_end(s, n) == n + 1);
            assert(words(s, n) =~= words(s, n + 1));
            lemma_words_shift(p, r, 0);
            assert(words(s, 0).len() == ws.len());
            assert forall|k: int| 0 <= k < ws.len() implies slice(s, #[trigger] words(s, 0)[k])
                == ws[k] && 0 <= words(s, 0)[k].0 <= words(s, 0)[k].1 <= s.len() by {
                if k == 0 {
                    assert(slice(s, words(s, 0)[0]) =~= w);
                } else {
                    let span = words(r, 0)[k - 1];
                    assert(words(s, 0)[k] == words(s, n + 1)[k - 1]);
                    assert(words(s, n + 1)[k - 1] == (span.0 + n + 1, span.1 + n + 1));
                    assert(slice(r, span) == rest[k - 1]);
                    assert(s.subrange(span.0 + n + 1, span.1 + n + 1) =~= r.subrange(
                        span.0,
                        span.1,
                    ));
                }
            }
        }
    }
}

} // verus!
