//! Character classes and scanning over the characters of one line of text.

use vstd::prelude::*;

verus! {

/// A space or a tab: what separates the words of a line.
pub open spec fn is_blank(c: char) -> bool {
    c == ' ' || c == '\t'
}

/// A line feed or a carriage return.
pub open spec fn is_line_break(c: char) -> bool {
    c == '\n' || c == '\r'
}

/// One of the ten decimal digits.
pub open spec fn is_digit(c: char) -> bool {
    '0' <= c && c <= '9'
}

/// The number that a decimal digit stands for.
pub open spec fn digit_value(c: char) -> int {
    c as int - '0' as int
}

/// Whether some character of `s` is a space or a tab.
pub open spec fn has_blank(s: Seq<char>) -> bool {
    exists|i: int| 0 <= i < s.len() && is_blank(#[trigger] s[i])
}

/// Whether some character of `s` is a line feed or a carriage return.
pub open spec fn has_line_break(s: Seq<char>) -> bool {
    exists|i: int| 0 <= i < s.len() && is_line_break(#[trigger] s[i])
}

/// The first position at or after `i` that holds no blank; the length of `s`
/// if only blanks follow.
pub open spec fn blank_end(s: Seq<char>, i: int) -> int
    decreases s.len() - i,
{
    if 0 <= i < s.len() && is_blank(s[i]) {
        blank_end(s, i + 1)
    } else {
        i
    }
}

/// The first position at or after `i` that holds a blank; the length of `s`
/// if none follows.
pub open spec fn word_end(s: Seq<char>, i: int) -> int
    decreases s.len() - i,
{
    if 0 <= i < s.len() && !is_blank(s[i]) {
        word_end(s, i + 1)
    } else {
        i
    }
}

/// The first position at or after `i` that holds no digit; the length of `s`
/// if only digits follow.
pub open spec fn digit_end(s: Seq<char>, i: int) -> int
    decreases s.len() - i,
{
    if 0 <= i < s.len() && is_digit(s[i]) {
        digit_end(s, i + 1)
    } else {
        i
    }
}

/// The first position at or after `i` that holds a line break; the length of
/// `s` if none follows.
pub open spec fn line_end(s: Seq<char>, i: int) -> int
    decreases s.len() - i,
{
    if 0 <= i < s.len() && !is_line_break(s[i]) {
        line_end(s, i + 1)
    } else {
        i
    }
}

/// The length of `s` without the line ending that closes it: a carriage
/// return and a line feed, or one of the two alone.
pub open spec fn stripped_len(s: Seq<char>) -> int {
    if s.len() >= 2 && s[s.len() - 2] == '\r' && s[s.len() - 1] == '\n' {
        s.len() - 2
    } else if s.len() >= 1 && is_line_break(s[s.len() - 1]) {
        s.len() - 1
    } else {
        s.len() as int
    }
}

/// `s` without the line ending that closes it.
pub open spec fn strip_line_end(s: Seq<char>) -> Seq<char> {
    s.take(stripped_len(s))
}

/// The value of a run of decimal digits, read as a number in base ten. The
/// empty run stands for zero.
pub open spec fn decimal(s: Seq<char>) -> nat
    decreases s.len(),
{
    if s.len() == 0 {
        0
    } else {
        (decimal(s.drop_last()) * 10 + digit_value(s.last())) as nat
    }
}

/// Whether `s` is a run of one or more decimal digits.
pub open spec fn is_digits(s: Seq<char>) -> bool {
    s.len() > 0 && forall|i: int| 0 <= i < s.len() ==> is_digit(#[trigger] s[i])
}

/// The scan for the end of the blanks stops within the text, has passed over
/// blanks only, and stops before a character that is no blank.
pub proof fn lemma_blank_end(s: Seq<char>, i: int)
    requires
        0 <= i <= s.len(),
    ensures
        i <= blank_end(s, i) <= s.len(),
        forall|j: int| i <= j < blank_end(s, i) ==> is_blank(#[trigger] s[j]),
        blank_end(s, i) < s.len() ==> !is_blank(s[blank_end(s, i)]),
    decreases s.len() - i,
{
    if i < s.len() && is_blank(s[i]) {
        lemma_blank_end(s, i + 1);
    }
}

/// The scan for the end of a word stops within the text, has passed over no
/// blank, and stops before a blank; it moves on where it starts on a
/// character that is no blank.
pub proof fn lemma_word_end(s: Seq<char>, i: int)
    requires
        0 <= i <= s.len(),
    ensures
        i <= word_end(s, i) <= s.len(),
        forall|j: int| i <= j < word_end(s, i) ==> !is_blank(#[trigger] s[j]),
        word_end(s, i) < s.len() ==> is_blank(s[word_end(s, i)]),
        i < s.len() && !is_blank(s[i]) ==> i < word_end(s, i),
    decreases s.len() - i,
{
    if i < s.len() && !is_blank(s[i]) {
        lemma_word_end(s, i + 1);
    }
}

/// The scan for the end of the digits stops within the text, has passed over
/// digits only, and stops before a character that is no digit.
pub proof fn lemma_digit_end(s: Seq<char>, i: int)
    requires
        0 <= i <= s.len(),
    ensures
        i <= digit_end(s, i) <= s.len(),
        forall|j: int| i <= j < digit_end(s, i) ==> is_digit(#[trigger] s[j]),
        digit_end(s, i) < s.len() ==> !is_digit(s[digit_end(s, i)]),
    decreases s.len() - i,
{
    if i < s.len() && is_digit(s[i]) {
        lemma_digit_end(s, i + 1);
    }
}

/// The scan for a line break stops within the text, has passed over no line
/// break, and stops before one.
pub proof fn lemma_line_end(s: Seq<char>, i: int)
    requires
        0 <= i <= s.len(),
    ensures
        i <= line_end(s, i) <= s.len(),
        forall|j: int| i <= j < line_end(s, i) ==> !is_line_break(#[trigger] s[j]),
        line_end(s, i) < s.len() ==> is_line_break(s[line_end(s, i)]),
    decreases s.len() - i,
{
    if i < s.len() && !is_line_break(s[i]) {
        lemma_line_end(s, i + 1);
    }
}

/// A text holds a line break exactly when the scan for one stops before the
/// end.
pub proof fn lemma_has_line_break(s: Seq<char>)
    ensures
        has_line_break(s) <==> line_end(s, 0) < s.len(),
{
    lemma_line_end(s, 0);
}

/// A scan that has met no line break from `i` up to `j` ends where the scan
/// from `j` ends.
pub proof fn lemma_line_end_step(s: Seq<char>, i: int, j: int)
    requires
        0 <= i <= j <= s.len(),
        forall|k: int| i <= k < j ==> !is_line_break(#[trigger] s[k]),
    ensures
        line_end(s, i) == line_end(s, j),
    decreases j - i,
{
    if i < j {
        lemma_line_end_step(s, i + 1, j);
    }
}

/// A run of digits is worth at least as much as any run it starts with.
pub proof fn lemma_decimal_grows(s: Seq<char>, n: int)
    requires
        0 <= n <= s.len(),
        forall|i: int| 0 <= i < s.len() ==> is_digit(#[trigger] s[i]),
    ensures
        decimal(s.take(n)) <= decimal(s),
    decreases s.len() - n,
{
    if n < s.len() {
        lemma_decimal_grows(s, n + 1);
        let t = s.take(n + 1);
        assert(t.drop_last() =~= s.take(n));
        assert(t.last() == s[n]);
    } else {
        assert(s.take(n) =~= s);
    }
}

/// A scan that has only met blanks from `i` up to `j` ends where the scan
/// from `j` ends.
pub proof fn lemma_blank_end_step(s: Seq<char>, i: int, j: int)
    requires
        0 <= i <= j <= s.len(),
        forall|k: int| i <= k < j ==> is_blank(#[trigger] s[k]),
    ensures
        blank_end(s, i) == blank_end(s, j),
    decreases j - i,
{
    if i < j {
        lemma_blank_end_step(s, i + 1, j);
    }
}

/// A scan that has met no blank from `i` up to `j` ends where the scan from
/// `j` ends.
pub proof fn lemma_word_end_step(s: Seq<char>, i: int, j: int)
    requires
        0 <= i <= j <= s.len(),
        forall|k: int| i <= k < j ==> !is_blank(#[trigger] s[k]),
    ensures
        word_end(s, i) == word_end(s, j),
    decreases j - i,
{
    if i < j {
        lemma_word_end_step(s, i + 1, j);
    }
}

/// A scan that has only met digits from `i` up to `j` ends where the scan
/// from `j` ends.
pub proof fn lemma_digit_end_step(s: Seq<char>, i: int, j: int)
    requires
        0 <= i <= j <= s.len(),
        forall|k: int| i <= k < j ==> is_digit(#[trigger] s[k]),
    ensures
        digit_end(s, i) == digit_end(s, j),
    decreases j - i,
{
    if i < j {
        lemma_digit_end_step(s, i + 1, j);
    }
}

/// The characters of a string, one by one.
pub fn chars_of(s: &str) -> (v: Vec<char>)
    ensures
        v@ == s@,
{
    let mut v: Vec<char> = Vec::new();
    for c in it: s.chars()
        invariant
            v@ == it.seq().take(it.index() as int),
            it.seq() == s@,
    {
        v.push(c);
    }
    v
}

/// Whether `c` is a space or a tab.
pub fn blank(c: char) -> (r: bool)
    ensures
        r == is_blank(c),
{
    c == ' ' || c == '\t'
}

/// Whether `c` is a line feed or a carriage return.
pub fn line_break(c: char) -> (r: bool)
    ensures
        r == is_line_break(c),
{
    c == '\n' || c == '\r'
}

/// Whether `c` is a decimal digit.
pub fn digit(c: char) -> (r: bool)
    ensures
        r == is_digit(c),
{
    '0' <= c && c <= '9'
}

/// Skips the blanks that start at `i`.
pub fn skip_blanks(s: &Vec<char>, i: usize) -> (r: usize)
    requires
        i <= s.len(),
    ensures
        r == blank_end(s@, i as int),
        i <= r <= s.len(),
{
    let mut j: usize = i;
    while j < s.len() && blank(s[j])
        invariant
            i <= j <= s.len(),
            forall|k: int| i <= k < j ==> is_blank(#[trigger] s@[k]),
        decreases s.len() - j,
    {
        j += 1;
    }
    proof {
        lemma_blank_end_step(s@, i as int, j as int);
    }
    j
}

/// Skips the word that starts at `i`.
pub fn skip_word(s: &Vec<char>, i: usize) -> (r: usize)
    requires
        i <= s.len(),
    ensures
        r == word_end(s@, i as int),
        i <= r <= s.len(),
{
    let mut j: usize = i;
    while j < s.len() && !blank(s[j])
        invariant
            i <= j <= s.len(),
            forall|k: int| i <= k < j ==> !is_blank(#[trigger] s@[k]),
        decreases s.len() - j,
    {
        j += 1;
    }
    proof {
        lemma_word_end_step(s@, i as int, j as int);
    }
    j
}

/// Skips the digits that start at `i`.
pub fn skip_digits(s: &Vec<char>, i: usize) -> (r: usize)
    requires
        i <= s.len(),
    ensures
        r == digit_end(s@, i as int),
        i <= r <= s.len(),
{
    let mut j: usize = i;
    while j < s.len() && digit(s[j])
        invariant
            i <= j <= s.len(),
            forall|k: int| i <= k < j ==> is_digit(#[trigger] s@[k]),
        decreases s.len() - j,
    {
        j += 1;
    }
    proof {
        lemma_digit_end_step(s@, i as int, j as int);
    }
    j
}

/// The position of the first line break in `s`, or the length of `s`.
pub fn find_line_break(s: &Vec<char>) -> (r: usize)
    ensures
        r == line_end(s@, 0),
        r <= s.len(),
        (r < s.len()) == has_line_break(s@),
{
    let mut j: usize = 0;
    while j < s.len() && !line_break(s[j])
        invariant
            j <= s.len(),
            forall|k: int| 0 <= k < j ==> !is_line_break(#[trigger] s@[k]),
        decreases s.len() - j,
    {
        j += 1;
    }
    proof {
        lemma_line_end_step(s@, 0, j as int);
        lemma_has_line_break(s@);
    }
    j
}

/// The length of `s` without the line ending that closes it.
pub fn strip(s: &Vec<char>) -> (r: usize)
    ensures
        r == stripped_len(s@),
        r <= s.len(),
{
    let n = s.len();
    if n >= 2 && s[n - 2] == '\r' && s[n - 1] == '\n' {
        n - 2
    } else if n >= 1 && line_break(s[n - 1]) {
        n - 1
    } else {
        n
    }
}

/// The number that the digits of `s` from `from` up to `to` spell, unless it
/// is greater than `max`.
pub fn read_decimal(s: &Vec<char>, from: usize, to: usize, max: u64) -> (r: Option<u64>)
    requires
        from <= to <= s.len(),
        forall|k: int| from <= k < to ==> is_digit(#[trigger] s@[k]),
    ensures
        r == if decimal(s@.subrange(from as int, to as int)) <= max {
            Some(decimal(s@.subrange(from as int, to as int)) as u64)
        } else {
            None
        },
{
    let ghost digits = s@.subrange(from as int, to as int);
    let mut acc: u64 = 0;
    let mut k: usize = from;
    assert(digits.take(0) =~= Seq::<char>::empty());
    while k < to
        invariant
            from <= k <= to <= s.len(),
            digits == s@.subrange(from as int, to as int),
            forall|j: int| from <= j < to ==> is_digit(#[trigger] s@[j]),
            acc == decimal(digits.take(k - from)),
            acc <= max,
        decreases to - k,
    {
        let d: u64 = digit_number(s[k]);
        proof {
            let t = digits.take(k - from + 1);
            assert(t.drop_last() =~= digits.take(k - from));
            assert(t.last() == s@[k as int]);
            lemma_decimal_grows(digits, k - from + 1);
        }
        if acc > max / 10 || (acc == max / 10 && d > max % 10) {
            return None;
        }
        acc = acc * 10 + d;
        k += 1;
    }
    assert(digits.take(to - from) =~= digits);
    Some(acc)
}

/// The number that the digit `c` stands for.
pub fn digit_number(c: char) -> (r: u64)
    requires
        is_digit(c),
    ensures
        r == digit_value(c),
        r <= 9,
{
    (c as u32 - '0' as u32) as u64
}

/// Whether the characters of `s` from `from` up to `to` spell `word`.
pub fn spells(s: &Vec<char>, from: usize, to: usize, word: &str) -> (r: bool)
    requires
        from <= to <= s.len(),
    ensures
        r == (s@.subrange(from as int, to as int) == word@),
{
    let n = word.unicode_len();
    if to - from != n {
        return false;
    }
    let mut k: usize = 0;
    while k < n
        invariant
            k <= n,
            n == word@.len(),
            to - from == n,
            from <= to <= s.len(),
            forall|j: int| 0 <= j < k ==> s@[from + j] == word@[j],
        decreases n - k,
    {
        if s[from + k] != word.get_char(k) {
            assert(s@.subrange(from as int, to as int)[k as int] != word@[k as int]);
            return false;
        }
        k += 1;
    }
    assert(s@.subrange(from as int, to as int) =~= word@);
    true
}

/// A copy of the characters of `line` from `from` up to `to`.
pub fn copy_range(line: &str, from: usize, to: usize) -> (r: String)
    requires
        from <= to <= line@.len(),
    ensures
        r@ == line@.subrange(from as int, to as int),
{
    if line.is_ascii() {
        line.substring_ascii(from, to).to_owned()
    } else {
        line.substring_char(from, to).to_owned()
    }
}

} // verus!
