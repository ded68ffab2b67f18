//! The grammar of the lines of a header and of the lines of an ascii payload.
//!
//! A line is a sequence of words that runs of spaces and tabs separate; it
//! may close with one line ending. The first word of a header line says
//! which statement the line makes.

use crate::ply::{
    ElementDef, ElementDefView, Encoding, PropertyDef, PropertyDefView, PropertyType, ScalarType,
    Version,
};
use crate::text::{
    blank_end, chars_of, copy_range, decimal, digit_end, find_line_break, has_line_break, is_blank,
    is_digit, lemma_blank_end, lemma_digit_end, lemma_word_end, line_end, read_decimal,
    skip_blanks, skip_digits, skip_word, spells, strip, strip_line_end, word_end,
};
use vstd::prelude::*;

verus! {

/// What the grammar looked for where a line stopped making sense.
#[derive(Clone, Copy, Debug, PartialEq, Eq, Structural)]
pub enum Expected {
    /// The first word of a statement.
    Statement,
    /// The name of an encoding.
    Encoding,
    /// A version: two numbers with a dot between them.
    Version,
    /// The name of an element or of a property.
    Name,
    /// A number of records.
    Count,
    /// The name of a scalar type, or `list`.
    DataType,
    /// A decimal number.
    Number,
    /// Nothing more.
    EndOfLine,
}

/// Why a line does not belong to the grammar: the position of the character
/// at which it stops, counted in characters from the start of the line, and
/// what was looked for there.
#[derive(Clone, Copy, Debug, PartialEq, Eq, Structural)]
pub struct SyntaxError {
    pub position: usize,
    pub expected: Expected,
}

/// One statement of a header.
#[derive(Debug, PartialEq, Eq)]
pub enum Line {
    /// The word `ply`, which opens a file.
    MagicNumber,
    /// The encoding of the payload and the version of the format.
    Format((Encoding, Version)),
    /// A comment.
    Comment(String),
    /// An object information.
    ObjInfo(String),
    /// The declaration of an element: its name and the number of its records.
    Element(ElementDef),
    /// The declaration of a property of the element that was declared last.
    Property(PropertyDef),
    /// The end of the header.
    EndHeader,
}

/// What a `Line` stands for in contracts.
pub enum LineView {
    MagicNumber,
    Format((Encoding, Version)),
    Comment(Seq<char>),
    ObjInfo(Seq<char>),
    Element(ElementDefView),
    Property(PropertyDefView),
    EndHeader,
}

impl View for Line {
    type V = LineView;

    open spec fn view(&self) -> LineView {
        match self {
            Line::MagicNumber => LineView::MagicNumber,
            Line::Format(f) => LineView::Format(*f),
            Line::Comment(t) => LineView::Comment(t@),
            Line::ObjInfo(t) => LineView::ObjInfo(t@),
            Line::Element(e) => LineView::Element(e@),
            Line::Property(p) => LineView::Property(p@),
            Line::EndHeader => LineView::EndHeader,
        }
    }
}

/// The words of `s` from position `i` on, each as the pair of the position
/// where it starts and the position where it ends.
pub open spec fn words(s: Seq<char>, i: int) -> Seq<(int, int)>
    decreases s.len() - i,
{
    let a = blank_end(s, i);
    if i < 0 || a >= s.len() {
        Seq::empty()
    } else {
        let b = word_end(s, a);
        proof {
            lemma_blank_end(s, i);
            lemma_word_end(s, a);
        }
        seq![(a, b)] + words(s, b)
    }
}

/// The characters of `s` between the two positions of `span`.
pub open spec fn slice(s: Seq<char>, span: (int, int)) -> Seq<char> {
    s.subrange(span.0, span.1)
}

/// Where word number `k` of `s` starts; the end of `s` if it has no such word.
pub open spec fn word_start(s: Seq<char>, w: Seq<(int, int)>, k: int) -> int {
    if 0 <= k < w.len() {
        w[k].0
    } else {
        s.len() as int
    }
}

/// The failure to find `expected` at `position`.
pub open spec fn failure<T>(position: int, expected: Expected) -> Result<T, SyntaxError> {
    Err(SyntaxError { position: position as usize, expected })
}

/// The encoding that `name` names.
pub open spec fn encoding_named(name: Seq<char>) -> Option<Encoding> {
    if name == "ascii"@ {
        Some(Encoding::Ascii)
    } else if name == "binary_big_endian"@ {
        Some(Encoding::BinaryBigEndian)
    } else if name == "binary_little_endian"@ {
        Some(Encoding::BinaryLittleEndian)
    } else {
        None
    }
}

/// The scalar type that `name` names.
pub open spec fn scalar_named(name: Seq<char>) -> Option<ScalarType> {
    if name == "char"@ {
        Some(ScalarType::Char)
    } else if name == "uchar"@ {
        Some(ScalarType::UChar)
    } else if name == "short"@ {
        Some(ScalarType::Short)
    } else if name == "ushort"@ {
        Some(ScalarType::UShort)
    } else if name == "int"@ {
        Some(ScalarType::Int)
    } else if name == "uint"@ {
        Some(ScalarType::UInt)
    } else if name == "float"@ {
        Some(ScalarType::Float)
    } else if name == "double"@ {
        Some(ScalarType::Double)
    } else {
        None
    }
}

/// The number that `t` spells, if `t` is a run of digits whose value is at
/// most `max`.
pub open spec fn count_of(t: Seq<char>, max: int) -> Option<int> {
    if t.len() > 0 && digit_end(t, 0) == t.len() && decimal(t) <= max {
        Some(decimal(t) as int)
    } else {
        None
    }
}

/// The version that `t` spells: digits, a dot, digits, and nothing else, the
/// first number at most 65535 and the second at most 255.
pub open spec fn version_of(t: Seq<char>) -> Option<Version> {
    let dot = digit_end(t, 0);
    if 0 < dot < t.len() && t[dot] == '.' {
        match (count_of(t.take(dot), u16::MAX as int), count_of(t.skip(dot + 1), u8::MAX as int)) {
            (Some(major), Some(minor)) => Some(Version { major: major as u16, minor: minor as u8 }),
            _ => None,
        }
    } else {
        None
    }
}

/// Whether `t` is a decimal number: an optional sign, digits, an optional
/// fraction of a dot and digits, and an optional exponent of `e` or `E`, an
/// optional sign and digits.
pub open spec fn is_number(t: Seq<char>) -> bool {
    let a: int = if t.len() > 0 && (t[0] == '+' || t[0] == '-') {
        1
    } else {
        0
    };
    let b = digit_end(t, a);
    let has_fraction = b < t.len() && t[b] == '.';
    let c = if has_fraction {
        digit_end(t, b + 1)
    } else {
        b
    };
    let has_exponent = c < t.len() && (t[c] == 'e' || t[c] == 'E');
    let d: int = if has_exponent && c + 1 < t.len() && (t[c + 1] == '+' || t[c + 1] == '-') {
        c + 2
    } else {
        c + 1
    };
    let e = if has_exponent {
        digit_end(t, d)
    } else {
        c
    };
    &&& a < b
    &&& has_fraction ==> b + 1 < c
    &&& has_exponent ==> d < e
    &&& e == t.len()
}

/// The statement that consists of its first word alone.
pub open spec fn bare_statement(s: Seq<char>, w: Seq<(int, int)>, line: LineView) -> Result<
    LineView,
    SyntaxError,
> {
    if w.len() > 1 {
        failure(w[1].0, Expected::EndOfLine)
    } else {
        Ok(line)
    }
}

/// The `format` statement: the name of an encoding and a version.
pub open spec fn format_statement(s: Seq<char>, w: Seq<(int, int)>) -> Result<
    LineView,
    SyntaxError,
> {
    if w.len() < 2 || encoding_named(slice(s, w[1])) is None {
        failure(word_start(s, w, 1), Expected::Encoding)
    } else if w.len() < 3 || version_of(slice(s, w[2])) is None {
        failure(word_start(s, w, 2), Expected::Version)
    } else if w.len() > 3 {
        failure(w[3].0, Expected::EndOfLine)
    } else {
        Ok(
            LineView::Format(
                (encoding_named(slice(s, w[1])).unwrap(), version_of(slice(s, w[2])).unwrap()),
            ),
        )
    }
}

/// The `element` statement: a name and a number of records.
pub open spec fn element_statement(s: Seq<char>, w: Seq<(int, int)>) -> Result<
    LineView,
    SyntaxError,
> {
    if w.len() < 2 {
        failure(s.len() as int, Expected::Name)
    } else if w.len() < 3 || count_of(slice(s, w[2]), usize::MAX as int) is None {
        failure(word_start(s, w, 2), Expected::Count)
    } else if w.len() > 3 {
        failure(w[3].0, Expected::EndOfLine)
    } else {
        Ok(
            LineView::Element(
                ElementDefView {
                    name: slice(s, w[1]),
                    count: count_of(slice(s, w[2]), usize::MAX as int).unwrap() as usize,
                    properties: Seq::empty(),
                },
            ),
        )
    }
}

/// The `property` statement: the name of a scalar type and a name, or `list`,
/// the type of the length, the type of the items and a name.
pub open spec fn property_statement(s: Seq<char>, w: Seq<(int, int)>) -> Result<
    LineView,
    SyntaxError,
> {
    if w.len() < 2 {
        failure(s.len() as int, Expected::DataType)
    } else if slice(s, w[1]) == "list"@ {
        if w.len() < 3 || scalar_named(slice(s, w[2])) is None {
            failure(word_start(s, w, 2), Expected::DataType)
        } else if w.len() < 4 || scalar_named(slice(s, w[3])) is None {
            failure(word_start(s, w, 3), Expected::DataType)
        } else if w.len() < 5 {
            failure(s.len() as int, Expected::Name)
        } else if w.len() > 5 {
            failure(w[5].0, Expected::EndOfLine)
        } else {
            Ok(
                LineView::Property(
                    PropertyDefView {
                        name: slice(s, w[4]),
                        data_type: PropertyType::List(
                            scalar_named(slice(s, w[2])).unwrap(),
                            scalar_named(slice(s, w[3])).unwrap(),
                        ),
                    },
                ),
            )
        }
    } else if scalar_named(slice(s, w[1])) is None {
        failure(w[1].0, Expected::DataType)
    } else if w.len() < 3 {
        failure(s.len() as int, Expected::Name)
    } else if w.len() > 3 {
        failure(w[3].0, Expected::EndOfLine)
    } else {
        Ok(
            LineView::Property(
                PropertyDefView {
                    name: slice(s, w[2]),
                    data_type: PropertyType::Scalar(scalar_named(slice(s, w[1])).unwrap()),
                },
            ),
        )
    }
}

/// What a line without its line ending states. Blanks before the first word
/// and after the last are ignored, but that the text of a comment or of an
/// object information runs to the end of the line.
pub open spec fn statement(s: Seq<char>) -> Result<LineView, SyntaxError> {
    let w = words(s, 0);
    if has_line_break(s) {
        failure(line_end(s, 0), Expected::EndOfLine)
    } else if w.len() == 0 {
        failure(s.len() as int, Expected::Statement)
    } else {
        let keyword = slice(s, w[0]);
        if keyword == "ply"@ {
            bare_statement(s, w, LineView::MagicNumber)
        } else if keyword == "end_header"@ {
            bare_statement(s, w, LineView::EndHeader)
        } else if keyword == "format"@ {
            format_statement(s, w)
        } else if keyword == "comment"@ {
            Ok(LineView::Comment(s.skip(blank_end(s, w[0].1))))
        } else if keyword == "obj_info"@ {
            Ok(LineView::ObjInfo(s.skip(blank_end(s, w[0].1))))
        } else if keyword == "element"@ {
            element_statement(s, w)
        } else if keyword == "property"@ {
            property_statement(s, w)
        } else {
            failure(w[0].0, Expected::Statement)
        }
    }
}

/// What a statement states when it stands alone: as `statement`, but with no
/// blank before its first word, no blank after its last, and no line ending.
/// After `comment` and `obj_info` blanks may follow: they separate the word
/// from an empty text.
pub open spec fn rule(s: Seq<char>) -> Result<LineView, SyntaxError> {
    if s.len() > 0 && is_blank(s[0]) {
        failure(0, Expected::Statement)
    } else {
        match statement(s) {
            Err(e) => Err(e),
            Ok(l) => if !(l is Comment) && !(l is ObjInfo) && is_blank(s.last()) {
                failure(words(s, 0).last().1, Expected::EndOfLine)
            } else {
                Ok(l)
            },
        }
    }
}

/// What a line of a header states.
pub open spec fn line_statement(l: Seq<char>) -> Result<LineView, SyntaxError> {
    statement(strip_line_end(l))
}

/// The number of words of `w`, from word number `k` on, that are decimal
/// numbers before the first that is none.
pub open spec fn number_run(s: Seq<char>, w: Seq<(int, int)>, k: int) -> int
    decreases w.len() - k,
{
    if 0 <= k < w.len() && is_number(slice(s, w[k])) {
        number_run(s, w, k + 1)
    } else {
        k
    }
}

/// The fields of one line of an ascii payload: its words, if each is a
/// decimal number.
pub open spec fn data_fields(l: Seq<char>) -> Result<Seq<Seq<char>>, SyntaxError> {
    let s = strip_line_end(l);
    let w = words(s, 0);
    if has_line_break(s) {
        failure(line_end(s, 0), Expected::EndOfLine)
    } else if number_run(s, w, 0) < w.len() {
        failure(w[number_run(s, w, 0)].0, Expected::Number)
    } else {
        Ok(w.map_values(|span: (int, int)| slice(s, span)))
    }
}

/// Where the count of numbers reaches the end of the words, every word from
/// number `k` on is a decimal number.
proof fn lemma_number_run_full(s: Seq<char>, w: Seq<(int, int)>, k: int)
    requires
        0 <= k <= w.len(),
        number_run(s, w, k) >= w.len(),
    ensures
        forall|i: int| k <= i < w.len() ==> is_number(slice(s, #[trigger] w[i])),
    decreases w.len() - k,
{
    if k < w.len() {
        lemma_number_run_full(s, w, k + 1);
    }
}

/// Every field of a line of an ascii payload is a decimal number: a literal
/// that the reader keeps for a floating-point property is one, too.
pub proof fn lemma_fields_are_numbers(l: Seq<char>)
    ensures
        match data_fields(l) {
            Ok(fields) => forall|i: int| 0 <= i < fields.len() ==> is_number(#[trigger] fields[i]),
            Err(_) => true,
        },
{
    let s = strip_line_end(l);
    let w = words(s, 0);
    if data_fields(l) is Ok {
        lemma_number_run_full(s, w, 0);
        let fields = data_fields(l)->Ok_0;
        assert forall|i: int| 0 <= i < fields.len() implies is_number(#[trigger] fields[i]) by {
            assert(fields[i] == slice(s, w[i]));
        }
    }
}

/// The spans of a list of pairs of positions.
pub open spec fn spans(v: Seq<(usize, usize)>) -> Seq<(int, int)> {
    v.map_values(|p: (usize, usize)| (p.0 as int, p.1 as int))
}

/// Every word lies within the text, is not empty, and words follow one
/// another.
pub proof fn lemma_words(s: Seq<char>, i: int)
    requires
        0 <= i <= s.len(),
    ensures
        forall|k: int|
            0 <= k < words(s, i).len() ==> i <= (#[trigger] words(s, i)[k]).0 < words(s, i)[k].1
                <= s.len(),
        forall|k: int|
            0 <= k < words(s, i).len() - 1 ==> (#[trigger] words(s, i)[k]).1 < words(s, i)[k
                + 1].0,
        forall|k: int|
            0 <= k < words(s, i).len() ==> word_end(s, (#[trigger] words(s, i)[k]).0) == words(
                s,
                i,
            )[k].1,
        words(s, i).len() > 0 ==> words(s, i)[0].0 == blank_end(s, i),
    decreases s.len() - i,
{
    lemma_blank_end(s, i);
    let a = blank_end(s, i);
    if a < s.len() {
        lemma_word_end(s, a);
        let b = word_end(s, a);
        lemma_words(s, b);
        lemma_blank_end(s, b);
        let rest = words(s, b);
        let all = words(s, i);
        assert(all =~= seq![(a, b)] + rest);
        assert forall|k: int| 0 <= k < all.len() implies i <= (#[trigger] all[k]).0 < all[k].1
            <= s.len() by {
            if k > 0 {
                assert(all[k] == rest[k - 1]);
            }
        }
        assert forall|k: int| 0 <= k < all.len() - 1 implies (#[trigger] all[k]).1 < all[k + 1].0 by {
            assert(all[k + 1] == rest[k]);
            if k > 0 {
                assert(all[k] == rest[k - 1]);
            } else {
                assert(is_blank(s[b]));
                assert(rest[0].0 == blank_end(s, b));
            }
        }
        assert forall|k: int| 0 <= k < all.len() implies word_end(s, (#[trigger] all[k]).0)
            == all[k].1 by {
            if k > 0 {
                assert(all[k] == rest[k - 1]);
            }
        }
    }
}

/// Splits `s` into its words.
pub fn split_words(s: &Vec<char>) -> (v: Vec<(usize, usize)>)
    ensures
        spans(v@) == words(s@, 0),
        forall|k: int| 0 <= k < v@.len() ==> (#[trigger] v@[k]).0 < v@[k].1 <= s@.len(),
{
    let mut v: Vec<(usize, usize)> = Vec::new();
    let mut i: usize = 0;
    assert(spans(v@) + words(s@, 0) =~= words(s@, 0));
    loop
        invariant
            i <= s.len(),
            spans(v@) + words(s@, i as int) == words(s@, 0),
            forall|k: int| 0 <= k < v@.len() ==> (#[trigger] v@[k]).0 < v@[k].1 <= s@.len(),
        ensures
            spans(v@) == words(s@, 0),
            forall|k: int| 0 <= k < v@.len() ==> (#[trigger] v@[k]).0 < v@[k].1 <= s@.len(),
        decreases s.len() - i,
    {
        let a = skip_blanks(s, i);
        if a >= s.len() {
            assert(words(s@, i as int) =~= Seq::empty());
            assert(spans(v@) + words(s@, i as int) =~= spans(v@));
            break;
        }
        let b = skip_word(s, a);
        proof {
            lemma_blank_end(s@, i as int);
            lemma_word_end(s@, a as int);
            let ghost before = spans(v@);
            assert(words(s@, i as int) =~= seq![(a as int, b as int)] + words(s@, b as int));
            assert(before.push((a as int, b as int)) + words(s@, b as int) =~= before + words(
                s@,
                i as int,
            ));
        }
        let ghost before = spans(v@);
        v.push((a, b));
        assert(spans(v@) =~= before.push((a as int, b as int)));
        i = b;
    }
    v
}

/// The encoding that the characters of `s` from `a` up to `b` name.
fn read_encoding(s: &Vec<char>, a: usize, b: usize) -> (r: Option<Encoding>)
    requires
        a <= b <= s.len(),
    ensures
        r == encoding_named(s@.subrange(a as int, b as int)),
{
    if spells(s, a, b, "ascii") {
        Some(Encoding::Ascii)
    } else if spells(s, a, b, "binary_big_endian") {
        Some(Encoding::BinaryBigEndian)
    } else if spells(s, a, b, "binary_little_endian") {
        Some(Encoding::BinaryLittleEndian)
    } else {
        None
    }
}

/// The scalar type that the characters of `s` from `a` up to `b` name.
fn read_scalar(s: &Vec<char>, a: usize, b: usize) -> (r: Option<ScalarType>)
    requires
        a <= b <= s.len(),
    ensures
        r == scalar_named(s@.subrange(a as int, b as int)),
{
    if spells(s, a, b, "char") {
        Some(ScalarType::Char)
    } else if spells(s, a, b, "uchar") {
        Some(ScalarType::UChar)
    } else if spells(s, a, b, "short") {
        Some(ScalarType::Short)
    } else if spells(s, a, b, "ushort") {
        Some(ScalarType::UShort)
    } else if spells(s, a, b, "int") {
        Some(ScalarType::Int)
    } else if spells(s, a, b, "uint") {
        Some(ScalarType::UInt)
    } else if spells(s, a, b, "float") {
        Some(ScalarType::Float)
    } else if spells(s, a, b, "double") {
        Some(ScalarType::Double)
    } else {
        None
    }
}

/// Scanning a part of a text for digits is scanning the text itself, as far
/// as the part reaches.
proof fn lemma_digit_end_within(s: Seq<char>, a: int, b: int, i: int)
    requires
        0 <= a <= i <= b <= s.len(),
    ensures
        digit_end(s.subrange(a, b), i - a) + a == if digit_end(s, i) < b {
            digit_end(s, i)
        } else {
            b
        },
    decreases b - i,
{
    let t = s.subrange(a, b);
    if i < b {
        assert(t[i - a] == s[i]);
        if is_digit(s[i]) {
            lemma_digit_end_within(s, a, b, i + 1);
        }
    } else {
        lemma_digit_end(s, i);
    }
}

/// The number that the characters of `s` from `a` up to `b` spell.
fn read_count(s: &Vec<char>, a: usize, b: usize, max: u64) -> (r: Option<u64>)
    requires
        a <= b <= s.len(),
    ensures
        r is Some == count_of(s@.subrange(a as int, b as int), max as int) is Some,
        r is Some ==> r.unwrap() == count_of(s@.subrange(a as int, b as int), max as int).unwrap(),
{
    let end = skip_digits(s, a);
    proof {
        lemma_digit_end_within(s@, a as int, b as int, a as int);
        lemma_digit_end(s@, a as int);
    }
    if a == b || end < b {
        return None;
    }
    read_decimal(s, a, b, max)
}

/// The version that the characters of `s` from `a` up to `b` spell.
fn read_version(s: &Vec<char>, a: usize, b: usize) -> (r: Option<Version>)
    requires
        a <= b <= s.len(),
    ensures
        r == version_of(s@.subrange(a as int, b as int)),
{
    let ghost t = s@.subrange(a as int, b as int);
    let dot = skip_digits(s, a);
    proof {
        lemma_digit_end_within(s@, a as int, b as int, a as int);
        lemma_digit_end(s@, a as int);
    }
    if dot == a || dot >= b || s[dot] != '.' {
        return None;
    }
    assert(t.take(dot - a) =~= s@.subrange(a as int, dot as int));
    assert(t.skip(dot - a + 1) =~= s@.subrange(dot + 1, b as int));
    let major = read_count(s, a, dot, 65535);
    let minor = read_count(s, dot + 1, b, 255);
    match (major, minor) {
        (Some(major), Some(minor)) => Some(Version { major: major as u16, minor: minor as u8 }),
        _ => None,
    }
}

/// Whether the characters of `s` from `a` up to `b` are a decimal number.
pub fn number(s: &Vec<char>, a: usize, b: usize) -> (r: bool)
    requires
        a <= b <= s.len(),
    ensures
        r == is_number(s@.subrange(a as int, b as int)),
{
    let ghost t = s@.subrange(a as int, b as int);
    let mut i: usize = a;
    if i < b && (s[i] == '+' || s[i] == '-') {
        i += 1;
    }
    let digits = clip(skip_digits(s, i), b);
    proof {
        lemma_digit_end_within(s@, a as int, b as int, i as int);
    }
    if digits == i {
        return false;
    }
    let mut j: usize = digits;
    if j < b && s[j] == '.' {
        let fraction = clip(skip_digits(s, j + 1), b);
        proof {
            lemma_digit_end_within(s@, a as int, b as int, j + 1);
        }
        if fraction == j + 1 {
            return false;
        }
        j = fraction;
    }
    if j < b && (s[j] == 'e' || s[j] == 'E') {
        let mut k: usize = j + 1;
        if k < b && (s[k] == '+' || s[k] == '-') {
            k += 1;
        }
        let exponent = clip(skip_digits(s, k), b);
        proof {
            lemma_digit_end_within(s@, a as int, b as int, k as int);
        }
        if exponent == k {
            return false;
        }
        j = exponent;
    }
    j == b
}

/// The smaller of two positions.
fn clip(i: usize, b: usize) -> (r: usize)
    ensures
        r == if i < b {
            i
        } else {
            b
        },
{
    if i < b {
        i
    } else {
        b
    }
}

/// What the outcome of reading a line stands for in contracts.
pub open spec fn line_view(r: Result<Line, SyntaxError>) -> Result<LineView, SyntaxError> {
    match r {
        Ok(l) => Ok(l@),
        Err(e) => Err(e),
    }
}

/// The views of the fields of a line.
pub open spec fn field_views(fields: Seq<String>) -> Seq<Seq<char>> {
    fields.map_values(|t: String| t@)
}

/// What the outcome of reading a line of numbers stands for in contracts.
pub open spec fn fields_view(r: Result<Vec<String>, SyntaxError>) -> Result<
    Seq<Seq<char>>,
    SyntaxError,
> {
    match r {
        Ok(v) => Ok(field_views(v@)),
        Err(e) => Err(e),
    }
}

/// The failure to find `expected` at `position`.
fn fail(position: usize, expected: Expected) -> (r: Result<Line, SyntaxError>)
    ensures
        line_view(r) == failure::<LineView>(position as int, expected),
{
    Err(SyntaxError { position, expected })
}

/// Where word number `k` starts; the end of the text if there is no such word.
fn start_of(s: &Vec<char>, w: &Vec<(usize, usize)>, k: usize) -> (r: usize)
    ensures
        r == word_start(s@, spans(w@), k as int),
{
    if k < w.len() {
        w[k].0
    } else {
        s.len()
    }
}

/// Reads the statement that consists of its first word alone.
fn read_bare(s: &Vec<char>, w: &Vec<(usize, usize)>, line: Line) -> (r: Result<Line, SyntaxError>)
    ensures
        line_view(r) == bare_statement(s@, spans(w@), line@),
{
    if w.len() > 1 {
        fail(w[1].0, Expected::EndOfLine)
    } else {
        Ok(line)
    }
}

/// Reads a `format` statement.
fn read_format(s: &Vec<char>, w: &Vec<(usize, usize)>) -> (r: Result<Line, SyntaxError>)
    requires
        forall|k: int| 0 <= k < w@.len() ==> (#[trigger] w@[k]).0 < w@[k].1 <= s@.len(),
    ensures
        line_view(r) == format_statement(s@, spans(w@)),
{
    if w.len() < 2 {
        return fail(s.len(), Expected::Encoding);
    }
    let encoding = match read_encoding(s, w[1].0, w[1].1) {
        Some(e) => e,
        None => {
            return fail(w[1].0, Expected::Encoding);
        },
    };
    if w.len() < 3 {
        return fail(s.len(), Expected::Version);
    }
    let version = match read_version(s, w[2].0, w[2].1) {
        Some(v) => v,
        None => {
            return fail(w[2].0, Expected::Version);
        },
    };
    if w.len() > 3 {
        return fail(w[3].0, Expected::EndOfLine);
    }
    Ok(Line::Format((encoding, version)))
}

/// Reads an `element` statement.
fn read_element(text: &str, s: &Vec<char>, w: &Vec<(usize, usize)>) -> (r: Result<
    Line,
    SyntaxError,
>)
    requires
        s@.len() <= text@.len(),
        s@ == text@.take(s@.len() as int),
        forall|k: int| 0 <= k < w@.len() ==> (#[trigger] w@[k]).0 < w@[k].1 <= s@.len(),
    ensures
        line_view(r) == element_statement(s@, spans(w@)),
{
    if w.len() < 2 {
        return fail(s.len(), Expected::Name);
    }
    if w.len() < 3 {
        return fail(s.len(), Expected::Count);
    }
    let count = match read_count(s, w[2].0, w[2].1, usize::MAX as u64) {
        Some(c) => c as usize,
        None => {
            return fail(w[2].0, Expected::Count);
        },
    };
    if w.len() > 3 {
        return fail(w[3].0, Expected::EndOfLine);
    }
    let name = copy_range(text, w[1].0, w[1].1);
    assert(name@ =~= slice(s@, spans(w@)[1]));
    let e = ElementDef { name, count, properties: Vec::new() };
    assert(e@.properties =~= Seq::empty());
    Ok(Line::Element(e))
}

/// Reads a `property` statement.
fn read_property(text: &str, s: &Vec<char>, w: &Vec<(usize, usize)>) -> (r: Result<
    Line,
    SyntaxError,
>)
    requires
        s@.len() <= text@.len(),
        s@ == text@.take(s@.len() as int),
        forall|k: int| 0 <= k < w@.len() ==> (#[trigger] w@[k]).0 < w@[k].1 <= s@.len(),
    ensures
        line_view(r) == property_statement(s@, spans(w@)),
{
    if w.len() < 2 {
        return fail(s.len(), Expected::DataType);
    }
    if spells(s, w[1].0, w[1].1, "list") {
        if w.len() < 3 {
            return fail(s.len(), Expected::DataType);
        }
        let index_type = match read_scalar(s, w[2].0, w[2].1) {
            Some(t) => t,
            None => {
                return fail(w[2].0, Expected::DataType);
            },
        };
        if w.len() < 4 {
            return fail(s.len(), Expected::DataType);
        }
        let item_type = match read_scalar(s, w[3].0, w[3].1) {
            Some(t) => t,
            None => {
                return fail(w[3].0, Expected::DataType);
            },
        };
        if w.len() < 5 {
            return fail(s.len(), Expected::Name);
        }
        if w.len() > 5 {
            return fail(w[5].0, Expected::EndOfLine);
        }
        let name = copy_range(text, w[4].0, w[4].1);
        assert(name@ =~= slice(s@, spans(w@)[4]));
        Ok(Line::Property(PropertyDef { name, data_type: PropertyType::List(index_type, item_type) }))
    } else {
        let scalar = match read_scalar(s, w[1].0, w[1].1) {
            Some(t) => t,
            None => {
                return fail(w[1].0, Expected::DataType);
            },
        };
        if w.len() < 3 {
            return fail(s.len(), Expected::Name);
        }
        if w.len() > 3 {
            return fail(w[3].0, Expected::EndOfLine);
        }
        let name = copy_range(text, w[2].0, w[2].1);
        assert(name@ =~= slice(s@, spans(w@)[2]));
        Ok(Line::Property(PropertyDef { name, data_type: PropertyType::Scalar(scalar) }))
    }
}

/// Reads the statement that the first characters of `text` make: as many as
/// `s` holds.
fn read_statement(text: &str, s: &Vec<char>) -> (r: Result<Line, SyntaxError>)
    requires
        s@.len() <= text@.len(),
        s@ == text@.take(s@.len() as int),
    ensures
        line_view(r) == statement(s@),
{
    let stop = find_line_break(s);
    if stop < s.len() {
        return fail(stop, Expected::EndOfLine);
    }
    let w = split_words(s);
    if w.len() == 0 {
        return fail(s.len(), Expected::Statement);
    }
    let a = w[0].0;
    let b = w[0].1;
    if spells(s, a, b, "ply") {
        read_bare(s, &w, Line::MagicNumber)
    } else if spells(s, a, b, "end_header") {
        read_bare(s, &w, Line::EndHeader)
    } else if spells(s, a, b, "format") {
        read_format(s, &w)
    } else if spells(s, a, b, "comment") {
        let from = skip_blanks(s, b);
        let t = copy_range(text, from, s.len());
        assert(t@ =~= s@.skip(from as int));
        Ok(Line::Comment(t))
    } else if spells(s, a, b, "obj_info") {
        let from = skip_blanks(s, b);
        let t = copy_range(text, from, s.len());
        assert(t@ =~= s@.skip(from as int));
        Ok(Line::ObjInfo(t))
    } else if spells(s, a, b, "element") {
        read_element(text, s, &w)
    } else if spells(s, a, b, "property") {
        read_property(text, s, &w)
    } else {
        fail(a, Expected::Statement)
    }
}

/// Reads a statement that stands alone.
fn read_rule(text: &str) -> (r: Result<Line, SyntaxError>)
    ensures
        line_view(r) == rule(text@),
{
    let s = chars_of(text);
    assert(text@.take(s@.len() as int) =~= text@);
    if s.len() > 0 && crate::text::blank(s[0]) {
        return fail(0, Expected::Statement);
    }
    match read_statement(text, &s) {
        Err(e) => Err(e),
        Ok(l) => {
            let texty = match &l {
                Line::Comment(_) => true,
                Line::ObjInfo(_) => true,
                _ => false,
            };
            if !texty && crate::text::blank(s[s.len() - 1]) {
                let w = split_words(&s);
                fail(w[w.len() - 1].1, Expected::EndOfLine)
            } else {
                Ok(l)
            }
        },
    }
}

/// Reads one line of a header. The line may close with a line feed, a
/// carriage return, or a carriage return and a line feed.
pub fn line(text: &str) -> (r: Result<Line, SyntaxError>)
    ensures
        line_view(r) == line_statement(text@),
{
    let mut s = chars_of(text);
    let n = strip(&s);
    s.truncate(n);
    assert(s@ =~= strip_line_end(text@));
    read_statement(text, &s)
}

/// Reads one line of an ascii payload into its fields.
pub fn data_line(text: &str) -> (r: Result<Vec<String>, SyntaxError>)
    ensures
        fields_view(r) == data_fields(text@),
{
    let mut s = chars_of(text);
    let n = strip(&s);
    s.truncate(n);
    assert(s@ =~= strip_line_end(text@));
    let stop = find_line_break(&s);
    if stop < s.len() {
        return Err(SyntaxError { position: stop, expected: Expected::EndOfLine });
    }
    let w = split_words(&s);
    let mut fields: Vec<String> = Vec::new();
    let mut k: usize = 0;
    while k < w.len()
        invariant
            k <= w@.len(),
            s@.len() <= text@.len(),
            s@ == text@.take(s@.len() as int),
            s@ == strip_line_end(text@),
            !has_line_break(s@),
            spans(w@) == words(s@, 0),
            forall|j: int| 0 <= j < w@.len() ==> (#[trigger] w@[j]).0 < w@[j].1 <= s@.len(),
            number_run(s@, spans(w@), 0) == number_run(s@, spans(w@), k as int),
            fields@.len() == k,
            forall|j: int| 0 <= j < k ==> (#[trigger] fields@[j])@ == slice(s@, spans(w@)[j]),
        decreases w@.len() - k,
    {
        assert(slice(s@, spans(w@)[k as int]) == s@.subrange(w@[k as int].0 as int, w@[k as int].1 as int));
        if !number(&s, w[k].0, w[k].1) {
            assert(number_run(s@, spans(w@), k as int) == k);
            return Err(SyntaxError { position: w[k].0, expected: Expected::Number });
        }
        assert(number_run(s@, spans(w@), k as int) == number_run(s@, spans(w@), k + 1));
        let field = copy_range(text, w[k].0, w[k].1);
        assert(field@ =~= slice(s@, spans(w@)[k as int]));
        fields.push(field);
        k += 1;
    }
    assert(field_views(fields@) =~= spans(w@).map_values(|span: (int, int)| slice(s@, span)));
    Ok(fields)
}

/// What is left of the outcome of a rule that reads the first line of a file.
pub open spec fn magic_number_of(r: Result<LineView, SyntaxError>) -> Result<(), SyntaxError> {
    match r {
        Ok(LineView::MagicNumber) => Ok(()),
        Ok(_) => failure(0, Expected::Statement),
        Err(e) => Err(e),
    }
}

/// What is left of the outcome of a rule that reads the last line of a header.
pub open spec fn end_header_of(r: Result<LineView, SyntaxError>) -> Result<(), SyntaxError> {
    match r {
        Ok(LineView::EndHeader) => Ok(()),
        Ok(_) => failure(0, Expected::Statement),
        Err(e) => Err(e),
    }
}

/// What is left of the outcome of a rule that reads a `format` statement.
pub open spec fn format_of(r: Result<LineView, SyntaxError>) -> Result<
    (Encoding, Version),
    SyntaxError,
> {
    match r {
        Ok(LineView::Format(f)) => Ok(f),
        Ok(_) => failure(0, Expected::Statement),
        Err(e) => Err(e),
    }
}

/// What is left of the outcome of a rule that reads a `comment` statement.
pub open spec fn comment_of(r: Result<LineView, SyntaxError>) -> Result<Seq<char>, SyntaxError> {
    match r {
        Ok(LineView::Comment(t)) => Ok(t),
        Ok(_) => failure(0, Expected::Statement),
        Err(e) => Err(e),
    }
}

/// What is left of the outcome of a rule that reads an `obj_info` statement.
pub open spec fn obj_info_of(r: Result<LineView, SyntaxError>) -> Result<Seq<char>, SyntaxError> {
    match r {
        Ok(LineView::ObjInfo(t)) => Ok(t),
        Ok(_) => failure(0, Expected::Statement),
        Err(e) => Err(e),
    }
}

/// What is left of the outcome of a rule that reads an `element` statement.
pub open spec fn element_of(r: Result<LineView, SyntaxError>) -> Result<
    ElementDefView,
    SyntaxError,
> {
    match r {
        Ok(LineView::Element(e)) => Ok(e),
        Ok(_) => failure(0, Expected::Statement),
        Err(e) => Err(e),
    }
}

/// What is left of the outcome of a rule that reads a `property` statement.
pub open spec fn property_of(r: Result<LineView, SyntaxError>) -> Result<
    PropertyDefView,
    SyntaxError,
> {
    match r {
        Ok(LineView::Property(p)) => Ok(p),
        Ok(_) => failure(0, Expected::Statement),
        Err(e) => Err(e),
    }
}

/// The failure of a rule that met another statement than its own.
fn other<T>() -> (r: Result<T, SyntaxError>)
    ensures
        r == failure::<T>(0, Expected::Statement),
{
    Err(SyntaxError { position: 0, expected: Expected::Statement })
}

/// Accepts the text `ply` and nothing else.
pub fn magic_number(text: &str) -> (r: Result<(), SyntaxError>)
    ensures
        r == magic_number_of(rule(text@)),
{
    match read_rule(text) {
        Ok(Line::MagicNumber) => Ok(()),
        Ok(_) => other(),
        Err(e) => Err(e),
    }
}

/// Accepts the text `end_header` and nothing else.
pub fn end_header(text: &str) -> (r: Result<(), SyntaxError>)
    ensures
        r == end_header_of(rule(text@)),
{
    match read_rule(text) {
        Ok(Line::EndHeader) => Ok(()),
        Ok(_) => other(),
        Err(e) => Err(e),
    }
}

/// Reads a `format` statement that stands alone.
pub fn format(text: &str) -> (r: Result<(Encoding, Version), SyntaxError>)
    ensures
        r == format_of(rule(text@)),
{
    match read_rule(text) {
        Ok(Line::Format(f)) => Ok(f),
        Ok(_) => other(),
        Err(e) => Err(e),
    }
}

/// Reads a `comment` statement that stands alone.
pub fn comment(text: &str) -> (r: Result<String, SyntaxError>)
    ensures
        match r {
            Ok(t) => comment_of(rule(text@)) == Ok::<Seq<char>, SyntaxError>(t@),
            Err(e) => comment_of(rule(text@)) == Err::<Seq<char>, SyntaxError>(e),
        },
{
    match read_rule(text) {
        Ok(Line::Comment(t)) => Ok(t),
        Ok(_) => other(),
        Err(e) => Err(e),
    }
}

/// Reads an `obj_info` statement that stands alone.
pub fn obj_info(text: &str) -> (r: Result<String, SyntaxError>)
    ensures
        match r {
            Ok(t) => obj_info_of(rule(text@)) == Ok::<Seq<char>, SyntaxError>(t@),
            Err(e) => obj_info_of(rule(text@)) == Err::<Seq<char>, SyntaxError>(e),
        },
{
    match read_rule(text) {
        Ok(Line::ObjInfo(t)) => Ok(t),
        Ok(_) => other(),
        Err(e) => Err(e),
    }
}

/// Reads an `element` statement that stands alone.
pub fn element(text: &str) -> (r: Result<ElementDef, SyntaxError>)
    ensures
        match r {
            Ok(d) => element_of(rule(text@)) == Ok::<ElementDefView, SyntaxError>(d@),
            Err(e) => element_of(rule(text@)) == Err::<ElementDefView, SyntaxError>(e),
        },
{
    match read_rule(text) {
        Ok(Line::Element(d)) => Ok(d),
        Ok(_) => other(),
        Err(e) => Err(e),
    }
}

/// Reads a `property` statement that stands alone.
pub fn property(text: &str) -> (r: Result<PropertyDef, SyntaxError>)
    ensures
        match r {
            Ok(d) => property_of(rule(text@)) == Ok::<PropertyDefView, SyntaxError>(d@),
            Err(e) => property_of(rule(text@)) == Err::<PropertyDefView, SyntaxError>(e),
        },
{
    match read_rule(text) {
        Ok(Line::Property(d)) => Ok(d),
        Ok(_) => other(),
        Err(e) => Err(e),
    }
}

} // verus!
