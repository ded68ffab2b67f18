//! A header as it is written, line by line, and the proof that reading the
//! lines gives the header back.

use super::lines::{advanced, is_line, lemma_first_line, line_bytes};
use super::text::{digits, is_word, joined, lemma_digits, lemma_joined, lemma_words_of_joined};
use crate::parser::error::{Fault, ParseErrorView};
use crate::parser::grammar::{
    count_of, encoding_named, line_statement, scalar_named, slice, statement, version_of, words,
    LineView, SyntaxError,
};
use crate::parser::header::{after_header, assemble, has_property, Assembly, Stage};

use crate::ply::{
    ElementDefView, Encoding, HeaderView, PropertyDefView, PropertyType, ScalarType, Version,
};
use crate::text::{
    blank_end, digit_end, has_line_break, is_blank, is_digit, is_line_break, lemma_digit_end_step,
    lemma_word_end_step, strip_line_end, stripped_len, word_end,
};
use crate::util::after;
use vstd::prelude::*;

verus! {

/// The name of an encoding in a `format` line.
pub open spec fn encoding_name(e: Encoding) -> Seq<char> {
    match e {
        Encoding::Ascii => "ascii"@,
        Encoding::BinaryBigEndian => "binary_big_endian"@,
        Encoding::BinaryLittleEndian => "binary_little_endian"@,
    }
}

/// The name of a scalar type in a `property` line.
pub open spec fn scalar_name(t: ScalarType) -> Seq<char> {
    match t {
        ScalarType::Char => "char"@,
        ScalarType::UChar => "uchar"@,
        ScalarType::Short => "short"@,
        ScalarType::UShort => "ushort"@,
        ScalarType::Int => "int"@,
        ScalarType::UInt => "uint"@,
        ScalarType::Float => "float"@,
        ScalarType::Double => "double"@,
    }
}

/// A version as it is written: two numbers with a dot between them.
pub open spec fn version_text(v: Version) -> Seq<char> {
    digits(v.major as nat) + seq!['.'] + digits(v.minor as nat)
}

/// `body` with the line feed that ends a line.
pub open spec fn ended(body: Seq<char>) -> Seq<char> {
    body + seq!['\n']
}

/// The words of a `property` line.
pub open spec fn property_words(p: PropertyDefView) -> Seq<Seq<char>> {
    match p.data_type {
        PropertyType::Scalar(t) => seq!["property"@, scalar_name(t), p.name],
        PropertyType::List(index, t) => seq![
            "property"@,
            "list"@,
            scalar_name(index),
            scalar_name(t),
            p.name,
        ],
    }
}

/// The line that states `l`.
pub open spec fn line_of(l: LineView) -> Seq<char> {
    match l {
        LineView::MagicNumber => ended("ply"@),
        LineView::EndHeader => ended("end_header"@),
        LineView::Format(f) => ended(joined(seq!["format"@, encoding_name(f.0), version_text(f.1)])),
        LineView::Comment(t) => ended("comment"@ + seq![' '] + t),
        LineView::ObjInfo(t) => ended("obj_info"@ + seq![' '] + t),
        LineView::Element(e) => ended(joined(seq!["element"@, e.name, digits(e.count as nat)])),
        LineView::Property(p) => ended(joined(property_words(p))),
    }
}

/// A text that can stand in a comment or in an object information: it holds
/// no line break and does not start with a space or a tab.
pub open spec fn is_free_text(t: Seq<char>) -> bool {
    !has_line_break(t) && (t.len() == 0 || !is_blank(t[0]))
}

/// Whether the line that states `l` can be read again: names are words,
/// texts are free texts, and the line of an element declares no property.
pub open spec fn statable(l: LineView) -> bool {
    match l {
        LineView::Comment(t) => is_free_text(t),
        LineView::ObjInfo(t) => is_free_text(t),
        LineView::Element(e) => is_word(e.name) && e.properties.len() == 0,
        LineView::Property(p) => is_word(p.name),
        _ => true,
    }
}

/// What is known of the words of the grammar: each is a word, and no two of
/// those that can stand in the same place are the same.
pub proof fn lemma_literals()
    ensures
        is_word("ply"@),
        is_word("end_header"@),
        is_word("format"@),
        is_word("comment"@),
        is_word("obj_info"@),
        is_word("element"@),
        is_word("property"@),
        is_word("list"@),
        "ply"@.len() == 3 && "ply"@[0] == 'p',
        "end_header"@.len() == 10 && "end_header"@[0] == 'e',
        "format"@.len() == 6 && "format"@[0] == 'f',
        "comment"@.len() == 7 && "comment"@[0] == 'c',
        "obj_info"@.len() == 8 && "obj_info"@[0] == 'o',
        "element"@.len() == 7 && "element"@[0] == 'e',
        "property"@.len() == 8 && "property"@[0] == 'p',
        "list"@.len() == 4 && "list"@[0] == 'l',
        forall|e: Encoding| is_word(#[trigger] encoding_name(e)),
        forall|e: Encoding| encoding_named(#[trigger] encoding_name(e)) == Some(e),
        forall|t: ScalarType| is_word(#[trigger] scalar_name(t)),
        forall|t: ScalarType| scalar_named(#[trigger] scalar_name(t)) == Some(t),
        forall|t: ScalarType| #[trigger] scalar_name(t) != "list"@,
{
    reveal_strlit("ply");
    reveal_strlit("end_header");
    reveal_strlit("format");
    reveal_strlit("comment");
    reveal_strlit("obj_info");
    reveal_strlit("element");
    reveal_strlit("property");
    reveal_strlit("list");
    reveal_strlit("ascii");
    reveal_strlit("binary_big_endian");
    reveal_strlit("binary_little_endian");
    reveal_strlit("char");
    reveal_strlit("uchar");
    reveal_strlit("short");
    reveal_strlit("ushort");
    reveal_strlit("int");
    reveal_strlit("uint");
    reveal_strlit("float");
    reveal_strlit("double");
    assert(is_word("ply"@));
    assert(is_word("end_header"@));
    assert(is_word("format"@));
    assert(is_word("comment"@));
    assert(is_word("obj_info"@));
    assert(is_word("element"@));
    assert(is_word("property"@));
    assert(is_word("list"@));
    assert(is_word("ascii"@));
    assert(is_word("binary_big_endian"@));
    assert(is_word("binary_little_endian"@));
    assert(is_word("char"@));
    assert(is_word("uchar"@));
    assert(is_word("short"@));
    assert(is_word("ushort"@));
    assert(is_word("int"@));
    assert(is_word("uint"@));
    assert(is_word("float"@));
    assert(is_word("double"@));
    assert("char"@[0] == 'c' && "uchar"@[0] == 'u' && "short"@[0] == 's' && "ushort"@[0] == 'u'
        && "int"@[0] == 'i' && "uint"@[0] == 'u' && "float"@[0] == 'f' && "double"@[0] == 'd');
    assert forall|e: Encoding| is_word(#[trigger] encoding_name(e)) && encoding_named(
        encoding_name(e),
    ) == Some(e) by {}
    assert forall|t: ScalarType| is_word(#[trigger] scalar_name(t)) && scalar_named(scalar_name(t))
        == Some(t) && scalar_name(t) != "list"@ by {}
}

/// A number in decimal digits is read as that number, if it is within the
/// bound.
pub proof fn lemma_count_of(n: nat, max: int)
    requires
        n <= max,
    ensures
        count_of(digits(n), max) == Some(n as int),
{
    lemma_digits(n);
}

/// A version is a word, and is read as it was written.
pub proof fn lemma_version_text(v: Version)
    ensures
        is_word(version_text(v)),
        version_of(version_text(v)) == Some(v),
{
    let a = digits(v.major as nat);
    let b = digits(v.minor as nat);
    let t = version_text(v);
    lemma_digits(v.major as nat);
    lemma_digits(v.minor as nat);
    let dot = a.len() as int;
    assert forall|i: int| 0 <= i < t.len() implies !is_blank(#[trigger] t[i]) && !is_line_break(
        t[i],
    ) by {
        if i < dot {
            assert(t[i] == a[i]);
        } else if i > dot {
            assert(t[i] == b[i - dot - 1]);
        }
    }
    assert forall|i: int| 0 <= i < dot implies is_digit(#[trigger] t[i]) by {
        assert(t[i] == a[i]);
    }
    lemma_digit_end_step(t, 0, dot);
    assert(t[dot] == '.');
    assert(digit_end(t, dot) == dot);
    assert(t.take(dot) =~= a);
    assert(t.skip(dot + 1) =~= b);
    lemma_count_of(v.major as nat, u16::MAX as int);
    lemma_count_of(v.minor as nat, u8::MAX as int);
}

/// A line of words, ended by a line feed, is one line, and without its line
/// ending it is the words in a row.
proof fn lemma_ended(body: Seq<char>)
    requires
        !has_line_break(body),
    ensures
        is_line(ended(body)),
        strip_line_end(ended(body)) == body,
{
    let l = ended(body);
    assert forall|i: int| 0 <= i < l.len() - 1 implies #[trigger] l[i] != '\n' by {
        assert(l[i] == body[i]);
        assert(!is_line_break(body[i]));
    }
    if body.len() > 0 {
        assert(l[l.len() - 2] == body[body.len() - 1]);
        assert(!is_line_break(body[body.len() - 1]));
    }
    assert(stripped_len(l) == body.len());
    assert(l.take(body.len() as int) =~= body);
}

/// The statement of words in a row starts from those words.
proof fn lemma_statement_words(ws: Seq<Seq<char>>)
    requires
        ws.len() > 0,
        forall|k: int| 0 <= k < ws.len() ==> is_word(#[trigger] ws[k]),
    ensures
        !has_line_break(joined(ws)),
        words(joined(ws), 0).len() == ws.len(),
        forall|k: int|
            0 <= k < ws.len() ==> slice(joined(ws), #[trigger] words(joined(ws), 0)[k]) == ws[k],
{
    lemma_joined(ws);
    lemma_words_of_joined(ws);
}

/// A text after the word `keyword` and a space is found again behind that
/// word: the word is the first word of the line, and the text is what
/// follows the blanks after it.
proof fn lemma_text_line(keyword: Seq<char>, t: Seq<char>)
    requires
        is_word(keyword),
        is_free_text(t),
    ensures
        !has_line_break(keyword + seq![' '] + t),
        words(keyword + seq![' '] + t, 0).len() > 0,
        slice(keyword + seq![' '] + t, words(keyword + seq![' '] + t, 0)[0]) == keyword,
        (keyword + seq![' '] + t).skip(
            blank_end(keyword + seq![' '] + t, words(keyword + seq![' '] + t, 0)[0].1),
        ) == t,
{
    let s = keyword + seq![' '] + t;
    let n = keyword.len() as int;
    assert forall|i: int| 0 <= i < s.len() implies !is_line_break(#[trigger] s[i]) by {
        if i < n {
            assert(s[i] == keyword[i]);
        } else if i > n {
            assert(s[i] == t[i - n - 1]);
        }
    }
    assert forall|i: int| 0 <= i < n implies !is_blank(#[trigger] s[i]) by {
        assert(s[i] == keyword[i]);
    }
    assert(s[0] == keyword[0]);
    assert(blank_end(s, 0) == 0);
    lemma_word_end_step(s, 0, n);
    assert(s[n] == ' ');
    assert(word_end(s, n) == n);
    assert(words(s, 0) =~= seq![(0int, n)] + words(s, n));
    assert(words(s, 0)[0] == (0int, n));
    assert(slice(s, (0int, n)) =~= keyword);
    if t.len() > 0 {
        assert(s[n + 1] == t[0]);
    }
    assert(blank_end(s, n + 1) == n + 1);
    assert(blank_end(s, n) == n + 1);
    assert(s.skip(n + 1) =~= t);
}

/// The line that states a statement is one line, and it is read as that
/// statement.
pub proof fn lemma_line_of(l: LineView)
    requires
        statable(l),
    ensures
        is_line(line_of(l)),
        line_statement(line_of(l)) == Ok::<LineView, SyntaxError>(l),
{
    lemma_literals();
    match l {
        LineView::MagicNumber => {
            let ws = seq!["ply"@];
            assert(joined(ws) == "ply"@);
            lemma_statement_words(ws);
            lemma_ended(joined(ws));
        },
        LineView::EndHeader => {
            let ws = seq!["end_header"@];
            assert(joined(ws) == "end_header"@);
            lemma_statement_words(ws);
            lemma_ended(joined(ws));
        },
        LineView::Format(f) => {
            let ws = seq!["format"@, encoding_name(f.0), version_text(f.1)];
            lemma_version_text(f.1);
            lemma_statement_words(ws);
            lemma_ended(joined(ws));
            let s = joined(ws);
            let w = words(s, 0);
            assert(slice(s, w[0]) == ws[0]);
            assert(slice(s, w[1]) == ws[1]);
            assert(slice(s, w[2]) == ws[2]);
        },
        LineView::Comment(t) => {
            lemma_text_line("comment"@, t);
            lemma_ended("comment"@ + seq![' '] + t);
        },
        LineView::ObjInfo(t) => {
            lemma_text_line("obj_info"@, t);
            lemma_ended("obj_info"@ + seq![' '] + t);
        },
        LineView::Element(e) => {
            let ws = seq!["element"@, e.name, digits(e.count as nat)];
            lemma_digits(e.count as nat);
            lemma_count_of(e.count as nat, usize::MAX as int);
            lemma_statement_words(ws);
            lemma_ended(joined(ws));
            let s = joined(ws);
            let w = words(s, 0);
            assert(slice(s, w[0]) == ws[0]);
            assert(slice(s, w[1]) == ws[1]);
            assert(slice(s, w[2]) == ws[2]);
            assert(e.properties =~= Seq::empty());
        },
        LineView::Property(p) => {
            let ws = property_words(p);
            lemma_statement_words(ws);
            lemma_ended(joined(ws));
            let s = joined(ws);
            let w = words(s, 0);
            assert(slice(s, w[0]) == ws[0]);
            assert(slice(s, w[1]) == ws[1]);
            assert(slice(s, w[2]) == ws[2]);
            match p.data_type {
                PropertyType::Scalar(t) => {},
                PropertyType::List(index, t) => {
                    assert(slice(s, w[3]) == ws[3]);
                    assert(slice(s, w[4]) == ws[4]);
                },
            }
        },
    }
}

/// The lines that state the statements `ls`.
pub open spec fn lines_of(ls: Seq<LineView>) -> Seq<Seq<char>> {
    ls.map_values(|l: LineView| line_of(l))
}

/// The statements that declare the elements `es`: for each element its own
/// statement, and then one for each of its properties.
pub open spec fn element_statements(es: Seq<ElementDefView>) -> Seq<LineView>
    decreases es.len(),
{
    if es.len() == 0 {
        Seq::empty()
    } else {
        element_statements(es.drop_last()) + seq![
            LineView::Element(
                ElementDefView {
                    name: es.last().name,
                    count: es.last().count,
                    properties: Seq::empty(),
                },
            ),
        ] + es.last().properties.map_values(|p: PropertyDefView| LineView::Property(p))
    }
}

/// The statements of a header before the one that ends it: the magic
/// number, the format, the comments, the object informations, and the
/// elements with their properties.
pub open spec fn header_statements(h: HeaderView) -> Seq<LineView> {
    seq![LineView::MagicNumber, LineView::Format((h.encoding, h.version))] + h.comments.map_values(
        |t: Seq<char>| LineView::Comment(t),
    ) + h.obj_infos.map_values(|t: Seq<char>| LineView::ObjInfo(t)) + element_statements(
        h.elements,
    )
}

/// The bytes of a header as it is written.
pub open spec fn header_bytes(h: HeaderView) -> Seq<u8> {
    line_bytes(lines_of(header_statements(h) + seq![LineView::EndHeader]))
}

/// Whether a header can be written so that it is read again: its comments
/// and object informations are free texts, the names of its elements and of
/// their properties are words, and no element has two properties of one
/// name.
pub open spec fn writable(h: HeaderView) -> bool {
    &&& forall|i: int| 0 <= i < h.comments.len() ==> is_free_text(#[trigger] h.comments[i])
    &&& forall|i: int| 0 <= i < h.obj_infos.len() ==> is_free_text(#[trigger] h.obj_infos[i])
    &&& forall|i: int| 0 <= i < h.elements.len() ==> writable_element(#[trigger] h.elements[i])
}

/// Whether the declaration of an element can be written so that it is read
/// again.
pub open spec fn writable_element(e: ElementDefView) -> bool {
    &&& is_word(e.name)
    &&& forall|j: int| 0 <= j < e.properties.len() ==> is_word((#[trigger] e.properties[j]).name)
    &&& forall|i: int, j: int|
        0 <= i < j < e.properties.len() ==> (#[trigger] e.properties[i]).name
            != (#[trigger] e.properties[j]).name
}

/// The assembly after the statements `ls` have been taken in order, as far
/// as they are taken.
pub open spec fn fed(a: Assembly, ls: Seq<LineView>) -> Assembly
    decreases ls.len(),
{
    if ls.len() == 0 {
        a
    } else {
        match a.step(ls[0]) {
            Ok(b) => fed(b, ls.drop_first()),
            Err(_) => a,
        }
    }
}

/// Whether the statements `ls` can be written and read again, and are taken
/// one after the other without ending the header.
pub open spec fn readable(a: Assembly, ls: Seq<LineView>) -> bool
    decreases ls.len(),
{
    ls.len() == 0 || (statable(ls[0]) && match a.step(ls[0]) {
        Ok(b) => b.stage is Reading && readable(b, ls.drop_first()),
        Err(_) => false,
    })
}

/// One statement that is taken.
proof fn lemma_fed_one(a: Assembly, l: LineView, b: Assembly)
    requires
        statable(l),
        a.step(l) == Ok::<Assembly, Fault>(b),
        b.stage is Reading,
    ensures
        readable(a, seq![l]),
        fed(a, seq![l]) == b,
{
    let one = seq![l];
    assert(one[0] == l);
    assert(one.drop_first().len() == 0);
    assert(readable(b, one.drop_first()));
    assert(fed(b, one.drop_first()) == b);
}

/// Statements that are taken in two parts are taken as a whole.
proof fn lemma_fed_concat(a: Assembly, x: Seq<LineView>, y: Seq<LineView>)
    requires
        readable(a, x),
        readable(fed(a, x), y),
    ensures
        readable(a, x + y),
        fed(a, x + y) == fed(fed(a, x), y),
    decreases x.len(),
{
    if x.len() == 0 {
        assert(x + y =~= y);
    } else {
        let b = a.step(x[0])->Ok_0;
        assert((x + y).drop_first() =~= x.drop_first() + y);
        assert((x + y)[0] == x[0]);
        lemma_fed_concat(b, x.drop_first(), y);
    }
}

/// Reading the lines of statements that are taken goes on behind them.
proof fn lemma_read_lines(a: Assembly, ls: Seq<LineView>, rest: Seq<u8>, line: usize)
    requires
        !(a.stage is Done),
        readable(a, ls),
    ensures
        assemble(a, line_bytes(lines_of(ls)) + rest, line) == assemble(
            fed(a, ls),
            rest,
            advanced(line, ls.len()),
        ),
        after_header(a, line_bytes(lines_of(ls)) + rest) == after_header(fed(a, ls), rest),
    decreases ls.len(),
{
    let lines = lines_of(ls);
    if ls.len() == 0 {
        assert(line_bytes(lines) + rest =~= rest);
    } else {
        let l = ls[0];
        let b = a.step(l)->Ok_0;
        let later = line_bytes(lines_of(ls.drop_first())) + rest;
        lemma_line_of(l);
        assert(lines[0] == line_of(l));
        assert(lines.drop_first() =~= lines_of(ls.drop_first()));
        assert(line_bytes(lines) + rest =~= vstd::utf8::encode_utf8(line_of(l)) + later);
        lemma_first_line(line_of(l), later);
        lemma_read_lines(b, ls.drop_first(), rest, after(line));
    }
}

/// Comments are taken one after the other, and are gathered in their order.
proof fn lemma_fed_comments(a: Assembly, ts: Seq<Seq<char>>)
    requires
        a.stage is Reading,
        forall|i: int| 0 <= i < ts.len() ==> is_free_text(#[trigger] ts[i]),
    ensures
        readable(a, ts.map_values(|t: Seq<char>| LineView::Comment(t))),
        fed(a, ts.map_values(|t: Seq<char>| LineView::Comment(t))) == (Assembly {
            comments: a.comments + ts,
            ..a
        }),
    decreases ts.len(),
{
    let ls = ts.map_values(|t: Seq<char>| LineView::Comment(t));
    if ts.len() == 0 {
        assert(a.comments + ts =~= a.comments);
    } else {
        let b = Assembly { comments: a.comments.push(ts[0]), ..a };
        assert(ls[0] == LineView::Comment(ts[0]));
        assert(ls.drop_first() =~= ts.drop_first().map_values(|t: Seq<char>| LineView::Comment(t)));
        assert forall|i: int| 0 <= i < ts.drop_first().len() implies is_free_text(
            #[trigger] ts.drop_first()[i],
        ) by {
            assert(ts.drop_first()[i] == ts[i + 1]);
        }
        lemma_fed_comments(b, ts.drop_first());
        assert(b.comments + ts.drop_first() =~= a.comments + ts);
    }
}

/// Object informations are taken one after the other, and are gathered in
/// their order.
proof fn lemma_fed_obj_infos(a: Assembly, ts: Seq<Seq<char>>)
    requires
        a.stage is Reading,
        forall|i: int| 0 <= i < ts.len() ==> is_free_text(#[trigger] ts[i]),
    ensures
        readable(a, ts.map_values(|t: Seq<char>| LineView::ObjInfo(t))),
        fed(a, ts.map_values(|t: Seq<char>| LineView::ObjInfo(t))) == (Assembly {
            obj_infos: a.obj_infos + ts,
            ..a
        }),
    decreases ts.len(),
{
    let ls = ts.map_values(|t: Seq<char>| LineView::ObjInfo(t));
    if ts.len() == 0 {
        assert(a.obj_infos + ts =~= a.obj_infos);
    } else {
        let b = Assembly { obj_infos: a.obj_infos.push(ts[0]), ..a };
        assert(ls[0] == LineView::ObjInfo(ts[0]));
        assert(ls.drop_first() =~= ts.drop_first().map_values(|t: Seq<char>| LineView::ObjInfo(t)));
        assert forall|i: int| 0 <= i < ts.drop_first().len() implies is_free_text(
            #[trigger] ts.drop_first()[i],
        ) by {
            assert(ts.drop_first()[i] == ts[i + 1]);
        }
        lemma_fed_obj_infos(b, ts.drop_first());
        assert(b.obj_infos + ts.drop_first() =~= a.obj_infos + ts);
    }
}

/// The properties `ps` from number `k` on are added to the last element,
/// which has those before number `k` already.
proof fn lemma_fed_properties(a: Assembly, e: ElementDefView, k: int)
    requires
        a.stage is Reading,
        writable_element(e),
        0 <= k <= e.properties.len(),
        a.elements.len() > 0,
        a.elements.last() == (ElementDefView { properties: e.properties.take(k), ..e }),
    ensures
        readable(
            a,
            e.properties.skip(k).map_values(|p: PropertyDefView| LineView::Property(p)),
        ),
        fed(a, e.properties.skip(k).map_values(|p: PropertyDefView| LineView::Property(p)))
            == (Assembly { elements: a.elements.drop_last().push(e), ..a }),
    decreases e.properties.len() - k,
{
    let ps = e.properties.skip(k);
    let ls = ps.map_values(|p: PropertyDefView| LineView::Property(p));
    if k == e.properties.len() {
        assert(e.properties.take(k) =~= e.properties);
        assert(a.elements.drop_last().push(e) =~= a.elements);
    } else {
        let p = e.properties[k];
        let have = e.properties.take(k);
        assert(ls[0] == LineView::Property(p));
        assert(!has_property(have, p.name)) by {
            if has_property(have, p.name) {
                let i = choose|i: int| 0 <= i < have.len() && (#[trigger] have[i]).name == p.name;
                assert(have[i] == e.properties[i]);
            }
        }
        let grown = ElementDefView { properties: have.push(p), ..e };
        let b = Assembly { elements: a.elements.drop_last().push(grown), ..a };
        assert(a.step(ls[0]) == Ok::<Assembly, Fault>(b));
        assert(have.push(p) =~= e.properties.take(k + 1));
        assert(ls.drop_first() =~= e.properties.skip(k + 1).map_values(
            |p: PropertyDefView| LineView::Property(p),
        ));
        assert(b.elements.last() == grown);
        lemma_fed_properties(b, e, k + 1);
        assert(b.elements.drop_last() =~= a.elements.drop_last());
    }
}

/// The declarations of elements are taken one after the other, and are
/// gathered in their order.
proof fn lemma_fed_elements(a: Assembly, es: Seq<ElementDefView>)
    requires
        a.stage is Reading,
        forall|i: int| 0 <= i < es.len() ==> writable_element(#[trigger] es[i]),
    ensures
        readable(a, element_statements(es)),
        fed(a, element_statements(es)) == (Assembly { elements: a.elements + es, ..a }),
    decreases es.len(),
{
    if es.len() == 0 {
        assert(a.elements + es =~= a.elements);
    } else {
        let front = es.drop_last();
        let e = es.last();
        assert(writable_element(e));
        assert forall|i: int| 0 <= i < front.len() implies writable_element(#[trigger] front[i]) by {
            assert(front[i] == es[i]);
        }
        lemma_fed_elements(a, front);
        let b = Assembly { elements: a.elements + front, ..a };
        let bare = ElementDefView { name: e.name, count: e.count, properties: Seq::empty() };
        let one = seq![LineView::Element(bare)];
        let c = Assembly { elements: b.elements.push(bare), ..b };
        assert(b.step(LineView::Element(bare)) == Ok::<Assembly, Fault>(c));
        lemma_fed_one(b, LineView::Element(bare), c);
        lemma_fed_concat(a, element_statements(front), one);
        assert(e.properties.take(0) =~= Seq::<PropertyDefView>::empty());
        assert(e.properties.skip(0) =~= e.properties);
        lemma_fed_properties(c, e, 0);
        lemma_fed_concat(
            a,
            element_statements(front) + one,
            e.properties.map_values(|p: PropertyDefView| LineView::Property(p)),
        );
        assert(c.elements.drop_last().push(e) =~= a.elements + es);
    }
}

/// A header that is written and read again is the header that was written.
/// What follows the header in the file is left unread.
///
/// This holds of every header that can be written so that its lines stay
/// apart: comments and object informations without line breaks and without
/// blanks at their start, names that are words, and in each element no two
/// properties of one name.
pub proof fn lemma_header_round_trip(h: HeaderView, tail: Seq<u8>, line: usize)
    requires
        writable(h),
    ensures
        assemble(Assembly::start(), header_bytes(h) + tail, line).0 == Ok::<
            HeaderView,
            ParseErrorView,
        >(h),
        after_header(Assembly::start(), header_bytes(h) + tail) == tail,
{
    let start = Assembly::start();
    let head = seq![LineView::MagicNumber, LineView::Format((h.encoding, h.version))];
    let comments = h.comments.map_values(|t: Seq<char>| LineView::Comment(t));
    let obj_infos = h.obj_infos.map_values(|t: Seq<char>| LineView::ObjInfo(t));
    let elements = element_statements(h.elements);
    let a1 = Assembly { stage: Stage::Reading, ..start };
    let a2 = Assembly { format: Some((h.encoding, h.version)), ..a1 };
    // the magic number and the format
    let magic = LineView::MagicNumber;
    let format = LineView::Format((h.encoding, h.version));
    assert(start.step(magic) == Ok::<Assembly, Fault>(a1));
    assert(a1.step(format) == Ok::<Assembly, Fault>(a2));
    lemma_fed_one(start, magic, a1);
    lemma_fed_one(a1, format, a2);
    lemma_fed_concat(start, seq![magic], seq![format]);
    assert(head =~= seq![magic] + seq![format]);
    // the comments, the object informations, the elements
    lemma_fed_comments(a2, h.comments);
    let a3 = Assembly { comments: a2.comments + h.comments, ..a2 };
    lemma_fed_concat(start, head, comments);
    lemma_fed_obj_infos(a3, h.obj_infos);
    let a4 = Assembly { obj_infos: a3.obj_infos + h.obj_infos, ..a3 };
    lemma_fed_concat(start, head + comments, obj_infos);
    lemma_fed_elements(a4, h.elements);
    let a5 = Assembly { elements: a4.elements + h.elements, ..a4 };
    lemma_fed_concat(start, head + comments + obj_infos, elements);
    let ls = header_statements(h);
    assert(fed(start, ls) == a5);
    assert(a5.comments =~= h.comments);
    assert(a5.obj_infos =~= h.obj_infos);
    assert(a5.elements =~= h.elements);
    // the end of the header
    let end = seq![LineView::EndHeader];
    let last = vstd::utf8::encode_utf8(line_of(LineView::EndHeader)) + tail;
    assert(lines_of(ls + end) =~= lines_of(ls) + lines_of(end));
    lemma_line_bytes_concat(lines_of(ls), lines_of(end));
    let closing = lines_of(end);
    assert(closing.len() == 1 && closing[0] == line_of(LineView::EndHeader));
    assert(closing.drop_first().len() == 0);
    assert(line_bytes(closing.drop_first()) =~= Seq::<u8>::empty());
    assert(line_bytes(closing) == vstd::utf8::encode_utf8(closing[0]) + line_bytes(
        closing.drop_first(),
    ));
    assert(line_bytes(closing) =~= vstd::utf8::encode_utf8(line_of(LineView::EndHeader)));
    assert(header_bytes(h) + tail =~= line_bytes(lines_of(ls)) + last);
    lemma_read_lines(start, ls, last, line);
    lemma_line_of(LineView::EndHeader);
    lemma_first_line(line_of(LineView::EndHeader), tail);
}

/// The bytes of lines in two parts are the bytes of the one part and then
/// those of the other.
proof fn lemma_line_bytes_concat(x: Seq<Seq<char>>, y: Seq<Seq<char>>)
    ensures
        line_bytes(x + y) == line_bytes(x) + line_bytes(y),
    decreases x.len(),
{
    if x.len() == 0 {
        assert(x + y =~= y);
        assert(line_bytes(x) + line_bytes(y) =~= line_bytes(y));
    } else {
        lemma_line_bytes_concat(x.drop_first(), y);
        assert((x + y).drop_first() =~= x.drop_first() + y);
        assert(line_bytes(x + y) =~= line_bytes(x) + line_bytes(y));
    }
}

} // verus!
