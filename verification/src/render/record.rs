//! The records of a payload as they are written in ascii and in binary, and
//! the proof that both are read as the same record.
//!
//! A record is given here by the whole numbers of each of its properties:
//! one number for a scalar, the items for a list. Floating-point numbers are
//! left out: a text file gives them as literals, a binary file as bit
//! patterns, and the reader keeps either as it is.

use super::lines::{advanced, is_line, lemma_first_line, line_bytes};
use super::text::{
    digits, integer_text, is_word, joined, lemma_digits, lemma_joined, lemma_words_of_joined,
};
use crate::parser::payload::{ascii_records, binary_records, records, Reading};
use crate::ply::{ElementDefView, Encoding};
use crate::util::after;
use crate::parser::ascii::{
    ascii_build, ascii_datum, ascii_element, ascii_items, ascii_length, ascii_property, integer_of,
};
use crate::parser::binary::{
    be_value, binary_build, binary_datum, binary_element, binary_items, binary_property, le_value,
    radix, Endian,
};
use crate::parser::error::Fault;
use crate::parser::grammar::{data_fields, is_number, number_run, slice, words, SyntaxError};
use crate::parser::value::{highest, list, lowest, scalar, Datum};
use crate::ply::{PropertyDefView, PropertyType, PropertyView, ScalarType, ValuesView};
use crate::text::{decimal, is_digit, lemma_digit_end_step, strip_line_end, stripped_len};
use vstd::prelude::*;

verus! {

/// Whether `items` can be the numbers of a property of type `data_type`: one
/// number in the range of an integer type; or the items of a list, each in
/// the range of the item type, no more of them than the type of the length
/// can count.
pub open spec fn fits(items: Seq<int>, data_type: PropertyType) -> bool {
    match data_type {
        PropertyType::Scalar(t) => t.is_integer() && items.len() == 1 && lowest(t) <= items[0]
            <= highest(t),
        PropertyType::List(index, t) => index.is_integer() && t.is_integer() && items.len()
            <= highest(index) && forall|i: int|
            0 <= i < items.len() ==> lowest(t) <= #[trigger] items[i] <= highest(t),
    }
}

/// The numbers `items` as data.
pub open spec fn integers(items: Seq<int>) -> Seq<Datum> {
    items.map_values(|v: int| Datum::Integer(v))
}

/// The property of type `data_type` that holds `items`.
pub open spec fn value(items: Seq<int>, data_type: PropertyType) -> PropertyView {
    match data_type {
        PropertyType::Scalar(t) => scalar(t, Datum::Integer(items[0])),
        PropertyType::List(_, t) => list(t, integers(items)),
    }
}

/// The values of a record: those in `acc`, and after them the values of the
/// properties from number `k` on, with the numbers of `contents`.
pub open spec fn built(
    acc: ValuesView,
    contents: Seq<Seq<int>>,
    properties: Seq<PropertyDefView>,
    k: int,
) -> ValuesView
    decreases properties.len() - k,
{
    if k < 0 || k >= properties.len() {
        acc
    } else {
        built(
            acc.push((properties[k].name, value(contents[k], properties[k].data_type))),
            contents,
            properties,
            k + 1,
        )
    }
}

/// The fields that a property takes in a line of an ascii payload: the
/// number of a scalar; for a list its length and then its items.
pub open spec fn ascii_fields(items: Seq<int>, data_type: PropertyType) -> Seq<Seq<char>> {
    match data_type {
        PropertyType::Scalar(_) => seq![integer_text(items[0])],
        PropertyType::List(_, _) => seq![digits(items.len())] + items.map_values(
            |v: int| integer_text(v),
        ),
    }
}

/// The fields of the properties from number `k` on.
pub open spec fn record_fields(
    contents: Seq<Seq<int>>,
    properties: Seq<PropertyDefView>,
    k: int,
) -> Seq<Seq<char>>
    decreases properties.len() - k,
{
    if k < 0 || k >= properties.len() {
        Seq::empty()
    } else {
        ascii_fields(contents[k], properties[k].data_type) + record_fields(
            contents,
            properties,
            k + 1,
        )
    }
}

/// The line of an ascii payload that holds a record: its fields with one
/// space between each two, and a line feed.
pub open spec fn ascii_line(contents: Seq<Seq<int>>, properties: Seq<PropertyDefView>) -> Seq<
    char,
> {
    joined(record_fields(contents, properties, 0)) + seq!['\n']
}

/// The `width` bytes that spell the number `n`, the most significant first.
pub open spec fn be_bytes(n: nat, width: nat) -> Seq<u8>
    decreases width,
{
    if width == 0 {
        Seq::empty()
    } else {
        be_bytes(n / 256, (width - 1) as nat).push((n % 256) as u8)
    }
}

/// The `width` bytes that spell the number `n`, the least significant first.
pub open spec fn le_bytes(n: nat, width: nat) -> Seq<u8>
    decreases width,
{
    if width == 0 {
        Seq::empty()
    } else {
        seq![(n % 256) as u8] + le_bytes(n / 256, (width - 1) as nat)
    }
}

/// The `width` bytes that spell the whole number `v` in two's complement.
pub open spec fn number_bytes(v: int, width: nat, order: Endian) -> Seq<u8> {
    let n = if v < 0 {
        (v + radix(width)) as nat
    } else {
        v as nat
    };
    match order {
        Endian::Big => be_bytes(n, width),
        Endian::Little => le_bytes(n, width),
    }
}

/// The bytes of the first `n` of `items`, each as a number of type `t`.
pub open spec fn item_bytes(items: Seq<int>, n: int, t: ScalarType, order: Endian) -> Seq<u8>
    decreases n,
{
    if n <= 0 {
        Seq::empty()
    } else {
        item_bytes(items, n - 1, t, order) + number_bytes(items[n - 1], t.width(), order)
    }
}

/// The bytes that a property takes in a binary payload.
pub open spec fn binary_bytes(items: Seq<int>, data_type: PropertyType, order: Endian) -> Seq<u8> {
    match data_type {
        PropertyType::Scalar(t) => number_bytes(items[0], t.width(), order),
        PropertyType::List(index, t) => number_bytes(items.len() as int, index.width(), order)
            + item_bytes(items, items.len() as int, t, order),
    }
}

/// The bytes of the properties from number `k` on.
pub open spec fn record_bytes(
    contents: Seq<Seq<int>>,
    properties: Seq<PropertyDefView>,
    k: int,
    order: Endian,
) -> Seq<u8>
    decreases properties.len() - k,
{
    if k < 0 || k >= properties.len() {
        Seq::empty()
    } else {
        binary_bytes(contents[k], properties[k].data_type, order) + record_bytes(
            contents,
            properties,
            k + 1,
            order,
        )
    }
}

/// A whole number in decimal digits is a word, is a decimal number, and is
/// read as the number it was written for.
pub proof fn lemma_integer_text(v: int)
    ensures
        is_word(integer_text(v)),
        is_number(integer_text(v)),
        integer_of(integer_text(v), true) == Some(v),
        v >= 0 ==> integer_of(integer_text(v), false) == Some(v),
{
    let t = integer_text(v);
    if v < 0 {
        let d = digits((-v) as nat);
        lemma_digits((-v) as nat);
        assert(t.skip(1) =~= d);
        assert forall|i: int| 1 <= i < t.len() implies is_digit(#[trigger] t[i]) by {
            assert(t[i] == d[i - 1]);
        }
        lemma_digit_end_step(t, 1, t.len() as int);
        assert forall|i: int| 0 <= i < t.len() implies !crate::text::is_blank(#[trigger] t[i])
            && !crate::text::is_line_break(t[i]) by {
            if i > 0 {
                assert(t[i] == d[i - 1]);
            }
        }
    } else {
        lemma_digits(v as nat);
        assert(t.skip(0) =~= t);
        assert(is_digit(t[0]));
    }
}

/// The fields of a record are words and decimal numbers.
pub proof fn lemma_record_fields(
    contents: Seq<Seq<int>>,
    properties: Seq<PropertyDefView>,
    k: int,
)
    requires
        0 <= k,
        contents.len() == properties.len(),
    ensures
        forall|i: int|
            0 <= i < record_fields(contents, properties, k).len() ==> is_word(
                #[trigger] record_fields(contents, properties, k)[i],
            ) && is_number(record_fields(contents, properties, k)[i]),
    decreases properties.len() - k,
{
    if k < properties.len() {
        lemma_record_fields(contents, properties, k + 1);
        let a = ascii_fields(contents[k], properties[k].data_type);
        let r = record_fields(contents, properties, k + 1);
        let all = record_fields(contents, properties, k);
        assert forall|i: int| 0 <= i < all.len() implies is_word(#[trigger] all[i]) && is_number(
            all[i],
        ) by {
            if i < a.len() {
                assert(all[i] == a[i]);
                match properties[k].data_type {
                    PropertyType::Scalar(_) => {
                        lemma_integer_text(contents[k][0]);
                    },
                    PropertyType::List(_, _) => {
                        if i == 0 {
                            lemma_integer_text(contents[k].len() as int);
                        } else {
                            lemma_integer_text(contents[k][i - 1]);
                        }
                    },
                }
            } else {
                assert(all[i] == r[i - a.len()]);
            }
        }
    }
}

/// As long as the words are numbers, the count of numbers goes on.
proof fn lemma_number_run(s: Seq<char>, w: Seq<(int, int)>, k: int)
    requires
        0 <= k <= w.len(),
        forall|i: int| k <= i < w.len() ==> is_number(slice(s, #[trigger] w[i])),
    ensures
        number_run(s, w, k) == w.len(),
    decreases w.len() - k,
{
    if k < w.len() {
        lemma_number_run(s, w, k + 1);
    }
}

/// A line of words that are decimal numbers is read into those words.
pub proof fn lemma_data_fields(fields: Seq<Seq<char>>)
    requires
        forall|i: int|
            0 <= i < fields.len() ==> is_word(#[trigger] fields[i]) && is_number(fields[i]),
    ensures
        data_fields(joined(fields) + seq!['\n']) == Ok::<Seq<Seq<char>>, SyntaxError>(fields),
{
    let s = joined(fields);
    let l = s + seq!['\n'];
    if fields.len() > 0 {
        lemma_joined(fields);
        assert(l[l.len() - 2] == s.last());
    }
    assert(stripped_len(l) == s.len());
    assert(strip_line_end(l) =~= s);
    lemma_words_of_joined(fields);
    let w = words(s, 0);
    lemma_number_run(s, w, 0);
    assert(w.map_values(|span: (int, int)| slice(s, span)) =~= fields);
}

/// The items of a list, written as fields, are read as those items.
proof fn lemma_ascii_items(
    all: Seq<Seq<char>>,
    at: int,
    items: Seq<int>,
    count: int,
    t: ScalarType,
)
    requires
        0 <= at,
        0 <= count <= items.len(),
        at + items.len() <= all.len(),
        t.is_integer(),
        forall|i: int| 0 <= i < items.len() ==> lowest(t) <= #[trigger] items[i] <= highest(t),
        forall|i: int| 0 <= i < items.len() ==> all[at + i] == integer_text(#[trigger] items[i]),
    ensures
        ascii_items(all, at, count, t) == Ok::<Seq<Datum>, Fault>(integers(items.take(count))),
    decreases count,
{
    if count > 0 {
        lemma_ascii_items(all, at, items, count - 1, t);
        let v = items[count - 1];
        lemma_integer_text(v);
        assert(all[at + count - 1] == integer_text(v));
        assert(ascii_datum(integer_text(v), t) == Some(Datum::Integer(v)));
        assert(integers(items.take(count - 1)).push(Datum::Integer(v)) =~= integers(
            items.take(count),
        ));
    } else {
        assert(integers(items.take(0)) =~= Seq::<Datum>::empty());
    }
}

/// The fields of a property are read as the property.
proof fn lemma_ascii_property(all: Seq<Seq<char>>, at: int, items: Seq<int>, data_type: PropertyType)
    requires
        0 <= at,
        fits(items, data_type),
        at + ascii_fields(items, data_type).len() <= all.len(),
        forall|i: int|
            0 <= i < ascii_fields(items, data_type).len() ==> all[at + i] == #[trigger] ascii_fields(
                items,
                data_type,
            )[i],
    ensures
        ascii_property(all, at, data_type) == Ok::<(PropertyView, int), Fault>(
            (value(items, data_type), at + ascii_fields(items, data_type).len()),
        ),
{
    let a = ascii_fields(items, data_type);
    assert(all[at] == a[0]);
    match data_type {
        PropertyType::Scalar(t) => {
            lemma_integer_text(items[0]);
            assert(ascii_datum(integer_text(items[0]), t) == Some(Datum::Integer(items[0])));
        },
        PropertyType::List(index, t) => {
            let n = items.len() as int;
            lemma_integer_text(n);
            assert(ascii_length(digits(items.len())) == Some(n));
            assert forall|i: int| 0 <= i < items.len() implies all[at + 1 + i] == integer_text(
                #[trigger] items[i],
            ) by {
                assert(a[i + 1] == integer_text(items[i]));
                assert(all[at + (i + 1)] == a[i + 1]);
            }
            lemma_ascii_items(all, at + 1, items, n, t);
            assert(items.take(n) =~= items);
        },
    }
}

/// The fields of a record are read as the record.
proof fn lemma_ascii_build(
    acc: ValuesView,
    all: Seq<Seq<char>>,
    at: int,
    contents: Seq<Seq<int>>,
    properties: Seq<PropertyDefView>,
    k: int,
)
    requires
        0 <= k <= properties.len(),
        0 <= at <= all.len(),
        contents.len() == properties.len(),
        forall|i: int|
            0 <= i < properties.len() ==> fits(#[trigger] contents[i], properties[i].data_type),
        all.skip(at) == record_fields(contents, properties, k),
    ensures
        ascii_build(acc, all, properties, k, at) == Ok::<ValuesView, Fault>(
            built(acc, contents, properties, k),
        ),
    decreases properties.len() - k,
{
    if k < properties.len() {
        let data_type = properties[k].data_type;
        let a = ascii_fields(contents[k], data_type);
        let r = record_fields(contents, properties, k + 1);
        assert(all.skip(at).len() == a.len() + r.len());
        assert forall|i: int| 0 <= i < a.len() implies all[at + i] == #[trigger] a[i] by {
            assert(all.skip(at)[i] == all[at + i]);
        }
        lemma_ascii_property(all, at, contents[k], data_type);
        assert(all.skip(at + a.len()) =~= r) by {
            assert forall|i: int| 0 <= i < r.len() implies all.skip(at + a.len())[i] == r[i] by {
                assert(all.skip(at)[a.len() + i] == all[at + a.len() + i]);
            }
        }
        lemma_ascii_build(
            acc.push((properties[k].name, value(contents[k], data_type))),
            all,
            at + a.len(),
            contents,
            properties,
            k + 1,
        );
    }
}

/// The powers of 256 that the scalar types need.
pub proof fn lemma_radix()
    ensures
        radix(0) == 1,
        radix(1) == 0x100,
        radix(2) == 0x1_0000,
        radix(4) == 0x1_0000_0000,
        radix(8) == 0x1_0000_0000_0000_0000,
{
    assert(radix(0) == 1);
    assert(radix(1) == 256 * radix(0));
    assert(radix(2) == 256 * radix(1));
    assert(radix(3) == 256 * radix(2));
    assert(radix(4) == 256 * radix(3));
    assert(radix(5) == 256 * radix(4));
    assert(radix(6) == 256 * radix(5));
    assert(radix(7) == 256 * radix(6));
    assert(radix(8) == 256 * radix(7));
}

/// The bytes that spell a number, the most significant first, are read as
/// that number.
pub proof fn lemma_be_bytes(n: nat, width: nat)
    requires
        n < radix(width),
    ensures
        be_bytes(n, width).len() == width,
        be_value(be_bytes(n, width)) == n,
    decreases width,
{
    if width > 0 {
        let b = be_bytes(n, width);
        assert(radix(width) == 256 * radix((width - 1) as nat));
        assert(n / 256 < radix((width - 1) as nat)) by (nonlinear_arith)
            requires
                n < 256 * radix((width - 1) as nat),
        ;
        lemma_be_bytes(n / 256, (width - 1) as nat);
        assert(b.drop_last() =~= be_bytes(n / 256, (width - 1) as nat));
        assert(b.last() == (n % 256) as u8);
    }
}

/// The bytes that spell a number, the least significant first, are read as
/// that number.
pub proof fn lemma_le_bytes(n: nat, width: nat)
    requires
        n < radix(width),
    ensures
        le_bytes(n, width).len() == width,
        le_value(le_bytes(n, width)) == n,
    decreases width,
{
    if width > 0 {
        let b = le_bytes(n, width);
        assert(radix(width) == 256 * radix((width - 1) as nat));
        assert(n / 256 < radix((width - 1) as nat)) by (nonlinear_arith)
            requires
                n < 256 * radix((width - 1) as nat),
        ;
        lemma_le_bytes(n / 256, (width - 1) as nat);
        assert(b.drop_first() =~= le_bytes(n / 256, (width - 1) as nat));
        assert(b[0] == (n % 256) as u8);
    }
}

/// The bytes of a whole number of type `t` are read as that number.
pub proof fn lemma_number_bytes(v: int, t: ScalarType, order: Endian)
    requires
        t.is_integer(),
        lowest(t) <= v <= highest(t),
    ensures
        number_bytes(v, t.width(), order).len() == t.width(),
        binary_datum(t, number_bytes(v, t.width(), order), order) == Datum::Integer(v),
{
    lemma_radix();
    let w = t.width();
    let n = if v < 0 {
        (v + radix(w)) as nat
    } else {
        v as nat
    };
    lemma_be_bytes(n, w);
    lemma_le_bytes(n, w);
}

/// The bytes of the items of a list are as many as the items take together,
/// and the bytes of each item stand at its place.
proof fn lemma_item_bytes(items: Seq<int>, n: int, t: ScalarType, order: Endian)
    requires
        0 <= n <= items.len(),
        t.is_integer(),
        forall|i: int| 0 <= i < items.len() ==> lowest(t) <= #[trigger] items[i] <= highest(t),
    ensures
        item_bytes(items, n, t, order).len() == n * t.width(),
        forall|i: int|
            0 <= i < n ==> #[trigger] item_bytes(items, n, t, order).subrange(
                i * t.width(),
                i * t.width() + t.width(),
            ) == number_bytes(items[i], t.width(), order),
    decreases n,
{
    let w = t.width() as int;
    if n > 0 {
        lemma_item_bytes(items, n - 1, t, order);
        lemma_number_bytes(items[n - 1], t, order);
        let front = item_bytes(items, n - 1, t, order);
        let last = number_bytes(items[n - 1], t.width(), order);
        let all = item_bytes(items, n, t, order);
        assert(all == front + last);
        assert((n - 1) * w + w == n * w) by (nonlinear_arith);
        assert forall|i: int| 0 <= i < n implies #[trigger] all.subrange(i * w, i * w + w)
            == number_bytes(items[i], t.width(), order) by {
            if i < n - 1 {
                assert(i * w + w <= (n - 1) * w) by (nonlinear_arith)
                    requires
                        0 <= i < n - 1,
                        w >= 0,
                ;
                assert(0 <= i * w) by (nonlinear_arith)
                    requires
                        0 <= i,
                        w >= 0,
                ;
                assert(all.subrange(i * w, i * w + w) =~= front.subrange(i * w, i * w + w));
            } else {
                assert(all.subrange(i * w, i * w + w) =~= last);
            }
        }
    }
}

/// The bytes of the items of a list are read as those items.
proof fn lemma_binary_items(items: Seq<int>, t: ScalarType, order: Endian)
    requires
        t.is_integer(),
        forall|i: int| 0 <= i < items.len() ==> lowest(t) <= #[trigger] items[i] <= highest(t),
    ensures
        item_bytes(items, items.len() as int, t, order).len() == items.len() * t.width(),
        binary_items(
            item_bytes(items, items.len() as int, t, order),
            items.len() as int,
            t,
            order,
        ) == integers(items),
{
    let n = items.len() as int;
    let w = t.width() as int;
    let body = item_bytes(items, n, t, order);
    lemma_item_bytes(items, n, t, order);
    assert forall|i: int| 0 <= i < n implies binary_items(body, n, t, order)[i] == integers(
        items,
    )[i] by {
        lemma_number_bytes(items[i], t, order);
        assert(body.subrange(i * w, i * w + w) == number_bytes(items[i], t.width(), order));
    }
    assert(binary_items(body, n, t, order) =~= integers(items));
}

/// The bytes of a scalar are read as the scalar, and what follows them is
/// left.
proof fn lemma_binary_scalar(v: int, t: ScalarType, order: Endian, tail: Seq<u8>)
    requires
        t.is_integer(),
        lowest(t) <= v <= highest(t),
    ensures
        binary_property(
            number_bytes(v, t.width(), order) + tail,
            PropertyType::Scalar(t),
            order,
        ) == (Ok::<PropertyView, Fault>(scalar(t, Datum::Integer(v))), tail),
{
    lemma_number_bytes(v, t, order);
    let b = number_bytes(v, t.width(), order);
    let bytes = b + tail;
    assert(bytes.take(t.width() as int) =~= b);
    assert(bytes.skip(t.width() as int) =~= tail);
}

/// The bytes of a list are read as the list, and what follows them is left.
proof fn lemma_binary_list(
    items: Seq<int>,
    index: ScalarType,
    t: ScalarType,
    order: Endian,
    tail: Seq<u8>,
)
    requires
        fits(items, PropertyType::List(index, t)),
    ensures
        binary_property(
            binary_bytes(items, PropertyType::List(index, t), order) + tail,
            PropertyType::List(index, t),
            order,
        ) == (Ok::<PropertyView, Fault>(list(t, integers(items))), tail),
{
    let n = items.len() as int;
    let w = t.width() as int;
    let wi = index.width() as int;
    let head = number_bytes(n, index.width(), order);
    let body = item_bytes(items, n, t, order);
    let bytes = binary_bytes(items, PropertyType::List(index, t), order) + tail;
    lemma_number_bytes(n, index, order);
    lemma_binary_items(items, t, order);
    assert(bytes =~= head + (body + tail));
    assert(bytes.take(wi) =~= head);
    assert(bytes.skip(wi) =~= body + tail);
    assert(binary_datum(index, bytes.take(wi), order).integer() == n);
    assert(body.len() == n * w);
    assert((body + tail).len() >= n * w);
    assert((body + tail).take(n * w) =~= body);
    assert((body + tail).skip(n * w) =~= tail);
}

/// The bytes of a property are read as the property, and what follows them
/// is left.
proof fn lemma_binary_property(
    items: Seq<int>,
    data_type: PropertyType,
    order: Endian,
    tail: Seq<u8>,
)
    requires
        fits(items, data_type),
    ensures
        binary_property(binary_bytes(items, data_type, order) + tail, data_type, order) == (
            Ok::<PropertyView, Fault>(value(items, data_type)),
            tail,
        ),
{
    match data_type {
        PropertyType::Scalar(t) => {
            lemma_binary_scalar(items[0], t, order, tail);
        },
        PropertyType::List(index, t) => {
            lemma_binary_list(items, index, t, order, tail);
        },
    }
}

/// The bytes of a record are read as the record, and what follows them is
/// left.
proof fn lemma_binary_build(
    acc: ValuesView,
    contents: Seq<Seq<int>>,
    properties: Seq<PropertyDefView>,
    k: int,
    order: Endian,
    tail: Seq<u8>,
)
    requires
        0 <= k <= properties.len(),
        contents.len() == properties.len(),
        forall|i: int|
            0 <= i < properties.len() ==> fits(#[trigger] contents[i], properties[i].data_type),
    ensures
        binary_build(
            acc,
            record_bytes(contents, properties, k, order) + tail,
            properties,
            k,
            order,
        ) == (Ok::<ValuesView, Fault>(built(acc, contents, properties, k)), tail),
    decreases properties.len() - k,
{
    if k < properties.len() {
        let data_type = properties[k].data_type;
        let head = binary_bytes(contents[k], data_type, order);
        let rest = record_bytes(contents, properties, k + 1, order);
        assert(record_bytes(contents, properties, k, order) + tail =~= head + (rest + tail));
        lemma_binary_property(contents[k], data_type, order, rest + tail);
        lemma_binary_build(
            acc.push((properties[k].name, value(contents[k], data_type))),
            contents,
            properties,
            k + 1,
            order,
            tail,
        );
    } else {
        assert(record_bytes(contents, properties, k, order) + tail =~= tail);
    }
}

/// A record of whole numbers is read alike from an ascii payload and from a
/// binary payload in either byte order: the line that holds its numbers in
/// decimal digits, and the bytes that hold them in the widths of their
/// types, give the same record. After the bytes of the record the binary
/// reader leaves what follows them.
pub proof fn lemma_same_record(
    contents: Seq<Seq<int>>,
    properties: Seq<PropertyDefView>,
    order: Endian,
    tail: Seq<u8>,
)
    requires
        contents.len() == properties.len(),
        forall|i: int|
            0 <= i < properties.len() ==> fits(#[trigger] contents[i], properties[i].data_type),
    ensures
        ascii_element(ascii_line(contents, properties), properties) == Ok::<ValuesView, Fault>(
            built(Seq::empty(), contents, properties, 0),
        ),
        binary_element(
            record_bytes(contents, properties, 0, order) + tail,
            properties,
            order,
        ) == (Ok::<ValuesView, Fault>(built(Seq::empty(), contents, properties, 0)), tail),
{
    let fields = record_fields(contents, properties, 0);
    lemma_record_fields(contents, properties, 0);
    lemma_data_fields(fields);
    assert(fields.skip(0) =~= fields);
    lemma_ascii_build(Seq::empty(), fields, 0, contents, properties, 0);
    lemma_binary_build(Seq::empty(), contents, properties, 0, order, tail);
}

/// Whether `rows` can be the records of an element with the given
/// properties: each has the numbers of every property.
pub open spec fn fit(rows: Seq<Seq<Seq<int>>>, properties: Seq<PropertyDefView>) -> bool {
    forall|r: int|
        0 <= r < rows.len() ==> (#[trigger] rows[r]).len() == properties.len() && forall|i: int|
            0 <= i < properties.len() ==> fits(#[trigger] rows[r][i], properties[i].data_type)
}

/// The records that hold the numbers of `rows`.
pub open spec fn built_records(
    rows: Seq<Seq<Seq<int>>>,
    properties: Seq<PropertyDefView>,
) -> Seq<ValuesView> {
    rows.map_values(|c: Seq<Seq<int>>| built(Seq::empty(), c, properties, 0))
}

/// The lines of an ascii payload that hold the records `rows`.
pub open spec fn ascii_lines(rows: Seq<Seq<Seq<int>>>, properties: Seq<PropertyDefView>) -> Seq<
    Seq<char>,
> {
    rows.map_values(|c: Seq<Seq<int>>| ascii_line(c, properties))
}

/// The bytes of an ascii payload that holds the records `rows`.
pub open spec fn ascii_payload(rows: Seq<Seq<Seq<int>>>, properties: Seq<PropertyDefView>) -> Seq<
    u8,
> {
    line_bytes(ascii_lines(rows, properties))
}

/// The bytes of a binary payload that holds the records `rows`.
pub open spec fn binary_payload(
    rows: Seq<Seq<Seq<int>>>,
    properties: Seq<PropertyDefView>,
    order: Endian,
) -> Seq<u8>
    decreases rows.len(),
{
    if rows.len() == 0 {
        Seq::empty()
    } else {
        record_bytes(rows[0], properties, 0, order) + binary_payload(
            rows.drop_first(),
            properties,
            order,
        )
    }
}

/// The line of a record is one line.
proof fn lemma_ascii_line(contents: Seq<Seq<int>>, properties: Seq<PropertyDefView>)
    requires
        contents.len() == properties.len(),
    ensures
        is_line(ascii_line(contents, properties)),
{
    let fields = record_fields(contents, properties, 0);
    let s = joined(fields);
    let l = ascii_line(contents, properties);
    lemma_record_fields(contents, properties, 0);
    if fields.len() > 0 {
        lemma_joined(fields);
    }
    assert forall|i: int| 0 <= i < l.len() - 1 implies #[trigger] l[i] != '\n' by {
        assert(l[i] == s[i]);
        assert(!crate::text::is_line_break(s[i]));
    }
}

/// The lines of records are read as those records, one after the other.
proof fn lemma_ascii_records(
    acc: Seq<ValuesView>,
    rows: Seq<Seq<Seq<int>>>,
    properties: Seq<PropertyDefView>,
    tail: Seq<u8>,
    line: usize,
)
    requires
        fit(rows, properties),
    ensures
        ascii_records(
            acc,
            ascii_payload(rows, properties) + tail,
            properties,
            rows.len() as int,
            line,
        ) == (Reading {
            result: Ok(acc + built_records(rows, properties)),
            rest: tail,
            line: advanced(line, rows.len()),
        }),
    decreases rows.len(),
{
    let lines = ascii_lines(rows, properties);
    if rows.len() == 0 {
        assert(ascii_payload(rows, properties) + tail =~= tail);
        assert(acc + built_records(rows, properties) =~= acc);
    } else {
        let first = rows[0];
        let later = rows.drop_first();
        let l = ascii_line(first, properties);
        let e = built(Seq::empty(), first, properties, 0);
        assert(fit(later, properties)) by {
            assert forall|r: int| 0 <= r < later.len() implies (#[trigger] later[r]).len()
                == properties.len() && forall|i: int|
                0 <= i < properties.len() ==> fits(#[trigger] later[r][i], properties[i].data_type) by {
                assert(later[r] == rows[r + 1]);
            }
        }
        lemma_ascii_line(first, properties);
        lemma_same_record(first, properties, Endian::Big, tail);
        let rest = ascii_payload(later, properties) + tail;
        assert(lines[0] == l);
        assert(lines.drop_first() =~= ascii_lines(later, properties));
        assert(ascii_payload(rows, properties) + tail =~= vstd::utf8::encode_utf8(l) + rest);
        lemma_first_line(l, rest);
        lemma_ascii_records(acc.push(e), later, properties, tail, after(line));
        assert(acc.push(e) + built_records(later, properties) =~= acc + built_records(
            rows,
            properties,
        ));
    }
}

/// The bytes of records are read as those records, one after the other.
proof fn lemma_binary_records(
    acc: Seq<ValuesView>,
    rows: Seq<Seq<Seq<int>>>,
    properties: Seq<PropertyDefView>,
    order: Endian,
    tail: Seq<u8>,
    line: usize,
)
    requires
        fit(rows, properties),
    ensures
        binary_records(
            acc,
            binary_payload(rows, properties, order) + tail,
            properties,
            rows.len() as int,
            line,
            order,
        ) == (Reading {
            result: Ok(acc + built_records(rows, properties)),
            rest: tail,
            line: advanced(line, rows.len()),
        }),
    decreases rows.len(),
{
    if rows.len() == 0 {
        assert(binary_payload(rows, properties, order) + tail =~= tail);
        assert(acc + built_records(rows, properties) =~= acc);
    } else {
        let first = rows[0];
        let later = rows.drop_first();
        let e = built(Seq::empty(), first, properties, 0);
        assert(fit(later, properties)) by {
            assert forall|r: int| 0 <= r < later.len() implies (#[trigger] later[r]).len()
                == properties.len() && forall|i: int|
                0 <= i < properties.len() ==> fits(#[trigger] later[r][i], properties[i].data_type) by {
                assert(later[r] == rows[r + 1]);
            }
        }
        let rest = binary_payload(later, properties, order) + tail;
        assert(binary_payload(rows, properties, order) + tail =~= record_bytes(
            first,
            properties,
            0,
            order,
        ) + rest);
        lemma_same_record(first, properties, order, rest);
        lemma_binary_records(acc.push(e), later, properties, order, tail, after(line));
        assert(acc.push(e) + built_records(later, properties) =~= acc + built_records(
            rows,
            properties,
        ));
    }
}

/// The records of an element are read alike from an ascii payload and from
/// a binary payload in either byte order, where their numbers are whole
/// numbers: the three ways of writing the same records give the same list of
/// records, leave what follows the records, and count as many lines.
pub proof fn lemma_same_records(
    rows: Seq<Seq<Seq<int>>>,
    element: ElementDefView,
    tail: Seq<u8>,
    line: usize,
)
    requires
        rows.len() == element.count,
        fit(rows, element.properties),
    ensures
        ({
            let read = Reading {
                result: Ok(built_records(rows, element.properties)),
                rest: tail,
                line: advanced(line, rows.len()),
            };
            &&& records(
                ascii_payload(rows, element.properties) + tail,
                element,
                Encoding::Ascii,
                line,
            ) == read
            &&& records(
                binary_payload(rows, element.properties, Endian::Big) + tail,
                element,
                Encoding::BinaryBigEndian,
                line,
            ) == read
            &&& records(
                binary_payload(rows, element.properties, Endian::Little) + tail,
                element,
                Encoding::BinaryLittleEndian,
                line,
            ) == read
        }),
{
    let none = Seq::<ValuesView>::empty();
    lemma_ascii_records(none, rows, element.properties, tail, line);
    lemma_binary_records(none, rows, element.properties, Endian::Big, tail, line);
    lemma_binary_records(none, rows, element.properties, Endian::Little, tail, line);
    assert(none + built_records(rows, element.properties) =~= built_records(
        rows,
        element.properties,
    ));
}

} // verus!
