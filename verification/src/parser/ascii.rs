//! Reads the records of an ascii payload: one record per line, the values of
//! its properties as decimal numbers in the order of their declaration.

use super::error::Fault;
use super::grammar::{data_fields, data_line, field_views, is_number, number, SyntaxError};
use super::value::{data, highest, list, lowest, scalar, to_list, to_property, Datum, Raw};
use crate::ply::{
    values_view, ElementDef, Property, PropertyDefView, PropertyType, PropertyView, ScalarType,
    Values, ValuesView,
};
use crate::text::{chars_of, decimal, digit_end, lemma_digit_end, read_decimal, skip_digits};
use vstd::prelude::*;

verus! {

/// The whole number that `t` spells: an optional sign and one or more digits.
/// A minus sign is only taken where `signed` holds.
pub open spec fn integer_of(t: Seq<char>, signed: bool) -> Option<int> {
    let negative = t.len() > 0 && t[0] == '-';
    let start: int = if t.len() > 0 && (t[0] == '+' || t[0] == '-') {
        1
    } else {
        0
    };
    if start == t.len() || digit_end(t, start) != t.len() || (negative && !signed) {
        None
    } else if negative {
        Some(-(decimal(t.skip(start)) as int))
    } else {
        Some(decimal(t.skip(start)) as int)
    }
}

/// The number that the field `field` gives for the type `t`: for an integer
/// type the whole number that it spells, if it lies in the range of the type;
/// for a floating-point type the field as it stands, if it is a decimal
/// number.
pub open spec fn ascii_datum(field: Seq<char>, t: ScalarType) -> Option<Datum> {
    if t.is_integer() {
        match integer_of(field, lowest(t) < 0) {
            Some(v) => if lowest(t) <= v <= highest(t) {
                Some(Datum::Integer(v))
            } else {
                None
            },
            None => None,
        }
    } else if is_number(field) {
        Some(Datum::Literal(field))
    } else {
        None
    }
}

/// The length of a list that the field `field` gives: a whole number that is
/// not negative and that the machine can count to.
pub open spec fn ascii_length(field: Seq<char>) -> Option<int> {
    match integer_of(field, false) {
        Some(v) => if v <= usize::MAX {
            Some(v)
        } else {
            None
        },
        None => None,
    }
}

/// The `count` items of a list of type `t` that start at field number `at`.
/// The first item that has no field, or whose field is no value of type `t`,
/// makes the error.
pub open spec fn ascii_items(fields: Seq<Seq<char>>, at: int, count: int, t: ScalarType) -> Result<
    Seq<Datum>,
    Fault,
>
    decreases count,
{
    if count <= 0 {
        Ok(Seq::empty())
    } else {
        match ascii_items(fields, at, count - 1, t) {
            Err(f) => Err(f),
            Ok(ds) => if at + count - 1 >= fields.len() {
                Err(Fault::MissingListItem((count - 1) as usize))
            } else {
                match ascii_datum(fields[at + count - 1], t) {
                    None => Err(Fault::InvalidValue((at + count - 1) as usize, t)),
                    Some(d) => Ok(ds.push(d)),
                }
            },
        }
    }
}

/// The value of a property of type `data_type` that starts at field number
/// `at`, and the number of the field after it. A scalar takes one field. A
/// list takes one field for its length, read as a count whatever type the
/// declaration gives it, and one field for each item.
pub open spec fn ascii_property(fields: Seq<Seq<char>>, at: int, data_type: PropertyType) -> Result<
    (PropertyView, int),
    Fault,
> {
    if at >= fields.len() {
        Err(Fault::MissingField(at as usize))
    } else {
        match data_type {
            PropertyType::Scalar(t) => match ascii_datum(fields[at], t) {
                None => Err(Fault::InvalidValue(at as usize, t)),
                Some(d) => Ok((scalar(t, d), at + 1)),
            },
            PropertyType::List(_, t) => match ascii_length(fields[at]) {
                None => Err(Fault::InvalidLength(at as usize)),
                Some(n) => match ascii_items(fields, at + 1, n, t) {
                    Err(f) => Err(f),
                    Ok(ds) => Ok((list(t, ds), at + 1 + n)),
                },
            },
        }
    }
}

/// The values of a record: those in `acc`, and after them the values of the
/// properties from number `k` on, read from the fields from number `at` on.
/// Fields that are left over are ignored.
pub open spec fn ascii_build(
    acc: ValuesView,
    fields: Seq<Seq<char>>,
    properties: Seq<PropertyDefView>,
    k: int,
    at: int,
) -> Result<ValuesView, Fault>
    decreases properties.len() - k,
{
    if k < 0 || k >= properties.len() {
        Ok(acc)
    } else {
        match ascii_property(fields, at, properties[k].data_type) {
            Err(f) => Err(f),
            Ok((p, next)) => ascii_build(
                acc.push((properties[k].name, p)),
                fields,
                properties,
                k + 1,
                next,
            ),
        }
    }
}

/// The values of the record that the line `line` holds for an element with
/// the given properties.
pub open spec fn ascii_element(line: Seq<char>, properties: Seq<PropertyDefView>) -> Result<
    ValuesView,
    Fault,
> {
    match data_fields(line) {
        Err(e) => Err(Fault::Syntax(e)),
        Ok(fields) => ascii_build(Seq::empty(), fields, properties, 0, 0),
    }
}

/// A property that is read from an ascii payload has the shape of its
/// declared type: a scalar of type `int` is never read as a list, nor as a
/// scalar of another type.
pub proof fn lemma_ascii_property_shape(fields: Seq<Seq<char>>, at: int, data_type: PropertyType)
    ensures
        match ascii_property(fields, at, data_type) {
            Ok((p, _)) => p.fits(data_type),
            Err(_) => true,
        },
{
}

/// Counting items up to `count` fails as counting up to any smaller number
/// fails.
pub proof fn lemma_ascii_items_fail(
    fields: Seq<Seq<char>>,
    at: int,
    n: int,
    count: int,
    t: ScalarType,
)
    requires
        0 <= n <= count,
        ascii_items(fields, at, n, t) is Err,
    ensures
        ascii_items(fields, at, count, t) == ascii_items(fields, at, n, t),
    decreases count - n,
{
    if n < count {
        lemma_ascii_items_fail(fields, at, n, count - 1, t);
    }
}

/// Reads `s` as a whole number between `low` and `high`.
fn read_integer(s: &Vec<char>, signed: bool, low: i64, high: i64) -> (r: Option<i64>)
    requires
        low <= 0 <= high,
        signed || low == 0,
        -0x7fff_ffff_ffff_ffff <= low,
    ensures
        r == match integer_of(s@, signed) {
            Some(v) => if low <= v <= high {
                Some(v as i64)
            } else {
                None
            },
            None => None,
        },
{
    let n = s.len();
    let negative = n > 0 && s[0] == '-';
    let start: usize = if n > 0 && (s[0] == '+' || s[0] == '-') {
        1
    } else {
        0
    };
    let end = skip_digits(s, start);
    proof {
        lemma_digit_end(s@, start as int);
        assert(s@.skip(start as int) =~= s@.subrange(start as int, n as int));
    }
    if start == n || end != n || (negative && !signed) {
        return None;
    }
    if negative {
        match read_decimal(s, start, n, (-low) as u64) {
            Some(m) => Some(-(m as i64)),
            None => None,
        }
    } else {
        match read_decimal(s, start, n, high as u64) {
            Some(m) => Some(m as i64),
            None => None,
        }
    }
}

/// The least value of an integer type.
fn low_of(t: ScalarType) -> (r: i64)
    ensures
        r == lowest(t),
{
    match t {
        ScalarType::Char => -0x80,
        ScalarType::Short => -0x8000,
        ScalarType::Int => -0x8000_0000,
        _ => 0,
    }
}

/// The greatest value of an integer type.
fn high_of(t: ScalarType) -> (r: i64)
    ensures
        r == highest(t),
{
    match t {
        ScalarType::Char => 0x7f,
        ScalarType::UChar => 0xff,
        ScalarType::Short => 0x7fff,
        ScalarType::UShort => 0xffff,
        ScalarType::Int => 0x7fff_ffff,
        ScalarType::UInt => 0xffff_ffff,
        _ => 0,
    }
}

/// Reads `field` as a value of type `t`.
fn read_datum(field: &String, t: ScalarType) -> (r: Option<Raw>)
    ensures
        match r {
            Some(raw) => ascii_datum(field@, t) == Some(raw@) && raw@.suits(t),
            None => ascii_datum(field@, t) is None,
        },
{
    match t {
        ScalarType::Float | ScalarType::Double => {
            let s = chars_of(field.as_str());
            assert(s@.subrange(0, s@.len() as int) =~= s@);
            if number(&s, 0, s.len()) {
                Some(Raw::Literal(field.clone()))
            } else {
                None
            }
        },
        _ => {
            let s = chars_of(field.as_str());
            let low = low_of(t);
            match read_integer(&s, low < 0, low, high_of(t)) {
                Some(v) => Some(Raw::Integer(v)),
                None => None,
            }
        },
    }
}

/// Reads `field` as the length of a list.
fn read_length(field: &String) -> (r: Option<usize>)
    ensures
        match r {
            Some(n) => ascii_length(field@) == Some(n as int),
            None => ascii_length(field@) is None,
        },
{
    let s = chars_of(field.as_str());
    let n = s.len();
    let start: usize = if n > 0 && (s[0] == '+' || s[0] == '-') {
        1
    } else {
        0
    };
    let end = skip_digits(&s, start);
    proof {
        lemma_digit_end(s@, start as int);
        assert(s@.skip(start as int) =~= s@.subrange(start as int, n as int));
    }
    if start == n || end != n || s[0] == '-' {
        return None;
    }
    match read_decimal(&s, start, n, usize::MAX as u64) {
        Some(m) => Some(m as usize),
        None => None,
    }
}

/// Reads the `count` items of a list of type `t` that start at field number
/// `at`.
pub fn read_ascii_list(fields: &Vec<String>, at: usize, count: usize, t: ScalarType) -> (r: Result<
    Vec<Raw>,
    Fault,
>)
    requires
        at <= fields@.len(),
    ensures
        match r {
            Ok(raws) => {
                &&& ascii_items(field_views(fields@), at as int, count as int, t) == Ok::<
                    Seq<Datum>,
                    Fault,
                >(data(raws@))
                &&& raws@.len() == count
                &&& at + count <= fields@.len()
                &&& forall|i: int| 0 <= i < raws@.len() ==> (#[trigger] raws@[i])@.suits(t)
            },
            Err(f) => ascii_items(field_views(fields@), at as int, count as int, t) == Err::<
                Seq<Datum>,
                Fault,
            >(f),
        },
{
    let ghost views = field_views(fields@);
    let mut raws: Vec<Raw> = Vec::new();
    let mut i: usize = 0;
    assert(data(raws@) =~= Seq::empty());
    while i < count
        invariant
            i <= count,
            at + i <= fields@.len(),
            views == field_views(fields@),
            raws@.len() == i,
            ascii_items(views, at as int, i as int, t) == Ok::<Seq<Datum>, Fault>(data(raws@)),
            forall|k: int| 0 <= k < raws@.len() ==> (#[trigger] raws@[k])@.suits(t),
        decreases count - i,
    {
        if i >= fields.len() - at {
            proof {
                assert(ascii_items(views, at as int, i + 1, t) == Err::<Seq<Datum>, Fault>(
                    Fault::MissingListItem(i),
                ));
                lemma_ascii_items_fail(views, at as int, i + 1, count as int, t);
            }
            return Err(Fault::MissingListItem(i));
        }
        assert(views[at + i] == fields@[at + i]@);
        match read_datum(&fields[at + i], t) {
            Some(raw) => {
                let ghost before = data(raws@);
                raws.push(raw);
                assert(data(raws@) =~= before.push(raw@));
            },
            None => {
                proof {
                    assert(ascii_items(views, at as int, i + 1, t) == Err::<Seq<Datum>, Fault>(
                        Fault::InvalidValue((at + i) as usize, t),
                    ));
                    lemma_ascii_items_fail(views, at as int, i + 1, count as int, t);
                }
                return Err(Fault::InvalidValue(at + i, t));
            },
        }
        i += 1;
    }
    Ok(raws)
}

/// Reads the value of a property of type `data_type` that starts at field
/// number `at`. Gives the value and the number of the field after it.
pub fn read_ascii_property(fields: &Vec<String>, at: usize, data_type: &PropertyType) -> (r: Result<
    (Property, usize),
    Fault,
>)
    requires
        at <= fields@.len(),
    ensures
        match r {
            Ok((p, next)) => ascii_property(field_views(fields@), at as int, *data_type) == Ok::<
                (PropertyView, int),
                Fault,
            >((p@, next as int)) && next <= fields@.len(),
            Err(f) => ascii_property(field_views(fields@), at as int, *data_type) == Err::<
                (PropertyView, int),
                Fault,
            >(f),
        },
{
    if at >= fields.len() {
        return Err(Fault::MissingField(at));
    }
    assert(field_views(fields@)[at as int] == fields@[at as int]@);
    match data_type {
        PropertyType::Scalar(t) => match read_datum(&fields[at], *t) {
            None => Err(Fault::InvalidValue(at, *t)),
            Some(raw) => Ok((to_property(*t, raw), at + 1)),
        },
        PropertyType::List(_, t) => {
            let count = match read_length(&fields[at]) {
                None => {
                    return Err(Fault::InvalidLength(at));
                },
                Some(n) => n,
            };
            match read_ascii_list(fields, at + 1, count, *t) {
                Err(f) => Err(f),
                Ok(raws) => Ok((to_list(*t, raws), at + 1 + count)),
            }
        },
    }
}

/// Reads the values of one record of `element_def` from the line `line`.
/// The fields of the line are taken from left to right, by the properties in
/// the order of their declaration; fields that are left over are ignored.
pub fn read_ascii_record(line: &str, element_def: &ElementDef) -> (r: Result<Values, Fault>)
    ensures
        match r {
            Ok(v) => ascii_element(line@, element_def@.properties) == Ok::<ValuesView, Fault>(
                values_view(v@),
            ),
            Err(f) => ascii_element(line@, element_def@.properties) == Err::<ValuesView, Fault>(f),
        },
{
    let fields = match data_line(line) {
        Ok(fields) => fields,
        Err(e) => {
            return Err(Fault::Syntax(e));
        },
    };
    let ghost views = field_views(fields@);
    let ghost properties = element_def@.properties;
    let mut record: Values = Vec::new();
    let mut at: usize = 0;
    let mut k: usize = 0;
    assert(values_view(record@) =~= Seq::empty());
    while k < element_def.properties.len()
        invariant
            k <= element_def.properties@.len(),
            at <= fields@.len(),
            views == field_views(fields@),
            properties == element_def@.properties,
            data_fields(line@) == Ok::<Seq<Seq<char>>, SyntaxError>(views),
            ascii_build(values_view(record@), views, properties, k as int, at as int)
                == ascii_build(Seq::empty(), views, properties, 0, 0),
        decreases element_def.properties@.len() - k,
    {
        let def = &element_def.properties[k];
        assert(properties[k as int] == def@);
        match read_ascii_property(&fields, at, &def.data_type) {
            Err(f) => {
                return Err(f);
            },
            Ok((p, next)) => {
                let ghost before = values_view(record@);
                record.push((def.name.clone(), p));
                assert(values_view(record@) =~= before.push((def@.name, p@)));
                at = next;
            },
        }
        k += 1;
    }
    Ok(record)
}

} // verus!
