//! Reads the records of a binary payload: the values of the properties one
//! after another, each in the fixed width of its type, in one byte order for
//! the whole file.

use super::error::Fault;
use super::source::Source;
use super::value::{data, list, scalar, to_list, to_property, Datum, Raw};
use crate::ply::{
    values_view, ElementDef, Property, PropertyDefView, PropertyType, PropertyView, ScalarType,
    Values, ValuesView,
};
use byteorder::{BigEndian, ByteOrder, LittleEndian};
use vstd::prelude::*;

verus! {

/// The order of the bytes of a number.
#[derive(Clone, Copy, Debug, PartialEq, Eq, Structural)]
pub enum Endian {
    /// The most significant byte comes first.
    Big,
    /// The least significant byte comes first.
    Little,
}

/// The number that `bytes` spell in base 256, the most significant byte
/// first.
pub open spec fn be_value(bytes: Seq<u8>) -> nat
    decreases bytes.len(),
{
    if bytes.len() == 0 {
        0
    } else {
        be_value(bytes.drop_last()) * 256 + bytes.last() as nat
    }
}

/// The number that `bytes` spell in base 256, the least significant byte
/// first.
pub open spec fn le_value(bytes: Seq<u8>) -> nat
    decreases bytes.len(),
{
    if bytes.len() == 0 {
        0
    } else {
        bytes[0] as nat + 256 * le_value(bytes.drop_first())
    }
}

/// 256 to the power of `n`: the number of values that `n` bytes can spell.
pub open spec fn radix(n: nat) -> nat
    decreases n,
{
    if n == 0 {
        1
    } else {
        256 * radix((n - 1) as nat)
    }
}

/// The number that `bytes` spell in the given byte order, read as not
/// negative.
pub open spec fn unsigned(bytes: Seq<u8>, order: Endian) -> nat {
    match order {
        Endian::Big => be_value(bytes),
        Endian::Little => le_value(bytes),
    }
}

/// The number that `bytes` spell in the given byte order, read in two's
/// complement.
pub open spec fn signed(bytes: Seq<u8>, order: Endian) -> int {
    let n = unsigned(bytes, order);
    if 2 * n >= radix(bytes.len()) {
        n - radix(bytes.len())
    } else {
        n as int
    }
}

/// The number that the bytes of one value of type `t` spell: a whole number
/// for an integer type, the bit pattern for a floating-point type.
pub open spec fn binary_datum(t: ScalarType, bytes: Seq<u8>, order: Endian) -> Datum {
    match t {
        ScalarType::Char | ScalarType::Short | ScalarType::Int => Datum::Integer(
            signed(bytes, order),
        ),
        ScalarType::UChar | ScalarType::UShort | ScalarType::UInt => Datum::Integer(
            unsigned(bytes, order) as int,
        ),
        ScalarType::Float | ScalarType::Double => Datum::Bits(unsigned(bytes, order) as u64),
    }
}

/// The `count` numbers of type `t` that `bytes` hold one after another.
pub open spec fn binary_items(bytes: Seq<u8>, count: int, t: ScalarType, order: Endian) -> Seq<
    Datum,
> {
    Seq::new(
        count as nat,
        |i: int| binary_datum(t, bytes.subrange(i * t.width(), i * t.width() + t.width()), order),
    )
}

/// How many bytes are missing, as far as the machine can count.
pub open spec fn shortfall(missing: int) -> usize {
    if missing > usize::MAX {
        usize::MAX
    } else {
        missing as usize
    }
}

/// The value of a property of type `data_type` at the start of `bytes`, and
/// the bytes after it. A scalar takes the width of its type. A list takes
/// the width of the type of its length, which must be an integer type, and
/// then the width of its item type for every item. Where it fails, the bytes
/// that were read before the failure are gone; a list whose length has no
/// integer type fails before any byte is read.
pub open spec fn binary_property(bytes: Seq<u8>, data_type: PropertyType, order: Endian) -> (
    Result<PropertyView, Fault>,
    Seq<u8>,
) {
    match data_type {
        PropertyType::Scalar(t) => if bytes.len() < t.width() {
            (Err(Fault::UnexpectedEof(shortfall(t.width() - bytes.len()))), bytes)
        } else {
            (
                Ok(scalar(t, binary_datum(t, bytes.take(t.width() as int), order))),
                bytes.skip(t.width() as int),
            )
        },
        PropertyType::List(index, t) => if !index.is_integer() {
            (Err(Fault::ListIndexType(index)), bytes)
        } else if bytes.len() < index.width() {
            (Err(Fault::UnexpectedEof(shortfall(index.width() - bytes.len()))), bytes)
        } else {
            let n = binary_datum(index, bytes.take(index.width() as int), order).integer();
            let body = bytes.skip(index.width() as int);
            if n < 0 {
                (Err(Fault::NegativeLength), body)
            } else if body.len() < n * t.width() {
                (Err(Fault::UnexpectedEof(shortfall(n * t.width() - body.len()))), body)
            } else {
                (
                    Ok(list(t, binary_items(body.take(n * t.width()), n, t, order))),
                    body.skip(n * t.width()),
                )
            }
        },
    }
}

/// The values of a record: those in `acc`, and after them the values of the
/// properties from number `k` on, read from the start of `bytes`; and the
/// bytes that are left.
pub open spec fn binary_build(
    acc: ValuesView,
    bytes: Seq<u8>,
    properties: Seq<PropertyDefView>,
    k: int,
    order: Endian,
) -> (Result<ValuesView, Fault>, Seq<u8>)
    decreases properties.len() - k,
{
    if k < 0 || k >= properties.len() {
        (Ok(acc), bytes)
    } else {
        match binary_property(bytes, properties[k].data_type, order) {
            (Err(f), rest) => (Err(f), rest),
            (Ok(p), rest) => binary_build(
                acc.push((properties[k].name, p)),
                rest,
                properties,
                k + 1,
                order,
            ),
        }
    }
}

/// The values of the record at the start of `bytes` for an element with the
/// given properties, and the bytes that are left.
pub open spec fn binary_element(bytes: Seq<u8>, properties: Seq<PropertyDefView>, order: Endian)
    -> (Result<ValuesView, Fault>, Seq<u8>) {
    binary_build(Seq::empty(), bytes, properties, 0, order)
}

/// A property that is read from a binary payload has the shape of its
/// declared type: a scalar of type `int` is never read as a list, nor as a
/// scalar of another type.
pub proof fn lemma_binary_property_shape(bytes: Seq<u8>, data_type: PropertyType, order: Endian)
    ensures
        match binary_property(bytes, data_type, order).0 {
            Ok(p) => p.fits(data_type),
            Err(_) => true,
        },
{
}

/// A list whose length is declared with a floating-point type is refused
/// before a byte of the payload is read.
pub proof fn lemma_list_length_must_be_integer(
    bytes: Seq<u8>,
    index: ScalarType,
    t: ScalarType,
    order: Endian,
)
    requires
        index is Float || index is Double,
    ensures
        binary_property(bytes, PropertyType::List(index, t), order) == (
            Err::<PropertyView, Fault>(Fault::ListIndexType(index)),
            bytes,
        ),
{
}

/// `byteorder::BigEndian::read_u16`: the first two bytes of `buf` as a number,
/// the most significant byte first.
#[verifier::external_body]
fn be_u16(buf: &[u8]) -> (r: u16)
    requires
        buf@.len() >= 2,
    ensures
        r == be_value(buf@.take(2)),
{
    BigEndian::read_u16(buf)
}

/// `byteorder::BigEndian::read_i16`: the first two bytes of `buf` as a number
/// in two's complement, the most significant byte first.
#[verifier::external_body]
fn be_i16(buf: &[u8]) -> (r: i16)
    requires
        buf@.len() >= 2,
    ensures
        r == signed(buf@.take(2), Endian::Big),
{
    BigEndian::read_i16(buf)
}

/// `byteorder::BigEndian::read_u32`: the first four bytes of `buf` as a
/// number, the most significant byte first.
#[verifier::external_body]
fn be_u32(buf: &[u8]) -> (r: u32)
    requires
        buf@.len() >= 4,
    ensures
        r == be_value(buf@.take(4)),
{
    BigEndian::read_u32(buf)
}

/// `byteorder::BigEndian::read_i32`: the first four bytes of `buf` as a
/// number in two's complement, the most significant byte first.
#[verifier::external_body]
fn be_i32(buf: &[u8]) -> (r: i32)
    requires
        buf@.len() >= 4,
    ensures
        r == signed(buf@.take(4), Endian::Big),
{
    BigEndian::read_i32(buf)
}

/// `byteorder::BigEndian::read_u64`: the first eight bytes of `buf` as a
/// number, the most significant byte first.
#[verifier::external_body]
fn be_u64(buf: &[u8]) -> (r: u64)
    requires
        buf@.len() >= 8,
    ensures
        r == be_value(buf@.take(8)),
{
    BigEndian::read_u64(buf)
}

/// `byteorder::LittleEndian::read_u16`: the first two bytes of `buf` as a
/// number, the least significant byte first.
#[verifier::external_body]
fn le_u16(buf: &[u8]) -> (r: u16)
    requires
        buf@.len() >= 2,
    ensures
        r == le_value(buf@.take(2)),
{
    LittleEndian::read_u16(buf)
}

/// `byteorder::LittleEndian::read_i16`: the first two bytes of `buf` as a
/// number in two's complement, the least significant byte first.
#[verifier::external_body]
fn le_i16(buf: &[u8]) -> (r: i16)
    requires
        buf@.len() >= 2,
    ensures
        r == signed(buf@.take(2), Endian::Little),
{
    LittleEndian::read_i16(buf)
}

/// `byteorder::LittleEndian::read_u32`: the first four bytes of `buf` as a
/// number, the least significant byte first.
#[verifier::external_body]
fn le_u32(buf: &[u8]) -> (r: u32)
    requires
        buf@.len() >= 4,
    ensures
        r == le_value(buf@.take(4)),
{
    LittleEndian::read_u32(buf)
}

/// `byteorder::LittleEndian::read_i32`: the first four bytes of `buf` as a
/// number in two's complement, the least significant byte first.
#[verifier::external_body]
fn le_i32(buf: &[u8]) -> (r: i32)
    requires
        buf@.len() >= 4,
    ensures
        r == signed(buf@.take(4), Endian::Little),
{
    LittleEndian::read_i32(buf)
}

/// `byteorder::LittleEndian::read_u64`: the first eight bytes of `buf` as a
/// number, the least significant byte first.
#[verifier::external_body]
fn le_u64(buf: &[u8]) -> (r: u64)
    requires
        buf@.len() >= 8,
    ensures
        r == le_value(buf@.take(8)),
{
    LittleEndian::read_u64(buf)
}

/// One byte spells its own value, in either order.
pub proof fn lemma_one_byte(bytes: Seq<u8>, order: Endian)
    requires
        bytes.len() == 1,
    ensures
        unsigned(bytes, order) == bytes[0],
        radix(1) == 256,
{
    assert(bytes.drop_last().len() == 0);
    assert(bytes.drop_first().len() == 0);
    assert(be_value(bytes.drop_last()) == 0);
    assert(le_value(bytes.drop_first()) == 0);
    assert(radix(0) == 1);
    assert(radix(1) == 256 * radix(0));
}

/// Reads the bytes of one value of type `t`.
pub fn read_binary_datum(bytes: &[u8], t: ScalarType, order: Endian) -> (r: Raw)
    requires
        bytes@.len() == t.width(),
    ensures
        r@ == binary_datum(t, bytes@, order),
        r@.suits(t),
{
    assert(bytes@.take(bytes@.len() as int) =~= bytes@);
    match t {
        ScalarType::Char => {
            proof {
                lemma_one_byte(bytes@, order);
            }
            let b = bytes[0];
            if b >= 128 {
                Raw::Integer(b as i64 - 256)
            } else {
                Raw::Integer(b as i64)
            }
        },
        ScalarType::UChar => {
            proof {
                lemma_one_byte(bytes@, order);
            }
            Raw::Integer(bytes[0] as i64)
        },
        ScalarType::Short => match order {
            Endian::Big => Raw::Integer(be_i16(bytes) as i64),
            Endian::Little => Raw::Integer(le_i16(bytes) as i64),
        },
        ScalarType::UShort => match order {
            Endian::Big => Raw::Integer(be_u16(bytes) as i64),
            Endian::Little => Raw::Integer(le_u16(bytes) as i64),
        },
        ScalarType::Int => match order {
            Endian::Big => Raw::Integer(be_i32(bytes) as i64),
            Endian::Little => Raw::Integer(le_i32(bytes) as i64),
        },
        ScalarType::UInt => match order {
            Endian::Big => Raw::Integer(be_u32(bytes) as i64),
            Endian::Little => Raw::Integer(le_u32(bytes) as i64),
        },
        ScalarType::Float => match order {
            Endian::Big => Raw::Bits(be_u32(bytes) as u64),
            Endian::Little => Raw::Bits(le_u32(bytes) as u64),
        },
        ScalarType::Double => match order {
            Endian::Big => Raw::Bits(be_u64(bytes)),
            Endian::Little => Raw::Bits(le_u64(bytes)),
        },
    }
}

/// Reads `count` values of type `t` from `bytes`, which hold them one after
/// another and nothing else.
pub fn read_binary_list(bytes: &[u8], count: usize, t: ScalarType, order: Endian) -> (r: Vec<Raw>)
    requires
        bytes@.len() == count * t.width(),
    ensures
        data(r@) == binary_items(bytes@, count as int, t, order),
        forall|i: int| 0 <= i < r@.len() ==> (#[trigger] r@[i])@.suits(t),
{
    let w = t.byte_width();
    let total = bytes.len();
    let mut raws: Vec<Raw> = Vec::new();
    let mut i: usize = 0;
    let mut offset: usize = 0;
    while i < count
        invariant
            i <= count,
            total == bytes@.len(),
            w == t.width(),
            1 <= w <= 8,
            offset == i * w,
            bytes@.len() == count * w,
            raws@.len() == i,
            forall|k: int|
                0 <= k < i ==> (#[trigger] raws@[k])@ == binary_datum(
                    t,
                    bytes@.subrange(k * w, k * w + w),
                    order,
                ),
            forall|k: int| 0 <= k < raws@.len() ==> (#[trigger] raws@[k])@.suits(t),
        decreases count - i,
    {
        assert(offset + w <= bytes@.len()) by (nonlinear_arith)
            requires
                offset == i * w,
                i < count,
                bytes@.len() == count * w,
                w >= 1,
        ;
        assert((i + 1) * w == i * w + w) by (nonlinear_arith);
        let item = vstd::slice::slice_subrange(bytes, offset, offset + w);
        raws.push(read_binary_datum(item, t, order));
        offset = offset + w;
        i += 1;
    }
    assert(data(raws@) =~= binary_items(bytes@, count as int, t, order));
    raws
}

/// What the outcome of reading a property stands for in contracts.
pub open spec fn property_view(r: Result<Property, Fault>) -> Result<PropertyView, Fault> {
    match r {
        Ok(p) => Ok(p@),
        Err(f) => Err(f),
    }
}

/// Reads the value of one property of type `data_type` from `source`.
pub fn read_binary_property(source: &mut Source, data_type: PropertyType, order: Endian) -> (r:
    Result<Property, Fault>)
    ensures
        (property_view(r), final(source).rest()) == binary_property(
            old(source).rest(),
            data_type,
            order,
        ),
{
    match data_type {
        PropertyType::Scalar(t) => {
            let w = t.byte_width();
            let raw = match source.peek(w) {
                Err(f) => {
                    return Err(f);
                },
                Ok(bytes) => read_binary_datum(bytes, t, order),
            };
            source.advance(w);
            Ok(to_property(t, raw))
        },
        PropertyType::List(index, t) => {
            match index {
                ScalarType::Float | ScalarType::Double => {
                    return Err(Fault::ListIndexType(index));
                },
                _ => {},
            }
            let wi = index.byte_width();
            let n: i64 = match source.peek(wi) {
                Err(f) => {
                    return Err(f);
                },
                Ok(bytes) => match read_binary_datum(bytes, index, order) {
                    Raw::Integer(v) => v,
                    _ => 0,
                },
            };
            source.advance(wi);
            if n < 0 {
                return Err(Fault::NegativeLength);
            }
            let w = t.byte_width();
            assert(0 <= n * w <= 0x7_ffff_fff8) by (nonlinear_arith)
                requires
                    0 <= n <= 0xffff_ffff,
                    1 <= w <= 8,
            ;
            let need: u64 = (n as u64) * (w as u64);
            let left = source.remaining();
            if need > left as u64 {
                let missing = need - left as u64;
                if missing > usize::MAX as u64 {
                    return Err(Fault::UnexpectedEof(usize::MAX));
                } else {
                    return Err(Fault::UnexpectedEof(missing as usize));
                }
            }
            let raws = match source.peek(need as usize) {
                Err(f) => {
                    return Err(f);
                },
                Ok(bytes) => read_binary_list(bytes, n as usize, t, order),
            };
            source.advance(need as usize);
            Ok(to_list(t, raws))
        },
    }
}

/// What the outcome of reading the values of a record stands for in
/// contracts.
pub open spec fn values_result_view(r: Result<Values, Fault>) -> Result<ValuesView, Fault> {
    match r {
        Ok(v) => Ok(values_view(v@)),
        Err(f) => Err(f),
    }
}

/// Reads the values of one record of `element_def` from `source`: the values
/// of its properties, in the order of their declaration.
pub fn read_binary_record(source: &mut Source, element_def: &ElementDef, order: Endian) -> (r:
    Result<Values, Fault>)
    ensures
        (values_result_view(r), final(source).rest()) == binary_element(
            old(source).rest(),
            element_def@.properties,
            order,
        ),
{
    let ghost properties = element_def@.properties;
    let mut record: Values = Vec::new();
    let mut k: usize = 0;
    assert(values_view(record@) =~= Seq::empty());
    while k < element_def.properties.len()
        invariant
            k <= element_def.properties@.len(),
            properties == element_def@.properties,
            binary_build(values_view(record@), source.rest(), properties, k as int, order)
                == binary_element(old(source).rest(), properties, order),
        decreases element_def.properties@.len() - k,
    {
        let def = &element_def.properties[k];
        assert(properties[k as int] == def@);
        match read_binary_property(source, def.data_type, order) {
            Err(f) => {
                return Err(f);
            },
            Ok(p) => {
                let ghost before = values_view(record@);
                record.push((def.name.clone(), p));
                assert(values_view(record@) =~= before.push((def@.name, p@)));
            },
        }
        k += 1;
    }
    Ok(record)
}

} // verus!
