//! Numbers as they are read from a payload, and the properties that they
//! become under a declared type.

use crate::ply::{
    real32_views, real64_views, Property, PropertyView, Real32, Real32View, Real64, Real64View,
    ScalarType,
};
use vstd::prelude::*;

verus! {

/// A number as a payload gives it, before it takes its declared type.
#[derive(Debug)]
pub enum Raw {
    /// A whole number.
    Integer(i64),
    /// The bit pattern of a floating-point number, from a binary payload.
    Bits(u64),
    /// The decimal literal of a floating-point number, from an ascii payload.
    Literal(String),
}

/// What a `Raw` stands for in contracts.
pub enum Datum {
    Integer(int),
    Bits(u64),
    Literal(Seq<char>),
}

impl View for Raw {
    type V = Datum;

    open spec fn view(&self) -> Datum {
        match self {
            Raw::Integer(v) => Datum::Integer(*v as int),
            Raw::Bits(b) => Datum::Bits(*b),
            Raw::Literal(t) => Datum::Literal(t@),
        }
    }
}

/// The views of a list of numbers.
pub open spec fn data(raws: Seq<Raw>) -> Seq<Datum> {
    raws.map_values(|r: Raw| r@)
}

impl Datum {
    /// The whole number that this is; zero if it is none.
    pub open spec fn integer(self) -> int {
        match self {
            Datum::Integer(v) => v,
            _ => 0,
        }
    }

    /// The single-precision number that this is.
    pub open spec fn real32(self) -> Real32View {
        match self {
            Datum::Literal(t) => Real32View::Literal(t),
            Datum::Bits(b) => Real32View::Bits(b as u32),
            Datum::Integer(_) => Real32View::Bits(0),
        }
    }

    /// The double-precision number that this is.
    pub open spec fn real64(self) -> Real64View {
        match self {
            Datum::Literal(t) => Real64View::Literal(t),
            Datum::Bits(b) => Real64View::Bits(b),
            Datum::Integer(_) => Real64View::Bits(0),
        }
    }

    /// Whether this can be a value of type `t`: a whole number within the
    /// range of an integer type, or a literal or a bit pattern of the width
    /// of a floating-point type.
    pub open spec fn suits(self, t: ScalarType) -> bool {
        match t {
            ScalarType::Float => self is Literal || (self is Bits && self->Bits_0 <= u32::MAX),
            ScalarType::Double => self is Literal || self is Bits,
            _ => self is Integer && lowest(t) <= self->Integer_0 <= highest(t),
        }
    }
}

/// The least value of an integer type.
pub open spec fn lowest(t: ScalarType) -> int {
    match t {
        ScalarType::Char => -0x80,
        ScalarType::Short => -0x8000,
        ScalarType::Int => -0x8000_0000,
        _ => 0,
    }
}

/// The greatest value of an integer type.
pub open spec fn highest(t: ScalarType) -> int {
    match t {
        ScalarType::Char => 0x7f,
        ScalarType::UChar => 0xff,
        ScalarType::Short => 0x7fff,
        ScalarType::UShort => 0xffff,
        ScalarType::Int => 0x7fff_ffff,
        ScalarType::UInt => 0xffff_ffff,
        _ => 0,
    }
}

/// The property that holds the one number `d` as a value of type `t`.
pub open spec fn scalar(t: ScalarType, d: Datum) -> PropertyView {
    match t {
        ScalarType::Char => PropertyView::Char(d.integer() as i8),
        ScalarType::UChar => PropertyView::UChar(d.integer() as u8),
        ScalarType::Short => PropertyView::Short(d.integer() as i16),
        ScalarType::UShort => PropertyView::UShort(d.integer() as u16),
        ScalarType::Int => PropertyView::Int(d.integer() as i32),
        ScalarType::UInt => PropertyView::UInt(d.integer() as u32),
        ScalarType::Float => PropertyView::Float(d.real32()),
        ScalarType::Double => PropertyView::Double(d.real64()),
    }
}

/// The property that holds the numbers `ds` as a list of values of type `t`.
pub open spec fn list(t: ScalarType, ds: Seq<Datum>) -> PropertyView {
    match t {
        ScalarType::Char => PropertyView::ListChar(ds.map_values(|d: Datum| d.integer() as i8)),
        ScalarType::UChar => PropertyView::ListUChar(ds.map_values(|d: Datum| d.integer() as u8)),
        ScalarType::Short => PropertyView::ListShort(ds.map_values(|d: Datum| d.integer() as i16)),
        ScalarType::UShort => PropertyView::ListUShort(ds.map_values(|d: Datum| d.integer() as u16)),
        ScalarType::Int => PropertyView::ListInt(ds.map_values(|d: Datum| d.integer() as i32)),
        ScalarType::UInt => PropertyView::ListUInt(ds.map_values(|d: Datum| d.integer() as u32)),
        ScalarType::Float => PropertyView::ListFloat(ds.map_values(|d: Datum| d.real32())),
        ScalarType::Double => PropertyView::ListDouble(ds.map_values(|d: Datum| d.real64())),
    }
}

/// The single-precision number that `raw` is.
fn to_real32(raw: &Raw) -> (r: Real32)
    ensures
        r@ == raw@.real32(),
{
    match raw {
        Raw::Literal(t) => Real32::Literal(t.clone()),
        Raw::Bits(b) => Real32::Bits(#[verifier::truncate] (*b as u32)),
        Raw::Integer(_) => Real32::Bits(0),
    }
}

/// The double-precision number that `raw` is.
fn to_real64(raw: &Raw) -> (r: Real64)
    ensures
        r@ == raw@.real64(),
{
    match raw {
        Raw::Literal(t) => Real64::Literal(t.clone()),
        Raw::Bits(b) => Real64::Bits(*b),
        Raw::Integer(_) => Real64::Bits(0),
    }
}

/// The whole number that `raw` is.
fn to_integer(raw: &Raw) -> (r: i64)
    ensures
        r == raw@.integer(),
{
    match raw {
        Raw::Integer(v) => *v,
        _ => 0,
    }
}

/// The property that holds `raw` as a value of type `t`.
pub fn to_property(t: ScalarType, raw: Raw) -> (r: Property)
    requires
        raw@.suits(t),
    ensures
        r@ == scalar(t, raw@),
{
    match t {
        ScalarType::Char => Property::Char(to_integer(&raw) as i8),
        ScalarType::UChar => Property::UChar(to_integer(&raw) as u8),
        ScalarType::Short => Property::Short(to_integer(&raw) as i16),
        ScalarType::UShort => Property::UShort(to_integer(&raw) as u16),
        ScalarType::Int => Property::Int(to_integer(&raw) as i32),
        ScalarType::UInt => Property::UInt(to_integer(&raw) as u32),
        ScalarType::Float => Property::Float(to_real32(&raw)),
        ScalarType::Double => Property::Double(to_real64(&raw)),
    }
}

/// The whole numbers of `raws` as values of type `i8`.
fn to_i8_list(raws: &Vec<Raw>) -> (r: Vec<i8>)
    requires
        forall|i: int| 0 <= i < raws@.len() ==> (#[trigger] raws@[i])@.suits(ScalarType::Char),
    ensures
        r@ == data(raws@).map_values(|d: Datum| d.integer() as i8),
{
    let mut r: Vec<i8> = Vec::new();
    let mut i: usize = 0;
    while i < raws.len()
        invariant
            i <= raws@.len(),
            r@.len() == i,
            forall|k: int| 0 <= k < raws@.len() ==> (#[trigger] raws@[k])@.suits(ScalarType::Char),
            forall|k: int| 0 <= k < i ==> r@[k] == raws@[k]@.integer() as i8,
        decreases raws@.len() - i,
    {
        r.push(to_integer(&raws[i]) as i8);
        i += 1;
    }
    assert(r@ =~= data(raws@).map_values(|d: Datum| d.integer() as i8));
    r
}

/// The whole numbers of `raws` as values of type `u8`.
fn to_u8_list(raws: &Vec<Raw>) -> (r: Vec<u8>)
    requires
        forall|i: int| 0 <= i < raws@.len() ==> (#[trigger] raws@[i])@.suits(ScalarType::UChar),
    ensures
        r@ == data(raws@).map_values(|d: Datum| d.integer() as u8),
{
    let mut r: Vec<u8> = Vec::new();
    let mut i: usize = 0;
    while i < raws.len()
        invariant
            i <= raws@.len(),
            r@.len() == i,
            forall|k: int| 0 <= k < raws@.len() ==> (#[trigger] raws@[k])@.suits(ScalarType::UChar),
            forall|k: int| 0 <= k < i ==> r@[k] == raws@[k]@.integer() as u8,
        decreases raws@.len() - i,
    {
        r.push(to_integer(&raws[i]) as u8);
        i += 1;
    }
    assert(r@ =~= data(raws@).map_values(|d: Datum| d.integer() as u8));
    r
}

/// The whole numbers of `raws` as values of type `i16`.
fn to_i16_list(raws: &Vec<Raw>) -> (r: Vec<i16>)
    requires
        forall|i: int| 0 <= i < raws@.len() ==> (#[trigger] raws@[i])@.suits(ScalarType::Short),
    ensures
        r@ == data(raws@).map_values(|d: Datum| d.integer() as i16),
{
    let mut r: Vec<i16> = Vec::new();
    let mut i: usize = 0;
    while i < raws.len()
        invariant
            i <= raws@.len(),
            r@.len() == i,
            forall|k: int| 0 <= k < raws@.len() ==> (#[trigger] raws@[k])@.suits(ScalarType::Short),
            forall|k: int| 0 <= k < i ==> r@[k] == raws@[k]@.integer() as i16,
        decreases raws@.len() - i,
    {
        r.push(to_integer(&raws[i]) as i16);
        i += 1;
    }
    assert(r@ =~= data(raws@).map_values(|d: Datum| d.integer() as i16));
    r
}

/// The whole numbers of `raws` as values of type `u16`.
fn to_u16_list(raws: &Vec<Raw>) -> (r: Vec<u16>)
    requires
        forall|i: int| 0 <= i < raws@.len() ==> (#[trigger] raws@[i])@.suits(ScalarType::UShort),
    ensures
        r@ == data(raws@).map_values(|d: Datum| d.integer() as u16),
{
    let mut r: Vec<u16> = Vec::new();
    let mut i: usize = 0;
    while i < raws.len()
        invariant
            i <= raws@.len(),
            r@.len() == i,
            forall|k: int| 0 <= k < raws@.len() ==> (#[trigger] raws@[k])@.suits(ScalarType::UShort),
            forall|k: int| 0 <= k < i ==> r@[k] == raws@[k]@.integer() as u16,
        decreases raws@.len() - i,
    {
        r.push(to_integer(&raws[i]) as u16);
        i += 1;
    }
    assert(r@ =~= data(raws@).map_values(|d: Datum| d.integer() as u16));
    r
}

/// The whole numbers of `raws` as values of type `i32`.
fn to_i32_list(raws: &Vec<Raw>) -> (r: Vec<i32>)
    requires
        forall|i: int| 0 <= i < raws@.len() ==> (#[trigger] raws@[i])@.suits(ScalarType::Int),
    ensures
        r@ == data(raws@).map_values(|d: Datum| d.integer() as i32),
{
    let mut r: Vec<i32> = Vec::new();
    let mut i: usize = 0;
    while i < raws.len()
        invariant
            i <= raws@.len(),
            r@.len() == i,
            forall|k: int| 0 <= k < raws@.len() ==> (#[trigger] raws@[k])@.suits(ScalarType::Int),
            forall|k: int| 0 <= k < i ==> r@[k] == raws@[k]@.integer() as i32,
        decreases raws@.len() - i,
    {
        r.push(to_integer(&raws[i]) as i32);
        i += 1;
    }
    assert(r@ =~= data(raws@).map_values(|d: Datum| d.integer() as i32));
    r
}

/// The whole numbers of `raws` as values of type `u32`.
fn to_u32_list(raws: &Vec<Raw>) -> (r: Vec<u32>)
    requires
        forall|i: int| 0 <= i < raws@.len() ==> (#[trigger] raws@[i])@.suits(ScalarType::UInt),
    ensures
        r@ == data(raws@).map_values(|d: Datum| d.integer() as u32),
{
    let mut r: Vec<u32> = Vec::new();
    let mut i: usize = 0;
    while i < raws.len()
        invariant
            i <= raws@.len(),
            r@.len() == i,
            forall|k: int| 0 <= k < raws@.len() ==> (#[trigger] raws@[k])@.suits(ScalarType::UInt),
            forall|k: int| 0 <= k < i ==> r@[k] == raws@[k]@.integer() as u32,
        decreases raws@.len() - i,
    {
        r.push(to_integer(&raws[i]) as u32);
        i += 1;
    }
    assert(r@ =~= data(raws@).map_values(|d: Datum| d.integer() as u32));
    r
}

/// The numbers of `raws` as floating-point numbers.
fn to_real32_list(raws: &Vec<Raw>) -> (r: Vec<Real32>)
    ensures
        real32_views(r@) == data(raws@).map_values(|d: Datum| d.real32()),
{
    let mut r: Vec<Real32> = Vec::new();
    let mut i: usize = 0;
    while i < raws.len()
        invariant
            i <= raws@.len(),
            r@.len() == i,
            forall|k: int| 0 <= k < i ==> (#[trigger] r@[k])@ == raws@[k]@.real32(),
        decreases raws@.len() - i,
    {
        r.push(to_real32(&raws[i]));
        i += 1;
    }
    assert(real32_views(r@) =~= data(raws@).map_values(|d: Datum| d.real32()));
    r
}

/// The numbers of `raws` as floating-point numbers.
fn to_real64_list(raws: &Vec<Raw>) -> (r: Vec<Real64>)
    ensures
        real64_views(r@) == data(raws@).map_values(|d: Datum| d.real64()),
{
    let mut r: Vec<Real64> = Vec::new();
    let mut i: usize = 0;
    while i < raws.len()
        invariant
            i <= raws@.len(),
            r@.len() == i,
            forall|k: int| 0 <= k < i ==> (#[trigger] r@[k])@ == raws@[k]@.real64(),
        decreases raws@.len() - i,
    {
        r.push(to_real64(&raws[i]));
        i += 1;
    }
    assert(real64_views(r@) =~= data(raws@).map_values(|d: Datum| d.real64()));
    r
}

/// The property that holds `raws` as a list of values of type `t`.
pub fn to_list(t: ScalarType, raws: Vec<Raw>) -> (r: Property)
    requires
        forall|i: int| 0 <= i < raws@.len() ==> (#[trigger] raws@[i])@.suits(t),
    ensures
        r@ == list(t, data(raws@)),
{
    match t {
        ScalarType::Char => Property::ListChar(to_i8_list(&raws)),
        ScalarType::UChar => Property::ListUChar(to_u8_list(&raws)),
        ScalarType::Short => Property::ListShort(to_i16_list(&raws)),
        ScalarType::UShort => Property::ListUShort(to_u16_list(&raws)),
        ScalarType::Int => Property::ListInt(to_i32_list(&raws)),
        ScalarType::UInt => Property::ListUInt(to_u32_list(&raws)),
        ScalarType::Float => Property::ListFloat(to_real32_list(&raws)),
        ScalarType::Double => Property::ListDouble(to_real64_list(&raws)),
    }
}

} // verus!
