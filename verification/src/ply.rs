//! The data model: what a header declares and what a payload holds.

pub mod consistency;
pub mod key_map;

pub use key_map::KeyMap;

use vstd::prelude::*;

verus! {

/// The version that a `format` line names.
#[derive(Clone, Copy, Debug, PartialEq, Eq, Structural)]
pub struct Version {
    pub major: u16,
    pub minor: u8,
}

/// How the payload is written.
#[derive(Clone, Copy, Debug, PartialEq, Eq, Structural)]
pub enum Encoding {
    /// One record per line, as decimal numbers separated by blanks.
    Ascii,
    /// Fixed-width values, most significant byte first.
    BinaryBigEndian,
    /// Fixed-width values, least significant byte first.
    BinaryLittleEndian,
}

/// The type of a single number.
#[derive(Clone, Copy, Debug, PartialEq, Eq, Structural)]
pub enum ScalarType {
    /// Signed, 8 bits.
    Char,
    /// Unsigned, 8 bits.
    UChar,
    /// Signed, 16 bits.
    Short,
    /// Unsigned, 16 bits.
    UShort,
    /// Signed, 32 bits.
    Int,
    /// Unsigned, 32 bits.
    UInt,
    /// IEEE 754 single precision.
    Float,
    /// IEEE 754 double precision.
    Double,
}

impl ScalarType {
    /// Whether values of this type are whole numbers.
    pub open spec fn is_integer(self) -> bool {
        !(self is Float) && !(self is Double)
    }

    /// The number of bytes that a value of this type takes in a binary payload.
    pub open spec fn width(self) -> nat {
        match self {
            ScalarType::Char | ScalarType::UChar => 1,
            ScalarType::Short | ScalarType::UShort => 2,
            ScalarType::Int | ScalarType::UInt | ScalarType::Float => 4,
            ScalarType::Double => 8,
        }
    }

    /// The number of bytes that a value of this type takes in a binary payload.
    pub fn byte_width(self) -> (r: usize)
        ensures
            r == self.width(),
    {
        match self {
            ScalarType::Char | ScalarType::UChar => 1,
            ScalarType::Short | ScalarType::UShort => 2,
            ScalarType::Int | ScalarType::UInt | ScalarType::Float => 4,
            ScalarType::Double => 8,
        }
    }
}

/// The type of a property: one number, or a list of numbers that its length
/// precedes.
#[derive(Clone, Copy, Debug, PartialEq, Eq, Structural)]
pub enum PropertyType {
    /// A single number of the given type.
    Scalar(ScalarType),
    /// A list: the type of its length, then the type of its items.
    List(ScalarType, ScalarType),
}

/// The declaration of one property of an element.
#[derive(Debug, PartialEq, Eq)]
pub struct PropertyDef {
    pub name: String,
    pub data_type: PropertyType,
}

/// What a `PropertyDef` stands for in contracts.
pub struct PropertyDefView {
    pub name: Seq<char>,
    pub data_type: PropertyType,
}

impl View for PropertyDef {
    type V = PropertyDefView;

    open spec fn view(&self) -> PropertyDefView {
        PropertyDefView { name: self.name@, data_type: self.data_type }
    }
}

impl Clone for PropertyDef {
    /// A declaration with the same name and type.
    fn clone(&self) -> (r: Self)
        ensures
            r@ == self@,
    {
        PropertyDef { name: self.name.clone(), data_type: self.data_type }
    }
}

impl PropertyDef {
    /// A property called `name` of type `data_type`.
    pub fn new(name: &str, data_type: PropertyType) -> (r: Self)
        ensures
            r@ == (PropertyDefView { name: name@, data_type }),
    {
        PropertyDef { name: name.to_owned(), data_type }
    }
}

/// The declaration of one element: its name, how many records of it the
/// payload holds, and its properties in the order of their declaration.
#[derive(Debug, PartialEq, Eq)]
pub struct ElementDef {
    pub name: String,
    pub count: usize,
    pub properties: Vec<PropertyDef>,
}

/// What an `ElementDef` stands for in contracts.
pub struct ElementDefView {
    pub name: Seq<char>,
    pub count: usize,
    pub properties: Seq<PropertyDefView>,
}

/// The views of a list of property declarations.
pub open spec fn property_views(properties: Seq<PropertyDef>) -> Seq<PropertyDefView> {
    properties.map_values(|p: PropertyDef| p@)
}

impl View for ElementDef {
    type V = ElementDefView;

    open spec fn view(&self) -> ElementDefView {
        ElementDefView {
            name: self.name@,
            count: self.count,
            properties: property_views(self.properties@),
        }
    }
}

impl Clone for ElementDef {
    /// A declaration with the same name, count and properties.
    fn clone(&self) -> (r: Self)
        ensures
            r@ == self@,
    {
        let mut properties: Vec<PropertyDef> = Vec::new();
        let mut i: usize = 0;
        while i < self.properties.len()
            invariant
                i <= self.properties@.len(),
                properties@.len() == i,
                forall|j: int| 0 <= j < i ==> (#[trigger] properties@[j])@ == self.properties@[j]@,
            decreases self.properties@.len() - i,
        {
            properties.push(self.properties[i].clone());
            i += 1;
        }
        assert(property_views(properties@) =~= property_views(self.properties@));
        ElementDef { name: self.name.clone(), count: self.count, properties }
    }
}

impl ElementDef {
    /// An element called `name` with no record and no property.
    pub fn new(name: &str) -> (r: Self)
        ensures
            r@ == (ElementDefView { name: name@, count: 0, properties: Seq::empty() }),
    {
        let r = ElementDef { name: name.to_owned(), count: 0, properties: Vec::new() };
        assert(r@.properties =~= Seq::empty());
        r
    }
}

/// The views of a list of strings.
pub open spec fn text_views(texts: Seq<String>) -> Seq<Seq<char>> {
    texts.map_values(|t: String| t@)
}

/// The views of a list of element declarations.
pub open spec fn element_views(elements: Seq<ElementDef>) -> Seq<ElementDefView> {
    elements.map_values(|e: ElementDef| e@)
}

/// Everything that the header of a file declares.
#[derive(Clone, Debug, PartialEq, Eq)]
pub struct Header {
    pub encoding: Encoding,
    pub version: Version,
    pub obj_infos: Vec<String>,
    pub comments: Vec<String>,
    pub elements: Vec<ElementDef>,
}

/// What a `Header` stands for in contracts.
pub struct HeaderView {
    pub encoding: Encoding,
    pub version: Version,
    pub obj_infos: Seq<Seq<char>>,
    pub comments: Seq<Seq<char>>,
    pub elements: Seq<ElementDefView>,
}

impl View for Header {
    type V = HeaderView;

    open spec fn view(&self) -> HeaderView {
        HeaderView {
            encoding: self.encoding,
            version: self.version,
            obj_infos: text_views(self.obj_infos@),
            comments: text_views(self.comments@),
            elements: element_views(self.elements@),
        }
    }
}

impl HeaderView {
    /// The header that declares nothing, for an ascii file of version 1.0.
    pub open spec fn empty() -> HeaderView {
        HeaderView {
            encoding: Encoding::Ascii,
            version: Version { major: 1, minor: 0 },
            obj_infos: Seq::empty(),
            comments: Seq::empty(),
            elements: Seq::empty(),
        }
    }
}

impl Header {
    /// A header that declares nothing, for an ascii file of version 1.0.
    pub fn new() -> (r: Self)
        ensures
            r@ == HeaderView::empty(),
    {
        let r = Header {
            encoding: Encoding::Ascii,
            version: Version { major: 1, minor: 0 },
            obj_infos: Vec::new(),
            comments: Vec::new(),
            elements: Vec::new(),
        };
        assert(r@.obj_infos =~= Seq::empty());
        assert(r@.comments =~= Seq::empty());
        assert(r@.elements =~= Seq::empty());
        r
    }
}

/// A single-precision number as the file gives it: its IEEE 754 bit pattern
/// where the payload is binary, its decimal literal where the payload is text.
#[derive(Clone, Debug, PartialEq, Eq)]
pub enum Real32 {
    /// The 32 bits of the number.
    Bits(u32),
    /// The number in decimal digits, as the grammar of an ascii payload
    /// allows them.
    Literal(String),
}

/// A double-precision number as the file gives it: its IEEE 754 bit pattern
/// where the payload is binary, its decimal literal where the payload is text.
#[derive(Clone, Debug, PartialEq, Eq)]
pub enum Real64 {
    /// The 64 bits of the number.
    Bits(u64),
    /// The number in decimal digits, as the grammar of an ascii payload
    /// allows them.
    Literal(String),
}

/// What a `Real32` stands for in contracts.
pub enum Real32View {
    Bits(u32),
    Literal(Seq<char>),
}

/// What a `Real64` stands for in contracts.
pub enum Real64View {
    Bits(u64),
    Literal(Seq<char>),
}

impl View for Real32 {
    type V = Real32View;

    open spec fn view(&self) -> Real32View {
        match self {
            Real32::Bits(b) => Real32View::Bits(*b),
            Real32::Literal(t) => Real32View::Literal(t@),
        }
    }
}

impl View for Real64 {
    type V = Real64View;

    open spec fn view(&self) -> Real64View {
        match self {
            Real64::Bits(b) => Real64View::Bits(*b),
            Real64::Literal(t) => Real64View::Literal(t@),
        }
    }
}

/// The views of a list of single-precision numbers.
pub open spec fn real32_views(items: Seq<Real32>) -> Seq<Real32View> {
    items.map_values(|r: Real32| r@)
}

/// The views of a list of double-precision numbers.
pub open spec fn real64_views(items: Seq<Real64>) -> Seq<Real64View> {
    items.map_values(|r: Real64| r@)
}

/// The value of one property of one record: a number of one of the eight
/// scalar types, or a list of numbers of one of them.
#[derive(Clone, Debug, PartialEq, Eq)]
pub enum Property {
    Char(i8),
    UChar(u8),
    Short(i16),
    UShort(u16),
    Int(i32),
    UInt(u32),
    Float(Real32),
    Double(Real64),
    ListChar(Vec<i8>),
    ListUChar(Vec<u8>),
    ListShort(Vec<i16>),
    ListUShort(Vec<u16>),
    ListInt(Vec<i32>),
    ListUInt(Vec<u32>),
    ListFloat(Vec<Real32>),
    ListDouble(Vec<Real64>),
}

/// What a `Property` stands for in contracts.
pub enum PropertyView {
    Char(i8),
    UChar(u8),
    Short(i16),
    UShort(u16),
    Int(i32),
    UInt(u32),
    Float(Real32View),
    Double(Real64View),
    ListChar(Seq<i8>),
    ListUChar(Seq<u8>),
    ListShort(Seq<i16>),
    ListUShort(Seq<u16>),
    ListInt(Seq<i32>),
    ListUInt(Seq<u32>),
    ListFloat(Seq<Real32View>),
    ListDouble(Seq<Real64View>),
}

impl View for Property {
    type V = PropertyView;

    open spec fn view(&self) -> PropertyView {
        match self {
            Property::Char(v) => PropertyView::Char(*v),
            Property::UChar(v) => PropertyView::UChar(*v),
            Property::Short(v) => PropertyView::Short(*v),
            Property::UShort(v) => PropertyView::UShort(*v),
            Property::Int(v) => PropertyView::Int(*v),
            Property::UInt(v) => PropertyView::UInt(*v),
            Property::Float(v) => PropertyView::Float(v@),
            Property::Double(v) => PropertyView::Double(v@),
            Property::ListChar(v) => PropertyView::ListChar(v@),
            Property::ListUChar(v) => PropertyView::ListUChar(v@),
            Property::ListShort(v) => PropertyView::ListShort(v@),
            Property::ListUShort(v) => PropertyView::ListUShort(v@),
            Property::ListInt(v) => PropertyView::ListInt(v@),
            Property::ListUInt(v) => PropertyView::ListUInt(v@),
            Property::ListFloat(v) => PropertyView::ListFloat(real32_views(v@)),
            Property::ListDouble(v) => PropertyView::ListDouble(real64_views(v@)),
        }
    }
}

impl PropertyView {
    /// Whether a value of this shape is a value of type `data_type`: a scalar
    /// of the same scalar type, or a list of the same item type, whatever the
    /// type of the list's length.
    pub open spec fn fits(self, data_type: PropertyType) -> bool {
        match data_type {
            PropertyType::Scalar(t) => match t {
                ScalarType::Char => self is Char,
                ScalarType::UChar => self is UChar,
                ScalarType::Short => self is Short,
                ScalarType::UShort => self is UShort,
                ScalarType::Int => self is Int,
                ScalarType::UInt => self is UInt,
                ScalarType::Float => self is Float,
                ScalarType::Double => self is Double,
            },
            PropertyType::List(_, t) => match t {
                ScalarType::Char => self is ListChar,
                ScalarType::UChar => self is ListUChar,
                ScalarType::Short => self is ListShort,
                ScalarType::UShort => self is ListUShort,
                ScalarType::Int => self is ListInt,
                ScalarType::UInt => self is ListUInt,
                ScalarType::Float => self is ListFloat,
                ScalarType::Double => self is ListDouble,
            },
        }
    }
}

/// What the decoder builds one record in. The decoder makes a fresh value
/// and hands it every property of the record, in the order of declaration;
/// it never reads the value back. What the value does with a property is
/// its own affair: it may keep it, convert it, or pass over a name that it
/// does not know.
pub trait PropertyAccess: Sized {
    /// A fresh value, with no property yet.
    fn new() -> Self;

    /// Takes the value of the property called `key`.
    fn set_property(&mut self, key: &str, property: Property);
}

/// The properties of one record as they are read: the name and the value of
/// each, in the order of declaration.
pub type Values = Vec<(String, Property)>;

/// What the properties of a record stand for in contracts: the name and the
/// value of each, in the order of declaration.
pub type ValuesView = Seq<(Seq<char>, PropertyView)>;

/// What the properties of a record stand for in contracts.
pub open spec fn values_view(values: Seq<(String, Property)>) -> ValuesView {
    values.map_values(|v: (String, Property)| (v.0@, v.1@))
}

/// What a list of records stands for in contracts.
pub open spec fn records_view(records: Seq<Values>) -> Seq<ValuesView> {
    records.map_values(|r: Values| values_view(r@))
}

/// `entries` with `value` under `key`: in the place of the first pair that
/// has this key, or at the end if none has it.
pub open spec fn put<T>(entries: Seq<(Seq<char>, T)>, key: Seq<char>, value: T) -> Seq<
    (Seq<char>, T),
> {
    match key_map::index_of(entries.map_values(|e: (Seq<char>, T)| e.0), key) {
        Some(i) => entries.update(i, (key, value)),
        None => entries.push((key, value)),
    }
}

/// What a record holds once it has been given the first `n` of `values` in
/// order: each value under its name, a later value in the place of an
/// earlier one of the same name.
pub open spec fn gathered(values: Seq<(Seq<char>, PropertyView)>, n: int) -> Seq<
    (Seq<char>, PropertyView),
>
    decreases n,
{
    if n <= 0 {
        Seq::empty()
    } else {
        put(gathered(values, n - 1), values[n - 1].0, values[n - 1].1)
    }
}

/// A record that keeps every property it is given, under its name.
pub type DefaultElement = KeyMap<Property>;

impl PropertyAccess for KeyMap<Property> {
    /// A record without properties.
    fn new() -> (r: Self)
        ensures
            r@ == Seq::<(Seq<char>, PropertyView)>::empty(),
    {
        let r = KeyMap::new();
        assert(r@ =~= Seq::empty());
        r
    }

    /// Keeps `property` under `key`: in the place of an earlier property of
    /// that name, or behind all the others.
    fn set_property(&mut self, key: &str, property: Property)
        ensures
            final(self)@ == put(old(self)@, key@, property@),
    {
        let ghost before = *self;
        self.insert(key.to_owned(), property);
        proof {
            before.lemma_view_keys();
            self.lemma_view_keys();
            before.lemma_wf();
            self.lemma_wf();
            key_map::lemma_index_of(before.keys(), key@);
            let after = put(before@, key@, property@);
            assert(self@.len() == after.len());
            assert forall|j: int| 0 <= j < after.len() implies self@[j] == after[j] by {
                match key_map::index_of(before.keys(), key@) {
                    Some(i) => {
                        if j != i {
                            assert(self.values()[j] == before.values()[j]);
                        }
                    },
                    None => {
                        if j < before@.len() {
                            assert(self.values()[j] == before.values()[j]);
                        }
                    },
                }
            }
            assert(self@ =~= after);
        }
    }
}

/// Whether a record has been built from `values` by calls of the methods of
/// `E`, one for each step: `states[0]` is what `E::new` gave, and for each
/// of `values`, in order, `E::set_property` was called with the name of the
/// value as `keys` has it, and with the value, on the record as the step
/// before had left it. `refs` are the references to the record that the
/// calls were made with.
pub open spec fn handed<E: PropertyAccess>(
    values: Seq<(String, Property)>,
    keys: Seq<&str>,
    refs: Seq<&mut E>,
    states: Seq<E>,
) -> bool {
    &&& keys.len() == values.len()
    &&& refs.len() == values.len()
    &&& states.len() == values.len() + 1
    &&& call_ensures(E::new, (), states[0])
    &&& forall|i: int|
        0 <= i < values.len() ==> {
            &&& (#[trigger] keys[i])@ == values[i].0@
            &&& mut_ref_current(#[trigger] refs[i]) == states[i]
            &&& call_ensures(E::set_property, (refs[i], keys[i], values[i].1), ())
        }
}

/// Builds a record of type `E` from the properties `values`: a fresh value
/// that is given each of them in order, under its name. What each call makes
/// of the record is for `E` to say; the record that is returned is what the
/// last call left, or the fresh value where there is no property.
pub fn materialize<E: PropertyAccess>(values: Values) -> (r: E)
    ensures
        exists|keys: Seq<&str>, refs: Seq<&mut E>, states: Seq<E>|
            {
                &&& #[trigger] handed(values@, keys, refs, states)
                &&& forall|i: int|
                    0 <= i < refs.len() ==> mut_ref_future(#[trigger] refs[i]) == states[i + 1]
                &&& r == states.last()
            },
{
    let ghost all = values@;
    let mut record = E::new();
    proof {
        let states = seq![record];
        assert(all.take(0).len() == 0);
        assert(handed(all.take(0), Seq::<&str>::empty(), Seq::<&mut E>::empty(), states));
    }
    for value in it: values
        invariant
            it.seq() == all,
            exists|keys: Seq<&str>, refs: Seq<&mut E>, states: Seq<E>|
                {
                    &&& #[trigger] handed(all.take(it.index() as int), keys, refs, states)
                    &&& forall|i: int|
                        0 <= i < refs.len() ==> mut_ref_future(#[trigger] refs[i]) == states[i + 1]
                    &&& record == states.last()
                },
    {
        let ghost before = record;
        let ghost given = value;
        let ghost n = it.index() as int;
        assert(given == all[n]);
        record.set_property(value.0.as_str(), value.1);
        proof {
            let (keys, refs, states) = choose|keys: Seq<&str>, refs: Seq<&mut E>, states: Seq<E>|
                {
                    &&& #[trigger] handed(all.take(n), keys, refs, states)
                    &&& forall|i: int|
                        0 <= i < refs.len() ==> mut_ref_future(#[trigger] refs[i]) == states[i + 1]
                    &&& before == states.last()
                };
            let (key, m) = choose|key: &str, m: &mut E|
                key@ == given.0@ && mut_ref_current(m) == before && mut_ref_future(m) == record
                    && #[trigger] call_ensures(E::set_property, (m, key, given.1), ());
            let keys1 = keys.push(key);
            let refs1 = refs.push(m);
            let states1 = states.push(record);
            let now = all.take(n + 1);
            assert forall|i: int| 0 <= i < now.len() implies {
                &&& (#[trigger] keys1[i])@ == now[i].0@
                &&& mut_ref_current(#[trigger] refs1[i]) == states1[i]
                &&& call_ensures(E::set_property, (refs1[i], keys1[i], now[i].1), ())
            } by {
                if i < n {
                    assert(all.take(n)[i] == now[i]);
                    assert(keys1[i] == keys[i]);
                    assert(refs1[i] == refs[i]);
                    assert(states1[i] == states[i]);
                }
            }
            assert(handed(now, keys1, refs1, states1));
            assert forall|i: int| 0 <= i < refs1.len() implies mut_ref_future(#[trigger] refs1[i])
                == states1[i + 1] by {
                if i < n {
                    assert(refs1[i] == refs[i]);
                }
            }
        }
    }
    assert(all.take(all.len() as int) =~= all);
    record
}

/// Whether `k` is a position in a list of `n` items.
pub open spec fn within(k: int, n: int) -> bool {
    0 <= k < n
}

/// Builds a record of type `E` from each of `records`: the record at each
/// place is built from the values at that place, as `materialize` builds it.
pub fn materialize_all<E: PropertyAccess>(records: Vec<Values>) -> (r: Vec<E>)
    ensures
        r@.len() == records@.len(),
        forall|k: int| #[trigger]
            within(k, records@.len() as int) ==> exists|
                keys: Seq<&str>,
                refs: Seq<&mut E>,
                states: Seq<E>,
            |
                {
                    &&& #[trigger] handed(records@[k]@, keys, refs, states)
                    &&& forall|i: int|
                        0 <= i < refs.len() ==> mut_ref_future(#[trigger] refs[i]) == states[i + 1]
                    &&& r@[k] == states.last()
                },
{
    let ghost given = records@;
    let mut out: Vec<E> = Vec::new();
    for values in it: records
        invariant
            it.seq() == given,
            out@.len() == it.index(),
            forall|k: int| #[trigger]
                within(k, out@.len() as int) ==> exists|
                    keys: Seq<&str>,
                    refs: Seq<&mut E>,
                    states: Seq<E>,
                |
                    {
                        &&& #[trigger] handed(given[k]@, keys, refs, states)
                        &&& forall|i: int|
                            0 <= i < refs.len() ==> mut_ref_future(#[trigger] refs[i]) == states[i
                                + 1]
                        &&& out@[k] == states.last()
                    },
    {
        let ghost n = it.index() as int;
        let ghost before = out@;
        assert(values == given[n]);
        let record = materialize::<E>(values);
        out.push(record);
        proof {
            assert forall|k: int| #[trigger] within(k, out@.len() as int) implies exists|
                keys: Seq<&str>,
                refs: Seq<&mut E>,
                states: Seq<E>,
            |
                {
                    &&& #[trigger] handed(given[k]@, keys, refs, states)
                    &&& forall|i: int|
                        0 <= i < refs.len() ==> mut_ref_future(#[trigger] refs[i]) == states[i + 1]
                    &&& out@[k] == states.last()
                } by {
                if k < n {
                    assert(within(k, before.len() as int));
                    assert(out@[k] == before[k]);
                }
            }
        }
    }
    out
}

/// A record that keeps every property under its name, once it has been
/// built from `values` by the calls that `handed` describes, holds those
/// values gathered under their names: after the first `n` calls the first
/// `n` of them, and in the end all.
pub proof fn lemma_handed_gathers(
    values: Seq<(String, Property)>,
    keys: Seq<&str>,
    refs: Seq<&mut DefaultElement>,
    states: Seq<DefaultElement>,
    n: int,
)
    requires
        handed(values, keys, refs, states),
        forall|i: int| 0 <= i < refs.len() ==> mut_ref_future(#[trigger] refs[i]) == states[i + 1],
        0 <= n <= values.len(),
    ensures
        states[n]@ == gathered(values_view(values), n),
    decreases n,
{
    if n > 0 {
        lemma_handed_gathers(values, keys, refs, states, n - 1);
        let m = refs[n - 1];
        assert(call_ensures(DefaultElement::set_property, (m, keys[n - 1], values[n - 1].1), ()));
        assert(mut_ref_future(m) == states[n]);
        assert(values_view(values)[n - 1] == (values[n - 1].0@, values[n - 1].1@));
    }
}

/// The record that keeps the properties `values` under their names.
pub fn gather(values: Values) -> (r: DefaultElement)
    ensures
        r@ == gathered(values_view(values@), values@.len() as int),
{
    let ghost views = values_view(values@);
    let mut record = DefaultElement::new();
    for value in it: values
        invariant
            views == values_view(it.seq()),
            record@ == gathered(views, it.index() as int),
    {
        assert(views[it.index() as int] == (value.0@, value.1@));
        record.set_property(value.0.as_str(), value.1);
    }
    record
}

/// The records of each element, under the element's name, in the order in
/// which the header declares the elements.
pub type Payload<E> = KeyMap<Vec<E>>;

/// A header together with the records that it describes.
#[derive(Clone, Debug, PartialEq)]
pub struct Ply<E: PropertyAccess> {
    pub header: Header,
    pub payload: Payload<E>,
}

impl<E: PropertyAccess> Ply<E> {
    /// A file with an empty header and no record.
    pub fn new() -> (r: Self)
        ensures
            r.header@ == HeaderView::empty(),
            r.payload.keys() == Seq::<Seq<char>>::empty(),
            r.payload.values() == Seq::<Vec<E>>::empty(),
    {
        Ply { header: Header::new(), payload: KeyMap::new() }
    }
}

} // verus!
