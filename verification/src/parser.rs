//! Reads a header and its payload.
//!
//! What a file holds is decided in the modules below: they read a header
//! and the values of the properties of every record, and say exactly what
//! they read. A [`Parser`] hands those values on to records of a type of the
//! caller's choice.

pub mod ascii;
pub mod binary;
pub mod error;
pub mod grammar;
pub mod header;
pub mod payload;
pub mod source;
pub mod value;

pub use binary::Endian;
pub use error::{Fault, ParseError, ParseErrorView};
pub use grammar::{Expected, Line, LineView, SyntaxError};
pub use header::HeaderAssembler;
pub use payload::{
    read_ascii_records, read_binary_records, read_header_from, read_payload_values,
    read_ply_values, read_records, PayloadView, Reading,
};
pub use source::Source;

use crate::ply::{
    handed, materialize, materialize_all, put, records_view, values_view, within, ElementDef,
    Encoding, Header, HeaderView, KeyMap, Payload, Ply, Property, PropertyAccess, Values,
    ValuesView,
};
use crate::util::{after, LocationTracker};
use ascii::{ascii_element, read_ascii_record};
use binary::{binary_element, read_binary_record};
use header::header_view;
use payload::{
    ascii_records, binary_records, header_of, payload_from, payload_of, ply_of, records,
};
use std::marker::PhantomData;
use vstd::prelude::*;

verus! {

/// Whether a payload of records has the names of `view`, in their order, and
/// under each name as many records as `view` has.
pub open spec fn shaped<E: PropertyAccess>(payload: Payload<E>, view: PayloadView) -> bool {
    &&& payload.keys().len() == view.len()
    &&& payload.values().len() == view.len()
    &&& forall|i: int| 0 <= i < view.len() ==> payload.keys()[i] == (#[trigger] view[i]).0
    &&& forall|i: int|
        0 <= i < view.len() ==> payload.values()[i]@.len() == (#[trigger] view[i]).1.len()
}

/// Whether `view` has a record at place `k` under its name number `i`.
pub open spec fn placed(view: PayloadView, i: int, k: int) -> bool {
    0 <= i < view.len() && 0 <= k < view[i].1.len()
}

/// Reads the parts of a file into records of type `E`.
///
/// The parser reads the values of the properties of each record and hands
/// them to a fresh value of type `E`, in the order of declaration. What `E`
/// makes of them is its own affair. So the contracts here say when reading
/// succeeds, with which error it fails and what it leaves unread; and of
/// every record they say from which values it was built, and that it was
/// built by the calls of `E::new` and `E::set_property` that `handed`
/// describes.
#[derive(Default)]
pub struct Parser<E: PropertyAccess> {
    phantom: PhantomData<E>,
}

impl<E: PropertyAccess> Parser<E> {
    /// A parser that builds its records in values of type `E`.
    pub fn new() -> (r: Self) {
        Parser { phantom: PhantomData }
    }

    /// Reads a whole file: the header, then the records of every element in
    /// the order in which the header declares the elements.
    pub fn read_ply(&self, source: &mut Source) -> (r: Result<Ply<E>, ParseError>)
        ensures
            ({
                let read = ply_of(old(source).rest());
                &&& match r {
                    Ok(p) => match read.result {
                        Ok((header, payload)) => {
                            &&& p.header@ == header
                            &&& shaped(p.payload, payload)
                            &&& forall|i: int, k: int| #[trigger]
                                placed(payload, i, k) ==> exists|
                                    values: Seq<(String, Property)>,
                                    keys: Seq<&str>,
                                    refs: Seq<&mut E>,
                                    states: Seq<E>,
                                |
                                    {
                                        &&& payload[i].1[k] == values_view(values)
                                        &&& #[trigger] handed(values, keys, refs, states)
                                        &&& forall|i: int|
                                            0 <= i < refs.len() ==> mut_ref_future(#[trigger] refs[i]) == states[i + 1]
                                        &&& p.payload.values()[i]@[k] == states.last()
                                    }
                        },
                        Err(_) => false,
                    },
                    Err(e) => read.result == Err::<(HeaderView, PayloadView), ParseErrorView>(e@),
                }
                &&& final(source).rest() == read.rest
            }),
    {
        let mut location = LocationTracker::new();
        let header = match self.__read_header(source, &mut location) {
            Ok(h) => h,
            Err(e) => {
                return Err(e);
            },
        };
        let payload = match self.__read_payload(source, &mut location, &header) {
            Ok(p) => p,
            Err(e) => {
                return Err(e);
            },
        };
        Ok(Ply { header, payload })
    }

    /// Reads a header, up to and including the line that ends it. The first
    /// line is line number 1.
    pub fn read_header(&self, source: &mut Source) -> (r: Result<Header, ParseError>)
        ensures
            header_view(r) == header_of(old(source).rest(), 1).result,
            final(source).rest() == header_of(old(source).rest(), 1).rest,
    {
        let mut line = LocationTracker::new();
        self.__read_header(source, &mut line)
    }

    /// Reads one line of a header.
    pub fn read_header_line(&self, line: &str) -> (r: Result<Line, SyntaxError>)
        ensures
            grammar::line_view(r) == grammar::line_statement(line@),
    {
        self.__read_header_line(line)
    }

    /// Reads one line of a header.
    pub fn __read_header_line(&self, line_str: &str) -> (r: Result<Line, SyntaxError>)
        ensures
            grammar::line_view(r) == grammar::line_statement(line_str@),
    {
        grammar::line(line_str)
    }

    /// Reads a header. `location` goes on to the next line before the first
    /// line is read, and after every line that is accepted.
    pub fn __read_header(&self, source: &mut Source, location: &mut LocationTracker) -> (r: Result<
        Header,
        ParseError,
    >)
        ensures
            (Reading {
                result: header_view(r),
                rest: final(source).rest(),
                line: final(location).line_index,
            }) == header_of(old(source).rest(), after(old(location).line_index)),
    {
        read_header_from(source, location)
    }

    /// Reads the payload that `header` describes: the records of every
    /// element, in the order in which `header` declares the elements. The
    /// first line, or the first record of a binary payload, has the number 0.
    pub fn read_payload(&self, source: &mut Source, header: &Header) -> (r: Result<
        Payload<E>,
        ParseError,
    >)
        ensures
            ({
                let read = payload_of(old(source).rest(), header@, 0);
                &&& match r {
                    Ok(p) => match read.result {
                        Ok(payload) => {
                            &&& shaped(p, payload)
                            &&& forall|i: int, k: int| #[trigger]
                                placed(payload, i, k) ==> exists|
                                    values: Seq<(String, Property)>,
                                    keys: Seq<&str>,
                                    refs: Seq<&mut E>,
                                    states: Seq<E>,
                                |
                                    {
                                        &&& payload[i].1[k] == values_view(values)
                                        &&& #[trigger] handed(values, keys, refs, states)
                                        &&& forall|i: int|
                                            0 <= i < refs.len() ==> mut_ref_future(#[trigger] refs[i]) == states[i + 1]
                                        &&& p.values()[i]@[k] == states.last()
                                    }
                        },
                        Err(_) => false,
                    },
                    Err(e) => read.result == Err::<PayloadView, ParseErrorView>(e@),
                }
                &&& final(source).rest() == read.rest
            }),
    {
        let mut location = LocationTracker::new();
        self.__read_payload(source, &mut location, header)
    }

    /// Reads all the records of one element, in the encoding that `header`
    /// names. The first line, or the first record of a binary payload, has
    /// the number 0.
    pub fn read_payload_for_element(
        &self,
        source: &mut Source,
        element_def: &ElementDef,
        header: &Header,
    ) -> (r: Result<Vec<E>, ParseError>)
        ensures
            ({
                let read = records(old(source).rest(), element_def@, header.encoding, 0);
                &&& match r {
                    Ok(v) => match read.result {
                        Ok(rs) => {
                            &&& v@.len() == rs.len()
                            &&& forall|k: int| #[trigger]
                                within(k, rs.len() as int) ==> exists|
                                    values: Seq<(String, Property)>,
                                    keys: Seq<&str>,
                                    refs: Seq<&mut E>,
                                    states: Seq<E>,
                                |
                                    {
                                        &&& rs[k] == values_view(values)
                                        &&& #[trigger] handed(values, keys, refs, states)
                                        &&& forall|i: int|
                                            0 <= i < refs.len() ==> mut_ref_future(#[trigger] refs[i]) == states[i + 1]
                                        &&& v@[k] == states.last()
                                    }
                        },
                        Err(_) => false,
                    },
                    Err(e) => read.result == Err::<Seq<ValuesView>, ParseErrorView>(e@),
                }
                &&& final(source).rest() == read.rest
            }),
    {
        let mut location = LocationTracker::new();
        match header.encoding {
            Encoding::Ascii => self.read_ascii_payload_for_element(
                source,
                &mut location,
                element_def,
            ),
            Encoding::BinaryBigEndian => self.read_big_endian_payload_for_element(
                source,
                &mut location,
                element_def,
            ),
            Encoding::BinaryLittleEndian => self.read_little_endian_payload_for_element(
                source,
                &mut location,
                element_def,
            ),
        }
    }

    /// Reads the payload that `header` describes, element by element. The
    /// records of an element go under its name; where a name is declared
    /// twice, the records of the later declaration take the place of those of
    /// the earlier.
    pub fn __read_payload(
        &self,
        source: &mut Source,
        location: &mut LocationTracker,
        header: &Header,
    ) -> (r: Result<Payload<E>, ParseError>)
        ensures
            ({
                let read = payload_of(old(source).rest(), header@, old(location).line_index);
                &&& match r {
                    Ok(p) => match read.result {
                        Ok(payload) => {
                            &&& shaped(p, payload)
                            &&& forall|i: int, k: int| #[trigger]
                                placed(payload, i, k) ==> exists|
                                    values: Seq<(String, Property)>,
                                    keys: Seq<&str>,
                                    refs: Seq<&mut E>,
                                    states: Seq<E>,
                                |
                                    {
                                        &&& payload[i].1[k] == values_view(values)
                                        &&& #[trigger] handed(values, keys, refs, states)
                                        &&& forall|i: int|
                                            0 <= i < refs.len() ==> mut_ref_future(#[trigger] refs[i]) == states[i + 1]
                                        &&& p.values()[i]@[k] == states.last()
                                    }
                        },
                        Err(_) => false,
                    },
                    Err(e) => read.result == Err::<PayloadView, ParseErrorView>(e@),
                }
                &&& final(source).rest() == read.rest
                &&& final(location).line_index == read.line
            }),
    {
        let ghost elements = header@.elements;
        let ghost mut read: PayloadView = Seq::empty();
        let mut payload: Payload<E> = KeyMap::new();
        let mut k: usize = 0;
        while k < header.elements.len()
            invariant
                k <= header.elements@.len(),
                elements == header@.elements,
                shaped(payload, read),
                forall|i: int, n: int| #[trigger]
                    placed(read, i, n) ==> exists|
                        values: Seq<(String, Property)>,
                        keys: Seq<&str>,
                        refs: Seq<&mut E>,
                        states: Seq<E>,
                    |
                        {
                            &&& read[i].1[n] == values_view(values)
                            &&& #[trigger] handed(values, keys, refs, states)
                            &&& forall|i: int|
                                0 <= i < refs.len() ==> mut_ref_future(#[trigger] refs[i]) == states[i + 1]
                            &&& payload.values()[i]@[n] == states.last()
                        },
                payload_from(
                    read,
                    source.rest(),
                    elements,
                    k as int,
                    header.encoding,
                    location.line_index,
                ) == payload_of(old(source).rest(), header@, old(location).line_index),
            decreases header.elements@.len() - k,
        {
            let e = &header.elements[k];
            assert(elements[k as int] == e@);
            let ghost found = records(source.rest(), e@, header.encoding, location.line_index);
            let elems = match read_records(source, location, e, header.encoding) {
                Ok(v) => {
                    let built = materialize_all::<E>(v);
                    proof {
                        let rs = found.result->Ok_0;
                        assert forall|n: int| #[trigger] within(n, rs.len() as int) implies exists|
                                values: Seq<(String, Property)>,
                                keys: Seq<&str>,
                                refs: Seq<&mut E>,
                                states: Seq<E>,
                            |
                                {
                                    &&& rs[n] == values_view(values)
                                    &&& #[trigger] handed(values, keys, refs, states)
                                    &&& forall|i: int|
                                        0 <= i < refs.len() ==> mut_ref_future(#[trigger] refs[i]) == states[i + 1]
                                    &&& built@[n] == states.last()
                                } by {
                            assert(within(n, v@.len() as int));
                            assert(rs[n] == values_view(v@[n]@));
                        }
                    }
                    built
                },
                Err(err) => {
                    return Err(err);
                },
            };
            let ghost before = payload;
            let ghost earlier = read;
            payload.insert(e.name.clone(), elems);
            proof {
                let rs = found.result->Ok_0;
                read = put(earlier, e.name@, rs);
                before.lemma_wf();
                payload.lemma_wf();
                crate::ply::key_map::lemma_index_of(before.keys(), e.name@);
                assert(earlier.map_values(|x: (Seq<char>, Seq<ValuesView>)| x.0) =~= before.keys());
                assert(shaped(payload, read));
                let at = crate::ply::key_map::index_of(before.keys(), e.name@);
                assert forall|i: int, n: int| #[trigger] placed(read, i, n) implies exists|
                        values: Seq<(String, Property)>,
                        keys: Seq<&str>,
                        refs: Seq<&mut E>,
                        states: Seq<E>,
                    |
                        {
                            &&& read[i].1[n] == values_view(values)
                            &&& #[trigger] handed(values, keys, refs, states)
                            &&& forall|i: int|
                                0 <= i < refs.len() ==> mut_ref_future(#[trigger] refs[i]) == states[i + 1]
                            &&& payload.values()[i]@[n] == states.last()
                        } by {
                    let here = match at {
                        Some(j) => j,
                        None => earlier.len() as int,
                    };
                    if i == here {
                        assert(read[i].1 == rs);
                        assert(payload.values()[i] == elems);
                        assert(within(n, rs.len() as int));
                    } else {
                        assert(read[i] == earlier[i]);
                        assert(payload.values()[i] == before.values()[i]);
                        assert(placed(earlier, i, n));
                    }
                }
            }
            k += 1;
        }
        Ok(payload)
    }

    /// Reads the records of one element from an ascii payload: one line for
    /// each record.
    fn read_ascii_payload_for_element(
        &self,
        source: &mut Source,
        location: &mut LocationTracker,
        element_def: &ElementDef,
    ) -> (r: Result<Vec<E>, ParseError>)
        ensures
            ({
                let read = ascii_records(
                    Seq::empty(),
                    old(source).rest(),
                    element_def@.properties,
                    element_def.count as int,
                    old(location).line_index,
                );
                &&& match r {
                    Ok(v) => match read.result {
                        Ok(rs) => {
                            &&& v@.len() == rs.len()
                            &&& forall|k: int| #[trigger]
                                within(k, rs.len() as int) ==> exists|
                                    values: Seq<(String, Property)>,
                                    keys: Seq<&str>,
                                    refs: Seq<&mut E>,
                                    states: Seq<E>,
                                |
                                    {
                                        &&& rs[k] == values_view(values)
                                        &&& #[trigger] handed(values, keys, refs, states)
                                        &&& forall|i: int|
                                            0 <= i < refs.len() ==> mut_ref_future(#[trigger] refs[i]) == states[i + 1]
                                        &&& v@[k] == states.last()
                                    }
                        },
                        Err(_) => false,
                    },
                    Err(e) => read.result == Err::<Seq<ValuesView>, ParseErrorView>(e@),
                }
                &&& final(source).rest() == read.rest
                &&& final(location).line_index == read.line
            }),
    {
        match read_ascii_records(source, location, element_def) {
            Ok(v) => {
                let built = materialize_all::<E>(v);
                proof {
                    lemma_records_view(v@);
                }
                Ok(built)
            },
            Err(e) => Err(e),
        }
    }

    /// Reads one record of `element_def` from one line of an ascii payload.
    /// The fields of the line are taken from left to right, by the
    /// properties in the order of their declaration; fields that are left
    /// over are ignored.
    pub fn read_ascii_element(&self, line: &str, element_def: &ElementDef) -> (r: Result<E, Fault>)
        ensures
            match r {
                Ok(e) => exists|
                    values: Seq<(String, Property)>,
                    keys: Seq<&str>,
                    refs: Seq<&mut E>,
                    states: Seq<E>,
                |
                    {
                        &&& ascii_element(line@, element_def@.properties) == Ok::<ValuesView, Fault>(values_view(values))
                        &&& #[trigger] handed(values, keys, refs, states)
                        &&& forall|i: int|
                            0 <= i < refs.len() ==> mut_ref_future(#[trigger] refs[i]) == states[i + 1]
                        &&& e == states.last()
                    },
                Err(f) => ascii_element(line@, element_def@.properties) == Err::<ValuesView, Fault>(
                    f,
                ),
            },
    {
        match read_ascii_record(line, element_def) {
            Ok(values) => Ok(materialize::<E>(values)),
            Err(f) => Err(f),
        }
    }

    /// Reads one record of `element_def` from a binary payload, the most
    /// significant byte of each number first.
    pub fn read_big_endian_element(&self, source: &mut Source, element_def: &ElementDef) -> (r:
        Result<E, Fault>)
        ensures
            match r {
                Ok(e) => exists|
                    values: Seq<(String, Property)>,
                    keys: Seq<&str>,
                    refs: Seq<&mut E>,
                    states: Seq<E>,
                |
                    {
                        &&& binary_element(old(source).rest(), element_def@.properties, Endian::Big).0 == Ok::<ValuesView, Fault>(values_view(values))
                        &&& #[trigger] handed(values, keys, refs, states)
                        &&& forall|i: int|
                            0 <= i < refs.len() ==> mut_ref_future(#[trigger] refs[i]) == states[i + 1]
                        &&& e == states.last()
                    },
                Err(f) => binary_element(old(source).rest(), element_def@.properties, Endian::Big).0
                    == Err::<ValuesView, Fault>(f),
            },
            final(source).rest() == binary_element(
                old(source).rest(),
                element_def@.properties,
                Endian::Big,
            ).1,
    {
        self.read_binary_element(source, element_def, Endian::Big)
    }

    /// Reads one record of `element_def` from a binary payload, the least
    /// significant byte of each number first.
    pub fn read_little_endian_element(&self, source: &mut Source, element_def: &ElementDef) -> (r:
        Result<E, Fault>)
        ensures
            match r {
                Ok(e) => exists|
                    values: Seq<(String, Property)>,
                    keys: Seq<&str>,
                    refs: Seq<&mut E>,
                    states: Seq<E>,
                |
                    {
                        &&& binary_element(old(source).rest(), element_def@.properties, Endian::Little).0 == Ok::<ValuesView, Fault>(values_view(values))
                        &&& #[trigger] handed(values, keys, refs, states)
                        &&& forall|i: int|
                            0 <= i < refs.len() ==> mut_ref_future(#[trigger] refs[i]) == states[i + 1]
                        &&& e == states.last()
                    },
                Err(f) => binary_element(old(source).rest(), element_def@.properties, Endian::Little).0
                    == Err::<ValuesView, Fault>(f),
            },
            final(source).rest() == binary_element(
                old(source).rest(),
                element_def@.properties,
                Endian::Little,
            ).1,
    {
        self.read_binary_element(source, element_def, Endian::Little)
    }

    /// Reads the records of one element from a binary payload, the most
    /// significant byte of each number first.
    fn read_big_endian_payload_for_element(
        &self,
        source: &mut Source,
        location: &mut LocationTracker,
        element_def: &ElementDef,
    ) -> (r: Result<Vec<E>, ParseError>)
        ensures
            ({
                let read = binary_records(
                    Seq::empty(),
                    old(source).rest(),
                    element_def@.properties,
                    element_def.count as int,
                    old(location).line_index,
                    Endian::Big,
                );
                &&& match r {
                    Ok(v) => match read.result {
                        Ok(rs) => {
                            &&& v@.len() == rs.len()
                            &&& forall|k: int| #[trigger]
                                within(k, rs.len() as int) ==> exists|
                                    values: Seq<(String, Property)>,
                                    keys: Seq<&str>,
                                    refs: Seq<&mut E>,
                                    states: Seq<E>,
                                |
                                    {
                                        &&& rs[k] == values_view(values)
                                        &&& #[trigger] handed(values, keys, refs, states)
                                        &&& forall|i: int|
                                            0 <= i < refs.len() ==> mut_ref_future(#[trigger] refs[i]) == states[i + 1]
                                        &&& v@[k] == states.last()
                                    }
                        },
                        Err(_) => false,
                    },
                    Err(e) => read.result == Err::<Seq<ValuesView>, ParseErrorView>(e@),
                }
                &&& final(source).rest() == read.rest
                &&& final(location).line_index == read.line
            }),
    {
        self.read_binary_payload_for_element(source, location, element_def, Endian::Big)
    }

    /// Reads the records of one element from a binary payload, the least
    /// significant byte of each number first.
    fn read_little_endian_payload_for_element(
        &self,
        source: &mut Source,
        location: &mut LocationTracker,
        element_def: &ElementDef,
    ) -> (r: Result<Vec<E>, ParseError>)
        ensures
            ({
                let read = binary_records(
                    Seq::empty(),
                    old(source).rest(),
                    element_def@.properties,
                    element_def.count as int,
                    old(location).line_index,
                    Endian::Little,
                );
                &&& match r {
                    Ok(v) => match read.result {
                        Ok(rs) => {
                            &&& v@.len() == rs.len()
                            &&& forall|k: int| #[trigger]
                                within(k, rs.len() as int) ==> exists|
                                    values: Seq<(String, Property)>,
                                    keys: Seq<&str>,
                                    refs: Seq<&mut E>,
                                    states: Seq<E>,
                                |
                                    {
                                        &&& rs[k] == values_view(values)
                                        &&& #[trigger] handed(values, keys, refs, states)
                                        &&& forall|i: int|
                                            0 <= i < refs.len() ==> mut_ref_future(#[trigger] refs[i]) == states[i + 1]
                                        &&& v@[k] == states.last()
                                    }
                        },
                        Err(_) => false,
                    },
                    Err(e) => read.result == Err::<Seq<ValuesView>, ParseErrorView>(e@),
                }
                &&& final(source).rest() == read.rest
                &&& final(location).line_index == read.line
            }),
    {
        self.read_binary_payload_for_element(source, location, element_def, Endian::Little)
    }

    /// Reads the records of one element from a binary payload. `location`
    /// goes on by one with every record.
    fn read_binary_payload_for_element(
        &self,
        source: &mut Source,
        location: &mut LocationTracker,
        element_def: &ElementDef,
        order: Endian,
    ) -> (r: Result<Vec<E>, ParseError>)
        ensures
            ({
                let read = binary_records(
                    Seq::empty(),
                    old(source).rest(),
                    element_def@.properties,
                    element_def.count as int,
                    old(location).line_index,
                    order,
                );
                &&& match r {
                    Ok(v) => match read.result {
                        Ok(rs) => {
                            &&& v@.len() == rs.len()
                            &&& forall|k: int| #[trigger]
                                within(k, rs.len() as int) ==> exists|
                                    values: Seq<(String, Property)>,
                                    keys: Seq<&str>,
                                    refs: Seq<&mut E>,
                                    states: Seq<E>,
                                |
                                    {
                                        &&& rs[k] == values_view(values)
                                        &&& #[trigger] handed(values, keys, refs, states)
                                        &&& forall|i: int|
                                            0 <= i < refs.len() ==> mut_ref_future(#[trigger] refs[i]) == states[i + 1]
                                        &&& v@[k] == states.last()
                                    }
                        },
                        Err(_) => false,
                    },
                    Err(e) => read.result == Err::<Seq<ValuesView>, ParseErrorView>(e@),
                }
                &&& final(source).rest() == read.rest
                &&& final(location).line_index == read.line
            }),
    {
        match read_binary_records(source, location, element_def, order) {
            Ok(v) => {
                let built = materialize_all::<E>(v);
                proof {
                    lemma_records_view(v@);
                }
                Ok(built)
            },
            Err(e) => Err(e),
        }
    }

    /// Reads one record of `element_def` from a binary payload: the values
    /// of its properties, in the order of their declaration.
    fn read_binary_element(&self, source: &mut Source, element_def: &ElementDef, order: Endian) -> (r:
        Result<E, Fault>)
        ensures
            match r {
                Ok(e) => exists|
                    values: Seq<(String, Property)>,
                    keys: Seq<&str>,
                    refs: Seq<&mut E>,
                    states: Seq<E>,
                |
                    {
                        &&& binary_element(old(source).rest(), element_def@.properties, order).0 == Ok::<ValuesView, Fault>(values_view(values))
                        &&& #[trigger] handed(values, keys, refs, states)
                        &&& forall|i: int|
                            0 <= i < refs.len() ==> mut_ref_future(#[trigger] refs[i]) == states[i + 1]
                        &&& e == states.last()
                    },
                Err(f) => binary_element(old(source).rest(), element_def@.properties, order).0
                    == Err::<ValuesView, Fault>(f),
            },
            final(source).rest() == binary_element(
                old(source).rest(),
                element_def@.properties,
                order,
            ).1,
    {
        match read_binary_record(source, element_def, order) {
            Ok(values) => Ok(materialize::<E>(values)),
            Err(f) => Err(f),
        }
    }
}

/// The view of a list of records has, at each place, the view of the record
/// at that place.
proof fn lemma_records_view(records: Seq<Values>)
    ensures
        records_view(records).len() == records.len(),
        forall|k: int|
            0 <= k < records.len() ==> #[trigger] records_view(records)[k] == values_view(
                records[k]@,
            ),
{
}

} // verus!
