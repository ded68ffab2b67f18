//! Reads the records of a payload, element by element, as the values of their
//! properties.

use super::ascii::{ascii_element, read_ascii_record};
use super::binary::{binary_element, read_binary_record, Endian};
use super::error::{Fault, ParseError, ParseErrorView};
use super::header::{after_header, assemble, read_header_lines, Assembly};
use super::source::{after_line, first_line, Source};
use crate::ply::key_map::{index_of, lemma_index_of};
use crate::ply::{
    put, records_view, values_view, ElementDef, ElementDefView, Encoding, Header, HeaderView,
    KeyMap, PropertyDefView, Values, ValuesView,
};
use crate::util::{after, LocationTracker};
use vstd::prelude::*;

verus! {

/// The outcome of reading a part of a file: what was read or why it could
/// not be, the bytes that are left, and the number of the next line.
pub struct Reading<T> {
    pub result: Result<T, ParseErrorView>,
    pub rest: Seq<u8>,
    pub line: usize,
}

/// What a payload stands for in contracts: for each element its name and
/// its records, in the order in which the names were first declared.
pub type PayloadView = Seq<(Seq<char>, Seq<ValuesView>)>;

/// The failure of `fault` on line `line`, which reads `text`.
pub open spec fn failed<T>(line: usize, text: Seq<char>, fault: Fault, rest: Seq<u8>) -> Reading<
    T,
> {
    Reading { result: Err(ParseErrorView { line_index: line, text, fault }), rest, line }
}

/// What reading `n` more records of an ascii payload gives, after the records
/// `acc`: one line for each record.
pub open spec fn ascii_records(
    acc: Seq<ValuesView>,
    bytes: Seq<u8>,
    properties: Seq<PropertyDefView>,
    n: int,
    line: usize,
) -> Reading<Seq<ValuesView>>
    decreases n,
{
    if n <= 0 {
        Reading { result: Ok(acc), rest: bytes, line }
    } else {
        match first_line(bytes) {
            Err(f) => failed(line, Seq::empty(), f, after_line(bytes)),
            Ok(text) => match ascii_element(text, properties) {
                Err(f) => failed(line, text, f, after_line(bytes)),
                Ok(e) => ascii_records(
                    acc.push(e),
                    after_line(bytes),
                    properties,
                    n - 1,
                    after(line),
                ),
            },
        }
    }
}

/// What reading `n` more records of a binary payload gives, after the records
/// `acc`.
pub open spec fn binary_records(
    acc: Seq<ValuesView>,
    bytes: Seq<u8>,
    properties: Seq<PropertyDefView>,
    n: int,
    line: usize,
    order: Endian,
) -> Reading<Seq<ValuesView>>
    decreases n,
{
    if n <= 0 {
        Reading { result: Ok(acc), rest: bytes, line }
    } else {
        match binary_element(bytes, properties, order) {
            (Err(f), rest) => failed(line, Seq::empty(), f, rest),
            (Ok(e), rest) => binary_records(acc.push(e), rest, properties, n - 1, after(line), order),
        }
    }
}

/// What reading all the records of one element gives: as many records as
/// the element declares, in the encoding of the file.
pub open spec fn records(bytes: Seq<u8>, element: ElementDefView, encoding: Encoding, line: usize)
    -> Reading<Seq<ValuesView>> {
    match encoding {
        Encoding::Ascii => ascii_records(
            Seq::empty(),
            bytes,
            element.properties,
            element.count as int,
            line,
        ),
        Encoding::BinaryBigEndian => binary_records(
            Seq::empty(),
            bytes,
            element.properties,
            element.count as int,
            line,
            Endian::Big,
        ),
        Encoding::BinaryLittleEndian => binary_records(
            Seq::empty(),
            bytes,
            element.properties,
            element.count as int,
            line,
            Endian::Little,
        ),
    }
}

/// What reading the records of the elements from number `k` on gives, after
/// the entries `acc`: the records of each element go under its name.
pub open spec fn payload_from(
    acc: PayloadView,
    bytes: Seq<u8>,
    elements: Seq<ElementDefView>,
    k: int,
    encoding: Encoding,
    line: usize,
) -> Reading<PayloadView>
    decreases elements.len() - k,
{
    if k < 0 || k >= elements.len() {
        Reading { result: Ok(acc), rest: bytes, line }
    } else {
        let r = records(bytes, elements[k], encoding, line);
        match r.result {
            Err(e) => Reading { result: Err(e), rest: r.rest, line: r.line },
            Ok(rs) => payload_from(
                put(acc, elements[k].name, rs),
                r.rest,
                elements,
                k + 1,
                encoding,
                r.line,
            ),
        }
    }
}

/// What reading the payload that `header` describes gives.
pub open spec fn payload_of(bytes: Seq<u8>, header: HeaderView, line: usize) -> Reading<
    PayloadView,
> {
    payload_from(Seq::empty(), bytes, header.elements, 0, header.encoding, line)
}

/// What reading a header gives, the first line being line number `line`.
pub open spec fn header_of(bytes: Seq<u8>, line: usize) -> Reading<HeaderView> {
    let (result, line) = assemble(Assembly::start(), bytes, line);
    Reading { result, rest: after_header(Assembly::start(), bytes), line }
}

/// What reading a whole file gives: its header, and the payload that the
/// header describes. The first line of the file is line number 1.
pub open spec fn ply_of(bytes: Seq<u8>) -> Reading<(HeaderView, PayloadView)> {
    let h = header_of(bytes, 1);
    match h.result {
        Err(e) => Reading { result: Err(e), rest: h.rest, line: h.line },
        Ok(header) => {
            let p = payload_of(h.rest, header, h.line);
            match p.result {
                Err(e) => Reading { result: Err(e), rest: p.rest, line: p.line },
                Ok(payload) => Reading { result: Ok((header, payload)), rest: p.rest, line: p.line },
            }
        },
    }
}

/// What a payload of values stands for in contracts.
pub open spec fn payload_view(payload: KeyMap<Vec<Values>>) -> PayloadView {
    Seq::new(
        payload.keys().len(),
        |i: int| (payload.keys()[i], records_view(payload.values()[i]@)),
    )
}

/// What the outcome of reading records stands for in contracts.
pub open spec fn records_result_view(r: Result<Vec<Values>, ParseError>) -> Result<
    Seq<ValuesView>,
    ParseErrorView,
> {
    match r {
        Ok(v) => Ok(records_view(v@)),
        Err(e) => Err(e@),
    }
}

/// What the outcome of reading a payload stands for in contracts.
pub open spec fn payload_result_view(r: Result<KeyMap<Vec<Values>>, ParseError>) -> Result<
    PayloadView,
    ParseErrorView,
> {
    match r {
        Ok(p) => Ok(payload_view(p)),
        Err(e) => Err(e@),
    }
}

/// What the outcome of reading a file stands for in contracts.
pub open spec fn ply_result_view(r: Result<(Header, KeyMap<Vec<Values>>), ParseError>) -> Result<
    (HeaderView, PayloadView),
    ParseErrorView,
> {
    match r {
        Ok(p) => Ok((p.0@, payload_view(p.1))),
        Err(e) => Err(e@),
    }
}

/// Reads the records of one element from an ascii payload: one line for
/// each record. `location` goes on by one with every line.
pub fn read_ascii_records(
    source: &mut Source,
    location: &mut LocationTracker,
    element_def: &ElementDef,
) -> (r: Result<Vec<Values>, ParseError>)
    ensures
        (Reading {
            result: records_result_view(r),
            rest: final(source).rest(),
            line: final(location).line_index,
        }) == ascii_records(
            Seq::empty(),
            old(source).rest(),
            element_def@.properties,
            element_def.count as int,
            old(location).line_index,
        ),
{
    let mut elems: Vec<Values> = Vec::new();
    assert(records_view(elems@) =~= Seq::empty());
    let mut i: usize = 0;
    while i < element_def.count
        invariant
            i <= element_def.count,
            ascii_records(
                records_view(elems@),
                source.rest(),
                element_def@.properties,
                element_def.count - i,
                location.line_index,
            ) == ascii_records(
                Seq::empty(),
                old(source).rest(),
                element_def@.properties,
                element_def.count as int,
                old(location).line_index,
            ),
        decreases element_def.count - i,
    {
        let text = match source.read_line() {
            Ok(t) => t,
            Err(f) => {
                return Err(ParseError::at(location.line_index, f));
            },
        };
        match read_ascii_record(text.as_str(), element_def) {
            Ok(e) => {
                let ghost before = records_view(elems@);
                elems.push(e);
                assert(records_view(elems@) =~= before.push(values_view(e@)));
            },
            Err(f) => {
                return Err(ParseError { line_index: location.line_index, text, fault: f });
            },
        }
        location.next_line();
        i += 1;
    }
    Ok(elems)
}

/// Reads the records of one element from a binary payload. `location` goes
/// on by one with every record.
pub fn read_binary_records(
    source: &mut Source,
    location: &mut LocationTracker,
    element_def: &ElementDef,
    order: Endian,
) -> (r: Result<Vec<Values>, ParseError>)
    ensures
        (Reading {
            result: records_result_view(r),
            rest: final(source).rest(),
            line: final(location).line_index,
        }) == binary_records(
            Seq::empty(),
            old(source).rest(),
            element_def@.properties,
            element_def.count as int,
            old(location).line_index,
            order,
        ),
{
    let mut elems: Vec<Values> = Vec::new();
    assert(records_view(elems@) =~= Seq::empty());
    let mut i: usize = 0;
    while i < element_def.count
        invariant
            i <= element_def.count,
            binary_records(
                records_view(elems@),
                source.rest(),
                element_def@.properties,
                element_def.count - i,
                location.line_index,
                order,
            ) == binary_records(
                Seq::empty(),
                old(source).rest(),
                element_def@.properties,
                element_def.count as int,
                old(location).line_index,
                order,
            ),
        decreases element_def.count - i,
    {
        match read_binary_record(source, element_def, order) {
            Ok(e) => {
                let ghost before = records_view(elems@);
                elems.push(e);
                assert(records_view(elems@) =~= before.push(values_view(e@)));
            },
            Err(f) => {
                return Err(ParseError::at(location.line_index, f));
            },
        }
        location.next_line();
        i += 1;
    }
    Ok(elems)
}

/// Reads all the records of one element in the given encoding.
pub fn read_records(
    source: &mut Source,
    location: &mut LocationTracker,
    element_def: &ElementDef,
    encoding: Encoding,
) -> (r: Result<Vec<Values>, ParseError>)
    ensures
        (Reading {
            result: records_result_view(r),
            rest: final(source).rest(),
            line: final(location).line_index,
        }) == records(old(source).rest(), element_def@, encoding, old(location).line_index),
{
    match encoding {
        Encoding::Ascii => read_ascii_records(source, location, element_def),
        Encoding::BinaryBigEndian => read_binary_records(source, location, element_def, Endian::Big),
        Encoding::BinaryLittleEndian => read_binary_records(
            source,
            location,
            element_def,
            Endian::Little,
        ),
    }
}

/// Putting a list of records into a payload puts its view into the view of
/// the payload.
proof fn lemma_payload_insert(
    before: KeyMap<Vec<Values>>,
    now: KeyMap<Vec<Values>>,
    key: Seq<char>,
    value: Vec<Values>,
)
    requires
        match index_of(before.keys(), key) {
            Some(i) => now.keys() == before.keys() && now.values() == before.values().update(
                i,
                value,
            ),
            None => now.keys() == before.keys().push(key) && now.values()
                == before.values().push(value),
        },
    ensures
        payload_view(now) == put(payload_view(before), key, records_view(value@)),
{
    before.lemma_wf();
    now.lemma_wf();
    lemma_index_of(before.keys(), key);
    let old_view = payload_view(before);
    assert(old_view.map_values(|e: (Seq<char>, Seq<ValuesView>)| e.0) =~= before.keys());
    let after = put(old_view, key, records_view(value@));
    assert(payload_view(now).len() == after.len());
    assert forall|j: int| 0 <= j < after.len() implies payload_view(now)[j] == after[j] by {
        match index_of(before.keys(), key) {
            Some(i) => {
                if j != i {
                    assert(now.values()[j] == before.values()[j]);
                }
            },
            None => {
                if j < old_view.len() {
                    assert(now.values()[j] == before.values()[j]);
                }
            },
        }
    }
    assert(payload_view(now) =~= after);
}

/// Reads the payload that `header` describes: the records of every element,
/// in the order in which `header` declares the elements. The records of an
/// element go under its name; where a name is declared twice, the records of
/// the later declaration take the place of those of the earlier.
pub fn read_payload_values(
    source: &mut Source,
    location: &mut LocationTracker,
    header: &Header,
) -> (r: Result<KeyMap<Vec<Values>>, ParseError>)
    ensures
        (Reading {
            result: payload_result_view(r),
            rest: final(source).rest(),
            line: final(location).line_index,
        }) == payload_of(old(source).rest(), header@, old(location).line_index),
{
    let ghost elements = header@.elements;
    let mut payload: KeyMap<Vec<Values>> = KeyMap::new();
    assert(payload_view(payload) =~= Seq::empty());
    let mut k: usize = 0;
    while k < header.elements.len()
        invariant
            k <= header.elements@.len(),
            elements == header@.elements,
            payload_from(
                payload_view(payload),
                source.rest(),
                elements,
                k as int,
                header.encoding,
                location.line_index,
            ) == payload_of(old(source).rest(), header@, old(location).line_index),
        decreases header.elements@.len() - k,
    {
        let e = &header.elements[k];
        assert(elements[k as int] == e@);
        let elems = match read_records(source, location, e, header.encoding) {
            Ok(v) => v,
            Err(err) => {
                return Err(err);
            },
        };
        let ghost before = payload;
        payload.insert(e.name.clone(), elems);
        proof {
            lemma_payload_insert(before, payload, e.name@, elems);
        }
        k += 1;
    }
    Ok(payload)
}

/// Reads a header. `location` goes on to the next line before the first
/// line is read, and after every line that is accepted.
pub fn read_header_from(source: &mut Source, location: &mut LocationTracker) -> (r: Result<
    Header,
    ParseError,
>)
    ensures
        (Reading {
            result: super::header::header_view(r),
            rest: final(source).rest(),
            line: final(location).line_index,
        }) == header_of(old(source).rest(), after(old(location).line_index)),
{
    location.next_line();
    read_header_lines(source, location)
}

/// Reads a whole file: the header, then the records of every element in the
/// order in which the header declares the elements.
pub fn read_ply_values(source: &mut Source) -> (r: Result<(Header, KeyMap<Vec<Values>>), ParseError>)
    ensures
        ply_result_view(r) == ply_of(old(source).rest()).result,
        final(source).rest() == ply_of(old(source).rest()).rest,
{
    let mut location = LocationTracker::new();
    let header = match read_header_from(source, &mut location) {
        Ok(h) => h,
        Err(e) => {
            return Err(e);
        },
    };
    let payload = match read_payload_values(source, &mut location, &header) {
        Ok(p) => p,
        Err(e) => {
            return Err(e);
        },
    };
    Ok((header, payload))
}

} // verus!
