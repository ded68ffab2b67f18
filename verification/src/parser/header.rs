//! Puts the statements of a header together, one line at a time.

use super::error::{Fault, ParseError, ParseErrorView};
use super::grammar::{line, line_statement, Line, LineView};
use super::source::{after_line, first_line, lemma_line_len, Source};
use crate::ply::consistency::same_text;
use crate::ply::{
    element_views, property_views, text_views, ElementDef, ElementDefView, Encoding, Header,
    HeaderView, PropertyDef, PropertyDefView, Version,
};
use crate::util::{after, LocationTracker};
use vstd::prelude::*;

verus! {

/// How far a header has been read.
#[derive(Clone, Copy, Debug, PartialEq, Eq, Structural)]
pub enum Stage {
    /// No line has been read: the magic number comes first.
    Start,
    /// The magic number has been read, the end of the header has not.
    Reading,
    /// The end of the header has been read.
    Done,
}

/// What has been gathered of a header.
pub struct Assembly {
    pub stage: Stage,
    pub format: Option<(Encoding, Version)>,
    pub obj_infos: Seq<Seq<char>>,
    pub comments: Seq<Seq<char>>,
    pub elements: Seq<ElementDefView>,
}

/// Whether one of `properties` is called `name`.
pub open spec fn has_property(properties: Seq<PropertyDefView>, name: Seq<char>) -> bool {
    exists|i: int| 0 <= i < properties.len() && (#[trigger] properties[i]).name == name
}

/// `elements` with `property` added to the last of them, unless that element
/// has a property of this name already.
pub open spec fn with_property(elements: Seq<ElementDefView>, property: PropertyDefView) -> Seq<
    ElementDefView,
> {
    let e = elements.last();
    if has_property(e.properties, property.name) {
        elements
    } else {
        elements.drop_last().push(
            ElementDefView {
                name: e.name,
                count: e.count,
                properties: e.properties.push(property),
            },
        )
    }
}

impl Assembly {
    /// Nothing gathered, nothing read.
    pub open spec fn start() -> Assembly {
        Assembly {
            stage: Stage::Start,
            format: None,
            obj_infos: Seq::empty(),
            comments: Seq::empty(),
            elements: Seq::empty(),
        }
    }

    /// What has been gathered once the statement `l` has been read too, or
    /// why `l` cannot stand here.
    pub open spec fn step(self, l: LineView) -> Result<Assembly, Fault> {
        match self.stage {
            Stage::Done => Ok(self),
            Stage::Start => match l {
                LineView::MagicNumber => Ok(Assembly { stage: Stage::Reading, ..self }),
                _ => Err(Fault::ExpectedMagicNumber),
            },
            Stage::Reading => match l {
                LineView::MagicNumber => Err(Fault::UnexpectedMagicNumber),
                LineView::Format(f) => match self.format {
                    None => Ok(Assembly { format: Some(f), ..self }),
                    Some(g) => if f == g {
                        Ok(self)
                    } else {
                        Err(Fault::ContradictingFormat(f.0, f.1, g.0, g.1))
                    },
                },
                LineView::ObjInfo(t) => Ok(Assembly { obj_infos: self.obj_infos.push(t), ..self }),
                LineView::Comment(t) => Ok(Assembly { comments: self.comments.push(t), ..self }),
                LineView::Element(e) => Ok(Assembly { elements: self.elements.push(e), ..self }),
                LineView::Property(p) => if self.elements.len() == 0 {
                    Err(Fault::PropertyWithoutElement)
                } else {
                    Ok(Assembly { elements: with_property(self.elements, p), ..self })
                },
                LineView::EndHeader => Ok(Assembly { stage: Stage::Done, ..self }),
            },
        }
    }

    /// What has been gathered once the line `text` has been read too, or why
    /// `text` cannot stand here. A first line that is no statement at all
    /// fails as any other first line that is not the magic number. After the
    /// end of the header no line is looked at.
    pub open spec fn feed(self, text: Seq<char>) -> Result<Assembly, Fault> {
        if self.stage is Done {
            Ok(self)
        } else {
            match line_statement(text) {
                Ok(l) => self.step(l),
                Err(e) => if self.stage is Start {
                    Err(Fault::ExpectedMagicNumber)
                } else {
                    Err(Fault::Syntax(e))
                },
            }
        }
    }

    /// The header that has been gathered. It needs a format.
    pub open spec fn finish(self) -> Result<HeaderView, Fault> {
        match self.format {
            None => Err(Fault::MissingFormat),
            Some(f) => Ok(
                HeaderView {
                    encoding: f.0,
                    version: f.1,
                    obj_infos: self.obj_infos,
                    comments: self.comments,
                    elements: self.elements,
                },
            ),
        }
    }
}

/// What reading a header from `bytes` gives, with `a` gathered so far and
/// `line` the number of the next line: the header or the error, and the
/// number of the line at which reading stopped. Lines are read until one
/// states the end of the header.
pub open spec fn assemble(a: Assembly, bytes: Seq<u8>, line: usize) -> (
    Result<HeaderView, ParseErrorView>,
    usize,
)
    decreases bytes.len(),
{
    match first_line(bytes) {
        Err(f) => (Err(ParseErrorView { line_index: line, text: Seq::empty(), fault: f }), line),
        Ok(text) => match a.feed(text) {
            Err(f) => (Err(ParseErrorView { line_index: line, text, fault: f }), line),
            Ok(b) => if b.stage is Done {
                match b.finish() {
                    Ok(h) => (Ok(h), after(line)),
                    Err(f) => (
                        Err(
                            ParseErrorView {
                                line_index: after(line),
                                text: Seq::empty(),
                                fault: f,
                            },
                        ),
                        after(line),
                    ),
                }
            } else {
                proof {
                    lemma_line_len(bytes);
                }
                assemble(b, after_line(bytes), after(line))
            },
        },
    }
}

/// What is left of `bytes` once a header has been read from them, with `a`
/// gathered so far: reading stops after the line that ends the header, after
/// the line that fails, or at the end of the bytes.
pub open spec fn after_header(a: Assembly, bytes: Seq<u8>) -> Seq<u8>
    decreases bytes.len(),
{
    match first_line(bytes) {
        Err(f) => after_line(bytes),
        Ok(text) => match a.feed(text) {
            Err(f) => after_line(bytes),
            Ok(b) => if b.stage is Done {
                after_line(bytes)
            } else {
                proof {
                    lemma_line_len(bytes);
                }
                after_header(b, after_line(bytes))
            },
        },
    }
}

/// The statements of the lines that reading a header goes through, with `a`
/// gathered so far: up to the statement that ends the header, or up to the
/// statement that cannot stand where it stands; the line that is no statement
/// ends them too.
pub open spec fn statements_read(a: Assembly, bytes: Seq<u8>) -> Seq<LineView>
    decreases bytes.len(),
{
    match first_line(bytes) {
        Err(_) => Seq::empty(),
        Ok(text) => match line_statement(text) {
            Err(_) => Seq::empty(),
            Ok(l) => match a.step(l) {
                Err(_) => seq![l],
                Ok(b) => if b.stage is Done {
                    seq![l]
                } else {
                    proof {
                        lemma_line_len(bytes);
                    }
                    seq![l] + statements_read(b, after_line(bytes))
                },
            },
        },
    }
}

/// What holds of the lines of a header that is read with success, once the
/// magic number has been read: the last line ends the header and no other
/// does, no line is the magic number, every `format` line says what the
/// header says, there is such a line unless a format had been read before,
/// and a `property` line comes after an `element` line unless an element had
/// been read before.
proof fn lemma_header_lines(a: Assembly, bytes: Seq<u8>, line: usize)
    requires
        a.stage is Reading,
        assemble(a, bytes, line).0 is Ok,
    ensures
        ({
            let ls = statements_read(a, bytes);
            let h = assemble(a, bytes, line).0->Ok_0;
            &&& ls.len() >= 1
            &&& ls.last() is EndHeader
            &&& forall|i: int| 0 <= i < ls.len() - 1 ==> !(#[trigger] ls[i] is EndHeader)
            &&& forall|i: int| 0 <= i < ls.len() ==> !(#[trigger] ls[i] is MagicNumber)
            &&& a.format is Some ==> a.format == Some((h.encoding, h.version))
            &&& forall|i: int|
                0 <= i < ls.len() && #[trigger] ls[i] is Format ==> ls[i] == LineView::Format(
                    (h.encoding, h.version),
                )
            &&& a.format is None ==> exists|i: int| 0 <= i < ls.len() && #[trigger] ls[i] is Format
            &&& forall|i: int|
                0 <= i < ls.len() && #[trigger] ls[i] is Property ==> a.elements.len() > 0
                    || exists|j: int| 0 <= j < i && #[trigger] ls[j] is Element
        }),
    decreases bytes.len(),
{
    let ls = statements_read(a, bytes);
    let h = assemble(a, bytes, line).0->Ok_0;
    let text = first_line(bytes)->Ok_0;
    let l = line_statement(text)->Ok_0;
    let b = a.step(l)->Ok_0;
    if b.stage is Done {
        assert(ls =~= seq![l]);
    } else {
        lemma_line_len(bytes);
        let rest = statements_read(b, after_line(bytes));
        lemma_header_lines(b, after_line(bytes), after(line));
        assert(ls =~= seq![l] + rest);
        assert(ls.last() == rest.last());
        assert forall|i: int| 0 <= i < ls.len() - 1 implies !(#[trigger] ls[i] is EndHeader) by {
            if i > 0 {
                assert(ls[i] == rest[i - 1]);
            }
        }
        assert forall|i: int| 0 <= i < ls.len() implies !(#[trigger] ls[i] is MagicNumber) by {
            if i > 0 {
                assert(ls[i] == rest[i - 1]);
            }
        }
        assert forall|i: int| 0 <= i < ls.len() && #[trigger] ls[i] is Format implies ls[i]
            == LineView::Format((h.encoding, h.version)) by {
            if i > 0 {
                assert(ls[i] == rest[i - 1]);
            }
        }
        if a.format is None {
            if l is Format {
                assert(ls[0] is Format);
            } else {
                let w = choose|w: int| 0 <= w < rest.len() && #[trigger] rest[w] is Format;
                assert(ls[w + 1] == rest[w]);
            }
        }
        assert forall|i: int| 0 <= i < ls.len() && #[trigger] ls[i] is Property implies a.elements.len()
            > 0 || exists|j: int| 0 <= j < i && #[trigger] ls[j] is Element by {
            if i > 0 && a.elements.len() == 0 {
                assert(ls[i] == rest[i - 1]);
                if b.elements.len() > 0 {
                    assert(l is Element);
                    assert(ls[0] is Element);
                } else {
                    let w = choose|w: int| 0 <= w < i - 1 && #[trigger] rest[w] is Element;
                    assert(ls[w + 1] == rest[w]);
                }
            }
        }
    }
}

/// The lines of a header that is read with success obey the rules of a
/// header. The first line is the magic number and no other line is; the last
/// line ends the header and no other does; there is a `format` line, and all
/// such lines name the encoding and the version that the header has, so that
/// no two contradict each other; and every `property` line comes after an
/// `element` line. So reading fails where the first line is not `ply`, where
/// two `format` lines contradict each other, where no `format` line comes
/// before the end of the header, and where a `property` line comes before
/// the first `element` line.
pub proof fn lemma_header_rules(bytes: Seq<u8>, line: usize)
    requires
        assemble(Assembly::start(), bytes, line).0 is Ok,
    ensures
        ({
            let ls = statements_read(Assembly::start(), bytes);
            let h = assemble(Assembly::start(), bytes, line).0->Ok_0;
            &&& ls.len() >= 2
            &&& ls[0] is MagicNumber
            &&& forall|i: int| 1 <= i < ls.len() ==> !(#[trigger] ls[i] is MagicNumber)
            &&& ls.last() is EndHeader
            &&& forall|i: int| 0 <= i < ls.len() - 1 ==> !(#[trigger] ls[i] is EndHeader)
            &&& exists|i: int| 0 <= i < ls.len() && #[trigger] ls[i] is Format
            &&& forall|i: int|
                0 <= i < ls.len() && #[trigger] ls[i] is Format ==> ls[i] == LineView::Format(
                    (h.encoding, h.version),
                )
            &&& forall|i: int|
                0 <= i < ls.len() && #[trigger] ls[i] is Property ==> exists|j: int|
                    0 <= j < i && #[trigger] ls[j] is Element
        }),
{
    let a = Assembly::start();
    let ls = statements_read(a, bytes);
    let text = first_line(bytes)->Ok_0;
    let l = line_statement(text)->Ok_0;
    let b = a.step(l)->Ok_0;
    lemma_line_len(bytes);
    let rest = statements_read(b, after_line(bytes));
    lemma_header_lines(b, after_line(bytes), after(line));
    assert(ls =~= seq![l] + rest);
    assert(ls.last() == rest.last());
    assert forall|i: int| 1 <= i < ls.len() implies !(#[trigger] ls[i] is MagicNumber) by {
        assert(ls[i] == rest[i - 1]);
    }
    assert forall|i: int| 0 <= i < ls.len() - 1 implies !(#[trigger] ls[i] is EndHeader) by {
        if i > 0 {
            assert(ls[i] == rest[i - 1]);
        }
    }
    let w = choose|w: int| 0 <= w < rest.len() && #[trigger] rest[w] is Format;
    assert(ls[w + 1] == rest[w]);
    assert forall|i: int| 0 <= i < ls.len() && #[trigger] ls[i] is Format implies ls[i]
        == LineView::Format(
        (
            assemble(a, bytes, line).0->Ok_0.encoding,
            assemble(a, bytes, line).0->Ok_0.version,
        ),
    ) by {
        assert(ls[i] == rest[i - 1]);
    }
    assert forall|i: int| 0 <= i < ls.len() && #[trigger] ls[i] is Property implies exists|j: int|
        0 <= j < i && #[trigger] ls[j] is Element by {
        assert(ls[i] == rest[i - 1]);
        let v = choose|v: int| 0 <= v < i - 1 && #[trigger] rest[v] is Element;
        assert(ls[v + 1] == rest[v]);
    }
}

/// Gathers the statements of a header. It is fed the lines of the header in
/// order, the magic number first, until it is done.
#[derive(Debug)]
pub struct HeaderAssembler {
    stage: Stage,
    format: Option<(Encoding, Version)>,
    obj_infos: Vec<String>,
    comments: Vec<String>,
    elements: Vec<ElementDef>,
}

impl View for HeaderAssembler {
    type V = Assembly;

    closed spec fn view(&self) -> Assembly {
        Assembly {
            stage: self.stage,
            format: self.format,
            obj_infos: text_views(self.obj_infos@),
            comments: text_views(self.comments@),
            elements: element_views(self.elements@),
        }
    }
}

/// Whether one of `properties` is called `name`.
fn holds_property(properties: &Vec<PropertyDef>, name: &str) -> (r: bool)
    ensures
        r == has_property(property_views(properties@), name@),
{
    let ghost views = property_views(properties@);
    let mut i: usize = 0;
    while i < properties.len() && !same_text(properties[i].name.as_str(), name)
        invariant
            i <= properties@.len(),
            views == property_views(properties@),
            forall|k: int| 0 <= k < i ==> (#[trigger] views[k]).name != name@,
        decreases properties@.len() - i,
    {
        assert(views[i as int] == properties@[i as int]@);
        i += 1;
    }
    if i < properties.len() {
        assert(views[i as int] == properties@[i as int]@);
        true
    } else {
        false
    }
}

impl HeaderAssembler {
    /// An assembler that has read nothing.
    pub fn new() -> (r: Self)
        ensures
            r@ == Assembly::start(),
    {
        let r = HeaderAssembler {
            stage: Stage::Start,
            format: None,
            obj_infos: Vec::new(),
            comments: Vec::new(),
            elements: Vec::new(),
        };
        assert(r@.obj_infos =~= Seq::empty());
        assert(r@.comments =~= Seq::empty());
        assert(r@.elements =~= Seq::empty());
        r
    }

    /// Whether the end of the header has been read.
    pub fn is_done(&self) -> (r: bool)
        ensures
            r == (self@.stage is Done),
    {
        match self.stage {
            Stage::Done => true,
            _ => false,
        }
    }

    /// Takes the next statement of the header. After an error the assembler
    /// is as it was.
    pub fn accept(&mut self, l: Line) -> (r: Result<(), Fault>)
        ensures
            match r {
                Ok(_) => old(self)@.step(l@) == Ok::<Assembly, Fault>(final(self)@),
                Err(f) => old(self)@.step(l@) == Err::<Assembly, Fault>(f) && final(self)@ == old(
                    self,
                )@,
            },
    {
        match self.stage {
            Stage::Done => Ok(()),
            Stage::Start => match l {
                Line::MagicNumber => {
                    self.stage = Stage::Reading;
                    Ok(())
                },
                _ => Err(Fault::ExpectedMagicNumber),
            },
            Stage::Reading => match l {
                Line::MagicNumber => Err(Fault::UnexpectedMagicNumber),
                Line::Format(f) => match self.format {
                    None => {
                        self.format = Some(f);
                        Ok(())
                    },
                    Some(g) => if f.0 == g.0 && f.1 == g.1 {
                        Ok(())
                    } else {
                        Err(Fault::ContradictingFormat(f.0, f.1, g.0, g.1))
                    },
                },
                Line::ObjInfo(t) => {
                    let ghost before = self@.obj_infos;
                    self.obj_infos.push(t);
                    assert(self@.obj_infos =~= before.push(t@));
                    Ok(())
                },
                Line::Comment(t) => {
                    let ghost before = self@.comments;
                    self.comments.push(t);
                    assert(self@.comments =~= before.push(t@));
                    Ok(())
                },
                Line::Element(e) => {
                    let ghost before = self@.elements;
                    self.elements.push(e);
                    assert(self@.elements =~= before.push(e@));
                    Ok(())
                },
                Line::Property(p) => {
                    let ghost before = self@.elements;
                    match self.elements.pop() {
                        None => Err(Fault::PropertyWithoutElement),
                        Some(e) => {
                            let mut e = e;
                            assert(e@ == before.last());
                            let ghost properties = e@.properties;
                            if !holds_property(&e.properties, p.name.as_str()) {
                                e.properties.push(p);
                                assert(e@.properties =~= properties.push(p@));
                            }
                            let ghost front = self@.elements;
                            self.elements.push(e);
                            assert(front =~= before.drop_last());
                            assert(self@.elements =~= front.push(e@));
                            assert(self@.elements =~= with_property(before, p@));
                            Ok(())
                        },
                    }
                },
                Line::EndHeader => {
                    self.stage = Stage::Done;
                    Ok(())
                },
            },
        }
    }

    /// Takes the next line of the header. After an error the assembler is as
    /// it was.
    pub fn feed(&mut self, text: &str) -> (r: Result<(), Fault>)
        ensures
            match r {
                Ok(_) => old(self)@.feed(text@) == Ok::<Assembly, Fault>(final(self)@),
                Err(f) => old(self)@.feed(text@) == Err::<Assembly, Fault>(f) && final(self)@
                    == old(self)@,
            },
    {
        if self.is_done() {
            return Ok(());
        }
        match line(text) {
            Ok(l) => self.accept(l),
            Err(e) => match self.stage {
                Stage::Start => Err(Fault::ExpectedMagicNumber),
                _ => Err(Fault::Syntax(e)),
            },
        }
    }

    /// The header that has been gathered.
    pub fn finish(self) -> (r: Result<Header, Fault>)
        ensures
            match r {
                Ok(h) => self@.finish() == Ok::<HeaderView, Fault>(h@),
                Err(f) => self@.finish() == Err::<HeaderView, Fault>(f),
            },
    {
        match self.format {
            None => Err(Fault::MissingFormat),
            Some(f) => Ok(
                Header {
                    encoding: f.0,
                    version: f.1,
                    obj_infos: self.obj_infos,
                    comments: self.comments,
                    elements: self.elements,
                },
            ),
        }
    }
}

/// What the outcome of reading a header stands for in contracts.
pub open spec fn header_view(r: Result<Header, ParseError>) -> Result<HeaderView, ParseErrorView> {
    match r {
        Ok(h) => Ok(h@),
        Err(e) => Err(e@),
    }
}

/// Reads a header from `source`, line by line, until a line states its end.
/// `location` counts the lines.
pub fn read_header_lines(source: &mut Source, location: &mut LocationTracker) -> (r: Result<
    Header,
    ParseError,
>)
    ensures
        (header_view(r), final(location).line_index) == assemble(
            Assembly::start(),
            old(source).rest(),
            old(location).line_index,
        ),
        final(source).rest() == after_header(Assembly::start(), old(source).rest()),
{
    let mut assembler = HeaderAssembler::new();
    loop
        invariant
            !(assembler@.stage is Done),
            assemble(assembler@, source.rest(), location.line_index) == assemble(
                Assembly::start(),
                old(source).rest(),
                old(location).line_index,
            ),
            after_header(assembler@, source.rest()) == after_header(
                Assembly::start(),
                old(source).rest(),
            ),
        decreases source.rest().len(),
    {
        let ghost bytes = source.rest();
        proof {
            lemma_line_len(bytes);
        }
        let text = match source.read_line() {
            Ok(t) => t,
            Err(f) => {
                return Err(ParseError::at(location.line_index, f));
            },
        };
        match assembler.feed(text.as_str()) {
            Ok(_) => {},
            Err(f) => {
                return Err(ParseError { line_index: location.line_index, text, fault: f });
            },
        }
        location.next_line();
        if assembler.is_done() {
            return match assembler.finish() {
                Ok(h) => Ok(h),
                Err(f) => Err(ParseError::at(location.line_index, f)),
            };
        }
    }
}

} // verus!
