//! Makes a `Ply` fit to be written out: the payload gets an entry for every
//! declared element, every declaration gets the number of records that the
//! payload holds for it, and the texts of the header are checked for
//! characters that would break its lines apart.

use super::key_map::{distinct, index_of, lemma_index_of};
use super::{ElementDef, ElementDefView, HeaderView, Ply, PropertyAccess, PropertyDefView};
use crate::text::{blank, chars_of, has_blank};
use vstd::prelude::*;

verus! {

/// Why a `Ply` is not consistent and could not be made so.
#[derive(Clone, Debug, PartialEq, Eq)]
pub struct ConsistencyError {
    description: String,
}

impl View for ConsistencyError {
    type V = Seq<char>;

    /// The description of the problem.
    closed spec fn view(&self) -> Seq<char> {
        self.description@
    }
}

impl ConsistencyError {
    /// An error that `description` describes.
    pub fn new(description: &str) -> (r: Self)
        ensures
            r@ == description@,
    {
        ConsistencyError { description: description.to_owned() }
    }

    /// The description of the problem.
    pub fn description(&self) -> (r: &str)
        ensures
            r@ == self@,
    {
        self.description.as_str()
    }

    /// The description, with the name of the error before it.
    pub fn message(&self) -> (r: String)
        ensures
            r@ == "ConsistencyError: "@ + self@,
    {
        let mut r = String::from_str("ConsistencyError: ");
        r.append(self.description.as_str());
        r
    }
}

/// What can be wrong with a `Ply`.
pub enum Inconsistency {
    /// The payload has an entry under a name that the header does not declare.
    Undeclared(Seq<char>),
    /// An object information holds a line break.
    ObjInfoLineBreak(Seq<char>),
    /// A comment holds a line break.
    CommentLineBreak(Seq<char>),
    /// The name of an element holds a line break.
    ElementLineBreak(Seq<char>),
    /// The name of an element holds a space or a tab.
    ElementWhiteSpace(Seq<char>),
    /// The name of a property, the first field, holds a line break; the second
    /// field names its element.
    PropertyLineBreak(Seq<char>, Seq<char>),
    /// The name of a property, the first field, holds a space or a tab; the
    /// second field names its element.
    PropertyWhiteSpace(Seq<char>, Seq<char>),
}

impl Inconsistency {
    /// The description of the problem in words.
    pub open spec fn describe(self) -> Seq<char> {
        match self {
            Inconsistency::Undeclared(name) => "No declaration for element `"@ + name
                + "` found."@,
            Inconsistency::ObjInfoLineBreak(text) => "Object information `"@ + text
                + "` should not contain any line breaks."@,
            Inconsistency::CommentLineBreak(text) => "Comment `"@ + text
                + "` should not contain any line breaks."@,
            Inconsistency::ElementLineBreak(name) => "Name of element `"@ + name
                + "` should not contain any line breaks."@,
            Inconsistency::ElementWhiteSpace(name) => "Name of element `"@ + name
                + "` should not contain any white spaces."@,
            Inconsistency::PropertyLineBreak(name, element) => "Name of property `"@ + name
                + "` of element `"@ + element + "` should not contain any line breaks."@,
            Inconsistency::PropertyWhiteSpace(name, element) => "Name of property `"@ + name
                + "` of element `"@ + element + "` should not contain any white spaces."@,
        }
    }
}

/// The names of a list of element declarations.
pub open spec fn element_names(elements: Seq<ElementDefView>) -> Seq<Seq<char>> {
    elements.map_values(|e: ElementDefView| e.name)
}

/// `keys`, and after them each of `names` that `keys` lacks, once.
pub open spec fn filled(keys: Seq<Seq<char>>, names: Seq<Seq<char>>) -> Seq<Seq<char>>
    decreases names.len(),
{
    if names.len() == 0 {
        keys
    } else {
        let before = filled(keys, names.drop_last());
        if before.contains(names.last()) {
            before
        } else {
            before.push(names.last())
        }
    }
}

/// The position of the first entry of the payload, at or after `i`, whose
/// name is not declared; the number of entries if there is none.
pub open spec fn unmatched(names: Seq<Seq<char>>, keys: Seq<Seq<char>>, i: int) -> int
    decreases keys.len() - i,
{
    if 0 <= i < keys.len() && names.contains(keys[i]) {
        unmatched(names, keys, i + 1)
    } else {
        i
    }
}

/// The scan for an entry without a declaration ends at or before the end of
/// the entries.
pub proof fn lemma_unmatched(names: Seq<Seq<char>>, keys: Seq<Seq<char>>, i: int)
    requires
        0 <= i <= keys.len(),
    ensures
        i <= unmatched(names, keys, i) <= keys.len(),
    decreases keys.len() - i,
{
    if i < keys.len() && names.contains(keys[i]) {
        lemma_unmatched(names, keys, i + 1);
    }
}

/// The declarations once the first `limit` entries of the payload have given
/// them their counts: the first declaration of a name takes the length of the
/// entry under that name, every other declaration stays as it is.
pub open spec fn synced(
    elements: Seq<ElementDefView>,
    keys: Seq<Seq<char>>,
    lens: Seq<int>,
    limit: int,
) -> Seq<ElementDefView> {
    Seq::new(
        elements.len(),
        |j: int|
            match index_of(keys, elements[j].name) {
                Some(i) => if i < limit && index_of(element_names(elements), elements[j].name)
                    == Some(j) {
                    ElementDefView {
                        name: elements[j].name,
                        count: lens[i] as usize,
                        properties: elements[j].properties,
                    }
                } else {
                    elements[j]
                },
                None => elements[j],
            },
    )
}

/// The first text of `texts`, at or after position `i`, that holds a line
/// break.
pub open spec fn broken_text(texts: Seq<Seq<char>>, i: int) -> Option<Seq<char>>
    decreases texts.len() - i,
{
    if 0 <= i < texts.len() {
        if crate::text::has_line_break(texts[i]) {
            Some(texts[i])
        } else {
            broken_text(texts, i + 1)
        }
    } else {
        None
    }
}

/// What is wrong with the names of `properties`, from position `i` on, the
/// properties of the element called `element`.
pub open spec fn property_fault(properties: Seq<PropertyDefView>, element: Seq<char>, i: int)
    -> Option<Inconsistency>
    decreases properties.len() - i,
{
    if 0 <= i < properties.len() {
        if crate::text::has_line_break(properties[i].name) {
            Some(Inconsistency::PropertyLineBreak(properties[i].name, element))
        } else if has_blank(properties[i].name) {
            Some(Inconsistency::PropertyWhiteSpace(properties[i].name, element))
        } else {
            property_fault(properties, element, i + 1)
        }
    } else {
        None
    }
}

/// What is wrong with the names in `elements`, from position `i` on.
pub open spec fn element_fault(elements: Seq<ElementDefView>, i: int) -> Option<Inconsistency>
    decreases elements.len() - i,
{
    if 0 <= i < elements.len() {
        if crate::text::has_line_break(elements[i].name) {
            Some(Inconsistency::ElementLineBreak(elements[i].name))
        } else if has_blank(elements[i].name) {
            Some(Inconsistency::ElementWhiteSpace(elements[i].name))
        } else {
            match property_fault(elements[i].properties, elements[i].name, 0) {
                Some(f) => Some(f),
                None => element_fault(elements, i + 1),
            }
        }
    } else {
        None
    }
}

/// What is wrong with the texts of a header: the first object information
/// with a line break, else the first comment with one, else the first name
/// with a line break, a space or a tab.
pub open spec fn text_fault(header: HeaderView) -> Option<Inconsistency> {
    match broken_text(header.obj_infos, 0) {
        Some(t) => Some(Inconsistency::ObjInfoLineBreak(t)),
        None => match broken_text(header.comments, 0) {
            Some(t) => Some(Inconsistency::CommentLineBreak(t)),
            None => element_fault(header.elements, 0),
        },
    }
}

/// Whether no text of a header would break a line of the header apart: no
/// object information and no comment holds a line break, and no name of an
/// element or of a property holds a line break, a space or a tab.
pub open spec fn clean(header: HeaderView) -> bool {
    &&& forall|i: int|
        0 <= i < header.obj_infos.len() ==> !crate::text::has_line_break(
            #[trigger] header.obj_infos[i],
        )
    &&& forall|i: int|
        0 <= i < header.comments.len() ==> !crate::text::has_line_break(
            #[trigger] header.comments[i],
        )
    &&& forall|i: int|
        0 <= i < header.elements.len() ==> clean_name((#[trigger] header.elements[i]).name)
    &&& forall|i: int, j: int|
        0 <= i < header.elements.len() && 0 <= j < header.elements[i].properties.len()
            ==> clean_name((#[trigger] header.elements[i].properties[j]).name)
}

/// Whether a name holds no line break, no space and no tab.
pub open spec fn clean_name(name: Seq<char>) -> bool {
    !crate::text::has_line_break(name) && !has_blank(name)
}

/// No text from `i` on is found broken exactly when none holds a line break.
proof fn lemma_broken_text(texts: Seq<Seq<char>>, i: int)
    requires
        0 <= i <= texts.len(),
    ensures
        broken_text(texts, i) is None <==> forall|k: int|
            i <= k < texts.len() ==> !crate::text::has_line_break(#[trigger] texts[k]),
    decreases texts.len() - i,
{
    if i < texts.len() {
        lemma_broken_text(texts, i + 1);
    }
}

/// No name of a property from `i` on is found at fault exactly when all of
/// them are clean.
proof fn lemma_property_fault(properties: Seq<PropertyDefView>, element: Seq<char>, i: int)
    requires
        0 <= i <= properties.len(),
    ensures
        property_fault(properties, element, i) is None <==> forall|k: int|
            i <= k < properties.len() ==> clean_name((#[trigger] properties[k]).name),
    decreases properties.len() - i,
{
    if i < properties.len() {
        lemma_property_fault(properties, element, i + 1);
    }
}

/// No element from `i` on is found at fault exactly when its name and the
/// names of its properties are clean.
proof fn lemma_element_fault(elements: Seq<ElementDefView>, i: int)
    requires
        0 <= i <= elements.len(),
    ensures
        element_fault(elements, i) is None <==> forall|k: int|
            i <= k < elements.len() ==> clean_name((#[trigger] elements[k]).name) && forall|j: int|
                0 <= j < elements[k].properties.len() ==> clean_name(
                    (#[trigger] elements[k].properties[j]).name,
                ),
    decreases elements.len() - i,
{
    if i < elements.len() {
        lemma_element_fault(elements, i + 1);
        lemma_property_fault(elements[i].properties, elements[i].name, 0);
    }
}

/// The texts of a header are without fault exactly when the header is clean.
pub proof fn lemma_text_fault(header: HeaderView)
    ensures
        text_fault(header) is None <==> clean(header),
{
    lemma_broken_text(header.obj_infos, 0);
    lemma_broken_text(header.comments, 0);
    lemma_element_fault(header.elements, 0);
}

/// Filling keeps the entries that were there, in their places, and gives
/// every name an entry; an entry that was not there before comes after those
/// that were. No name comes to stand twice.
pub proof fn lemma_filled(keys: Seq<Seq<char>>, names: Seq<Seq<char>>)
    ensures
        keys.len() <= filled(keys, names).len(),
        filled(keys, names).take(keys.len() as int) == keys,
        forall|j: int| 0 <= j < names.len() ==> filled(keys, names).contains(#[trigger] names[j]),
        forall|i: int|
            keys.len() <= i < filled(keys, names).len() ==> names.contains(
                #[trigger] filled(keys, names)[i],
            ) && !keys.contains(filled(keys, names)[i]),
        distinct(keys) ==> distinct(filled(keys, names)),
    decreases names.len(),
{
    if names.len() == 0 {
        assert(keys.take(keys.len() as int) =~= keys);
    } else {
        let front = names.drop_last();
        let before = filled(keys, front);
        let all = filled(keys, names);
        lemma_filled(keys, front);
        assert(all.take(keys.len() as int) =~= before.take(keys.len() as int));
        assert forall|j: int| 0 <= j < names.len() implies all.contains(#[trigger] names[j]) by {
            if j < front.len() {
                assert(front[j] == names[j]);
                let w = choose|w: int| 0 <= w < before.len() && before[w] == front[j];
                assert(all[w] == names[j]);
            } else if before.contains(names.last()) {
            } else {
                assert(all[all.len() - 1] == names[j]);
            }
        }
        assert forall|i: int| keys.len() <= i < all.len() implies names.contains(#[trigger] all[i])
            && !keys.contains(all[i]) by {
            if i < before.len() {
                assert(all[i] == before[i]);
                let w = choose|w: int| 0 <= w < front.len() && front[w] == before[i];
                assert(names[w] == all[i]);
            } else {
                assert(all[i] == names[names.len() - 1]);
                if keys.contains(all[i]) {
                    let w = choose|w: int| 0 <= w < keys.len() && keys[w] == all[i];
                    assert(before.take(keys.len() as int)[w] == before[w]);
                    assert(before[w] == all[i]);
                }
            }
        }
        if distinct(keys) && !before.contains(names.last()) {
            assert forall|a: int, b: int| 0 <= a < b < all.len() implies all[a] != all[b] by {
                if b < before.len() {
                    assert(all[a] == before[a] && all[b] == before[b]);
                } else {
                    assert(all[a] == before[a]);
                }
            }
        }
    }
}

/// What is wrong with a header whose payload has entries under `keys`: the
/// first entry without a declaration, else what is wrong with the texts.
pub open spec fn fault(header: HeaderView, keys: Seq<Seq<char>>) -> Option<Inconsistency> {
    let stop = unmatched(element_names(header.elements), keys, 0);
    if stop < keys.len() {
        Some(Inconsistency::Undeclared(keys[stop]))
    } else {
        text_fault(header)
    }
}

/// The lengths of the lists of records.
pub open spec fn lengths<E>(values: Seq<Vec<E>>) -> Seq<int> {
    values.map_values(|v: Vec<E>| v@.len() as int)
}

/// Whether `s` holds a space or a tab.
pub fn has_white_space(s: &str) -> (r: bool)
    ensures
        r == has_blank(s@),
{
    let chars = chars_of(s);
    let mut i: usize = 0;
    while i < chars.len() && !blank(chars[i])
        invariant
            i <= chars@.len(),
            forall|k: int| 0 <= k < i ==> !crate::text::is_blank(#[trigger] chars@[k]),
        decreases chars@.len() - i,
    {
        i += 1;
    }
    i < chars.len()
}

/// Whether `s` holds a line feed or a carriage return.
pub fn has_line_break(s: &str) -> (r: bool)
    ensures
        r == crate::text::has_line_break(s@),
{
    let chars = chars_of(s);
    crate::text::find_line_break(&chars) < chars.len()
}

/// Whether two texts hold the same characters.
pub fn same_text(a: &str, b: &str) -> (r: bool)
    ensures
        r == (a@ == b@),
{
    let x = chars_of(a);
    let y = chars_of(b);
    if x.len() != y.len() {
        return false;
    }
    let mut i: usize = 0;
    while i < x.len() && x[i] == y[i]
        invariant
            i <= x@.len(),
            x@.len() == y@.len(),
            forall|k: int| 0 <= k < i ==> x@[k] == y@[k],
        decreases x@.len() - i,
    {
        i += 1;
    }
    if i < x.len() {
        false
    } else {
        assert(x@ =~= y@);
        true
    }
}

/// The error for what `before`, `name` and `after` spell in a row.
fn quoting(before: &str, name: &str, after: &str) -> (r: ConsistencyError)
    ensures
        r@ == before@ + name@ + after@,
{
    let mut description = String::from_str(before);
    description.append(name);
    description.append(after);
    ConsistencyError { description }
}

/// The error for the name of a property.
fn quoting_property(name: &str, element: &str, after: &str) -> (r: ConsistencyError)
    ensures
        r@ == "Name of property `"@ + name@ + "` of element `"@ + element@ + after@,
{
    let mut description = String::from_str("Name of property `");
    description.append(name);
    description.append("` of element `");
    description.append(element);
    description.append(after);
    ConsistencyError { description }
}

/// What the outcome of a check stands for in contracts.
pub open spec fn verdict(r: Result<(), ConsistencyError>) -> Option<Seq<char>> {
    match r {
        Ok(_) => None,
        Err(e) => Some(e@),
    }
}

/// What a fault is reported as.
pub open spec fn report(f: Option<Inconsistency>) -> Option<Seq<char>> {
    match f {
        Some(i) => Some(i.describe()),
        None => None,
    }
}

/// Looks for a line break in `texts`.
fn check_texts(texts: &Vec<String>) -> (r: Option<usize>)
    ensures
        match r {
            Some(i) => i < texts@.len() && broken_text(super::text_views(texts@), 0) == Some(
                texts@[i as int]@,
            ),
            None => broken_text(super::text_views(texts@), 0) is None,
        },
{
    let ghost views = super::text_views(texts@);
    let mut i: usize = 0;
    while i < texts.len() && !has_line_break(texts[i].as_str())
        invariant
            i <= texts@.len(),
            views == super::text_views(texts@),
            broken_text(views, 0) == broken_text(views, i as int),
        decreases texts@.len() - i,
    {
        assert(views[i as int] == texts@[i as int]@);
        i += 1;
    }
    if i < texts.len() {
        assert(views[i as int] == texts@[i as int]@);
        Some(i)
    } else {
        None
    }
}

/// Checks the names of the properties of `element`.
fn check_properties(element: &ElementDef) -> (r: Result<(), ConsistencyError>)
    ensures
        verdict(r) == report(property_fault(element@.properties, element@.name, 0)),
{
    let ghost views = element@.properties;
    let mut i: usize = 0;
    while i < element.properties.len()
        invariant
            i <= element.properties@.len(),
            views == element@.properties,
            property_fault(views, element@.name, 0) == property_fault(
                views,
                element@.name,
                i as int,
            ),
        decreases element.properties@.len() - i,
    {
        let name = element.properties[i].name.as_str();
        assert(views[i as int] == element.properties@[i as int]@);
        if has_line_break(name) {
            return Err(
                quoting_property(
                    name,
                    element.name.as_str(),
                    "` should not contain any line breaks.",
                ),
            );
        }
        if has_white_space(name) {
            return Err(
                quoting_property(
                    name,
                    element.name.as_str(),
                    "` should not contain any white spaces.",
                ),
            );
        }
        i += 1;
    }
    Ok(())
}

/// Checks the names of `elements` and of their properties.
fn check_elements(elements: &Vec<ElementDef>) -> (r: Result<(), ConsistencyError>)
    ensures
        verdict(r) == report(element_fault(super::element_views(elements@), 0)),
{
    let ghost views = super::element_views(elements@);
    let mut i: usize = 0;
    while i < elements.len()
        invariant
            i <= elements@.len(),
            views == super::element_views(elements@),
            element_fault(views, 0) == element_fault(views, i as int),
        decreases elements@.len() - i,
    {
        let name = elements[i].name.as_str();
        assert(views[i as int] == elements@[i as int]@);
        if has_line_break(name) {
            return Err(
                quoting("Name of element `", name, "` should not contain any line breaks."),
            );
        }
        if has_white_space(name) {
            return Err(
                quoting("Name of element `", name, "` should not contain any white spaces."),
            );
        }
        match check_properties(&elements[i]) {
            Err(e) => {
                return Err(e);
            },
            Ok(_) => {},
        }
        i += 1;
    }
    Ok(())
}

/// Checks the texts of a header.
fn check_header(header: &super::Header) -> (r: Result<(), ConsistencyError>)
    ensures
        verdict(r) == report(text_fault(header@)),
{
    match check_texts(&header.obj_infos) {
        Some(i) => {
            return Err(
                quoting(
                    "Object information `",
                    header.obj_infos[i].as_str(),
                    "` should not contain any line breaks.",
                ),
            );
        },
        None => {},
    }
    match check_texts(&header.comments) {
        Some(i) => {
            return Err(
                quoting(
                    "Comment `",
                    header.comments[i].as_str(),
                    "` should not contain any line breaks.",
                ),
            );
        },
        None => {},
    }
    check_elements(&header.elements)
}

/// The position of the first of `elements` that is called `name`.
fn find_element(elements: &Vec<ElementDef>, name: &str) -> (r: Option<usize>)
    ensures
        match r {
            Some(j) => j < elements@.len() && index_of(
                element_names(super::element_views(elements@)),
                name@,
            ) == Some(j as int),
            None => index_of(element_names(super::element_views(elements@)), name@) is None,
        },
{
    let ghost names = element_names(super::element_views(elements@));
    proof {
        lemma_index_of(names, name@);
    }
    let mut j: usize = 0;
    while j < elements.len() && !same_text(elements[j].name.as_str(), name)
        invariant
            j <= elements@.len(),
            names == element_names(super::element_views(elements@)),
            forall|k: int| 0 <= k < j ==> names[k] != name@,
        decreases elements@.len() - j,
    {
        assert(names[j as int] == elements@[j as int]@.name);
        j += 1;
    }
    if j < elements.len() {
        assert(names[j as int] == elements@[j as int]@.name);
        Some(j)
    } else {
        None
    }
}

/// Giving the declarations their counts changes no name and no property.
pub proof fn lemma_synced_keeps_names(
    elements: Seq<ElementDefView>,
    keys: Seq<Seq<char>>,
    lens: Seq<int>,
    limit: int,
)
    ensures
        synced(elements, keys, lens, limit).len() == elements.len(),
        forall|j: int|
            0 <= j < elements.len() ==> (#[trigger] synced(elements, keys, lens, limit)[j]).name
                == elements[j].name && synced(elements, keys, lens, limit)[j].properties
                == elements[j].properties,
        element_names(synced(elements, keys, lens, limit)) == element_names(elements),
{
    assert(element_names(synced(elements, keys, lens, limit)) =~= element_names(elements));
}

/// Giving the declarations their counts leaves a header as clean as it was.
proof fn lemma_clean_synced(header: HeaderView, keys: Seq<Seq<char>>, lens: Seq<int>)
    ensures
        forall|limit: int|
            clean(
                HeaderView {
                    elements: #[trigger] synced(header.elements, keys, lens, limit),
                    ..header
                },
            ) == clean(header),
{
    assert forall|limit: int|
        clean(
            HeaderView { elements: #[trigger] synced(header.elements, keys, lens, limit), ..header },
        ) == clean(header) by {
        let s = synced(header.elements, keys, lens, limit);
        let h = HeaderView { elements: s, ..header };
        lemma_synced_keeps_names(header.elements, keys, lens, limit);
        if clean(header) {
            assert forall|i: int| 0 <= i < s.len() implies clean_name((#[trigger] s[i]).name) by {
                assert(clean_name(header.elements[i].name));
            }
            assert forall|i: int, j: int|
                0 <= i < s.len() && 0 <= j < s[i].properties.len() implies clean_name(
                (#[trigger] s[i].properties[j]).name,
            ) by {
                assert(s[i].properties == header.elements[i].properties);
                assert(clean_name(header.elements[i].properties[j].name));
            }
            assert(clean(h));
        }
        if clean(h) {
            assert forall|i: int| 0 <= i < header.elements.len() implies clean_name(
                (#[trigger] header.elements[i]).name,
            ) by {
                assert(clean_name(s[i].name));
            }
            assert forall|i: int, j: int|
                0 <= i < header.elements.len() && 0 <= j < header.elements[i].properties.len()
                implies clean_name((#[trigger] header.elements[i].properties[j]).name) by {
                assert(s[i].properties == header.elements[i].properties);
                assert(clean_name(s[i].properties[j].name));
            }
            assert(clean(header));
        }
    }
}

/// Where every name has an entry, filling adds none.
pub proof fn lemma_filled_full(keys: Seq<Seq<char>>, names: Seq<Seq<char>>)
    requires
        forall|j: int| 0 <= j < names.len() ==> keys.contains(#[trigger] names[j]),
    ensures
        filled(keys, names) == keys,
    decreases names.len(),
{
    if names.len() > 0 {
        let front = names.drop_last();
        assert forall|j: int| 0 <= j < front.len() implies keys.contains(#[trigger] front[j]) by {
            assert(front[j] == names[j]);
        }
        lemma_filled_full(keys, front);
        assert(keys.contains(names[names.len() - 1]));
    }
}

/// A second pass changes nothing. After a pass every declared element has an
/// entry, so the second pass has no entry to add; and it gives every
/// declaration the count that the first pass gave it.
pub proof fn lemma_second_pass(
    elements: Seq<ElementDefView>,
    keys: Seq<Seq<char>>,
    lens: Seq<int>,
    limit: int,
)
    requires
        forall|j: int| 0 <= j < elements.len() ==> keys.contains((#[trigger] elements[j]).name),
    ensures
        filled(keys, element_names(elements)) == keys,
        synced(synced(elements, keys, lens, limit), keys, lens, limit) == synced(
            elements,
            keys,
            lens,
            limit,
        ),
{
    let names = element_names(elements);
    assert forall|j: int| 0 <= j < names.len() implies keys.contains(#[trigger] names[j]) by {
        assert(names[j] == elements[j].name);
    }
    lemma_filled_full(keys, names);
    let once = synced(elements, keys, lens, limit);
    lemma_synced_keeps_names(elements, keys, lens, limit);
    assert(synced(once, keys, lens, limit) =~= once);
}

/// Where the scan for an entry without a declaration reaches the end, every
/// entry from `i` on has a name that is declared.
pub proof fn lemma_all_matched(names: Seq<Seq<char>>, keys: Seq<Seq<char>>, i: int)
    requires
        0 <= i <= keys.len(),
        unmatched(names, keys, i) == keys.len(),
    ensures
        forall|k: int| i <= k < keys.len() ==> names.contains(#[trigger] keys[k]),
    decreases keys.len() - i,
{
    if i < keys.len() {
        lemma_unmatched(names, keys, i + 1);
        lemma_all_matched(names, keys, i + 1);
    }
}

impl<E: PropertyAccess> Ply<E> {
    /// Makes the header and the payload agree, and checks the texts of the
    /// header.
    ///
    /// First every declared element that the payload lacks gets an empty list
    /// of records. Then the entries of the payload are gone through in order:
    /// each must have a name that the header declares, and the first
    /// declaration of that name takes the number of its records. Then the
    /// texts are checked: no object information and no comment may hold a line
    /// break, and no name a line break, a space or a tab. At the first fault
    /// the work stops, and what was done up to there stays done.
    pub fn make_consistent(&mut self) -> (r: Result<(), ConsistencyError>)
        ensures
            final(self).payload.keys() == filled(
                old(self).payload.keys(),
                element_names(old(self).header@.elements),
            ),
            final(self).payload.values().len() == final(self).payload.keys().len(),
            forall|i: int|
                0 <= i < old(self).payload.values().len() ==> final(self).payload.values()[i]
                    == old(self).payload.values()[i],
            forall|i: int|
                old(self).payload.values().len() <= i < final(self).payload.values().len()
                    ==> (#[trigger] final(self).payload.values()[i])@.len() == 0,
            final(self).header@ == (HeaderView {
                elements: synced(
                    old(self).header@.elements,
                    final(self).payload.keys(),
                    lengths(final(self).payload.values()),
                    unmatched(
                        element_names(old(self).header@.elements),
                        final(self).payload.keys(),
                        0,
                    ),
                ),
                ..old(self).header@
            }),
            verdict(r) == report(fault(final(self).header@, final(self).payload.keys())),
            // every declared element has an entry in the end, and an entry
            // that was missing is empty
            forall|j: int|
                0 <= j < old(self).header@.elements.len() ==> {
                    let name = (#[trigger] old(self).header@.elements[j]).name;
                    match index_of(final(self).payload.keys(), name) {
                        Some(i) => old(self).payload.keys().contains(name)
                            || final(self).payload.values()[i]@.len() == 0,
                        None => false,
                    }
                },
            // after a pass without fault, the first declaration of every name
            // counts the records under that name
            r is Ok ==> forall|j: int|
                0 <= j < final(self).header@.elements.len() && index_of(
                    element_names(final(self).header@.elements),
                    final(self).header@.elements[j].name,
                ) == Some(j) ==> {
                    let e = #[trigger] final(self).header@.elements[j];
                    match index_of(final(self).payload.keys(), e.name) {
                        Some(i) => e.count == final(self).payload.values()[i]@.len(),
                        None => false,
                    }
                },
            // a header that is not clean makes the pass fail
            r is Ok ==> clean(final(self).header@),
            clean(final(self).header@) == clean(old(self).header@),
    {
        let ghost names = element_names(self.header@.elements);
        let ghost old_keys = self.payload.keys();
        let ghost old_values = self.payload.values();
        let ghost old_elements = self.header@.elements;
        proof {
            self.payload.lemma_wf();
        }
        let n = self.header.elements.len();
        let mut i: usize = 0;
        assert(names.take(0) =~= Seq::<Seq<char>>::empty());
        while i < n
            invariant
                i <= n,
                n == self.header.elements@.len(),
                self.header == old(self).header,
                names == element_names(self.header@.elements),
                self.payload.keys() == filled(old_keys, names.take(i as int)),
                self.payload.values().len() == self.payload.keys().len(),
                old_values.len() <= self.payload.values().len(),
                forall|k: int| 0 <= k < old_values.len() ==> self.payload.values()[k] == old_values[k],
                forall|k: int|
                    old_values.len() <= k < self.payload.values().len() ==> (
                    #[trigger] self.payload.values()[k])@.len() == 0,
            decreases n - i,
        {
            let name = self.header.elements[i].name.as_str();
            proof {
                assert(names[i as int] == self.header.elements@[i as int]@.name);
                assert(names.take(i + 1).drop_last() =~= names.take(i as int));
                assert(names.take(i + 1).last() == name@);
                lemma_index_of(self.payload.keys(), name@);
            }
            if !self.payload.contains_key(name) {
                self.payload.insert(name.to_owned(), Vec::new());
                proof {
                    self.payload.lemma_wf();
                }
            }
            i += 1;
        }
        assert(names.take(n as int) =~= names);

        let ghost keys = self.payload.keys();
        proof {
            lemma_filled(old_keys, names);
            lemma_clean_synced(self.header@, keys, lengths(self.payload.values()));
            assert forall|j: int| 0 <= j < old_elements.len() implies match index_of(
                keys,
                (#[trigger] old_elements[j]).name,
            ) {
                Some(i) => old_keys.contains(old_elements[j].name) || self.payload.values()[i]@.len()
                    == 0,
                None => false,
            } by {
                let name = old_elements[j].name;
                assert(names[j] == name);
                lemma_index_of(keys, name);
                let i = index_of(keys, name).unwrap();
                if i < old_keys.len() {
                    assert(keys.take(old_keys.len() as int)[i] == keys[i]);
                    assert(old_keys[i] == name);
                }
            }
        }
        let ghost values = self.payload.values();
        let ghost lens = lengths(values);
        let m = self.payload.len();
        proof {
            self.payload.lemma_wf();
            assert(old_elements =~= synced(old_elements, keys, lens, 0)) by {
                assert forall|j: int| 0 <= j < old_elements.len() implies old_elements[j]
                    == synced(old_elements, keys, lens, 0)[j] by {
                    lemma_index_of(keys, old_elements[j].name);
                }
            }
        }
        let mut i: usize = 0;
        while i < m
            invariant
                i <= m,
                m == keys.len(),
                self.payload.wf(),
                self.payload.keys() == keys,
                self.payload.values() == values,
                values.len() == keys.len(),
                lens == lengths(values),
                distinct(keys),
                names == element_names(old_elements),
                old_elements == old(self).header@.elements,
                keys == filled(old(self).payload.keys(), names),
                old_values == old(self).payload.values(),
                old_values.len() <= values.len(),
                forall|j: int|
                    0 <= j < old_elements.len() ==> match index_of(
                        keys,
                        (#[trigger] old_elements[j]).name,
                    ) {
                        Some(i) => old(self).payload.keys().contains(old_elements[j].name)
                            || values[i]@.len() == 0,
                        None => false,
                    },
                forall|limit: int|
                    clean(
                        HeaderView {
                            elements: #[trigger] synced(old_elements, keys, lens, limit),
                            ..old(self).header@
                        },
                    ) == clean(old(self).header@),
                forall|k: int| 0 <= k < old_values.len() ==> values[k] == old_values[k],
                forall|k: int|
                    old_values.len() <= k < values.len() ==> (#[trigger] values[k])@.len() == 0,
                forall|k: int| 0 <= k < i ==> (#[trigger] values[k])@.len() <= usize::MAX,
                self.header@ == (HeaderView {
                    elements: synced(old_elements, keys, lens, i as int),
                    ..old(self).header@
                }),
                unmatched(names, keys, 0) == unmatched(names, keys, i as int),
            decreases m - i,
        {
            let key = self.payload.key_at(i);
            let len = self.payload.value_at(i).len();
            let ghost current = self.header@.elements;
            proof {
                assert(element_names(current) =~= names);
                lemma_index_of(names, key@);
                lemma_index_of(keys, key@);
            }
            match find_element(&self.header.elements, key) {
                None => {
                    return Err(quoting("No declaration for element `", key, "` found."));
                },
                Some(j) => {
                    let mut e = self.header.elements[j].clone();
                    e.count = len;
                    self.header.elements.set(j, e);
                    proof {
                        let next = synced(old_elements, keys, lens, i + 1);
                        let now = self.header@.elements;
                        assert(now.len() == next.len());
                        assert forall|k: int| 0 <= k < next.len() implies now[k] == next[k] by {
                            lemma_index_of(keys, old_elements[k].name);
                            assert(names[k] == old_elements[k].name);
                            assert(names[j as int] == old_elements[j as int].name);
                            if k == j {
                                assert(lens[i as int] == len);
                            } else {
                                assert(now[k] == current[k]);
                            }
                        }
                        assert(now =~= next);
                    }
                },
            }
            i += 1;
        }
        proof {
            assert(element_names(self.header@.elements) =~= names);
            lemma_unmatched(names, keys, m as int);
            lemma_text_fault(self.header@);
            lemma_synced_keeps_names(old_elements, keys, lens, m as int);
            lemma_all_matched(names, keys, 0);
            let now = self.header@.elements;
            assert forall|j: int|
                0 <= j < now.len() && index_of(element_names(now), now[j].name) == Some(
                    j,
                ) implies match index_of(keys, (#[trigger] now[j]).name) {
                Some(i) => now[j].count == values[i]@.len(),
                None => false,
            } by {
                let name = old_elements[j].name;
                lemma_index_of(keys, name);
                assert(names[j] == name);
                assert(now[j].name == name);
                assert(element_names(now) == names);
                let i = index_of(keys, name).unwrap();
                assert(0 <= i < m);
                assert(lens[i] == values[i]@.len());
                assert(now[j] == synced(old_elements, keys, lens, m as int)[j]);
            }
        }
        check_header(&self.header)
    }
}

} // verus!
