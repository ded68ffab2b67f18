use ply_rs::parser::Parser;
use ply_rs::ply::{DefaultElement, ElementDef, KeyMap, Property, PropertyDef, PropertyType, ScalarType};
use ply_rs::util::LocationTracker;

#[test]
fn location_counts_lines() {
    let mut l = LocationTracker::new();
    assert_eq!(l.line_index, 0);
    l.next_line();
    l.next_line();
    assert_eq!(l.line_index, 2);
    l.line_index = usize::MAX;
    l.next_line();
    assert_eq!(l.line_index, usize::MAX);
}

#[test]
fn key_map_keeps_the_order_of_first_insertion() {
    let mut m: KeyMap<u8> = KeyMap::new();
    assert!(m.is_empty());
    m.insert("b".to_string(), 1);
    m.insert("a".to_string(), 2);
    m.insert("b".to_string(), 3);
    assert_eq!(m.len(), 2);
    assert_eq!(m.key_at(0), "b");
    assert_eq!(m.key_at(1), "a");
    assert_eq!(*m.value_at(0), 3);
    assert_eq!(m.get("a"), Some(&2));
    assert_eq!(m.get("c"), None);
    assert_eq!(m.position("a"), Some(1));
    assert!(m.contains_key("b"));
    assert!(!m.contains_key(""));
    let c = m.clone();
    assert_eq!(c, m);
}

#[test]
fn widths_of_the_scalar_types() {
    let widths: Vec<usize> = [
        ScalarType::Char,
        ScalarType::UChar,
        ScalarType::Short,
        ScalarType::UShort,
        ScalarType::Int,
        ScalarType::UInt,
        ScalarType::Float,
        ScalarType::Double,
    ]
    .iter()
    .map(|t| t.byte_width())
    .collect();
    assert_eq!(widths, vec![1, 1, 2, 2, 4, 4, 4, 8]);
}

#[test]
fn parser_by_default() {
    let p: Parser<DefaultElement> = Default::default();
    let mut def = ElementDef::new("v");
    def.properties = vec![PropertyDef::new("x", PropertyType::Scalar(ScalarType::Int))];
    let e = p.read_ascii_element("034", &def).unwrap();
    assert_eq!(e.get("x"), Some(&Property::Int(34)));
    let m: KeyMap<u8> = KeyMap::default();
    assert!(m.is_empty());
}
