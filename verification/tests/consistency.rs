use ply_rs::ply::{DefaultElement, ElementDef, Ply, PropertyDef, PropertyType, ScalarType};

#[test]
fn consistent_new_line_fail_comment() {
    let mut p = Ply::<DefaultElement>::new();
    p.header.comments.push("a beautiful\r\nnew line!".to_string());
    let r = p.make_consistent();
    assert!(r.is_err());
}

#[test]
fn consistent_new_line_fail_obj_infos() {
    let mut p = Ply::<DefaultElement>::new();
    p.header.obj_infos.push("some\r\nnew line!".to_string());
    let r = p.make_consistent();
    assert!(r.is_err());
}

#[test]
fn consistent_new_line_fail_element() {
    let mut p = Ply::<DefaultElement>::new();
    p.header.elements.push(ElementDef::new("new\nline"));
    let r = p.make_consistent();
    assert!(r.is_err());
}

#[test]
fn consistent_new_line_fail_property() {
    let mut p = Ply::<DefaultElement>::new();
    let mut e = ElementDef::new("ok");
    e.properties.push(PropertyDef::new(
        "prop\nwith new line",
        PropertyType::Scalar(ScalarType::Char),
    ));
    p.header.elements.push(e);
    let r = p.make_consistent();
    assert!(r.is_err());
}

#[test]
fn consistent_white_space_fail_element() {
    let mut p = Ply::<DefaultElement>::new();
    p.header.elements.push(ElementDef::new("white space"));
    let r = p.make_consistent();
    assert!(r.is_err());
}

#[test]
fn consistent_white_space_fail_property() {
    let mut p = Ply::<DefaultElement>::new();
    let mut e = ElementDef::new("ok");
    e.properties.push(PropertyDef::new(
        "prop\twhite space",
        PropertyType::Scalar(ScalarType::Char),
    ));
    p.header.elements.push(e);
    let r = p.make_consistent();
    assert!(r.is_err());
}

#[test]
fn consistent_fills_and_counts() {
    let mut p = Ply::<DefaultElement>::new();
    p.header.elements.push(ElementDef::new("vertex"));
    let mut face = ElementDef::new("face");
    face.count = 17;
    p.header.elements.push(face);
    p.payload.insert("face".to_string(), vec![DefaultElement::new(), DefaultElement::new()]);
    assert!(p.make_consistent().is_ok());
    assert_eq!(p.payload.len(), 2);
    assert_eq!(p.payload.key_at(0), "face");
    assert_eq!(p.payload.key_at(1), "vertex");
    assert!(p.payload.get("vertex").unwrap().is_empty());
    assert_eq!(p.payload.get("face").unwrap().len(), 2);
    assert_eq!(p.header.elements[0].count, 0);
    assert_eq!(p.header.elements[1].count, 2);
    // a second pass changes nothing
    let h = format!("{:?}", p);
    assert!(p.make_consistent().is_ok());
    assert_eq!(h, format!("{:?}", p));
}

#[test]
fn consistent_needs_a_declaration_for_every_entry() {
    let mut p = Ply::<DefaultElement>::new();
    p.header.elements.push(ElementDef::new("vertex"));
    p.payload.insert("vertex".to_string(), vec![DefaultElement::new()]);
    p.payload.insert("edge".to_string(), vec![]);
    p.payload.insert("face".to_string(), vec![]);
    let e = p.make_consistent().unwrap_err();
    assert_eq!(e.description(), "No declaration for element `edge` found.");
    assert_eq!(e.message(), "ConsistencyError: No declaration for element `edge` found.");
    // the entry before the fault has given its count
    assert_eq!(p.header.elements[0].count, 1);
    let mut p = Ply::<DefaultElement>::new();
    p.payload.insert(String::new(), vec![]);
    let e = p.make_consistent().unwrap_err();
    assert_eq!(e.description(), "No declaration for element `` found.");
}

#[test]
fn consistent_with_an_empty_name() {
    let mut p = Ply::<DefaultElement>::new();
    p.header.elements.push(ElementDef::new(""));
    assert!(p.make_consistent().is_ok());
    assert_eq!(p.payload.len(), 1);
    assert_eq!(p.payload.key_at(0), "");
    let mut p = Ply::<DefaultElement>::new();
    let mut e = ElementDef::new("");
    e.properties.push(PropertyDef::new("", PropertyType::Scalar(ScalarType::Int)));
    e.count = 4;
    p.header.elements.push(e);
    p.payload.insert(String::new(), vec![DefaultElement::new(), DefaultElement::new()]);
    assert!(p.make_consistent().is_ok());
    assert_eq!(p.header.elements[0].count, 2);
}

#[test]
fn consistent_counts_the_first_declaration_of_a_name() {
    let mut p = Ply::<DefaultElement>::new();
    let mut a = ElementDef::new("a");
    a.count = 5;
    let mut b = ElementDef::new("a");
    b.count = 9;
    p.header.elements.push(a);
    p.header.elements.push(b);
    p.payload.insert("a".to_string(), vec![DefaultElement::new()]);
    assert!(p.make_consistent().is_ok());
    assert_eq!(p.header.elements[0].count, 1);
    assert_eq!(p.header.elements[1].count, 9);
}

#[test]
fn consistent_messages() {
    let fails = |p: &mut Ply<DefaultElement>| p.make_consistent().unwrap_err().description().to_string();
    let mut p = Ply::<DefaultElement>::new();
    p.header.obj_infos.push("fine".to_string());
    p.header.obj_infos.push("a\rb".to_string());
    p.header.comments.push("c\nd".to_string());
    assert_eq!(fails(&mut p), "Object information `a\rb` should not contain any line breaks.");
    p.header.obj_infos.pop();
    assert_eq!(fails(&mut p), "Comment `c\nd` should not contain any line breaks.");
    p.header.comments.pop();
    p.header.comments.push("spaces and\ttabs are fine here".to_string());
    assert!(p.make_consistent().is_ok());
    let mut e = ElementDef::new("elem");
    e.properties.push(PropertyDef::new("good", PropertyType::Scalar(ScalarType::Char)));
    e.properties.push(PropertyDef::new("b d", PropertyType::Scalar(ScalarType::Char)));
    e.properties.push(PropertyDef::new("b\nd", PropertyType::Scalar(ScalarType::Char)));
    p.header.elements.push(e);
    p.header.elements.push(ElementDef::new("x\ry"));
    assert_eq!(fails(&mut p), "Name of property `b d` of element `elem` should not contain any white spaces.");
    p.header.elements[0].properties.remove(1);
    assert_eq!(fails(&mut p), "Name of property `b\nd` of element `elem` should not contain any line breaks.");
    p.header.elements[0].properties.remove(1);
    assert_eq!(fails(&mut p), "Name of element `x\ry` should not contain any line breaks.");
    // the failing passes have filled the payload all the same
    assert_eq!(p.payload.len(), 2);
    assert_eq!(p.payload.key_at(1), "x\ry");
    let mut p = Ply::<DefaultElement>::new();
    p.header.elements.push(ElementDef::new("x\ty"));
    assert_eq!(fails(&mut p), "Name of element `x\ty` should not contain any white spaces.");
    let mut p = Ply::<DefaultElement>::new();
    p.header.elements.push(ElementDef::new("xy"));
    assert!(p.make_consistent().is_ok());
}
