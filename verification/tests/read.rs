use ply_rs::parser::ascii::{read_ascii_list, read_ascii_property};
use ply_rs::parser::{Expected, Fault, HeaderAssembler, Parser, ParseError, Source, SyntaxError};
use ply_rs::ply::{
    DefaultElement, ElementDef, Encoding, Header, Ply, Property, PropertyDef, PropertyType, Real32,
    Real64, ScalarType, Version,
};

fn source(text: &str) -> Source {
    Source::new(text.as_bytes().to_vec())
}

fn element(name: &str, count: usize, properties: Vec<PropertyDef>) -> ElementDef {
    let mut e = ElementDef::new(name);
    e.count = count;
    e.properties = properties;
    e
}

fn scalar(name: &str, t: ScalarType) -> PropertyDef {
    PropertyDef::new(name, PropertyType::Scalar(t))
}

fn list(name: &str, index: ScalarType, t: ScalarType) -> PropertyDef {
    PropertyDef::new(name, PropertyType::List(index, t))
}

#[test]
fn read_property_ok() {
    let p = Parser::<DefaultElement>::new();
    let txt = "0 1 2 3";
    let props = vec![
        PropertyDef::new("a", PropertyType::Scalar(ScalarType::Char)),
        PropertyDef::new("b", PropertyType::Scalar(ScalarType::UChar)),
        PropertyDef::new("c", PropertyType::Scalar(ScalarType::Short)),
        PropertyDef::new("d", PropertyType::Scalar(ScalarType::UShort)),
    ];
    let mut elem_def = ElementDef::new("dummy");
    elem_def.properties = props;

    let properties = p.read_ascii_element(txt, &elem_def);
    assert!(properties.is_ok(), "error: {:?}", properties);
    let properties = properties.unwrap();
    assert_eq!(properties.get("a"), Some(&Property::Char(0)));
    assert_eq!(properties.get("b"), Some(&Property::UChar(1)));
    assert_eq!(properties.get("c"), Some(&Property::Short(2)));
    assert_eq!(properties.get("d"), Some(&Property::UShort(3)));
    assert_eq!(properties.len(), 4);
}

#[test]
fn header_alone() {
    let p = Parser::<DefaultElement>::new();
    let mut bytes = source("ply\nformat ascii 1.0\nend_header\n");
    let header = p.read_header(&mut bytes).unwrap();
    assert_eq!(header, Header::new());
    assert_eq!(bytes.remaining(), 0);
}

#[test]
fn header_with_elements() {
    let p = Parser::<DefaultElement>::new();
    let txt = "ply\n\
        format ascii 1.0\n\
        element vertex 8\n\
        property float x\n\
        property float y\n\
        element face 6\n\
        property list uchar int vertex_index\n\
        end_header\n";
    let header = p.read_header(&mut source(txt)).unwrap();
    assert_eq!(header.encoding, Encoding::Ascii);
    assert_eq!(header.version, Version { major: 1, minor: 0 });
    assert_eq!(
        header.elements,
        vec![
            element(
                "vertex",
                8,
                vec![scalar("x", ScalarType::Float), scalar("y", ScalarType::Float)]
            ),
            element(
                "face",
                6,
                vec![list("vertex_index", ScalarType::UChar, ScalarType::Int)]
            ),
        ]
    );
}

#[test]
fn header_leaves_the_payload_unread() {
    let p = Parser::<DefaultElement>::new();
    let txt = "ply\n\
        format ascii 1.0\n\
        element vertex 1\n\
        property float x\n\
        end_header\n
        6.28318530718"; // no newline at end!
    let mut bytes = source(txt);
    assert!(p.read_header(&mut bytes).is_ok());
    assert_eq!(bytes.remaining(), "\n        6.28318530718".len());
}

#[test]
fn header_keeps_order_and_folds_repeated_properties() {
    let p = Parser::<DefaultElement>::new();
    let txt = "ply\n\
        comment first\n\
        format binary_big_endian 2.1\n\
        obj_info one\n\
        element a 1\n\
        property int x\n\
        property float x\n\
        property int y\n\
        comment second\n\
        format binary_big_endian 2.1\n\
        obj_info two\n\
        element b 0\n\
        end_header\n";
    let header = p.read_header(&mut source(txt)).unwrap();
    assert_eq!(header.encoding, Encoding::BinaryBigEndian);
    assert_eq!(header.version, Version { major: 2, minor: 1 });
    assert_eq!(header.comments, vec!["first", "second"]);
    assert_eq!(header.obj_infos, vec!["one", "two"]);
    assert_eq!(
        header.elements,
        vec![
            element("a", 1, vec![scalar("x", ScalarType::Int), scalar("y", ScalarType::Int)]),
            element("b", 0, vec![]),
        ]
    );
}

fn header_error(txt: &str) -> ParseError {
    Parser::<DefaultElement>::new().read_header(&mut source(txt)).unwrap_err()
}

#[test]
fn header_must_start_with_the_magic_number() {
    let e = header_error("format ascii 1.0\nply\nend_header\n");
    assert_eq!(e.fault, Fault::ExpectedMagicNumber);
    assert_eq!(e.line_index, 1);
    assert_eq!(e.text, "format ascii 1.0\n");
    let e = header_error("plyy\nformat ascii 1.0\nend_header\n");
    assert_eq!(e.fault, Fault::ExpectedMagicNumber);
    let e = header_error("\nply\nformat ascii 1.0\nend_header\n");
    assert_eq!(e.fault, Fault::ExpectedMagicNumber);
}

#[test]
fn header_of_nothing_is_an_early_end() {
    let e = header_error("");
    assert_eq!(e.fault, Fault::UnexpectedEof(1));
    assert_eq!(e.line_index, 1);
    let e = header_error("ply\nformat ascii 1.0\n");
    assert_eq!(e.fault, Fault::UnexpectedEof(1));
    assert_eq!(e.line_index, 3);
}

#[test]
fn header_with_contradicting_formats() {
    let e = header_error("ply\nformat ascii 1.0\nformat binary_little_endian 1.0\nend_header\n");
    assert_eq!(
        e.fault,
        Fault::ContradictingFormat(
            Encoding::BinaryLittleEndian,
            Version { major: 1, minor: 0 },
            Encoding::Ascii,
            Version { major: 1, minor: 0 }
        )
    );
    assert_eq!(e.line_index, 3);
    let e = header_error("ply\nformat ascii 1.0\nformat ascii 1.1\nend_header\n");
    assert_eq!(
        e.fault,
        Fault::ContradictingFormat(
            Encoding::Ascii,
            Version { major: 1, minor: 1 },
            Encoding::Ascii,
            Version { major: 1, minor: 0 }
        )
    );
}

#[test]
fn header_without_format() {
    let e = header_error("ply\nelement a 0\nend_header\n");
    assert_eq!(e.fault, Fault::MissingFormat);
    assert_eq!(e.line_index, 4);
    assert_eq!(e.text, "");
}

#[test]
fn header_with_property_before_element() {
    let e = header_error("ply\nformat ascii 1.0\nproperty int x\nelement a 0\nend_header\n");
    assert_eq!(e.fault, Fault::PropertyWithoutElement);
    assert_eq!(e.line_index, 3);
    assert_eq!(e.text, "property int x\n");
}

#[test]
fn header_with_second_magic_number() {
    let e = header_error("ply\nformat ascii 1.0\nply\nend_header\n");
    assert_eq!(e.fault, Fault::UnexpectedMagicNumber);
    assert_eq!(e.line_index, 3);
}

#[test]
fn header_with_a_line_outside_the_grammar() {
    let e = header_error("ply\nformat ascii 1.0\nelement vertex many\nend_header\n");
    assert_eq!(
        e.fault,
        Fault::Syntax(SyntaxError { position: 15, expected: Expected::Count })
    );
    assert_eq!(e.line_index, 3);
    assert_eq!(e.text, "element vertex many\n");
}

#[test]
fn header_that_is_no_text() {
    let mut bytes = Source::new(vec![b'p', b'l', b'y', b'\n', 0xff, 0xfe, b'\n']);
    let e = Parser::<DefaultElement>::new().read_header(&mut bytes).unwrap_err();
    assert_eq!(e.fault, Fault::InvalidText);
    assert_eq!(e.line_index, 2);
}

#[test]
fn assembler_step_by_step() {
    let mut a = HeaderAssembler::new();
    assert!(!a.is_done());
    assert_eq!(a.feed("ply\r\n"), Ok(()));
    assert_eq!(a.feed("format ascii 1.0\r\n"), Ok(()));
    assert_eq!(a.feed("comment Hi, I'm your friendly comment.\r\n"), Ok(()));
    assert_eq!(a.feed("element point 2\r\n"), Ok(()));
    assert_eq!(a.feed("property int x\r\n"), Ok(()));
    assert!(!a.is_done());
    assert_eq!(a.feed("end_header\r\n"), Ok(()));
    assert!(a.is_done());
    assert_eq!(a.feed("anything at all"), Ok(()));
    let header = a.finish().unwrap();
    assert_eq!(header.comments, vec!["Hi, I'm your friendly comment."]);
    assert_eq!(header.elements, vec![element("point", 2, vec![scalar("x", ScalarType::Int)])]);
}

#[test]
fn whole_ascii_file() {
    let txt = "ply\nformat ascii 1.0\nelement point 2\nproperty int x\nproperty int y\nend_header\n-7 5\n2 4\n";
    let p = Parser::<DefaultElement>::new();
    let mut bytes = source(txt);
    let ply = p.read_ply(&mut bytes).unwrap();
    assert_eq!(bytes.remaining(), 0);
    let points = ply.payload.get("point").unwrap();
    assert_eq!(points.len(), 2);
    assert_eq!(points[0].get("x"), Some(&Property::Int(-7)));
    assert_eq!(points[0].get("y"), Some(&Property::Int(5)));
    assert_eq!(points[1].get("x"), Some(&Property::Int(2)));
    assert_eq!(points[1].get("y"), Some(&Property::Int(4)));
    assert_eq!(ply.payload.len(), 1);
}

#[test]
fn whole_ascii_file_with_carriage_returns() {
    let txt = "ply\r\n\
        format ascii 1.0\r\n\
        comment Hi, I'm your friendly comment.\r\n\
        obj_info And I'm your object information.\r\n\
        element point 2\r\n\
        property int x\r\n\
        property int y\r\n\
        end_header\r\n\
        -7 5\r\n\
        2 4\r\n";
    let p = Parser::<DefaultElement>::new();
    let ply = p.read_ply(&mut source(txt)).unwrap();
    assert_eq!(ply.header.comments, vec!["Hi, I'm your friendly comment."]);
    assert_eq!(ply.header.obj_infos, vec!["And I'm your object information."]);
    let points = ply.payload.get("point").unwrap();
    assert_eq!(points[0].get("x"), Some(&Property::Int(-7)));
    assert_eq!(points[1].get("y"), Some(&Property::Int(4)));
}

#[test]
fn ascii_values_of_every_type() {
    let p = Parser::<DefaultElement>::new();
    let def = element(
        "all",
        1,
        vec![
            scalar("a", ScalarType::Char),
            scalar("b", ScalarType::UChar),
            scalar("c", ScalarType::Short),
            scalar("d", ScalarType::UShort),
            scalar("e", ScalarType::Int),
            scalar("f", ScalarType::UInt),
            scalar("g", ScalarType::Float),
            scalar("h", ScalarType::Double),
        ],
    );
    let e = p
        .read_ascii_element("-128 255 -32768 65535 -2147483648 4294967295 +5.21 8e-3 \r\n", &def)
        .unwrap();
    assert_eq!(e.get("a"), Some(&Property::Char(-128)));
    assert_eq!(e.get("b"), Some(&Property::UChar(255)));
    assert_eq!(e.get("c"), Some(&Property::Short(-32768)));
    assert_eq!(e.get("d"), Some(&Property::UShort(65535)));
    assert_eq!(e.get("e"), Some(&Property::Int(-2147483648)));
    assert_eq!(e.get("f"), Some(&Property::UInt(4294967295)));
    assert_eq!(e.get("g"), Some(&Property::Float(Real32::Literal("+5.21".to_string()))));
    assert_eq!(e.get("h"), Some(&Property::Double(Real64::Literal("8e-3".to_string()))));
    let e = p.read_ascii_element("127 +0 034 7 -0 +12 1 2", &def).unwrap();
    assert_eq!(e.get("a"), Some(&Property::Char(127)));
    assert_eq!(e.get("b"), Some(&Property::UChar(0)));
    assert_eq!(e.get("c"), Some(&Property::Short(34)));
    assert_eq!(e.get("e"), Some(&Property::Int(0)));
    assert_eq!(e.get("f"), Some(&Property::UInt(12)));
}

#[test]
fn ascii_literals_read_as_numbers() {
    let p = Parser::<DefaultElement>::new();
    let def = element("v", 1, vec![scalar("x", ScalarType::Float), scalar("y", ScalarType::Double)]);
    let e = p.read_ascii_element("6.28318530718 -1e3", &def).unwrap();
    match e.get("x") {
        Some(Property::Float(Real32::Literal(t))) => assert_eq!(t.parse::<f32>().unwrap(), 6.28318530718f32),
        other => panic!("{:?}", other),
    }
    match e.get("y") {
        Some(Property::Double(Real64::Literal(t))) => assert_eq!(t.parse::<f64>().unwrap(), -1000.0f64),
        other => panic!("{:?}", other),
    }
}

#[test]
fn ascii_values_out_of_range() {
    let p = Parser::<DefaultElement>::new();
    let cases = [
        (ScalarType::Char, "128"),
        (ScalarType::Char, "-129"),
        (ScalarType::UChar, "256"),
        (ScalarType::UChar, "-1"),
        (ScalarType::UChar, "-0"),
        (ScalarType::Short, "32768"),
        (ScalarType::UShort, "65536"),
        (ScalarType::Int, "2147483648"),
        (ScalarType::Int, "-2147483649"),
        (ScalarType::UInt, "4294967296"),
        (ScalarType::Int, "1.0"),
        (ScalarType::Int, "1e3"),
        (ScalarType::UInt, "99999999999999999999999999999999"),
    ];
    for (t, text) in cases {
        let def = element("v", 1, vec![scalar("skip", ScalarType::Int), scalar("x", t)]);
        let line = format!("1 {}", text);
        assert_eq!(
            p.read_ascii_element(&line, &def).unwrap_err(),
            Fault::InvalidValue(1, t),
            "{}",
            text
        );
    }
}

#[test]
fn ascii_lists() {
    let p = Parser::<DefaultElement>::new();
    let def = element(
        "face",
        1,
        vec![
            list("vertex_index", ScalarType::UChar, ScalarType::Int),
            list("weights", ScalarType::Float, ScalarType::Double),
            list("none", ScalarType::Int, ScalarType::UChar),
            scalar("tail", ScalarType::Short),
        ],
    );
    let e = p.read_ascii_element("3 10 -20 30 2 0.5 1e1 0 -9 spare", &def);
    assert_eq!(
        e.unwrap_err(),
        Fault::Syntax(SyntaxError { position: 27, expected: Expected::Number })
    );
    let e = p.read_ascii_element("3 10 -20 30 2 0.5 1e1 0 -9 77", &def).unwrap();
    assert_eq!(e.get("vertex_index"), Some(&Property::ListInt(vec![10, -20, 30])));
    assert_eq!(
        e.get("weights"),
        Some(&Property::ListDouble(vec![
            Real64::Literal("0.5".to_string()),
            Real64::Literal("1e1".to_string())
        ]))
    );
    assert_eq!(e.get("none"), Some(&Property::ListUChar(vec![])));
    assert_eq!(e.get("tail"), Some(&Property::Short(-9)));
}

#[test]
fn ascii_lists_of_every_type() {
    let p = Parser::<DefaultElement>::new();
    let def = element(
        "l",
        1,
        vec![
            list("a", ScalarType::UChar, ScalarType::Char),
            list("b", ScalarType::UChar, ScalarType::UChar),
            list("c", ScalarType::UChar, ScalarType::Short),
            list("d", ScalarType::UChar, ScalarType::UShort),
            list("e", ScalarType::UChar, ScalarType::Int),
            list("f", ScalarType::UChar, ScalarType::UInt),
            list("g", ScalarType::UChar, ScalarType::Float),
            list("h", ScalarType::UChar, ScalarType::Double),
        ],
    );
    let e = p
        .read_ascii_element("2 -1 1 2 0 255 1 -300 1 60000 1 -70000 1 4000000000 1 1.5 1 -2.5", &def)
        .unwrap();
    assert_eq!(e.get("a"), Some(&Property::ListChar(vec![-1, 1])));
    assert_eq!(e.get("b"), Some(&Property::ListUChar(vec![0, 255])));
    assert_eq!(e.get("c"), Some(&Property::ListShort(vec![-300])));
    assert_eq!(e.get("d"), Some(&Property::ListUShort(vec![60000])));
    assert_eq!(e.get("e"), Some(&Property::ListInt(vec![-70000])));
    assert_eq!(e.get("f"), Some(&Property::ListUInt(vec![4000000000])));
    assert_eq!(e.get("g"), Some(&Property::ListFloat(vec![Real32::Literal("1.5".to_string())])));
    assert_eq!(e.get("h"), Some(&Property::ListDouble(vec![Real64::Literal("-2.5".to_string())])));
}

#[test]
fn ascii_faults() {
    let p = Parser::<DefaultElement>::new();
    let def = element(
        "face",
        1,
        vec![scalar("x", ScalarType::Int), list("l", ScalarType::UChar, ScalarType::Int)],
    );
    assert_eq!(p.read_ascii_element("", &def).unwrap_err(), Fault::MissingField(0));
    assert_eq!(p.read_ascii_element("1", &def).unwrap_err(), Fault::MissingField(1));
    assert_eq!(p.read_ascii_element("1 -1", &def).unwrap_err(), Fault::InvalidLength(1));
    assert_eq!(p.read_ascii_element("1 2.0", &def).unwrap_err(), Fault::InvalidLength(1));
    assert_eq!(p.read_ascii_element("1 3 7 8", &def).unwrap_err(), Fault::MissingListItem(2));
    assert_eq!(
        p.read_ascii_element("1 18446744073709551615 7 8", &def).unwrap_err(),
        Fault::MissingListItem(2)
    );
    assert_eq!(
        p.read_ascii_element("1 3 7 8.5 9", &def).unwrap_err(),
        Fault::InvalidValue(3, ScalarType::Int)
    );
    assert_eq!(
        p.read_ascii_element("1 five", &def).unwrap_err(),
        Fault::Syntax(SyntaxError { position: 2, expected: Expected::Number })
    );
    let none = element("none", 1, vec![]);
    assert!(p.read_ascii_element("", &none).unwrap().is_empty());
    assert!(p.read_ascii_element("1 2 3", &none).unwrap().is_empty());
}

fn binary_header(encoding: Encoding, elements: Vec<ElementDef>) -> Header {
    let mut h = Header::new();
    h.encoding = encoding;
    h.elements = elements;
    h
}

#[test]
fn binary_values_of_every_type() {
    let p = Parser::<DefaultElement>::new();
    let def = element(
        "all",
        1,
        vec![
            scalar("a", ScalarType::Char),
            scalar("b", ScalarType::UChar),
            scalar("c", ScalarType::Short),
            scalar("d", ScalarType::UShort),
            scalar("e", ScalarType::Int),
            scalar("f", ScalarType::UInt),
            scalar("g", ScalarType::Float),
            scalar("h", ScalarType::Double),
        ],
    );
    let mut big: Vec<u8> = Vec::new();
    let mut little: Vec<u8> = Vec::new();
    big.extend((-2i8).to_be_bytes());
    little.extend((-2i8).to_le_bytes());
    big.extend(200u8.to_be_bytes());
    little.extend(200u8.to_le_bytes());
    big.extend((-300i16).to_be_bytes());
    little.extend((-300i16).to_le_bytes());
    big.extend(60000u16.to_be_bytes());
    little.extend(60000u16.to_le_bytes());
    big.extend((-70000i32).to_be_bytes());
    little.extend((-70000i32).to_le_bytes());
    big.extend(4000000000u32.to_be_bytes());
    little.extend(4000000000u32.to_le_bytes());
    big.extend(1.5f32.to_be_bytes());
    little.extend(1.5f32.to_le_bytes());
    big.extend((-2.25f64).to_be_bytes());
    little.extend((-2.25f64).to_le_bytes());
    big.push(99);
    little.push(99);
    let mut big = Source::new(big);
    let mut little = Source::new(little);
    let b = p.read_big_endian_element(&mut big, &def).unwrap();
    let l = p.read_little_endian_element(&mut little, &def).unwrap();
    assert_eq!(big.remaining(), 1);
    assert_eq!(little.remaining(), 1);
    assert_eq!(b, l);
    assert_eq!(b.get("a"), Some(&Property::Char(-2)));
    assert_eq!(b.get("b"), Some(&Property::UChar(200)));
    assert_eq!(b.get("c"), Some(&Property::Short(-300)));
    assert_eq!(b.get("d"), Some(&Property::UShort(60000)));
    assert_eq!(b.get("e"), Some(&Property::Int(-70000)));
    assert_eq!(b.get("f"), Some(&Property::UInt(4000000000)));
    assert_eq!(b.get("g"), Some(&Property::Float(Real32::Bits(1.5f32.to_bits()))));
    assert_eq!(b.get("h"), Some(&Property::Double(Real64::Bits((-2.25f64).to_bits()))));
}

#[test]
fn binary_byte_order_matters() {
    let p = Parser::<DefaultElement>::new();
    let def = element("v", 1, vec![scalar("x", ScalarType::UShort), scalar("y", ScalarType::Int)]);
    let bytes = vec![0x01, 0x02, 0xff, 0xff, 0xff, 0xfe];
    let b = p.read_big_endian_element(&mut Source::new(bytes.clone()), &def).unwrap();
    let l = p.read_little_endian_element(&mut Source::new(bytes), &def).unwrap();
    assert_eq!(b.get("x"), Some(&Property::UShort(0x0102)));
    assert_eq!(l.get("x"), Some(&Property::UShort(0x0201)));
    assert_eq!(b.get("y"), Some(&Property::Int(-2)));
    assert_eq!(l.get("y"), Some(&Property::Int(-16777217)));
}

#[test]
fn binary_lists() {
    let p = Parser::<DefaultElement>::new();
    let def = element(
        "face",
        2,
        vec![
            list("vertex_index", ScalarType::UChar, ScalarType::Int),
            list("weights", ScalarType::UShort, ScalarType::Float),
        ],
    );
    let header = binary_header(Encoding::BinaryLittleEndian, vec![]);
    let mut bytes: Vec<u8> = Vec::new();
    bytes.push(3);
    for v in [10i32, -20, 30] {
        bytes.extend(v.to_le_bytes());
    }
    bytes.extend(1u16.to_le_bytes());
    bytes.extend(0.5f32.to_le_bytes());
    bytes.push(0);
    bytes.extend(0u16.to_le_bytes());
    let mut src = Source::new(bytes);
    let faces = p.read_payload_for_element(&mut src, &def, &header).unwrap();
    assert_eq!(src.remaining(), 0);
    assert_eq!(faces.len(), 2);
    assert_eq!(faces[0].get("vertex_index"), Some(&Property::ListInt(vec![10, -20, 30])));
    assert_eq!(
        faces[0].get("weights"),
        Some(&Property::ListFloat(vec![Real32::Bits(0.5f32.to_bits())]))
    );
    assert_eq!(faces[1].get("vertex_index"), Some(&Property::ListInt(vec![])));
    assert_eq!(faces[1].get("weights"), Some(&Property::ListFloat(vec![])));
}

#[test]
fn binary_lists_of_every_type() {
    let p = Parser::<DefaultElement>::new();
    let def = element(
        "l",
        1,
        vec![
            list("a", ScalarType::Char, ScalarType::Char),
            list("b", ScalarType::UChar, ScalarType::UChar),
            list("c", ScalarType::Short, ScalarType::Short),
            list("d", ScalarType::UShort, ScalarType::UShort),
            list("e", ScalarType::Int, ScalarType::Int),
            list("f", ScalarType::UInt, ScalarType::UInt),
            list("g", ScalarType::UChar, ScalarType::Float),
            list("h", ScalarType::UChar, ScalarType::Double),
        ],
    );
    let mut bytes: Vec<u8> = Vec::new();
    bytes.extend([2u8, 0xff, 0x01]);
    bytes.extend([1u8, 0xff]);
    bytes.extend(1i16.to_be_bytes());
    bytes.extend((-300i16).to_be_bytes());
    bytes.extend(1u16.to_be_bytes());
    bytes.extend(60000u16.to_be_bytes());
    bytes.extend(2i32.to_be_bytes());
    bytes.extend((-70000i32).to_be_bytes());
    bytes.extend(70000i32.to_be_bytes());
    bytes.extend(1u32.to_be_bytes());
    bytes.extend(4000000000u32.to_be_bytes());
    bytes.push(1);
    bytes.extend(1.5f32.to_be_bytes());
    bytes.push(2);
    bytes.extend(2.5f64.to_be_bytes());
    bytes.extend((-0.0f64).to_be_bytes());
    let mut src = Source::new(bytes);
    let e = p.read_big_endian_element(&mut src, &def).unwrap();
    assert_eq!(src.remaining(), 0);
    assert_eq!(e.get("a"), Some(&Property::ListChar(vec![-1, 1])));
    assert_eq!(e.get("b"), Some(&Property::ListUChar(vec![255])));
    assert_eq!(e.get("c"), Some(&Property::ListShort(vec![-300])));
    assert_eq!(e.get("d"), Some(&Property::ListUShort(vec![60000])));
    assert_eq!(e.get("e"), Some(&Property::ListInt(vec![-70000, 70000])));
    assert_eq!(e.get("f"), Some(&Property::ListUInt(vec![4000000000])));
    assert_eq!(e.get("g"), Some(&Property::ListFloat(vec![Real32::Bits(1.5f32.to_bits())])));
    assert_eq!(
        e.get("h"),
        Some(&Property::ListDouble(vec![
            Real64::Bits(2.5f64.to_bits()),
            Real64::Bits((-0.0f64).to_bits())
        ]))
    );
}

#[test]
fn binary_list_with_a_length_that_is_no_integer() {
    let p = Parser::<DefaultElement>::new();
    for index in [ScalarType::Float, ScalarType::Double] {
        let def = element(
            "face",
            1,
            vec![scalar("x", ScalarType::UChar), list("l", index, ScalarType::UChar)],
        );
        let mut src = Source::new(vec![7, 0, 0, 0, 0, 0, 0, 0, 0, 0]);
        assert_eq!(
            p.read_big_endian_element(&mut src, &def).unwrap_err(),
            Fault::ListIndexType(index)
        );
        assert_eq!(src.remaining(), 9);
        let mut src = Source::new(vec![7, 0, 0, 0, 0, 0, 0, 0, 0, 0]);
        assert_eq!(
            p.read_little_endian_element(&mut src, &def).unwrap_err(),
            Fault::ListIndexType(index)
        );
        assert_eq!(src.remaining(), 9);
    }
}

#[test]
fn binary_short_reads() {
    let p = Parser::<DefaultElement>::new();
    let def = element(
        "face",
        1,
        vec![scalar("x", ScalarType::Int), list("l", ScalarType::Short, ScalarType::Double)],
    );
    let read = |bytes: Vec<u8>| p.read_big_endian_element(&mut Source::new(bytes), &def);
    assert_eq!(read(vec![]).unwrap_err(), Fault::UnexpectedEof(4));
    assert_eq!(read(vec![0, 0, 0]).unwrap_err(), Fault::UnexpectedEof(1));
    assert_eq!(read(vec![0, 0, 0, 1]).unwrap_err(), Fault::UnexpectedEof(2));
    assert_eq!(read(vec![0, 0, 0, 1, 0, 2]).unwrap_err(), Fault::UnexpectedEof(16));
    assert_eq!(read(vec![0, 0, 0, 1, 0, 2, 9, 9, 9]).unwrap_err(), Fault::UnexpectedEof(13));
    assert_eq!(read(vec![0, 0, 0, 1, 0xff, 0xff]).unwrap_err(), Fault::NegativeLength);
    assert!(read(vec![0, 0, 0, 1, 0, 0]).is_ok());
}

#[test]
fn whole_binary_file() {
    let mut bytes: Vec<u8> = Vec::new();
    bytes.extend(
        b"ply\nformat binary_big_endian 1.0\nelement vertex 2\nproperty float x\nproperty short y\n\
          element face 1\nproperty list uchar int vertex_index\nend_header\n",
    );
    bytes.extend(1.0f32.to_be_bytes());
    bytes.extend((-1i16).to_be_bytes());
    bytes.extend(2.0f32.to_be_bytes());
    bytes.extend(10i16.to_be_bytes()); // the second byte of this number is a line feed
    bytes.push(2);
    bytes.extend(0i32.to_be_bytes());
    bytes.extend(1i32.to_be_bytes());
    let p = Parser::<DefaultElement>::new();
    let mut src = Source::new(bytes);
    let ply: Ply<DefaultElement> = p.read_ply(&mut src).unwrap();
    assert_eq!(src.remaining(), 0);
    assert_eq!(ply.header.encoding, Encoding::BinaryBigEndian);
    let vertices = ply.payload.get("vertex").unwrap();
    assert_eq!(vertices.len(), 2);
    assert_eq!(vertices[0].get("x"), Some(&Property::Float(Real32::Bits(1.0f32.to_bits()))));
    assert_eq!(vertices[0].get("y"), Some(&Property::Short(-1)));
    assert_eq!(vertices[1].get("y"), Some(&Property::Short(10)));
    let faces = ply.payload.get("face").unwrap();
    assert_eq!(faces[0].get("vertex_index"), Some(&Property::ListInt(vec![0, 1])));
    assert_eq!(ply.payload.key_at(0), "vertex");
    assert_eq!(ply.payload.key_at(1), "face");
}

#[test]
fn payload_errors_say_where() {
    let p = Parser::<DefaultElement>::new();
    let e = p
        .read_ply(&mut source(
            "ply\nformat ascii 1.0\nelement point 3\nproperty int x\nend_header\n1\ntwo\n3\n",
        ))
        .unwrap_err();
    assert_eq!(e.line_index, 7);
    assert_eq!(e.text, "two\n");
    assert_eq!(e.fault, Fault::Syntax(SyntaxError { position: 0, expected: Expected::Number }));
    let e = p
        .read_ply(&mut source(
            "ply\nformat ascii 1.0\nelement point 3\nproperty int x\nend_header\n1\n2\n",
        ))
        .unwrap_err();
    assert_eq!(e.line_index, 8);
    assert_eq!(e.text, "");
    assert_eq!(e.fault, Fault::UnexpectedEof(1));
    let e = p
        .read_ply(&mut source(
            "ply\nformat binary_little_endian 1.0\nelement point 3\nproperty uchar x\nend_header\n12",
        ))
        .unwrap_err();
    assert_eq!(e.line_index, 8);
    assert_eq!(e.fault, Fault::UnexpectedEof(1));
    let header = binary_header(
        Encoding::Ascii,
        vec![element("point", 2, vec![scalar("x", ScalarType::UChar)])],
    );
    let e = p.read_payload(&mut source("1\n256\n"), &header).unwrap_err();
    assert_eq!(e.line_index, 1);
    assert_eq!(e.fault, Fault::InvalidValue(0, ScalarType::UChar));
}

#[test]
fn ascii_record_without_properties_still_takes_a_line() {
    let p = Parser::<DefaultElement>::new();
    let header = binary_header(Encoding::Ascii, vec![element("none", 2, vec![])]);
    let payload = p.read_payload(&mut source("\n\n"), &header).unwrap();
    assert_eq!(payload.get("none").unwrap().len(), 2);
    let e = p.read_payload(&mut source("\n"), &header).unwrap_err();
    assert_eq!(e.fault, Fault::UnexpectedEof(1));
}

#[test]
fn empty_element_normalizes_to_an_empty_list() {
    let p = Parser::<DefaultElement>::new();
    let txt = "ply\nformat ascii 1.0\nelement vertex 0\nproperty float x\nelement face 0\nend_header\n";
    let mut ply = p.read_ply(&mut source(txt)).unwrap();
    assert!(ply.payload.get("vertex").unwrap().is_empty());
    assert!(ply.payload.get("face").unwrap().is_empty());
    let header = p.read_header(&mut source(txt)).unwrap();
    let mut bare = Ply::<DefaultElement>::new();
    bare.header = header;
    assert!(bare.payload.get("face").is_none());
    assert!(bare.make_consistent().is_ok());
    assert!(bare.payload.get("vertex").unwrap().is_empty());
    assert!(bare.payload.get("face").unwrap().is_empty());
    assert_eq!(bare.header.elements[1].count, 0);
    assert!(ply.make_consistent().is_ok());
    assert_eq!(ply, bare);
}

#[test]
fn source_reads_lines_and_bytes() {
    let mut s = Source::new(b"one\ntwo\r\n\x01\x02\x03last".to_vec());
    assert_eq!(s.read_line().unwrap(), "one\n");
    assert_eq!(s.read_line().unwrap(), "two\r\n");
    assert_eq!(s.peek(2).unwrap(), &[1u8, 2]);
    assert_eq!(s.read_exact(3).unwrap(), vec![1, 2, 3]);
    assert_eq!(s.read_exact(9).unwrap_err(), Fault::UnexpectedEof(5));
    assert_eq!(s.remaining(), 4);
    assert_eq!(s.read_line().unwrap(), "last");
    assert_eq!(s.read_line().unwrap_err(), Fault::UnexpectedEof(1));
    assert_eq!(s.read_exact(0).unwrap(), Vec::<u8>::new());
}

fn write_header(h: &Header) -> String {
    let mut out = String::from("ply\n");
    let encoding = match h.encoding {
        Encoding::Ascii => "ascii",
        Encoding::BinaryBigEndian => "binary_big_endian",
        Encoding::BinaryLittleEndian => "binary_little_endian",
    };
    out += &format!("format {} {}.{}\n", encoding, h.version.major, h.version.minor);
    for c in &h.comments {
        out += &format!("comment {}\n", c);
    }
    for o in &h.obj_infos {
        out += &format!("obj_info {}\n", o);
    }
    let name = |t: &ScalarType| match t {
        ScalarType::Char => "char",
        ScalarType::UChar => "uchar",
        ScalarType::Short => "short",
        ScalarType::UShort => "ushort",
        ScalarType::Int => "int",
        ScalarType::UInt => "uint",
        ScalarType::Float => "float",
        ScalarType::Double => "double",
    };
    for e in &h.elements {
        out += &format!("element {} {}\n", e.name, e.count);
        for p in &e.properties {
            match &p.data_type {
                PropertyType::Scalar(t) => out += &format!("property {} {}\n", name(t), p.name),
                PropertyType::List(i, t) => {
                    out += &format!("property list {} {} {}\n", name(i), name(t), p.name)
                }
            }
        }
    }
    out += "end_header\n";
    out
}

#[test]
fn header_written_and_read_again() {
    let mut h = Header::new();
    h.encoding = Encoding::BinaryLittleEndian;
    h.version = Version { major: 65535, minor: 255 };
    h.comments = vec!["made by hand".to_string(), String::new(), "tr\u{e4}iling blank ".to_string()];
    h.obj_infos = vec!["format ascii 1.0".to_string(), "ply".to_string()];
    h.elements = vec![
        element(
            "vertex",
            usize::MAX,
            vec![
                scalar("x", ScalarType::Float),
                scalar("list", ScalarType::Double),
                scalar("\u{3b1}", ScalarType::Char),
                scalar("b", ScalarType::UChar),
                scalar("c", ScalarType::Short),
                scalar("d", ScalarType::UShort),
                scalar("e", ScalarType::Int),
                scalar("f", ScalarType::UInt),
            ],
        ),
        element("face", 0, vec![list("vertex_index", ScalarType::UChar, ScalarType::Int)]),
        element("element", 7, vec![]),
        element("face", 3, vec![list("property", ScalarType::UInt, ScalarType::Float)]),
    ];
    let mut bytes = write_header(&h).into_bytes();
    bytes.extend([1, 2, 3]);
    let mut src = Source::new(bytes);
    let read = Parser::<DefaultElement>::new().read_header(&mut src).unwrap();
    assert_eq!(read, h);
    assert_eq!(src.remaining(), 3);
}

#[test]
fn same_records_in_three_encodings() {
    let p = Parser::<DefaultElement>::new();
    let def = element(
        "mixed",
        2,
        vec![
            scalar("a", ScalarType::Char),
            list("b", ScalarType::UChar, ScalarType::Short),
            scalar("c", ScalarType::UInt),
            list("d", ScalarType::Int, ScalarType::UShort),
        ],
    );
    let rows: [(i8, Vec<i16>, u32, Vec<u16>); 2] =
        [(-128, vec![-1, 0, 32767], 4294967295, vec![]), (5, vec![], 0, vec![65535, 7])];
    let mut ascii = String::new();
    let mut big: Vec<u8> = Vec::new();
    let mut little: Vec<u8> = Vec::new();
    for (a, b, c, d) in &rows {
        let mut fields = vec![a.to_string(), b.len().to_string()];
        fields.extend(b.iter().map(|v| v.to_string()));
        fields.push(c.to_string());
        fields.push(d.len().to_string());
        fields.extend(d.iter().map(|v| v.to_string()));
        ascii += &fields.join(" ");
        ascii += "\n";
        big.extend(a.to_be_bytes());
        little.extend(a.to_le_bytes());
        big.push(b.len() as u8);
        little.push(b.len() as u8);
        for v in b {
            big.extend(v.to_be_bytes());
            little.extend(v.to_le_bytes());
        }
        big.extend(c.to_be_bytes());
        little.extend(c.to_le_bytes());
        big.extend((d.len() as i32).to_be_bytes());
        little.extend((d.len() as i32).to_le_bytes());
        for v in d {
            big.extend(v.to_be_bytes());
            little.extend(v.to_le_bytes());
        }
    }
    let from_ascii = p
        .read_payload_for_element(&mut source(&ascii), &def, &binary_header(Encoding::Ascii, vec![]))
        .unwrap();
    let from_big = p
        .read_payload_for_element(
            &mut Source::new(big),
            &def,
            &binary_header(Encoding::BinaryBigEndian, vec![]),
        )
        .unwrap();
    let from_little = p
        .read_payload_for_element(
            &mut Source::new(little),
            &def,
            &binary_header(Encoding::BinaryLittleEndian, vec![]),
        )
        .unwrap();
    assert_eq!(from_ascii, from_big);
    assert_eq!(from_ascii, from_little);
    assert_eq!(from_ascii.len(), 2);
    assert_eq!(from_ascii[0].get("a"), Some(&Property::Char(-128)));
    assert_eq!(from_ascii[0].get("b"), Some(&Property::ListShort(vec![-1, 0, 32767])));
    assert_eq!(from_ascii[0].get("c"), Some(&Property::UInt(4294967295)));
    assert_eq!(from_ascii[1].get("d"), Some(&Property::ListUShort(vec![65535, 7])));
}

#[test]
fn payload_with_an_element_declared_twice() {
    let p = Parser::<DefaultElement>::new();
    let header = binary_header(
        Encoding::Ascii,
        vec![
            element("a", 1, vec![scalar("x", ScalarType::Int)]),
            element("b", 1, vec![scalar("x", ScalarType::Int)]),
            element("a", 2, vec![scalar("y", ScalarType::Int)]),
        ],
    );
    let payload = p.read_payload(&mut source("1\n2\n3\n4\n"), &header).unwrap();
    assert_eq!(payload.len(), 2);
    assert_eq!(payload.key_at(0), "a");
    assert_eq!(payload.key_at(1), "b");
    let a = payload.get("a").unwrap();
    assert_eq!(a.len(), 2);
    assert_eq!(a[0].get("y"), Some(&Property::Int(3)));
    assert_eq!(a[1].get("y"), Some(&Property::Int(4)));
}

#[test]
fn record_keeps_the_last_value_of_a_name() {
    let p = Parser::<DefaultElement>::new();
    let def = element(
        "v",
        1,
        vec![scalar("x", ScalarType::Int), scalar("y", ScalarType::Int), scalar("x", ScalarType::UChar)],
    );
    let e = p.read_ascii_element("1 2 3", &def).unwrap();
    assert_eq!(e.len(), 2);
    assert_eq!(e.key_at(0), "x");
    assert_eq!(e.get("x"), Some(&Property::UChar(3)));
    assert_eq!(e.get("y"), Some(&Property::Int(2)));
}

#[test]
fn parser_header_ok() {
    let p = Parser::<DefaultElement>::new();
    let txt = "ply\nformat ascii 1.0\nend_header\n";
    let mut bytes = source(txt);
    assert!(p.read_header(&mut bytes).is_ok());

    let txt = "ply\n\
    format ascii 1.0\n\
    element vertex 8\n\
    property float x\n\
    property float y\n\
    element face 6\n\
    property list uchar int vertex_index\n\
    end_header\n";
    let mut bytes = source(txt);
    assert!(p.read_header(&mut bytes).is_ok());
}

#[test]
fn parser_demo_ok() {
    let txt = "ply\nformat ascii 1.0\nend_header\n";
    let mut bytes = source(txt);
    let p = Parser::<DefaultElement>::new();
    assert!(p.read_header(&mut bytes).is_ok());

    let txt = "ply\n\
    format ascii 1.0\n\
    element vertex 1\n\
    property float x\n\
    end_header\n
    6.28318530718"; // no newline at end!
    let mut bytes = source(txt);
    assert!(p.read_header(&mut bytes).is_ok());
}

#[test]
fn parser_single_elements_ok() {
    let txt = "ply\r\n\
    format ascii 1.0\r\n\
    comment Hi, I'm your friendly comment.\r\n\
    obj_info And I'm your object information.\r\n\
    element point 2\r\n\
    property int x\r\n\
    property int y\r\n\
    end_header\r\n\
    -7 5\r\n\
    2 4\r\n";
    let mut bytes = source(txt);
    let p = Parser::<DefaultElement>::new();
    assert!(p.read_ply(&mut bytes).is_ok());
}

#[test]
fn ascii_property_that_is_no_number() {
    let fields: Vec<String> = ["abc", "1.5", "2", "1e", "7"].iter().map(|t| t.to_string()).collect();
    assert_eq!(
        read_ascii_property(&fields, 0, &PropertyType::Scalar(ScalarType::Float)).unwrap_err(),
        Fault::InvalidValue(0, ScalarType::Float)
    );
    assert_eq!(
        read_ascii_property(&fields, 3, &PropertyType::Scalar(ScalarType::Double)).unwrap_err(),
        Fault::InvalidValue(3, ScalarType::Double)
    );
    let (p, next) =
        read_ascii_property(&fields, 1, &PropertyType::Scalar(ScalarType::Float)).unwrap();
    assert_eq!(p, Property::Float(Real32::Literal("1.5".to_string())));
    assert_eq!(next, 2);
    assert_eq!(
        read_ascii_property(&fields, 2, &PropertyType::List(ScalarType::UChar, ScalarType::Double))
            .unwrap_err(),
        Fault::InvalidValue(3, ScalarType::Double)
    );
    assert_eq!(
        read_ascii_list(&fields, 0, 2, ScalarType::Float).unwrap_err(),
        Fault::InvalidValue(0, ScalarType::Float)
    );
    assert_eq!(read_ascii_list(&fields, 1, 2, ScalarType::Double).unwrap().len(), 2);
}
