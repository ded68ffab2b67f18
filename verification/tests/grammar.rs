use ply_rs::parser::grammar as g;
use ply_rs::parser::{Expected, Line, SyntaxError};
use ply_rs::ply::{ElementDef, Encoding, PropertyDef, PropertyType, ScalarType, Version};

#[test]
fn magic_number_ok() {
    assert_eq!(g::magic_number("ply"), Ok(()));
}

#[test]
fn magic_number_err() {
    assert!(g::magic_number("py").is_err());
    assert!(g::magic_number("plyhi").is_err());
    assert!(g::magic_number("hiply").is_err());
    assert!(g::magic_number(" ply").is_err());
    assert!(g::magic_number("ply ").is_err());
}

#[test]
fn format_ok() {
    assert_eq!(
        g::format("format ascii 1.0").unwrap(),
        (Encoding::Ascii, Version { major: 1, minor: 0 })
    );
    assert_eq!(
        g::format("format binary_big_endian 2.1").unwrap(),
        (Encoding::BinaryBigEndian, Version { major: 2, minor: 1 })
    );
    assert_eq!(
        g::format("format binary_little_endian 1.0").unwrap(),
        (Encoding::BinaryLittleEndian, Version { major: 1, minor: 0 })
    );
}

#[test]
fn format_err() {
    assert!(g::format("format asciii 1.0").is_err());
    assert!(g::format("format ascii -1.0").is_err());
    assert!(g::format("format ascii 1.0.3").is_err());
    assert!(g::format("format ascii 1.").is_err());
    assert!(g::format("format ascii 1").is_err());
    assert!(g::format("format ascii 1.0a").is_err());
}

#[test]
fn comment_ok() {
    assert_eq!(g::comment("comment hi").unwrap(), "hi");
    assert_eq!(
        g::comment("comment   hi, I'm a comment!").unwrap(),
        "hi, I'm a comment!"
    );
    assert_eq!(g::comment("comment ").unwrap(), "");
    assert_eq!(g::comment("comment\t").unwrap(), "");
    assert_eq!(g::comment("comment").unwrap(), "");
    assert_eq!(g::comment("comment\t").unwrap(), "");
    assert_eq!(g::comment("comment\thi").unwrap(), "hi");
}

#[test]
fn comment_err() {
    assert!(g::comment("commentt").is_err());
    assert!(g::comment("comment\n").is_err());
    assert!(g::comment("comment hi\na comment").is_err());
    assert!(g::comment("comment hi\r\na comment").is_err());
    assert!(g::comment("comment hi\ra comment").is_err());
}

#[test]
fn obj_info_ok() {
    assert_eq!(g::obj_info("obj_info Hi, I can help.").unwrap(), "Hi, I can help.");
    assert_eq!(g::obj_info("obj_info").unwrap(), "");
    assert_eq!(g::obj_info("obj_info ").unwrap(), "");
    assert_eq!(g::obj_info("obj_info\t").unwrap(), "");
}

#[test]
fn obj_info_err() {
    assert!(g::obj_info("obj_info\n").is_err());
}

#[test]
fn element_ok() {
    let mut e = ElementDef::new("vertex");
    e.count = 8;
    assert_eq!(g::element("element vertex 8").unwrap(), e);
}

#[test]
fn element_err() {
    assert!(g::comment("element 8 vertex").is_err());
}

#[test]
fn property_ok() {
    assert_eq!(
        g::property("property char c").unwrap(),
        PropertyDef::new("c", PropertyType::Scalar(ScalarType::Char))
    );
}

#[test]
fn property_list_ok() {
    assert_eq!(
        g::property("property list uchar int c").unwrap(),
        PropertyDef::new("c", PropertyType::List(ScalarType::UChar, ScalarType::Int))
    );
}

#[test]
fn line_ok() {
    assert_eq!(g::line("ply ").unwrap(), Line::MagicNumber);
    assert_eq!(
        g::line("format ascii 1.0 ").unwrap(),
        Line::Format((Encoding::Ascii, Version { major: 1, minor: 0 }))
    );
    assert!(g::line("comment a very nice comment ").is_ok());
    assert!(g::line("element vertex 8 ").is_ok());
    assert!(g::line("property float x ").is_ok());
    assert!(g::line("element face 6 ").is_ok());
    assert!(g::line("property list uchar int vertex_index ").is_ok());
    assert!(g::line("end_header ").is_ok());
}

#[test]
fn line_breaks_ok() {
    assert_eq!(g::line("ply \n").unwrap(), Line::MagicNumber); // Unix, Mac OS X
    assert_eq!(g::line("ply \r").unwrap(), Line::MagicNumber); // Mac pre OS X
    assert_eq!(g::line("ply \r\n").unwrap(), Line::MagicNumber); // Windows
}

#[test]
fn data_line_ok() {
    assert_eq!(
        g::data_line("+7 -7 7 +5.21 -5.21 5.21 +0 -0 0 \r\n").unwrap(),
        vec!["+7", "-7", "7", "+5.21", "-5.21", "5.21", "+0", "-0", "0"]
    );
    assert_eq!(g::data_line("034 8e3 8e-3").unwrap(), vec!["034", "8e3", "8e-3"]);
    assert_eq!(g::data_line("").unwrap(), Vec::<String>::new());
}

#[test]
fn data_line_err() {
    assert!(g::data_line("++3").is_err());
    assert!(g::data_line("+-3").is_err());
    assert!(g::data_line("five").is_err());
}

#[test]
fn line_values() {
    assert_eq!(g::line("end_header\n").unwrap(), Line::EndHeader);
    assert_eq!(
        g::line("comment a very nice comment \r\n").unwrap(),
        Line::Comment("a very nice comment ".to_string())
    );
    assert_eq!(
        g::line("obj_info   made by hand").unwrap(),
        Line::ObjInfo("made by hand".to_string())
    );
    let mut face = ElementDef::new("face");
    face.count = 6;
    assert_eq!(g::line("  element \t face   6  \n").unwrap(), Line::Element(face));
    assert_eq!(
        g::line("property list uchar int vertex_index\n").unwrap(),
        Line::Property(PropertyDef::new(
            "vertex_index",
            PropertyType::List(ScalarType::UChar, ScalarType::Int)
        ))
    );
    assert_eq!(
        g::line("property double z").unwrap(),
        Line::Property(PropertyDef::new("z", PropertyType::Scalar(ScalarType::Double)))
    );
}

#[test]
fn line_errors_say_where_and_what() {
    assert_eq!(
        g::line("").unwrap_err(),
        SyntaxError { position: 0, expected: Expected::Statement }
    );
    assert_eq!(
        g::line("vertex 3").unwrap_err(),
        SyntaxError { position: 0, expected: Expected::Statement }
    );
    assert_eq!(
        g::line("ply now").unwrap_err(),
        SyntaxError { position: 4, expected: Expected::EndOfLine }
    );
    assert_eq!(
        g::line("format utf8 1.0").unwrap_err(),
        SyntaxError { position: 7, expected: Expected::Encoding }
    );
    assert_eq!(
        g::line("format ascii").unwrap_err(),
        SyntaxError { position: 12, expected: Expected::Version }
    );
    assert_eq!(
        g::line("format ascii 70000.0").unwrap_err(),
        SyntaxError { position: 13, expected: Expected::Version }
    );
    assert_eq!(
        g::line("format ascii 1.256").unwrap_err(),
        SyntaxError { position: 13, expected: Expected::Version }
    );
    assert_eq!(
        g::line("element vertex").unwrap_err(),
        SyntaxError { position: 14, expected: Expected::Count }
    );
    assert_eq!(
        g::line("element vertex -1").unwrap_err(),
        SyntaxError { position: 15, expected: Expected::Count }
    );
    assert_eq!(
        g::line("element vertex 99999999999999999999999999").unwrap_err(),
        SyntaxError { position: 15, expected: Expected::Count }
    );
    assert_eq!(
        g::line("element").unwrap_err(),
        SyntaxError { position: 7, expected: Expected::Name }
    );
    assert_eq!(
        g::line("property Float x").unwrap_err(),
        SyntaxError { position: 9, expected: Expected::DataType }
    );
    assert_eq!(
        g::line("property list uchar x").unwrap_err(),
        SyntaxError { position: 20, expected: Expected::DataType }
    );
    assert_eq!(
        g::line("property int").unwrap_err(),
        SyntaxError { position: 12, expected: Expected::Name }
    );
    assert_eq!(
        g::line("property int x y").unwrap_err(),
        SyntaxError { position: 15, expected: Expected::EndOfLine }
    );
    assert_eq!(
        g::line("comment one\rtwo\n").unwrap_err(),
        SyntaxError { position: 11, expected: Expected::EndOfLine }
    );
    assert_eq!(
        g::data_line("1 2 x3 4").unwrap_err(),
        SyntaxError { position: 4, expected: Expected::Number }
    );
    assert_eq!(
        g::format("format ascii 1.0 ").unwrap_err(),
        SyntaxError { position: 16, expected: Expected::EndOfLine }
    );
    assert_eq!(
        g::format("comment x").unwrap_err(),
        SyntaxError { position: 0, expected: Expected::Statement }
    );
}

#[test]
fn numbers_of_the_ascii_grammar() {
    for good in ["+7", "-7", "7", "+5.21", "-5.21", "8e3", "8e-3", "034", "1E+5", "0.5e10"] {
        assert_eq!(g::data_line(good).unwrap(), vec![good]);
    }
    for bad in ["++3", "+-3", "five", "5.", ".5", "8e", "8e+", "3-4", "1.2.3", "+", "1e5.0", "nan"] {
        assert!(g::data_line(bad).is_err(), "{}", bad);
    }
}
