use ply_rs::grammar as g;
use ply_rs::grammar::SyntaxError;
use ply_rs::parser::Line;
use ply_rs::ply::{ElementDef, Encoding, PropertyDef, PropertyType, ScalarType, Version};

#[test]
fn magic_number_ok() {
    assert!(g::magic_number("ply").is_ok());
}

#[test]
fn magic_number_err() {
    assert!(g::magic_number("py").is_err());
    assert!(g::magic_number("plyhi").is_err());
    assert!(g::magic_number("hiply").is_err());
}

#[test]
fn format_ok() {
    assert_eq!(
        g::format("format ascii 1.0").unwrap(),
        (Encoding::Ascii, Version { major: 1, minor: 0 })
    );
    assert_eq!(
        g::format("format binary_big_endian 2.1").unwrap(),
        (Encoding::BinaryBigEndian, Version { major: 2, minor: 1 })
    );
    assert_eq!(
        g::format("format binary_little_endian 1.0").unwrap(),
        (Encoding::BinaryLittleEndian, Version { major: 1, minor: 0 })
    );
}

#[test]
fn format_err() {
    assert!(g::format("format asciii 1.0").is_err());
    assert!(g::format("format ascii -1.0").is_err());
}

#[test]
fn comment_ok() {
    assert!(g::comment("comment hi").is_ok());
    assert_eq!(
        g::comment("comment   hi, I'm a comment!").unwrap(),
        "hi, I'm a comment!"
    );
    assert!(g::comment("comment ").is_ok());
    assert!(g::comment("comment").is_ok());
}

#[test]
fn comment_err() {
    assert!(g::comment("commentt").is_err());
    assert!(g::comment("comment hi\na comment").is_err());
    assert!(g::comment("comment hi\r\na comment").is_err());
}

#[test]
fn obj_info_ok() {
    assert!(g::obj_info("obj_info Hi, I can help.").is_ok());
}

#[test]
fn element_ok() {
    assert_eq!(
        g::element("element vertex 8").unwrap(),
        ElementDef::new("vertex".to_string(), 8)
    );
}

#[test]
fn element_err() {
    assert!(g::comment("element 8 vertex").is_err());
}

#[test]
fn property_ok() {
    assert_eq!(
        g::property("property char c").unwrap(),
        PropertyDef::new("c".to_string(), PropertyType::Scalar(ScalarType::Char))
    );
}

#[test]
fn property_list_ok() {
    assert_eq!(
        g::property("property list uchar int c").unwrap(),
        PropertyDef::new(
            "c".to_string(),
            PropertyType::List(ScalarType::UChar, ScalarType::Int)
        )
    );
}

#[test]
fn line_ok() {
    assert_eq!(g::line("ply ").unwrap(), Line::MagicNumber);
    assert_eq!(
        g::line("format ascii 1.0 ").unwrap(),
        Line::Format((Encoding::Ascii, Version { major: 1, minor: 0 }))
    );
    assert!(g::line("comment a very nice comment ").is_ok());
    assert!(g::line("element vertex 8 ").is_ok());
    assert!(g::line("property float x ").is_ok());
    assert!(g::line("element face 6 ").is_ok());
    assert!(g::line("property list uchar int vertex_index ").is_ok());
    assert!(g::line("end_header ").is_ok());
}

#[test]
fn line_breaks_ok() {
    assert_eq!(g::line("ply \n").unwrap(), Line::MagicNumber); // Unix, Mac OS X
    assert_eq!(g::line("ply \r").unwrap(), Line::MagicNumber); // Mac pre OS X
    assert_eq!(g::line("ply \r\n").unwrap(), Line::MagicNumber); // Windows
}

#[test]
fn line_says_which_production_failed() {
    assert_eq!(g::line("plyhi"), Err(SyntaxError::Keyword));
    assert_eq!(g::line(""), Err(SyntaxError::Keyword));
    assert_eq!(g::line(" ply"), Err(SyntaxError::Keyword));
    assert_eq!(g::line("ply x"), Err(SyntaxError::MagicNumber));
    assert_eq!(g::line("format ascii"), Err(SyntaxError::Format));
    assert_eq!(g::line("format ascii 1.256"), Err(SyntaxError::Format));
    assert_eq!(g::line("format ascii 65536.0"), Err(SyntaxError::Format));
    assert_eq!(g::line("element 8 vertex"), Err(SyntaxError::Element));
    assert_eq!(g::line("element vertex -1"), Err(SyntaxError::Element));
    assert_eq!(g::line("property list uchar c"), Err(SyntaxError::Property));
    assert_eq!(g::line("property int"), Err(SyntaxError::Property));
    assert_eq!(g::line("obj_info"), Err(SyntaxError::ObjInfo));
    assert_eq!(g::line("end_header now"), Err(SyntaxError::EndHeader));
    assert_eq!(g::line("comment a\rb"), Err(SyntaxError::Comment));
}

#[test]
fn line_keeps_the_text_without_the_spaces_around_it() {
    assert_eq!(
        g::line("comment \t a very  nice comment \t\r\n").unwrap(),
        Line::Comment("a very  nice comment".to_string())
    );
    assert_eq!(
        g::line("obj_info  made by hand\n").unwrap(),
        Line::ObjInfo("made by hand".to_string())
    );
    assert_eq!(g::line("comment\n").unwrap(), Line::Comment(String::new()));
}

#[test]
fn scalar_types_have_two_names_each() {
    let names = [
        ("char", "int8", ScalarType::Char),
        ("uchar", "uint8", ScalarType::UChar),
        ("short", "int16", ScalarType::Short),
        ("ushort", "uint16", ScalarType::UShort),
        ("int", "int32", ScalarType::Int),
        ("uint", "uint32", ScalarType::UInt),
        ("float", "float32", ScalarType::Float),
        ("double", "float64", ScalarType::Double),
    ];
    for (a, b, kind) in names {
        let expected = PropertyDef::new("p".to_string(), PropertyType::Scalar(kind));
        assert_eq!(g::property(&format!("property {} p", a)).unwrap(), expected);
        assert_eq!(g::property(&format!("property {} p", b)).unwrap(), expected);
    }
    assert!(g::property("property Int p").is_err());
}

#[test]
fn data_line_ok() {
    assert!(g::data_line("-7 +5.21 \r\n").is_ok());
}

#[test]
fn data_line_gives_the_tokens() {
    assert_eq!(
        g::data_line("-7 +5.21 \r\n").unwrap(),
        vec!["-7".to_string(), "+5.21".to_string()]
    );
    assert_eq!(
        g::data_line(" \t1e5  .5 5. 1.5E-3\n").unwrap(),
        vec![
            "1e5".to_string(),
            ".5".to_string(),
            "5.".to_string(),
            "1.5E-3".to_string()
        ]
    );
    assert_eq!(g::data_line("").unwrap(), Vec::<String>::new());
}

#[test]
fn data_line_refuses_what_is_no_number() {
    assert_eq!(g::data_line("1 two 3"), Err(SyntaxError::Number));
    assert_eq!(g::data_line("."), Err(SyntaxError::Number));
    assert_eq!(g::data_line("+"), Err(SyntaxError::Number));
    assert_eq!(g::data_line("e5"), Err(SyntaxError::Number));
    assert_eq!(g::data_line("1e"), Err(SyntaxError::Number));
    assert_eq!(g::data_line("1e+"), Err(SyntaxError::Number));
    assert_eq!(g::data_line("1.2.3"), Err(SyntaxError::Number));
    assert_eq!(g::data_line("1\n2"), Err(SyntaxError::Number));
}

#[test]
fn end_header_is_one_word() {
    assert!(g::end_header("end_header").is_ok());
    assert_eq!(g::end_header("end_header "), Err(SyntaxError::EndHeader));
    assert_eq!(g::end_header("end"), Err(SyntaxError::EndHeader));
}

#[test]
fn names_start_with_a_letter_or_an_underscore() {
    assert!(g::element("element _v-1 0").is_ok());
    assert!(g::element("element v.x 0").is_err());
    assert!(g::element("element 1v 0").is_err());
    assert!(g::element("element -v 0").is_err());
    assert!(g::property("property int x y").is_err());
}

#[test]
fn element_count_has_to_fit() {
    let most = format!("element v {}", usize::MAX);
    assert_eq!(g::element(&most).unwrap().count, usize::MAX);
    let more = format!("element v {}0", usize::MAX);
    assert!(g::element(&more).is_err());
    assert_eq!(g::element("element v 007").unwrap().count, 7);
}

#[test]
fn version_bounds() {
    assert_eq!(
        g::format("format ascii 65535.255").unwrap(),
        (Encoding::Ascii, Version { major: 65535, minor: 255 })
    );
    assert!(g::format("format ascii 1").is_err());
    assert!(g::format("format ascii 1.").is_err());
    assert!(g::format("format ascii .0").is_err());
    assert!(g::format("format ascii 1.0.0").is_err());
    assert!(g::format("format  ascii\t1.0").is_ok());
}

#[test]
fn obj_info_needs_a_text() {
    assert_eq!(g::obj_info("obj_info"), Err(SyntaxError::ObjInfo));
    assert_eq!(g::obj_info("obj_info   "), Err(SyntaxError::ObjInfo));
    assert_eq!(g::obj_info("obj_info x").unwrap(), "x");
}

#[test]
fn comment_may_hold_any_text() {
    assert_eq!(
        g::comment("comment gr\u{fc}\u{df}e, \u{4e16}\u{754c}").unwrap(),
        "gr\u{fc}\u{df}e, \u{4e16}\u{754c}"
    );
}
