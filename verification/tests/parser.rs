use ply_rs::error::{Detail, ErrorKind, ParseError};
use ply_rs::grammar::SyntaxError;
use ply_rs::key_map::KeyMap;
use ply_rs::parser::{Line, LineKind, Parser};
use ply_rs::ply::{
    DefaultElement, ElementDef, Encoding, Header, Property, PropertyDef, PropertyType, Real,
    Scalar, ScalarType, Version,
};

fn header_of(txt: &str) -> Result<Header, ParseError> {
    let p = Parser::<DefaultElement>::new();
    let mut bytes = txt.as_bytes();
    p.read_header(&mut bytes)
}

fn header_error(txt: &str) -> ParseError {
    match header_of(txt) {
        Ok(h) => panic!("a header was read: {:?}", h),
        Err(e) => e,
    }
}

fn int_value(v: i32) -> Property {
    Property::Scalar(Scalar::Int(v))
}

#[test]
fn parser_header_ok() {
    let p = Parser::<DefaultElement>::new();
    let txt = "ply\nformat ascii 1.0\nend_header\n";
    let mut bytes = txt.as_bytes();
    assert!(p.read_header(&mut bytes).is_ok());

    let txt = "ply\n\
        format ascii 1.0\n\
        element vertex 8\n\
        property float x\n\
        property float y\n\
        element face 6\n\
        property list uchar int vertex_index\n\
        end_header\n";
    let mut bytes = txt.as_bytes();
    assert!(p.read_header(&mut bytes).is_ok());
}

#[test]
fn parser_demo_ok() {
    let txt = "ply\nformat ascii 1.0\nend_header\n";
    let mut bytes = txt.as_bytes();
    let p = Parser::<DefaultElement>::new();
    assert!(p.read_header(&mut bytes).is_ok());

    let txt = "ply\n\
        format ascii 1.0\n\
        element vertex 1\n\
        property float x\n\
        end_header\n
        6.28318530718"; // no newline at end!
    let mut bytes = txt.as_bytes();
    assert!(p.read_header(&mut bytes).is_ok());
}

#[test]
fn parser_single_elements_ok() {
    let txt = "ply\r\n\
        format ascii 1.0\r\n\
        comment Hi, I'm your friendly comment.\r\n\
        obj_info And I'm your object information.\r\n\
        element point 2\r\n\
        property int x\r\n\
        property int y\r\n\
        end_header\r\n\
        -7 5\r\n\
        2 4\r\n";
    let mut bytes = txt.as_bytes();
    let p = Parser::<DefaultElement>::new();
    assert!(p.read_ply(&mut bytes).is_ok());
}

#[test]
fn read_property_ok() {
    let p = Parser::<DefaultElement>::new();
    let txt = "0 1 2 3";
    let mut prop = KeyMap::<PropertyDef>::new();
    prop.add(PropertyDef::new("a".to_string(), PropertyType::Scalar(ScalarType::Char)));
    prop.add(PropertyDef::new("b".to_string(), PropertyType::Scalar(ScalarType::UChar)));
    prop.add(PropertyDef::new("c".to_string(), PropertyType::Scalar(ScalarType::Short)));
    prop.add(PropertyDef::new("d".to_string(), PropertyType::Scalar(ScalarType::UShort)));
    let mut elem_def = ElementDef::new("dummy".to_string(), 0);
    elem_def.properties = prop;

    let properties = p.read_ascii_element(&txt, &elem_def);
    assert!(properties.is_ok(), "error: {:?}", properties);
}

#[test]
fn header_holds_what_the_lines_declare() {
    let h = header_of(
        "ply\r\n\
        format binary_big_endian 1.0\r\n\
        comment Hi, I'm your friendly comment.\r\n\
        obj_info And I'm your object information.\r\n\
        element point 2\r\n\
        property int x\r\n\
        comment between\r\n\
        property list uchar float y\r\n\
        element face 0\r\n\
        end_header\r\n",
    )
    .unwrap();
    assert_eq!(h.encoding, Encoding::BinaryBigEndian);
    assert_eq!(h.version, Version { major: 1, minor: 0 });
    assert_eq!(
        h.comments,
        vec!["Hi, I'm your friendly comment.".to_string(), "between".to_string()]
    );
    assert_eq!(h.obj_infos, vec!["And I'm your object information.".to_string()]);
    assert_eq!(h.elements.len(), 2);
    assert_eq!(h.elements.key_at(0), "point");
    assert_eq!(h.elements.key_at(1), "face");
    let point = h.elements.get("point").unwrap();
    assert_eq!(point.name, "point");
    assert_eq!(point.count, 2);
    assert_eq!(point.properties.len(), 2);
    assert_eq!(point.properties.key_at(0), "x");
    assert_eq!(
        point.properties.value_at(0),
        &PropertyDef::new("x".to_string(), PropertyType::Scalar(ScalarType::Int))
    );
    assert_eq!(
        point.properties.value_at(1),
        &PropertyDef::new(
            "y".to_string(),
            PropertyType::List(ScalarType::UChar, ScalarType::Float)
        )
    );
    let face = h.elements.get("face").unwrap();
    assert_eq!(face.count, 0);
    assert!(face.properties.is_empty());
}

#[test]
fn header_leaves_the_payload_in_the_reader() {
    let p = Parser::<DefaultElement>::new();
    let mut bytes: &[u8] = b"ply\nformat ascii 1.0\nend_header\n1 2\n3 4\n";
    assert!(p.read_header(&mut bytes).is_ok());
    assert_eq!(bytes, b"1 2\n3 4\n");
    let mut bytes: &[u8] = b"ply\nformat ascii 1.0\nend_header";
    assert!(p.read_header(&mut bytes).is_ok());
    assert_eq!(bytes, b"");
}

#[test]
fn first_line_has_to_be_the_magic_number() {
    let e = header_error("format ascii 1.0\nply\nend_header\n");
    assert_eq!(e.kind, ErrorKind::InvalidHeader);
    assert_eq!(e.line, 1);
    assert_eq!(e.text, "format ascii 1.0\n");
    assert_eq!(e.detail, Detail::Unexpected(LineKind::Format));

    let e = header_error("plx\nformat ascii 1.0\nend_header\n");
    assert_eq!(e.kind, ErrorKind::InvalidHeader);
    assert_eq!(e.line, 1);
    assert_eq!(e.text, "plx\n");
    assert_eq!(e.detail, Detail::Syntax(SyntaxError::Keyword));

    let e = header_error("");
    assert_eq!(e.kind, ErrorKind::InvalidHeader);
    assert_eq!(e.line, 1);
    assert_eq!(e.text, "");
}

#[test]
fn repeated_magic_number_is_refused() {
    let e = header_error("ply\nformat ascii 1.0\nply\nend_header\n");
    assert_eq!(e.kind, ErrorKind::InvalidHeader);
    assert_eq!(e.line, 3);
    assert_eq!(e.text, "ply\n");
    assert_eq!(e.detail, Detail::Unexpected(LineKind::MagicNumber));
}

#[test]
fn second_format_line_has_to_agree() {
    assert!(header_of("ply\nformat ascii 1.0\nformat ascii 1.0\nend_header\n").is_ok());
    assert!(header_of("ply\nformat ascii 1.0\nformat ascii 01.00\nend_header\n").is_ok());

    let e = header_error("ply\nformat ascii 1.0\nformat binary_big_endian 1.0\nend_header\n");
    assert_eq!(e.kind, ErrorKind::InvalidHeader);
    assert_eq!(e.line, 3);
    assert_eq!(e.text, "format binary_big_endian 1.0\n");
    assert_eq!(
        e.detail,
        Detail::Formats {
            found: (Encoding::BinaryBigEndian, Version { major: 1, minor: 0 }),
            previous: (Encoding::Ascii, Version { major: 1, minor: 0 }),
        }
    );

    let e = header_error("ply\nformat ascii 1.0\ncomment x\nformat ascii 1.1\nend_header\n");
    assert_eq!(e.kind, ErrorKind::InvalidHeader);
    assert_eq!(e.line, 4);
}

#[test]
fn property_needs_an_element_before_it() {
    let e = header_error("ply\nformat ascii 1.0\nproperty int x\nelement v 1\nend_header\n");
    assert_eq!(e.kind, ErrorKind::PropertyBeforeElement);
    assert_eq!(e.line, 3);
    assert_eq!(e.property, "x");
    assert_eq!(e.text, "property int x\n");
}

#[test]
fn element_names_are_unique() {
    let e = header_error(
        "ply\nformat ascii 1.0\nelement v 1\nproperty int x\nelement f 2\nelement v 3\nend_header\n",
    );
    assert_eq!(e.kind, ErrorKind::DuplicateElement);
    assert_eq!(e.line, 6);
    assert_eq!(e.element, "v");
}

#[test]
fn property_names_are_unique_within_an_element() {
    let e = header_error(
        "ply\nformat ascii 1.0\nelement v 1\nproperty int x\nproperty float x\nend_header\n",
    );
    assert_eq!(e.kind, ErrorKind::DuplicateProperty);
    assert_eq!(e.line, 5);
    assert_eq!(e.element, "v");
    assert_eq!(e.property, "x");

    assert!(header_of(
        "ply\nformat ascii 1.0\nelement v 1\nproperty int x\nelement f 1\nproperty int x\nend_header\n"
    )
    .is_ok());
}

#[test]
fn header_needs_a_format() {
    let e = header_error("ply\nelement v 1\nend_header\n");
    assert_eq!(e.kind, ErrorKind::MissingFormat);
}

#[test]
fn header_has_to_end() {
    let e = header_error("ply\nformat ascii 1.0\nelement v 1\n");
    assert_eq!(e.kind, ErrorKind::UnexpectedEof);
    assert_eq!(e.line, 4);
    let e = header_error("ply");
    assert_eq!(e.kind, ErrorKind::UnexpectedEof);
    assert_eq!(e.line, 2);
}

#[test]
fn line_outside_the_grammar_is_refused() {
    let e = header_error("ply\nformat ascii 1.0\nelement v\nend_header\n");
    assert_eq!(e.kind, ErrorKind::InvalidInput);
    assert_eq!(e.line, 3);
    assert_eq!(e.text, "element v\n");
    assert_eq!(e.detail, Detail::Syntax(SyntaxError::Element));

    let e = header_error("ply\nformat ascii 1.0\n\nend_header\n");
    assert_eq!(e.kind, ErrorKind::InvalidInput);
    assert_eq!(e.line, 3);
    assert_eq!(e.detail, Detail::Syntax(SyntaxError::Keyword));
}

#[test]
fn header_line_has_to_be_text() {
    let p = Parser::<DefaultElement>::new();
    let mut bytes: &[u8] = b"ply\nformat ascii 1.0\ncomment \xff\xfe\nend_header\n";
    let e = p.read_header(&mut bytes).unwrap_err();
    assert_eq!(e.kind, ErrorKind::InvalidInput);
    assert_eq!(e.line, 3);
    assert_eq!(e.detail, Detail::Syntax(SyntaxError::Utf8));
    assert_eq!(e.text, "");

    let mut bytes: &[u8] = "ply\nformat ascii 1.0\ncomment gr\u{fc}n\nend_header\n".as_bytes();
    let h = p.read_header(&mut bytes).unwrap();
    assert_eq!(h.comments, vec!["gr\u{fc}n".to_string()]);
}

#[test]
fn read_header_line_wraps_the_grammar() {
    let p = Parser::<DefaultElement>::new();
    assert_eq!(p.read_header_line("ply\n").unwrap(), Line::MagicNumber);
    assert_eq!(
        p.read_header_line("element vertex 8").unwrap(),
        Line::Element(ElementDef::new("vertex".to_string(), 8))
    );
    let e = p.read_header_line("py").unwrap_err();
    assert_eq!(e.kind, ErrorKind::InvalidInput);
    assert_eq!(e.detail, Detail::Syntax(SyntaxError::Keyword));
    assert_eq!(e.text, "py");
    assert_eq!(e.line, 0);
}

#[test]
fn two_points_in_ascii() {
    let p = Parser::<DefaultElement>::new();
    let mut bytes: &[u8] =
        b"ply\nformat ascii 1.0\nelement point 2\nproperty int x\nproperty int y\nend_header\n-7 5\n2 4\n";
    let ply = p.read_ply(&mut bytes).unwrap();
    assert_eq!(bytes, b"");
    assert_eq!(ply.header.encoding, Encoding::Ascii);
    assert_eq!(ply.payload.len(), 1);
    assert_eq!(ply.payload.key_at(0), "point");
    let points = ply.payload.get("point").unwrap();
    assert_eq!(points.len(), 2);
    assert_eq!(points[0].len(), 2);
    assert_eq!(points[0].key_at(0), "x");
    assert_eq!(points[0].key_at(1), "y");
    assert_eq!(points[0].get("x"), Some(&int_value(-7)));
    assert_eq!(points[0].get("y"), Some(&int_value(5)));
    assert_eq!(points[1].get("x"), Some(&int_value(2)));
    assert_eq!(points[1].get("y"), Some(&int_value(4)));
}

#[test]
fn whole_file_in_binary() {
    let p = Parser::<DefaultElement>::new();
    let mut file = Vec::new();
    file.extend_from_slice(
        b"ply\nformat binary_little_endian 1.0\nelement vertex 2\nproperty float x\nproperty short n\nelement face 1\nproperty list uchar int vertex_index\nend_header\n",
    );
    file.extend_from_slice(&1.5f32.to_le_bytes());
    file.extend_from_slice(&(-2i16).to_le_bytes());
    file.extend_from_slice(&(-0.25f32).to_le_bytes());
    file.extend_from_slice(&300i16.to_le_bytes());
    file.push(3);
    file.extend_from_slice(&0i32.to_le_bytes());
    file.extend_from_slice(&1i32.to_le_bytes());
    file.extend_from_slice(&(-1i32).to_le_bytes());
    file.extend_from_slice(b"rest");
    let mut bytes: &[u8] = &file;
    let ply = p.read_ply(&mut bytes).unwrap();
    assert_eq!(bytes, b"rest");
    assert_eq!(ply.payload.len(), 2);
    assert_eq!(ply.payload.key_at(0), "vertex");
    assert_eq!(ply.payload.key_at(1), "face");
    let vertices = ply.payload.get("vertex").unwrap();
    assert_eq!(vertices.len(), 2);
    assert_eq!(
        vertices[0].get("x"),
        Some(&Property::Scalar(Scalar::Float(Real::Single(1.5f32.to_bits()))))
    );
    assert_eq!(vertices[0].get("n"), Some(&Property::Scalar(Scalar::Short(-2))));
    assert_eq!(
        vertices[1].get("x"),
        Some(&Property::Scalar(Scalar::Float(Real::Single((-0.25f32).to_bits()))))
    );
    assert_eq!(vertices[1].get("n"), Some(&Property::Scalar(Scalar::Short(300))));
    let faces = ply.payload.get("face").unwrap();
    assert_eq!(faces.len(), 1);
    assert_eq!(
        faces[0].get("vertex_index"),
        Some(&Property::List(vec![Scalar::Int(0), Scalar::Int(1), Scalar::Int(-1)]))
    );
}

#[test]
fn payload_lines_are_numbered_behind_the_header() {
    let p = Parser::<DefaultElement>::new();
    let mut bytes: &[u8] =
        b"ply\nformat ascii 1.0\nelement point 3\nproperty int x\nproperty int y\nend_header\n-7 5\n2\n3 4\n";
    let e = p.read_ply(&mut bytes).unwrap_err();
    assert_eq!(e.kind, ErrorKind::MalformedRecord);
    assert_eq!(e.line, 8);
    assert_eq!(e.text, "2\n");
    assert_eq!(e.element, "point");
    assert_eq!(e.property, "y");
    assert_eq!(e.token, "");
}

#[test]
fn ascii_payload_has_to_hold_all_records() {
    let p = Parser::<DefaultElement>::new();
    let mut bytes: &[u8] =
        b"ply\nformat ascii 1.0\nelement point 3\nproperty int x\nend_header\n1\n2\n";
    let e = p.read_ply(&mut bytes).unwrap_err();
    assert_eq!(e.kind, ErrorKind::UnexpectedEof);
    assert_eq!(e.line, 8);
    assert_eq!(e.element, "point");
}

#[test]
fn header_error_ends_the_whole_read() {
    let p = Parser::<DefaultElement>::new();
    let mut bytes: &[u8] = b"ply\nformat ascii 1.0\nproperty int x\nend_header\n1\n";
    let e = p.read_ply(&mut bytes).unwrap_err();
    assert_eq!(e.kind, ErrorKind::PropertyBeforeElement);
}

#[test]
fn header_is_read_again_from_its_canonical_text() {
    let first = header_of(
        "ply \r\n\
        format  binary_little_endian\t01.00\r\n\
        comment   made by hand  \r\n\
        element vertex 0012\r\n\
        property float32 x\r\n\
        comment\r\n\
        obj_info \t two  words\r\n\
        property list uint8 int32 vertex_index\r\n\
        element face 3 \r\n\
        property uint16 n\r\n\
        end_header\r\n",
    )
    .unwrap();
    let canonical = "ply\n\
        format binary_little_endian 1.0\n\
        obj_info two  words\n\
        comment made by hand\n\
        comment\n\
        element vertex 12\n\
        property float x\n\
        property list uchar int vertex_index\n\
        element face 3\n\
        property ushort n\n\
        end_header\n";
    let p = Parser::<DefaultElement>::new();
    let mut file = canonical.as_bytes().to_vec();
    file.extend_from_slice(&[1, 2, 3]);
    let mut bytes: &[u8] = &file;
    let second = p.read_header(&mut bytes).unwrap();
    assert_eq!(first, second);
    assert_eq!(bytes, &[1, 2, 3]);
}

#[test]
fn line_kinds() {
    let p = Parser::<DefaultElement>::new();
    assert_eq!(p.read_header_line("ply").unwrap().kind(), LineKind::MagicNumber);
    assert_eq!(p.read_header_line("format ascii 1.0").unwrap().kind(), LineKind::Format);
    assert_eq!(p.read_header_line("comment").unwrap().kind(), LineKind::Comment);
    assert_eq!(p.read_header_line("obj_info x").unwrap().kind(), LineKind::ObjInfo);
    assert_eq!(p.read_header_line("element v 1").unwrap().kind(), LineKind::Element);
    assert_eq!(p.read_header_line("property int x").unwrap().kind(), LineKind::Property);
    assert_eq!(p.read_header_line("end_header").unwrap().kind(), LineKind::EndHeader);
}

#[test]
fn every_kind_of_error_has_a_cause() {
    let kinds = [
        ErrorKind::InvalidInput,
        ErrorKind::InvalidHeader,
        ErrorKind::DuplicateElement,
        ErrorKind::DuplicateProperty,
        ErrorKind::PropertyBeforeElement,
        ErrorKind::MissingFormat,
        ErrorKind::MalformedRecord,
        ErrorKind::UnexpectedEof,
    ];
    for (i, a) in kinds.iter().enumerate() {
        assert!(!a.cause().is_empty());
        for b in &kinds[..i] {
            assert_ne!(a.cause(), b.cause());
        }
    }
    assert_eq!(ErrorKind::MissingFormat.cause(), "The header has no format line.");
    let e = header_error("ply\nend_header\n");
    assert_eq!(e.cause(), "The header has no format line.");
    assert_eq!(e.detail, Detail::Nothing);
}

#[test]
fn clone_of_a_line_is_the_line() {
    let p = Parser::<DefaultElement>::new();
    for text in [
        "ply",
        "format binary_big_endian 1.0",
        "comment c",
        "obj_info o",
        "element v 3",
        "property list uchar int i",
        "end_header",
    ] {
        let line = p.read_header_line(text).unwrap();
        assert_eq!(line.clone(), line);
    }
}
