use ply_rs::error::ErrorKind;
use ply_rs::key_map::KeyMap;
use ply_rs::parser::Parser;
use ply_rs::ply::{
    DefaultElement, ElementDef, Encoding, Header, Property, PropertyDef, PropertyType, Real,
    Scalar, ScalarType,
};

fn element(name: &str, count: usize, properties: &[(&str, PropertyType)]) -> ElementDef {
    let mut map = KeyMap::<PropertyDef>::new();
    for (n, t) in properties {
        map.add(PropertyDef::new(n.to_string(), *t));
    }
    let mut def = ElementDef::new(name.to_string(), count);
    def.properties = map;
    def
}

fn scalar(kind: ScalarType) -> PropertyType {
    PropertyType::Scalar(kind)
}

fn header(encoding: Encoding) -> Header {
    let mut h = Header::new();
    h.encoding = encoding;
    h
}

fn parser() -> Parser<DefaultElement> {
    Parser::<DefaultElement>::new()
}

#[test]
fn ascii_record_of_each_kind() {
    let def = element(
        "e",
        1,
        &[
            ("a", scalar(ScalarType::Char)),
            ("b", scalar(ScalarType::UChar)),
            ("c", scalar(ScalarType::Short)),
            ("d", scalar(ScalarType::UShort)),
            ("e", scalar(ScalarType::Int)),
            ("f", scalar(ScalarType::UInt)),
            ("g", scalar(ScalarType::Float)),
            ("h", scalar(ScalarType::Double)),
        ],
    );
    let r = parser()
        .read_ascii_element("-128 255 -32768 65535 -2147483648 4294967295 +5.21 -1e-3\r\n", &def)
        .unwrap();
    assert_eq!(r.len(), 8);
    assert_eq!(r.get("a"), Some(&Property::Scalar(Scalar::Char(-128))));
    assert_eq!(r.get("b"), Some(&Property::Scalar(Scalar::UChar(255))));
    assert_eq!(r.get("c"), Some(&Property::Scalar(Scalar::Short(-32768))));
    assert_eq!(r.get("d"), Some(&Property::Scalar(Scalar::UShort(65535))));
    assert_eq!(r.get("e"), Some(&Property::Scalar(Scalar::Int(-2147483648))));
    assert_eq!(r.get("f"), Some(&Property::Scalar(Scalar::UInt(4294967295))));
    assert_eq!(
        r.get("g"),
        Some(&Property::Scalar(Scalar::Float(Real::Decimal("+5.21".to_string()))))
    );
    assert_eq!(
        r.get("h"),
        Some(&Property::Scalar(Scalar::Double(Real::Decimal("-1e-3".to_string()))))
    );
    match r.get("g") {
        Some(Property::Scalar(Scalar::Float(Real::Decimal(text)))) => {
            assert_eq!(text.parse::<f32>().unwrap(), 5.21f32)
        }
        other => panic!("{:?}", other),
    }
}

#[test]
fn ascii_numbers_out_of_range_are_refused() {
    let cases = [
        (ScalarType::Char, "128"),
        (ScalarType::Char, "-129"),
        (ScalarType::UChar, "256"),
        (ScalarType::UChar, "-1"),
        (ScalarType::Short, "32768"),
        (ScalarType::Short, "-32769"),
        (ScalarType::UShort, "65536"),
        (ScalarType::Int, "2147483648"),
        (ScalarType::Int, "-2147483649"),
        (ScalarType::UInt, "4294967296"),
        (ScalarType::UInt, "99999999999999999999999999"),
        (ScalarType::Int, "5.0"),
        (ScalarType::Int, "1e3"),
        (ScalarType::Int, "x"),
        (ScalarType::Int, "-"),
        (ScalarType::Int, "--1"),
        (ScalarType::Float, "nan"),
        (ScalarType::Double, "1,5"),
    ];
    for (kind, token) in cases {
        let def = element("e", 1, &[("v", scalar(kind))]);
        let e = parser().read_ascii_element(token, &def).unwrap_err();
        assert_eq!(e.kind, ErrorKind::MalformedRecord, "{:?} {}", kind, token);
        assert_eq!(e.property, "v");
        assert_eq!(e.token, token);
    }
    let def = element("e", 1, &[("v", scalar(ScalarType::UInt))]);
    let r = parser().read_ascii_element("+0004294967295", &def).unwrap();
    assert_eq!(r.get("v"), Some(&Property::Scalar(Scalar::UInt(4294967295))));
}

#[test]
fn ascii_list_leaves_its_length_out() {
    let def = element(
        "face",
        1,
        &[("vertex_index", PropertyType::List(ScalarType::UChar, ScalarType::Int))],
    );
    let r = parser().read_ascii_element("3 0 1 2", &def).unwrap();
    assert_eq!(r.len(), 1);
    assert_eq!(
        r.get("vertex_index"),
        Some(&Property::List(vec![Scalar::Int(0), Scalar::Int(1), Scalar::Int(2)]))
    );
}

#[test]
fn ascii_list_between_scalars() {
    let def = element(
        "e",
        1,
        &[
            ("a", scalar(ScalarType::Int)),
            ("l", PropertyType::List(ScalarType::Int, ScalarType::Float)),
            ("m", PropertyType::List(ScalarType::UShort, ScalarType::UChar)),
            ("b", scalar(ScalarType::Int)),
        ],
    );
    let r = parser().read_ascii_element("1 2 0.5 1.5 0 9 and more", &def).unwrap();
    assert_eq!(r.get("a"), Some(&Property::Scalar(Scalar::Int(1))));
    assert_eq!(
        r.get("l"),
        Some(&Property::List(vec![
            Scalar::Float(Real::Decimal("0.5".to_string())),
            Scalar::Float(Real::Decimal("1.5".to_string()))
        ]))
    );
    assert_eq!(r.get("m"), Some(&Property::List(vec![])));
    assert_eq!(r.get("b"), Some(&Property::Scalar(Scalar::Int(9))));
}

#[test]
fn ascii_record_with_too_few_tokens_names_the_property() {
    let def = element(
        "point",
        1,
        &[
            ("x", scalar(ScalarType::Int)),
            ("y", scalar(ScalarType::Int)),
            ("z", scalar(ScalarType::Int)),
        ],
    );
    let e = parser().read_ascii_element("1 2\n", &def).unwrap_err();
    assert_eq!(e.kind, ErrorKind::MalformedRecord);
    assert_eq!(e.property, "z");
    assert_eq!(e.token, "");
    let e = parser().read_ascii_element("", &def).unwrap_err();
    assert_eq!(e.property, "x");

    let def = element("f", 1, &[("l", PropertyType::List(ScalarType::UChar, ScalarType::Int))]);
    let e = parser().read_ascii_element("3 0 1", &def).unwrap_err();
    assert_eq!(e.kind, ErrorKind::MalformedRecord);
    assert_eq!(e.property, "l");
    assert_eq!(e.token, "");
}

#[test]
fn list_length_has_to_be_a_count() {
    let def = element("f", 1, &[("l", PropertyType::List(ScalarType::Int, ScalarType::Int))]);
    let e = parser().read_ascii_element("-1 0", &def).unwrap_err();
    assert_eq!(e.kind, ErrorKind::MalformedRecord);
    assert_eq!(e.token, "-1");
    let def = element("f", 1, &[("l", PropertyType::List(ScalarType::Float, ScalarType::Int))]);
    let e = parser().read_ascii_element("1 0", &def).unwrap_err();
    assert_eq!(e.kind, ErrorKind::MalformedRecord);
    assert_eq!(e.token, "1");

    let def = element("f", 1, &[("l", PropertyType::List(ScalarType::Char, ScalarType::UChar))]);
    let mut bytes: &[u8] = &[0xff, 1, 2];
    let e = parser().read_big_endian_element(&mut bytes, &def).unwrap_err();
    assert_eq!(e.kind, ErrorKind::MalformedRecord);
    assert_eq!(e.property, "l");
    let def = element("f", 1, &[("l", PropertyType::List(ScalarType::Float, ScalarType::UChar))]);
    let mut bytes: &[u8] = &[0, 0, 0, 0, 1, 2];
    let e = parser().read_little_endian_element(&mut bytes, &def).unwrap_err();
    assert_eq!(e.kind, ErrorKind::MalformedRecord);
}

#[test]
fn extra_tokens_are_left_aside() {
    let def = element("point", 1, &[("x", scalar(ScalarType::Int))]);
    let r = parser().read_ascii_element("1 2 three", &def).unwrap();
    assert_eq!(r.len(), 1);
    assert_eq!(r.get("x"), Some(&Property::Scalar(Scalar::Int(1))));
}

#[test]
fn binary_record_of_each_kind_big_endian() {
    let def = element(
        "e",
        1,
        &[
            ("a", scalar(ScalarType::Char)),
            ("b", scalar(ScalarType::UChar)),
            ("c", scalar(ScalarType::Short)),
            ("d", scalar(ScalarType::UShort)),
            ("e", scalar(ScalarType::Int)),
            ("f", scalar(ScalarType::UInt)),
            ("g", scalar(ScalarType::Float)),
            ("h", scalar(ScalarType::Double)),
        ],
    );
    let mut data = Vec::new();
    data.push(0x80u8);
    data.push(0xffu8);
    data.extend_from_slice(&(-2i16).to_be_bytes());
    data.extend_from_slice(&0xfedcu16.to_be_bytes());
    data.extend_from_slice(&(-100000i32).to_be_bytes());
    data.extend_from_slice(&0x89abcdefu32.to_be_bytes());
    data.extend_from_slice(&6.5f32.to_be_bytes());
    data.extend_from_slice(&(-1234.5678f64).to_be_bytes());
    data.push(42);
    let mut bytes: &[u8] = &data;
    let r = parser().read_big_endian_element(&mut bytes, &def).unwrap();
    assert_eq!(bytes, &[42]);
    assert_eq!(r.get("a"), Some(&Property::Scalar(Scalar::Char(-128))));
    assert_eq!(r.get("b"), Some(&Property::Scalar(Scalar::UChar(255))));
    assert_eq!(r.get("c"), Some(&Property::Scalar(Scalar::Short(-2))));
    assert_eq!(r.get("d"), Some(&Property::Scalar(Scalar::UShort(0xfedc))));
    assert_eq!(r.get("e"), Some(&Property::Scalar(Scalar::Int(-100000))));
    assert_eq!(r.get("f"), Some(&Property::Scalar(Scalar::UInt(0x89abcdef))));
    match r.get("g") {
        Some(Property::Scalar(Scalar::Float(Real::Single(bits)))) => {
            assert_eq!(f32::from_bits(*bits), 6.5f32)
        }
        other => panic!("{:?}", other),
    }
    match r.get("h") {
        Some(Property::Scalar(Scalar::Double(Real::Double(bits)))) => {
            assert_eq!(f64::from_bits(*bits), -1234.5678f64)
        }
        other => panic!("{:?}", other),
    }
}

#[test]
fn binary_record_of_each_kind_little_endian() {
    let def = element(
        "e",
        1,
        &[
            ("a", scalar(ScalarType::Char)),
            ("c", scalar(ScalarType::Short)),
            ("d", scalar(ScalarType::UShort)),
            ("e", scalar(ScalarType::Int)),
            ("f", scalar(ScalarType::UInt)),
            ("g", scalar(ScalarType::Float)),
            ("h", scalar(ScalarType::Double)),
        ],
    );
    let mut data = Vec::new();
    data.push(0x7fu8);
    data.extend_from_slice(&(-32768i16).to_le_bytes());
    data.extend_from_slice(&0x1234u16.to_le_bytes());
    data.extend_from_slice(&i32::MIN.to_le_bytes());
    data.extend_from_slice(&0x01020304u32.to_le_bytes());
    data.extend_from_slice(&(-0.0f32).to_le_bytes());
    data.extend_from_slice(&2.5e300f64.to_le_bytes());
    let mut bytes: &[u8] = &data;
    let r = parser().read_little_endian_element(&mut bytes, &def).unwrap();
    assert_eq!(bytes, &[] as &[u8]);
    assert_eq!(r.get("a"), Some(&Property::Scalar(Scalar::Char(127))));
    assert_eq!(r.get("c"), Some(&Property::Scalar(Scalar::Short(-32768))));
    assert_eq!(r.get("d"), Some(&Property::Scalar(Scalar::UShort(0x1234))));
    assert_eq!(r.get("e"), Some(&Property::Scalar(Scalar::Int(i32::MIN))));
    assert_eq!(r.get("f"), Some(&Property::Scalar(Scalar::UInt(0x01020304))));
    assert_eq!(
        r.get("g"),
        Some(&Property::Scalar(Scalar::Float(Real::Single(0x8000_0000))))
    );
    assert_eq!(
        r.get("h"),
        Some(&Property::Scalar(Scalar::Double(Real::Double(2.5e300f64.to_bits()))))
    );
}

#[test]
fn byte_order_decides_the_number() {
    let def = element("e", 1, &[("v", scalar(ScalarType::Int))]);
    let data = [0x00u8, 0x00, 0x01, 0x02];
    let mut bytes: &[u8] = &data;
    let big = parser().read_big_endian_element(&mut bytes, &def).unwrap();
    let mut bytes: &[u8] = &data;
    let little = parser().read_little_endian_element(&mut bytes, &def).unwrap();
    assert_eq!(big.get("v"), Some(&Property::Scalar(Scalar::Int(0x0102))));
    assert_eq!(little.get("v"), Some(&Property::Scalar(Scalar::Int(0x02010000))));

    let same = [0x12u8, 0x34, 0x34, 0x12];
    let mut bytes: &[u8] = &same;
    let big = parser().read_big_endian_element(&mut bytes, &def).unwrap();
    let mut bytes: &[u8] = &same;
    let little = parser().read_little_endian_element(&mut bytes, &def).unwrap();
    assert_eq!(big, little);

    let def = element("e", 1, &[("v", scalar(ScalarType::UShort))]);
    let mut bytes: &[u8] = &[1, 2];
    let big = parser().read_big_endian_element(&mut bytes, &def).unwrap();
    let mut bytes: &[u8] = &[1, 2];
    let little = parser().read_little_endian_element(&mut bytes, &def).unwrap();
    assert_eq!(big.get("v"), Some(&Property::Scalar(Scalar::UShort(0x0102))));
    assert_eq!(little.get("v"), Some(&Property::Scalar(Scalar::UShort(0x0201))));

    let def = element("e", 1, &[("v", scalar(ScalarType::Double))]);
    let mut bytes: &[u8] = &[1, 2, 3, 4, 5, 6, 7, 8];
    let big = parser().read_big_endian_element(&mut bytes, &def).unwrap();
    let mut bytes: &[u8] = &[1, 2, 3, 4, 5, 6, 7, 8];
    let little = parser().read_little_endian_element(&mut bytes, &def).unwrap();
    assert_eq!(
        big.get("v"),
        Some(&Property::Scalar(Scalar::Double(Real::Double(0x0102030405060708))))
    );
    assert_eq!(
        little.get("v"),
        Some(&Property::Scalar(Scalar::Double(Real::Double(0x0807060504030201))))
    );
}

#[test]
fn binary_list() {
    let def = element(
        "face",
        1,
        &[
            ("vertex_index", PropertyType::List(ScalarType::UChar, ScalarType::Int)),
            ("tag", scalar(ScalarType::UChar)),
        ],
    );
    let mut data = vec![3u8];
    data.extend_from_slice(&0i32.to_be_bytes());
    data.extend_from_slice(&1i32.to_be_bytes());
    data.extend_from_slice(&2i32.to_be_bytes());
    data.push(9);
    let mut bytes: &[u8] = &data;
    let r = parser().read_big_endian_element(&mut bytes, &def).unwrap();
    assert_eq!(
        r.get("vertex_index"),
        Some(&Property::List(vec![Scalar::Int(0), Scalar::Int(1), Scalar::Int(2)]))
    );
    assert_eq!(r.get("tag"), Some(&Property::Scalar(Scalar::UChar(9))));
}

#[test]
fn truncated_binary_payload_is_refused() {
    let def = element(
        "vertex",
        3,
        &[("x", scalar(ScalarType::Int)), ("y", scalar(ScalarType::Short))],
    );
    let data = [0u8; 17];
    let mut bytes: &[u8] = &data;
    let e = parser()
        .read_payload_for_element(&mut bytes, &def, &header(Encoding::BinaryBigEndian))
        .unwrap_err();
    assert_eq!(e.kind, ErrorKind::UnexpectedEof);
    assert_eq!(e.element, "vertex");
    assert_eq!(e.property, "y");

    let data = [0u8; 18];
    let mut bytes: &[u8] = &data;
    let r = parser()
        .read_payload_for_element(&mut bytes, &def, &header(Encoding::BinaryLittleEndian))
        .unwrap();
    assert_eq!(r.len(), 3);

    let def = element("f", 1, &[("l", PropertyType::List(ScalarType::UChar, ScalarType::Int))]);
    let mut bytes: &[u8] = &[2, 0, 0, 0, 1, 0, 0];
    let e = parser().read_little_endian_element(&mut bytes, &def).unwrap_err();
    assert_eq!(e.kind, ErrorKind::UnexpectedEof);
    assert_eq!(e.property, "l");
    let mut bytes: &[u8] = &[];
    let e = parser().read_little_endian_element(&mut bytes, &def).unwrap_err();
    assert_eq!(e.kind, ErrorKind::UnexpectedEof);
}

#[test]
fn payload_for_element_in_ascii() {
    let def = element("point", 2, &[("x", scalar(ScalarType::Int))]);
    let mut bytes: &[u8] = b"1\n2\n3\n";
    let r = parser()
        .read_payload_for_element(&mut bytes, &def, &header(Encoding::Ascii))
        .unwrap();
    assert_eq!(bytes, b"3\n");
    assert_eq!(r.len(), 2);
    assert_eq!(r[0].get("x"), Some(&Property::Scalar(Scalar::Int(1))));
    assert_eq!(r[1].get("x"), Some(&Property::Scalar(Scalar::Int(2))));

    let mut bytes: &[u8] = b"1\nx\n";
    let e = parser()
        .read_payload_for_element(&mut bytes, &def, &header(Encoding::Ascii))
        .unwrap_err();
    assert_eq!(e.kind, ErrorKind::MalformedRecord);
    assert_eq!(e.line, 2);
    assert_eq!(e.text, "x\n");
    assert_eq!(e.element, "point");
    assert_eq!(e.property, "x");
    assert_eq!(e.token, "x");

    let mut bytes: &[u8] = b"1\n";
    let e = parser()
        .read_payload_for_element(&mut bytes, &def, &header(Encoding::Ascii))
        .unwrap_err();
    assert_eq!(e.kind, ErrorKind::UnexpectedEof);
    assert_eq!(e.line, 2);

    let mut bytes: &[u8] = b"1\n\xff\n";
    let e = parser()
        .read_payload_for_element(&mut bytes, &def, &header(Encoding::Ascii))
        .unwrap_err();
    assert_eq!(e.kind, ErrorKind::MalformedRecord);
    assert_eq!(e.line, 2);
}

#[test]
fn element_without_records() {
    let def = element("point", 0, &[("x", scalar(ScalarType::Int))]);
    let mut bytes: &[u8] = b"1\n";
    for encoding in [Encoding::Ascii, Encoding::BinaryBigEndian, Encoding::BinaryLittleEndian] {
        let r = parser()
            .read_payload_for_element(&mut bytes, &def, &header(encoding))
            .unwrap();
        assert!(r.is_empty());
        assert_eq!(bytes, b"1\n");
    }
}

#[test]
fn truncated_binary_file_is_refused() {
    let mut file = Vec::new();
    file.extend_from_slice(
        b"ply\nformat binary_big_endian 1.0\nelement vertex 2\nproperty int x\nelement face 1\nproperty list uchar short i\nend_header\n",
    );
    let header_len = file.len();
    file.extend_from_slice(&7i32.to_be_bytes());
    file.extend_from_slice(&(-7i32).to_be_bytes());
    file.push(2);
    file.extend_from_slice(&1i16.to_be_bytes());
    file.extend_from_slice(&2i16.to_be_bytes());
    let p = parser();
    let mut bytes: &[u8] = &file;
    let ply = p.read_ply(&mut bytes).unwrap();
    assert_eq!(ply.payload.get("vertex").unwrap().len(), 2);
    assert_eq!(ply.payload.get("face").unwrap().len(), 1);
    for cut in header_len..file.len() {
        let mut bytes: &[u8] = &file[..cut];
        let e = p.read_ply(&mut bytes).unwrap_err();
        assert_eq!(e.kind, ErrorKind::UnexpectedEof, "cut at {}", cut);
    }
}

#[test]
fn payload_holds_as_many_records_as_declared() {
    let p = parser();
    let mut bytes: &[u8] =
        b"ply\nformat ascii 1.0\nelement a 3\nproperty int x\nelement b 0\nproperty int y\nelement c 1\nend_header\n1\n2\n3\n\n";
    let ply = p.read_ply(&mut bytes).unwrap();
    assert_eq!(ply.payload.len(), 3);
    for i in 0..3 {
        assert_eq!(ply.payload.key_at(i), ply.header.elements.key_at(i));
        assert_eq!(ply.payload.value_at(i).len(), ply.header.elements.value_at(i).count);
    }
    assert_eq!(bytes, b"");
}

#[test]
fn many_records() {
    let n = 2000usize;
    let mut text = String::new();
    text.push_str("ply\nformat ascii 1.0\nelement vertex ");
    text.push_str(&n.to_string());
    text.push_str("\nproperty float x\nproperty float y\nproperty float z\nproperty uchar r\nproperty list uchar int l\nend_header\n");
    for i in 0..n {
        text.push_str(&format!("{}.5 -{}e-2 0.25 {} 3 {} {} {}\n", i, i, i % 256, i, i + 1, i + 2));
    }
    let p = parser();
    let mut bytes: &[u8] = text.as_bytes();
    let ply = p.read_ply(&mut bytes).unwrap();
    let vertices = ply.payload.get("vertex").unwrap();
    assert_eq!(vertices.len(), n);
    let last = &vertices[n - 1];
    assert_eq!(
        last.get("x"),
        Some(&Property::Scalar(Scalar::Float(Real::Decimal("1999.5".to_string()))))
    );
    assert_eq!(last.get("r"), Some(&Property::Scalar(Scalar::UChar(207))));
    assert_eq!(
        last.get("l"),
        Some(&Property::List(vec![Scalar::Int(1999), Scalar::Int(2000), Scalar::Int(2001)]))
    );
}
