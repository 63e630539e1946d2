use ply_rs::key_map::KeyMap;
use ply_rs::ply::{
    DefaultElement, Property, PropertyAccess, PropertyDef, PropertyType, Scalar, ScalarType,
};
use ply_rs::util::LocationTracker;

#[test]
fn key_map_keeps_the_order_of_insertion() {
    let mut m = KeyMap::<u32>::new();
    assert!(m.is_empty());
    assert_eq!(m.insert("b".to_string(), 1), None);
    assert_eq!(m.insert("a".to_string(), 2), None);
    assert_eq!(m.insert("c".to_string(), 3), None);
    assert_eq!(m.len(), 3);
    assert_eq!(m.key_at(0), "b");
    assert_eq!(m.key_at(1), "a");
    assert_eq!(m.key_at(2), "c");
    assert_eq!(*m.value_at(1), 2);
    assert_eq!(m.find("c"), Some(2));
    assert_eq!(m.find("d"), None);
}

#[test]
fn key_map_replaces_in_place() {
    let mut m = KeyMap::<u32>::new();
    m.insert("b".to_string(), 1);
    m.insert("a".to_string(), 2);
    assert_eq!(m.insert("b".to_string(), 7), Some(1));
    assert_eq!(m.len(), 2);
    assert_eq!(m.key_at(0), "b");
    assert_eq!(m.get("b"), Some(&7));
    assert_eq!(m.get("a"), Some(&2));
    assert_eq!(m.get(""), None);
    assert!(m.contains_key("a"));
    assert!(!m.contains_key("A"));
}

#[test]
fn key_map_pops_the_last_entry() {
    let mut m = KeyMap::<u32>::new();
    assert_eq!(m.pop_back(), None);
    m.insert("b".to_string(), 1);
    m.insert("a".to_string(), 2);
    assert_eq!(m.pop_back(), Some(("a".to_string(), 2)));
    assert_eq!(m.len(), 1);
    assert_eq!(m.pop_back(), Some(("b".to_string(), 1)));
    assert!(m.is_empty());
}

#[test]
fn add_stores_a_declaration_under_its_name() {
    let mut m = KeyMap::<PropertyDef>::new();
    m.add(PropertyDef::new("x".to_string(), PropertyType::Scalar(ScalarType::Int)));
    m.add(PropertyDef::new("y".to_string(), PropertyType::Scalar(ScalarType::Int)));
    m.add(PropertyDef::new("x".to_string(), PropertyType::Scalar(ScalarType::Float)));
    assert_eq!(m.len(), 2);
    assert_eq!(m.key_at(0), "x");
    assert_eq!(
        m.get("x").unwrap().data_type,
        PropertyType::Scalar(ScalarType::Float)
    );
}

#[test]
fn default_element_takes_properties_by_name() {
    let mut e = <DefaultElement as PropertyAccess>::new();
    e.set_property("x".to_string(), Property::Scalar(Scalar::Int(1)));
    e.set_property("y".to_string(), Property::Scalar(Scalar::Int(2)));
    e.set_property("x".to_string(), Property::Scalar(Scalar::Int(3)));
    assert_eq!(e.len(), 2);
    assert_eq!(e.get("x"), Some(&Property::Scalar(Scalar::Int(3))));
    assert_eq!(e.get("y"), Some(&Property::Scalar(Scalar::Int(2))));
}

#[test]
fn location_counts_from_one() {
    let mut l = LocationTracker::new();
    assert_eq!(l.line_index, 0);
    l.next_line();
    assert_eq!(l.line_index, 1);
    l.next_line();
    assert_eq!(l.line_index, 2);
    l.line_index = usize::MAX;
    l.next_line();
    assert_eq!(l.line_index, usize::MAX);
}

#[test]
fn scalar_widths() {
    assert_eq!(ScalarType::Char.width(), 1);
    assert_eq!(ScalarType::UChar.width(), 1);
    assert_eq!(ScalarType::Short.width(), 2);
    assert_eq!(ScalarType::UShort.width(), 2);
    assert_eq!(ScalarType::Int.width(), 4);
    assert_eq!(ScalarType::UInt.width(), 4);
    assert_eq!(ScalarType::Float.width(), 4);
    assert_eq!(ScalarType::Double.width(), 8);
    assert!(ScalarType::UInt.is_integer());
    assert!(!ScalarType::Float.is_integer());
    assert!(!ScalarType::Double.is_integer());
}

#[test]
fn list_lengths() {
    assert_eq!(Scalar::Char(-1).as_count(), None);
    assert_eq!(Scalar::Char(5).as_count(), Some(5));
    assert_eq!(Scalar::UChar(255).as_count(), Some(255));
    assert_eq!(Scalar::Short(-32768).as_count(), None);
    assert_eq!(Scalar::UShort(65535).as_count(), Some(65535));
    assert_eq!(Scalar::Int(i32::MAX).as_count(), Some(2147483647));
    assert_eq!(Scalar::Int(-1).as_count(), None);
    assert_eq!(Scalar::UInt(u32::MAX).as_count(), Some(u32::MAX));
    assert_eq!(
        Scalar::Float(ply_rs::ply::Real::Single(0)).as_count(),
        None
    );
}
