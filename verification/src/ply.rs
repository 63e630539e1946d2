//! The data model: what a header declares and what a payload holds.

use crate::key_map::{lemma_with_entry_map_entries, map_entries, with_entry, KeyMap};
use vstd::prelude::*;

verus! {

/// A line of free text from the header.
pub type Comment = String;

/// A line of free text about the object as a whole.
pub type ObjInfo = String;

/// The version of the file format, as the format line gives it.
#[derive(Debug, Clone, Copy, PartialEq, Eq, Structural)]
pub struct Version {
    pub major: u16,
    pub minor: u8,
}

/// How the payload is laid out. One encoding holds for a whole file.
#[derive(Debug, Clone, Copy, PartialEq, Eq, Structural)]
pub enum Encoding {
    Ascii,
    BinaryBigEndian,
    BinaryLittleEndian,
}

/// The kinds of number that a property can hold.
#[derive(Debug, Clone, Copy, PartialEq, Eq, Structural)]
pub enum ScalarType {
    /// Signed, 8 bits.
    Char,
    /// Unsigned, 8 bits.
    UChar,
    /// Signed, 16 bits.
    Short,
    /// Unsigned, 16 bits.
    UShort,
    /// Signed, 32 bits.
    Int,
    /// Unsigned, 32 bits.
    UInt,
    /// Floating point, 32 bits.
    Float,
    /// Floating point, 64 bits.
    Double,
}

impl ScalarType {
    /// The number of bytes that a value of this kind takes in a binary payload.
    pub open spec fn spec_width(self) -> usize {
        match self {
            ScalarType::Char | ScalarType::UChar => 1,
            ScalarType::Short | ScalarType::UShort => 2,
            ScalarType::Int | ScalarType::UInt | ScalarType::Float => 4,
            ScalarType::Double => 8,
        }
    }

    /// Whether values of this kind are whole numbers.
    pub open spec fn spec_is_integer(self) -> bool {
        !(self is Float) && !(self is Double)
    }

    /// The smallest whole number of this kind.
    pub open spec fn spec_min(self) -> int {
        match self {
            ScalarType::Char => -128,
            ScalarType::Short => -32768,
            ScalarType::Int => -2147483648,
            _ => 0,
        }
    }

    /// The largest whole number of this kind.
    pub open spec fn spec_max(self) -> int {
        match self {
            ScalarType::Char => 127,
            ScalarType::UChar => 255,
            ScalarType::Short => 32767,
            ScalarType::UShort => 65535,
            ScalarType::Int => 2147483647,
            ScalarType::UInt => 4294967295,
            _ => 0,
        }
    }

    /// The number of bytes that a value of this kind takes in a binary payload.
    #[verifier::when_used_as_spec(spec_width)]
    pub fn width(self) -> (w: usize)
        ensures
            w == self.spec_width(),
            1 <= w <= 8,
    {
        match self {
            ScalarType::Char | ScalarType::UChar => 1,
            ScalarType::Short | ScalarType::UShort => 2,
            ScalarType::Int | ScalarType::UInt | ScalarType::Float => 4,
            ScalarType::Double => 8,
        }
    }

    /// Whether values of this kind are whole numbers.
    #[verifier::when_used_as_spec(spec_is_integer)]
    pub fn is_integer(self) -> (b: bool)
        ensures
            b == self.spec_is_integer(),
    {
        match self {
            ScalarType::Float | ScalarType::Double => false,
            _ => true,
        }
    }
}

/// The type of a property: one number, or a list of numbers that is preceded
/// by its length. The first kind of a list is that of the length, the second
/// that of the items.
#[derive(Debug, Clone, Copy, PartialEq, Eq, Structural)]
pub enum PropertyType {
    Scalar(ScalarType),
    List(ScalarType, ScalarType),
}

/// The declaration of a property.
#[derive(Debug, Clone, PartialEq, Eq)]
pub struct PropertyDef {
    pub name: String,
    pub data_type: PropertyType,
}

/// A property declaration as a mathematical value.
pub struct PropertyDefView {
    pub name: Seq<char>,
    pub data_type: PropertyType,
}

impl View for PropertyDef {
    type V = PropertyDefView;

    open spec fn view(&self) -> PropertyDefView {
        PropertyDefView { name: self.name@, data_type: self.data_type }
    }
}

impl PropertyDef {
    /// The declaration of the property `name` with the type `data_type`.
    pub fn new(name: String, data_type: PropertyType) -> (r: Self)
        ensures
            r@ == (PropertyDefView { name: name@, data_type }),
    {
        PropertyDef { name, data_type }
    }
}

/// The columns of a record: the name and the type of each property, in the
/// order in which a record holds them.
pub type Schema = Seq<(Seq<char>, PropertyType)>;

/// The declaration of an element: its name, the number of its records, and
/// its properties in the order in which each record holds them.
#[derive(Debug, Clone, PartialEq, Eq)]
pub struct ElementDef {
    pub name: String,
    pub count: usize,
    pub properties: KeyMap<PropertyDef>,
}

/// An element declaration as a mathematical value.
pub struct ElementDefView {
    pub name: Seq<char>,
    pub count: nat,
    pub properties: Seq<(Seq<char>, PropertyDefView)>,
}

impl ElementDefView {
    /// The columns of a record of this element.
    pub open spec fn schema(self) -> Schema {
        self.properties.map_values(|e: (Seq<char>, PropertyDefView)| (e.0, e.1.data_type))
    }
}

/// The entries of a map of property declarations as mathematical values.
pub open spec fn property_defs_view(entries: Seq<(Seq<char>, PropertyDef)>) -> Seq<
    (Seq<char>, PropertyDefView),
> {
    map_entries(entries, |d: PropertyDef| d@)
}

impl View for ElementDef {
    type V = ElementDefView;

    open spec fn view(&self) -> ElementDefView {
        ElementDefView {
            name: self.name@,
            count: self.count as nat,
            properties: property_defs_view(self.properties@),
        }
    }
}

impl ElementDef {
    /// An element without properties.
    pub fn new(name: String, count: usize) -> (r: Self)
        ensures
            r@ == (ElementDefView {
                name: name@,
                count: count as nat,
                properties: Seq::empty(),
            }),
            r.properties@ == Seq::<(Seq<char>, PropertyDef)>::empty(),
            r.properties.wf(),
    {
        let r = ElementDef { name, count, properties: KeyMap::new() };
        assert(r@.properties =~= Seq::empty());
        r
    }

    /// The columns of a record of this element.
    pub open spec fn schema(&self) -> Schema {
        self@.schema()
    }
}

impl KeyMap<PropertyDef> {
    /// Stores a declaration under its own name.
    pub fn add(&mut self, value: PropertyDef)
        ensures
            final(self)@ == with_entry(old(self)@, value.name@, value),
            old(self).wf() ==> final(self).wf(),
    {
        let key = value.name.clone();
        let _ = self.insert(key, value);
    }
}

impl KeyMap<ElementDef> {
    /// Stores a declaration under its own name.
    pub fn add(&mut self, value: ElementDef)
        ensures
            final(self)@ == with_entry(old(self)@, value.name@, value),
            old(self).wf() ==> final(self).wf(),
    {
        let key = value.name.clone();
        let _ = self.insert(key, value);
    }
}

/// The entries of a map of element declarations as mathematical values.
pub open spec fn element_defs_view(entries: Seq<(Seq<char>, ElementDef)>) -> Seq<
    (Seq<char>, ElementDefView),
> {
    map_entries(entries, |d: ElementDef| d@)
}

/// The texts of a list of strings.
pub open spec fn texts(lines: Seq<String>) -> Seq<Seq<char>> {
    lines.map_values(|s: String| s@)
}

/// What the header of a file declares.
#[derive(Debug, Clone, PartialEq, Eq)]
pub struct Header {
    pub encoding: Encoding,
    pub version: Version,
    pub obj_infos: Vec<ObjInfo>,
    pub comments: Vec<Comment>,
    pub elements: KeyMap<ElementDef>,
}

/// A header as a mathematical value.
pub struct HeaderView {
    pub encoding: Encoding,
    pub version: Version,
    pub obj_infos: Seq<Seq<char>>,
    pub comments: Seq<Seq<char>>,
    pub elements: Seq<(Seq<char>, ElementDefView)>,
}

impl View for Header {
    type V = HeaderView;

    open spec fn view(&self) -> HeaderView {
        HeaderView {
            encoding: self.encoding,
            version: self.version,
            obj_infos: texts(self.obj_infos@),
            comments: texts(self.comments@),
            elements: element_defs_view(self.elements@),
        }
    }
}

impl Header {
    /// No two elements have the same name, and no two properties of one
    /// element do.
    pub open spec fn wf(&self) -> bool {
        &&& self.elements.wf()
        &&& forall|i: int|
            0 <= i < self.elements@.len() ==> (#[trigger] self.elements@[i]).1.properties.wf()
    }

    /// The header that declares nothing: ASCII, version 1.0.
    pub open spec fn new_view() -> HeaderView {
        HeaderView {
            encoding: Encoding::Ascii,
            version: Version { major: 1, minor: 0 },
            obj_infos: Seq::empty(),
            comments: Seq::empty(),
            elements: Seq::empty(),
        }
    }

    /// An ASCII header of version 1.0 that declares nothing.
    pub fn new() -> (r: Self)
        ensures
            r@ == Self::new_view(),
    {
        let r = Header {
            encoding: Encoding::Ascii,
            version: Version { major: 1, minor: 0 },
            obj_infos: Vec::new(),
            comments: Vec::new(),
            elements: KeyMap::new(),
        };
        assert(r@.obj_infos =~= Seq::empty());
        assert(r@.comments =~= Seq::empty());
        assert(r@.elements =~= Seq::empty());
        r
    }
}

/// A floating-point number in the form in which a payload holds it.
#[derive(Debug, Clone, PartialEq, Eq)]
pub enum Real {
    /// The bits of an IEEE 754 number of 32 bits, from a binary payload.
    Single(u32),
    /// The bits of an IEEE 754 number of 64 bits, from a binary payload.
    Double(u64),
    /// The decimal text of the number, from an ASCII payload.
    Decimal(String),
}

/// A floating-point number as a mathematical value.
pub enum RealView {
    Single(u32),
    Double(u64),
    Decimal(Seq<char>),
}

impl View for Real {
    type V = RealView;

    open spec fn view(&self) -> RealView {
        match self {
            Real::Single(bits) => RealView::Single(*bits),
            Real::Double(bits) => RealView::Double(*bits),
            Real::Decimal(text) => RealView::Decimal(text@),
        }
    }
}

/// One number of a payload, of the kind that its property declares.
#[derive(Debug, Clone, PartialEq, Eq)]
pub enum Scalar {
    Char(i8),
    UChar(u8),
    Short(i16),
    UShort(u16),
    Int(i32),
    UInt(u32),
    Float(Real),
    Double(Real),
}

/// One number of a payload as a mathematical value.
pub enum ScalarView {
    Char(i8),
    UChar(u8),
    Short(i16),
    UShort(u16),
    Int(i32),
    UInt(u32),
    Float(RealView),
    Double(RealView),
}

impl View for Scalar {
    type V = ScalarView;

    open spec fn view(&self) -> ScalarView {
        match self {
            Scalar::Char(v) => ScalarView::Char(*v),
            Scalar::UChar(v) => ScalarView::UChar(*v),
            Scalar::Short(v) => ScalarView::Short(*v),
            Scalar::UShort(v) => ScalarView::UShort(*v),
            Scalar::Int(v) => ScalarView::Int(*v),
            Scalar::UInt(v) => ScalarView::UInt(*v),
            Scalar::Float(v) => ScalarView::Float(v@),
            Scalar::Double(v) => ScalarView::Double(v@),
        }
    }
}

impl ScalarView {
    /// The whole number `value` as a number of kind `kind`. It is meant for a
    /// kind of whole numbers and a value within that kind's bounds.
    pub open spec fn of_int(kind: ScalarType, value: int) -> ScalarView {
        match kind {
            ScalarType::Char => ScalarView::Char(value as i8),
            ScalarType::UChar => ScalarView::UChar(value as u8),
            ScalarType::Short => ScalarView::Short(value as i16),
            ScalarType::UShort => ScalarView::UShort(value as u16),
            ScalarType::Int => ScalarView::Int(value as i32),
            _ => ScalarView::UInt(value as u32),
        }
    }

    /// The number as an integer, where it is a whole number.
    pub open spec fn as_int(self) -> Option<int> {
        match self {
            ScalarView::Char(v) => Some(v as int),
            ScalarView::UChar(v) => Some(v as int),
            ScalarView::Short(v) => Some(v as int),
            ScalarView::UShort(v) => Some(v as int),
            ScalarView::Int(v) => Some(v as int),
            ScalarView::UInt(v) => Some(v as int),
            _ => None,
        }
    }

    /// The length that this number stands for when it precedes a list: the
    /// number itself where it is whole and not negative.
    pub open spec fn as_count(self) -> Option<nat> {
        match self.as_int() {
            Some(v) => if v >= 0 {
                Some(v as nat)
            } else {
                None
            },
            None => None,
        }
    }
}

impl Scalar {
    /// The length that this number stands for when it precedes a list: the
    /// number itself where it is whole and not negative.
    pub fn as_count(&self) -> (r: Option<u32>)
        ensures
            match r {
                Some(n) => self@.as_count() == Some(n as nat),
                None => self@.as_count() is None,
            },
    {
        match self {
            Scalar::Char(v) => if *v >= 0 {
                Some(*v as u32)
            } else {
                None
            },
            Scalar::UChar(v) => Some(*v as u32),
            Scalar::Short(v) => if *v >= 0 {
                Some(*v as u32)
            } else {
                None
            },
            Scalar::UShort(v) => Some(*v as u32),
            Scalar::Int(v) => if *v >= 0 {
                Some(*v as u32)
            } else {
                None
            },
            Scalar::UInt(v) => Some(*v),
            _ => None,
        }
    }
}

/// The numbers of a list as mathematical values.
pub open spec fn scalars_view(items: Seq<Scalar>) -> Seq<ScalarView> {
    items.map_values(|s: Scalar| s@)
}

/// The value of a property in one record.
#[derive(Debug, Clone, PartialEq, Eq)]
pub enum Property {
    Scalar(Scalar),
    /// The items of a list. The length that precedes them in the payload is
    /// not kept.
    List(Vec<Scalar>),
}

/// The value of a property as a mathematical value.
pub enum PropertyView {
    Scalar(ScalarView),
    List(Seq<ScalarView>),
}

impl View for Property {
    type V = PropertyView;

    open spec fn view(&self) -> PropertyView {
        match self {
            Property::Scalar(v) => PropertyView::Scalar(v@),
            Property::List(items) => PropertyView::List(scalars_view(items@)),
        }
    }
}

/// The values of one record: for each property its name and its value, in
/// the order of the element's declaration.
pub type RecordView = Seq<(Seq<char>, PropertyView)>;

/// What a type needs in order to be filled by the decoder: a fresh value,
/// and a way to take the value of a property under its name.
///
/// An implementation describes by `model` what a value holds, and by
/// `empty_model` and `model_with` what its two methods do to that. The
/// decoder then says of each record which calls made it.
pub trait PropertyAccess: Sized {
    /// What a value holds, as a mathematical value.
    type Model;

    spec fn model(&self) -> Self::Model;

    /// What a fresh value holds.
    spec fn empty_model() -> Self::Model;

    /// What a value holds after it was given `value` under `name`.
    spec fn model_with(model: Self::Model, name: Seq<char>, value: PropertyView) -> Self::Model;

    fn new() -> (r: Self)
        ensures
            r.model() == Self::empty_model(),
    ;

    fn set_property(&mut self, name: String, value: Property)
        ensures
            final(self).model() == Self::model_with(old(self).model(), name@, value@),
    ;
}

/// What a fresh value holds after it was given the values of `record`, one
/// after the other.
pub open spec fn record_model<E: PropertyAccess>(record: RecordView) -> E::Model
    decreases record.len(),
{
    if record.len() == 0 {
        E::empty_model()
    } else {
        E::model_with(record_model::<E>(record.drop_last()), record.last().0, record.last().1)
    }
}

/// The element type for callers that know nothing of the file in advance: the
/// properties of a record under their names, in the order of the declaration.
pub type DefaultElement = KeyMap<Property>;

/// The entries of a record as mathematical values.
pub open spec fn properties_view(entries: Seq<(Seq<char>, Property)>) -> RecordView {
    map_entries(entries, |p: Property| p@)
}

impl PropertyAccess for KeyMap<Property> {
    type Model = RecordView;

    open spec fn model(&self) -> RecordView {
        properties_view(self@)
    }

    open spec fn empty_model() -> RecordView {
        Seq::empty()
    }

    open spec fn model_with(model: RecordView, name: Seq<char>, value: PropertyView) -> RecordView {
        with_entry(model, name, value)
    }

    fn new() -> (r: Self) {
        let r = KeyMap::new();
        assert(properties_view(r@) =~= Seq::empty());
        r
    }

    fn set_property(&mut self, name: String, value: Property) {
        proof {
            lemma_with_entry_map_entries(self@, |p: Property| p@, name@, value);
        }
        let _ = self.insert(name, value);
    }
}

/// The records of a file: under the name of each element its records, in the
/// order of the header.
pub type Payload<E> = KeyMap<Vec<E>>;

/// A file: its header and its records.
#[derive(Debug, Clone, PartialEq, Eq)]
pub struct Ply<E: PropertyAccess> {
    pub header: Header,
    pub payload: Payload<E>,
}

impl<E: PropertyAccess> Ply<E> {
    /// An empty file: the header of `Header::new` and no records.
    pub fn new() -> (r: Self)
        ensures
            r.header@ == Header::new_view(),
            r.payload@.len() == 0,
    {
        Ply { header: Header::new(), payload: KeyMap::new() }
    }
}

} // verus!
