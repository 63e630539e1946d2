//! The binary payload: numbers of fixed width, packed without gaps, in one
//! byte order for the whole file.

use crate::error::{ErrorKind, ParseError, ParseErrorView};
use crate::ply::{
    record_model, scalars_view, ElementDef, Property, PropertyAccess, PropertyType, PropertyView,
    Real, RealView, RecordView, Scalar, ScalarType, ScalarView, Schema,
};
use crate::stream::take_bytes;
use byteorder::{BigEndian, ByteOrder, LittleEndian};
use vstd::prelude::*;

verus! {

/// The order of the bytes of a number.
#[derive(Debug, Clone, Copy, PartialEq, Eq, Structural)]
pub enum Endianness {
    /// The most significant byte comes first.
    Big,
    /// The least significant byte comes first.
    Little,
}

/// The number that `bytes` write with the most significant byte first.
pub open spec fn be_value(bytes: Seq<u8>) -> nat
    decreases bytes.len(),
{
    if bytes.len() == 0 {
        0
    } else {
        256 * be_value(bytes.drop_last()) + bytes.last() as nat
    }
}

/// The number that `bytes` write with the least significant byte first.
pub open spec fn le_value(bytes: Seq<u8>) -> nat
    decreases bytes.len(),
{
    if bytes.len() == 0 {
        0
    } else {
        bytes[0] as nat + 256 * le_value(bytes.drop_first())
    }
}

/// The number that `bytes` write in the given order.
pub open spec fn unsigned_value(order: Endianness, bytes: Seq<u8>) -> nat {
    match order {
        Endianness::Big => be_value(bytes),
        Endianness::Little => le_value(bytes),
    }
}

/// The number that `value` stands for in two's complement, where `range` is
/// the number of values of the width.
pub open spec fn signed(value: nat, range: nat) -> int {
    if 2 * value < range {
        value as int
    } else {
        value - range
    }
}

/// The number of kind `kind` that `bytes` hold in the given order. `bytes`
/// is meant to have the width of the kind. Of a floating-point number the
/// bits are kept.
pub open spec fn binary_scalar(kind: ScalarType, order: Endianness, bytes: Seq<u8>) -> ScalarView {
    let value = unsigned_value(order, bytes);
    match kind {
        ScalarType::Char => ScalarView::Char(signed(value, 0x100) as i8),
        ScalarType::UChar => ScalarView::UChar(value as u8),
        ScalarType::Short => ScalarView::Short(signed(value, 0x1_0000) as i16),
        ScalarType::UShort => ScalarView::UShort(value as u16),
        ScalarType::Int => ScalarView::Int(signed(value, 0x1_0000_0000) as i32),
        ScalarType::UInt => ScalarView::UInt(value as u32),
        ScalarType::Float => ScalarView::Float(RealView::Single(value as u32)),
        ScalarType::Double => ScalarView::Double(RealView::Double(value as u64)),
    }
}

/// What reading one number of kind `kind` from the front of `bytes` gives:
/// the number and the bytes behind it.
pub open spec fn binary_scalar_at(kind: ScalarType, order: Endianness, bytes: Seq<u8>) -> Result<
    (ScalarView, Seq<u8>),
    ErrorKind,
> {
    let width = kind.spec_width() as int;
    if bytes.len() < width {
        Err(ErrorKind::UnexpectedEof)
    } else {
        Ok((binary_scalar(kind, order, bytes.take(width)), bytes.skip(width)))
    }
}

/// What reading `n` numbers of kind `kind` from the front of `bytes` gives.
pub open spec fn binary_list(kind: ScalarType, order: Endianness, bytes: Seq<u8>, n: nat) -> Result<
    (Seq<ScalarView>, Seq<u8>),
    ErrorKind,
>
    decreases n,
{
    if n == 0 {
        Ok((Seq::empty(), bytes))
    } else {
        match binary_list(kind, order, bytes, (n - 1) as nat) {
            Err(e) => Err(e),
            Ok((items, rest)) => match binary_scalar_at(kind, order, rest) {
                Err(e) => Err(e),
                Ok((item, behind)) => Ok((items.push(item), behind)),
            },
        }
    }
}

/// What reading the value of a property from the front of `bytes` gives. A
/// list starts with its length, which has to be a whole number and not
/// negative.
pub open spec fn binary_property(data_type: PropertyType, order: Endianness, bytes: Seq<u8>) -> Result<
    (PropertyView, Seq<u8>),
    ErrorKind,
> {
    match data_type {
        PropertyType::Scalar(kind) => match binary_scalar_at(kind, order, bytes) {
            Err(e) => Err(e),
            Ok((value, rest)) => Ok((PropertyView::Scalar(value), rest)),
        },
        PropertyType::List(index, item) => match binary_scalar_at(index, order, bytes) {
            Err(e) => Err(e),
            Ok((length, rest)) => match length.as_count() {
                None => Err(ErrorKind::MalformedRecord),
                Some(n) => match binary_list(item, order, rest, n) {
                    Err(e) => Err(e),
                    Ok((items, behind)) => Ok((PropertyView::List(items), behind)),
                },
            },
        },
    }
}

/// What reading the first `k` properties of a record from the front of
/// `bytes` gives. An error names the property at which it arose.
pub open spec fn binary_record(schema: Schema, order: Endianness, bytes: Seq<u8>, k: nat) -> Result<
    (RecordView, Seq<u8>),
    ParseErrorView,
>
    decreases k,
{
    if k == 0 {
        Ok((Seq::empty(), bytes))
    } else {
        match binary_record(schema, order, bytes, (k - 1) as nat) {
            Err(e) => Err(e),
            Ok((values, rest)) => {
                let (name, data_type) = schema[k - 1];
                match binary_property(data_type, order, rest) {
                    Err(kind) => Err(ParseErrorView::new(kind).with_property(name)),
                    Ok((value, behind)) => Ok((values.push((name, value)), behind)),
                }
            },
        }
    }
}

/// What reading one record from the front of `bytes` gives.
pub open spec fn spec_binary_element(schema: Schema, order: Endianness, bytes: Seq<u8>) -> Result<
    (RecordView, Seq<u8>),
    ParseErrorView,
> {
    binary_record(schema, order, bytes, schema.len())
}

/// What reading `n` records of the element `name` from the front of `bytes`
/// gives. An error names the element.
pub open spec fn binary_records(
    name: Seq<char>,
    schema: Schema,
    order: Endianness,
    bytes: Seq<u8>,
    n: nat,
) -> Result<(Seq<RecordView>, Seq<u8>), ParseErrorView>
    decreases n,
{
    if n == 0 {
        Ok((Seq::empty(), bytes))
    } else {
        match binary_records(name, schema, order, bytes, (n - 1) as nat) {
            Err(e) => Err(e),
            Ok((records, rest)) => match spec_binary_element(schema, order, rest) {
                Err(e) => Err(e.with_element(name)),
                Ok((record, behind)) => Ok((records.push(record), behind)),
            },
        }
    }
}

/// Once reading a list has failed, reading a longer one fails in the same
/// way.
pub proof fn lemma_binary_list_fails(
    kind: ScalarType,
    order: Endianness,
    bytes: Seq<u8>,
    k: nat,
    n: nat,
)
    requires
        k <= n,
        binary_list(kind, order, bytes, k) is Err,
    ensures
        binary_list(kind, order, bytes, n) == binary_list(kind, order, bytes, k),
    decreases n,
{
    if k < n {
        lemma_binary_list_fails(kind, order, bytes, k, (n - 1) as nat);
    }
}

/// Once reading the properties of a record has failed, reading more of them
/// fails in the same way.
pub proof fn lemma_binary_record_fails(
    schema: Schema,
    order: Endianness,
    bytes: Seq<u8>,
    k: nat,
    n: nat,
)
    requires
        k <= n,
        binary_record(schema, order, bytes, k) is Err,
    ensures
        binary_record(schema, order, bytes, n) == binary_record(schema, order, bytes, k),
    decreases n,
{
    if k < n {
        lemma_binary_record_fails(schema, order, bytes, k, (n - 1) as nat);
    }
}

/// Once reading records has failed, reading more of them fails in the same
/// way.
pub proof fn lemma_binary_records_fails(
    name: Seq<char>,
    schema: Schema,
    order: Endianness,
    bytes: Seq<u8>,
    k: nat,
    n: nat,
)
    requires
        k <= n,
        binary_records(name, schema, order, bytes, k) is Err,
    ensures
        binary_records(name, schema, order, bytes, n) == binary_records(
            name,
            schema,
            order,
            bytes,
            k,
        ),
    decreases n,
{
    if k < n {
        lemma_binary_records_fails(name, schema, order, bytes, k, (n - 1) as nat);
    }
}

/// Reading `n` records gives `n` records.
pub proof fn lemma_binary_records_len(
    name: Seq<char>,
    schema: Schema,
    order: Endianness,
    bytes: Seq<u8>,
    n: nat,
)
    ensures
        binary_records(name, schema, order, bytes, n) matches Ok(out) ==> out.0.len() == n,
    decreases n,
{
    if n > 0 {
        lemma_binary_records_len(name, schema, order, bytes, (n - 1) as nat);
    }
}

/// Two runs of bytes of one length that write the same number, most
/// significant byte first, are the same.
pub proof fn lemma_be_value_injective(a: Seq<u8>, b: Seq<u8>)
    requires
        a.len() == b.len(),
        be_value(a) == be_value(b),
    ensures
        a == b,
    decreases a.len(),
{
    if a.len() > 0 {
        let x = be_value(a.drop_last());
        let y = be_value(b.drop_last());
        assert(256 * x + a.last() as nat == 256 * y + b.last() as nat);
        assert(x == y && a.last() == b.last());
        lemma_be_value_injective(a.drop_last(), b.drop_last());
        assert(a =~= a.drop_last().push(a.last()));
        assert(b =~= b.drop_last().push(b.last()));
    } else {
        assert(a =~= b);
    }
}

/// Read with the least significant byte first, bytes write the number that
/// the same bytes in reverse write with the most significant byte first.
pub proof fn lemma_le_is_be_reversed(bytes: Seq<u8>)
    ensures
        le_value(bytes) == be_value(bytes.reverse()),
    decreases bytes.len(),
{
    if bytes.len() > 0 {
        lemma_le_is_be_reversed(bytes.drop_first());
        assert(bytes.reverse().drop_last() =~= bytes.drop_first().reverse());
        assert(bytes.reverse().last() == bytes[0]);
    }
}

/// The two byte orders give the same number exactly for the bytes that read
/// the same from both ends.
pub proof fn lemma_byte_order_matters(bytes: Seq<u8>)
    ensures
        unsigned_value(Endianness::Big, bytes) == unsigned_value(Endianness::Little, bytes)
            <==> bytes == bytes.reverse(),
{
    lemma_le_is_be_reversed(bytes);
    if be_value(bytes) == le_value(bytes) {
        lemma_be_value_injective(bytes, bytes.reverse());
    }
}

/// The number that the bytes of a kind's width write fits that width.
pub proof fn lemma_value_bound(order: Endianness, bytes: Seq<u8>)
    ensures
        bytes.len() == 1 ==> unsigned_value(order, bytes) < 0x100,
        bytes.len() == 2 ==> unsigned_value(order, bytes) < 0x1_0000,
        bytes.len() == 4 ==> unsigned_value(order, bytes) < 0x1_0000_0000,
        bytes.len() == 8 ==> unsigned_value(order, bytes) < 0x1_0000_0000_0000_0000,
{
    lemma_le_is_be_reversed(bytes);
    let b = match order {
        Endianness::Big => bytes,
        Endianness::Little => bytes.reverse(),
    };
    assert(unsigned_value(order, bytes) == be_value(b));
    reveal_with_fuel(be_value, 9);
    if b.len() == 1 || b.len() == 2 || b.len() == 4 || b.len() == 8 {
        let b1 = b.drop_last();
        if b.len() >= 2 {
            let b2 = b1.drop_last();
            if b.len() >= 4 {
                let b3 = b2.drop_last();
                let b4 = b3.drop_last();
                if b.len() == 8 {
                    let b5 = b4.drop_last();
                    let b6 = b5.drop_last();
                    let b7 = b6.drop_last();
                    let b8 = b7.drop_last();
                    assert(be_value(b8) == 0);
                    assert(be_value(b7) < 0x100);
                    assert(be_value(b6) < 0x1_0000);
                    assert(be_value(b5) < 0x100_0000);
                    assert(be_value(b4) < 0x1_0000_0000);
                    assert(be_value(b3) < 0x100_0000_0000);
                    assert(be_value(b2) < 0x1_0000_0000_0000);
                    assert(be_value(b1) < 0x100_0000_0000_0000);
                } else {
                    assert(be_value(b4) == 0);
                    assert(be_value(b3) < 0x100);
                    assert(be_value(b2) < 0x1_0000);
                    assert(be_value(b1) < 0x100_0000);
                }
            } else {
                assert(be_value(b2) == 0);
                assert(be_value(b1) < 0x100);
            }
        } else {
            assert(be_value(b1) == 0);
        }
    }
}

/// A number of a payload is the same in both byte orders exactly if its
/// bytes read the same from both ends. So for a kind of more than one byte
/// the byte order decides the number, but for such bytes.
pub proof fn lemma_byte_order_decides_scalar(kind: ScalarType, bytes: Seq<u8>)
    requires
        bytes.len() == kind.spec_width(),
    ensures
        binary_scalar(kind, Endianness::Big, bytes) == binary_scalar(
            kind,
            Endianness::Little,
            bytes,
        ) <==> bytes == bytes.reverse(),
{
    lemma_byte_order_matters(bytes);
    lemma_value_bound(Endianness::Big, bytes);
    lemma_value_bound(Endianness::Little, bytes);
}

/// How reading from the first `m` of `bytes` relates to reading from all of
/// them, where that gave `full`: what was left is the end of `bytes`; with
/// all the bytes that were used the result is the same; with fewer the input
/// ends too early.
pub open spec fn cut_short<T>(
    full: (T, Seq<u8>),
    bytes: Seq<u8>,
    m: int,
    short: Result<(T, Seq<u8>), ErrorKind>,
) -> bool {
    let used = bytes.len() - full.1.len();
    &&& 0 <= used <= bytes.len()
    &&& full.1 == bytes.skip(used)
    &&& m >= used ==> short == Ok::<(T, Seq<u8>), ErrorKind>((full.0, bytes.take(m).skip(used)))
    &&& m < used ==> short == Err::<(T, Seq<u8>), ErrorKind>(ErrorKind::UnexpectedEof)
}

/// The same for readers that report where the error arose.
pub open spec fn cut_short_at<T>(
    full: (T, Seq<u8>),
    bytes: Seq<u8>,
    m: int,
    short: Result<(T, Seq<u8>), ParseErrorView>,
) -> bool {
    let used = bytes.len() - full.1.len();
    &&& 0 <= used <= bytes.len()
    &&& full.1 == bytes.skip(used)
    &&& m >= used ==> short == Ok::<(T, Seq<u8>), ParseErrorView>(
        (full.0, bytes.take(m).skip(used)),
    )
    &&& m < used ==> (short matches Err(e) && e.kind == ErrorKind::UnexpectedEof)
}

/// Cutting the input short does to one number what `cut_short` says.
pub proof fn lemma_binary_scalar_cut_short(
    kind: ScalarType,
    order: Endianness,
    bytes: Seq<u8>,
    m: int,
)
    requires
        0 <= m <= bytes.len(),
        binary_scalar_at(kind, order, bytes) is Ok,
    ensures
        cut_short(
            binary_scalar_at(kind, order, bytes)->Ok_0,
            bytes,
            m,
            binary_scalar_at(kind, order, bytes.take(m)),
        ),
{
    let width = kind.spec_width() as int;
    if m >= width {
        assert(bytes.take(m).take(width) =~= bytes.take(width));
    }
}

/// Cutting the input short does to a list what `cut_short` says.
pub proof fn lemma_binary_list_cut_short(
    kind: ScalarType,
    order: Endianness,
    bytes: Seq<u8>,
    n: nat,
    m: int,
)
    requires
        0 <= m <= bytes.len(),
        binary_list(kind, order, bytes, n) is Ok,
    ensures
        cut_short(
            binary_list(kind, order, bytes, n)->Ok_0,
            bytes,
            m,
            binary_list(kind, order, bytes.take(m), n),
        ),
    decreases n,
{
    if n == 0 {
        assert(bytes.skip(0) =~= bytes);
        assert(bytes.take(m).skip(0) =~= bytes.take(m));
    } else {
        let before = binary_list(kind, order, bytes, (n - 1) as nat)->Ok_0;
        let short_before = binary_list(kind, order, bytes.take(m), (n - 1) as nat);
        lemma_binary_list_cut_short(kind, order, bytes, (n - 1) as nat, m);
        let used = bytes.len() - before.1.len();
        let width = kind.spec_width() as int;
        let item = binary_scalar_at(kind, order, before.1)->Ok_0;
        assert(item.1 == before.1.skip(width));
        assert(before.1.skip(width) =~= bytes.skip(used + width));
        if m >= used {
            let left = bytes.take(m).skip(used);
            assert(short_before == Ok::<(Seq<ScalarView>, Seq<u8>), ErrorKind>((before.0, left)));
            assert(left =~= before.1.take(m - used));
            lemma_binary_scalar_cut_short(kind, order, before.1, m - used);
            if m - used >= width {
                assert(before.1.take(m - used).skip(width) =~= bytes.take(m).skip(used + width));
            }
        } else {
            assert(short_before is Err);
        }
    }
}

/// Cutting the input short does to the value of a property what `cut_short`
/// says.
pub proof fn lemma_binary_property_cut_short(
    data_type: PropertyType,
    order: Endianness,
    bytes: Seq<u8>,
    m: int,
)
    requires
        0 <= m <= bytes.len(),
        binary_property(data_type, order, bytes) is Ok,
    ensures
        cut_short(
            binary_property(data_type, order, bytes)->Ok_0,
            bytes,
            m,
            binary_property(data_type, order, bytes.take(m)),
        ),
{
    match data_type {
        PropertyType::Scalar(kind) => {
            lemma_binary_scalar_cut_short(kind, order, bytes, m);
            let value = binary_scalar_at(kind, order, bytes)->Ok_0;
            assert(binary_property(data_type, order, bytes)->Ok_0 == (
                PropertyView::Scalar(value.0),
                value.1,
            ));
        },
        PropertyType::List(index, item) => {
            lemma_binary_scalar_cut_short(index, order, bytes, m);
            let length = binary_scalar_at(index, order, bytes)->Ok_0;
            let width = index.spec_width() as int;
            let n = length.0.as_count()->Some_0;
            let items = binary_list(item, order, length.1, n)->Ok_0;
            let used = length.1.len() - items.1.len();
            assert(binary_property(data_type, order, bytes)->Ok_0 == (
                PropertyView::List(items.0),
                items.1,
            ));
            lemma_binary_list_cut_short(item, order, length.1, n, 0);
            assert(length.1.skip(used) =~= bytes.skip(width + used));
            if m >= width {
                let left = bytes.take(m).skip(width);
                assert(left =~= length.1.take(m - width));
                lemma_binary_list_cut_short(item, order, length.1, n, m - width);
                if m - width >= used {
                    assert(length.1.take(m - width).skip(used) =~= bytes.take(m).skip(
                        width + used,
                    ));
                }
            }
        },
    }
}

/// Cutting the input short does to the properties of a record what
/// `cut_short_at` says.
pub proof fn lemma_binary_record_cut_short(
    schema: Schema,
    order: Endianness,
    bytes: Seq<u8>,
    k: nat,
    m: int,
)
    requires
        0 <= m <= bytes.len(),
        binary_record(schema, order, bytes, k) is Ok,
    ensures
        cut_short_at(
            binary_record(schema, order, bytes, k)->Ok_0,
            bytes,
            m,
            binary_record(schema, order, bytes.take(m), k),
        ),
    decreases k,
{
    if k == 0 {
        assert(bytes.skip(0) =~= bytes);
        assert(bytes.take(m).skip(0) =~= bytes.take(m));
    } else {
        let before = binary_record(schema, order, bytes, (k - 1) as nat)->Ok_0;
        let short_before = binary_record(schema, order, bytes.take(m), (k - 1) as nat);
        lemma_binary_record_cut_short(schema, order, bytes, (k - 1) as nat, m);
        let used = bytes.len() - before.1.len();
        let name = schema[k - 1].0;
        let data_type = schema[k - 1].1;
        let value = binary_property(data_type, order, before.1)->Ok_0;
        let more = before.1.len() - value.1.len();
        lemma_binary_property_cut_short(data_type, order, before.1, 0);
        assert(before.1.skip(more) =~= bytes.skip(used + more));
        assert(binary_record(schema, order, bytes, k)->Ok_0 == (
            before.0.push((name, value.0)),
            value.1,
        ));
        if m >= used {
            let left = bytes.take(m).skip(used);
            assert(short_before == Ok::<(RecordView, Seq<u8>), ParseErrorView>((before.0, left)));
            assert(left =~= before.1.take(m - used));
            lemma_binary_property_cut_short(data_type, order, before.1, m - used);
            if m - used >= more {
                assert(before.1.take(m - used).skip(more) =~= bytes.take(m).skip(used + more));
            }
        } else {
            assert(short_before is Err);
        }
    }
}

/// Cutting the input short does to the records of an element what
/// `cut_short_at` says.
#[verifier::rlimit(60)]
pub proof fn lemma_binary_records_cut_short(
    name: Seq<char>,
    schema: Schema,
    order: Endianness,
    bytes: Seq<u8>,
    n: nat,
    m: int,
)
    requires
        0 <= m <= bytes.len(),
        binary_records(name, schema, order, bytes, n) is Ok,
    ensures
        cut_short_at(
            binary_records(name, schema, order, bytes, n)->Ok_0,
            bytes,
            m,
            binary_records(name, schema, order, bytes.take(m), n),
        ),
    decreases n,
{
    if n == 0 {
        assert(bytes.skip(0) =~= bytes);
        assert(bytes.take(m).skip(0) =~= bytes.take(m));
    } else {
        let before = binary_records(name, schema, order, bytes, (n - 1) as nat)->Ok_0;
        let short_before = binary_records(name, schema, order, bytes.take(m), (n - 1) as nat);
        lemma_binary_records_cut_short(name, schema, order, bytes, (n - 1) as nat, m);
        let used = bytes.len() - before.1.len();
        let record = spec_binary_element(schema, order, before.1)->Ok_0;
        let more = before.1.len() - record.1.len();
        lemma_binary_record_cut_short(schema, order, before.1, schema.len(), 0);
        assert(before.1.skip(more) =~= bytes.skip(used + more));
        assert(binary_records(name, schema, order, bytes, n)->Ok_0 == (
            before.0.push(record.0),
            record.1,
        ));
        if m >= used {
            let left = bytes.take(m).skip(used);
            assert(short_before == Ok::<(Seq<RecordView>, Seq<u8>), ParseErrorView>(
                (before.0, left),
            ));
            assert(left =~= before.1.take(m - used));
            lemma_binary_record_cut_short(schema, order, before.1, schema.len(), m - used);
            if m - used >= more {
                assert(before.1.take(m - used).skip(more) =~= bytes.take(m).skip(used + more));
            }
        } else {
            assert(short_before is Err);
        }
    }
}

/// Where a payload holds the records of an element, no shorter start of it
/// does: reading them from fewer bytes than they take ends with
/// `UnexpectedEof`.
pub proof fn lemma_truncated_payload(
    name: Seq<char>,
    schema: Schema,
    order: Endianness,
    bytes: Seq<u8>,
    n: nat,
    m: int,
)
    requires
        binary_records(name, schema, order, bytes, n) matches Ok(out) && 0 <= m < bytes.len()
            - out.1.len(),
    ensures
        binary_records(name, schema, order, bytes.take(m), n) matches Err(e) && e.kind
            == ErrorKind::UnexpectedEof,
{
    let out = binary_records(name, schema, order, bytes, n)->Ok_0;
    lemma_binary_records_cut_short(name, schema, order, bytes, n, m);
}

/// Each of `records` holds what a fresh value holds after it was given the
/// values of the record of the same index in `values`.
pub open spec fn models_match<E: PropertyAccess>(records: Seq<E>, values: Seq<RecordView>) -> bool {
    &&& records.len() == values.len()
    &&& forall|i: int|
        0 <= i < records.len() ==> (#[trigger] records[i]).model() == record_model::<E>(values[i])
}

/// The first two bytes of `buf` as a number, most significant byte first.
///
/// This is `read_u16` of `byteorder::BigEndian`, which hands the first two
/// bytes to `u16::from_be_bytes` and panics on a shorter slice. The contract
/// is not proved.
#[verifier::external_body]
fn read_u16_be(buf: &[u8]) -> (r: u16)
    requires
        buf@.len() >= 2,
    ensures
        r == be_value(buf@.take(2)),
{
    BigEndian::read_u16(buf)
}

/// The first four bytes of `buf` as a number, most significant byte first.
///
/// This is `read_u32` of `byteorder::BigEndian`, which hands the first four
/// bytes to `u32::from_be_bytes` and panics on a shorter slice. The contract
/// is not proved.
#[verifier::external_body]
fn read_u32_be(buf: &[u8]) -> (r: u32)
    requires
        buf@.len() >= 4,
    ensures
        r == be_value(buf@.take(4)),
{
    BigEndian::read_u32(buf)
}

/// The first eight bytes of `buf` as a number, most significant byte first.
///
/// This is `read_u64` of `byteorder::BigEndian`, which hands the first eight
/// bytes to `u64::from_be_bytes` and panics on a shorter slice. The contract
/// is not proved.
#[verifier::external_body]
fn read_u64_be(buf: &[u8]) -> (r: u64)
    requires
        buf@.len() >= 8,
    ensures
        r == be_value(buf@.take(8)),
{
    BigEndian::read_u64(buf)
}

/// The first two bytes of `buf` as a number, least significant byte first.
///
/// This is `read_u16` of `byteorder::LittleEndian`, which hands the first
/// two bytes to `u16::from_le_bytes` and panics on a shorter slice. The
/// contract is not proved.
#[verifier::external_body]
fn read_u16_le(buf: &[u8]) -> (r: u16)
    requires
        buf@.len() >= 2,
    ensures
        r == le_value(buf@.take(2)),
{
    LittleEndian::read_u16(buf)
}

/// The first four bytes of `buf` as a number, least significant byte first.
///
/// This is `read_u32` of `byteorder::LittleEndian`, which hands the first
/// four bytes to `u32::from_le_bytes` and panics on a shorter slice. The
/// contract is not proved.
#[verifier::external_body]
fn read_u32_le(buf: &[u8]) -> (r: u32)
    requires
        buf@.len() >= 4,
    ensures
        r == le_value(buf@.take(4)),
{
    LittleEndian::read_u32(buf)
}

/// The first eight bytes of `buf` as a number, least significant byte first.
///
/// This is `read_u64` of `byteorder::LittleEndian`, which hands the first
/// eight bytes to `u64::from_le_bytes` and panics on a shorter slice. The
/// contract is not proved.
#[verifier::external_body]
fn read_u64_le(buf: &[u8]) -> (r: u64)
    requires
        buf@.len() >= 8,
    ensures
        r == le_value(buf@.take(8)),
{
    LittleEndian::read_u64(buf)
}

/// One byte is its own number in either order.
pub proof fn lemma_single_byte(order: Endianness, bytes: Seq<u8>)
    requires
        bytes.len() == 1,
    ensures
        unsigned_value(order, bytes) == bytes[0],
{
    reveal_with_fuel(be_value, 2);
    reveal_with_fuel(le_value, 2);
}

/// The number that the two bytes of `block` write in the given order.
fn read_u16(block: &[u8], order: Endianness) -> (r: u16)
    requires
        block@.len() == 2,
    ensures
        r == unsigned_value(order, block@),
{
    assert(block@.take(2) =~= block@);
    match order {
        Endianness::Big => read_u16_be(block),
        Endianness::Little => read_u16_le(block),
    }
}

/// The number that the four bytes of `block` write in the given order.
fn read_u32(block: &[u8], order: Endianness) -> (r: u32)
    requires
        block@.len() == 4,
    ensures
        r == unsigned_value(order, block@),
{
    assert(block@.take(4) =~= block@);
    match order {
        Endianness::Big => read_u32_be(block),
        Endianness::Little => read_u32_le(block),
    }
}

/// The number that the eight bytes of `block` write in the given order.
fn read_u64(block: &[u8], order: Endianness) -> (r: u64)
    requires
        block@.len() == 8,
    ensures
        r == unsigned_value(order, block@),
{
    assert(block@.take(8) =~= block@);
    match order {
        Endianness::Big => read_u64_be(block),
        Endianness::Little => read_u64_le(block),
    }
}

/// The number of kind `kind` that `block` holds in the given order.
pub fn decode_scalar(block: &[u8], kind: ScalarType, order: Endianness) -> (r: Scalar)
    requires
        block@.len() == kind.spec_width(),
    ensures
        r@ == binary_scalar(kind, order, block@),
{
    match kind {
        ScalarType::Char => {
            proof {
                lemma_single_byte(order, block@);
            }
            let b: u8 = block[0];
            if b < 128 {
                Scalar::Char(b as i8)
            } else {
                Scalar::Char((b as i16 - 256) as i8)
            }
        },
        ScalarType::UChar => {
            proof {
                lemma_single_byte(order, block@);
            }
            Scalar::UChar(block[0])
        },
        ScalarType::Short => {
            let v: u16 = read_u16(block, order);
            if v < 32768 {
                Scalar::Short(v as i16)
            } else {
                Scalar::Short((v as i32 - 65536) as i16)
            }
        },
        ScalarType::UShort => Scalar::UShort(read_u16(block, order)),
        ScalarType::Int => {
            let v: u32 = read_u32(block, order);
            if v < 2147483648 {
                Scalar::Int(v as i32)
            } else {
                Scalar::Int((v as i64 - 4294967296) as i32)
            }
        },
        ScalarType::UInt => Scalar::UInt(read_u32(block, order)),
        ScalarType::Float => Scalar::Float(Real::Single(read_u32(block, order))),
        ScalarType::Double => Scalar::Double(Real::Double(read_u64(block, order))),
    }
}

/// Takes one number of kind `kind` off the front of `reader`.
pub fn read_binary_scalar(reader: &mut &[u8], kind: ScalarType, order: Endianness) -> (r: Result<
    Scalar,
    ErrorKind,
>)
    ensures
        match r {
            Ok(value) => binary_scalar_at(kind, order, old(reader)@) == Ok::<
                (ScalarView, Seq<u8>),
                ErrorKind,
            >((value@, final(reader)@)),
            Err(e) => binary_scalar_at(kind, order, old(reader)@) == Err::<
                (ScalarView, Seq<u8>),
                ErrorKind,
            >(e),
        },
{
    match take_bytes(reader, kind.width()) {
        Some(block) => Ok(decode_scalar(block, kind, order)),
        None => Err(ErrorKind::UnexpectedEof),
    }
}

/// Takes `n` numbers of kind `kind` off the front of `reader`.
pub fn read_binary_list(reader: &mut &[u8], kind: ScalarType, order: Endianness, n: u32) -> (r:
    Result<Vec<Scalar>, ErrorKind>)
    ensures
        match r {
            Ok(items) => binary_list(kind, order, old(reader)@, n as nat) == Ok::<
                (Seq<ScalarView>, Seq<u8>),
                ErrorKind,
            >((scalars_view(items@), final(reader)@)),
            Err(e) => binary_list(kind, order, old(reader)@, n as nat) == Err::<
                (Seq<ScalarView>, Seq<u8>),
                ErrorKind,
            >(e),
        },
{
    let mut items: Vec<Scalar> = Vec::new();
    let mut i: u32 = 0;
    assert(scalars_view(items@) =~= Seq::empty());
    while i < n
        invariant
            i <= n,
            binary_list(kind, order, old(reader)@, i as nat) == Ok::<
                (Seq<ScalarView>, Seq<u8>),
                ErrorKind,
            >((scalars_view(items@), reader@)),
        decreases n - i,
    {
        match read_binary_scalar(reader, kind, order) {
            Ok(item) => {
                assert(scalars_view(items@.push(item)) =~= scalars_view(items@).push(item@));
                items.push(item);
            },
            Err(e) => {
                proof {
                    lemma_binary_list_fails(kind, order, old(reader)@, (i + 1) as nat, n as nat);
                }
                return Err(e);
            },
        }
        i = i + 1;
    }
    Ok(items)
}

/// Takes the value of a property off the front of `reader`.
pub fn read_binary_property(reader: &mut &[u8], data_type: PropertyType, order: Endianness) -> (r:
    Result<Property, ErrorKind>)
    ensures
        match r {
            Ok(value) => binary_property(data_type, order, old(reader)@) == Ok::<
                (PropertyView, Seq<u8>),
                ErrorKind,
            >((value@, final(reader)@)),
            Err(e) => binary_property(data_type, order, old(reader)@) == Err::<
                (PropertyView, Seq<u8>),
                ErrorKind,
            >(e),
        },
{
    match data_type {
        PropertyType::Scalar(kind) => {
            match read_binary_scalar(reader, kind, order) {
                Ok(value) => Ok(Property::Scalar(value)),
                Err(e) => Err(e),
            }
        },
        PropertyType::List(index, item) => {
            match read_binary_scalar(reader, index, order) {
                Err(e) => Err(e),
                Ok(length) => {
                    match length.as_count() {
                        None => Err(ErrorKind::MalformedRecord),
                        Some(n) => {
                            match read_binary_list(reader, item, order, n) {
                                Ok(items) => Ok(Property::List(items)),
                                Err(e) => Err(e),
                            }
                        },
                    }
                },
            }
        },
    }
}

/// Takes one record of the element off the front of `reader` and hands its
/// values to a fresh `E`, in the order of the declaration.
pub fn read_binary_element<E: PropertyAccess>(
    reader: &mut &[u8],
    element_def: &ElementDef,
    order: Endianness,
) -> (r: Result<E, ParseError>)
    ensures
        match r {
            Ok(record) => spec_binary_element(element_def.schema(), order, old(reader)@)
                matches Ok(out) && out.1 == final(reader)@ && record.model() == record_model::<E>(
                out.0,
            ),
            Err(e) => spec_binary_element(element_def.schema(), order, old(reader)@) == Err::<
                (RecordView, Seq<u8>),
                ParseErrorView,
            >(e@),
        },
{
    let ghost schema = element_def.schema();
    let ghost mut values: RecordView = Seq::empty();
    let mut record = E::new();
    let n = element_def.properties.len();
    let mut i: usize = 0;
    while i < n
        invariant
            i <= n,
            n == schema.len(),
            schema == element_def.schema(),
            binary_record(schema, order, old(reader)@, i as nat) == Ok::<
                (RecordView, Seq<u8>),
                ParseErrorView,
            >((values, reader@)),
            record.model() == record_model::<E>(values),
        decreases n - i,
    {
        let name = element_def.properties.key_at(i);
        let data_type = element_def.properties.value_at(i).data_type;
        assert(schema[i as int] == (name@, data_type));
        match read_binary_property(reader, data_type, order) {
            Ok(value) => {
                proof {
                    let grown = values.push((name@, value@));
                    assert(grown.drop_last() =~= values);
                    values = grown;
                }
                record.set_property(name.clone(), value);
            },
            Err(kind) => {
                proof {
                    lemma_binary_record_fails(schema, order, old(reader)@, (i + 1) as nat, n as nat);
                }
                return Err(ParseError::new(kind).with_property(name.clone()));
            },
        }
        i = i + 1;
    }
    Ok(record)
}

/// Takes the records of the element off the front of `reader`, as many as
/// the element declares.
pub fn read_binary_payload_for_element<E: PropertyAccess>(
    reader: &mut &[u8],
    element_def: &ElementDef,
    order: Endianness,
) -> (r: Result<Vec<E>, ParseError>)
    ensures
        match r {
            Ok(records) => binary_records(
                element_def.name@,
                element_def.schema(),
                order,
                old(reader)@,
                element_def.count as nat,
            ) matches Ok(out) && out.1 == final(reader)@ && models_match(records@, out.0)
                && records@.len() == element_def.count,
            Err(e) => binary_records(
                element_def.name@,
                element_def.schema(),
                order,
                old(reader)@,
                element_def.count as nat,
            ) == Err::<(Seq<RecordView>, Seq<u8>), ParseErrorView>(e@),
        },
{
    let ghost schema = element_def.schema();
    let ghost mut values: Seq<RecordView> = Seq::empty();
    let mut records: Vec<E> = Vec::new();
    let n = element_def.count;
    let mut i: usize = 0;
    while i < n
        invariant
            i <= n,
            n == element_def.count,
            schema == element_def.schema(),
            binary_records(element_def.name@, schema, order, old(reader)@, i as nat) == Ok::<
                (Seq<RecordView>, Seq<u8>),
                ParseErrorView,
            >((values, reader@)),
            models_match(records@, values),
            records@.len() == i,
        decreases n - i,
    {
        let ghost rest = reader@;
        match read_binary_element::<E>(reader, element_def, order) {
            Ok(record) => {
                proof {
                    let out = spec_binary_element(schema, order, rest)->Ok_0;
                    values = values.push(out.0);
                }
                records.push(record);
            },
            Err(e) => {
                proof {
                    lemma_binary_records_fails(
                        element_def.name@,
                        schema,
                        order,
                        old(reader)@,
                        (i + 1) as nat,
                        n as nat,
                    );
                }
                return Err(e.with_element(element_def.name.clone()));
            },
        }
        i = i + 1;
    }
    Ok(records)
}

} // verus!
