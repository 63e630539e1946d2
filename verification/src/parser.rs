//! Reading a whole file: the header line by line, then the payload as the
//! header describes it.

use crate::ascii::{
    ascii_records, lemma_ascii_records_len, read_ascii_element, read_ascii_payload_for_element,
    spec_ascii_element,
};
use crate::binary::{
    binary_records, lemma_binary_records_cut_short, lemma_binary_records_len, models_match,
    read_binary_element, read_binary_payload_for_element, spec_binary_element, Endianness,
};
use crate::canonical::header_valid;
use crate::error::{Detail, ErrorKind, ParseError, ParseErrorView};
use crate::grammar::{line, spec_line};
use crate::header::{read_header_at, spec_read_header};
use crate::key_map::{lemma_position_is, KeyMap};
use crate::ply::{
    record_model, ElementDef, ElementDefView, Encoding, Header, HeaderView, Payload, Ply,
    PropertyAccess, PropertyDef, PropertyDefView, RecordView, Version,
};
use crate::util::LocationTracker;
use core::marker::PhantomData;
use vstd::prelude::*;

verus! {

/// What one line of a header says.
#[derive(Debug, PartialEq, Eq)]
pub enum Line {
    MagicNumber,
    Format((Encoding, Version)),
    Comment(String),
    ObjInfo(String),
    Element(ElementDef),
    Property(PropertyDef),
    EndHeader,
}

impl Clone for Line {
    fn clone(&self) -> Self {
        match self {
            Line::MagicNumber => Line::MagicNumber,
            Line::Format(f) => Line::Format((f.0, f.1)),
            Line::Comment(c) => Line::Comment(c.clone()),
            Line::ObjInfo(o) => Line::ObjInfo(o.clone()),
            Line::Element(e) => Line::Element(e.clone()),
            Line::Property(p) => Line::Property(p.clone()),
            Line::EndHeader => Line::EndHeader,
        }
    }
}

/// The kinds of line that a header has.
#[derive(Debug, Clone, Copy, PartialEq, Eq, Structural)]
pub enum LineKind {
    MagicNumber,
    Format,
    Comment,
    ObjInfo,
    Element,
    Property,
    EndHeader,
}

impl Line {
    /// The kind of the line.
    pub fn kind(&self) -> (r: LineKind)
        ensures
            r == self@.kind(),
    {
        match self {
            Line::MagicNumber => LineKind::MagicNumber,
            Line::Format(_) => LineKind::Format,
            Line::Comment(_) => LineKind::Comment,
            Line::ObjInfo(_) => LineKind::ObjInfo,
            Line::Element(_) => LineKind::Element,
            Line::Property(_) => LineKind::Property,
            Line::EndHeader => LineKind::EndHeader,
        }
    }
}

impl LineView {
    /// The kind of the line.
    pub open spec fn kind(self) -> LineKind {
        match self {
            LineView::MagicNumber => LineKind::MagicNumber,
            LineView::Format(_) => LineKind::Format,
            LineView::Comment(_) => LineKind::Comment,
            LineView::ObjInfo(_) => LineKind::ObjInfo,
            LineView::Element(_) => LineKind::Element,
            LineView::Property(_) => LineKind::Property,
            LineView::EndHeader => LineKind::EndHeader,
        }
    }
}

/// A header line as a mathematical value.
pub enum LineView {
    MagicNumber,
    Format((Encoding, Version)),
    Comment(Seq<char>),
    ObjInfo(Seq<char>),
    Element(ElementDefView),
    Property(PropertyDefView),
    EndHeader,
}

impl View for Line {
    type V = LineView;

    open spec fn view(&self) -> LineView {
        match self {
            Line::MagicNumber => LineView::MagicNumber,
            Line::Format(f) => LineView::Format(*f),
            Line::Comment(c) => LineView::Comment(c@),
            Line::ObjInfo(o) => LineView::ObjInfo(o@),
            Line::Element(e) => LineView::Element(e@),
            Line::Property(p) => LineView::Property(p@),
            Line::EndHeader => LineView::EndHeader,
        }
    }
}

/// What reading the records of one element from the front of `bytes` gives
/// in the given encoding, where the next line has number `line`: the
/// records, the bytes behind them and the number of the line that follows.
/// Only an ASCII payload has lines to count.
pub open spec fn element_records(
    encoding: Encoding,
    element: ElementDefView,
    bytes: Seq<u8>,
    line: usize,
) -> Result<(Seq<RecordView>, Seq<u8>, usize), ParseErrorView> {
    match encoding {
        Encoding::Ascii => ascii_records(element.name, element.schema(), bytes, line, element.count),
        Encoding::BinaryBigEndian => match binary_records(
            element.name,
            element.schema(),
            Endianness::Big,
            bytes,
            element.count,
        ) {
            Ok((records, rest)) => Ok((records, rest, line)),
            Err(e) => Err(e),
        },
        Encoding::BinaryLittleEndian => match binary_records(
            element.name,
            element.schema(),
            Endianness::Little,
            bytes,
            element.count,
        ) {
            Ok((records, rest)) => Ok((records, rest, line)),
            Err(e) => Err(e),
        },
    }
}

/// The records of a payload as mathematical values: under the name of each
/// element the values of its records.
pub type PayloadView = Seq<(Seq<char>, Seq<RecordView>)>;

/// What reading the records of the first `k` elements of `header` from the
/// front of `bytes` gives, where the next line has number `line`.
pub open spec fn spec_payload(header: HeaderView, bytes: Seq<u8>, line: usize, k: nat) -> Result<
    (PayloadView, Seq<u8>, usize),
    ParseErrorView,
>
    decreases k,
{
    if k == 0 {
        Ok((Seq::empty(), bytes, line))
    } else {
        match spec_payload(header, bytes, line, (k - 1) as nat) {
            Err(e) => Err(e),
            Ok((payload, rest, at)) => {
                let (name, element) = header.elements[k - 1];
                match element_records(header.encoding, element, rest, at) {
                    Err(e) => Err(e),
                    Ok((records, behind, next)) => Ok((payload.push((name, records)), behind, next)),
                }
            },
        }
    }
}

/// Once reading a payload has failed, reading more of it fails in the same
/// way.
pub proof fn lemma_payload_fails(header: HeaderView, bytes: Seq<u8>, line: usize, k: nat, n: nat)
    requires
        k <= n,
        spec_payload(header, bytes, line, k) is Err,
    ensures
        spec_payload(header, bytes, line, n) == spec_payload(header, bytes, line, k),
    decreases n,
{
    if k < n {
        lemma_payload_fails(header, bytes, line, k, (n - 1) as nat);
    }
}

/// A payload that was read holds the elements of the header under their
/// names, and of each as many records as the header declares.
pub proof fn lemma_payload_counts(header: HeaderView, bytes: Seq<u8>, line: usize, k: nat)
    requires
        k <= header.elements.len(),
    ensures
        spec_payload(header, bytes, line, k) matches Ok(out) ==> out.0.len() == k && forall|i: int|
            0 <= i < k ==> (#[trigger] out.0[i]).0 == header.elements[i].0 && out.0[i].1.len()
                == header.elements[i].1.count,
    decreases k,
{
    if k > 0 {
        lemma_payload_counts(header, bytes, line, (k - 1) as nat);
        if let Ok(before) = spec_payload(header, bytes, line, (k - 1) as nat) {
            let element = header.elements[k - 1].1;
            lemma_ascii_records_len(element.name, element.schema(), before.1, before.2, element.count);
            lemma_binary_records_len(
                element.name,
                element.schema(),
                Endianness::Big,
                before.1,
                element.count,
            );
            lemma_binary_records_len(
                element.name,
                element.schema(),
                Endianness::Little,
                before.1,
                element.count,
            );
        }
    }
}

/// How reading a binary payload from the first `m` of `bytes` relates to
/// reading it from all of them, where that gave `full`: what was left is the
/// end of `bytes`; with all the bytes that were used the result is the same;
/// with fewer the input ends too early.
pub open spec fn payload_cut_short(
    full: (PayloadView, Seq<u8>, usize),
    bytes: Seq<u8>,
    m: int,
    short: Result<(PayloadView, Seq<u8>, usize), ParseErrorView>,
) -> bool {
    let used = bytes.len() - full.1.len();
    &&& 0 <= used <= bytes.len()
    &&& full.1 == bytes.skip(used)
    &&& m >= used ==> short == Ok::<(PayloadView, Seq<u8>, usize), ParseErrorView>(
        (full.0, bytes.take(m).skip(used), full.2),
    )
    &&& m < used ==> (short matches Err(e) && e.kind == ErrorKind::UnexpectedEof)
}

/// Cutting the input short does to a binary payload what `payload_cut_short`
/// says.
#[verifier::rlimit(60)]
pub proof fn lemma_binary_payload_cut_short(
    header: HeaderView,
    bytes: Seq<u8>,
    line: usize,
    k: nat,
    m: int,
)
    requires
        header.encoding != Encoding::Ascii,
        0 <= m <= bytes.len(),
        spec_payload(header, bytes, line, k) is Ok,
    ensures
        payload_cut_short(
            spec_payload(header, bytes, line, k)->Ok_0,
            bytes,
            m,
            spec_payload(header, bytes.take(m), line, k),
        ),
        spec_payload(header, bytes, line, k)->Ok_0.2 == line,
    decreases k,
{
    if k == 0 {
        assert(bytes.skip(0) =~= bytes);
        assert(bytes.take(m).skip(0) =~= bytes.take(m));
    } else {
        let before = spec_payload(header, bytes, line, (k - 1) as nat)->Ok_0;
        let short_before = spec_payload(header, bytes.take(m), line, (k - 1) as nat);
        lemma_binary_payload_cut_short(header, bytes, line, (k - 1) as nat, m);
        let used = bytes.len() - before.1.len();
        let (name, element) = header.elements[k - 1];
        let order = if header.encoding == Encoding::BinaryBigEndian {
            Endianness::Big
        } else {
            Endianness::Little
        };
        let records = binary_records(element.name, element.schema(), order, before.1, element.count);
        assert(records is Ok);
        let more = before.1.len() - records->Ok_0.1.len();
        lemma_binary_records_cut_short(
            element.name,
            element.schema(),
            order,
            before.1,
            element.count,
            0,
        );
        assert(before.1.skip(more) =~= bytes.skip(used + more));
        assert(spec_payload(header, bytes, line, k)->Ok_0 == (
            before.0.push((name, records->Ok_0.0)),
            records->Ok_0.1,
            line,
        ));
        if m >= used {
            let left = bytes.take(m).skip(used);
            assert(short_before == Ok::<(PayloadView, Seq<u8>, usize), ParseErrorView>(
                (before.0, left, line),
            ));
            assert(left =~= before.1.take(m - used));
            lemma_binary_records_cut_short(
                element.name,
                element.schema(),
                order,
                before.1,
                element.count,
                m - used,
            );
            if m - used >= more {
                assert(before.1.take(m - used).skip(more) =~= bytes.take(m).skip(used + more));
            }
        } else {
            assert(short_before is Err);
        }
    }
}

/// Where the bytes behind a binary header hold the records of all its
/// elements, no shorter start of them does: reading the payload from fewer
/// bytes than it takes ends with `UnexpectedEof`.
pub proof fn lemma_truncated_binary_payload(
    header: HeaderView,
    bytes: Seq<u8>,
    line: usize,
    m: int,
)
    requires
        header.encoding != Encoding::Ascii,
        spec_payload(header, bytes, line, header.elements.len()) matches Ok(out) && 0 <= m
            < bytes.len() - out.1.len(),
    ensures
        spec_payload(header, bytes.take(m), line, header.elements.len()) matches Err(e) && e.kind
            == ErrorKind::UnexpectedEof,
{
    lemma_binary_payload_cut_short(header, bytes, line, header.elements.len(), m);
}

/// Whether `payload` holds the elements of `header` under their names, in
/// the order of the header, and of each as many records as the header
/// declares.
pub open spec fn holds_declared_counts<E>(
    payload: Seq<(Seq<char>, Vec<E>)>,
    header: HeaderView,
) -> bool {
    &&& payload.len() == header.elements.len()
    &&& forall|i: int|
        0 <= i < payload.len() ==> (#[trigger] payload[i]).0 == header.elements[i].0
            && payload[i].1@.len() == header.elements[i].1.count
}

/// What reading a whole file from `bytes` gives: the header, the records of
/// each of its elements, and the bytes behind them.
pub open spec fn spec_read_ply(bytes: Seq<u8>) -> Result<
    (HeaderView, PayloadView, Seq<u8>),
    ParseErrorView,
> {
    match spec_read_header(bytes, 0) {
        Err(e) => Err(e),
        Ok((header, rest, line)) => match spec_payload(header, rest, line, header.elements.len()) {
            Err(e) => Err(e),
            Ok((payload, behind, _)) => Ok((header, payload, behind)),
        },
    }
}

/// The entries of `payload` are those of `values`: the same names in the
/// same order, and under each name records that hold what a fresh value
/// holds after it was given the values of the record of the same index.
pub open spec fn payload_matches<E: PropertyAccess>(
    payload: Seq<(Seq<char>, Vec<E>)>,
    values: PayloadView,
) -> bool {
    &&& payload.len() == values.len()
    &&& forall|i: int|
        0 <= i < payload.len() ==> (#[trigger] payload[i]).0 == values[i].0 && models_match(
            payload[i].1@,
            values[i].1,
        )
}

/// What a header line says, with the error of a whole-file reader.
pub open spec fn spec_read_header_line(text: Seq<char>) -> Result<LineView, ParseErrorView> {
    match spec_line(text) {
        Ok(l) => Ok(l),
        Err(e) => Err(ParseErrorView::new(ErrorKind::InvalidInput).with_detail(Detail::Syntax(e)).at(0, text)),
    }
}

/// Reads files into records of type `E`.
pub struct Parser<E: PropertyAccess> {
    phantom: PhantomData<E>,
}

impl<E: PropertyAccess> Parser<E> {
    /// A parser. It holds no state: one parser can read any number of files.
    pub fn new() -> Self {
        Parser { phantom: PhantomData }
    }

    /// Reads a whole file off the front of `source`: the header, then the
    /// records of each element in the order of the header.
    pub fn read_ply(&self, source: &mut &[u8]) -> (r: Result<Ply<E>, ParseError>)
        ensures
            match r {
                Ok(ply) => spec_read_ply(old(source)@) matches Ok(out) && ply.header@ == out.0
                    && payload_matches(ply.payload@, out.1) && final(source)@ == out.2
                    && ply.header.wf() && header_valid(ply.header@) && ply.payload.wf()
                    && holds_declared_counts(ply.payload@, ply.header@),
                Err(e) => spec_read_ply(old(source)@) == Err::<
                    (HeaderView, PayloadView, Seq<u8>),
                    ParseErrorView,
                >(e@),
            },
    {
        let mut location = LocationTracker::new();
        let header = match read_header_at(source, &mut location) {
            Ok(header) => header,
            Err(e) => {
                return Err(e);
            },
        };
        let ghost rest = source@;
        let ghost line = location.line_index;
        let payload = match self.read_payload(source, &mut location, &header) {
            Ok(payload) => payload,
            Err(e) => {
                return Err(e);
            },
        };
        proof {
            lemma_payload_counts(header@, rest, line, header@.elements.len());
        }
        Ok(Ply { header, payload })
    }

    /// Reads a header off the front of `reader`, which then stands at the
    /// first byte of the payload.
    pub fn read_header(&self, reader: &mut &[u8]) -> (r: Result<Header, ParseError>)
        ensures
            match r {
                Ok(h) => spec_read_header(old(reader)@, 0) matches Ok(out) && out.0 == h@ && out.1
                    == final(reader)@ && h.wf() && header_valid(h@),
                Err(e) => spec_read_header(old(reader)@, 0) == Err::<
                    (HeaderView, Seq<u8>, usize),
                    ParseErrorView,
                >(e@),
            },
    {
        let mut location = LocationTracker::new();
        read_header_at(reader, &mut location)
    }

    /// Says what one line of a header declares.
    pub fn read_header_line(&self, text: &str) -> (r: Result<Line, ParseError>)
        ensures
            match r {
                Ok(l) => spec_read_header_line(text@) == Ok::<LineView, ParseErrorView>(l@),
                Err(e) => spec_read_header_line(text@) == Err::<LineView, ParseErrorView>(e@),
            },
    {
        match line(text) {
            Ok(l) => Ok(l),
            Err(e) => Err(
                ParseError::new(ErrorKind::InvalidInput).with_detail(Detail::Syntax(e)).at(0, text.to_owned()),
            ),
        }
    }

    /// Reads the records of one element off the front of `reader`, in the
    /// encoding of `header`. The lines of an ASCII payload are counted from 1.
    pub fn read_payload_for_element(
        &self,
        reader: &mut &[u8],
        element_def: &ElementDef,
        header: &Header,
    ) -> (r: Result<Vec<E>, ParseError>)
        ensures
            match r {
                Ok(records) => element_records(header.encoding, element_def@, old(reader)@, 1)
                    matches Ok(out) && out.1 == final(reader)@ && models_match(records@, out.0)
                    && records@.len() == element_def.count,
                Err(e) => element_records(header.encoding, element_def@, old(reader)@, 1) == Err::<
                    (Seq<RecordView>, Seq<u8>, usize),
                    ParseErrorView,
                >(e@),
            },
    {
        let mut location = LocationTracker::new();
        location.next_line();
        read_records(reader, &mut location, element_def, header.encoding)
    }

    /// Reads one record of the element off the front of `reader`, most
    /// significant byte first.
    pub fn read_big_endian_element(&self, reader: &mut &[u8], element_def: &ElementDef) -> (r:
        Result<E, ParseError>)
        ensures
            match r {
                Ok(record) => spec_binary_element(
                    element_def.schema(),
                    Endianness::Big,
                    old(reader)@,
                ) matches Ok(out) && out.1 == final(reader)@ && record.model() == record_model::<E>(
                    out.0,
                ),
                Err(e) => spec_binary_element(element_def.schema(), Endianness::Big, old(reader)@)
                    == Err::<(RecordView, Seq<u8>), ParseErrorView>(e@),
            },
    {
        read_binary_element::<E>(reader, element_def, Endianness::Big)
    }

    /// Reads one record of the element off the front of `reader`, least
    /// significant byte first.
    pub fn read_little_endian_element(&self, reader: &mut &[u8], element_def: &ElementDef) -> (r:
        Result<E, ParseError>)
        ensures
            match r {
                Ok(record) => spec_binary_element(
                    element_def.schema(),
                    Endianness::Little,
                    old(reader)@,
                ) matches Ok(out) && out.1 == final(reader)@ && record.model() == record_model::<E>(
                    out.0,
                ),
                Err(e) => spec_binary_element(
                    element_def.schema(),
                    Endianness::Little,
                    old(reader)@,
                ) == Err::<(RecordView, Seq<u8>), ParseErrorView>(e@),
            },
    {
        read_binary_element::<E>(reader, element_def, Endianness::Little)
    }

    /// Reads one record of the element from a line of an ASCII payload.
    pub fn read_ascii_element(&self, line: &str, element_def: &ElementDef) -> (r: Result<
        E,
        ParseError,
    >)
        ensures
            match r {
                Ok(record) => spec_ascii_element(element_def.schema(), line@) matches Ok(values)
                    && record.model() == record_model::<E>(values),
                Err(e) => spec_ascii_element(element_def.schema(), line@) == Err::<
                    RecordView,
                    ParseErrorView,
                >(e@),
            },
    {
        read_ascii_element::<E>(line, element_def)
    }

    /// Reads the records of each element of `header` off the front of
    /// `reader`, in the order of the header.
    fn read_payload(&self, reader: &mut &[u8], location: &mut LocationTracker, header: &Header) -> (r:
        Result<Payload<E>, ParseError>)
        requires
            header.elements.wf(),
        ensures
            match r {
                Ok(payload) => spec_payload(
                    header@,
                    old(reader)@,
                    old(location).line_index,
                    header@.elements.len(),
                ) matches Ok(out) && payload_matches(payload@, out.0) && out.1 == final(reader)@
                    && out.2 == final(location).line_index && payload.wf(),
                Err(e) => spec_payload(
                    header@,
                    old(reader)@,
                    old(location).line_index,
                    header@.elements.len(),
                ) == Err::<(PayloadView, Seq<u8>, usize), ParseErrorView>(e@),
            },
    {
        let ghost mut values: PayloadView = Seq::empty();
        let mut payload: Payload<E> = KeyMap::new();
        let n = header.elements.len();
        let mut i: usize = 0;
        while i < n
            invariant
                i <= n,
                n == header.elements@.len(),
                n == header@.elements.len(),
                header.elements.wf(),
                payload.wf(),
                spec_payload(header@, old(reader)@, old(location).line_index, i as nat) == Ok::<
                    (PayloadView, Seq<u8>, usize),
                    ParseErrorView,
                >((values, reader@, location.line_index)),
                payload_matches(payload@, values),
                payload@.len() == i,
                forall|j: int| 0 <= j < i ==> (#[trigger] payload@[j]).0 == header.elements@[j].0,
            decreases n - i,
        {
            let name = header.elements.key_at(i);
            let element_def = header.elements.value_at(i);
            assert(header@.elements[i as int] == (name@, element_def@));
            let ghost rest = reader@;
            let ghost at = location.line_index;
            match read_records::<E>(reader, location, element_def, header.encoding) {
                Ok(records) => {
                    proof {
                        let out = element_records(header.encoding, element_def@, rest, at)->Ok_0;
                        values = values.push((name@, out.0));
                        assert forall|j: int| 0 <= j < payload@.len() implies (
                        #[trigger] payload@[j]).0 != name@ by {
                            assert(header.elements@[j].0 != header.elements@[i as int].0);
                        }
                        lemma_position_is(payload@, name@, payload@.len() as int);
                    }
                    let _ = payload.insert(name.clone(), records);
                },
                Err(e) => {
                    proof {
                        lemma_payload_fails(
                            header@,
                            old(reader)@,
                            old(location).line_index,
                            (i + 1) as nat,
                            n as nat,
                        );
                    }
                    return Err(e);
                },
            }
            i = i + 1;
        }
        Ok(payload)
    }
}

/// Reads the records of one element off the front of `reader` in the given
/// encoding, and counts the lines of an ASCII payload in `location`.
pub fn read_records<E: PropertyAccess>(
    reader: &mut &[u8],
    location: &mut LocationTracker,
    element_def: &ElementDef,
    encoding: Encoding,
) -> (r: Result<Vec<E>, ParseError>)
    ensures
        match r {
            Ok(records) => element_records(
                encoding,
                element_def@,
                old(reader)@,
                old(location).line_index,
            ) matches Ok(out) && out.1 == final(reader)@ && out.2 == final(location).line_index
                && models_match(records@, out.0) && records@.len() == element_def.count,
            Err(e) => element_records(
                encoding,
                element_def@,
                old(reader)@,
                old(location).line_index,
            ) == Err::<(Seq<RecordView>, Seq<u8>, usize), ParseErrorView>(e@),
        },
{
    match encoding {
        Encoding::Ascii => read_ascii_payload_for_element::<E>(reader, location, element_def),
        Encoding::BinaryBigEndian => read_binary_payload_for_element::<E>(
            reader,
            element_def,
            Endianness::Big,
        ),
        Encoding::BinaryLittleEndian => read_binary_payload_for_element::<E>(
            reader,
            element_def,
            Endianness::Little,
        ),
    }
}

} // verus!
