//! The header reader: a state machine that takes the lines of a header one
//! by one and ends with the header they declare, or with the first error.

use crate::canonical::{header_valid, lemma_read_header_valid};
use crate::error::{Detail, ErrorKind, ParseError, ParseErrorView};
use crate::grammar::{line, spec_line, SyntaxError};
use crate::key_map::{
    distinct_keys, lemma_position, lemma_position_is, lemma_position_map_entries,
    lemma_with_entry_distinct, lemma_with_entry_map_entries, position, KeyMap,
};
use crate::parser::{Line, LineKind, LineView};
use crate::ply::{
    element_defs_view, texts, Comment, ElementDef, ElementDefView, Encoding,
    Header, HeaderView, ObjInfo, PropertyDef, PropertyDefView, Version,
};
use crate::stream::{
    after_first_line, first_line, lemma_line_end, line_string, line_text, take_line, text_of,
    text_or_empty,
};
use crate::util::{next_line_index, LocationTracker};
use vstd::prelude::*;

verus! {

/// What the lines of a header have declared so far, as a mathematical value.
pub struct DraftView {
    pub format: Option<(Encoding, Version)>,
    pub obj_infos: Seq<Seq<char>>,
    pub comments: Seq<Seq<char>>,
    pub elements: Seq<(Seq<char>, ElementDefView)>,
}

impl DraftView {
    /// Nothing declared yet.
    pub open spec fn empty() -> DraftView {
        DraftView {
            format: None,
            obj_infos: Seq::empty(),
            comments: Seq::empty(),
            elements: Seq::empty(),
        }
    }

    /// No two elements have the same name, and no two properties of one
    /// element do.
    pub open spec fn wf(self) -> bool {
        &&& distinct_keys(self.elements)
        &&& forall|i: int|
            0 <= i < self.elements.len() ==> distinct_keys((#[trigger] self.elements[i]).1.properties)
    }

    /// The header that the draft makes, once it has a format.
    pub open spec fn header(self) -> Option<HeaderView> {
        match self.format {
            Some(f) => Some(
                HeaderView {
                    encoding: f.0,
                    version: f.1,
                    obj_infos: self.obj_infos,
                    comments: self.comments,
                    elements: self.elements,
                },
            ),
            None => None,
        }
    }
}

/// What one more line does to a draft: the next draft, or `None` where the
/// line ends the header, or the error that the line brings. The error has
/// no place yet.
pub open spec fn header_step(draft: DraftView, line: LineView) -> Result<
    Option<DraftView>,
    ParseErrorView,
> {
    match line {
        LineView::MagicNumber => Err(
            ParseErrorView::new(ErrorKind::InvalidHeader).with_detail(
                Detail::Unexpected(LineKind::MagicNumber),
            ),
        ),
        LineView::Format(f) => match draft.format {
            None => Ok(Some(DraftView { format: Some(f), ..draft })),
            Some(g) => if f == g {
                Ok(Some(draft))
            } else {
                Err(
                    ParseErrorView::new(ErrorKind::InvalidHeader).with_detail(
                        Detail::Formats { found: f, previous: g },
                    ),
                )
            },
        },
        LineView::ObjInfo(o) => Ok(Some(DraftView { obj_infos: draft.obj_infos.push(o), ..draft })),
        LineView::Comment(c) => Ok(Some(DraftView { comments: draft.comments.push(c), ..draft })),
        LineView::Element(e) => if position(draft.elements, e.name) < draft.elements.len() {
            Err(ParseErrorView::new(ErrorKind::DuplicateElement).with_element(e.name))
        } else {
            Ok(Some(DraftView { elements: draft.elements.push((e.name, e)), ..draft }))
        },
        LineView::Property(p) => if draft.elements.len() == 0 {
            Err(ParseErrorView::new(ErrorKind::PropertyBeforeElement).with_property(p.name))
        } else {
            let (key, last) = draft.elements.last();
            if position(last.properties, p.name) < last.properties.len() {
                Err(
                    ParseErrorView::new(ErrorKind::DuplicateProperty).with_element(
                        key,
                    ).with_property(p.name),
                )
            } else {
                let grown = ElementDefView {
                    properties: last.properties.push((p.name, p)),
                    ..last
                };
                Ok(
                    Some(
                        DraftView {
                            elements: draft.elements.update(
                                draft.elements.len() - 1,
                                (key, grown),
                            ),
                            ..draft
                        },
                    ),
                )
            }
        },
        LineView::EndHeader => Ok(None),
    }
}

/// A line keeps the names of a draft distinct.
pub proof fn lemma_header_step_wf(draft: DraftView, line: LineView)
    requires
        draft.wf(),
        line matches LineView::Element(e) ==> distinct_keys(e.properties),
    ensures
        header_step(draft, line) matches Ok(Some(next)) ==> next.wf(),
{
    match line {
        LineView::Element(e) => {
            if position(draft.elements, e.name) >= draft.elements.len() {
                lemma_position(draft.elements, e.name);
                let next = header_step(draft, line)->Ok_0->Some_0;
                assert forall|i: int, j: int| 0 <= i < j < next.elements.len() implies (
                #[trigger] next.elements[i]).0 != (#[trigger] next.elements[j]).0 by {
                    if j < draft.elements.len() {
                        assert(next.elements[i] == draft.elements[i]);
                        assert(next.elements[j] == draft.elements[j]);
                    } else {
                        assert(next.elements[i] == draft.elements[i]);
                    }
                }
                assert forall|i: int| 0 <= i < next.elements.len() implies distinct_keys(
                    (#[trigger] next.elements[i]).1.properties,
                ) by {
                    if i < draft.elements.len() {
                        assert(next.elements[i] == draft.elements[i]);
                    }
                }
            }
        },
        LineView::Property(p) => {
            if draft.elements.len() > 0 {
                let (key, last) = draft.elements.last();
                if position(last.properties, p.name) >= last.properties.len() {
                    lemma_position(last.properties, p.name);
                    lemma_with_entry_distinct(last.properties, p.name, p);
                    let next = header_step(draft, line)->Ok_0->Some_0;
                    let n = draft.elements.len() as int;
                    assert(distinct_keys(draft.elements[n - 1].1.properties));
                    assert forall|i: int, j: int| 0 <= i < j < next.elements.len() implies (
                    #[trigger] next.elements[i]).0 != (#[trigger] next.elements[j]).0 by {
                        assert(next.elements[i].0 == draft.elements[i].0);
                        assert(next.elements[j].0 == draft.elements[j].0);
                    }
                    assert forall|i: int| 0 <= i < next.elements.len() implies distinct_keys(
                        (#[trigger] next.elements[i]).1.properties,
                    ) by {
                        if i < n - 1 {
                            assert(next.elements[i] == draft.elements[i]);
                        }
                    }
                }
            }
        },
        _ => {},
    }
}

/// What a raw line of a header says: the line has to be UTF-8 text that
/// follows the grammar.
pub open spec fn spec_classify(raw: Seq<u8>) -> Result<LineView, SyntaxError> {
    match text_of(raw) {
        Some(text) => spec_line(text),
        None => Err(SyntaxError::Utf8),
    }
}

/// What reading the lines of a header from `bytes` on gives, where the lines
/// before have made `draft` and the next line has number `line`: the
/// header, the bytes behind its last line and the number of the line that
/// follows; or the first error.
pub open spec fn header_rest(bytes: Seq<u8>, draft: DraftView, line: usize) -> Result<
    (HeaderView, Seq<u8>, usize),
    ParseErrorView,
>
    decreases bytes.len(),
{
    if bytes.len() == 0 {
        Err(ParseErrorView::new(ErrorKind::UnexpectedEof).at(line, Seq::empty()))
    } else {
        let raw = first_line(bytes);
        match spec_classify(raw) {
            Err(e) => Err(
                ParseErrorView::new(ErrorKind::InvalidInput).with_detail(Detail::Syntax(e)).at(
                    line,
                    text_or_empty(raw),
                ),
            ),
            Ok(l) => match header_step(draft, l) {
                Err(e) => Err(e.at(line, text_or_empty(raw))),
                Ok(Some(next)) => {
                    proof {
                        lemma_line_end(bytes);
                    }
                    header_rest(after_first_line(bytes), next, next_line_index(line))
                },
                Ok(None) => match draft.header() {
                    Some(h) => Ok((h, after_first_line(bytes), next_line_index(line))),
                    None => Err(ParseErrorView::new(ErrorKind::MissingFormat)),
                },
            },
        }
    }
}

/// What reading a header from `bytes` gives, where `line` lines were read
/// before it: the first line has to be the magic number, the lines behind it
/// make the header.
pub open spec fn spec_read_header(bytes: Seq<u8>, line: usize) -> Result<
    (HeaderView, Seq<u8>, usize),
    ParseErrorView,
> {
    let first = next_line_index(line);
    let raw = first_line(bytes);
    match spec_classify(raw) {
        Ok(LineView::MagicNumber) => header_rest(
            after_first_line(bytes),
            DraftView::empty(),
            next_line_index(first),
        ),
        Ok(l) => Err(
            ParseErrorView::new(ErrorKind::InvalidHeader).with_detail(
                Detail::Unexpected(l.kind()),
            ).at(first, text_or_empty(raw)),
        ),
        Err(e) => Err(
            ParseErrorView::new(ErrorKind::InvalidHeader).with_detail(Detail::Syntax(e)).at(
                first,
                text_or_empty(raw),
            ),
        ),
    }
}

/// A format line behind another one is passed over where the two agree, and
/// ends the reading with `InvalidHeader` at that line where they do not.
pub proof fn lemma_second_format_line(
    bytes: Seq<u8>,
    draft: DraftView,
    line: usize,
    first: (Encoding, Version),
    second: (Encoding, Version),
)
    requires
        bytes.len() > 0,
        draft.format == Some(first),
        spec_classify(first_line(bytes)) == Ok::<LineView, SyntaxError>(LineView::Format(second)),
    ensures
        second == first ==> header_rest(bytes, draft, line) == header_rest(
            after_first_line(bytes),
            draft,
            next_line_index(line),
        ),
        second != first ==> header_rest(bytes, draft, line) == Err::<
            (HeaderView, Seq<u8>, usize),
            ParseErrorView,
        >(
            ParseErrorView::new(ErrorKind::InvalidHeader).with_detail(
                Detail::Formats { found: second, previous: first },
            ).at(line, text_or_empty(first_line(bytes))),
        ),
{
}

/// A property line ends the reading with `PropertyBeforeElement` at that
/// line where no element was declared before it.
pub proof fn lemma_property_before_element(
    bytes: Seq<u8>,
    draft: DraftView,
    line: usize,
    property: PropertyDefView,
)
    requires
        bytes.len() > 0,
        draft.elements.len() == 0,
        spec_classify(first_line(bytes)) == Ok::<LineView, SyntaxError>(
            LineView::Property(property),
        ),
    ensures
        header_rest(bytes, draft, line) == Err::<(HeaderView, Seq<u8>, usize), ParseErrorView>(
            ParseErrorView::new(ErrorKind::PropertyBeforeElement).with_property(
                property.name,
            ).at(line, text_or_empty(first_line(bytes))),
        ),
{
}

/// As long as no line declares an element, none is declared.
pub proof fn lemma_no_element_without_element_line(draft: DraftView, line: LineView)
    requires
        draft.elements.len() == 0,
        !(line is Element),
    ensures
        header_step(draft, line) matches Ok(Some(next)) ==> next.elements.len() == 0,
{
}

/// The names of a header that was read are distinct: those of its elements,
/// and those of the properties of each element.
pub proof fn lemma_header_names_distinct(bytes: Seq<u8>, draft: DraftView, line: usize)
    requires
        draft.wf(),
    ensures
        header_rest(bytes, draft, line) matches Ok(out) ==> distinct_keys(out.0.elements)
            && forall|i: int|
            0 <= i < out.0.elements.len() ==> distinct_keys(
                (#[trigger] out.0.elements[i]).1.properties,
            ),
    decreases bytes.len(),
{
    if bytes.len() > 0 {
        if let Ok(l) = spec_classify(first_line(bytes)) {
            if let Ok(Some(next)) = header_step(draft, l) {
                lemma_line_end(bytes);
                lemma_header_step_wf(draft, l);
                lemma_header_names_distinct(after_first_line(bytes), next, next_line_index(line));
            }
        }
    }
}

/// What the lines of a header have declared so far.
#[derive(Debug)]
pub struct HeaderDraft {
    format: Option<(Encoding, Version)>,
    obj_infos: Vec<ObjInfo>,
    comments: Vec<Comment>,
    elements: KeyMap<ElementDef>,
}

impl View for HeaderDraft {
    type V = DraftView;

    closed spec fn view(&self) -> DraftView {
        DraftView {
            format: self.format,
            obj_infos: texts(self.obj_infos@),
            comments: texts(self.comments@),
            elements: element_defs_view(self.elements@),
        }
    }
}

impl HeaderDraft {
    /// The names are distinct, as in every draft that the library makes.
    pub closed spec fn wf(&self) -> bool {
        &&& self@.wf()
        &&& self.elements.wf()
        &&& forall|i: int|
            0 <= i < self.elements@.len() ==> (#[trigger] self.elements@[i]).1.properties.wf()
    }

    /// A draft in which nothing is declared.
    pub fn new() -> (r: Self)
        ensures
            r@ == DraftView::empty(),
            r.wf(),
    {
        let r = HeaderDraft {
            format: None,
            obj_infos: Vec::new(),
            comments: Vec::new(),
            elements: KeyMap::new(),
        };
        assert(r@.obj_infos =~= Seq::empty());
        assert(r@.comments =~= Seq::empty());
        assert(r@.elements =~= Seq::empty());
        r
    }

    /// Takes one more line. Returns whether the line ends the header; an
    /// error leaves the draft as it was.
    pub fn accept(&mut self, line: Line) -> (r: Result<bool, ParseError>)
        requires
            old(self).wf(),
            line matches Line::Element(e) ==> e.properties.wf(),
        ensures
            final(self).wf(),
            match r {
                Ok(done) => header_step(old(self)@, line@) matches Ok(next) && done == (next
                    is None) && final(self)@ == (if done {
                    old(self)@
                } else {
                    next->Some_0
                }),
                Err(e) => header_step(old(self)@, line@) == Err::<Option<DraftView>, ParseErrorView>(
                    e@,
                ) && final(self)@ == old(self)@,
            },
    {
        proof {
            lemma_header_step_wf(self@, line@);
        }
        match line {
            Line::MagicNumber => Err(
                ParseError::new(ErrorKind::InvalidHeader).with_detail(
                    Detail::Unexpected(LineKind::MagicNumber),
                ),
            ),
            Line::Format(f) => {
                match self.format {
                    None => {
                        self.format = Some(f);
                        Ok(false)
                    },
                    Some(g) => {
                        if f.0 == g.0 && f.1 == g.1 {
                            Ok(false)
                        } else {
                            Err(
                                ParseError::new(ErrorKind::InvalidHeader).with_detail(
                                    Detail::Formats { found: f, previous: g },
                                ),
                            )
                        }
                    },
                }
            },
            Line::ObjInfo(o) => {
                self.obj_infos.push(o);
                assert(texts(self.obj_infos@) =~= texts(old(self).obj_infos@).push(o@));
                Ok(false)
            },
            Line::Comment(c) => {
                self.comments.push(c);
                assert(texts(self.comments@) =~= texts(old(self).comments@).push(c@));
                Ok(false)
            },
            Line::Element(e) => {
                proof {
                    lemma_position_map_entries(self.elements@, |d: ElementDef| d@, e.name@);
                    lemma_with_entry_map_entries(self.elements@, |d: ElementDef| d@, e.name@, e);
                }
                if self.elements.contains_key(e.name.as_str()) {
                    Err(ParseError::new(ErrorKind::DuplicateElement).with_element(e.name))
                } else {
                    let ghost before = self.elements@;
                    self.elements.add(e);
                    assert forall|i: int| 0 <= i < self.elements@.len() implies (
                    #[trigger] self.elements@[i]).1.properties.wf() by {
                        if i < before.len() {
                            assert(self.elements@[i] == before[i]);
                        }
                    }
                    Ok(false)
                }
            },
            Line::Property(p) => {
                let n = self.elements.len();
                if n == 0 {
                    return Err(
                        ParseError::new(ErrorKind::PropertyBeforeElement).with_property(p.name),
                    );
                }
                let ghost before = self.elements@;
                let ghost last = before[n - 1].1;
                assert(element_defs_view(before)[n - 1] == (before[n - 1].0, last@));
                proof {
                    lemma_position_map_entries(last.properties@, |d: PropertyDef| d@, p.name@);
                    lemma_with_entry_map_entries(
                        last.properties@,
                        |d: PropertyDef| d@,
                        p.name@,
                        p,
                    );
                    lemma_position(last.properties@, p.name@);
                }
                if self.elements.value_at(n - 1).properties.contains_key(p.name.as_str()) {
                    let key = self.elements.key_at(n - 1).clone();
                    return Err(
                        ParseError::new(ErrorKind::DuplicateProperty).with_element(
                            key,
                        ).with_property(p.name),
                    );
                }
                match self.elements.pop_back() {
                    Some((key, mut element)) => {
                        assert(element == last);
                        element.properties.add(p);
                        proof {
                            lemma_position_is(
                                before.drop_last(),
                                key@,
                                before.drop_last().len() as int,
                            );
                        }
                        let ghost grown = element;
                        let _ = self.elements.insert(key, element);
                        assert(self.elements@ =~= before.update(n - 1, (before[n - 1].0, grown)));
                        assert(grown@.properties =~= last@.properties.push((p.name@, p@)));
                        assert(element_defs_view(self.elements@) =~= element_defs_view(
                            before,
                        ).update(n - 1, (before[n - 1].0, grown@)));
                        Ok(false)
                    },
                    None => Ok(false),
                }
            },
            Line::EndHeader => Ok(true),
        }
    }

    /// The header that the draft makes, where it has a format.
    pub fn finish(self) -> (r: Result<Header, ParseError>)
        requires
            self.wf(),
        ensures
            match r {
                Ok(h) => self@.header() == Some(h@) && h.wf(),
                Err(e) => self@.header() is None && e@ == ParseErrorView::new(
                    ErrorKind::MissingFormat,
                ),
            },
    {
        match self.format {
            Some(f) => Ok(
                Header {
                    encoding: f.0,
                    version: f.1,
                    obj_infos: self.obj_infos,
                    comments: self.comments,
                    elements: self.elements,
                },
            ),
            None => Err(ParseError::new(ErrorKind::MissingFormat)),
        }
    }
}

/// What a raw line of a header says.
pub fn classify(raw: &[u8]) -> (r: Result<Line, SyntaxError>)
    ensures
        match r {
            Ok(l) => spec_classify(raw@) == Ok::<LineView, SyntaxError>(l@) && (l matches Line::Element(
                e,
            ) ==> e.properties.wf()),
            Err(e) => spec_classify(raw@) == Err::<LineView, SyntaxError>(e),
        },
{
    match line_text(raw) {
        Some(text) => line(text),
        None => Err(SyntaxError::Utf8),
    }
}

/// Reads a header off the front of `reader` and counts its lines in
/// `location`, which then stands at the first line behind the header.
pub fn read_header_at(reader: &mut &[u8], location: &mut LocationTracker) -> (r: Result<
    Header,
    ParseError,
>)
    ensures
        match r {
            Ok(h) => spec_read_header(old(reader)@, old(location).line_index) == Ok::<
                (HeaderView, Seq<u8>, usize),
                ParseErrorView,
            >((h@, final(reader)@, final(location).line_index)) && h.wf() && header_valid(h@),
            Err(e) => spec_read_header(old(reader)@, old(location).line_index) == Err::<
                (HeaderView, Seq<u8>, usize),
                ParseErrorView,
            >(e@),
        },
{
    let ghost goal = spec_read_header(reader@, location.line_index);
    proof {
        lemma_read_header_valid(reader@, location.line_index);
    }
    location.next_line();
    let raw = take_line(reader);
    match classify(raw) {
        Ok(Line::MagicNumber) => {},
        Ok(l) => {
            return Err(
                ParseError::new(ErrorKind::InvalidHeader).with_detail(
                    Detail::Unexpected(l.kind()),
                ).at(location.line_index, line_string(raw)),
            );
        },
        Err(e) => {
            return Err(
                ParseError::new(ErrorKind::InvalidHeader).with_detail(Detail::Syntax(e)).at(
                    location.line_index,
                    line_string(raw),
                ),
            );
        },
    }
    let mut draft = HeaderDraft::new();
    location.next_line();
    loop
        invariant
            draft.wf(),
            goal == spec_read_header(old(reader)@, old(location).line_index),
            goal == header_rest(reader@, draft@, location.line_index),
            goal matches Ok(out) ==> header_valid(out.0),
        decreases reader@.len(),
    {
        if reader.len() == 0 {
            return Err(
                ParseError::new(ErrorKind::UnexpectedEof).at(location.line_index, String::new()),
            );
        }
        proof {
            lemma_line_end(reader@);
        }
        let raw = take_line(reader);
        match classify(raw) {
            Err(e) => {
                return Err(
                    ParseError::new(ErrorKind::InvalidInput).with_detail(Detail::Syntax(e)).at(
                        location.line_index,
                        line_string(raw),
                    ),
                );
            },
            Ok(l) => {
                match draft.accept(l) {
                    Err(e) => {
                        return Err(e.at(location.line_index, line_string(raw)));
                    },
                    Ok(done) => {
                        location.next_line();
                        if done {
                            return draft.finish();
                        }
                    },
                }
            },
        }
    }
}

} // verus!
