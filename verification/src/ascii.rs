//! The ASCII payload: one record per line, its numbers as words.

use crate::binary::models_match;
use crate::error::{Detail, ErrorKind, ParseError, ParseErrorView};
use crate::grammar::{
    check_number, digits_value, is_digits, is_number, len_without_line_break, parse_number,
    record_tokens, sign_len, spans_match, split_words, to_chars, SyntaxError,
};
use crate::ply::{
    record_model, scalars_view, ElementDef, Property, PropertyAccess, PropertyType, PropertyView,
    Real, RealView, RecordView, Scalar, ScalarType, ScalarView, Schema,
};
use crate::stream::{after_first_line, first_line, line_text, take_line, text_of};
use crate::util::{next_line_index, LocationTracker};
use vstd::prelude::*;

verus! {

/// The whole number that `token` writes: decimal digits, before which a sign
/// may stand.
pub open spec fn integer_value(token: Seq<char>) -> Option<int> {
    let digits = token.skip(sign_len(token) as int);
    if is_digits(digits) {
        if sign_len(token) == 1 && token[0] == '-' {
            Some(-(digits_value(digits) as int))
        } else {
            Some(digits_value(digits) as int)
        }
    } else {
        None
    }
}

/// The number of kind `kind` that `token` writes: a whole number within the
/// bounds of the kind, or, for a floating-point kind, a number in decimal or
/// scientific form, of which the text is kept.
pub open spec fn ascii_scalar(kind: ScalarType, token: Seq<char>) -> Option<ScalarView> {
    match kind {
        ScalarType::Float => if is_number(token) {
            Some(ScalarView::Float(RealView::Decimal(token)))
        } else {
            None
        },
        ScalarType::Double => if is_number(token) {
            Some(ScalarView::Double(RealView::Decimal(token)))
        } else {
            None
        },
        _ => match integer_value(token) {
            Some(value) => if kind.spec_min() <= value <= kind.spec_max() {
                Some(ScalarView::of_int(kind, value))
            } else {
                None
            },
            None => None,
        },
    }
}

/// What reading one number of kind `kind` at index `at` of `tokens` gives:
/// the number and the index behind it, or the token that is no such number,
/// which is empty where the tokens have run out.
pub open spec fn ascii_scalar_at(kind: ScalarType, tokens: Seq<Seq<char>>, at: nat) -> Result<
    (ScalarView, nat),
    Seq<char>,
> {
    if at >= tokens.len() {
        Err(Seq::empty())
    } else {
        match ascii_scalar(kind, tokens[at as int]) {
            Some(value) => Ok((value, at + 1)),
            None => Err(tokens[at as int]),
        }
    }
}

/// What reading `n` numbers of kind `kind` from index `at` of `tokens` on
/// gives.
pub open spec fn ascii_list(kind: ScalarType, tokens: Seq<Seq<char>>, at: nat, n: nat) -> Result<
    (Seq<ScalarView>, nat),
    Seq<char>,
>
    decreases n,
{
    if n == 0 {
        Ok((Seq::empty(), at))
    } else {
        match ascii_list(kind, tokens, at, (n - 1) as nat) {
            Err(token) => Err(token),
            Ok((items, next)) => match ascii_scalar_at(kind, tokens, next) {
                Err(token) => Err(token),
                Ok((item, behind)) => Ok((items.push(item), behind)),
            },
        }
    }
}

/// What reading the value of a property from index `at` of `tokens` on
/// gives. A list starts with its length, which has to be a whole number and
/// not negative; the error is then the token of the length.
pub open spec fn ascii_property(data_type: PropertyType, tokens: Seq<Seq<char>>, at: nat) -> Result<
    (PropertyView, nat),
    Seq<char>,
> {
    match data_type {
        PropertyType::Scalar(kind) => match ascii_scalar_at(kind, tokens, at) {
            Err(token) => Err(token),
            Ok((value, next)) => Ok((PropertyView::Scalar(value), next)),
        },
        PropertyType::List(index, item) => match ascii_scalar_at(index, tokens, at) {
            Err(token) => Err(token),
            Ok((length, next)) => match length.as_count() {
                None => Err(tokens[at as int]),
                Some(n) => match ascii_list(item, tokens, next, n) {
                    Err(token) => Err(token),
                    Ok((items, behind)) => Ok((PropertyView::List(items), behind)),
                },
            },
        },
    }
}

/// What reading the first `k` properties of a record from `tokens` gives:
/// their values and the index of the first token that was not read. An
/// error names the property at which it arose and holds the token at fault.
pub open spec fn ascii_record(schema: Schema, tokens: Seq<Seq<char>>, k: nat) -> Result<
    (RecordView, nat),
    ParseErrorView,
>
    decreases k,
{
    if k == 0 {
        Ok((Seq::empty(), 0))
    } else {
        match ascii_record(schema, tokens, (k - 1) as nat) {
            Err(e) => Err(e),
            Ok((values, at)) => {
                let (name, data_type) = schema[k - 1];
                match ascii_property(data_type, tokens, at) {
                    Err(token) => Err(
                        ParseErrorView::new(ErrorKind::MalformedRecord).with_property(
                            name,
                        ).with_token(token),
                    ),
                    Ok((value, behind)) => Ok((values.push((name, value)), behind)),
                }
            },
        }
    }
}

/// What reading one record from the line `line` gives. Tokens behind those
/// that the properties take are left aside.
pub open spec fn spec_ascii_element(schema: Schema, line: Seq<char>) -> Result<
    RecordView,
    ParseErrorView,
> {
    match ascii_record(schema, record_tokens(line), schema.len()) {
        Ok((values, _)) => Ok(values),
        Err(e) => Err(e),
    }
}

/// What reading `n` records of the element `name` from the front of `bytes`
/// gives, one line each, where the first line has number `line`: the
/// records, the bytes behind them and the number of the line that follows.
/// An error names the element and the line.
pub open spec fn ascii_records(
    name: Seq<char>,
    schema: Schema,
    bytes: Seq<u8>,
    line: usize,
    n: nat,
) -> Result<(Seq<RecordView>, Seq<u8>, usize), ParseErrorView>
    decreases n,
{
    if n == 0 {
        Ok((Seq::empty(), bytes, line))
    } else {
        match ascii_records(name, schema, bytes, line, (n - 1) as nat) {
            Err(e) => Err(e),
            Ok((records, rest, at)) => if rest.len() == 0 {
                Err(
                    ParseErrorView::new(ErrorKind::UnexpectedEof).with_element(name).at(
                        at,
                        Seq::empty(),
                    ),
                )
            } else {
                match text_of(first_line(rest)) {
                    None => Err(
                        ParseErrorView::new(ErrorKind::MalformedRecord).with_detail(
                            Detail::Syntax(SyntaxError::Utf8),
                        ).with_element(name).at(at, Seq::empty()),
                    ),
                    Some(text) => match spec_ascii_element(schema, text) {
                        Err(e) => Err(e.with_element(name).at(at, text)),
                        Ok(record) => Ok(
                            (records.push(record), after_first_line(rest), next_line_index(at)),
                        ),
                    },
                }
            },
        }
    }
}

/// Once reading a list has failed, reading a longer one fails in the same
/// way.
pub proof fn lemma_ascii_list_fails(
    kind: ScalarType,
    tokens: Seq<Seq<char>>,
    at: nat,
    k: nat,
    n: nat,
)
    requires
        k <= n,
        ascii_list(kind, tokens, at, k) is Err,
    ensures
        ascii_list(kind, tokens, at, n) == ascii_list(kind, tokens, at, k),
    decreases n,
{
    if k < n {
        lemma_ascii_list_fails(kind, tokens, at, k, (n - 1) as nat);
    }
}

/// Once reading the properties of a record has failed, reading more of them
/// fails in the same way.
pub proof fn lemma_ascii_record_fails(schema: Schema, tokens: Seq<Seq<char>>, k: nat, n: nat)
    requires
        k <= n,
        ascii_record(schema, tokens, k) is Err,
    ensures
        ascii_record(schema, tokens, n) == ascii_record(schema, tokens, k),
    decreases n,
{
    if k < n {
        lemma_ascii_record_fails(schema, tokens, k, (n - 1) as nat);
    }
}

/// Once reading records has failed, reading more of them fails in the same
/// way.
pub proof fn lemma_ascii_records_fails(
    name: Seq<char>,
    schema: Schema,
    bytes: Seq<u8>,
    line: usize,
    k: nat,
    n: nat,
)
    requires
        k <= n,
        ascii_records(name, schema, bytes, line, k) is Err,
    ensures
        ascii_records(name, schema, bytes, line, n) == ascii_records(name, schema, bytes, line, k),
    decreases n,
{
    if k < n {
        lemma_ascii_records_fails(name, schema, bytes, line, k, (n - 1) as nat);
    }
}

/// Reading `n` records gives `n` records.
pub proof fn lemma_ascii_records_len(
    name: Seq<char>,
    schema: Schema,
    bytes: Seq<u8>,
    line: usize,
    n: nat,
)
    ensures
        ascii_records(name, schema, bytes, line, n) matches Ok(out) ==> out.0.len() == n,
    decreases n,
{
    if n > 0 {
        lemma_ascii_records_len(name, schema, bytes, line, (n - 1) as nat);
    }
}

/// Whatever is wrong with a record line, the error is `MalformedRecord` and
/// names one of the properties.
pub proof fn lemma_ascii_record_error(schema: Schema, tokens: Seq<Seq<char>>, k: nat)
    ensures
        ascii_record(schema, tokens, k) matches Err(e) ==> e.kind == ErrorKind::MalformedRecord
            && exists|i: int| 0 <= i < k && e.property == (#[trigger] schema[i]).0,
    decreases k,
{
    if k > 0 {
        lemma_ascii_record_error(schema, tokens, (k - 1) as nat);
        if ascii_record(schema, tokens, (k - 1) as nat) is Ok {
            if let Err(e) = ascii_record(schema, tokens, k) {
                assert(e.property == schema[k - 1].0);
            }
        }
    }
}

/// The index up to which a record was read lies within the tokens.
pub proof fn lemma_ascii_list_within(kind: ScalarType, tokens: Seq<Seq<char>>, at: nat, n: nat)
    requires
        at <= tokens.len(),
    ensures
        ascii_list(kind, tokens, at, n) matches Ok(out) ==> at <= out.1 <= tokens.len(),
    decreases n,
{
    if n > 0 {
        lemma_ascii_list_within(kind, tokens, at, (n - 1) as nat);
    }
}

/// The index up to which a record was read lies within the tokens.
pub proof fn lemma_ascii_record_within(schema: Schema, tokens: Seq<Seq<char>>, k: nat)
    ensures
        ascii_record(schema, tokens, k) matches Ok(out) ==> out.1 <= tokens.len(),
    decreases k,
{
    if k > 0 {
        lemma_ascii_record_within(schema, tokens, (k - 1) as nat);
        if let Ok(before) = ascii_record(schema, tokens, (k - 1) as nat) {
            match schema[k - 1].1 {
                PropertyType::Scalar(_) => {},
                PropertyType::List(index, item) => {
                    if let Ok(length) = ascii_scalar_at(index, tokens, before.1) {
                        if let Some(n) = length.0.as_count() {
                            lemma_ascii_list_within(item, tokens, length.1, n);
                        }
                    }
                },
            }
        }
    }
}

/// Where the tokens of a line are used up before the property of index `k`,
/// the record fails with `MalformedRecord`, which names that property and
/// holds no token.
pub proof fn lemma_too_few_tokens(schema: Schema, tokens: Seq<Seq<char>>, k: nat)
    requires
        k < schema.len(),
        ascii_record(schema, tokens, k) matches Ok(out) && out.1 == tokens.len(),
    ensures
        ascii_record(schema, tokens, schema.len()) == Err::<(RecordView, nat), ParseErrorView>(
            ParseErrorView::new(ErrorKind::MalformedRecord).with_property(schema[k as int].0).with_token(
                Seq::empty(),
            ),
        ),
{
    lemma_ascii_record_fails(schema, tokens, k + 1, schema.len());
}

/// A line with fewer tokens than the element has properties fails with
/// `MalformedRecord`.
pub proof fn lemma_fewer_tokens_than_properties(schema: Schema, tokens: Seq<Seq<char>>)
    requires
        tokens.len() < schema.len(),
    ensures
        ascii_record(schema, tokens, schema.len()) matches Err(e) && e.kind
            == ErrorKind::MalformedRecord,
{
    lemma_ascii_record_error(schema, tokens, schema.len());
    lemma_ascii_record_reads_one_each(schema, tokens, schema.len());
}

/// Each property takes at least one token.
pub proof fn lemma_ascii_record_reads_one_each(schema: Schema, tokens: Seq<Seq<char>>, k: nat)
    ensures
        ascii_record(schema, tokens, k) matches Ok(out) ==> k <= out.1 <= tokens.len(),
    decreases k,
{
    lemma_ascii_record_within(schema, tokens, k);
    if k > 0 {
        lemma_ascii_record_reads_one_each(schema, tokens, (k - 1) as nat);
        lemma_ascii_record_within(schema, tokens, (k - 1) as nat);
        if let Ok(before) = ascii_record(schema, tokens, (k - 1) as nat) {
            match schema[k - 1].1 {
                PropertyType::Scalar(_) => {},
                PropertyType::List(index, item) => {
                    if let Ok(length) = ascii_scalar_at(index, tokens, before.1) {
                        if let Some(n) = length.0.as_count() {
                            lemma_ascii_list_within(item, tokens, length.1, n);
                        }
                    }
                },
            }
        }
    }
}

/// A record line, cut into its tokens.
pub struct Tokens<'a> {
    line: &'a str,
    chars: Vec<char>,
    spans: Vec<(usize, usize)>,
}

impl<'a> View for Tokens<'a> {
    type V = Seq<Seq<char>>;

    /// The tokens, from left to right.
    closed spec fn view(&self) -> Seq<Seq<char>> {
        Seq::new(
            self.spans@.len(),
            |k: int| self.chars@.subrange(self.spans@[k].0 as int, self.spans@[k].1 as int),
        )
    }
}

impl<'a> Tokens<'a> {
    /// The spans lie in the line.
    pub closed spec fn wf(&self) -> bool {
        &&& self.chars@ == self.line@
        &&& spans_match(self.chars@, self.spans@, self@)
    }

    /// Cuts a record line into its tokens.
    pub fn new(line: &'a str) -> (r: Self)
        ensures
            r.wf(),
            r@ == record_tokens(line@),
    {
        let chars = to_chars(line);
        let n = len_without_line_break(&chars);
        let spans = split_words(&chars, n);
        let r = Tokens { line, chars, spans };
        assert(r@ =~= record_tokens(line@));
        r
    }

    /// The number of tokens.
    pub fn len(&self) -> (n: usize)
        ensures
            n == self@.len(),
    {
        self.spans.len()
    }

    /// The text of the token at index `at`.
    pub fn text(&self, at: usize) -> (r: String)
        requires
            self.wf(),
            at < self@.len(),
        ensures
            r@ == self@[at as int],
    {
        let span = self.spans[at];
        self.line.substring_char(span.0, span.1).to_owned()
    }

    /// The number of kind `kind` that the token at index `at` writes.
    pub fn scalar(&self, at: usize, kind: ScalarType) -> (r: Option<Scalar>)
        requires
            self.wf(),
            at < self@.len(),
        ensures
            match r {
                Some(value) => ascii_scalar(kind, self@[at as int]) == Some(value@),
                None => ascii_scalar(kind, self@[at as int]) is None,
            },
    {
        let span = self.spans[at];
        match kind {
            ScalarType::Float => {
                if check_number(&self.chars, span.0, span.1) {
                    Some(Scalar::Float(Real::Decimal(self.text(at))))
                } else {
                    None
                }
            },
            ScalarType::Double => {
                if check_number(&self.chars, span.0, span.1) {
                    Some(Scalar::Double(Real::Decimal(self.text(at))))
                } else {
                    None
                }
            },
            _ => {
                match parse_integer(&self.chars, span.0, span.1, lowest(kind), highest(kind)) {
                    Some(value) => Some(scalar_of(kind, value)),
                    None => None,
                }
            },
        }
    }
}

/// The smallest whole number of the kind.
fn lowest(kind: ScalarType) -> (r: i64)
    ensures
        r == kind.spec_min(),
        -0x8000_0000 <= r <= 0,
{
    match kind {
        ScalarType::Char => -128,
        ScalarType::Short => -32768,
        ScalarType::Int => -2147483648,
        _ => 0,
    }
}

/// The largest whole number of the kind.
fn highest(kind: ScalarType) -> (r: i64)
    ensures
        r == kind.spec_max(),
        0 <= r <= 0xffff_ffff,
{
    match kind {
        ScalarType::Char => 127,
        ScalarType::UChar => 255,
        ScalarType::Short => 32767,
        ScalarType::UShort => 65535,
        ScalarType::Int => 2147483647,
        ScalarType::UInt => 4294967295,
        _ => 0,
    }
}

/// The whole number `value` as a number of kind `kind`.
fn scalar_of(kind: ScalarType, value: i64) -> (r: Scalar)
    requires
        kind.spec_is_integer(),
        kind.spec_min() <= value <= kind.spec_max(),
    ensures
        r@ == ScalarView::of_int(kind, value as int),
{
    match kind {
        ScalarType::Char => Scalar::Char(value as i8),
        ScalarType::UChar => Scalar::UChar(value as u8),
        ScalarType::Short => Scalar::Short(value as i16),
        ScalarType::UShort => Scalar::UShort(value as u16),
        ScalarType::Int => Scalar::Int(value as i32),
        _ => Scalar::UInt(value as u32),
    }
}

/// The whole number that the characters from `from` to `to` write, where
/// they write one that is at least `low` and at most `high`.
fn parse_integer(chars: &Vec<char>, from: usize, to: usize, low: i64, high: i64) -> (r: Option<
    i64,
>)
    requires
        from <= to <= chars@.len(),
        -0x8000_0000 <= low <= 0 <= high <= 0xffff_ffff,
    ensures
        match r {
            Some(value) => integer_value(chars@.subrange(from as int, to as int)) == Some(
                value as int,
            ) && low <= value <= high,
            None => match integer_value(chars@.subrange(from as int, to as int)) {
                Some(value) => !(low <= value <= high),
                None => true,
            },
        },
{
    let ghost token = chars@.subrange(from as int, to as int);
    let signed = from < to && (chars[from] == '+' || chars[from] == '-');
    let negative = from < to && chars[from] == '-';
    let start = if signed {
        from + 1
    } else {
        from
    };
    assert(from < to ==> token[0] == chars@[from as int]);
    assert(chars@.subrange(start as int, to as int) =~= token.skip(sign_len(token) as int));
    if negative {
        match parse_number(chars, start, to, (-low) as u64) {
            Some(digits) => Some(-(digits as i64)),
            None => None,
        }
    } else {
        match parse_number(chars, start, to, high as u64) {
            Some(digits) => Some(digits as i64),
            None => None,
        }
    }
}

/// Reads `n` numbers of kind `kind` from index `at` of the tokens on.
fn read_ascii_list(tokens: &Tokens, at: usize, kind: ScalarType, n: u32) -> (r: Result<
    (Vec<Scalar>, usize),
    String,
>)
    requires
        tokens.wf(),
        at <= tokens@.len(),
    ensures
        match r {
            Ok(out) => ascii_list(kind, tokens@, at as nat, n as nat) == Ok::<
                (Seq<ScalarView>, nat),
                Seq<char>,
            >((scalars_view(out.0@), out.1 as nat)) && out.1 <= tokens@.len(),
            Err(token) => ascii_list(kind, tokens@, at as nat, n as nat) == Err::<
                (Seq<ScalarView>, nat),
                Seq<char>,
            >(token@),
        },
{
    let mut items: Vec<Scalar> = Vec::new();
    let mut next: usize = at;
    let mut i: u32 = 0;
    assert(scalars_view(items@) =~= Seq::empty());
    while i < n
        invariant
            i <= n,
            tokens.wf(),
            next <= tokens@.len(),
            ascii_list(kind, tokens@, at as nat, i as nat) == Ok::<
                (Seq<ScalarView>, nat),
                Seq<char>,
            >((scalars_view(items@), next as nat)),
        decreases n - i,
    {
        proof {
            if next >= tokens@.len() || ascii_scalar(kind, tokens@[next as int]) is None {
                lemma_ascii_list_fails(kind, tokens@, at as nat, (i + 1) as nat, n as nat);
            }
        }
        if next >= tokens.len() {
            return Err(String::new());
        }
        match tokens.scalar(next, kind) {
            Some(item) => {
                assert(scalars_view(items@.push(item)) =~= scalars_view(items@).push(item@));
                items.push(item);
                next = next + 1;
            },
            None => {
                return Err(tokens.text(next));
            },
        }
        i = i + 1;
    }
    Ok((items, next))
}

/// Reads the value of a property from index `at` of the tokens on.
fn read_ascii_property(tokens: &Tokens, at: usize, data_type: PropertyType) -> (r: Result<
    (Property, usize),
    String,
>)
    requires
        tokens.wf(),
        at <= tokens@.len(),
    ensures
        match r {
            Ok(out) => ascii_property(data_type, tokens@, at as nat) == Ok::<
                (PropertyView, nat),
                Seq<char>,
            >((out.0@, out.1 as nat)) && out.1 <= tokens@.len(),
            Err(token) => ascii_property(data_type, tokens@, at as nat) == Err::<
                (PropertyView, nat),
                Seq<char>,
            >(token@),
        },
{
    if at >= tokens.len() {
        return Err(String::new());
    }
    match data_type {
        PropertyType::Scalar(kind) => {
            match tokens.scalar(at, kind) {
                Some(value) => Ok((Property::Scalar(value), at + 1)),
                None => Err(tokens.text(at)),
            }
        },
        PropertyType::List(index, item) => {
            match tokens.scalar(at, index) {
                None => Err(tokens.text(at)),
                Some(length) => {
                    match length.as_count() {
                        None => Err(tokens.text(at)),
                        Some(n) => {
                            match read_ascii_list(tokens, at + 1, item, n) {
                                Ok(out) => Ok((Property::List(out.0), out.1)),
                                Err(token) => Err(token),
                            }
                        },
                    }
                },
            }
        },
    }
}

/// Reads one record of the element from a line and hands its values to a
/// fresh `E`, in the order of the declaration.
pub fn read_ascii_element<E: PropertyAccess>(line: &str, element_def: &ElementDef) -> (r: Result<
    E,
    ParseError,
>)
    ensures
        match r {
            Ok(record) => spec_ascii_element(element_def.schema(), line@) matches Ok(values)
                && record.model() == record_model::<E>(values),
            Err(e) => spec_ascii_element(element_def.schema(), line@) == Err::<
                RecordView,
                ParseErrorView,
            >(e@),
        },
{
    let tokens = Tokens::new(line);
    let ghost schema = element_def.schema();
    let ghost mut values: RecordView = Seq::empty();
    let mut record = E::new();
    let n = element_def.properties.len();
    let mut at: usize = 0;
    let mut i: usize = 0;
    while i < n
        invariant
            i <= n,
            n == schema.len(),
            schema == element_def.schema(),
            tokens.wf(),
            tokens@ == record_tokens(line@),
            at <= tokens@.len(),
            ascii_record(schema, tokens@, i as nat) == Ok::<(RecordView, nat), ParseErrorView>(
                (values, at as nat),
            ),
            record.model() == record_model::<E>(values),
        decreases n - i,
    {
        let name = element_def.properties.key_at(i);
        let data_type = element_def.properties.value_at(i).data_type;
        assert(schema[i as int] == (name@, data_type));
        match read_ascii_property(&tokens, at, data_type) {
            Ok(out) => {
                proof {
                    let grown = values.push((name@, out.0@));
                    assert(grown.drop_last() =~= values);
                    values = grown;
                }
                record.set_property(name.clone(), out.0);
                at = out.1;
            },
            Err(token) => {
                proof {
                    lemma_ascii_record_fails(schema, tokens@, (i + 1) as nat, n as nat);
                }
                return Err(
                    ParseError::new(ErrorKind::MalformedRecord).with_property(
                        name.clone(),
                    ).with_token(token),
                );
            },
        }
        i = i + 1;
    }
    Ok(record)
}

/// Takes the records of the element off the front of `reader`, one line
/// each and as many as the element declares, and counts the lines in
/// `location`.
pub fn read_ascii_payload_for_element<E: PropertyAccess>(
    reader: &mut &[u8],
    location: &mut LocationTracker,
    element_def: &ElementDef,
) -> (r: Result<Vec<E>, ParseError>)
    ensures
        match r {
            Ok(records) => ascii_records(
                element_def.name@,
                element_def.schema(),
                old(reader)@,
                old(location).line_index,
                element_def.count as nat,
            ) matches Ok(out) && out.1 == final(reader)@ && out.2 == final(location).line_index
                && models_match(records@, out.0) && records@.len() == element_def.count,
            Err(e) => ascii_records(
                element_def.name@,
                element_def.schema(),
                old(reader)@,
                old(location).line_index,
                element_def.count as nat,
            ) == Err::<(Seq<RecordView>, Seq<u8>, usize), ParseErrorView>(e@),
        },
{
    let ghost schema = element_def.schema();
    let ghost mut values: Seq<RecordView> = Seq::empty();
    let mut records: Vec<E> = Vec::new();
    let n = element_def.count;
    let mut i: usize = 0;
    while i < n
        invariant
            i <= n,
            n == element_def.count,
            schema == element_def.schema(),
            ascii_records(
                element_def.name@,
                schema,
                old(reader)@,
                old(location).line_index,
                i as nat,
            ) == Ok::<(Seq<RecordView>, Seq<u8>, usize), ParseErrorView>(
                (values, reader@, location.line_index),
            ),
            models_match(records@, values),
            records@.len() == i,
        decreases n - i,
    {
        proof {
            let next = ascii_records(
                element_def.name@,
                schema,
                old(reader)@,
                old(location).line_index,
                (i + 1) as nat,
            );
            if next is Err {
                lemma_ascii_records_fails(
                    element_def.name@,
                    schema,
                    old(reader)@,
                    old(location).line_index,
                    (i + 1) as nat,
                    n as nat,
                );
            }
        }
        if reader.len() == 0 {
            return Err(
                ParseError::new(ErrorKind::UnexpectedEof).with_element(
                    element_def.name.clone(),
                ).at(location.line_index, String::new()),
            );
        }
        let raw = take_line(reader);
        match line_text(raw) {
            None => {
                return Err(
                    ParseError::new(ErrorKind::MalformedRecord).with_detail(
                        Detail::Syntax(SyntaxError::Utf8),
                    ).with_element(element_def.name.clone()).at(
                        location.line_index,
                        String::new(),
                    ),
                );
            },
            Some(text) => {
                match read_ascii_element::<E>(text, element_def) {
                    Ok(record) => {
                        proof {
                            values = values.push(spec_ascii_element(schema, text@)->Ok_0);
                        }
                        records.push(record);
                    },
                    Err(e) => {
                        return Err(
                            e.with_element(element_def.name.clone()).at(
                                location.line_index,
                                text.to_owned(),
                            ),
                        );
                    },
                }
            },
        }
        location.next_line();
        i = i + 1;
    }
    Ok(records)
}

} // verus!
