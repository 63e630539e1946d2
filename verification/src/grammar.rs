//! The grammar of the text lines of a file: the lines of a header, and the
//! numbers of an ASCII record.

use crate::parser::{Line, LineView};
use crate::ply::{
    ElementDef, ElementDefView, Encoding, PropertyDef, PropertyDefView, PropertyType, ScalarType,
    Version,
};
use vstd::prelude::*;

verus! {

/// The production that a text failed to match.
#[derive(Debug, Clone, Copy, PartialEq, Eq, Structural)]
pub enum SyntaxError {
    /// The line starts with none of the words that can start a header line.
    Keyword,
    MagicNumber,
    Format,
    Comment,
    ObjInfo,
    Element,
    Property,
    EndHeader,
    /// A token of a record is no number.
    Number,
    /// The bytes of the line are no UTF-8 text.
    Utf8,
}

/// Blank or tab: what separates the words of a line.
pub open spec fn is_space(c: char) -> bool {
    c == ' ' || c == '\t'
}

/// Line feed or carriage return.
pub open spec fn is_line_break(c: char) -> bool {
    c == '\n' || c == '\r'
}

/// A decimal digit.
pub open spec fn is_digit(c: char) -> bool {
    '0' <= c <= '9'
}

/// A letter of the ASCII alphabet, small or capital.
pub open spec fn is_letter(c: char) -> bool {
    ('a' <= c <= 'z') || ('A' <= c <= 'Z')
}

/// `s` without the line break that ends it, if one does: a line feed, a
/// carriage return, or a carriage return followed by a line feed.
pub open spec fn without_line_break(s: Seq<char>) -> Seq<char> {
    let n = s.len() as int;
    if n >= 2 && s[n - 2] == '\r' && s[n - 1] == '\n' {
        s.take(n - 2)
    } else if n >= 1 && is_line_break(s[n - 1]) {
        s.take(n - 1)
    } else {
        s
    }
}

/// `s` without the blanks and tabs at its end.
pub open spec fn trim_end(s: Seq<char>) -> Seq<char>
    decreases s.len(),
{
    if s.len() > 0 && is_space(s.last()) {
        trim_end(s.drop_last())
    } else {
        s
    }
}

/// `s` without the blanks and tabs at its start.
pub open spec fn trim_start(s: Seq<char>) -> Seq<char>
    decreases s.len(),
{
    if s.len() > 0 && is_space(s[0]) {
        trim_start(s.drop_first())
    } else {
        s
    }
}

/// The words of `s`: its longest stretches of characters that are neither
/// blank nor tab, from left to right. A character that is no space goes on
/// with the last word where the character before it is no space either, and
/// starts a new word otherwise.
pub open spec fn words(s: Seq<char>) -> Seq<Seq<char>>
    decreases s.len(),
{
    if s.len() == 0 {
        Seq::empty()
    } else {
        let before = words(s.drop_last());
        let c = s.last();
        if is_space(c) {
            before
        } else if s.len() >= 2 && !is_space(s[s.len() - 2]) {
            before.drop_last().push(before.last().push(c))
        } else {
            before.push(seq![c])
        }
    }
}

/// Neither the first nor the last character of `s` is a blank or a tab, and
/// there is at least one character.
pub open spec fn is_trimmed(s: Seq<char>) -> bool {
    s.len() > 0 && !is_space(s[0]) && !is_space(s.last())
}

/// Whether a line feed or a carriage return is among the characters of `s`.
pub open spec fn has_line_break(s: Seq<char>) -> bool {
    exists|i: int| 0 <= i < s.len() && is_line_break(#[trigger] s[i])
}

/// One or more decimal digits.
pub open spec fn is_digits(s: Seq<char>) -> bool {
    s.len() > 0 && forall|i: int| 0 <= i < s.len() ==> is_digit(#[trigger] s[i])
}

/// The number that the decimal digits of `s` write.
pub open spec fn digits_value(s: Seq<char>) -> nat
    decreases s.len(),
{
    if s.len() == 0 {
        0
    } else {
        (10 * digits_value(s.drop_last()) + (s.last() as u32 - '0' as u32)) as nat
    }
}

/// The number that `s` writes in decimal digits, where it consists of such
/// digits and the number is at most `limit`.
pub open spec fn spec_number(s: Seq<char>, limit: nat) -> Option<nat> {
    if is_digits(s) && digits_value(s) <= limit {
        Some(digits_value(s))
    } else {
        None
    }
}

/// A name: a letter or an underscore, followed by letters, digits,
/// underscores and hyphens.
pub open spec fn is_ident(s: Seq<char>) -> bool {
    &&& s.len() > 0
    &&& is_letter(s[0]) || s[0] == '_'
    &&& forall|i: int|
        0 < i < s.len() ==> is_letter(#[trigger] s[i]) || is_digit(s[i]) || s[i] == '_' || s[i]
            == '-'
}

/// The kind of number that the word `w` names. Each kind has two names.
pub open spec fn spec_scalar_type(w: Seq<char>) -> Option<ScalarType> {
    if w == "char"@ || w == "int8"@ {
        Some(ScalarType::Char)
    } else if w == "uchar"@ || w == "uint8"@ {
        Some(ScalarType::UChar)
    } else if w == "short"@ || w == "int16"@ {
        Some(ScalarType::Short)
    } else if w == "ushort"@ || w == "uint16"@ {
        Some(ScalarType::UShort)
    } else if w == "int"@ || w == "int32"@ {
        Some(ScalarType::Int)
    } else if w == "uint"@ || w == "uint32"@ {
        Some(ScalarType::UInt)
    } else if w == "float"@ || w == "float32"@ {
        Some(ScalarType::Float)
    } else if w == "double"@ || w == "float64"@ {
        Some(ScalarType::Double)
    } else {
        None
    }
}

/// The encoding that the word `w` names.
pub open spec fn spec_encoding(w: Seq<char>) -> Option<Encoding> {
    if w == "ascii"@ {
        Some(Encoding::Ascii)
    } else if w == "binary_big_endian"@ {
        Some(Encoding::BinaryBigEndian)
    } else if w == "binary_little_endian"@ {
        Some(Encoding::BinaryLittleEndian)
    } else {
        None
    }
}

/// The number of characters at the start of `s` that are decimal digits.
pub open spec fn digits_len(s: Seq<char>) -> nat
    decreases s.len(),
{
    if s.len() > 0 && is_digit(s[0]) {
        1 + digits_len(s.drop_first())
    } else {
        0
    }
}

/// The version that the word `w` writes: two numbers with a point between
/// them, the first at most 65535 and the second at most 255.
pub open spec fn spec_version(w: Seq<char>) -> Option<Version> {
    let n = digits_len(w) as int;
    if n < w.len() && w[n] == '.' {
        match (spec_number(w.take(n), 65535), spec_number(w.skip(n + 1), 255)) {
            (Some(major), Some(minor)) => Some(Version { major: major as u16, minor: minor as u8 }),
            _ => None,
        }
    } else {
        None
    }
}

/// Whether `t` is the magic number: the word `ply` and nothing else.
pub open spec fn spec_magic_number(t: Seq<char>) -> bool {
    t == "ply"@
}

/// Whether `t` is the line that ends a header.
pub open spec fn spec_end_header(t: Seq<char>) -> bool {
    t == "end_header"@
}

/// What the format line `t` says: the word `format`, an encoding and a
/// version.
pub open spec fn spec_format(t: Seq<char>) -> Option<(Encoding, Version)> {
    let w = words(t);
    if is_trimmed(t) && w.len() == 3 && w[0] == "format"@ {
        match (spec_encoding(w[1]), spec_version(w[2])) {
            (Some(encoding), Some(version)) => Some((encoding, version)),
            _ => None,
        }
    } else {
        None
    }
}

/// The text that follows the word `keyword` at the start of `t`, without the
/// blanks and tabs between the two. There is none where `t` does not start
/// with that word, where what follows the word starts with no blank or tab,
/// or where `t` holds a line break.
pub open spec fn text_after(keyword: Seq<char>, t: Seq<char>) -> Option<Seq<char>> {
    let n = keyword.len() as int;
    if t.len() >= n && t.take(n) == keyword && (t.len() == n || is_space(t[n]))
        && !has_line_break(t) {
        Some(trim_start(t.skip(n)))
    } else {
        None
    }
}

/// The text of the comment line `t`. It may be empty.
pub open spec fn spec_comment(t: Seq<char>) -> Option<Seq<char>> {
    text_after("comment"@, t)
}

/// The text of the line `t` about the object. It is not empty.
pub open spec fn spec_obj_info(t: Seq<char>) -> Option<Seq<char>> {
    match text_after("obj_info"@, t) {
        Some(text) => if text.len() > 0 {
            Some(text)
        } else {
            None
        },
        None => None,
    }
}

/// The element that the line `t` declares: the word `element`, a name and
/// the number of records.
pub open spec fn spec_element(t: Seq<char>) -> Option<ElementDefView> {
    let w = words(t);
    if is_trimmed(t) && w.len() == 3 && w[0] == "element"@ && is_ident(w[1]) {
        match spec_number(w[2], usize::MAX as nat) {
            Some(count) => Some(
                ElementDefView { name: w[1], count: count, properties: Seq::empty() },
            ),
            None => None,
        }
    } else {
        None
    }
}

/// The property that the line `t` declares: the word `property`, then a kind
/// of number, or the word `list` and two kinds, and at last a name.
pub open spec fn spec_property(t: Seq<char>) -> Option<PropertyDefView> {
    let w = words(t);
    if is_trimmed(t) && w.len() == 3 && w[0] == "property"@ && is_ident(w[2]) {
        match spec_scalar_type(w[1]) {
            Some(kind) => Some(
                PropertyDefView { name: w[2], data_type: PropertyType::Scalar(kind) },
            ),
            None => None,
        }
    } else if is_trimmed(t) && w.len() == 5 && w[0] == "property"@ && w[1] == "list"@ && is_ident(
        w[4],
    ) {
        match (spec_scalar_type(w[2]), spec_scalar_type(w[3])) {
            (Some(index), Some(item)) => Some(
                PropertyDefView { name: w[4], data_type: PropertyType::List(index, item) },
            ),
            _ => None,
        }
    } else {
        None
    }
}

/// The number of characters at the start of `s` that are neither blank nor
/// tab.
pub open spec fn word_len(s: Seq<char>) -> nat
    decreases s.len(),
{
    if s.len() > 0 && !is_space(s[0]) {
        1 + word_len(s.drop_first())
    } else {
        0
    }
}

/// The characters of `t` before its first blank or tab.
pub open spec fn first_word(t: Seq<char>) -> Seq<char> {
    t.take(word_len(t) as int)
}

/// What the header line `s` says. The line may end in blanks and tabs and in
/// a line break; its first word decides which kind of line it has to be.
pub open spec fn spec_line(s: Seq<char>) -> Result<LineView, SyntaxError> {
    let t = trim_end(without_line_break(s));
    let k = first_word(t);
    if k == "ply"@ {
        if spec_magic_number(t) {
            Ok(LineView::MagicNumber)
        } else {
            Err(SyntaxError::MagicNumber)
        }
    } else if k == "end_header"@ {
        if spec_end_header(t) {
            Ok(LineView::EndHeader)
        } else {
            Err(SyntaxError::EndHeader)
        }
    } else if k == "format"@ {
        match spec_format(t) {
            Some(f) => Ok(LineView::Format(f)),
            None => Err(SyntaxError::Format),
        }
    } else if k == "obj_info"@ {
        match spec_obj_info(t) {
            Some(o) => Ok(LineView::ObjInfo(o)),
            None => Err(SyntaxError::ObjInfo),
        }
    } else if k == "comment"@ {
        match spec_comment(t) {
            Some(c) => Ok(LineView::Comment(c)),
            None => Err(SyntaxError::Comment),
        }
    } else if k == "element"@ {
        match spec_element(t) {
            Some(e) => Ok(LineView::Element(e)),
            None => Err(SyntaxError::Element),
        }
    } else if k == "property"@ {
        match spec_property(t) {
            Some(p) => Ok(LineView::Property(p)),
            None => Err(SyntaxError::Property),
        }
    } else {
        Err(SyntaxError::Keyword)
    }
}

/// The number of characters at the start of `s` that are a sign.
pub open spec fn sign_len(s: Seq<char>) -> nat {
    if s.len() > 0 && (s[0] == '+' || s[0] == '-') {
        1
    } else {
        0
    }
}

/// The length of the mantissa at the start of `a`: decimal digits, of which
/// a point may stand before, behind or among them. There is none without a
/// digit.
pub open spec fn mantissa_len(a: Seq<char>) -> Option<nat> {
    let whole = digits_len(a);
    if whole < a.len() && a[whole as int] == '.' {
        let fraction = digits_len(a.skip(whole as int + 1));
        if whole + fraction > 0 {
            Some(whole + 1 + fraction)
        } else {
            None
        }
    } else if whole > 0 {
        Some(whole)
    } else {
        None
    }
}

/// Whether `d` is nothing, or an exponent: the letter `e`, in either case,
/// and decimal digits, before which a sign may stand.
pub open spec fn is_exponent(d: Seq<char>) -> bool {
    d.len() == 0 || ((d[0] == 'e' || d[0] == 'E') && is_digits(
        d.skip(1 + sign_len(d.skip(1)) as int),
    ))
}

/// Whether the word `w` writes a number in decimal or scientific form: an
/// optional sign, a mantissa and an optional exponent.
pub open spec fn is_number(w: Seq<char>) -> bool {
    let a = w.skip(sign_len(w) as int);
    match mantissa_len(a) {
        Some(m) => is_exponent(a.skip(m as int)),
        None => false,
    }
}

/// The tokens of the record line `s`: its words, the line break at its end
/// left aside.
pub open spec fn record_tokens(s: Seq<char>) -> Seq<Seq<char>> {
    words(without_line_break(s))
}

/// The numbers of the record line `s`: its tokens, where each of them writes
/// a number.
pub open spec fn spec_data_line(s: Seq<char>) -> Option<Seq<Seq<char>>> {
    let tokens = record_tokens(s);
    if forall|i: int| 0 <= i < tokens.len() ==> is_number(#[trigger] tokens[i]) {
        Some(tokens)
    } else {
        None
    }
}

/// Nothing, a line feed, a carriage return, or a carriage return with a line
/// feed behind it: what may end a line.
pub open spec fn is_line_ending(ending: Seq<char>) -> bool {
    ending == Seq::<char>::empty() || ending == seq!['\n'] || ending == seq!['\r'] || ending
        == seq!['\r', '\n']
}

/// Whether `s` holds nothing but blanks and tabs.
pub open spec fn all_spaces(s: Seq<char>) -> bool {
    forall|i: int| 0 <= i < s.len() ==> is_space(#[trigger] s[i])
}

/// Blanks and tabs at the end of a text do not count.
pub proof fn lemma_trim_end_spaces(t: Seq<char>, spaces: Seq<char>)
    requires
        all_spaces(spaces),
    ensures
        trim_end(t + spaces) == trim_end(t),
    decreases spaces.len(),
{
    if spaces.len() > 0 {
        let s = t + spaces;
        assert(s.last() == spaces.last());
        assert(s.drop_last() =~= t + spaces.drop_last());
        lemma_trim_end_spaces(t, spaces.drop_last());
    } else {
        assert(t + spaces =~= t);
    }
}

/// A text without blanks and tabs is one word.
pub proof fn lemma_word_len_whole(s: Seq<char>)
    requires
        forall|i: int| 0 <= i < s.len() ==> !is_space(#[trigger] s[i]),
    ensures
        word_len(s) == s.len(),
    decreases s.len(),
{
    if s.len() > 0 {
        let rest = s.drop_first();
        assert forall|i: int| 0 <= i < rest.len() implies !is_space(#[trigger] rest[i]) by {
            assert(rest[i] == s[i + 1]);
        }
        lemma_word_len_whole(rest);
    }
}

/// A line ending behind a text that ends in no line break goes, and nothing
/// else.
pub proof fn lemma_without_line_break(t: Seq<char>, ending: Seq<char>)
    requires
        is_line_ending(ending),
        t.len() == 0 || !is_line_break(t.last()),
    ensures
        without_line_break(t + ending) == t,
{
    let s = t + ending;
    if ending.len() == 0 {
        assert(s =~= t);
    } else if ending.len() == 1 {
        assert(s.last() == ending[0]);
        if s.len() >= 2 {
            assert(s[s.len() - 2] == t.last());
        }
        assert(s.take(s.len() - 1) =~= t);
    } else {
        assert(s[s.len() - 2] == ending[0]);
        assert(s[s.len() - 1] == ending[1]);
        assert(s.take(s.len() - 2) =~= t);
    }
}

/// A line says that it is the magic number exactly if it is the word `ply`
/// once the line break and the blanks and tabs at its end are taken off.
pub proof fn lemma_magic_number_line(s: Seq<char>)
    ensures
        spec_line(s) == Ok::<LineView, SyntaxError>(LineView::MagicNumber) <==> trim_end(
            without_line_break(s),
        ) == "ply"@,
{
    reveal_strlit("ply");
    let t = trim_end(without_line_break(s));
    if t == "ply"@ {
        lemma_word_len_whole(t);
        assert(t.take(t.len() as int) =~= t);
    }
}

/// The word `ply` is the magic number whatever blanks and tabs follow it and
/// whichever line ending stands behind them.
pub proof fn lemma_magic_number_with_any_ending(spaces: Seq<char>, ending: Seq<char>)
    requires
        all_spaces(spaces),
        is_line_ending(ending),
    ensures
        spec_line("ply"@ + spaces + ending) == Ok::<LineView, SyntaxError>(LineView::MagicNumber),
{
    reveal_strlit("ply");
    let t = "ply"@ + spaces;
    assert(!is_line_break(t.last())) by {
        if spaces.len() > 0 {
            assert(t.last() == spaces.last());
        } else {
            assert(t.last() == "ply"@[2]);
        }
    }
    lemma_without_line_break(t, ending);
    lemma_trim_end_spaces("ply"@, spaces);
    lemma_magic_number_line("ply"@ + spaces + ending);
}

/// Each span lies in `s`, and the characters of `s` in the spans are the
/// words `w`, one after the other.
pub open spec fn spans_match(s: Seq<char>, spans: Seq<(usize, usize)>, w: Seq<Seq<char>>) -> bool {
    &&& spans.len() == w.len()
    &&& forall|k: int|
        0 <= k < spans.len() ==> {
            &&& (#[trigger] spans[k]).0 <= spans[k].1 <= s.len()
            &&& s.subrange(spans[k].0 as int, spans[k].1 as int) == w[k]
        }
}

/// The characters of `s`.
pub fn to_chars(s: &str) -> (r: Vec<char>)
    ensures
        r@ == s@,
{
    let mut v: Vec<char> = Vec::new();
    let it = s.chars();
    for c in iter: it
        invariant
            v@ == iter.seq().take(iter.index()),
    {
        v.push(c);
    }
    v
}

fn blank(c: char) -> (r: bool)
    ensures
        r == is_space(c),
{
    c == ' ' || c == '\t'
}

fn digit(c: char) -> (r: bool)
    ensures
        r == is_digit(c),
{
    '0' <= c && c <= '9'
}

fn letter(c: char) -> (r: bool)
    ensures
        r == is_letter(c),
{
    ('a' <= c && c <= 'z') || ('A' <= c && c <= 'Z')
}

/// The length of `chars` without the line break at its end.
pub fn len_without_line_break(chars: &Vec<char>) -> (n: usize)
    ensures
        n <= chars@.len(),
        chars@.take(n as int) == without_line_break(chars@),
{
    let n = chars.len();
    if n >= 2 && chars[n - 2] == '\r' && chars[n - 1] == '\n' {
        n - 2
    } else if n >= 1 && (chars[n - 1] == '\n' || chars[n - 1] == '\r') {
        n - 1
    } else {
        assert(chars@.take(n as int) =~= chars@);
        n
    }
}

/// The length of the first `n` characters without the blanks and tabs at
/// their end.
fn len_trim_end(chars: &Vec<char>, n: usize) -> (m: usize)
    requires
        n <= chars@.len(),
    ensures
        m <= n,
        chars@.take(m as int) == trim_end(chars@.take(n as int)),
{
    let mut m = n;
    while m > 0 && blank(chars[m - 1])
        invariant
            m <= n <= chars@.len(),
            trim_end(chars@.take(m as int)) == trim_end(chars@.take(n as int)),
        decreases m,
    {
        assert(chars@.take(m as int).drop_last() =~= chars@.take(m - 1));
        m = m - 1;
    }
    m
}

/// The index of the first character from `from` on that is neither blank
/// nor tab.
fn skip_spaces(chars: &Vec<char>, from: usize) -> (at: usize)
    requires
        from <= chars@.len(),
    ensures
        from <= at <= chars@.len(),
        chars@.skip(at as int) == trim_start(chars@.skip(from as int)),
{
    let mut at = from;
    while at < chars.len() && blank(chars[at])
        invariant
            from <= at <= chars@.len(),
            trim_start(chars@.skip(at as int)) == trim_start(chars@.skip(from as int)),
        decreases chars@.len() - at,
    {
        assert(chars@.skip(at as int).drop_first() =~= chars@.skip(at + 1));
        at = at + 1;
    }
    at
}

/// The index behind the first word of the first `n` characters.
fn first_word_end(chars: &Vec<char>, n: usize) -> (at: usize)
    requires
        n <= chars@.len(),
    ensures
        at <= n,
        at == word_len(chars@.take(n as int)),
{
    let ghost t = chars@.take(n as int);
    let mut at: usize = 0;
    assert(t.skip(0) =~= t);
    while at < n && !blank(chars[at])
        invariant
            at <= n <= chars@.len(),
            t == chars@.take(n as int),
            word_len(t) == at + word_len(t.skip(at as int)),
        decreases n - at,
    {
        assert(t.skip(at as int).drop_first() =~= t.skip(at + 1));
        at = at + 1;
    }
    at
}

/// The number of decimal digits from `from` on, before `to`.
fn count_digits(chars: &Vec<char>, from: usize, to: usize) -> (n: usize)
    requires
        from <= to <= chars@.len(),
    ensures
        from + n <= to,
        n == digits_len(chars@.subrange(from as int, to as int)),
{
    let ghost w = chars@.subrange(from as int, to as int);
    let mut n: usize = 0;
    assert(w.skip(0) =~= w);
    while from + n < to && digit(chars[from + n])
        invariant
            from + n <= to <= chars@.len(),
            w == chars@.subrange(from as int, to as int),
            digits_len(w) == n + digits_len(w.skip(n as int)),
        decreases to - from - n,
    {
        assert(w.skip(n as int).drop_first() =~= w.skip(n + 1));
        n = n + 1;
    }
    n
}

/// The spans of the words among the first `n` characters.
pub fn split_words(chars: &Vec<char>, n: usize) -> (spans: Vec<(usize, usize)>)
    requires
        n <= chars@.len(),
    ensures
        spans_match(chars@, spans@, words(chars@.take(n as int))),
        forall|k: int| 0 <= k < spans@.len() ==> (#[trigger] spans@[k]).1 <= n,
{
    let mut spans: Vec<(usize, usize)> = Vec::new();
    let mut start: usize = 0;
    let mut inside = false;
    let mut i: usize = 0;
    while i < n
        invariant
            i <= n <= chars@.len(),
            start <= i,
            forall|k: int| 0 <= k < spans@.len() ==> (#[trigger] spans@[k]).1 <= i,
            inside ==> i > 0 && !is_space(chars@[i - 1]) && words(chars@.take(i as int)).len()
                == spans@.len() + 1 && spans_match(
                chars@,
                spans@,
                words(chars@.take(i as int)).drop_last(),
            ) && chars@.subrange(start as int, i as int) == words(chars@.take(i as int)).last(),
            !inside ==> (i == 0 || is_space(chars@[i - 1])) && spans_match(
                chars@,
                spans@,
                words(chars@.take(i as int)),
            ),
        decreases n - i,
    {
        let c = chars[i];
        let ghost before = words(chars@.take(i as int));
        let ghost now = words(chars@.take(i + 1));
        assert(chars@.take(i + 1).drop_last() =~= chars@.take(i as int));
        assert(chars@.take(i + 1).last() == c);
        if blank(c) {
            assert(now == before);
            if inside {
                spans.push((start, i));
                assert(before.drop_last().push(before.last()) =~= before);
            }
            inside = false;
        } else {
            if inside {
                assert(chars@.take(i + 1)[i - 1] == chars@[i - 1]);
                assert(now == before.drop_last().push(before.last().push(c)));
                assert(now.drop_last() =~= before.drop_last());
                assert(chars@.subrange(start as int, i + 1) =~= chars@.subrange(
                    start as int,
                    i as int,
                ).push(c));
            } else {
                if i > 0 {
                    assert(chars@.take(i + 1)[i - 1] == chars@[i - 1]);
                }
                assert(now == before.push(seq![c]));
                assert(now.drop_last() =~= before);
                start = i;
                assert(chars@.subrange(i as int, i + 1) =~= seq![c]);
            }
            inside = true;
        }
        i = i + 1;
    }
    if inside {
        spans.push((start, n));
        let ghost w = words(chars@.take(n as int));
        assert(w.drop_last().push(w.last()) =~= w);
    }
    spans
}

/// Whether the characters from `from` to `to` are those of `word`.
fn span_is(chars: &Vec<char>, from: usize, to: usize, word: &str) -> (r: bool)
    requires
        from <= to <= chars@.len(),
    ensures
        r == (chars@.subrange(from as int, to as int) == word@),
{
    let other = to_chars(word);
    if other.len() != to - from {
        return false;
    }
    let mut i: usize = 0;
    while i < other.len()
        invariant
            i <= other@.len(),
            other@.len() == to - from,
            from <= to <= chars@.len(),
            other@ == word@,
            forall|j: int| 0 <= j < i ==> chars@[from + j] == other@[j],
        decreases other@.len() - i,
    {
        if chars[from + i] != other[i] {
            assert(chars@.subrange(from as int, to as int)[i as int] != word@[i as int]);
            return false;
        }
        i = i + 1;
    }
    assert(chars@.subrange(from as int, to as int) =~= word@);
    true
}

/// The number that the characters from `from` to `to` write in decimal
/// digits, where they do and it is at most `limit`.
pub fn parse_number(chars: &Vec<char>, from: usize, to: usize, limit: u64) -> (r: Option<u64>)
    requires
        from <= to <= chars@.len(),
    ensures
        match r {
            Some(v) => spec_number(chars@.subrange(from as int, to as int), limit as nat) == Some(
                v as nat,
            ),
            None => spec_number(chars@.subrange(from as int, to as int), limit as nat) is None,
        },
{
    let ghost w = chars@.subrange(from as int, to as int);
    if from == to {
        return None;
    }
    let mut value: u64 = 0;
    let mut over = false;
    let mut i: usize = from;
    while i < to
        invariant
            from <= i <= to <= chars@.len(),
            w == chars@.subrange(from as int, to as int),
            forall|j: int| 0 <= j < i - from ==> is_digit(#[trigger] w[j]),
            !over ==> value == digits_value(w.take(i - from)) && value <= limit,
            over ==> digits_value(w.take(i - from)) > limit,
        decreases to - i,
    {
        let c = chars[i];
        if !digit(c) {
            assert(!is_digit(w[i - from]));
            return None;
        }
        let d: u32 = c as u32 - '0' as u32;
        assert(w.take(i - from + 1).drop_last() =~= w.take(i - from));
        assert(w.take(i - from + 1).last() == c);
        if !over {
            let next: u128 = value as u128 * 10 + d as u128;
            if next > limit as u128 {
                over = true;
            } else {
                value = next as u64;
            }
        }
        i = i + 1;
    }
    assert(w.take(to - from) =~= w);
    if over {
        None
    } else {
        Some(value)
    }
}

/// Whether the characters from `from` to `to` are a name.
fn check_ident(chars: &Vec<char>, from: usize, to: usize) -> (r: bool)
    requires
        from <= to <= chars@.len(),
    ensures
        r == is_ident(chars@.subrange(from as int, to as int)),
{
    let ghost w = chars@.subrange(from as int, to as int);
    if from == to {
        return false;
    }
    let first = chars[from];
    assert(w[0] == first);
    if !(letter(first) || first == '_') {
        return false;
    }
    let mut i: usize = from + 1;
    while i < to
        invariant
            from < i <= to <= chars@.len(),
            w == chars@.subrange(from as int, to as int),
            forall|j: int|
                0 < j < i - from ==> is_letter(#[trigger] w[j]) || is_digit(w[j]) || w[j] == '_'
                    || w[j] == '-',
        decreases to - i,
    {
        let c = chars[i];
        assert(w[i - from] == c);
        if !(letter(c) || digit(c) || c == '_' || c == '-') {
            return false;
        }
        i = i + 1;
    }
    true
}

/// The kind of number that the characters from `from` to `to` name.
fn parse_scalar_type(chars: &Vec<char>, from: usize, to: usize) -> (r: Option<ScalarType>)
    requires
        from <= to <= chars@.len(),
    ensures
        r == spec_scalar_type(chars@.subrange(from as int, to as int)),
{
    if span_is(chars, from, to, "char") || span_is(chars, from, to, "int8") {
        Some(ScalarType::Char)
    } else if span_is(chars, from, to, "uchar") || span_is(chars, from, to, "uint8") {
        Some(ScalarType::UChar)
    } else if span_is(chars, from, to, "short") || span_is(chars, from, to, "int16") {
        Some(ScalarType::Short)
    } else if span_is(chars, from, to, "ushort") || span_is(chars, from, to, "uint16") {
        Some(ScalarType::UShort)
    } else if span_is(chars, from, to, "int") || span_is(chars, from, to, "int32") {
        Some(ScalarType::Int)
    } else if span_is(chars, from, to, "uint") || span_is(chars, from, to, "uint32") {
        Some(ScalarType::UInt)
    } else if span_is(chars, from, to, "float") || span_is(chars, from, to, "float32") {
        Some(ScalarType::Float)
    } else if span_is(chars, from, to, "double") || span_is(chars, from, to, "float64") {
        Some(ScalarType::Double)
    } else {
        None
    }
}

/// The encoding that the characters from `from` to `to` name.
fn parse_encoding(chars: &Vec<char>, from: usize, to: usize) -> (r: Option<Encoding>)
    requires
        from <= to <= chars@.len(),
    ensures
        r == spec_encoding(chars@.subrange(from as int, to as int)),
{
    if span_is(chars, from, to, "ascii") {
        Some(Encoding::Ascii)
    } else if span_is(chars, from, to, "binary_big_endian") {
        Some(Encoding::BinaryBigEndian)
    } else if span_is(chars, from, to, "binary_little_endian") {
        Some(Encoding::BinaryLittleEndian)
    } else {
        None
    }
}

/// The version that the characters from `from` to `to` write.
fn parse_version(chars: &Vec<char>, from: usize, to: usize) -> (r: Option<Version>)
    requires
        from <= to <= chars@.len(),
    ensures
        r == spec_version(chars@.subrange(from as int, to as int)),
{
    let ghost w = chars@.subrange(from as int, to as int);
    let n = count_digits(chars, from, to);
    if from + n < to && chars[from + n] == '.' {
        assert(w[n as int] == '.');
        assert(chars@.subrange(from as int, from + n) =~= w.take(n as int));
        assert(chars@.subrange(from + n + 1, to as int) =~= w.skip(n + 1));
        let major = parse_number(chars, from, from + n, 65535);
        let minor = parse_number(chars, from + n + 1, to, 255);
        match (major, minor) {
            (Some(a), Some(b)) => Some(Version { major: a as u16, minor: b as u8 }),
            _ => None,
        }
    } else {
        if from + n < to {
            assert(w[n as int] == chars@[from + n]);
        }
        None
    }
}

/// Whether the characters are some, and neither the first nor the last of
/// them is a blank or a tab.
fn check_trimmed(chars: &Vec<char>) -> (r: bool)
    ensures
        r == is_trimmed(chars@),
{
    chars.len() > 0 && !blank(chars[0]) && !blank(chars[chars.len() - 1])
}

/// Whether a line feed or a carriage return is among the characters.
fn check_line_break(chars: &Vec<char>) -> (r: bool)
    ensures
        r == has_line_break(chars@),
{
    let mut i: usize = 0;
    while i < chars.len()
        invariant
            i <= chars@.len(),
            forall|j: int| 0 <= j < i ==> !is_line_break(#[trigger] chars@[j]),
        decreases chars@.len() - i,
    {
        if chars[i] == '\n' || chars[i] == '\r' {
            assert(is_line_break(chars@[i as int]));
            return true;
        }
        i = i + 1;
    }
    false
}

/// The text of `s` in the span, as a string of its own.
fn span_text(s: &str, from: usize, to: usize) -> (r: String)
    requires
        from <= to <= s@.len(),
    ensures
        r@ == s@.subrange(from as int, to as int),
{
    s.substring_char(from, to).to_owned()
}

/// The text that follows the word `keyword` at the start of `s`.
fn text_after_keyword(s: &str, keyword: &str) -> (r: Option<String>)
    ensures
        match r {
            Some(text) => text_after(keyword@, s@) == Some(text@),
            None => text_after(keyword@, s@) is None,
        },
{
    let chars = to_chars(s);
    let n = keyword.unicode_len();
    if chars.len() < n {
        return None;
    }
    assert(chars@.subrange(0, n as int) =~= chars@.take(n as int));
    if !span_is(&chars, 0, n, keyword) {
        return None;
    }
    if chars.len() > n && !blank(chars[n]) {
        return None;
    }
    if check_line_break(&chars) {
        return None;
    }
    let start = skip_spaces(&chars, n);
    assert(chars@.subrange(start as int, chars@.len() as int) =~= chars@.skip(start as int));
    Some(span_text(s, start, chars.len()))
}

/// Whether the characters from `from` to `to` are decimal digits, and at
/// least one.
fn check_digits(chars: &Vec<char>, from: usize, to: usize) -> (r: bool)
    requires
        from <= to <= chars@.len(),
    ensures
        r == is_digits(chars@.subrange(from as int, to as int)),
{
    let ghost w = chars@.subrange(from as int, to as int);
    if from == to {
        return false;
    }
    let mut i: usize = from;
    while i < to
        invariant
            from <= i <= to <= chars@.len(),
            w == chars@.subrange(from as int, to as int),
            forall|j: int| 0 <= j < i - from ==> is_digit(#[trigger] w[j]),
        decreases to - i,
    {
        let c = chars[i];
        if !('0' <= c && c <= '9') {
            assert(!is_digit(w[i - from]));
            return false;
        }
        i = i + 1;
    }
    true
}

/// The index behind the mantissa that starts at `from`, if one does.
fn mantissa_end(chars: &Vec<char>, from: usize, to: usize) -> (r: Option<usize>)
    requires
        from <= to <= chars@.len(),
    ensures
        match r {
            Some(end) => from <= end <= to && mantissa_len(
                chars@.subrange(from as int, to as int),
            ) == Some((end - from) as nat),
            None => mantissa_len(chars@.subrange(from as int, to as int)) is None,
        },
{
    let ghost a = chars@.subrange(from as int, to as int);
    let whole = count_digits(chars, from, to);
    if from + whole < to && chars[from + whole] == '.' {
        assert(a[whole as int] == '.');
        assert(chars@.subrange(from + whole + 1, to as int) =~= a.skip(whole + 1));
        let fraction = count_digits(chars, from + whole + 1, to);
        if whole + fraction > 0 {
            Some(from + whole + 1 + fraction)
        } else {
            None
        }
    } else {
        assert(from + whole < to ==> a[whole as int] == chars@[from + whole]);
        if whole > 0 {
            Some(from + whole)
        } else {
            None
        }
    }
}

/// Whether the characters from `from` to `to` are nothing or an exponent.
fn check_exponent(chars: &Vec<char>, from: usize, to: usize) -> (r: bool)
    requires
        from <= to <= chars@.len(),
    ensures
        r == is_exponent(chars@.subrange(from as int, to as int)),
{
    let ghost d = chars@.subrange(from as int, to as int);
    if from == to {
        return true;
    }
    assert(d[0] == chars@[from as int]);
    if !(chars[from] == 'e' || chars[from] == 'E') {
        return false;
    }
    let signed = from + 1 < to && (chars[from + 1] == '+' || chars[from + 1] == '-');
    let digits = if signed {
        from + 2
    } else {
        from + 1
    };
    assert(chars@.subrange(from + 1, to as int) =~= d.skip(1));
    assert(from + 1 < to ==> d.skip(1)[0] == chars@[from + 1]);
    assert(chars@.subrange(digits as int, to as int) =~= d.skip(1 + sign_len(d.skip(1)) as int));
    check_digits(chars, digits, to)
}

/// Whether the characters from `from` to `to` write a number in decimal or
/// scientific form.
pub fn check_number(chars: &Vec<char>, from: usize, to: usize) -> (r: bool)
    requires
        from <= to <= chars@.len(),
    ensures
        r == is_number(chars@.subrange(from as int, to as int)),
{
    let ghost w = chars@.subrange(from as int, to as int);
    let signed = from < to && (chars[from] == '+' || chars[from] == '-');
    let start = if signed {
        from + 1
    } else {
        from
    };
    assert(from < to ==> w[0] == chars@[from as int]);
    assert(chars@.subrange(start as int, to as int) =~= w.skip(sign_len(w) as int));
    match mantissa_end(chars, start, to) {
        Some(end) => {
            assert(chars@.subrange(end as int, to as int) =~= w.skip(sign_len(w) as int).skip(
                end - start,
            ));
            check_exponent(chars, end, to)
        },
        None => false,
    }
}

/// Reads a record line and returns its tokens, each of which has to write a
/// number.
pub fn data_line(s: &str) -> (r: Result<Vec<String>, SyntaxError>)
    ensures
        match r {
            Ok(tokens) => spec_data_line(s@) == Some(tokens@.map_values(|t: String| t@)),
            Err(e) => spec_data_line(s@) is None && e == SyntaxError::Number,
        },
{
    let chars = to_chars(s);
    let n = len_without_line_break(&chars);
    let spans = split_words(&chars, n);
    let ghost expected = record_tokens(s@);
    let mut tokens: Vec<String> = Vec::new();
    let mut i: usize = 0;
    while i < spans.len()
        invariant
            i <= spans@.len(),
            chars@ == s@,
            expected == record_tokens(s@),
            spans_match(chars@, spans@, expected),
            tokens@.len() == i,
            forall|j: int| 0 <= j < i ==> (#[trigger] tokens@[j])@ == expected[j],
            forall|j: int| 0 <= j < i ==> is_number(#[trigger] expected[j]),
        decreases spans@.len() - i,
    {
        let span = spans[i];
        if !check_number(&chars, span.0, span.1) {
            assert(!is_number(expected[i as int]));
            return Err(SyntaxError::Number);
        }
        tokens.push(span_text(s, span.0, span.1));
        i = i + 1;
    }
    assert(tokens@.map_values(|t: String| t@) =~= expected);
    Ok(tokens)
}

/// Accepts the magic number: the word `ply` and nothing else.
pub fn magic_number(s: &str) -> (r: Result<(), SyntaxError>)
    ensures
        r is Ok <==> spec_magic_number(s@),
        r is Err ==> r == Err::<(), SyntaxError>(SyntaxError::MagicNumber),
{
    let chars = to_chars(s);
    assert(chars@.subrange(0, chars@.len() as int) =~= chars@);
    if span_is(&chars, 0, chars.len(), "ply") {
        Ok(())
    } else {
        Err(SyntaxError::MagicNumber)
    }
}

/// Accepts the line that ends a header: the word `end_header` and nothing
/// else.
pub fn end_header(s: &str) -> (r: Result<(), SyntaxError>)
    ensures
        r is Ok <==> spec_end_header(s@),
        r is Err ==> r == Err::<(), SyntaxError>(SyntaxError::EndHeader),
{
    let chars = to_chars(s);
    assert(chars@.subrange(0, chars@.len() as int) =~= chars@);
    if span_is(&chars, 0, chars.len(), "end_header") {
        Ok(())
    } else {
        Err(SyntaxError::EndHeader)
    }
}

/// Reads a format line.
pub fn format(s: &str) -> (r: Result<(Encoding, Version), SyntaxError>)
    ensures
        r == match spec_format(s@) {
            Some(f) => Ok::<(Encoding, Version), SyntaxError>(f),
            None => Err(SyntaxError::Format),
        },
{
    let chars = to_chars(s);
    let spans = split_words(&chars, chars.len());
    assert(chars@.take(chars@.len() as int) =~= chars@);
    if !check_trimmed(&chars) || spans.len() != 3 {
        return Err(SyntaxError::Format);
    }
    if !span_is(&chars, spans[0].0, spans[0].1, "format") {
        return Err(SyntaxError::Format);
    }
    let encoding = parse_encoding(&chars, spans[1].0, spans[1].1);
    let version = parse_version(&chars, spans[2].0, spans[2].1);
    match (encoding, version) {
        (Some(e), Some(v)) => Ok((e, v)),
        _ => Err(SyntaxError::Format),
    }
}

/// Reads a comment line and returns its text.
pub fn comment(s: &str) -> (r: Result<String, SyntaxError>)
    ensures
        match r {
            Ok(text) => spec_comment(s@) == Some(text@),
            Err(e) => spec_comment(s@) is None && e == SyntaxError::Comment,
        },
{
    match text_after_keyword(s, "comment") {
        Some(text) => Ok(text),
        None => Err(SyntaxError::Comment),
    }
}

/// Reads a line about the object and returns its text.
pub fn obj_info(s: &str) -> (r: Result<String, SyntaxError>)
    ensures
        match r {
            Ok(text) => spec_obj_info(s@) == Some(text@),
            Err(e) => spec_obj_info(s@) is None && e == SyntaxError::ObjInfo,
        },
{
    match text_after_keyword(s, "obj_info") {
        Some(text) => {
            if text.as_str().unicode_len() > 0 {
                Ok(text)
            } else {
                Err(SyntaxError::ObjInfo)
            }
        },
        None => Err(SyntaxError::ObjInfo),
    }
}

/// Reads the declaration of an element. The element has no properties yet.
pub fn element(s: &str) -> (r: Result<ElementDef, SyntaxError>)
    ensures
        match r {
            Ok(e) => spec_element(s@) == Some(e@) && e.properties.wf(),
            Err(e) => spec_element(s@) is None && e == SyntaxError::Element,
        },
{
    let chars = to_chars(s);
    let spans = split_words(&chars, chars.len());
    assert(chars@.take(chars@.len() as int) =~= chars@);
    if !check_trimmed(&chars) || spans.len() != 3 {
        return Err(SyntaxError::Element);
    }
    if !span_is(&chars, spans[0].0, spans[0].1, "element") {
        return Err(SyntaxError::Element);
    }
    if !check_ident(&chars, spans[1].0, spans[1].1) {
        return Err(SyntaxError::Element);
    }
    match parse_number(&chars, spans[2].0, spans[2].1, usize::MAX as u64) {
        Some(count) => {
            let name = span_text(s, spans[1].0, spans[1].1);
            Ok(ElementDef::new(name, count as usize))
        },
        None => Err(SyntaxError::Element),
    }
}

/// Reads the declaration of a property.
pub fn property(s: &str) -> (r: Result<PropertyDef, SyntaxError>)
    ensures
        match r {
            Ok(p) => spec_property(s@) == Some(p@),
            Err(e) => spec_property(s@) is None && e == SyntaxError::Property,
        },
{
    let chars = to_chars(s);
    let spans = split_words(&chars, chars.len());
    assert(chars@.take(chars@.len() as int) =~= chars@);
    if !check_trimmed(&chars) || (spans.len() != 3 && spans.len() != 5) {
        return Err(SyntaxError::Property);
    }
    if !span_is(&chars, spans[0].0, spans[0].1, "property") {
        return Err(SyntaxError::Property);
    }
    if spans.len() == 3 {
        if !check_ident(&chars, spans[2].0, spans[2].1) {
            return Err(SyntaxError::Property);
        }
        match parse_scalar_type(&chars, spans[1].0, spans[1].1) {
            Some(kind) => {
                let name = span_text(s, spans[2].0, spans[2].1);
                Ok(PropertyDef::new(name, PropertyType::Scalar(kind)))
            },
            None => Err(SyntaxError::Property),
        }
    } else {
        if !span_is(&chars, spans[1].0, spans[1].1, "list") {
            return Err(SyntaxError::Property);
        }
        if !check_ident(&chars, spans[4].0, spans[4].1) {
            return Err(SyntaxError::Property);
        }
        let index = parse_scalar_type(&chars, spans[2].0, spans[2].1);
        let item = parse_scalar_type(&chars, spans[3].0, spans[3].1);
        match (index, item) {
            (Some(a), Some(b)) => {
                let name = span_text(s, spans[4].0, spans[4].1);
                Ok(PropertyDef::new(name, PropertyType::List(a, b)))
            },
            _ => Err(SyntaxError::Property),
        }
    }
}

/// Reads one line of a header.
pub fn line(s: &str) -> (r: Result<Line, SyntaxError>)
    ensures
        match r {
            Ok(l) => spec_line(s@) == Ok::<LineView, SyntaxError>(l@) && (l matches Line::Element(
                e,
            ) ==> e.properties.wf()),
            Err(e) => spec_line(s@) == Err::<LineView, SyntaxError>(e),
        },
{
    let chars = to_chars(s);
    let whole = len_without_line_break(&chars);
    let n = len_trim_end(&chars, whole);
    let k = first_word_end(&chars, n);
    let ghost t = chars@.take(n as int);
    assert(chars@.subrange(0, k as int) =~= first_word(t));
    assert(s@.subrange(0, n as int) =~= t);
    let trimmed = s.substring_char(0, n);
    if span_is(&chars, 0, k, "ply") {
        match magic_number(trimmed) {
            Ok(_) => Ok(Line::MagicNumber),
            Err(e) => Err(e),
        }
    } else if span_is(&chars, 0, k, "end_header") {
        match end_header(trimmed) {
            Ok(_) => Ok(Line::EndHeader),
            Err(e) => Err(e),
        }
    } else if span_is(&chars, 0, k, "format") {
        match format(trimmed) {
            Ok(f) => Ok(Line::Format(f)),
            Err(e) => Err(e),
        }
    } else if span_is(&chars, 0, k, "obj_info") {
        match obj_info(trimmed) {
            Ok(o) => Ok(Line::ObjInfo(o)),
            Err(e) => Err(e),
        }
    } else if span_is(&chars, 0, k, "comment") {
        match comment(trimmed) {
            Ok(c) => Ok(Line::Comment(c)),
            Err(e) => Err(e),
        }
    } else if span_is(&chars, 0, k, "element") {
        match element(trimmed) {
            Ok(e) => Ok(Line::Element(e)),
            Err(e) => Err(e),
        }
    } else if span_is(&chars, 0, k, "property") {
        match property(trimmed) {
            Ok(p) => Ok(Line::Property(p)),
            Err(e) => Err(e),
        }
    } else {
        Err(SyntaxError::Keyword)
    }
}

} // verus!
