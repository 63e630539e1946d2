//! The canonical text of a header, and the proof that reading it gives the
//! header back.

use crate::grammar::{
    digits_len, digits_value, first_word, has_line_break, is_digit, is_digits, is_ident,
    is_letter, is_line_break, is_line_ending, is_space, is_trimmed, lemma_without_line_break,
    spec_comment, spec_element, spec_encoding, spec_end_header, spec_format, spec_line,
    spec_obj_info, spec_property, spec_scalar_type, spec_version, text_after, trim_end,
    trim_start, without_line_break, word_len, words, SyntaxError,
};
use crate::error::ParseErrorView;
use crate::header::{header_rest, header_step, spec_classify, spec_read_header, DraftView};
use crate::key_map::{distinct_keys, lemma_position, lemma_position_is};
use crate::parser::LineView;
use crate::ply::{
    ElementDefView, Encoding, HeaderView, PropertyDefView, PropertyType, ScalarType, Version,
};
use crate::stream::{
    after_first_line, first_line, lemma_line_end, line_end, text_of, LINE_FEED,
};
use crate::util::next_line_index;
use vstd::prelude::*;
use vstd::utf8::{
    encode_scalar, encode_utf8, encode_utf8_decode_utf8, encode_utf8_valid_utf8,
    has_width_1_encoding, last_continuation_byte, leading_byte_width_1, leading_byte_width_2,
    leading_byte_width_3, leading_byte_width_4, second_last_continuation_byte,
    third_last_continuation_byte,
};

verus! {

/// Whether neither a blank nor a tab is among the characters of `s`.
#[verifier::opaque]
pub open spec fn no_space(s: Seq<char>) -> bool {
    forall|i: int| 0 <= i < s.len() ==> !is_space(#[trigger] s[i])
}

/// Whether neither a line feed nor a carriage return is among the characters
/// of `s`.
#[verifier::opaque]
pub open spec fn no_break(s: Seq<char>) -> bool {
    forall|i: int| 0 <= i < s.len() ==> !is_line_break(#[trigger] s[i])
}

/// One blank.
pub open spec fn blank() -> Seq<char> {
    seq![' ']
}

/// To hold no line break is to hold none.
pub proof fn lemma_no_break(s: Seq<char>)
    ensures
        no_break(s) <==> !has_line_break(s),
{
    reveal(no_break);
}

/// Two texts without line break make one without.
pub proof fn lemma_no_break_concat(a: Seq<char>, b: Seq<char>)
    requires
        no_break(a),
        no_break(b),
    ensures
        no_break(a + b),
{
    reveal(no_break);
    let s = a + b;
    assert forall|i: int| 0 <= i < s.len() implies !is_line_break(#[trigger] s[i]) by {
        if i < a.len() {
            assert(s[i] == a[i]);
        } else {
            assert(s[i] == b[i - a.len()]);
        }
    }
}

/// A blank is no line break.
pub proof fn lemma_no_break_blank()
    ensures
        no_break(blank()),
{
    reveal(no_break);
}

/// The character of the decimal digit `d`.
pub open spec fn digit_char(d: nat) -> char {
    if d == 0 {
        '0'
    } else if d == 1 {
        '1'
    } else if d == 2 {
        '2'
    } else if d == 3 {
        '3'
    } else if d == 4 {
        '4'
    } else if d == 5 {
        '5'
    } else if d == 6 {
        '6'
    } else if d == 7 {
        '7'
    } else if d == 8 {
        '8'
    } else {
        '9'
    }
}

/// The decimal digits that write `n`, without leading zeros.
pub open spec fn digits_of(n: nat) -> Seq<char>
    decreases n,
{
    if n < 10 {
        seq![digit_char(n)]
    } else {
        digits_of(n / 10).push(digit_char(n % 10))
    }
}

/// The digits that write a number are digits, and write that number.
pub proof fn lemma_digits_of(n: nat)
    ensures
        is_digits(digits_of(n)),
        digits_value(digits_of(n)) == n,
        no_space(digits_of(n)),
        no_break(digits_of(n)),
    decreases n,
{
    reveal(no_space);
    reveal(no_break);
    if n < 10 {
        let s = digits_of(n);
        assert(s.drop_last() =~= Seq::<char>::empty());
        assert(digits_value(s.drop_last()) == 0);
        assert(s.last() == digit_char(n));
    } else {
        lemma_digits_of(n / 10);
        let front = digits_of(n / 10);
        let s = digits_of(n);
        assert(s.drop_last() =~= front);
        assert(s.last() == digit_char(n % 10));
        assert forall|i: int| 0 <= i < s.len() implies is_digit(#[trigger] s[i]) by {
            if i < front.len() {
                assert(s[i] == front[i]);
            }
        }
        assert forall|i: int| 0 <= i < s.len() implies !is_space(#[trigger] s[i]) by {
            if i < front.len() {
                assert(s[i] == front[i]);
            }
        }
        assert forall|i: int| 0 <= i < s.len() implies !is_line_break(#[trigger] s[i]) by {
            if i < front.len() {
                assert(s[i] == front[i]);
            }
        }
    }
}

/// A blank at the end adds no word.
pub proof fn lemma_words_blank(a: Seq<char>)
    ensures
        words(a + blank()) == words(a),
{
    let s = a + blank();
    assert(s.last() == ' ');
    assert(s.drop_last() =~= a);
}

/// A word behind a text that is empty or ends in a blank or a tab is the last
/// of its words.
pub proof fn lemma_words_append(a: Seq<char>, w: Seq<char>)
    requires
        a.len() == 0 || is_space(a.last()),
        w.len() > 0,
        no_space(w),
    ensures
        words(a + w) == words(a).push(w),
    decreases w.len(),
{
    reveal(no_space);
    let s = a + w;
    let c = w.last();
    assert(s.last() == c);
    assert(s.drop_last() =~= a + w.drop_last());
    if w.len() == 1 {
        assert(a + w.drop_last() =~= a);
        assert(w =~= seq![c]);
        if s.len() >= 2 {
            assert(s[s.len() - 2] == a.last());
        }
    } else {
        let front = w.drop_last();
        assert forall|i: int| 0 <= i < front.len() implies !is_space(#[trigger] front[i]) by {
            assert(front[i] == w[i]);
        }
        lemma_words_append(a, front);
        assert(s[s.len() - 2] == w[w.len() - 2]);
        assert(words(a).push(front).drop_last() =~= words(a));
        assert(front.push(c) =~= w);
    }
}

/// The first word of a text ends where the first blank or tab stands.
pub proof fn lemma_word_len_prefix(w: Seq<char>, rest: Seq<char>)
    requires
        no_space(w),
        rest.len() == 0 || is_space(rest[0]),
    ensures
        word_len(w + rest) == w.len(),
    decreases w.len(),
{
    reveal(no_space);
    let s = w + rest;
    if w.len() == 0 {
        assert(s =~= rest);
    } else {
        assert(s[0] == w[0]);
        assert(s.drop_first() =~= w.drop_first() + rest);
        let tail = w.drop_first();
        assert forall|i: int| 0 <= i < tail.len() implies !is_space(#[trigger] tail[i]) by {
            assert(tail[i] == w[i + 1]);
        }
        lemma_word_len_prefix(tail, rest);
    }
}

/// The digits at the start of a text end where the first other character
/// stands.
pub proof fn lemma_digits_len_prefix(d: Seq<char>, rest: Seq<char>)
    requires
        forall|i: int| 0 <= i < d.len() ==> is_digit(#[trigger] d[i]),
        rest.len() == 0 || !is_digit(rest[0]),
    ensures
        digits_len(d + rest) == d.len(),
    decreases d.len(),
{
    let s = d + rest;
    if d.len() == 0 {
        assert(s =~= rest);
    } else {
        assert(s[0] == d[0]);
        assert(s.drop_first() =~= d.drop_first() + rest);
        let tail = d.drop_first();
        assert forall|i: int| 0 <= i < tail.len() implies is_digit(#[trigger] tail[i]) by {
            assert(tail[i] == d[i + 1]);
        }
        lemma_digits_len_prefix(tail, rest);
    }
}

/// The words of three words with one blank between them.
pub proof fn lemma_words_three(a: Seq<char>, b: Seq<char>, c: Seq<char>)
    requires
        a.len() > 0 && no_space(a),
        b.len() > 0 && no_space(b),
        c.len() > 0 && no_space(c),
    ensures
        words(a + blank() + b + blank() + c) == seq![a, b, c],
{
    let e = Seq::<char>::empty();
    assert(words(e) =~= Seq::<Seq<char>>::empty());
    lemma_words_append(e, a);
    assert(e + a =~= a);
    lemma_words_blank(a);
    let s1 = a + blank();
    assert(s1.last() == ' ');
    lemma_words_append(s1, b);
    lemma_words_blank(s1 + b);
    let s2 = s1 + b + blank();
    assert(s2.last() == ' ');
    lemma_words_append(s2, c);
    assert(words(s2 + c) =~= seq![a, b, c]);
}

/// The words of five words with one blank between them.
pub proof fn lemma_words_five(a: Seq<char>, b: Seq<char>, c: Seq<char>, d: Seq<char>, e: Seq<char>)
    requires
        a.len() > 0 && no_space(a),
        b.len() > 0 && no_space(b),
        c.len() > 0 && no_space(c),
        d.len() > 0 && no_space(d),
        e.len() > 0 && no_space(e),
    ensures
        words(a + blank() + b + blank() + c + blank() + d + blank() + e) == seq![a, b, c, d, e],
{
    lemma_words_three(a, b, c);
    let s3 = a + blank() + b + blank() + c;
    lemma_words_blank(s3);
    let s4 = s3 + blank();
    assert(s4.last() == ' ');
    lemma_words_append(s4, d);
    lemma_words_blank(s4 + d);
    let s5 = s4 + d + blank();
    assert(s5.last() == ' ');
    lemma_words_append(s5, e);
    assert(words(s5 + e) =~= seq![a, b, c, d, e]);
}

/// A name is a plain word that ends in no blank, tab or line break.
pub proof fn lemma_ident_plain(name: Seq<char>)
    requires
        is_ident(name),
    ensures
        name.len() > 0,
        no_space(name),
        no_break(name),
        !is_space(name.last()) && !is_line_break(name.last()),
{
    reveal(no_space);
    reveal(no_break);
    assert forall|i: int| 0 <= i < name.len() implies !is_space(#[trigger] name[i])
        && !is_line_break(name[i]) by {
        if i > 0 {
            assert(is_letter(name[i]) || is_digit(name[i]) || name[i] == '_' || name[i] == '-');
        }
    }
    let last = name.last();
    assert(!is_space(last) && !is_line_break(last));
}

/// The name of an encoding in a format line.
pub open spec fn encoding_name(encoding: Encoding) -> Seq<char> {
    match encoding {
        Encoding::Ascii => "ascii"@,
        Encoding::BinaryBigEndian => "binary_big_endian"@,
        Encoding::BinaryLittleEndian => "binary_little_endian"@,
    }
}

/// The first of the two names of a kind of number.
pub open spec fn scalar_name(kind: ScalarType) -> Seq<char> {
    match kind {
        ScalarType::Char => "char"@,
        ScalarType::UChar => "uchar"@,
        ScalarType::Short => "short"@,
        ScalarType::UShort => "ushort"@,
        ScalarType::Int => "int"@,
        ScalarType::UInt => "uint"@,
        ScalarType::Float => "float"@,
        ScalarType::Double => "double"@,
    }
}

/// The two numbers of a version with a point between them.
pub open spec fn version_text(version: Version) -> Seq<char> {
    digits_of(version.major as nat) + seq!['.'] + digits_of(version.minor as nat)
}

/// The canonical text of a header line, without a line break: the words of
/// the line with one blank between them, numbers without leading zeros, and
/// for each kind of number the first of its names.
pub open spec fn line_text(line: LineView) -> Seq<char> {
    match line {
        LineView::MagicNumber => "ply"@,
        LineView::Format(f) => "format"@ + blank() + encoding_name(f.0) + blank() + version_text(
            f.1,
        ),
        LineView::Comment(c) => if c.len() == 0 {
            "comment"@
        } else {
            "comment"@ + blank() + c
        },
        LineView::ObjInfo(o) => "obj_info"@ + blank() + o,
        LineView::Element(e) => "element"@ + blank() + e.name + blank() + digits_of(e.count),
        LineView::Property(p) => match p.data_type {
            PropertyType::Scalar(kind) => "property"@ + blank() + scalar_name(kind) + blank()
                + p.name,
            PropertyType::List(index, item) => "property"@ + blank() + "list"@ + blank()
                + scalar_name(index) + blank() + scalar_name(item) + blank() + p.name,
        },
        LineView::EndHeader => "end_header"@,
    }
}

/// What holds of every line that the grammar gives: a text has no line
/// break and neither starts nor ends with a blank or a tab; that of a line
/// about the object is not empty; a name is a name; an element has no
/// properties yet, and a number of records that the machine can hold.
pub open spec fn line_ok(line: LineView) -> bool {
    match line {
        LineView::Comment(c) => !has_line_break(c) && (c.len() == 0 || is_trimmed(c)),
        LineView::ObjInfo(o) => !has_line_break(o) && is_trimmed(o),
        LineView::Element(e) => is_ident(e.name) && e.count <= usize::MAX && e.properties.len()
            == 0,
        LineView::Property(p) => is_ident(p.name),
        _ => true,
    }
}

/// The words that start the lines of a header are plain words, and differ in
/// their length or in their first letter.
pub proof fn lemma_keywords()
    ensures
        "ply"@.len() == 3 && "ply"@[0] == 'p' && no_space("ply"@) && no_break("ply"@),
        "end_header"@.len() == 10 && "end_header"@[0] == 'e' && no_space("end_header"@)
            && no_break("end_header"@),
        "format"@.len() == 6 && "format"@[0] == 'f' && no_space("format"@) && no_break(
            "format"@,
        ),
        "obj_info"@.len() == 8 && "obj_info"@[0] == 'o' && no_space("obj_info"@) && no_break(
            "obj_info"@,
        ),
        "comment"@.len() == 7 && "comment"@[0] == 'c' && no_space("comment"@) && no_break(
            "comment"@,
        ),
        "element"@.len() == 7 && "element"@[0] == 'e' && no_space("element"@) && no_break(
            "element"@,
        ),
        "property"@.len() == 8 && "property"@[0] == 'p' && no_space("property"@) && no_break(
            "property"@,
        ),
{
    reveal(no_space);
    reveal(no_break);
    reveal_strlit("ply");
    reveal_strlit("end_header");
    reveal_strlit("format");
    reveal_strlit("obj_info");
    reveal_strlit("comment");
    reveal_strlit("element");
    reveal_strlit("property");
}

/// The word `list` is a plain word.
pub proof fn lemma_list_word()
    ensures
        "list"@.len() == 4 && no_space("list"@) && no_break("list"@),
{
    reveal(no_space);
    reveal(no_break);
    reveal_strlit("list");
}

/// The name of an encoding is a plain word that names the encoding.
pub proof fn lemma_encoding_name(encoding: Encoding)
    ensures
        spec_encoding(encoding_name(encoding)) == Some(encoding),
        encoding_name(encoding).len() > 0,
        no_space(encoding_name(encoding)),
        no_break(encoding_name(encoding)),
{
    reveal(no_space);
    reveal(no_break);
    reveal_strlit("ascii");
    reveal_strlit("binary_big_endian");
    reveal_strlit("binary_little_endian");
    assert("ascii"@.len() == 5);
    assert("binary_big_endian"@.len() == 17);
    assert("binary_little_endian"@.len() == 20);
}

/// The name of a kind of number is a plain word that names the kind.
pub proof fn lemma_scalar_name(kind: ScalarType)
    ensures
        spec_scalar_type(scalar_name(kind)) == Some(kind),
        scalar_name(kind).len() > 0,
        no_space(scalar_name(kind)),
        no_break(scalar_name(kind)),
{
    reveal(no_space);
    reveal(no_break);
    reveal_strlit("char");
    reveal_strlit("int8");
    reveal_strlit("uchar");
    reveal_strlit("uint8");
    reveal_strlit("short");
    reveal_strlit("int16");
    reveal_strlit("ushort");
    reveal_strlit("uint16");
    reveal_strlit("int");
    reveal_strlit("int32");
    reveal_strlit("uint");
    reveal_strlit("uint32");
    reveal_strlit("float");
    reveal_strlit("float32");
    reveal_strlit("double");
    reveal_strlit("float64");
    let w = scalar_name(kind);
    match kind {
        ScalarType::Char => {},
        ScalarType::UChar => {
            assert(w.len() == 5);
        },
        ScalarType::Short => {
            assert(w[0] == 's');
        },
        ScalarType::UShort => {
            assert(w.len() == 6 && w[0] == 'u');
        },
        ScalarType::Int => {
            assert(w.len() == 3);
        },
        ScalarType::UInt => {
            assert(w.len() == 4 && w[0] == 'u');
        },
        ScalarType::Float => {
            assert(w.len() == 5 && w[0] == 'f');
        },
        ScalarType::Double => {
            assert(w.len() == 6 && w[0] == 'd');
        },
    }
}

/// The text of a version is a plain word that writes the version.
pub proof fn lemma_version_text(version: Version)
    ensures
        spec_version(version_text(version)) == Some(version),
        version_text(version).len() > 0,
        no_space(version_text(version)),
        no_break(version_text(version)),
        is_digit(version_text(version).last()),
{
    reveal(no_space);
    reveal(no_break);
    let major = digits_of(version.major as nat);
    let minor = digits_of(version.minor as nat);
    let point = seq!['.'];
    let w = version_text(version);
    lemma_digits_of(version.major as nat);
    lemma_digits_of(version.minor as nat);
    assert(w =~= major + (point + minor));
    assert((point + minor)[0] == '.');
    lemma_digits_len_prefix(major, point + minor);
    let n = major.len() as int;
    assert(w[n] == '.');
    assert(w.take(n) =~= major);
    assert(w.skip(n + 1) =~= minor);
    assert(w.last() == minor.last());
    assert forall|i: int| 0 <= i < w.len() implies !is_space(#[trigger] w[i]) && !is_line_break(
        w[i],
    ) by {
        if i < n {
            assert(w[i] == major[i]);
        } else if i > n {
            assert(w[i] == minor[i - n - 1]);
        }
    }
}

/// A text that ends in no blank, tab or line break is left when the line
/// ending behind it and the blanks and tabs at the end are taken off.
pub proof fn lemma_canonical_trimmed(t: Seq<char>, ending: Seq<char>)
    requires
        t.len() > 0,
        !is_space(t.last()),
        !is_line_break(t.last()),
        is_line_ending(ending),
    ensures
        trim_end(without_line_break(t + ending)) == t,
{
    lemma_without_line_break(t, ending);
}

/// The first word of a word with a blank and more behind it is that word.
pub proof fn lemma_first_word(w: Seq<char>, rest: Seq<char>)
    requires
        no_space(w),
    ensures
        first_word(w) == w,
        first_word(w + blank() + rest) == w,
{
    lemma_word_len_prefix(w, Seq::empty());
    assert(w + Seq::<char>::empty() =~= w);
    assert(w.take(w.len() as int) =~= w);
    let t = w + blank() + rest;
    assert(t =~= w + (blank() + rest));
    assert((blank() + rest)[0] == ' ');
    lemma_word_len_prefix(w, blank() + rest);
    assert(t.take(w.len() as int) =~= w);
}

/// A line whose first word is `end_header` is the last line of a header or
/// nothing.
pub proof fn lemma_line_is_end_header(s: Seq<char>)
    requires
        first_word(trim_end(without_line_break(s))) == "end_header"@,
    ensures
        spec_line(s) == if spec_end_header(trim_end(without_line_break(s))) {
            Ok::<LineView, SyntaxError>(LineView::EndHeader)
        } else {
            Err(SyntaxError::EndHeader)
        },
{
    lemma_keywords();
}

/// A line whose first word is `format` is a format line or nothing.
pub proof fn lemma_line_is_format(s: Seq<char>)
    requires
        first_word(trim_end(without_line_break(s))) == "format"@,
    ensures
        spec_line(s) == match spec_format(trim_end(without_line_break(s))) {
            Some(f) => Ok::<LineView, SyntaxError>(LineView::Format(f)),
            None => Err(SyntaxError::Format),
        },
{
    lemma_keywords();
}

/// A line whose first word is `obj_info` is a line about the object or
/// nothing.
pub proof fn lemma_line_is_obj_info(s: Seq<char>)
    requires
        first_word(trim_end(without_line_break(s))) == "obj_info"@,
    ensures
        spec_line(s) == match spec_obj_info(trim_end(without_line_break(s))) {
            Some(o) => Ok::<LineView, SyntaxError>(LineView::ObjInfo(o)),
            None => Err(SyntaxError::ObjInfo),
        },
{
    lemma_keywords();
}

/// A line whose first word is `comment` is a comment or nothing.
pub proof fn lemma_line_is_comment(s: Seq<char>)
    requires
        first_word(trim_end(without_line_break(s))) == "comment"@,
    ensures
        spec_line(s) == match spec_comment(trim_end(without_line_break(s))) {
            Some(c) => Ok::<LineView, SyntaxError>(LineView::Comment(c)),
            None => Err(SyntaxError::Comment),
        },
{
    lemma_keywords();
}

/// A line whose first word is `element` declares an element or nothing.
pub proof fn lemma_line_is_element(s: Seq<char>)
    requires
        first_word(trim_end(without_line_break(s))) == "element"@,
    ensures
        spec_line(s) == match spec_element(trim_end(without_line_break(s))) {
            Some(e) => Ok::<LineView, SyntaxError>(LineView::Element(e)),
            None => Err(SyntaxError::Element),
        },
{
    lemma_keywords();
}

/// A line whose first word is `property` declares a property or nothing.
pub proof fn lemma_line_is_property(s: Seq<char>)
    requires
        first_word(trim_end(without_line_break(s))) == "property"@,
    ensures
        spec_line(s) == match spec_property(trim_end(without_line_break(s))) {
            Some(p) => Ok::<LineView, SyntaxError>(LineView::Property(p)),
            None => Err(SyntaxError::Property),
        },
{
    lemma_keywords();
}

/// A text made of a word, a blank and a text that ends in no blank, tab or
/// line break starts with that word, and is left when what may end a line is
/// taken off.
pub proof fn lemma_keyword_line(k: Seq<char>, rest: Seq<char>, ending: Seq<char>)
    requires
        k.len() > 0,
        no_space(k),
        rest.len() > 0,
        !is_space(rest.last()),
        !is_line_break(rest.last()),
        is_line_ending(ending),
    ensures
        first_word(k + blank() + rest) == k,
        trim_end(without_line_break(k + blank() + rest + ending)) == k + blank() + rest,
        is_trimmed(k + blank() + rest),
{
    reveal(no_space);
    let t = k + blank() + rest;
    assert(t.last() == rest.last());
    assert(t[0] == k[0]);
    lemma_canonical_trimmed(t, ending);
    lemma_first_word(k, rest);
}

/// The canonical text of the last line of a header says that it is.
pub proof fn lemma_end_header_round_trip(ending: Seq<char>)
    requires
        is_line_ending(ending),
    ensures
        spec_line("end_header"@ + ending) == Ok::<LineView, SyntaxError>(LineView::EndHeader),
{
    let t = "end_header"@;
    lemma_keywords();
    assert(!is_space(t.last()) && !is_line_break(t.last())) by {
        reveal_strlit("end_header");
    }
    lemma_canonical_trimmed(t, ending);
    lemma_first_word(t, Seq::empty());
    lemma_line_is_end_header(t + ending);
}

/// The canonical text of a format line follows the grammar of such a line.
pub proof fn lemma_format_text(f: (Encoding, Version))
    ensures
        spec_format(line_text(LineView::Format(f))) == Some(f),
{
    lemma_keywords();
    lemma_encoding_name(f.0);
    lemma_version_text(f.1);
    let k = "format"@;
    let a = encoding_name(f.0);
    let b = version_text(f.1);
    let t = k + blank() + a + blank() + b;
    assert(t.last() == b.last());
    assert(t[0] == k[0]);
    assert(is_trimmed(t));
    lemma_words_three(k, a, b);
    let w = words(t);
    assert(w.len() == 3 && w[0] == k && w[1] == a && w[2] == b);
}

/// The canonical text of a format line says what the line says.
pub proof fn lemma_format_round_trip(f: (Encoding, Version), ending: Seq<char>)
    requires
        is_line_ending(ending),
    ensures
        spec_line(line_text(LineView::Format(f)) + ending) == Ok::<LineView, SyntaxError>(
            LineView::Format(f),
        ),
{
    lemma_keywords();
    lemma_version_text(f.1);
    lemma_format_text(f);
    let rest = encoding_name(f.0) + blank() + version_text(f.1);
    let t = line_text(LineView::Format(f));
    assert(rest.last() == version_text(f.1).last());
    assert(t =~= "format"@ + blank() + rest);
    lemma_keyword_line("format"@, rest, ending);
    lemma_line_is_format(t + ending);
}

/// What follows a word and a blank at the start of a text, where it starts
/// with no blank or tab and the text holds no line break.
pub proof fn lemma_text_after(k: Seq<char>, text: Seq<char>)
    requires
        no_break(k),
        no_break(text),
        text.len() > 0,
        !is_space(text[0]),
    ensures
        text_after(k, k + blank() + text) == Some(text),
{
    let t = k + blank() + text;
    let n = k.len() as int;
    assert(t.take(n) =~= k);
    assert(t[n] == ' ');
    lemma_no_break_blank();
    lemma_no_break_concat(k, blank());
    lemma_no_break_concat(k + blank(), text);
    lemma_no_break(t);
    let rest = t.skip(n);
    assert(rest[0] == ' ');
    assert(rest.drop_first() =~= text);
    assert(trim_start(rest) == trim_start(text));
    assert(trim_start(text) == text);
}

/// The canonical text of a comment line says what the line says.
pub proof fn lemma_comment_round_trip(c: Seq<char>, ending: Seq<char>)
    requires
        is_line_ending(ending),
        line_ok(LineView::Comment(c)),
    ensures
        spec_line(line_text(LineView::Comment(c)) + ending) == Ok::<LineView, SyntaxError>(
            LineView::Comment(c),
        ),
{
    lemma_keywords();
    let k = "comment"@;
    let t = line_text(LineView::Comment(c));
    lemma_no_break(c);
    if c.len() == 0 {
        assert(!is_space(k.last()) && !is_line_break(k.last())) by {
            reveal_strlit("comment");
        }
        lemma_canonical_trimmed(t, ending);
        lemma_first_word(k, Seq::empty());
        assert(t.take(7) =~= k);
        assert(t.skip(7) =~= Seq::<char>::empty());
        assert(c =~= Seq::<char>::empty());
        lemma_no_break(t);
        assert(text_after(k, t) == Some(c));
    } else {
        assert(!is_line_break(c.last())) by {
            reveal(no_break);
        }
        lemma_keyword_line(k, c, ending);
        lemma_text_after(k, c);
    }
    lemma_line_is_comment(t + ending);
}

/// The canonical text of a line about the object says what the line says.
pub proof fn lemma_obj_info_round_trip(o: Seq<char>, ending: Seq<char>)
    requires
        is_line_ending(ending),
        line_ok(LineView::ObjInfo(o)),
    ensures
        spec_line(line_text(LineView::ObjInfo(o)) + ending) == Ok::<LineView, SyntaxError>(
            LineView::ObjInfo(o),
        ),
{
    lemma_keywords();
    let k = "obj_info"@;
    let t = line_text(LineView::ObjInfo(o));
    lemma_no_break(o);
    assert(!is_line_break(o.last())) by {
        reveal(no_break);
    }
    lemma_keyword_line(k, o, ending);
    lemma_text_after(k, o);
    lemma_line_is_obj_info(t + ending);
}

/// The canonical text of the declaration of an element follows the grammar
/// of such a line.
pub proof fn lemma_element_text(e: ElementDefView)
    requires
        line_ok(LineView::Element(e)),
    ensures
        spec_element(line_text(LineView::Element(e))) == Some(e),
{
    lemma_keywords();
    lemma_ident_plain(e.name);
    lemma_digits_of(e.count);
    let k = "element"@;
    let a = e.name;
    let b = digits_of(e.count);
    let t = k + blank() + a + blank() + b;
    assert(t.last() == b.last());
    assert(is_digit(b.last()));
    assert(t[0] == k[0]);
    assert(is_trimmed(t));
    lemma_words_three(k, a, b);
    let w = words(t);
    assert(w.len() == 3 && w[0] == k && w[1] == a && w[2] == b);
    assert(e.properties =~= Seq::empty());
}

/// The canonical text of the declaration of an element says what the line
/// says.
pub proof fn lemma_element_round_trip(e: ElementDefView, ending: Seq<char>)
    requires
        is_line_ending(ending),
        line_ok(LineView::Element(e)),
    ensures
        spec_line(line_text(LineView::Element(e)) + ending) == Ok::<LineView, SyntaxError>(
            LineView::Element(e),
        ),
{
    lemma_keywords();
    lemma_digits_of(e.count);
    lemma_element_text(e);
    let b = digits_of(e.count);
    let rest = e.name + blank() + b;
    let t = line_text(LineView::Element(e));
    assert(rest.last() == b.last());
    assert(is_digit(b.last()));
    assert(t =~= "element"@ + blank() + rest);
    lemma_keyword_line("element"@, rest, ending);
    lemma_line_is_element(t + ending);
}

/// The canonical text of the declaration of a property that holds one
/// number follows the grammar of such a line.
pub proof fn lemma_scalar_property_text(kind: ScalarType, name: Seq<char>)
    requires
        is_ident(name),
    ensures
        spec_property("property"@ + blank() + scalar_name(kind) + blank() + name) == Some(
            PropertyDefView { name, data_type: PropertyType::Scalar(kind) },
        ),
{
    lemma_keywords();
    lemma_ident_plain(name);
    lemma_scalar_name(kind);
    let k = "property"@;
    let a = scalar_name(kind);
    let t = k + blank() + a + blank() + name;
    assert(t.last() == name.last());
    assert(t[0] == k[0]);
    assert(is_trimmed(t));
    lemma_words_three(k, a, name);
    let w = words(t);
    assert(w.len() == 3 && w[0] == k && w[1] == a && w[2] == name);
}

/// The canonical text of the declaration of a property that holds a list
/// follows the grammar of such a line.
pub proof fn lemma_list_property_text(index: ScalarType, item: ScalarType, name: Seq<char>)
    requires
        is_ident(name),
    ensures
        spec_property(
            "property"@ + blank() + "list"@ + blank() + scalar_name(index) + blank() + scalar_name(
                item,
            ) + blank() + name,
        ) == Some(PropertyDefView { name, data_type: PropertyType::List(index, item) }),
{
    lemma_keywords();
    lemma_list_word();
    lemma_ident_plain(name);
    lemma_scalar_name(index);
    lemma_scalar_name(item);
    let k = "property"@;
    let l = "list"@;
    let a = scalar_name(index);
    let b = scalar_name(item);
    let t = k + blank() + l + blank() + a + blank() + b + blank() + name;
    assert(t.last() == name.last());
    assert(t[0] == k[0]);
    assert(is_trimmed(t));
    lemma_words_five(k, l, a, b, name);
    let w = words(t);
    assert(w.len() == 5 && w[0] == k && w[1] == l && w[2] == a && w[3] == b && w[4] == name);
}

/// The canonical text of the declaration of a property says what the line
/// says.
pub proof fn lemma_property_round_trip(p: PropertyDefView, ending: Seq<char>)
    requires
        is_line_ending(ending),
        line_ok(LineView::Property(p)),
    ensures
        spec_line(line_text(LineView::Property(p)) + ending) == Ok::<LineView, SyntaxError>(
            LineView::Property(p),
        ),
{
    lemma_keywords();
    lemma_ident_plain(p.name);
    let k = "property"@;
    let t = line_text(LineView::Property(p));
    let rest = match p.data_type {
        PropertyType::Scalar(kind) => scalar_name(kind) + blank() + p.name,
        PropertyType::List(index, item) => "list"@ + blank() + scalar_name(index) + blank()
            + scalar_name(item) + blank() + p.name,
    };
    assert(rest.last() == p.name.last());
    assert(t =~= k + blank() + rest);
    lemma_keyword_line(k, rest, ending);
    match p.data_type {
        PropertyType::Scalar(kind) => {
            lemma_scalar_property_text(kind, p.name);
        },
        PropertyType::List(index, item) => {
            lemma_list_property_text(index, item, p.name);
        },
    }
    lemma_line_is_property(t + ending);
}

/// The canonical text of a line, with any line ending behind it, says what
/// the line says.
pub proof fn lemma_line_round_trip(line: LineView, ending: Seq<char>)
    requires
        is_line_ending(ending),
        line_ok(line),
    ensures
        spec_line(line_text(line) + ending) == Ok::<LineView, SyntaxError>(line),
{
    match line {
        LineView::MagicNumber => {
            crate::grammar::lemma_magic_number_with_any_ending(Seq::empty(), ending);
            assert("ply"@ + Seq::<char>::empty() + ending =~= "ply"@ + ending);
        },
        LineView::Format(f) => {
            lemma_format_round_trip(f, ending);
        },
        LineView::Comment(c) => {
            lemma_comment_round_trip(c, ending);
        },
        LineView::ObjInfo(o) => {
            lemma_obj_info_round_trip(o, ending);
        },
        LineView::Element(e) => {
            lemma_element_round_trip(e, ending);
        },
        LineView::Property(p) => {
            lemma_property_round_trip(p, ending);
        },
        LineView::EndHeader => {
            lemma_end_header_round_trip(ending);
        },
    }
}

/// Whether no byte of `bytes` is a line feed.
pub open spec fn no_line_feed(bytes: Seq<u8>) -> bool {
    forall|i: int| 0 <= i < bytes.len() ==> (#[trigger] bytes[i]) != LINE_FEED
}

/// The UTF-8 bytes of a character that is no line feed hold no line feed.
pub proof fn lemma_encode_scalar_no_line_feed(c: char)
    requires
        c != '\n',
    ensures
        no_line_feed(encode_scalar(c as u32)),
{
    let s = c as u32;
    assert(s != 10);
    assert(has_width_1_encoding(s) ==> leading_byte_width_1(s) != 10) by {
        assert(s <= 0x7F && s != 10 ==> (s & 0x7F) as u8 != 10u8) by (bit_vector);
    }
    assert forall|x: u8| (0xC0u8 | x) != 10u8 && (0xE0u8 | x) != 10u8 && (0xF0u8 | x) != 10u8 && (
    0x80u8 | x) != 10u8 by {
        assert((0xC0u8 | x) != 10u8 && (0xE0u8 | x) != 10u8 && (0xF0u8 | x) != 10u8 && (0x80u8 | x)
            != 10u8) by (bit_vector);
    }
    assert(leading_byte_width_2(s) != 10);
    assert(leading_byte_width_3(s) != 10);
    assert(leading_byte_width_4(s) != 10);
    assert(last_continuation_byte(s) != 10);
    assert(second_last_continuation_byte(s) != 10);
    assert(third_last_continuation_byte(s) != 10);
}

/// The UTF-8 bytes of a text without line feed hold no line feed.
pub proof fn lemma_encode_no_line_feed(chars: Seq<char>)
    requires
        forall|i: int| 0 <= i < chars.len() ==> (#[trigger] chars[i]) != '\n',
    ensures
        no_line_feed(encode_utf8(chars)),
    decreases chars.len(),
{
    if chars.len() > 0 {
        let rest = chars.drop_first();
        assert forall|i: int| 0 <= i < rest.len() implies (#[trigger] rest[i]) != '\n' by {
            assert(rest[i] == chars[i + 1]);
        }
        lemma_encode_no_line_feed(rest);
        lemma_encode_scalar_no_line_feed(chars[0]);
        let head = encode_scalar(chars[0] as u32);
        let tail = encode_utf8(rest);
        let all = encode_utf8(chars);
        assert(all == head + tail);
        assert forall|i: int| 0 <= i < all.len() implies (#[trigger] all[i]) != LINE_FEED by {
            if i < head.len() {
                assert(all[i] == head[i]);
            } else {
                assert(all[i] == tail[i - head.len()]);
            }
        }
    }
}

/// The UTF-8 bytes of two texts in a row are the bytes of the one and then
/// those of the other.
pub proof fn lemma_encode_concat(a: Seq<char>, b: Seq<char>)
    ensures
        encode_utf8(a + b) == encode_utf8(a) + encode_utf8(b),
    decreases a.len(),
{
    if a.len() == 0 {
        assert(a + b =~= b);
        assert(encode_utf8(a) + encode_utf8(b) =~= encode_utf8(b));
    } else {
        lemma_encode_concat(a.drop_first(), b);
        assert((a + b).drop_first() =~= a.drop_first() + b);
        assert((a + b)[0] == a[0]);
        assert(encode_utf8(a + b) =~= encode_utf8(a) + encode_utf8(b));
    }
}

/// A line feed is one byte.
pub proof fn lemma_encode_line_feed()
    ensures
        encode_utf8(seq!['\n']) == seq![LINE_FEED],
{
    let s = seq!['\n'];
    assert(s.drop_first() =~= Seq::<char>::empty());
    assert(encode_utf8(s.drop_first()) =~= Seq::<u8>::empty());
    let c = s[0] as u32;
    assert(c == 10);
    assert((10u32 & 0x7F) as u8 == 10u8) by (bit_vector);
    assert(encode_scalar(c) =~= seq![LINE_FEED]);
    assert(encode_utf8(s) =~= seq![LINE_FEED]);
}

/// The first line ends at the first line feed.
pub proof fn lemma_line_end_at_feed(line: Seq<u8>, rest: Seq<u8>)
    requires
        no_line_feed(line),
    ensures
        line_end(line + seq![LINE_FEED] + rest) == line.len() + 1,
    decreases line.len(),
{
    let all = line + seq![LINE_FEED] + rest;
    if line.len() == 0 {
        assert(all[0] == LINE_FEED);
    } else {
        assert(all[0] == line[0]);
        let tail = line.drop_first();
        assert forall|i: int| 0 <= i < tail.len() implies (#[trigger] tail[i]) != LINE_FEED by {
            assert(tail[i] == line[i + 1]);
        }
        assert(all.drop_first() =~= tail + seq![LINE_FEED] + rest);
        lemma_line_end_at_feed(tail, rest);
    }
}

/// The bytes of a text as a line: its UTF-8 bytes and a line feed.
pub open spec fn line_bytes(text: Seq<char>) -> Seq<u8> {
    encode_utf8(text + seq!['\n'])
}

/// The bytes of a text that holds no line feed are read as one line, which
/// is that text with a line feed behind it.
pub proof fn lemma_line_bytes(text: Seq<char>, rest: Seq<u8>)
    requires
        forall|i: int| 0 <= i < text.len() ==> (#[trigger] text[i]) != '\n',
    ensures
        (line_bytes(text) + rest).len() > 0,
        first_line(line_bytes(text) + rest) == line_bytes(text),
        after_first_line(line_bytes(text) + rest) == rest,
        text_of(line_bytes(text)) == Some(text + seq!['\n']),
        spec_classify(line_bytes(text)) == spec_line(text + seq!['\n']),
{
    let line = encode_utf8(text);
    lemma_encode_no_line_feed(text);
    lemma_encode_concat(text, seq!['\n']);
    lemma_encode_line_feed();
    assert(line_bytes(text) == line + seq![LINE_FEED]);
    lemma_line_end_at_feed(line, rest);
    let all = line_bytes(text) + rest;
    assert(all =~= line + seq![LINE_FEED] + rest);
    assert(all.take(line.len() as int + 1) =~= line_bytes(text));
    assert(all.skip(line.len() as int + 1) =~= rest);
    encode_utf8_valid_utf8(text + seq!['\n']);
    encode_utf8_decode_utf8(text + seq!['\n']);
}

/// The canonical text of a line holds no line break.
pub proof fn lemma_line_text_no_break(line: LineView)
    requires
        line_ok(line),
    ensures
        no_break(line_text(line)),
{
    lemma_keywords();
    lemma_no_break_blank();
    match line {
        LineView::Format(f) => {
            lemma_encoding_name(f.0);
            lemma_version_text(f.1);
            let k = "format"@;
            lemma_no_break_concat(k, blank());
            lemma_no_break_concat(k + blank(), encoding_name(f.0));
            lemma_no_break_concat(k + blank() + encoding_name(f.0), blank());
            lemma_no_break_concat(k + blank() + encoding_name(f.0) + blank(), version_text(f.1));
        },
        LineView::Comment(c) => {
            lemma_no_break(c);
            let k = "comment"@;
            lemma_no_break_concat(k, blank());
            lemma_no_break_concat(k + blank(), c);
        },
        LineView::ObjInfo(o) => {
            lemma_no_break(o);
            let k = "obj_info"@;
            lemma_no_break_concat(k, blank());
            lemma_no_break_concat(k + blank(), o);
        },
        LineView::Element(e) => {
            lemma_ident_plain(e.name);
            lemma_digits_of(e.count);
            let k = "element"@;
            lemma_no_break_concat(k, blank());
            lemma_no_break_concat(k + blank(), e.name);
            lemma_no_break_concat(k + blank() + e.name, blank());
            lemma_no_break_concat(k + blank() + e.name + blank(), digits_of(e.count));
        },
        LineView::Property(p) => {
            lemma_ident_plain(p.name);
            let k = "property"@;
            lemma_no_break_concat(k, blank());
            match p.data_type {
                PropertyType::Scalar(kind) => {
                    lemma_scalar_name(kind);
                    let a = scalar_name(kind);
                    lemma_no_break_concat(k + blank(), a);
                    lemma_no_break_concat(k + blank() + a, blank());
                    lemma_no_break_concat(k + blank() + a + blank(), p.name);
                },
                PropertyType::List(index, item) => {
                    lemma_list_word();
                    lemma_scalar_name(index);
                    lemma_scalar_name(item);
                    let l = "list"@;
                    let a = scalar_name(index);
                    let b = scalar_name(item);
                    lemma_no_break_concat(k + blank(), l);
                    lemma_no_break_concat(k + blank() + l, blank());
                    lemma_no_break_concat(k + blank() + l + blank(), a);
                    lemma_no_break_concat(k + blank() + l + blank() + a, blank());
                    lemma_no_break_concat(k + blank() + l + blank() + a + blank(), b);
                    lemma_no_break_concat(k + blank() + l + blank() + a + blank() + b, blank());
                    lemma_no_break_concat(
                        k + blank() + l + blank() + a + blank() + b + blank(),
                        p.name,
                    );
                },
            }
        },
        _ => {},
    }
}

/// The bytes of the canonical text of a line are read as one line that says
/// what the line says.
pub proof fn lemma_canonical_line(line: LineView, rest: Seq<u8>)
    requires
        line_ok(line),
    ensures
        (line_bytes(line_text(line)) + rest).len() > 0,
        after_first_line(line_bytes(line_text(line)) + rest) == rest,
        spec_classify(first_line(line_bytes(line_text(line)) + rest)) == Ok::<
            LineView,
            SyntaxError,
        >(line),
{
    let text = line_text(line);
    lemma_line_text_no_break(line);
    assert forall|i: int| 0 <= i < text.len() implies (#[trigger] text[i]) != '\n' by {
        reveal(no_break);
        assert(!is_line_break(text[i]));
    }
    lemma_line_bytes(text, rest);
    lemma_line_round_trip(line, seq!['\n']);
}

/// The bytes of the canonical texts of lines, one after the other.
pub open spec fn lines_bytes(lines: Seq<LineView>) -> Seq<u8>
    decreases lines.len(),
{
    if lines.len() == 0 {
        Seq::empty()
    } else {
        line_bytes(line_text(lines[0])) + lines_bytes(lines.drop_first())
    }
}

/// The draft that `draft` becomes when it takes `lines` one after the
/// other, where none of them ends the header or fails.
pub open spec fn draft_after(draft: DraftView, lines: Seq<LineView>) -> Option<DraftView>
    decreases lines.len(),
{
    if lines.len() == 0 {
        Some(draft)
    } else {
        match header_step(draft, lines[0]) {
            Ok(Some(next)) => draft_after(next, lines.drop_first()),
            _ => None,
        }
    }
}

/// The number of the line that stands `n` lines behind the line of number
/// `line`.
pub open spec fn line_after(line: usize, n: nat) -> usize
    decreases n,
{
    if n == 0 {
        line
    } else {
        line_after(next_line_index(line), (n - 1) as nat)
    }
}

/// Whether each of `lines` is a line as the grammar gives it.
pub open spec fn lines_ok(lines: Seq<LineView>) -> bool {
    forall|i: int| 0 <= i < lines.len() ==> line_ok(#[trigger] lines[i])
}

/// Reading the canonical texts of lines that a draft can take leads to the
/// draft that has taken them.
pub proof fn lemma_read_lines(
    lines: Seq<LineView>,
    tail: Seq<u8>,
    draft: DraftView,
    line: usize,
)
    requires
        lines_ok(lines),
        draft_after(draft, lines) is Some,
    ensures
        header_rest(lines_bytes(lines) + tail, draft, line) == header_rest(
            tail,
            draft_after(draft, lines)->Some_0,
            line_after(line, lines.len()),
        ),
    decreases lines.len(),
{
    if lines.len() == 0 {
        assert(lines_bytes(lines) + tail =~= tail);
    } else {
        let first = lines[0];
        let others = lines.drop_first();
        let rest = lines_bytes(others) + tail;
        let bytes = lines_bytes(lines) + tail;
        assert(bytes =~= line_bytes(line_text(first)) + rest);
        assert(line_ok(first));
        lemma_canonical_line(first, rest);
        let next = header_step(draft, first)->Ok_0->Some_0;
        assert forall|i: int| 0 <= i < others.len() implies line_ok(#[trigger] others[i]) by {
            assert(others[i] == lines[i + 1]);
        }
        lemma_read_lines(others, tail, next, next_line_index(line));
    }
}

/// Taking lines in two parts is taking the first part and then the second.
pub proof fn lemma_draft_after_concat(draft: DraftView, a: Seq<LineView>, b: Seq<LineView>)
    ensures
        draft_after(draft, a + b) == match draft_after(draft, a) {
            Some(middle) => draft_after(middle, b),
            None => None,
        },
    decreases a.len(),
{
    if a.len() == 0 {
        assert(a + b =~= b);
    } else {
        assert((a + b)[0] == a[0]);
        assert((a + b).drop_first() =~= a.drop_first() + b);
        if let Ok(Some(next)) = header_step(draft, a[0]) {
            lemma_draft_after_concat(next, a.drop_first(), b);
        }
    }
}

/// The lines that say `texts` about the object.
pub open spec fn obj_info_lines(texts: Seq<Seq<char>>) -> Seq<LineView> {
    Seq::new(texts.len(), |i: int| LineView::ObjInfo(texts[i]))
}

/// The comment lines with the texts `texts`.
pub open spec fn comment_lines(texts: Seq<Seq<char>>) -> Seq<LineView> {
    Seq::new(texts.len(), |i: int| LineView::Comment(texts[i]))
}

/// The lines that declare `properties`.
pub open spec fn property_lines(properties: Seq<(Seq<char>, PropertyDefView)>) -> Seq<LineView> {
    Seq::new(properties.len(), |i: int| LineView::Property(properties[i].1))
}

/// The element without its properties, as the line that declares it gives
/// it.
pub open spec fn bare(element: ElementDefView) -> ElementDefView {
    ElementDefView { properties: Seq::empty(), ..element }
}

/// The lines that declare `elements`: for each the line of the element and
/// then the lines of its properties.
pub open spec fn element_lines(elements: Seq<(Seq<char>, ElementDefView)>) -> Seq<LineView>
    decreases elements.len(),
{
    if elements.len() == 0 {
        Seq::empty()
    } else {
        element_lines(elements.drop_last()) + seq![LineView::Element(bare(elements.last().1))]
            + property_lines(elements.last().1.properties)
    }
}

/// The lines of a header between the magic number and the last line: the
/// format, what is said about the object, the comments, and the elements with
/// their properties.
pub open spec fn body_lines(header: HeaderView) -> Seq<LineView> {
    seq![LineView::Format((header.encoding, header.version))] + obj_info_lines(header.obj_infos)
        + comment_lines(header.comments) + element_lines(header.elements)
}

/// The canonical text of a header as bytes: one line each, with a line feed
/// behind it.
pub open spec fn header_text(header: HeaderView) -> Seq<u8> {
    line_bytes(line_text(LineView::MagicNumber)) + lines_bytes(body_lines(header)) + line_bytes(
        line_text(LineView::EndHeader),
    )
}

/// The draft that makes `header`.
pub open spec fn draft_of(header: HeaderView) -> DraftView {
    DraftView {
        format: Some((header.encoding, header.version)),
        obj_infos: header.obj_infos,
        comments: header.comments,
        elements: header.elements,
    }
}

/// What holds of the declaration of an element in a header that was read: it
/// stands under its name, which is a name; the machine can hold the number
/// of its records; and its properties stand under their names, which are
/// names and differ.
pub open spec fn element_valid(entry: (Seq<char>, ElementDefView)) -> bool {
    &&& entry.0 == entry.1.name
    &&& is_ident(entry.1.name)
    &&& entry.1.count <= usize::MAX
    &&& distinct_keys(entry.1.properties)
    &&& forall|j: int|
        0 <= j < entry.1.properties.len() ==> (#[trigger] entry.1.properties[j]).0
            == entry.1.properties[j].1.name && is_ident(entry.1.properties[j].1.name)
}

/// What holds of the elements of a header that was read: their names
/// differ, and each is as `element_valid` says.
pub open spec fn elements_valid(elements: Seq<(Seq<char>, ElementDefView)>) -> bool {
    &&& distinct_keys(elements)
    &&& forall|i: int| 0 <= i < elements.len() ==> element_valid(#[trigger] elements[i])
}

/// What holds of a draft that the lines of a header have made.
pub open spec fn draft_valid(draft: DraftView) -> bool {
    &&& lines_ok(obj_info_lines(draft.obj_infos))
    &&& lines_ok(comment_lines(draft.comments))
    &&& elements_valid(draft.elements)
}

/// What holds of a header that was read.
pub open spec fn header_valid(header: HeaderView) -> bool {
    draft_valid(draft_of(header))
}

/// A draft that takes lines about the object has their texts behind those
/// that it had.
pub proof fn lemma_take_obj_infos(draft: DraftView, texts: Seq<Seq<char>>)
    ensures
        draft_after(draft, obj_info_lines(texts)) == Some(
            DraftView { obj_infos: draft.obj_infos + texts, ..draft },
        ),
    decreases texts.len(),
{
    let lines = obj_info_lines(texts);
    if texts.len() == 0 {
        assert(draft.obj_infos + texts =~= draft.obj_infos);
    } else {
        let next = DraftView { obj_infos: draft.obj_infos.push(texts[0]), ..draft };
        assert(lines[0] == LineView::ObjInfo(texts[0]));
        assert(lines.drop_first() =~= obj_info_lines(texts.drop_first()));
        lemma_take_obj_infos(next, texts.drop_first());
        assert(next.obj_infos + texts.drop_first() =~= draft.obj_infos + texts);
    }
}

/// A draft that takes comment lines has their texts behind those that it
/// had.
pub proof fn lemma_take_comments(draft: DraftView, texts: Seq<Seq<char>>)
    ensures
        draft_after(draft, comment_lines(texts)) == Some(
            DraftView { comments: draft.comments + texts, ..draft },
        ),
    decreases texts.len(),
{
    let lines = comment_lines(texts);
    if texts.len() == 0 {
        assert(draft.comments + texts =~= draft.comments);
    } else {
        let next = DraftView { comments: draft.comments.push(texts[0]), ..draft };
        assert(lines[0] == LineView::Comment(texts[0]));
        assert(lines.drop_first() =~= comment_lines(texts.drop_first()));
        lemma_take_comments(next, texts.drop_first());
        assert(next.comments + texts.drop_first() =~= draft.comments + texts);
    }
}

/// The draft `draft` with the properties `properties` behind those of its
/// last element.
pub open spec fn with_properties(
    draft: DraftView,
    properties: Seq<(Seq<char>, PropertyDefView)>,
) -> DraftView {
    let (key, last) = draft.elements.last();
    DraftView {
        elements: draft.elements.update(
            draft.elements.len() - 1,
            (key, ElementDefView { properties: last.properties + properties, ..last }),
        ),
        ..draft
    }
}

/// A draft that takes the lines of properties has them behind the
/// properties of its last element, where the names of all of these differ.
pub proof fn lemma_take_properties(draft: DraftView, properties: Seq<(Seq<char>, PropertyDefView)>)
    requires
        draft.elements.len() > 0,
        distinct_keys(draft.elements.last().1.properties + properties),
        forall|j: int|
            0 <= j < properties.len() ==> (#[trigger] properties[j]).0 == properties[j].1.name,
    ensures
        draft_after(draft, property_lines(properties)) == Some(with_properties(draft, properties)),
    decreases properties.len(),
{
    let lines = property_lines(properties);
    let (key, last) = draft.elements.last();
    let n = draft.elements.len() as int;
    if properties.len() == 0 {
        assert(last.properties + properties =~= last.properties);
        assert(draft.elements.update(n - 1, (key, last)) =~= draft.elements);
    } else {
        let p = properties[0].1;
        let all = last.properties + properties;
        assert(lines[0] == LineView::Property(p));
        assert(lines.drop_first() =~= property_lines(properties.drop_first()));
        assert forall|j: int| 0 <= j < last.properties.len() implies (
        #[trigger] last.properties[j]).0 != p.name by {
            assert(all[j] == last.properties[j]);
            assert(all[last.properties.len() as int] == properties[0]);
        }
        lemma_position_is(last.properties, p.name, last.properties.len() as int);
        let grown = ElementDefView { properties: last.properties.push((p.name, p)), ..last };
        let next = DraftView { elements: draft.elements.update(n - 1, (key, grown)), ..draft };
        assert(header_step(draft, lines[0]) == Ok::<Option<DraftView>, ParseErrorView>(Some(next)));
        let others = properties.drop_first();
        assert(grown.properties + others =~= all);
        assert forall|j: int| 0 <= j < others.len() implies (#[trigger] others[j]).0
            == others[j].1.name by {
            assert(others[j] == properties[j + 1]);
        }
        lemma_take_properties(next, others);
        assert(with_properties(next, others).elements =~= with_properties(
            draft,
            properties,
        ).elements);
    }
}

/// A draft that takes the lines of elements has these elements behind those
/// that it had, where the names of all of them differ.
pub proof fn lemma_take_elements(draft: DraftView, elements: Seq<(Seq<char>, ElementDefView)>)
    requires
        distinct_keys(draft.elements + elements),
        forall|i: int| 0 <= i < elements.len() ==> element_valid(#[trigger] elements[i]),
    ensures
        draft_after(draft, element_lines(elements)) == Some(
            DraftView { elements: draft.elements + elements, ..draft },
        ),
    decreases elements.len(),
{
    if elements.len() == 0 {
        assert(draft.elements + elements =~= draft.elements);
    } else {
        let front = elements.drop_last();
        let (key, element) = elements.last();
        let all = draft.elements + elements;
        let before = draft.elements + front;
        assert forall|i: int, j: int| 0 <= i < j < before.len() implies (#[trigger] before[i]).0
            != (#[trigger] before[j]).0 by {
            assert(before[i] == all[i]);
            assert(before[j] == all[j]);
        }
        assert forall|i: int| 0 <= i < front.len() implies element_valid(#[trigger] front[i]) by {
            assert(front[i] == elements[i]);
        }
        lemma_take_elements(draft, front);
        let middle = DraftView { elements: before, ..draft };
        assert(element_valid(elements.last()));
        assert forall|j: int| 0 <= j < before.len() implies (#[trigger] before[j]).0
            != element.name by {
            assert(before[j] == all[j]);
            assert(all[all.len() - 1] == elements.last());
        }
        lemma_position_is(before, element.name, before.len() as int);
        let declared = DraftView { elements: before.push((element.name, bare(element))), ..draft };
        let one = seq![LineView::Element(bare(element))];
        assert(one.drop_first() =~= Seq::<LineView>::empty());
        assert(header_step(middle, one[0]) == Ok::<Option<DraftView>, ParseErrorView>(
            Some(declared),
        ));
        assert(draft_after(declared, one.drop_first()) == Some(declared));
        assert(draft_after(middle, one) == Some(declared));
        assert(Seq::<(Seq<char>, PropertyDefView)>::empty() + element.properties
            =~= element.properties);
        lemma_take_properties(declared, element.properties);
        let done = with_properties(declared, element.properties);
        assert(done.elements =~= all);
        lemma_draft_after_concat(draft, element_lines(front), one);
        lemma_draft_after_concat(
            draft,
            element_lines(front) + one,
            property_lines(element.properties),
        );
    }
}

/// Lines as the grammar gives them, in two parts, are such lines.
pub proof fn lemma_lines_ok_concat(a: Seq<LineView>, b: Seq<LineView>)
    requires
        lines_ok(a),
        lines_ok(b),
    ensures
        lines_ok(a + b),
{
    let s = a + b;
    assert forall|i: int| 0 <= i < s.len() implies line_ok(#[trigger] s[i]) by {
        if i < a.len() {
            assert(s[i] == a[i]);
        } else {
            assert(s[i] == b[i - a.len()]);
        }
    }
}

/// The lines that declare the elements of a header that was read are lines
/// as the grammar gives them.
pub proof fn lemma_element_lines_ok(elements: Seq<(Seq<char>, ElementDefView)>)
    requires
        forall|i: int| 0 <= i < elements.len() ==> element_valid(#[trigger] elements[i]),
    ensures
        lines_ok(element_lines(elements)),
    decreases elements.len(),
{
    if elements.len() > 0 {
        let front = elements.drop_last();
        let element = elements.last().1;
        assert forall|i: int| 0 <= i < front.len() implies element_valid(#[trigger] front[i]) by {
            assert(front[i] == elements[i]);
        }
        lemma_element_lines_ok(front);
        assert(element_valid(elements.last()));
        let one = seq![LineView::Element(bare(element))];
        assert(lines_ok(one));
        let more = property_lines(element.properties);
        assert forall|j: int| 0 <= j < more.len() implies line_ok(#[trigger] more[j]) by {
            assert(is_ident(element.properties[j].1.name));
        }
        lemma_lines_ok_concat(element_lines(front), one);
        lemma_lines_ok_concat(element_lines(front) + one, more);
    }
}

/// The lines of the body of a header that was read are lines as the grammar
/// gives them, and an empty draft that takes them makes the header.
pub proof fn lemma_body_lines(header: HeaderView)
    requires
        header_valid(header),
    ensures
        lines_ok(body_lines(header)),
        draft_after(DraftView::empty(), body_lines(header)) == Some(draft_of(header)),
{
    let f = (header.encoding, header.version);
    let one = seq![LineView::Format(f)];
    let infos = obj_info_lines(header.obj_infos);
    let comments = comment_lines(header.comments);
    let elements = element_lines(header.elements);
    let d0 = DraftView::empty();
    let d1 = DraftView { format: Some(f), ..d0 };
    let d2 = DraftView { obj_infos: header.obj_infos, ..d1 };
    let d3 = DraftView { comments: header.comments, ..d2 };
    let d4 = draft_of(header);
    assert(lines_ok(one));
    lemma_element_lines_ok(header.elements);
    lemma_lines_ok_concat(one, infos);
    lemma_lines_ok_concat(one + infos, comments);
    lemma_lines_ok_concat(one + infos + comments, elements);

    assert(one.drop_first() =~= Seq::<LineView>::empty());
    assert(draft_after(d1, one.drop_first()) == Some(d1));
    assert(draft_after(d0, one) == Some(d1));
    lemma_take_obj_infos(d1, header.obj_infos);
    assert(d1.obj_infos + header.obj_infos =~= header.obj_infos);
    lemma_take_comments(d2, header.comments);
    assert(d2.comments + header.comments =~= header.comments);
    assert(d3.elements + header.elements =~= header.elements);
    lemma_take_elements(d3, header.elements);
    lemma_draft_after_concat(d0, one, infos);
    lemma_draft_after_concat(d0, one + infos, comments);
    lemma_draft_after_concat(d0, one + infos + comments, elements);
}

/// Reading the canonical text of a header that is as `header_valid` says
/// gives that header and leaves what stands behind the text.
pub proof fn lemma_read_header_text(header: HeaderView, rest: Seq<u8>, line: usize)
    requires
        header_valid(header),
    ensures
        spec_read_header(header_text(header) + rest, line) matches Ok(out) && out.0 == header
            && out.1 == rest,
{
    let body = body_lines(header);
    let end = line_bytes(line_text(LineView::EndHeader));
    let tail = lines_bytes(body) + (end + rest);
    let bytes = header_text(header) + rest;
    assert(bytes =~= line_bytes(line_text(LineView::MagicNumber)) + tail);
    lemma_canonical_line(LineView::MagicNumber, tail);
    lemma_body_lines(header);
    let second = next_line_index(next_line_index(line));
    lemma_read_lines(body, end + rest, DraftView::empty(), second);
    lemma_canonical_line(LineView::EndHeader, rest);
    let draft = draft_of(header);
    assert(draft.header() == Some(header));
    assert(header_step(draft, LineView::EndHeader) == Ok::<Option<DraftView>, ParseErrorView>(
        None,
    ));
}

/// What `trim_start` leaves is the end of the text, and starts with no blank
/// or tab.
pub proof fn lemma_trim_start(s: Seq<char>) -> (k: int)
    ensures
        0 <= k <= s.len(),
        trim_start(s) == s.skip(k),
        trim_start(s).len() == 0 || !is_space(trim_start(s)[0]),
    decreases s.len(),
{
    if s.len() > 0 && is_space(s[0]) {
        let k = lemma_trim_start(s.drop_first());
        assert(s.drop_first().skip(k) =~= s.skip(k + 1));
        k + 1
    } else {
        assert(s.skip(0) =~= s);
        0
    }
}

/// What `trim_end` leaves ends in no blank or tab.
pub proof fn lemma_trim_end(s: Seq<char>)
    ensures
        trim_end(s).len() == 0 || !is_space(trim_end(s).last()),
    decreases s.len(),
{
    if s.len() > 0 && is_space(s.last()) {
        lemma_trim_end(s.drop_last());
    }
}

/// The text behind the first word of a line that ends in no blank or tab
/// holds no line break, and neither starts nor ends with a blank or a tab.
pub proof fn lemma_text_after_ok(k: Seq<char>, t: Seq<char>)
    requires
        t.len() == 0 || !is_space(t.last()),
    ensures
        text_after(k, t) matches Some(c) ==> !has_line_break(c) && (c.len() == 0 || is_trimmed(c)),
{
    if let Some(c) = text_after(k, t) {
        let n = k.len() as int;
        let j = lemma_trim_start(t.skip(n));
        assert(c =~= t.skip(n + j));
        if c.len() > 0 {
            assert(c.last() == t.last());
        }
        if has_line_break(c) {
            let i = choose|i: int| 0 <= i < c.len() && is_line_break(#[trigger] c[i]);
            assert(is_line_break(t[n + j + i]));
        }
    }
}

/// Every line that the grammar gives is as `line_ok` says.
pub proof fn lemma_spec_line_ok(s: Seq<char>)
    ensures
        spec_line(s) matches Ok(line) ==> line_ok(line),
{
    let t = trim_end(without_line_break(s));
    lemma_trim_end(without_line_break(s));
    lemma_text_after_ok("comment"@, t);
    lemma_text_after_ok("obj_info"@, t);
}

/// A line as the grammar gives it keeps a draft as `draft_valid` says.
pub proof fn lemma_header_step_valid(draft: DraftView, line: LineView)
    requires
        draft_valid(draft),
        line_ok(line),
    ensures
        header_step(draft, line) matches Ok(Some(next)) ==> draft_valid(next),
{
    if let Ok(Some(next)) = header_step(draft, line) {
        match line {
            LineView::ObjInfo(o) => {
                let before = obj_info_lines(draft.obj_infos);
                let after = obj_info_lines(next.obj_infos);
                assert forall|i: int| 0 <= i < after.len() implies line_ok(#[trigger] after[i]) by {
                    if i < before.len() {
                        assert(after[i] == before[i]);
                    }
                }
            },
            LineView::Comment(c) => {
                let before = comment_lines(draft.comments);
                let after = comment_lines(next.comments);
                assert forall|i: int| 0 <= i < after.len() implies line_ok(#[trigger] after[i]) by {
                    if i < before.len() {
                        assert(after[i] == before[i]);
                    }
                }
            },
            LineView::Element(e) => {
                lemma_position(draft.elements, e.name);
                assert forall|i: int, j: int| 0 <= i < j < next.elements.len() implies (
                #[trigger] next.elements[i]).0 != (#[trigger] next.elements[j]).0 by {
                    assert(next.elements[i] == draft.elements[i]);
                    if j < draft.elements.len() {
                        assert(next.elements[j] == draft.elements[j]);
                    }
                }
                assert forall|i: int| 0 <= i < next.elements.len() implies element_valid(
                    #[trigger] next.elements[i],
                ) by {
                    if i < draft.elements.len() {
                        assert(next.elements[i] == draft.elements[i]);
                    }
                }
            },
            LineView::Property(p) => {
                let n = draft.elements.len() as int;
                let (key, last) = draft.elements.last();
                let grown = next.elements[n - 1].1;
                lemma_position(last.properties, p.name);
                assert(element_valid(draft.elements[n - 1]));
                assert forall|i: int, j: int| 0 <= i < j < next.elements.len() implies (
                #[trigger] next.elements[i]).0 != (#[trigger] next.elements[j]).0 by {
                    assert(next.elements[i].0 == draft.elements[i].0);
                    assert(next.elements[j].0 == draft.elements[j].0);
                }
                assert forall|i: int, j: int| 0 <= i < j < grown.properties.len() implies (
                #[trigger] grown.properties[i]).0 != (#[trigger] grown.properties[j]).0 by {
                    assert(grown.properties[i] == last.properties[i]);
                    if j < last.properties.len() {
                        assert(grown.properties[j] == last.properties[j]);
                    }
                }
                assert forall|j: int| 0 <= j < grown.properties.len() implies (
                #[trigger] grown.properties[j]).0 == grown.properties[j].1.name && is_ident(
                    grown.properties[j].1.name,
                ) by {
                    if j < last.properties.len() {
                        assert(grown.properties[j] == last.properties[j]);
                    }
                }
                assert forall|i: int| 0 <= i < next.elements.len() implies element_valid(
                    #[trigger] next.elements[i],
                ) by {
                    if i < n - 1 {
                        assert(next.elements[i] == draft.elements[i]);
                    }
                }
            },
            _ => {},
        }
    }
}

/// A header that was read is as `header_valid` says.
pub proof fn lemma_header_rest_valid(bytes: Seq<u8>, draft: DraftView, line: usize)
    requires
        draft_valid(draft),
    ensures
        header_rest(bytes, draft, line) matches Ok(out) ==> header_valid(out.0),
    decreases bytes.len(),
{
    if bytes.len() > 0 {
        let raw = first_line(bytes);
        if let Ok(l) = spec_classify(raw) {
            lemma_spec_line_ok(text_of(raw)->Some_0);
            lemma_header_step_valid(draft, l);
            match header_step(draft, l) {
                Ok(Some(next)) => {
                    lemma_line_end(bytes);
                    lemma_header_rest_valid(after_first_line(bytes), next, next_line_index(line));
                },
                Ok(None) => {
                    if let Some(h) = draft.header() {
                        assert(draft_of(h) == draft);
                    }
                },
                _ => {},
            }
        }
    }
}

/// Every header that is read is as `header_valid` says.
pub proof fn lemma_read_header_valid(bytes: Seq<u8>, line: usize)
    ensures
        spec_read_header(bytes, line) matches Ok(out) ==> header_valid(out.0),
{
    let first = next_line_index(line);
    assert(draft_valid(DraftView::empty()));
    lemma_header_rest_valid(after_first_line(bytes), DraftView::empty(), next_line_index(first));
}

/// Reading the canonical text of a header that was read gives that header
/// again, and leaves what stands behind the text.
pub proof fn lemma_header_round_trip(bytes: Seq<u8>, line: usize, rest: Seq<u8>, again: usize)
    requires
        spec_read_header(bytes, line) is Ok,
    ensures
        spec_read_header(header_text(spec_read_header(bytes, line)->Ok_0.0) + rest, again)
            matches Ok(out) && out.0 == spec_read_header(bytes, line)->Ok_0.0 && out.1 == rest,
{
    let header = spec_read_header(bytes, line)->Ok_0.0;
    lemma_read_header_valid(bytes, line);
    lemma_read_header_text(header, rest, again);
}

} // verus!
