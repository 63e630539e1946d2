//! The input as a run of bytes, of which the readers take lines and blocks
//! from the front.

use vstd::prelude::*;
use vstd::string::StringSliceAdditionalSpecFns;
use vstd::utf8::{decode_utf8, valid_utf8};

verus! {

/// The byte that ends a line.
pub const LINE_FEED: u8 = 10;

/// The length of the first line of `bytes`: up to its line feed, the feed
/// counted, or all of `bytes` where none is left.
pub open spec fn line_end(bytes: Seq<u8>) -> nat
    decreases bytes.len(),
{
    if bytes.len() == 0 {
        0
    } else if bytes[0] == LINE_FEED {
        1
    } else {
        1 + line_end(bytes.drop_first())
    }
}

/// A line is no longer than what it is taken from, and not empty unless that
/// is.
pub proof fn lemma_line_end(bytes: Seq<u8>)
    ensures
        line_end(bytes) <= bytes.len(),
        bytes.len() > 0 ==> line_end(bytes) > 0,
    decreases bytes.len(),
{
    if bytes.len() > 0 && bytes[0] != LINE_FEED {
        lemma_line_end(bytes.drop_first());
    }
}

/// The first line of `bytes`, its line feed included.
pub open spec fn first_line(bytes: Seq<u8>) -> Seq<u8> {
    bytes.take(line_end(bytes) as int)
}

/// What follows the first line of `bytes`.
pub open spec fn after_first_line(bytes: Seq<u8>) -> Seq<u8> {
    bytes.skip(line_end(bytes) as int)
}

/// The text that `raw` encodes in UTF-8, if it encodes one.
pub open spec fn text_of(raw: Seq<u8>) -> Option<Seq<char>> {
    if valid_utf8(raw) {
        Some(decode_utf8(raw))
    } else {
        None
    }
}

/// The text that `raw` encodes in UTF-8, and no text where it encodes none.
pub open spec fn text_or_empty(raw: Seq<u8>) -> Seq<char> {
    match text_of(raw) {
        Some(text) => text,
        None => Seq::empty(),
    }
}

/// Takes the first line off the front of `reader`.
pub fn take_line<'a>(reader: &mut &'a [u8]) -> (raw: &'a [u8])
    ensures
        raw@ == first_line(old(reader)@),
        final(reader)@ == after_first_line(old(reader)@),
{
    let whole: &'a [u8] = *reader;
    let mut n: usize = 0;
    assert(whole@.skip(0) =~= whole@);
    while n < whole.len() && whole[n] != LINE_FEED
        invariant
            n <= whole@.len(),
            line_end(whole@) == n + line_end(whole@.skip(n as int)),
        decreases whole@.len() - n,
    {
        assert(whole@.skip(n as int).drop_first() =~= whole@.skip(n + 1));
        n = n + 1;
    }
    if n < whole.len() {
        n = n + 1;
    }
    let raw = vstd::slice::slice_subrange(whole, 0, n);
    *reader = vstd::slice::slice_subrange(whole, n, whole.len());
    raw
}

/// Takes `n` bytes off the front of `reader`, where it holds as many.
pub fn take_bytes<'a>(reader: &mut &'a [u8], n: usize) -> (r: Option<&'a [u8]>)
    ensures
        match r {
            Some(block) => n <= old(reader)@.len() && block@ == old(reader)@.take(n as int)
                && final(reader)@ == old(reader)@.skip(n as int),
            None => n > old(reader)@.len() && final(reader)@ == old(reader)@,
        },
{
    let whole: &'a [u8] = *reader;
    if n <= whole.len() {
        let block = vstd::slice::slice_subrange(whole, 0, n);
        *reader = vstd::slice::slice_subrange(whole, n, whole.len());
        Some(block)
    } else {
        None
    }
}

/// The text that `raw` encodes in UTF-8, if it encodes one.
///
/// This is `core::str::from_utf8`, which gives the bytes back as a string
/// where they are valid UTF-8 and fails where they are not. The contract is
/// not proved.
#[verifier::external_body]
pub(crate) fn utf8_text<'a>(raw: &'a [u8]) -> (r: Option<&'a str>)
    ensures
        match r {
            Some(text) => valid_utf8(raw@) && text.spec_bytes() == raw@,
            None => !valid_utf8(raw@),
        },
{
    core::str::from_utf8(raw).ok()
}

/// The text of a line, if the line is UTF-8.
pub fn line_text<'a>(raw: &'a [u8]) -> (r: Option<&'a str>)
    ensures
        match r {
            Some(text) => text_of(raw@) == Some(text@),
            None => text_of(raw@) is None,
        },
{
    let r = utf8_text(raw);
    proof {
        if let Some(text) = r {
            vstd::utf8::encode_utf8_decode_utf8(text@);
        }
    }
    r
}

/// The text of a line as a string of its own; empty if the line is no UTF-8.
pub fn line_string(raw: &[u8]) -> (r: String)
    ensures
        r@ == text_or_empty(raw@),
{
    match line_text(raw) {
        Some(text) => text.to_owned(),
        None => String::new(),
    }
}

} // verus!
