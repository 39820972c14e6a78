//! Names as they are written and as they are looked up.

use vstd::prelude::*;

verus! {

/// Whether a character is white space: one of the characters that have the
/// Unicode property `White_Space`.
pub open spec fn whitespace(c: char) -> bool {
    let code = c as u32;
    ||| 0x09 <= code <= 0x0D
    ||| code == 0x20
    ||| code == 0x85
    ||| code == 0xA0
    ||| code == 0x1680
    ||| 0x2000 <= code <= 0x200A
    ||| code == 0x2028
    ||| code == 0x2029
    ||| code == 0x202F
    ||| code == 0x205F
    ||| code == 0x3000
}

/// `text` without the white space it begins with.
pub open spec fn trimmed_start(text: Seq<char>) -> Seq<char>
    decreases text.len(),
{
    if text.len() > 0 && whitespace(text[0]) {
        trimmed_start(text.subrange(1, text.len() as int))
    } else {
        text
    }
}

/// `text` without the white space it ends with.
pub open spec fn trimmed_end(text: Seq<char>) -> Seq<char>
    decreases text.len(),
{
    if text.len() > 0 && whitespace(text.last()) {
        trimmed_end(text.drop_last())
    } else {
        text
    }
}

/// `text` without the white space that leads and trails it.
pub open spec fn trimmed(text: Seq<char>) -> Seq<char> {
    trimmed_end(trimmed_start(text))
}

/// A text that neither begins nor ends with white space is its own name.
pub proof fn lemma_trimmed_plain(text: Seq<char>)
    requires
        text.len() > 0 ==> !whitespace(text[0]) && !whitespace(text.last()),
    ensures
        trimmed(text) == text,
{
}

/// Trimming what is trimmed changes nothing.
pub proof fn lemma_trimmed_twice(text: Seq<char>)
    ensures
        trimmed(trimmed(text)) == trimmed(text),
{
    lemma_trimmed_start_plain(text);
    let middle = trimmed_start(text);
    lemma_trimmed_end_plain(middle);
    let name = trimmed_end(middle);
    lemma_trimmed_end_keeps_start(middle);
    if name.len() > 0 {
        assert(name[0] == middle[0]);
    }
    lemma_trimmed_plain(name);
}

/// What is left after leading white space is removed does not begin with
/// white space.
pub proof fn lemma_trimmed_start_plain(text: Seq<char>)
    ensures
        trimmed_start(text).len() > 0 ==> !whitespace(trimmed_start(text)[0]),
    decreases text.len(),
{
    if text.len() > 0 && whitespace(text[0]) {
        lemma_trimmed_start_plain(text.subrange(1, text.len() as int));
    }
}

/// What is left after trailing white space is removed does not end with
/// white space.
pub proof fn lemma_trimmed_end_plain(text: Seq<char>)
    ensures
        trimmed_end(text).len() > 0 ==> !whitespace(trimmed_end(text).last()),
    decreases text.len(),
{
    if text.len() > 0 && whitespace(text.last()) {
        lemma_trimmed_end_plain(text.drop_last());
    }
}

/// Removing trailing white space leaves the beginning of a text in place.
pub proof fn lemma_trimmed_end_keeps_start(text: Seq<char>)
    ensures
        trimmed_end(text).len() <= text.len(),
        forall|i: int| 0 <= i < trimmed_end(text).len() ==> trimmed_end(text)[i] == text[i],
    decreases text.len(),
{
    if text.len() > 0 && whitespace(text.last()) {
        lemma_trimmed_end_keeps_start(text.drop_last());
        assert forall|i: int| 0 <= i < trimmed_end(text).len() implies trimmed_end(text)[i]
            == text[i] by {
            assert(text.drop_last()[i] == text[i]);
        }
    }
}

/// `str::trim`: the slice of `text` that is left when leading and trailing
/// white space is removed, white space being the characters with the
/// Unicode property `White_Space`.
#[verifier::external_body]
pub(crate) fn trim(text: &str) -> (name: &str)
    ensures
        name@ == trimmed(text@),
{
    text.trim()
}

/// Whether a character is white space.
pub fn is_whitespace(c: char) -> (white: bool)
    ensures
        white == whitespace(c),
{
    let code: u32 = c as u32;
    (0x09 <= code && code <= 0x0D) || code == 0x20 || code == 0x85 || code == 0xA0 || code
        == 0x1680 || (0x2000 <= code && code <= 0x200A) || code == 0x2028 || code == 0x2029
        || code == 0x202F || code == 0x205F || code == 0x3000
}

/// The name that a piece of source text stands for: the text without the
/// white space around it.
pub fn name_of(text: &str) -> (name: String)
    ensures
        name@ == trimmed(text@),
{
    trim(text).to_owned()
}

} // verus!
