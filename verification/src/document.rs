//! An open document: its text, as the editor keeps it up to date.
//!
//! The text is held in a rope, which Verus does not look inside: what a rope
//! holds, and what each operation on it does, is stated here as the rope's
//! documentation has it. The edits are verified against those statements.

use crop::Rope;
use lsp_types::Url;
use vstd::prelude::*;
use vstd::utf8::{encode_utf8, is_char_boundary};

verus! {

/// `crop::Rope`, opaque to the verifier.
#[verifier::external_type_specification]
#[verifier::external_body]
pub struct ExRope(Rope);

/// `lsp_types::Url`, opaque to the verifier.
#[verifier::external_type_specification]
#[verifier::external_body]
pub struct ExUrl(Url);

/// The text that a rope holds, as UTF-8 bytes.
pub uninterp spec fn rope_bytes(rope: Rope) -> Seq<u8>;

/// How many line feeds a text holds.
pub open spec fn line_feeds(text: Seq<u8>) -> nat
    decreases text.len(),
{
    if text.len() == 0 {
        0
    } else if text.last() == 10 {
        line_feeds(text.drop_last()) + 1
    } else {
        line_feeds(text.drop_last())
    }
}

/// The number of lines of a text. A line ends at a line feed; a last line
/// need not end at one.
pub open spec fn line_count(text: Seq<u8>) -> nat {
    if text.len() == 0 || text.last() == 10 {
        line_feeds(text)
    } else {
        line_feeds(text) + 1
    }
}

/// The offset just after the first line feed at or after `from`, or the
/// end of the text if there is none.
pub open spec fn after_line_feed(text: Seq<u8>, from: nat) -> nat
    decreases text.len() - from,
{
    if from >= text.len() {
        text.len()
    } else if text[from as int] == 10 {
        from + 1
    } else {
        after_line_feed(text, from + 1)
    }
}

/// The byte offset at which a line of a text starts: the first at 0,
/// each other just after the line feed that ends the line before it, and
/// any line the text does not have at the end of the text.
pub open spec fn line_offset(text: Seq<u8>, line: nat) -> nat
    decreases line,
{
    if line == 0 {
        0
    } else {
        after_line_feed(text, line_offset(text, (line - 1) as nat))
    }
}

/// A line that starts at the end of a text is followed by lines that start
/// there too.
pub proof fn lemma_line_offset_at_end(text: Seq<u8>, line: nat, later: nat)
    requires
        line_offset(text, line) >= text.len(),
        line <= later,
    ensures
        line_offset(text, later) == line_offset(text, line),
    decreases later,
{
    if line < later {
        lemma_line_offset_at_end(text, line, (later - 1) as nat);
        lemma_line_offset_within(text, line);
    }
}

/// A line starts within the text or at its end.
pub proof fn lemma_line_offset_within(text: Seq<u8>, line: nat)
    ensures
        line_offset(text, line) <= text.len(),
    decreases line,
{
    if line > 0 {
        lemma_line_offset_within(text, (line - 1) as nat);
        lemma_after_line_feed_within(text, line_offset(text, (line - 1) as nat));
    }
}

/// The offset after a line feed is within the text or at its end.
pub proof fn lemma_after_line_feed_within(text: Seq<u8>, from: nat)
    requires
        from <= text.len(),
    ensures
        from <= after_line_feed(text, from) <= text.len(),
        from < text.len() ==> from < after_line_feed(text, from),
    decreases text.len() - from,
{
    if from < text.len() && text[from as int] != 10 {
        lemma_after_line_feed_within(text, from + 1);
    }
}

/// A text holds no more line feeds than bytes.
pub proof fn lemma_line_feeds_bound(text: Seq<u8>)
    ensures
        line_feeds(text) <= text.len(),
    decreases text.len(),
{
    if text.len() > 0 {
        lemma_line_feeds_bound(text.drop_last());
    }
}

/// The number of lines of `text`.
pub fn line_count_of(text: &[u8]) -> (lines: usize)
    ensures
        lines == line_count(text@),
{
    let mut feeds: usize = 0;
    let mut i: usize = 0;
    while i < text.len()
        invariant
            i <= text.len(),
            feeds <= i,
            feeds == line_feeds(text@.take(i as int)),
        decreases text.len() - i,
    {
        assert(text@.take(i + 1).drop_last() =~= text@.take(i as int));
        if text[i] == 10 {
            feeds += 1;
        }
        i += 1;
    }
    assert(text@.take(text.len() as int) =~= text@);
    if text.len() == 0 || text[text.len() - 1] == 10 {
        feeds
    } else {
        proof {
            lemma_line_feeds_bound(text@.drop_last());
        }
        feeds + 1
    }
}

/// The byte offset at which the line `line` of `text` starts.
pub fn line_offset_of(text: &[u8], line: usize) -> (offset: usize)
    ensures
        offset == line_offset(text@, line as nat),
{
    let mut offset: usize = 0;
    let mut seen: usize = 0;
    while seen < line
        invariant
            seen <= line,
            offset <= text.len(),
            offset == line_offset(text@, seen as nat),
        decreases line - seen,
    {
        if offset >= text.len() {
            proof {
                lemma_line_offset_at_end(text@, seen as nat, line as nat);
            }
            return offset;
        }
        let mut at: usize = offset;
        while at < text.len() && text[at] != 10
            invariant
                offset <= at <= text.len(),
                after_line_feed(text@, offset as nat) == after_line_feed(text@, at as nat),
            decreases text.len() - at,
        {
            at += 1;
        }
        offset = if at < text.len() {
            at + 1
        } else {
            at
        };
        seen += 1;
    }
    offset
}

/// `Rope::from`: a rope that holds `text`.
#[verifier::external_body]
pub(crate) fn rope_from(text: String) -> (rope: Rope)
    ensures
        rope_bytes(rope) == encode_utf8(text@),
{
    Rope::from(text)
}

/// `Rope::to_string`: the text that the rope holds.
#[verifier::external_body]
pub(crate) fn rope_to_string(rope: &Rope) -> (text: String)
    ensures
        encode_utf8(text@) == rope_bytes(*rope),
{
    rope.to_string()
}

/// `Rope::byte_len`: the length of the rope's text in bytes.
#[verifier::external_body]
pub(crate) fn rope_byte_len(rope: &Rope) -> (len: usize)
    ensures
        len == rope_bytes(*rope).len(),
{
    rope.byte_len()
}

/// `Rope::line_len`: the number of lines of the rope's text. Only a line
/// feed ends a line, and a last line feed does not begin another line.
#[verifier::external_body]
pub(crate) fn rope_line_len(rope: &Rope) -> (lines: usize)
    ensures
        lines == line_count(rope_bytes(*rope)),
{
    rope.line_len()
}

/// `Rope::byte_of_line`: the byte offset at which the given line starts,
/// which for the line after the last is the end of the text. The rope
/// panics for a line further on.
#[verifier::external_body]
pub(crate) fn rope_byte_of_line(rope: &Rope, line: usize) -> (offset: usize)
    requires
        line <= line_count(rope_bytes(*rope)),
    ensures
        offset == line_offset(rope_bytes(*rope), line as nat),
{
    rope.byte_of_line(line)
}

/// `Rope::is_char_boundary`: whether a character starts at the byte
/// offset, or the text ends there. The rope panics for an offset beyond
/// the end of its text.
#[verifier::external_body]
pub(crate) fn rope_is_char_boundary(rope: &Rope, offset: usize) -> (boundary: bool)
    requires
        offset <= rope_bytes(*rope).len(),
    ensures
        boundary == is_char_boundary(rope_bytes(*rope), offset as int),
{
    rope.is_char_boundary(offset)
}

/// `Rope::replace`: puts `text` in the place of the bytes from `start` up
/// to `end`. The rope panics unless `start` and `end` are in order, within
/// the text and on character boundaries.
#[verifier::external_body]
pub(crate) fn rope_replace(rope: &mut Rope, start: usize, end: usize, text: &str)
    requires
        start <= end <= rope_bytes(*old(rope)).len(),
        is_char_boundary(rope_bytes(*old(rope)), start as int),
        is_char_boundary(rope_bytes(*old(rope)), end as int),
    ensures
        rope_bytes(*final(rope)) == rope_bytes(*old(rope)).subrange(0, start as int) + encode_utf8(
            text@,
        ) + rope_bytes(*old(rope)).subrange(end as int, rope_bytes(*old(rope)).len() as int),
{
    rope.replace(start..end, text)
}

/// A place in a document, as an editor names it.
#[derive(Clone, Copy, PartialEq, Eq, Structural, Debug)]
pub struct TextPosition {
    pub line: u32,
    pub character: u32,
}

/// A stretch of a document, from `start` up to `end`.
#[derive(Clone, Copy, PartialEq, Eq, Structural, Debug)]
pub struct TextRange {
    pub start: TextPosition,
    pub end: TextPosition,
}

/// One change that an editor reports. One without a stretch is passed over.
#[derive(Clone, PartialEq, Eq, Debug)]
pub struct Change {
    pub range: Option<TextRange>,
    pub text: String,
}

/// The byte offset that a position names in a text: as many bytes into
/// its line as the position has characters. `None` when the text has no
/// such line.
pub open spec fn offset_in(text: Seq<u8>, position: TextPosition) -> Option<nat> {
    if position.line <= line_count(text) {
        Some(line_offset(text, position.line as nat) + position.character as nat)
    } else {
        None
    }
}

/// The stretch names bytes of the text: both ends exist, are in order and
/// within the text, and lie on character boundaries.
pub open spec fn fits(text: Seq<u8>, range: TextRange) -> bool {
    &&& offset_in(text, range.start) matches Some(start)
    &&& offset_in(text, range.end) matches Some(end)
    &&& start <= end <= text.len()
    &&& is_char_boundary(text, start as int)
    &&& is_char_boundary(text, end as int)
}

/// The text with `new` in the place of the stretch.
pub open spec fn spliced(text: Seq<u8>, range: TextRange, new: Seq<char>) -> Seq<u8> {
    text.subrange(0, offset_in(text, range.start)->0 as int) + encode_utf8(new) + text.subrange(
        offset_in(text, range.end)->0 as int,
        text.len() as int,
    )
}

/// The text after one change, when the change fits.
pub open spec fn changed(text: Seq<u8>, change: Change) -> Option<Seq<u8>> {
    match change.range {
        None => Some(text),
        Some(range) => if fits(text, range) {
            Some(spliced(text, range, change.text@))
        } else {
            None
        },
    }
}

/// The text after the first `n` of `changes`, one after the other, when
/// each fits the text it meets.
pub open spec fn edited(text: Seq<u8>, changes: Seq<Change>, n: nat) -> Option<Seq<u8>>
    decreases n,
{
    if n == 0 || n > changes.len() {
        Some(text)
    } else {
        match edited(text, changes, (n - 1) as nat) {
            Some(before) => changed(before, changes[n - 1]),
            None => None,
        }
    }
}

/// What contracts say of a [`Doc`].
pub struct DocView {
    /// The text, as UTF-8 bytes.
    pub text: Seq<u8>,
    /// The version the editor gave the text.
    pub version: i32,
    /// Where the document is.
    pub uri: Url,
}

/// An open document.
#[derive(Debug)]
pub struct Doc {
    text: Rope,
    version: i32,
    uri: Url,
}

impl View for Doc {
    type V = DocView;

    closed spec fn view(&self) -> DocView {
        DocView { text: rope_bytes(self.text), version: self.version, uri: self.uri }
    }
}

impl Doc {
    /// The document that the editor opened at `uri`.
    pub fn new(text: String, uri: Url, version: i32) -> (doc: Doc)
        ensures
            doc@.text == encode_utf8(text@),
            doc@.version == version,
            doc@.uri == uri,
    {
        Doc { text: rope_from(text), version, uri }
    }

    /// Where the document is: the address it was opened at.
    pub fn uri(&self) -> (uri: &Url)
        ensures
            *uri == self@.uri,
    {
        &self.uri
    }

    /// The version the editor gave the text.
    pub fn version(&self) -> (version: i32)
        ensures
            version == self@.version,
    {
        self.version
    }

    /// The whole text.
    pub fn text(&self) -> (text: String)
        ensures
            encode_utf8(text@) == self@.text,
    {
        rope_to_string(&self.text)
    }

    /// The byte offset that `position` names, if the text has such a line
    /// and the offset can be written down.
    fn offset_of(&self, position: &TextPosition) -> (offset: Option<usize>)
        ensures
            match offset {
                Some(o) => offset_in(self@.text, *position) == Some(o as nat),
                None => offset_in(self@.text, *position) is None || offset_in(
                    self@.text,
                    *position,
                )->0 > usize::MAX,
            },
    {
        let line = position.line as usize;
        if line > rope_line_len(&self.text) {
            return None;
        }
        rope_byte_of_line(&self.text, line).checked_add(position.character as usize)
    }

    /// Whether the stretch `range` names bytes of the text.
    pub fn accepts(&self, range: &TextRange) -> (accepted: bool)
        ensures
            accepted == fits(self@.text, *range),
    {
        let len = rope_byte_len(&self.text);
        let start = match self.offset_of(&range.start) {
            Some(start) => start,
            None => {
                return false;
            },
        };
        let end = match self.offset_of(&range.end) {
            Some(end) => end,
            None => {
                return false;
            },
        };
        start <= end && end <= len && rope_is_char_boundary(&self.text, start)
            && rope_is_char_boundary(&self.text, end)
    }

    /// Puts `text` in the place of the stretch `range`.
    pub fn replace(&mut self, range: &TextRange, text: &str)
        requires
            fits(old(self)@.text, *range),
        ensures
            final(self)@.text == spliced(old(self)@.text, *range, text@),
            final(self)@.version == old(self)@.version,
            final(self)@.uri == old(self)@.uri,
    {
        let len = rope_byte_len(&self.text);
        let start = rope_byte_of_line(&self.text, range.start.line as usize)
            + range.start.character as usize;
        let end = rope_byte_of_line(&self.text, range.end.line as usize)
            + range.end.character as usize;
        rope_replace(&mut self.text, start, end, text);
    }

    /// Puts `text` in the place of the stretch `range`, if the stretch
    /// names bytes of the text; says whether it did.
    pub fn try_replace(&mut self, range: &TextRange, text: &str) -> (replaced: bool)
        ensures
            replaced == fits(old(self)@.text, *range),
            final(self)@.text == (if replaced {
                spliced(old(self)@.text, *range, text@)
            } else {
                old(self)@.text
            }),
            final(self)@.version == old(self)@.version,
            final(self)@.uri == old(self)@.uri,
    {
        if self.accepts(range) {
            self.replace(range, text);
            true
        } else {
            false
        }
    }

    /// Applies the changes an editor reports, one after the other, and
    /// takes the new version. A change without a stretch is passed over.
    /// At the first change that does not fit the text it meets, nothing
    /// more is done: the changes before it stay, the version does not,
    /// and the index of that change is returned.
    pub fn apply_changes(&mut self, changes: &Vec<Change>, version: i32) -> (failed: Option<usize>)
        ensures
            match failed {
                None => edited(old(self)@.text, changes@, changes@.len()) == Some(
                    final(self)@.text,
                ) && final(self)@.version == version,
                Some(i) => i < changes@.len() && edited(old(self)@.text, changes@, i as nat)
                    == Some(final(self)@.text) && changed(final(self)@.text, changes@[i as int])
                    is None && final(self)@.version == old(self)@.version,
            },
            final(self)@.uri == old(self)@.uri,
    {
        let mut i: usize = 0;
        while i < changes.len()
            invariant
                i <= changes.len(),
                edited(old(self)@.text, changes@, i as nat) == Some(self@.text),
                self@.version == old(self)@.version,
                self@.uri == old(self)@.uri,
            decreases changes.len() - i,
        {
            match &changes[i].range {
                Some(range) => {
                    if !self.try_replace(range, changes[i].text.as_str()) {
                        return Some(i);
                    }
                },
                None => {},
            }
            i += 1;
        }
        self.version = version;
        None
    }
}

} // verus!
