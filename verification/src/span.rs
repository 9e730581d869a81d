//! Byte offsets and half-open byte ranges into a source text.

use vstd::prelude::*;
use vstd::string::StringSliceAdditionalSpecFns;

verus! {

/// A byte offset into a source text.
#[derive(Debug, Clone, Copy, PartialEq, Eq, Structural, PartialOrd, Ord, Hash)]
pub struct TextSize {
    pub raw: u32,
}

/// A half-open byte range `[start, end)` into a source text.
#[derive(Debug, Clone, Copy, PartialEq, Eq, Structural, Hash)]
pub struct TextRange {
    pub start: TextSize,
    pub end: TextSize,
}

impl TextSize {
    pub fn new(raw: u32) -> (r: TextSize)
        ensures
            r.raw == raw,
    {
        TextSize { raw }
    }

    /// The offset as a plain integer.
    pub fn raw(&self) -> (r: u32)
        ensures
            r == self.raw,
    {
        self.raw
    }
}

/// The bytes of `s` that lie in the range `[lo, hi)`.
pub open spec fn bytes_in(s: Seq<u8>, lo: int, hi: int) -> Seq<u8> {
    s.subrange(lo, hi)
}

/// A byte offset of `bytes` that starts a character (or is the end).
pub open spec fn on_boundary(bytes: Seq<u8>, i: int) -> bool {
    vstd::utf8::is_char_boundary(bytes, i)
}

impl TextRange {
    /// The start offset as an integer.
    pub open spec fn lo(self) -> int {
        self.start.raw as int
    }

    /// The end offset as an integer.
    pub open spec fn hi(self) -> int {
        self.end.raw as int
    }

    /// The range lies within a text of `len` bytes and is not reversed.
    pub open spec fn within(self, len: int) -> bool {
        0 <= self.lo() <= self.hi() <= len
    }

    pub fn new(start: TextSize, end: TextSize) -> (r: TextRange)
        requires
            start.raw <= end.raw,
        ensures
            r.start == start,
            r.end == end,
    {
        TextRange { start, end }
    }

    /// The range from offset `start` to offset `end`.
    pub open spec fn spec_at(start: u32, end: u32) -> TextRange {
        TextRange { start: TextSize { raw: start }, end: TextSize { raw: end } }
    }

    /// The range from offset `start` to offset `end`.
    pub fn at(start: u32, end: u32) -> (r: TextRange)
        requires
            start <= end,
        ensures
            r == TextRange::spec_at(start, end),
    {
        TextRange { start: TextSize { raw: start }, end: TextSize { raw: end } }
    }

    /// The empty range at `offset`.
    pub fn empty(offset: TextSize) -> (r: TextRange)
        ensures
            r.start == offset,
            r.end == offset,
    {
        TextRange { start: offset, end: offset }
    }

    pub fn start(&self) -> (r: TextSize)
        ensures
            r == self.start,
    {
        self.start
    }

    pub fn end(&self) -> (r: TextSize)
        ensures
            r == self.end,
    {
        self.end
    }

    /// The number of bytes covered.
    pub fn len(&self) -> (r: u32)
        requires
            self.start.raw <= self.end.raw,
        ensures
            r == self.end.raw - self.start.raw,
    {
        self.end.raw - self.start.raw
    }

    pub fn is_empty(&self) -> (r: bool)
        ensures
            r == (self.start.raw == self.end.raw),
    {
        self.start.raw == self.end.raw
    }

    /// The range moved forward by `offset` bytes.
    pub fn shifted(&self, offset: TextSize) -> (r: TextRange)
        requires
            self.start.raw <= self.end.raw,
            self.end.raw + offset.raw <= u32::MAX,
        ensures
            r.start.raw == self.start.raw + offset.raw,
            r.end.raw == self.end.raw + offset.raw,
    {
        TextRange {
            start: TextSize { raw: self.start.raw + offset.raw },
            end: TextSize { raw: self.end.raw + offset.raw },
        }
    }

    /// The part of `text` covered by the range, or `None` when the range runs
    /// past the end of `text`, is reversed, or cuts through a character.
    pub fn slice<'a>(&self, text: &'a str) -> (r: Option<&'a str>)
        ensures
            r is Some <==> {
                &&& self.lo() <= self.hi() <= text.spec_bytes().len()
                &&& on_boundary(text.spec_bytes(), self.lo())
                &&& on_boundary(text.spec_bytes(), self.hi())
            },
            r matches Some(t) ==> t.spec_bytes() == bytes_in(
                text.spec_bytes(),
                self.lo(),
                self.hi(),
            ),
    {
        slice_str(text, self.start.raw as usize, self.end.raw as usize)
    }
}

/// The part of `text` between byte offsets `lo` and `hi`, when both are
/// character boundaries with `lo <= hi <= text.len()`.
pub fn slice_str<'a>(text: &'a str, lo: usize, hi: usize) -> (r: Option<&'a str>)
    ensures
        r is Some <==> {
            &&& lo <= hi <= text.spec_bytes().len()
            &&& on_boundary(text.spec_bytes(), lo as int)
            &&& on_boundary(text.spec_bytes(), hi as int)
        },
        r matches Some(t) ==> t.spec_bytes() == bytes_in(text.spec_bytes(), lo as int, hi as int),
{
    proof {
        vstd::utf8::encode_utf8_valid_utf8(text@);
    }
    let n = text.as_bytes().len();
    if lo > hi || hi > n {
        return None;
    }
    if !text.is_char_boundary(lo) || !text.is_char_boundary(hi) {
        return None;
    }
    let (head, _) = text.split_at(hi);
    proof {
        lemma_boundary_in_prefix(text.spec_bytes(), lo as int, hi as int);
    }
    let (_, mid) = head.split_at(lo);
    Some(mid)
}

/// A character boundary before a character boundary `hi` stays a boundary of
/// the prefix that ends at `hi`.
pub proof fn lemma_boundary_in_prefix(bytes: Seq<u8>, lo: int, hi: int)
    requires
        vstd::utf8::valid_utf8(bytes),
        0 <= lo <= hi <= bytes.len(),
        on_boundary(bytes, lo),
        on_boundary(bytes, hi),
    ensures
        vstd::utf8::valid_utf8(bytes.subrange(0, hi)),
        on_boundary(bytes.subrange(0, hi), lo),
{
    let p = bytes.subrange(0, hi);
    vstd::utf8::valid_utf8_split(bytes, hi);
    if lo == hi {
        vstd::utf8::is_char_boundary_start_end_of_seq(p);
    } else {
        vstd::utf8::is_char_boundary_iff_not_is_continuation_byte(bytes, lo);
        vstd::utf8::is_char_boundary_iff_not_is_continuation_byte(p, lo);
        assert(p[lo] == bytes[lo]);
    }
}

} // verus!
