//! Line and column positions: a line is counted by the `\n` bytes before an
//! offset, a column by the bytes since the line began.

use vstd::prelude::*;
use vstd::string::StringSliceAdditionalSpecFns;

use crate::span::TextSize;

verus! {

/// A zero-based line and column.
#[derive(Debug, Clone, Copy, PartialEq, Eq, Structural)]
pub struct LineCol {
    pub line: u32,
    pub col: u32,
}

impl LineCol {
    pub fn new(line: u32, col: u32) -> (r: LineCol)
        ensures
            r.line == line,
            r.col == col,
    {
        LineCol { line, col }
    }
}

/// The offsets of the `\n` bytes of `b`, in order.
pub open spec fn newline_offsets(b: Seq<u8>) -> Seq<u32>
    decreases b.len(),
{
    if b.len() == 0 {
        Seq::empty()
    } else {
        let rest = newline_offsets(b.drop_last());
        if b.last() == 10 {
            rest.push((b.len() - 1) as u32)
        } else {
            rest
        }
    }
}

/// How many of the offsets `nl` lie before `off`: the line `off` is on.
pub open spec fn count_below(nl: Seq<u32>, off: int) -> nat
    decreases nl.len(),
{
    if nl.len() == 0 {
        0
    } else {
        count_below(nl.drop_last(), off) + if nl.last() < off {
            1nat
        } else {
            0nat
        }
    }
}

/// Where line `line` starts, given the newline offsets `nl`.
pub open spec fn line_start(nl: Seq<u32>, line: int) -> int {
    if line == 0 {
        0
    } else {
        nl[line - 1] + 1
    }
}

/// The line and column of offset `off`.
pub open spec fn line_col_of(nl: Seq<u32>, off: int) -> LineCol {
    let line = count_below(nl, off);
    LineCol { line: line as u32, col: (off - line_start(nl, line as int)) as u32 }
}

/// The newline offsets of a text, for mapping offsets to lines.
#[derive(Debug)]
pub struct LineIndex {
    newlines: Vec<u32>,
}

impl LineIndex {
    #[verifier::type_invariant]
    spec fn newlines_ascending(self) -> bool {
        ascending(self.newlines@)
    }
}

impl View for LineIndex {
    type V = Seq<u32>;

    closed spec fn view(&self) -> Seq<u32> {
        self.newlines@
    }
}

pub open spec fn ascending(nl: Seq<u32>) -> bool {
    forall|i: int, j: int| 0 <= i < j < nl.len() ==> nl[i] < nl[j]
}

proof fn lemma_newlines_ascending(b: Seq<u8>)
    requires
        b.len() <= u32::MAX + 1,
    ensures
        ascending(newline_offsets(b)),
        forall|i: int| 0 <= i < newline_offsets(b).len() ==> newline_offsets(b)[i] < b.len(),
    decreases b.len(),
{
    if b.len() > 0 {
        lemma_newlines_ascending(b.drop_last());
    }
}

proof fn lemma_count_prefix(nl: Seq<u32>, off: int, k: int)
    requires
        ascending(nl),
        0 <= k <= nl.len(),
        forall|i: int| 0 <= i < k ==> nl[i] < off,
        k < nl.len() ==> nl[k] >= off,
    ensures
        count_below(nl, off) == k,
    decreases nl.len(),
{
    if nl.len() > 0 {
        if k == nl.len() {
            lemma_count_prefix(nl.drop_last(), off, k - 1);
        } else {
            assert(nl.last() >= off) by {
                if nl.len() - 1 > k {
                    assert(nl[k] < nl[nl.len() - 1]);
                }
            }
            lemma_count_prefix(nl.drop_last(), off, k);
        }
    }
}

impl LineIndex {
    /// Indexes the lines of `text`.
    pub fn new(text: &str) -> (r: LineIndex)
        requires
            text.spec_bytes().len() <= u32::MAX,
        ensures
            r@ == newline_offsets(text.spec_bytes()),
    {
        let bytes = text.as_bytes();
        let mut newlines: Vec<u32> = Vec::new();
        let mut i: usize = 0;
        assert(bytes@.take(0) =~= Seq::<u8>::empty());
        while i < bytes.len()
            invariant
                i <= bytes@.len() <= u32::MAX,
                bytes@ == text.spec_bytes(),
                newlines@ == newline_offsets(bytes@.take(i as int)),
            decreases bytes@.len() - i,
        {
            proof {
                assert(bytes@.take(i + 1).drop_last() =~= bytes@.take(i as int));
            }
            if bytes[i] == 10 {
                newlines.push(i as u32);
            }
            i += 1;
        }
        assert(bytes@.take(bytes@.len() as int) =~= bytes@);
        proof {
            lemma_newlines_ascending(bytes@);
        }
        LineIndex { newlines }
    }

    /// The line and column of `offset`.
    pub fn line_col(&self, offset: TextSize) -> (r: LineCol)
        ensures
            r == line_col_of(self@, offset.raw as int),
    {
        proof {
            use_type_invariant(self);
        }
        let off = offset.raw;
        let mut k: usize = 0;
        while k < self.newlines.len() && self.newlines[k] < off
            invariant
                k <= self@.len(),
                ascending(self@),
                forall|i: int| 0 <= i < k ==> self@[i] < off,
            decreases self@.len() - k,
        {
            k += 1;
        }
        proof {
            lemma_count_prefix(self@, off as int, k as int);
        }
        if k == 0 {
            LineCol { line: 0, col: off }
        } else {
            LineCol { line: k as u32, col: off - (self.newlines[k - 1] + 1) }
        }
    }
}

} // verus!
