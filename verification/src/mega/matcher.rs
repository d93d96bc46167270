//! The input side of pattern matching: the invocation region as characters,
//! with the byte offsets that map match positions back to spans of the
//! source text, and the match failure a pattern match reports.

use vstd::prelude::*;
use vstd::utf8::{char_is_scalar, encode_scalar, encode_utf8};

use crate::text::chars_of;

verus! {

/// The input to one pattern match: the region as characters plus the byte
/// offsets that map match positions back to spans of the source text.
pub struct MatchRegion<'a> {
    pub source: &'a str,
    /// Byte offset of the region's first character in `source`.
    pub base: usize,
    pub chars: Vec<char>,
    /// Byte offset of each character within the region.
    pub byte_offsets: Vec<usize>,
    /// The region's total byte length.
    pub byte_len: usize,
}

/// The length in bytes of the UTF-8 encoding of `s`.
pub open spec fn utf8_len(s: Seq<char>) -> nat {
    encode_utf8(s).len()
}

pub proof fn lemma_utf8_len_push(s: Seq<char>, c: char)
    ensures
        utf8_len(s.push(c)) == utf8_len(s) + encode_scalar(c as u32).len(),
    decreases s.len(),
{
    if s.len() == 0 {
        assert(s.push(c).drop_first() =~= Seq::<char>::empty());
        assert(encode_utf8(Seq::<char>::empty()) =~= Seq::<u8>::empty());
    } else {
        assert(s.push(c).drop_first() =~= s.drop_first().push(c));
        lemma_utf8_len_push(s.drop_first(), c);
    }
}

/// A prefix never encodes to more bytes than the whole.
pub proof fn lemma_utf8_len_prefix(s: Seq<char>, i: int)
    requires
        0 <= i <= s.len(),
    ensures
        utf8_len(s.take(i)) <= utf8_len(s),
    decreases s.len() - i,
{
    if i < s.len() {
        assert(s.take(i + 1) =~= s.take(i).push(s[i]));
        lemma_utf8_len_push(s.take(i), s[i]);
        lemma_utf8_len_prefix(s, i + 1);
    } else {
        assert(s.take(i) =~= s);
    }
}

/// The number of bytes in the UTF-8 encoding of `c`.
pub fn char_utf8_width(c: char) -> (w: usize)
    ensures
        w == encode_scalar(c as u32).len(),
        1 <= w <= 4,
{
    proof {
        char_is_scalar(c);
    }
    let v = c as u32;
    if v < 0x80 {
        1
    } else if v < 0x800 {
        2
    } else if v < 0x10000 {
        3
    } else {
        4
    }
}

impl<'a> MatchRegion<'a> {
    /// Builds the match input from the region slice of `source`.
    pub fn new(source: &'a str, base: usize, region: &'a str) -> (r: Self)
        ensures
            r.source@ == source@,
            r.base == base,
            r.chars@ == region@,
            r.byte_offsets@.len() == region@.len(),
            forall|i: int|
                0 <= i < region@.len() ==> #[trigger] r.byte_offsets@[i] == utf8_len(region@.take(i)),
            r.byte_len == utf8_len(region@),
    {
        let total = region.as_bytes().len();
        assert(total == utf8_len(region@));
        let chars = chars_of(region);
        let mut byte_offsets: Vec<usize> = Vec::new();
        let mut offset: usize = 0;
        let mut i: usize = 0;
        while i < chars.len()
            invariant
                chars@ == region@,
                i <= chars@.len(),
                byte_offsets@.len() == i,
                forall|k: int| 0 <= k < i ==> #[trigger] byte_offsets@[k] == utf8_len(region@.take(k)),
                offset == utf8_len(region@.take(i as int)),
                utf8_len(region@) <= usize::MAX,
            decreases chars.len() - i,
        {
            byte_offsets.push(offset);
            let w = char_utf8_width(chars[i]);
            proof {
                assert(region@.take(i + 1) =~= region@.take(i as int).push(region@[i as int]));
                lemma_utf8_len_push(region@.take(i as int), region@[i as int]);
                lemma_utf8_len_prefix(region@, i + 1);
            }
            offset = offset + w;
            i += 1;
        }
        assert(region@.take(i as int) =~= region@);
        MatchRegion { source, base, chars, byte_offsets, byte_len: region.len() }
    }
}

/// A pattern match failure: the furthest position reached (character index
/// and region-relative byte offset) plus the diagnostic message.
pub struct MatchFailure {
    pub position: usize,
    pub byte_offset: usize,
    pub message: String,
}

// ---------------------------------------------------------------------------
// Line and column arithmetic
// ---------------------------------------------------------------------------

/// The column after `c` when it sits at column `col` (tab stops every 8).
pub open spec fn advance_col(col: int, c: char) -> int {
    if c == '\t' {
        (col / 8 + 1) * 8
    } else {
        col + 1
    }
}

/// A tab moves to the next tab stop, a multiple of eight strictly past the
/// current column and at most eight further; any other character moves one
/// column on.
pub proof fn lemma_tab_reaches_the_next_stop(col: int, c: char)
    requires
        0 <= col,
    ensures
        c == '\t' ==> advance_col(col, c) % 8 == 0 && col < advance_col(col, c) <= col + 8,
        c != '\t' ==> advance_col(col, c) == col + 1,
{
}

/// The column reached just before index `i`: line terminators reset it, and
/// the `\n` of a `\r\n` pair stays at the column of its `\r`.
pub open spec fn col_before(chars: Seq<char>, i: int) -> int
    decreases i,
{
    if i <= 0 {
        0
    } else {
        let p = chars[i - 1];
        if p == '\r' && i < chars.len() && chars[i] == '\n' {
            col_before(chars, i - 1)
        } else if p == '\r' || p == '\n' {
            0
        } else {
            advance_col(col_before(chars, i - 1), p)
        }
    }
}

/// The column recorded for the character at `i`: a line terminator keeps
/// the column before it, any other character the column after it.
pub open spec fn col_at(chars: Seq<char>, i: int) -> int {
    if chars[i] == '\r' || chars[i] == '\n' {
        col_before(chars, i)
    } else {
        advance_col(col_before(chars, i), chars[i])
    }
}

/// A line ends just past `j`: a `\r`, or a `\n` that does not complete a
/// `\r\n` pair.
pub open spec fn ends_line(chars: Seq<char>, j: int) -> bool {
    chars[j] == '\r' || (chars[j] == '\n' && !(j > 0 && chars[j - 1] == '\r'))
}

/// The positions just past each line terminator among the first `k`
/// characters.
pub open spec fn line_ends_upto(chars: Seq<char>, k: int) -> Seq<usize>
    decreases k,
{
    if k <= 0 {
        seq![]
    } else if ends_line(chars, k - 1) {
        line_ends_upto(chars, k - 1).push(k as usize)
    } else {
        line_ends_upto(chars, k - 1)
    }
}

/// The first entry of `ends` that is at least `pos` (strictly greater when
/// `strict`).
pub open spec fn first_end_from(ends: Seq<usize>, pos: int, strict: bool) -> Option<usize>
    decreases ends.len(),
{
    if ends.len() == 0 {
        None
    } else if ends[0] > pos || (!strict && ends[0] == pos) {
        Some(ends[0])
    } else {
        first_end_from(ends.drop_first(), pos, strict)
    }
}

/// A line/column map over a region (tab stops every 8 columns).
pub struct LineMap {
    pub col_of: Vec<usize>,
    /// The index just past the terminator ending each line, then the
    /// region's length.
    pub line_ends: Vec<usize>,
}

pub proof fn lemma_col_before_bound(chars: Seq<char>, i: int)
    requires
        0 <= i <= chars.len(),
    ensures
        0 <= col_before(chars, i) <= 8 * i,
    decreases i,
{
    if i > 0 {
        lemma_col_before_bound(chars, i - 1);
        let c = col_before(chars, i - 1);
        assert((c / 8 + 1) * 8 <= c + 8 && (c / 8 + 1) * 8 > c) by (nonlinear_arith)
            requires
                c >= 0,
        ;
    }
}

impl LineMap {
    /// Builds the map: each character's column and each line's end.
    pub fn build(chars: &[char]) -> (m: LineMap)
        requires
            chars@.len() <= usize::MAX / 8 - 1,
        ensures
            m.col_of@.len() == chars@.len(),
            forall|i: int| 0 <= i < chars@.len() ==> #[trigger] m.col_of@[i] == col_at(chars@, i),
            m.line_ends@ == line_ends_upto(chars@, chars@.len() as int).push(chars@.len() as usize),
    {
        let n = chars.len();
        let mut col_of: Vec<usize> = Vec::new();
        let mut line_ends: Vec<usize> = Vec::new();
        let mut col: usize = 0;
        let mut index: usize = 0;
        while index < n
            invariant
                n == chars@.len(),
                n <= usize::MAX / 8 - 1,
                index <= n,
                col_of@.len() == index,
                forall|i: int| 0 <= i < index ==> #[trigger] col_of@[i] == col_at(chars@, i),
                line_ends@ == line_ends_upto(chars@, index as int),
                col == col_before(chars@, index as int),
                index > 0 && index < n ==> !(chars@[index - 1] == '\r' && chars@[index as int] == '\n'),
            decreases n - index,
        {
            proof {
                lemma_col_before_bound(chars@, index as int);
            }
            let c = chars[index];
            if c == '\r' {
                col_of.push(col);
                index += 1;
                line_ends.push(index);
                if index < n && chars[index] == '\n' {
                    col_of.push(col);
                    index += 1;
                    assert(line_ends_upto(chars@, index as int) == line_ends_upto(chars@, index - 1));
                }
                col = 0;
            } else if c == '\n' {
                col_of.push(col);
                index += 1;
                line_ends.push(index);
                col = 0;
            } else {
                if c == '\t' {
                    col = (col / 8 + 1) * 8;
                } else {
                    col += 1;
                }
                col_of.push(col);
                index += 1;
            }
        }
        line_ends.push(n);
        LineMap { col_of, line_ends }
    }

    /// The column recorded at `pos`, or 0 past the end.
    pub fn col(&self, pos: usize) -> (c: usize)
        ensures
            c == (if pos < self.col_of@.len() {
                self.col_of@[pos as int]
            } else {
                0
            }),
    {
        if pos < self.col_of.len() {
            self.col_of[pos]
        } else {
            0
        }
    }

    fn first_end(&self, pos: usize, strict: bool) -> (r: usize)
        ensures
            r == match first_end_from(self.line_ends@, pos as int, strict) {
                Some(e) => e,
                None => self.col_of@.len() as usize,
            },
    {
        let mut k: usize = 0;
        assert(self.line_ends@.skip(0) =~= self.line_ends@);
        while k < self.line_ends.len()
            invariant
                k <= self.line_ends@.len(),
                first_end_from(self.line_ends@, pos as int, strict) == first_end_from(
                    self.line_ends@.skip(k as int),
                    pos as int,
                    strict,
                ),
            decreases self.line_ends.len() - k,
        {
            let e = self.line_ends[k];
            assert(self.line_ends@.skip(k as int)[0] == e);
            if e > pos || (!strict && e == pos) {
                return e;
            }
            assert(self.line_ends@.skip(k as int).drop_first() =~= self.line_ends@.skip(k + 1));
            k += 1;
        }
        self.col_of.len()
    }

    /// The first line end at or after `pos` (the region's length past the
    /// last one).
    pub fn line_end(&self, pos: usize) -> (r: usize)
        ensures
            r == match first_end_from(self.line_ends@, pos as int, false) {
                Some(e) => e,
                None => self.col_of@.len() as usize,
            },
    {
        self.first_end(pos, false)
    }

    /// The first line end strictly after `pos`: where the next line starts
    /// (the region's length past the last one).
    pub fn next_line_start(&self, pos: usize) -> (r: usize)
        ensures
            r == match first_end_from(self.line_ends@, pos as int, true) {
                Some(e) => e,
                None => self.col_of@.len() as usize,
            },
    {
        self.first_end(pos, true)
    }
}

} // verus!
