use std::ops::Range;
use vstd::prelude::*;

use crate::kind::SemanticToken;
use crate::token_set::SemanticTokenEntry;

verus! {

/// A position as a zero-based line (`row`) and a byte column within it.
#[derive(Clone, Copy, Debug, PartialEq, Eq, Structural)]
pub struct Point {
    pub row: usize,
    pub column: usize,
}

/// The offsets at which the lines of `text` start: 0, and every offset just
/// after a newline.
pub open spec fn line_starts(text: Seq<u8>) -> Seq<usize>
    decreases text.len(),
{
    if text.len() == 0 {
        seq![0usize]
    } else {
        let prev = line_starts(text.drop_last());
        if text.last() == 10u8 {
            prev.push(text.len() as usize)
        } else {
            prev
        }
    }
}

/// `p` is the position of `offset` given the line starts `starts`: the line
/// is the last one that starts at or before `offset`.
pub open spec fn is_point_of(starts: Seq<usize>, offset: usize, p: Point) -> bool {
    &&& p.row < starts.len()
    &&& starts[p.row as int] <= offset
    &&& p.row + 1 < starts.len() ==> offset < starts[p.row + 1]
    &&& p.column == offset - starts[p.row as int]
}

/// Line starts of a buffer snapshot, for turning offsets into points.
#[derive(Debug)]
pub struct LineIndex {
    starts: Vec<usize>,
}

/// A token entry resolved to line and column positions.
#[derive(Debug, PartialEq, Eq)]
pub struct PointEntry {
    pub range: Range<Point>,
    pub kind: SemanticToken,
}

impl LineIndex {
    pub closed spec fn starts_view(&self) -> Seq<usize> {
        self.starts@
    }

    /// The first line starts at 0 and the starts strictly increase.
    pub closed spec fn wf(&self) -> bool {
        &&& self.starts@.len() > 0
        &&& self.starts@[0] == 0
        &&& forall|i: int, j: int|
            0 <= i < j < self.starts@.len() ==> self.starts@[i] < self.starts@[j]
    }

    /// Indexes the lines of `text`, split at each newline byte.
    pub fn new(text: &[u8]) -> (r: LineIndex)
        ensures
            r.wf(),
            r.starts_view() == line_starts(text@),
    {
        let mut starts: Vec<usize> = Vec::new();
        starts.push(0);
        let mut i: usize = 0;
        assert(text@.take(0) =~= Seq::<u8>::empty());
        assert(starts@ =~= line_starts(text@.take(0)));
        while i < text.len()
            invariant
                i <= text.len(),
                starts@ == line_starts(text@.take(i as int)),
                starts@.len() > 0,
                starts@[0] == 0,
                forall|a: int, b: int| 0 <= a < b < starts@.len() ==> starts@[a] < starts@[b],
                starts@[starts@.len() - 1] <= i,
            decreases text.len() - i,
        {
            assert(text@.take(i as int + 1).drop_last() =~= text@.take(i as int));
            assert(text@.take(i as int + 1).last() == text@[i as int]);
            if text[i] == 10u8 {
                starts.push(i + 1);
            }
            i = i + 1;
        }
        assert(text@.take(text.len() as int) =~= text@);
        LineIndex { starts }
    }

    /// The point of `offset`: its line, and its distance from that line's
    /// start.
    pub fn point_at(&self, offset: usize) -> (r: Point)
        requires
            self.wf(),
        ensures
            is_point_of(self.starts_view(), offset, r),
    {
        let n = self.starts.len();
        let mut row: usize = 0;
        while row + 1 < n && self.starts[row + 1] <= offset
            invariant
                self.wf(),
                n == self.starts@.len(),
                row < self.starts@.len(),
                self.starts@[row as int] <= offset,
            decreases self.starts@.len() - row,
        {
            row = row + 1;
        }
        Point { row, column: offset - self.starts[row] }
    }
}

impl SemanticTokenEntry {
    /// This entry with both bounds converted to points of `lines`.
    pub fn resolve(&self, lines: &LineIndex) -> (r: PointEntry)
        requires
            lines.wf(),
        ensures
            is_point_of(lines.starts_view(), self.range.start, r.range.start),
            is_point_of(lines.starts_view(), self.range.end, r.range.end),
            r.kind == self.kind,
    {
        let start = lines.point_at(self.range.start);
        let end = lines.point_at(self.range.end);
        PointEntry { range: start..end, kind: self.kind }
    }
}

} // verus!
