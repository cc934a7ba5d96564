use std::ops::Range;
use vstd::prelude::*;

use crate::kind::SemanticToken;

verus! {

/// A classified span of a buffer, with both bounds given as offsets into the
/// buffer snapshot the token was resolved against.
#[derive(Debug, PartialEq, Eq)]
pub struct SemanticTokenEntry {
    pub range: Range<usize>,
    pub kind: SemanticToken,
}

/// Aggregate of a subtree: the range of its rightmost entry (`start`, `end`),
/// the tightest interval covering every entry (`min_start`, `max_end`), and the
/// number of entries (`count`).
#[derive(Clone, Copy, Debug, PartialEq, Eq)]
pub struct Summary {
    pub start: usize,
    pub end: usize,
    pub min_start: usize,
    pub max_end: usize,
    pub count: usize,
}

/// The summary of the empty subtree: it covers nothing, so it never passes an
/// overlap test and never widens a merge.
pub open spec fn zero_summary() -> Summary {
    Summary { start: 0, end: usize::MAX, min_start: usize::MAX, max_end: 0, count: 0 }
}

/// The summary of a single entry.
pub open spec fn summary_of(e: SemanticTokenEntry) -> Summary {
    Summary {
        start: e.range.start,
        end: e.range.end,
        min_start: e.range.start,
        max_end: e.range.end,
        count: 1,
    }
}

/// The summary of `a`'s entries followed by `b`'s.
pub open spec fn combine(a: Summary, b: Summary) -> Summary {
    Summary {
        start: b.start,
        end: b.end,
        min_start: if b.min_start < a.min_start { b.min_start } else { a.min_start },
        max_end: if b.max_end > a.max_end { b.max_end } else { a.max_end },
        count: (a.count + b.count) as usize,
    }
}

/// Whether entry `e` overlaps the query `qs..qe`: with `inclusive`, touching
/// endpoints count; without it, the overlap must be strict.
pub open spec fn overlaps(e: SemanticTokenEntry, qs: int, qe: int, inclusive: bool) -> bool {
    if inclusive {
        e.range.start <= qe && qs <= e.range.end
    } else {
        e.range.start < qe && qs < e.range.end
    }
}

/// The same test applied to a subtree's bounding interval.
pub open spec fn summary_passes(s: Summary, qs: int, qe: int, inclusive: bool) -> bool {
    if inclusive {
        qs <= s.max_end && qe >= s.min_start
    } else {
        qs < s.max_end && qe > s.min_start
    }
}

/// The entries of `s` that overlap the query, in their order in `s`.
pub open spec fn matching(s: Seq<SemanticTokenEntry>, qs: int, qe: int, inclusive: bool) -> Seq<
    SemanticTokenEntry,
>
    decreases s.len(),
{
    if s.len() == 0 {
        s
    } else {
        let m = matching(s.drop_last(), qs, qe, inclusive);
        if overlaps(s.last(), qs, qe, inclusive) {
            m.push(s.last())
        } else {
            m
        }
    }
}

/// `s` ordered by start, and by end descending among equal starts.
pub open spec fn sorted_by_start(s: Seq<SemanticTokenEntry>) -> bool {
    forall|i: int, j: int|
        0 <= i < j < s.len() ==> {
            ||| s[i].range.start < s[j].range.start
            ||| (s[i].range.start == s[j].range.start && s[i].range.end >= s[j].range.end)
        }
}

impl SemanticTokenEntry {
    pub fn new(range: Range<usize>, kind: SemanticToken) -> (r: SemanticTokenEntry)
        ensures
            r.range == range,
            r.kind == kind,
    {
        SemanticTokenEntry { range, kind }
    }

    /// A field-by-field copy.
    pub fn duplicate(&self) -> (r: SemanticTokenEntry)
        ensures
            r == *self,
    {
        SemanticTokenEntry { range: Range { start: self.range.start, end: self.range.end }, kind: self.kind }
    }

    /// The summary that a tree leaf holding this entry carries.
    pub fn summary(&self) -> (r: Summary)
        ensures
            r == summary_of(*self),
    {
        Summary {
            start: self.range.start,
            end: self.range.end,
            min_start: self.range.start,
            max_end: self.range.end,
            count: 1,
        }
    }
}

impl Default for Summary {
    fn default() -> (r: Summary)
        ensures
            r == zero_summary(),
    {
        Summary { start: 0, end: usize::MAX, min_start: usize::MAX, max_end: 0, count: 0 }
    }
}

impl Summary {
    /// The summary of the empty subtree.
    pub fn zero() -> (r: Summary)
        ensures
            r == zero_summary(),
    {
        Summary { start: 0, end: usize::MAX, min_start: usize::MAX, max_end: 0, count: 0 }
    }

    /// Extends this summary by the entries that `other` summarises, which
    /// follow this summary's entries.
    pub fn add_summary(&mut self, other: &Summary)
        requires
            old(self).count + other.count <= usize::MAX,
        ensures
            *final(self) == combine(*old(self), *other),
    {
        if other.min_start < self.min_start {
            self.min_start = other.min_start;
        }
        if other.max_end > self.max_end {
            self.max_end = other.max_end;
        }
        self.start = other.start;
        self.end = other.end;
        self.count = self.count + other.count;
    }
}

/// A node of the interval index: a leaf holds one entry; a branch holds two
/// non-empty subtrees and the summary of their entries.
#[derive(Debug)]
pub enum TokenNode {
    Leaf(SemanticTokenEntry),
    Branch(Box<TokenNode>, Box<TokenNode>, Summary),
}

impl TokenNode {
    /// The entries under this node, left to right.
    pub open spec fn entries(&self) -> Seq<SemanticTokenEntry>
        decreases self,
    {
        match self {
            TokenNode::Leaf(e) => seq![*e],
            TokenNode::Branch(l, r, _) => l.entries() + r.entries(),
        }
    }

    /// The summary this node carries.
    pub open spec fn summary_view(&self) -> Summary {
        match self {
            TokenNode::Leaf(e) => summary_of(*e),
            TokenNode::Branch(_, _, s) => *s,
        }
    }

    /// Every branch carries the combination of its children's summaries.
    pub open spec fn wf(&self) -> bool
        decreases self,
    {
        match self {
            TokenNode::Leaf(_) => true,
            TokenNode::Branch(l, r, s) => {
                &&& l.wf()
                &&& r.wf()
                &&& l.summary_view().count + r.summary_view().count <= usize::MAX
                &&& *s == combine(l.summary_view(), r.summary_view())
            },
        }
    }

    /// `(min_start, max_end)` is the tightest interval covering every entry,
    /// and `count` is the number of entries.
    pub open spec fn bounds_tight(&self) -> bool {
        bounds_tight_for(self.summary_view(), self.entries())
    }

    fn summary(&self) -> (r: Summary)
        ensures
            r == self.summary_view(),
    {
        match self {
            TokenNode::Leaf(e) => e.summary(),
            TokenNode::Branch(_, _, s) => *s,
        }
    }
}

/// `(s.min_start, s.max_end)` is the tightest interval covering every entry of
/// `es`, and `s.count` is the number of entries.
pub open spec fn bounds_tight_for(s: Summary, es: Seq<SemanticTokenEntry>) -> bool {
    &&& s.count == es.len()
    &&& forall|i: int|
        0 <= i < es.len() ==> s.min_start <= #[trigger] es[i].range.start && es[i].range.end
            <= s.max_end
    &&& exists|i: int| 0 <= i < es.len() && s.min_start == #[trigger] es[i].range.start
    &&& exists|i: int| 0 <= i < es.len() && s.max_end == #[trigger] es[i].range.end
}

/// Every subtree of a well-formed index is summarised exactly: no entry lies
/// outside its bounds, each bound is reached by some entry, and the count is
/// the number of entries.
pub proof fn lemma_subtree_bounds(node: &TokenNode)
    requires
        node.wf(),
    ensures
        node.bounds_tight(),
    decreases node,
{
    match node {
        TokenNode::Leaf(e) => {
            let es = node.entries();
            assert(es[0] == *e);
            assert(node.summary_view().min_start == es[0].range.start);
            assert(node.summary_view().max_end == es[0].range.end);
            assert(bounds_tight_for(node.summary_view(), es));
        },
        TokenNode::Branch(l, r, s) => {
            lemma_subtree_bounds(l);
            lemma_subtree_bounds(r);
            let le = l.entries();
            let re = r.entries();
            let es = node.entries();
            let ls = l.summary_view();
            let rs = r.summary_view();
            assert forall|i: int| 0 <= i < es.len() implies s.min_start <= #[trigger] es[i].range.start
                && es[i].range.end <= s.max_end by {
                if i < le.len() {
                    assert(es[i] == le[i]);
                } else {
                    assert(es[i] == re[i - le.len()]);
                }
            }
            if rs.min_start < ls.min_start {
                let j = choose|j: int| 0 <= j < re.len() && rs.min_start == #[trigger] re[j].range.start;
                assert(es[le.len() + j] == re[j]);
            } else {
                let j = choose|j: int| 0 <= j < le.len() && ls.min_start == #[trigger] le[j].range.start;
                assert(es[j] == le[j]);
            }
            if rs.max_end > ls.max_end {
                let j = choose|j: int| 0 <= j < re.len() && rs.max_end == #[trigger] re[j].range.end;
                assert(es[le.len() + j] == re[j]);
            } else {
                let j = choose|j: int| 0 <= j < le.len() && ls.max_end == #[trigger] le[j].range.end;
                assert(es[j] == le[j]);
            }
            assert(bounds_tight_for(*s, es));
        },
    }
}

/// Builds a balanced tree over `entries[lo..hi]`, keeping their order.
fn build(entries: &Vec<SemanticTokenEntry>, lo: usize, hi: usize) -> (r: Box<TokenNode>)
    requires
        lo < hi <= entries.len(),
    ensures
        r.wf(),
        r.entries() == entries@.subrange(lo as int, hi as int),
        r.summary_view().count == hi - lo,
    decreases hi - lo,
{
    if hi - lo == 1 {
        let e = entries[lo].duplicate();
        assert(entries@.subrange(lo as int, hi as int) =~= seq![e]);
        Box::new(TokenNode::Leaf(e))
    } else {
        let mid = lo + (hi - lo) / 2;
        let left = build(entries, lo, mid);
        let right = build(entries, mid, hi);
        let mut s = left.summary();
        s.add_summary(&right.summary());
        assert(entries@.subrange(lo as int, hi as int) =~= entries@.subrange(lo as int, mid as int)
            + entries@.subrange(mid as int, hi as int));
        Box::new(TokenNode::Branch(left, right, s))
    }
}

proof fn lemma_matching_add(
    a: Seq<SemanticTokenEntry>,
    b: Seq<SemanticTokenEntry>,
    qs: int,
    qe: int,
    inclusive: bool,
)
    ensures
        matching(a + b, qs, qe, inclusive) == matching(a, qs, qe, inclusive) + matching(
            b,
            qs,
            qe,
            inclusive,
        ),
    decreases b.len(),
{
    if b.len() == 0 {
        assert(a + b =~= a);
        assert(matching(a, qs, qe, inclusive) + matching(b, qs, qe, inclusive) =~= matching(
            a,
            qs,
            qe,
            inclusive,
        ));
    } else {
        assert((a + b).drop_last() =~= a + b.drop_last());
        assert((a + b).last() == b.last());
        lemma_matching_add(a, b.drop_last(), qs, qe, inclusive);
        let ma = matching(a, qs, qe, inclusive);
        let mb = matching(b.drop_last(), qs, qe, inclusive);
        assert((ma + mb).push(b.last()) =~= ma + mb.push(b.last()));
    }
}

proof fn lemma_matching_none(s: Seq<SemanticTokenEntry>, qs: int, qe: int, inclusive: bool)
    requires
        forall|i: int| 0 <= i < s.len() ==> !overlaps(#[trigger] s[i], qs, qe, inclusive),
    ensures
        matching(s, qs, qe, inclusive) == Seq::<SemanticTokenEntry>::empty(),
    decreases s.len(),
{
    if s.len() == 0 {
        assert(s =~= Seq::<SemanticTokenEntry>::empty());
    } else {
        assert(!overlaps(s[s.len() - 1], qs, qe, inclusive));
        lemma_matching_none(s.drop_last(), qs, qe, inclusive);
    }
}

proof fn lemma_matching_all(s: Seq<SemanticTokenEntry>, qs: int, qe: int, inclusive: bool)
    requires
        forall|i: int| 0 <= i < s.len() ==> overlaps(#[trigger] s[i], qs, qe, inclusive),
    ensures
        matching(s, qs, qe, inclusive) == s,
    decreases s.len(),
{
    if s.len() > 0 {
        assert(overlaps(s[s.len() - 1], qs, qe, inclusive));
        lemma_matching_all(s.drop_last(), qs, qe, inclusive);
        assert(s.drop_last().push(s.last()) =~= s);
    }
}

proof fn lemma_matching_contains(
    s: Seq<SemanticTokenEntry>,
    e: SemanticTokenEntry,
    qs: int,
    qe: int,
    inclusive: bool,
)
    ensures
        matching(s, qs, qe, inclusive).contains(e) <==> (s.contains(e) && overlaps(
            e,
            qs,
            qe,
            inclusive,
        )),
    decreases s.len(),
{
    if s.len() > 0 {
        let d = s.drop_last();
        lemma_matching_contains(d, e, qs, qe, inclusive);
        let m = matching(d, qs, qe, inclusive);
        assert(s =~= d.push(s.last()));
        if s.contains(e) {
            let i = choose|i: int| 0 <= i < s.len() && s[i] == e;
            if i < s.len() - 1 {
                assert(d[i] == e);
            }
        }
        if d.contains(e) {
            let i = choose|i: int| 0 <= i < d.len() && d[i] == e;
            assert(s[i] == e);
        }
        if overlaps(s.last(), qs, qe, inclusive) {
            let mp = m.push(s.last());
            if m.contains(e) {
                let i = choose|i: int| 0 <= i < m.len() && m[i] == e;
                assert(mp[i] == e);
            }
            if mp.contains(e) {
                let i = choose|i: int| 0 <= i < mp.len() && mp[i] == e;
                if i < m.len() {
                    assert(m[i] == e);
                }
            }
            assert(mp[m.len() as int] == s.last());
        }
        assert(s[s.len() - 1] == s.last());
    }
}

proof fn lemma_reverse_add(a: Seq<SemanticTokenEntry>, b: Seq<SemanticTokenEntry>)
    ensures
        (a + b).reverse() == b.reverse() + a.reverse(),
{
    assert((a + b).reverse() =~= b.reverse() + a.reverse());
}

proof fn lemma_reverse_reverse(s: Seq<SemanticTokenEntry>)
    ensures
        s.reverse().reverse() == s,
{
    assert(s.reverse().reverse() =~= s);
}

/// Appends the entries under `node` that overlap the query, in tree order or,
/// with `reversed`, in the opposite order. A subtree whose bounding interval
/// fails the overlap test is skipped without visiting its entries.
fn collect(
    node: &TokenNode,
    qs: usize,
    qe: usize,
    inclusive: bool,
    reversed: bool,
    out: &mut Vec<SemanticTokenEntry>,
)
    requires
        node.wf(),
    ensures
        final(out)@ == old(out)@ + (if reversed {
            matching(node.entries(), qs as int, qe as int, inclusive).reverse()
        } else {
            matching(node.entries(), qs as int, qe as int, inclusive)
        }),
    decreases node,
{
    let s = node.summary();
    let passes = if inclusive {
        qs <= s.max_end && qe >= s.min_start
    } else {
        qs < s.max_end && qe > s.min_start
    };
    if !passes {
        proof {
            lemma_subtree_bounds(node);
            let es = node.entries();
            assert forall|i: int| 0 <= i < es.len() implies !overlaps(
                #[trigger] es[i],
                qs as int,
                qe as int,
                inclusive,
            ) by {}
            lemma_matching_none(es, qs as int, qe as int, inclusive);
            assert(old(out)@ + Seq::<SemanticTokenEntry>::empty() =~= old(out)@);
            assert(Seq::<SemanticTokenEntry>::empty().reverse() =~= Seq::<SemanticTokenEntry>::empty());
        }
        return;
    }
    match node {
        TokenNode::Leaf(e) => {
            proof {
                let es = node.entries();
                assert(es.drop_last() =~= Seq::<SemanticTokenEntry>::empty());
                assert(es.last() == *e);
                assert(es.len() == 1);
                assert(overlaps(*e, qs as int, qe as int, inclusive));
                assert(matching(es.drop_last(), qs as int, qe as int, inclusive) =~= Seq::<
                    SemanticTokenEntry,
                >::empty());
                assert(matching(es, qs as int, qe as int, inclusive) =~= seq![*e]);
                assert(seq![*e].reverse() =~= seq![*e]);
            }
            out.push(e.duplicate());
            proof {
                assert(out@ =~= old(out)@ + seq![*e]);
            }
        },
        TokenNode::Branch(l, r, _) => {
            proof {
                lemma_matching_add(l.entries(), r.entries(), qs as int, qe as int, inclusive);
                lemma_reverse_add(
                    matching(l.entries(), qs as int, qe as int, inclusive),
                    matching(r.entries(), qs as int, qe as int, inclusive),
                );
            }
            if reversed {
                collect(r, qs, qe, inclusive, reversed, out);
                collect(l, qs, qe, inclusive, reversed, out);
            } else {
                collect(l, qs, qe, inclusive, reversed, out);
                collect(r, qs, qe, inclusive, reversed, out);
            }
            proof {
                let ml = matching(l.entries(), qs as int, qe as int, inclusive);
                let mr = matching(r.entries(), qs as int, qe as int, inclusive);
                assert(old(out)@ + mr.reverse() + ml.reverse() =~= old(out)@ + (mr.reverse()
                    + ml.reverse()));
                assert(old(out)@ + ml + mr =~= old(out)@ + (ml + mr));
            }
        },
    }
}

/// Relies on `slice::sort_unstable_by_key`: afterwards the vector holds the
/// same entries, in an order where `order_key` never decreases.
#[verifier::external_body]
fn sort_entries(v: &mut Vec<SemanticTokenEntry>)
    ensures
        final(v)@.to_multiset() == old(v)@.to_multiset(),
        forall|i: int, j: int|
            0 <= i < j < final(v)@.len() ==> key_le(
                order_key_of(final(v)@[i]),
                order_key_of(final(v)@[j]),
            ),
{
    v.sort_unstable_by_key(|e| e.order_key())
}

/// The lexicographic order of pairs, as `Ord` on tuples defines it.
pub open spec fn key_le(a: (usize, usize), b: (usize, usize)) -> bool {
    a.0 < b.0 || (a.0 == b.0 && a.1 <= b.1)
}

/// The sort key of an entry: its start ascending, then its end descending.
pub open spec fn order_key_of(e: SemanticTokenEntry) -> (usize, usize) {
    (e.range.start, (usize::MAX - e.range.end) as usize)
}

impl SemanticTokenEntry {
    /// The key by which entries are ordered in an index: longer entries
    /// come first among those that start at the same offset.
    pub fn order_key(&self) -> (r: (usize, usize))
        ensures
            r == order_key_of(*self),
    {
        (self.range.start, usize::MAX - self.range.end)
    }
}

/// An interval index over token entries: a balanced tree whose subtrees carry
/// the bounding interval of their entries, so that overlap queries skip every
/// subtree that cannot hold a match.
#[derive(Debug)]
pub struct SemanticTokenSet {
    root: Option<Box<TokenNode>>,
}

impl SemanticTokenSet {
    /// The entries of the index, in their stored order.
    pub closed spec fn entries(&self) -> Seq<SemanticTokenEntry> {
        match self.root {
            None => Seq::empty(),
            Some(n) => n.entries(),
        }
    }

    /// Every subtree's summary is the combination of its children's.
    pub closed spec fn wf(&self) -> bool {
        match self.root {
            None => true,
            Some(n) => n.wf(),
        }
    }

    /// The summary of the whole index.
    pub closed spec fn summary_view(&self) -> Summary {
        match self.root {
            None => zero_summary(),
            Some(n) => n.summary_view(),
        }
    }

    /// What `range` returns for the query `qs..qe`.
    pub open spec fn range_spec(&self, qs: int, qe: int, inclusive: bool, reversed: bool) -> Seq<
        SemanticTokenEntry,
    > {
        let m = matching(self.entries(), qs, qe, inclusive);
        if reversed {
            m.reverse()
        } else {
            m
        }
    }

    /// Builds the index from entries already ordered by start, and by end
    /// descending among equal starts; the order is kept as given.
    pub fn from_sorted_entries(entries: Vec<SemanticTokenEntry>) -> (r: SemanticTokenSet)
        ensures
            r.wf(),
            r.entries() == entries@,
    {
        if entries.len() == 0 {
            SemanticTokenSet { root: None }
        } else {
            let root = build(&entries, 0, entries.len());
            assert(entries@.subrange(0, entries@.len() as int) =~= entries@);
            SemanticTokenSet { root: Some(root) }
        }
    }

    /// Builds the index from entries in any order: they are first ordered by
    /// start, and by end descending among equal starts, so that an outer token
    /// comes before the tokens nested in it.
    pub fn new(entries: Vec<SemanticTokenEntry>) -> (r: SemanticTokenSet)
        ensures
            r.wf(),
            r.entries().to_multiset() == entries@.to_multiset(),
            sorted_by_start(r.entries()),
    {
        let mut entries = entries;
        sort_entries(&mut entries);
        assert forall|i: int, j: int| 0 <= i < j < entries@.len() implies {
            ||| entries@[i].range.start < entries@[j].range.start
            ||| (entries@[i].range.start == entries@[j].range.start && entries@[i].range.end
                >= entries@[j].range.end)
        } by {
            assert(key_le(order_key_of(entries@[i]), order_key_of(entries@[j])));
        }
        SemanticTokenSet::from_sorted_entries(entries)
    }

    /// The summary of all entries: the bounding interval and the count.
    pub fn summary(&self) -> (r: Summary)
        requires
            self.wf(),
        ensures
            r == self.summary_view(),
    {
        match &self.root {
            None => Summary::zero(),
            Some(n) => n.summary(),
        }
    }

    /// Number of entries.
    pub fn len(&self) -> (r: usize)
        requires
            self.wf(),
        ensures
            r == self.entries().len(),
    {
        match &self.root {
            None => 0,
            Some(n) => {
                proof {
                    lemma_subtree_bounds(n);
                }
                n.summary().count
            },
        }
    }

    /// The entries that overlap `range`, in stored order, or in the opposite
    /// order with `reversed`. With `inclusive`, an entry that only touches the
    /// query at an endpoint counts; without it, the overlap must be strict.
    pub fn range(&self, range: Range<usize>, inclusive: bool, reversed: bool) -> (r: Vec<
        SemanticTokenEntry,
    >)
        requires
            self.wf(),
        ensures
            r@ == self.range_spec(range.start as int, range.end as int, inclusive, reversed),
    {
        let mut out: Vec<SemanticTokenEntry> = Vec::new();
        match &self.root {
            None => {
                proof {
                    assert(out@ =~= Seq::<SemanticTokenEntry>::empty().reverse());
                }
            },
            Some(n) => {
                collect(n, range.start, range.end, inclusive, reversed, &mut out);
                assert(out@ =~= Seq::<SemanticTokenEntry>::empty() + self.range_spec(
                    range.start as int,
                    range.end as int,
                    inclusive,
                    reversed,
                ));
            },
        }
        out
    }
}

proof fn lemma_reverse_contains(s: Seq<SemanticTokenEntry>, e: SemanticTokenEntry)
    ensures
        s.reverse().contains(e) <==> s.contains(e),
{
    let r = s.reverse();
    if s.contains(e) {
        let i = choose|i: int| 0 <= i < s.len() && s[i] == e;
        assert(r[s.len() - 1 - i] == e);
    }
    if r.contains(e) {
        let i = choose|i: int| 0 <= i < r.len() && r[i] == e;
        assert(s[s.len() - 1 - i] == e);
    }
}

/// Building an index from ordered entries and querying it over all offsets,
/// inclusively and forwards, gives back exactly those entries in their order.
pub proof fn lemma_round_trip(entries: Seq<SemanticTokenEntry>, set: SemanticTokenSet)
    requires
        sorted_by_start(entries),
        set.wf(),
        set.entries() == entries,
    ensures
        set.range_spec(0, usize::MAX as int, true, false) == entries,
{
    assert forall|i: int| 0 <= i < entries.len() implies overlaps(
        #[trigger] entries[i],
        0,
        usize::MAX as int,
        true,
    ) by {}
    lemma_matching_all(entries, 0, usize::MAX as int, true);
}

/// An entry of the index is returned by a query, in either direction, exactly
/// when it overlaps the query: inclusively `start <= qe && end >= qs`, and
/// strictly `start < qe && end > qs`.
pub proof fn lemma_overlap_correctness(
    set: SemanticTokenSet,
    e: SemanticTokenEntry,
    qs: int,
    qe: int,
    inclusive: bool,
    reversed: bool,
)
    requires
        set.entries().contains(e),
    ensures
        set.range_spec(qs, qe, inclusive, reversed).contains(e) <==> (if inclusive {
            e.range.start <= qe && e.range.end >= qs
        } else {
            e.range.start < qe && e.range.end > qs
        }),
{
    lemma_matching_contains(set.entries(), e, qs, qe, inclusive);
    lemma_reverse_contains(matching(set.entries(), qs, qe, inclusive), e);
}

/// The summary of a well-formed index bounds every entry tightly and counts
/// them; an empty index has the empty summary.
pub proof fn lemma_summary_invariant(set: SemanticTokenSet)
    requires
        set.wf(),
    ensures
        set.entries().len() == 0 ==> set.summary_view() == zero_summary(),
        set.entries().len() > 0 ==> bounds_tight_for(set.summary_view(), set.entries()),
{
    match set.root {
        None => {},
        Some(n) => {
            lemma_subtree_bounds(&n);
            assert(n.entries().len() > 0) by {
                lemma_nonempty(&n);
            }
        },
    }
}

proof fn lemma_nonempty(node: &TokenNode)
    ensures
        node.entries().len() > 0,
    decreases node,
{
    match node {
        TokenNode::Leaf(_) => {},
        TokenNode::Branch(l, r, _) => {
            lemma_nonempty(l);
        },
    }
}

/// A forward query, reversed, is the backward query, and the other way round.
pub proof fn lemma_reversed_symmetry(set: SemanticTokenSet, qs: int, qe: int, inclusive: bool)
    ensures
        set.range_spec(qs, qe, inclusive, false).reverse() == set.range_spec(
            qs,
            qe,
            inclusive,
            true,
        ),
        set.range_spec(qs, qe, inclusive, true).reverse() == set.range_spec(
            qs,
            qe,
            inclusive,
            false,
        ),
{
    lemma_reverse_reverse(matching(set.entries(), qs, qe, inclusive));
}

} // verus!
