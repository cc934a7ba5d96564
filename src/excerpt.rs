use std::ops::Range;
use vstd::prelude::*;

use crate::kind::{kind_at, kind_of_identifier, SemanticToken, KIND_COUNT};
use crate::token_set::SemanticTokenEntry;

verus! {

/// A window of a source buffer shown in the multi-buffer: `context` is the
/// visible part, in the source buffer's offsets.
#[derive(Debug, PartialEq, Eq)]
pub struct Excerpt {
    pub id: u64,
    pub buffer_id: u64,
    pub context: Range<usize>,
}

/// A range in multi-buffer terms: offsets of the source buffer, tagged with
/// the excerpt through which they are shown.
#[derive(Debug, PartialEq, Eq)]
pub struct ExcerptRange {
    pub excerpt_id: u64,
    pub range: Range<usize>,
}

/// A token as the classification service reports it: a range of the source
/// buffer and the identifier of its kind.
#[derive(Debug, PartialEq, Eq)]
pub struct RawToken {
    pub range: Range<usize>,
    pub kind: String,
}

/// `token` clipped to `window`, or `None` when nothing of it is left.
pub open spec fn clip_spec(token: Range<usize>, window: Range<usize>) -> Option<Range<usize>> {
    let start = if token.start > window.start { token.start } else { window.start };
    let end = if token.end < window.end { token.end } else { window.end };
    if start >= end {
        None
    } else {
        Some(Range { start, end })
    }
}

/// The ranges through which a token over `range` of buffer `buffer` is shown:
/// one for each excerpt of that buffer that it reaches, in excerpt order.
pub open spec fn excerpt_ranges(range: Range<usize>, buffer: u64, excerpts: Seq<Excerpt>) -> Seq<
    ExcerptRange,
>
    decreases excerpts.len(),
{
    if excerpts.len() == 0 {
        Seq::empty()
    } else {
        let prev = excerpt_ranges(range, buffer, excerpts.drop_last());
        let x = excerpts.last();
        if x.buffer_id == buffer {
            match clip_spec(range, x.context) {
                Some(c) => prev.push(ExcerptRange { excerpt_id: x.id, range: c }),
                None => prev,
            }
        } else {
            prev
        }
    }
}

/// The bucket of `kind`: the excerpt ranges of each token of that kind, in
/// token order.
pub open spec fn bucket(
    tokens: Seq<SemanticTokenEntry>,
    kind: SemanticToken,
    buffer: u64,
    excerpts: Seq<Excerpt>,
) -> Seq<ExcerptRange>
    decreases tokens.len(),
{
    if tokens.len() == 0 {
        Seq::empty()
    } else {
        let prev = bucket(tokens.drop_last(), kind, buffer, excerpts);
        if tokens.last().kind == kind {
            prev + excerpt_ranges(tokens.last().range, buffer, excerpts)
        } else {
            prev
        }
    }
}

/// The tokens whose kind identifier is known, classified, in their order.
pub open spec fn classified(raw: Seq<RawToken>) -> Seq<SemanticTokenEntry>
    decreases raw.len(),
{
    if raw.len() == 0 {
        Seq::empty()
    } else {
        let prev = classified(raw.drop_last());
        match kind_of_identifier(raw.last().kind@) {
            Some(k) => prev.push(SemanticTokenEntry { range: raw.last().range, kind: k }),
            None => prev,
        }
    }
}

/// Clips `token` to the excerpt window `window`: the start is the larger of
/// the two starts, the end the smaller of the two ends, and an empty result
/// is `None`.
pub fn clip(token: &Range<usize>, window: &Range<usize>) -> (r: Option<Range<usize>>)
    ensures
        r == clip_spec(*token, *window),
{
    let start = if token.start > window.start { token.start } else { window.start };
    let end = if token.end < window.end { token.end } else { window.end };
    if start >= end {
        None
    } else {
        Some(start..end)
    }
}

/// Clipping a non-empty token to a window that contains it leaves it as it
/// is; clipping to a window that it does not overlap leaves nothing.
pub proof fn lemma_clip_idempotence(token: Range<usize>, window: Range<usize>)
    ensures
        window.start <= token.start < token.end <= window.end ==> clip_spec(token, window)
            == Some(token),
        token.end <= window.start || window.end <= token.start ==> clip_spec(token, window)
            is None,
{
}

/// Classifies the tokens of one buffer, dropping those whose kind identifier
/// is unknown and keeping the others in order.
pub fn classify_tokens(raw: &Vec<RawToken>) -> (r: Vec<SemanticTokenEntry>)
    ensures
        r@ == classified(raw@),
{
    let mut out: Vec<SemanticTokenEntry> = Vec::new();
    let mut i: usize = 0;
    while i < raw.len()
        invariant
            i <= raw.len(),
            out@ == classified(raw@.take(i as int)),
        decreases raw.len() - i,
    {
        assert(raw@.take(i as int + 1).drop_last() =~= raw@.take(i as int));
        let t = &raw[i];
        match SemanticToken::from_identifier(t.kind.as_str()) {
            Some(k) => {
                out.push(SemanticTokenEntry { range: t.range.start..t.range.end, kind: k });
            },
            None => {},
        }
        i = i + 1;
    }
    assert(raw@.take(raw.len() as int) =~= raw@);
    out
}

/// Appends the excerpt ranges of a token over `range` of buffer `buffer`.
fn push_excerpt_ranges(
    range: &Range<usize>,
    buffer: u64,
    excerpts: &Vec<Excerpt>,
    out: &mut Vec<ExcerptRange>,
)
    ensures
        final(out)@ == old(out)@ + excerpt_ranges(*range, buffer, excerpts@),
{
    let mut i: usize = 0;
    assert(old(out)@ + Seq::<ExcerptRange>::empty() =~= old(out)@);
    while i < excerpts.len()
        invariant
            i <= excerpts.len(),
            out@ == old(out)@ + excerpt_ranges(*range, buffer, excerpts@.take(i as int)),
        decreases excerpts.len() - i,
    {
        assert(excerpts@.take(i as int + 1).drop_last() =~= excerpts@.take(i as int));
        assert(excerpts@.take(i as int + 1).last() == excerpts@[i as int]);
        let x = &excerpts[i];
        if x.buffer_id == buffer {
            match clip(range, &x.context) {
                Some(c) => {
                    out.push(ExcerptRange { excerpt_id: x.id, range: c });
                    assert(out@ =~= old(out)@ + excerpt_ranges(
                        *range,
                        buffer,
                        excerpts@.take(i as int + 1),
                    ));
                },
                None => {},
            }
        }
        i = i + 1;
    }
    assert(excerpts@.take(excerpts.len() as int) =~= excerpts@);
}

/// The bucket of `kind` for the tokens of buffer `buffer`: for each token of
/// that kind, in order, its clipped range in each excerpt of the buffer that
/// it reaches.
pub fn bucket_for_kind(
    kind: SemanticToken,
    buffer: u64,
    tokens: &Vec<SemanticTokenEntry>,
    excerpts: &Vec<Excerpt>,
) -> (r: Vec<ExcerptRange>)
    ensures
        r@ == bucket(tokens@, kind, buffer, excerpts@),
{
    let mut out: Vec<ExcerptRange> = Vec::new();
    let mut i: usize = 0;
    while i < tokens.len()
        invariant
            i <= tokens.len(),
            out@ == bucket(tokens@.take(i as int), kind, buffer, excerpts@),
        decreases tokens.len() - i,
    {
        assert(tokens@.take(i as int + 1).drop_last() =~= tokens@.take(i as int));
        assert(tokens@.take(i as int + 1).last() == tokens@[i as int]);
        let t = &tokens[i];
        if t.kind == kind {
            push_excerpt_ranges(&t.range, buffer, excerpts, &mut out);
        }
        i = i + 1;
    }
    assert(tokens@.take(tokens.len() as int) =~= tokens@);
    out
}

/// One bucket per kind, at the kind's index: every kind gets a bucket, empty
/// ones included, so that applying the buckets clears a kind that has no
/// tokens any more.
pub fn group_by_kind(buffer: u64, tokens: &Vec<SemanticTokenEntry>, excerpts: &Vec<Excerpt>) -> (r:
    Vec<Vec<ExcerptRange>>)
    ensures
        r@.len() == KIND_COUNT,
        forall|k: int|
            0 <= k < KIND_COUNT ==> (#[trigger] r@[k])@ == bucket(
                tokens@,
                kind_at(k as nat),
                buffer,
                excerpts@,
            ),
{
    let mut out: Vec<Vec<ExcerptRange>> = Vec::new();
    let mut k: usize = 0;
    while k < KIND_COUNT
        invariant
            k <= KIND_COUNT,
            out@.len() == k,
            forall|j: int|
                0 <= j < k ==> (#[trigger] out@[j])@ == bucket(
                    tokens@,
                    kind_at(j as nat),
                    buffer,
                    excerpts@,
                ),
        decreases KIND_COUNT - k,
    {
        let b = bucket_for_kind(SemanticToken::from_index(k), buffer, tokens, excerpts);
        out.push(b);
        k = k + 1;
    }
    out
}

} // verus!
