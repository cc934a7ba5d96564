use std::collections::HashMap;
use vstd::prelude::*;

use crate::excerpt::{bucket, classified, classify_tokens, group_by_kind, Excerpt, ExcerptRange, RawToken};
use crate::kind::{kind_at, kind_index, SemanticToken, KIND_COUNT};

verus! {

broadcast use vstd::std_specs::hash::group_hash_axioms;

/// The buffers touched by a selection: the buffer under each end, or `None`
/// where an end lies outside every buffer.
#[derive(Clone, Copy, Debug, PartialEq, Eq)]
pub struct SelectionBuffers {
    pub start_buffer: Option<u64>,
    pub end_buffer: Option<u64>,
}

/// The buffers to refresh for a set of selections: one per selection that
/// lies within a single buffer, in selection order; a selection that spans two
/// buffers, or lies outside every buffer, contributes nothing.
pub open spec fn target_buffers_spec(selections: Seq<SelectionBuffers>) -> Seq<u64>
    decreases selections.len(),
{
    if selections.len() == 0 {
        Seq::empty()
    } else {
        let prev = target_buffers_spec(selections.drop_last());
        let s = selections.last();
        match s.end_buffer {
            Some(b) => if s.start_buffer == Some(b) {
                prev.push(b)
            } else {
                prev
            },
            None => prev,
        }
    }
}

/// Picks the buffers to refresh from the selections, dropping every
/// selection that spans a buffer boundary.
pub fn target_buffers(selections: &Vec<SelectionBuffers>) -> (r: Vec<u64>)
    ensures
        r@ == target_buffers_spec(selections@),
{
    let mut out: Vec<u64> = Vec::new();
    let mut i: usize = 0;
    while i < selections.len()
        invariant
            i <= selections.len(),
            out@ == target_buffers_spec(selections@.take(i as int)),
        decreases selections.len() - i,
    {
        assert(selections@.take(i as int + 1).drop_last() =~= selections@.take(i as int));
        assert(selections@.take(i as int + 1).last() == selections@[i as int]);
        let s = selections[i];
        match s.end_buffer {
            Some(b) => {
                if s.start_buffer == Some(b) {
                    out.push(b);
                }
            },
            None => {},
        }
        i = i + 1;
    }
    assert(selections@.take(selections.len() as int) =~= selections@);
    out
}

/// The buffers shown through `excerpts`, each once, in the order in which
/// they first appear.
pub open spec fn shown_buffers_spec(excerpts: Seq<Excerpt>) -> Seq<u64>
    decreases excerpts.len(),
{
    if excerpts.len() == 0 {
        Seq::empty()
    } else {
        let prev = shown_buffers_spec(excerpts.drop_last());
        if prev.contains(excerpts.last().buffer_id) {
            prev
        } else {
            prev.push(excerpts.last().buffer_id)
        }
    }
}

/// Picks every buffer that the multi-buffer shows, each once.
pub fn shown_buffers(excerpts: &Vec<Excerpt>) -> (r: Vec<u64>)
    ensures
        r@ == shown_buffers_spec(excerpts@),
        r@.no_duplicates(),
        forall|b: u64| r@.contains(b) <==> exists|i: int| 0 <= i < excerpts@.len() && #[trigger] excerpts@[i].buffer_id == b,
{
    let mut out: Vec<u64> = Vec::new();
    let mut i: usize = 0;
    while i < excerpts.len()
        invariant
            i <= excerpts.len(),
            out@ == shown_buffers_spec(excerpts@.take(i as int)),
            out@.no_duplicates(),
            forall|b: u64| out@.contains(b) <==> exists|j: int| 0 <= j < i && #[trigger] excerpts@[j].buffer_id == b,
        decreases excerpts.len() - i,
    {
        assert(excerpts@.take(i as int + 1).drop_last() =~= excerpts@.take(i as int));
        assert(excerpts@.take(i as int + 1).last() == excerpts@[i as int]);
        let b = excerpts[i].buffer_id;
        let mut seen = false;
        let mut j: usize = 0;
        while j < out.len()
            invariant
                j <= out@.len(),
                seen <==> exists|k: int| 0 <= k < j && out@[k] == b,
            decreases out@.len() - j,
        {
            if out[j] == b {
                seen = true;
            }
            j = j + 1;
        }
        assert(seen == out@.contains(b));
        let ghost prev = out@;
        if !seen {
            out.push(b);
        }
        proof {
            if !seen {
                assert(out@ == prev.push(b));
                assert forall|x: int, y: int| 0 <= x < y < out@.len() implies out@[x] != out@[y] by {
                    if y == out@.len() - 1 {
                        assert(prev[x] == out@[x]);
                    } else {
                        assert(prev[x] != prev[y]);
                    }
                }
            }
            assert forall|c: u64| out@.contains(c) <==> exists|j: int|
                0 <= j < i + 1 && #[trigger] excerpts@[j].buffer_id == c by {
                if out@.contains(c) {
                    let k = choose|k: int| 0 <= k < out@.len() && out@[k] == c;
                    if k < prev.len() {
                        assert(prev[k] == c);
                        assert(prev.contains(c));
                    } else {
                        assert(excerpts@[i as int].buffer_id == c);
                    }
                }
                if exists|j: int| 0 <= j < i + 1 && #[trigger] excerpts@[j].buffer_id == c {
                    let j = choose|j: int| 0 <= j < i + 1 && #[trigger] excerpts@[j].buffer_id == c;
                    if j < i {
                        assert(prev.contains(c));
                        let k = choose|k: int| 0 <= k < prev.len() && prev[k] == c;
                        assert(out@[k] == c);
                    } else if !seen {
                        assert(out@[out@.len() - 1] == c);
                    } else {
                        let k = choose|k: int| 0 <= k < prev.len() && prev[k] == c;
                        assert(out@[k] == c);
                    }
                }
            }
        }
        i = i + 1;
    }
    assert(excerpts@.take(excerpts.len() as int) =~= excerpts@);
    out
}

/// The debounce and single-flight state of one editor view. Each request
/// starts a new generation and moves the deadline; a timer only starts a
/// fetch when it belongs to the newest generation and the deadline has
/// passed, and only results of the newest generation may be applied.
#[derive(Debug)]
pub struct RefreshState {
    pub generation: u64,
    pub deadline: u64,
    pub pending: Option<Vec<u64>>,
}

impl RefreshState {
    /// A view with no refresh requested yet.
    pub fn new() -> (r: RefreshState)
        ensures
            r.generation == 0,
            r.deadline == 0,
            r.pending is None,
    {
        RefreshState { generation: 0, deadline: 0, pending: None }
    }

    /// Records a refresh request made at `now` for `buffers`: it supersedes
    /// every earlier request, fetched or not. Returns the new generation, for
    /// which a timer is to fire at the deadline `now + debounce` (saturated).
    pub fn request(&mut self, now: u64, debounce: u64, buffers: Vec<u64>) -> (r: u64)
        requires
            old(self).generation < u64::MAX,
        ensures
            r == old(self).generation + 1,
            final(self).generation == r,
            final(self).deadline == if now + debounce > u64::MAX {
                u64::MAX as int
            } else {
                now + debounce
            },
            final(self).pending == Some(buffers),
    {
        self.generation = self.generation + 1;
        self.deadline = now.saturating_add(debounce);
        self.pending = Some(buffers);
        self.generation
    }

    /// A timer of `generation` fired at `now`. Returns the buffers to fetch
    /// when the timer belongs to the newest request, the quiet period is over
    /// and that request has not been fetched yet; otherwise `None`, and the
    /// state is unchanged.
    pub fn timer_fired(&mut self, generation: u64, now: u64) -> (r: Option<Vec<u64>>)
        ensures
            final(self).generation == old(self).generation,
            final(self).deadline == old(self).deadline,
            if generation == old(self).generation && now >= old(self).deadline
                && old(self).pending is Some {
                &&& r == old(self).pending
                &&& final(self).pending is None
            } else {
                &&& r is None
                &&& final(self).pending == old(self).pending
            },
    {
        if generation == self.generation && now >= self.deadline && self.pending.is_some() {
            self.pending.take()
        } else {
            None
        }
    }

    /// Whether results fetched for `generation` may still be applied.
    pub fn is_current(&self, generation: u64) -> (r: bool)
        ensures
            r == (generation == self.generation),
    {
        generation == self.generation
    }
}

/// What the classification service answered for one buffer: its tokens, or
/// `None` when the fetch failed.
#[derive(Debug)]
pub struct FetchOutcome {
    pub buffer_id: u64,
    pub tokens: Option<Vec<RawToken>>,
}

/// Whether outcome `i` brought tokens.
pub open spec fn succeeded(outcomes: Seq<FetchOutcome>, i: int) -> bool {
    outcomes[i].tokens is Some
}

/// Whether some outcome at an index in `lo..hi` brought tokens for `buffer`.
pub open spec fn succeeds_within(outcomes: Seq<FetchOutcome>, buffer: u64, lo: int, hi: int) -> bool {
    exists|j: int| lo <= j < hi && succeeded(outcomes, j) && #[trigger] outcomes[j].buffer_id == buffer
}

/// `batch` holds, at each kind's index, the bucket of that kind for the
/// tokens `raw` of `buffer` shown through `excerpts`.
pub open spec fn is_batch_for(
    batch: Vec<Vec<ExcerptRange>>,
    raw: Seq<RawToken>,
    buffer: u64,
    excerpts: Seq<Excerpt>,
) -> bool {
    &&& batch@.len() == KIND_COUNT
    &&& forall|k: int|
        0 <= k < KIND_COUNT ==> (#[trigger] batch@[k])@ == bucket(
            classified(raw),
            kind_at(k as nat),
            buffer,
            excerpts,
        )
}

/// The highlights applied to a view: for each buffer, one bucket of
/// excerpt ranges per kind.
#[derive(Debug)]
pub struct Highlights {
    by_buffer: HashMap<u64, Vec<Vec<ExcerptRange>>>,
}

impl Highlights {
    pub closed spec fn view(&self) -> Map<u64, Vec<Vec<ExcerptRange>>> {
        self.by_buffer@
    }

    /// Every buffer has one bucket per kind.
    pub closed spec fn wf(&self) -> bool {
        forall|b: u64| #[trigger] self@.contains_key(b) ==> self@[b]@.len() == KIND_COUNT
    }

    /// No highlights.
    pub fn new() -> (r: Highlights)
        ensures
            r@ == Map::<u64, Vec<Vec<ExcerptRange>>>::empty(),
            r.wf(),
    {
        Highlights { by_buffer: HashMap::new() }
    }

    /// The ranges highlighted as `kind` in `buffer`, if the buffer has
    /// highlights.
    pub fn bucket(&self, buffer: u64, kind: SemanticToken) -> (r: Option<&Vec<ExcerptRange>>)
        requires
            self.wf(),
        ensures
            r is Some <==> self@.contains_key(buffer),
            r matches Some(v) ==> *v == self@[buffer]@[kind_index(kind) as int],
    {
        match self.by_buffer.get(&buffer) {
            Some(batch) => {
                assert(self@.contains_key(buffer));
                Some(&batch[kind.index()])
            },
            None => None,
        }
    }

    /// Applies the outcomes of one refresh cycle. Each buffer whose fetch
    /// succeeded has all its buckets replaced, by those of its last
    /// successful outcome, so a kind without tokens is cleared. A buffer
    /// whose fetch failed, or that was not fetched, keeps what it had.
    pub fn apply_outcomes(&mut self, outcomes: &Vec<FetchOutcome>, excerpts: &Vec<Excerpt>)
        requires
            old(self).wf(),
        ensures
            final(self).wf(),
            forall|b: u64|
                !succeeds_within(outcomes@, b, 0, outcomes@.len() as int) ==> {
                    &&& (#[trigger] final(self)@.contains_key(b)) == old(self)@.contains_key(b)
                    &&& old(self)@.contains_key(b) ==> final(self)@[b] == old(self)@[b]
                },
            forall|i: int|
                0 <= i < outcomes@.len() && succeeded(outcomes@, i) && !succeeds_within(
                    outcomes@,
                    #[trigger] outcomes@[i].buffer_id,
                    i + 1,
                    outcomes@.len() as int,
                ) ==> {
                    &&& final(self)@.contains_key(outcomes@[i].buffer_id)
                    &&& is_batch_for(
                        final(self)@[outcomes@[i].buffer_id],
                        outcomes@[i].tokens->Some_0@,
                        outcomes@[i].buffer_id,
                        excerpts@,
                    )
                },
    {
        let mut i: usize = 0;
        while i < outcomes.len()
            invariant
                i <= outcomes.len(),
                self.wf(),
                forall|b: u64|
                    !succeeds_within(outcomes@, b, 0, i as int) ==> {
                        &&& (#[trigger] self@.contains_key(b)) == old(self)@.contains_key(b)
                        &&& old(self)@.contains_key(b) ==> self@[b] == old(self)@[b]
                    },
                forall|k: int|
                    0 <= k < i && succeeded(outcomes@, k) && !succeeds_within(
                        outcomes@,
                        #[trigger] outcomes@[k].buffer_id,
                        k + 1,
                        i as int,
                    ) ==> {
                        &&& self@.contains_key(outcomes@[k].buffer_id)
                        &&& is_batch_for(
                            self@[outcomes@[k].buffer_id],
                            outcomes@[k].tokens->Some_0@,
                            outcomes@[k].buffer_id,
                            excerpts@,
                        )
                    },
            decreases outcomes.len() - i,
        {
            let o = &outcomes[i];
            match &o.tokens {
                Some(raw) => {
                    let entries = classify_tokens(raw);
                    let batch = group_by_kind(o.buffer_id, &entries, excerpts);
                    let ghost pre = self@;
                    self.by_buffer.insert(o.buffer_id, batch);
                    proof {
                        assert(self@ == pre.insert(o.buffer_id, batch));
                        assert(succeeded(outcomes@, i as int));
                        assert forall|b: u64|
                            !succeeds_within(outcomes@, b, 0, i + 1) implies {
                            &&& (#[trigger] self@.contains_key(b)) == old(self)@.contains_key(b)
                            &&& old(self)@.contains_key(b) ==> self@[b] == old(self)@[b]
                        } by {
                            if b == o.buffer_id {
                                assert(outcomes@[i as int].buffer_id == b);
                            }
                            assert(b != o.buffer_id);
                            assert(pre.contains_key(b) == self@.contains_key(b));
                            if succeeds_within(outcomes@, b, 0, i as int) {
                                let j = choose|j: int|
                                    0 <= j < i && succeeded(outcomes@, j) && #[trigger] outcomes@[j].buffer_id == b;
                                assert(0 <= j < i + 1);
                            }
                        }
                        assert forall|k: int|
                            0 <= k < i + 1 && succeeded(outcomes@, k) && !succeeds_within(
                                outcomes@,
                                #[trigger] outcomes@[k].buffer_id,
                                k + 1,
                                i + 1,
                            ) implies {
                            &&& self@.contains_key(outcomes@[k].buffer_id)
                            &&& is_batch_for(
                                self@[outcomes@[k].buffer_id],
                                outcomes@[k].tokens->Some_0@,
                                outcomes@[k].buffer_id,
                                excerpts@,
                            )
                        } by {
                            if k < i {
                                if outcomes@[k].buffer_id == o.buffer_id {
                                    assert(outcomes@[i as int].buffer_id == outcomes@[k].buffer_id);
                                }
                                if succeeds_within(outcomes@, outcomes@[k].buffer_id, k + 1, i as int) {
                                    let j = choose|j: int|
                                        k + 1 <= j < i && succeeded(outcomes@, j) && #[trigger] outcomes@[j].buffer_id == outcomes@[k].buffer_id;
                                    assert(k + 1 <= j < i + 1);
                                }
                            }
                        }
                    }
                },
                None => {
                    proof {
                        assert forall|b: u64|
                            !succeeds_within(outcomes@, b, 0, i + 1) implies {
                            &&& (#[trigger] self@.contains_key(b)) == old(self)@.contains_key(b)
                            &&& old(self)@.contains_key(b) ==> self@[b] == old(self)@[b]
                        } by {
                            if succeeds_within(outcomes@, b, 0, i as int) {
                                let j = choose|j: int|
                                    0 <= j < i && succeeded(outcomes@, j) && #[trigger] outcomes@[j].buffer_id == b;
                                assert(0 <= j < i + 1);
                            }
                        }
                        assert forall|k: int|
                            0 <= k < i + 1 && succeeded(outcomes@, k) && !succeeds_within(
                                outcomes@,
                                #[trigger] outcomes@[k].buffer_id,
                                k + 1,
                                i + 1,
                            ) implies {
                            &&& self@.contains_key(outcomes@[k].buffer_id)
                            &&& is_batch_for(
                                self@[outcomes@[k].buffer_id],
                                outcomes@[k].tokens->Some_0@,
                                outcomes@[k].buffer_id,
                                excerpts@,
                            )
                        } by {
                            if succeeds_within(outcomes@, outcomes@[k].buffer_id, k + 1, i as int) {
                                let j = choose|j: int|
                                    k + 1 <= j < i && succeeded(outcomes@, j) && #[trigger] outcomes@[j].buffer_id == outcomes@[k].buffer_id;
                                assert(k + 1 <= j < i + 1);
                            }
                        }
                    }
                },
            }
            i = i + 1;
        }
    }
}

} // verus!
