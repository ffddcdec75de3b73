use vstd::prelude::*;

verus! {

/// The sum of a sequence of footprints.
pub open spec fn total(sizes: Seq<nat>) -> nat
    decreases sizes.len(),
{
    if sizes.len() == 0 {
        0
    } else {
        total(sizes.drop_last()) + sizes.last()
    }
}

/// How many of the leading batches the buffer takes in: a batch is taken
/// exactly when the batches before it sum to less than the budget. Once that
/// sum reaches the budget no later batch is taken.
pub open spec fn taken(footprints: Seq<nat>, budget: nat) -> nat
    decreases footprints.len(),
{
    if footprints.len() == 0 {
        0
    } else if total(footprints.drop_last()) < budget {
        footprints.len()
    } else {
        taken(footprints.drop_last(), budget)
    }
}

/// The byte budget of a run: the store's maximum size, saturated to `usize`.
pub open spec fn budget_of(max_size: u64) -> nat {
    if max_size as int > usize::MAX as int {
        usize::MAX as nat
    } else {
        max_size as nat
    }
}

/// What a capture has seen of its stream of batches of type `B`.
pub struct CaptureView<B> {
    /// The byte budget for the accumulated batches.
    pub budget: nat,
    /// Every successful batch of the stream so far, in order.
    pub offered: Seq<B>,
    /// The footprint of each batch of `offered`.
    pub footprints: Seq<nat>,
    /// Whether the end of the stream has been seen.
    pub ended: bool,
}

/// A capture that has seen nothing yet.
pub open spec fn fresh<B>(budget: nat) -> CaptureView<B> {
    CaptureView { budget, offered: seq![], footprints: seq![], ended: false }
}

/// Whether the batches seen so far fit strictly below the budget.
pub open spec fn under_budget<B>(v: CaptureView<B>) -> bool {
    total(v.footprints) < v.budget
}

/// The capture after a successful batch whose footprint is `footprint`.
/// Nothing changes once the end has been seen.
pub open spec fn with_batch<B>(
    v: CaptureView<B>,
    batch: B,
    footprint: nat,
) -> CaptureView<B> {
    if v.ended {
        v
    } else {
        CaptureView {
            offered: v.offered.push(batch),
            footprints: v.footprints.push(footprint),
            ..v
        }
    }
}

/// One element pulled from the source stream, or its natural end.
pub enum StreamEvent<B, E> {
    Next(Result<B, E>),
    End,
}

/// What the driver of the stream does after an event.
pub enum CacheAction<B, E> {
    /// Hand this element to the consumer.
    Forward(Result<B, E>),
    /// Insert these batches into the cache, once, after the last element.
    Store(Vec<B>),
    /// Nothing more to do.
    Skip,
}

/// The capture after `event`; `footprint` is what the batch of a successful
/// element measured.
pub open spec fn after<B, E>(
    v: CaptureView<B>,
    event: StreamEvent<B, E>,
    footprint: nat,
) -> CaptureView<B> {
    match event {
        StreamEvent::Next(Ok(batch)) => with_batch(v, batch, footprint),
        StreamEvent::Next(Err(_)) => v,
        StreamEvent::End => CaptureView { ended: true, ..v },
    }
}

/// `copies` holds, in order, a clone of each of `batches`.
pub open spec fn clones_of<B: Clone>(copies: Seq<B>, batches: Seq<B>) -> bool {
    &&& copies.len() == batches.len()
    &&& forall|i: int| 0 <= i < copies.len() ==> cloned(#[trigger] batches[i], copies[i])
}

/// Whether `event` makes the capture hand its batches to the cache: only the
/// first end of a stream whose batches stayed strictly under the budget.
pub open spec fn stores_on<B, E>(v: CaptureView<B>, event: StreamEvent<B, E>) -> bool {
    &&& event is End
    &&& !v.ended
    &&& under_budget(v)
}

proof fn lemma_total_push(s: Seq<nat>, x: nat)
    ensures
        total(s.push(x)) == total(s) + x,
{
    assert(s.push(x).drop_last() =~= s);
}

/// A prefix never sums to more than the whole.
proof fn lemma_total_take(s: Seq<nat>, i: int)
    requires
        0 <= i <= s.len(),
    ensures
        total(s.take(i)) <= total(s),
    decreases s.len(),
{
    if i < s.len() {
        lemma_total_take(s.drop_last(), i);
        assert(s.drop_last().take(i) =~= s.take(i));
    } else {
        assert(s.take(i) =~= s);
    }
}

/// The buffer stops short of the whole stream only once the batches it took
/// reached the budget.
proof fn lemma_taken(s: Seq<nat>, budget: nat)
    ensures
        taken(s, budget) <= s.len(),
        taken(s, budget) < s.len() ==> total(s.take(taken(s, budget) as int)) >= budget,
    decreases s.len(),
{
    if s.len() > 0 && total(s.drop_last()) >= budget {
        let k = taken(s, budget);
        lemma_taken(s.drop_last(), budget);
        if k < s.len() - 1 {
            assert(s.drop_last().take(k as int) =~= s.take(k as int));
        } else {
            assert(s.take(k as int) =~= s.drop_last());
        }
    }
}

/// The events of a stream whose elements are `items`, without its end.
pub open spec fn as_events<B, E>(items: Seq<Result<B, E>>) -> Seq<StreamEvent<B, E>> {
    items.map_values(|item: Result<B, E>| StreamEvent::Next(item))
}

/// The successful batches among `items`, in order.
pub open spec fn successes<B, E>(items: Seq<Result<B, E>>) -> Seq<B>
    decreases items.len(),
{
    if items.len() == 0 {
        seq![]
    } else {
        let prior = successes(items.drop_last());
        match items.last() {
            Ok(batch) => prior.push(batch),
            Err(_) => prior,
        }
    }
}

/// The footprints of the successful batches among `items`, where element `i`
/// measured `footprints[i]`.
pub open spec fn success_footprints<B, E>(items: Seq<Result<B, E>>, footprints: Seq<nat>) -> Seq<
    nat,
>
    decreases items.len(),
{
    if items.len() == 0 {
        seq![]
    } else {
        let prior = success_footprints(items.drop_last(), footprints);
        match items.last() {
            Ok(_) => prior.push(footprints[items.len() - 1]),
            Err(_) => prior,
        }
    }
}

/// The capture after `events` are handled one by one from `v`, where the
/// batch of event `i` measured `footprints[i]`.
pub open spec fn state_after<B, E>(
    v: CaptureView<B>,
    events: Seq<StreamEvent<B, E>>,
    footprints: Seq<nat>,
) -> CaptureView<B>
    decreases events.len(),
{
    if events.len() == 0 {
        v
    } else {
        after(
            state_after(v, events.drop_last(), footprints),
            events.last(),
            footprints[events.len() - 1],
        )
    }
}

/// The batch sequences handed to the cache while `events` are handled one by
/// one from `v`.
pub open spec fn stored<B, E>(
    v: CaptureView<B>,
    events: Seq<StreamEvent<B, E>>,
    footprints: Seq<nat>,
) -> Seq<Seq<B>>
    decreases events.len(),
{
    if events.len() == 0 {
        seq![]
    } else {
        let prior = stored(v, events.drop_last(), footprints);
        let w = state_after(v, events.drop_last(), footprints);
        if stores_on(w, events.last()) {
            prior.push(w.offered)
        } else {
            prior
        }
    }
}

proof fn lemma_state_after_elements<B, E>(
    budget: nat,
    items: Seq<Result<B, E>>,
    footprints: Seq<nat>,
)
    ensures
        state_after(fresh(budget), as_events(items), footprints) == (CaptureView {
            budget,
            offered: successes(items),
            footprints: success_footprints(items, footprints),
            ended: false,
        }),
    decreases items.len(),
{
    if items.len() > 0 {
        assert(as_events(items).drop_last() =~= as_events(items.drop_last()));
        lemma_state_after_elements(budget, items.drop_last(), footprints);
    }
}

/// A stream that has not reached its end stores nothing: a consumer that
/// stops pulling early leaves the cache untouched, whatever the running
/// total.
pub proof fn lemma_no_store_before_end<B, E>(
    v: CaptureView<B>,
    items: Seq<Result<B, E>>,
    footprints: Seq<nat>,
)
    ensures
        stored(v, as_events(items), footprints) == Seq::<Seq<B>>::empty(),
    decreases items.len(),
{
    if items.len() > 0 {
        assert(as_events(items).drop_last() =~= as_events(items.drop_last()));
        lemma_no_store_before_end(v, items.drop_last(), footprints);
    }
}

/// A stream read to its end is stored exactly once, with all of its
/// successful batches in order, when their footprints sum to less than the
/// budget, and never otherwise.
pub proof fn lemma_complete_stream_all_or_nothing<B, E>(
    budget: nat,
    items: Seq<Result<B, E>>,
    footprints: Seq<nat>,
)
    requires
        footprints.len() == items.len(),
    ensures
        stored(fresh(budget), as_events(items).push(StreamEvent::End), footprints) == if total(
            success_footprints(items, footprints),
        ) < budget {
            seq![successes(items)]
        } else {
            Seq::<Seq<B>>::empty()
        },
{
    let events = as_events(items).push(StreamEvent::End);
    assert(events.drop_last() =~= as_events(items));
    lemma_no_store_before_end(fresh(budget), items, footprints);
    lemma_state_after_elements(budget, items, footprints);
}

proof fn lemma_total_concat(s: Seq<nat>, t: Seq<nat>)
    ensures
        total(s + t) == total(s) + total(t),
    decreases t.len(),
{
    if t.len() > 0 {
        assert((s + t).drop_last() =~= s + t.drop_last());
        lemma_total_concat(s, t.drop_last());
    } else {
        assert(s + t =~= s);
    }
}

/// Once the running total reaches the budget, equality included, no later
/// batch joins the buffer and the stream is no longer under budget.
pub proof fn lemma_reaching_budget_stops_accumulation(
    footprints: Seq<nat>,
    later: Seq<nat>,
    budget: nat,
)
    requires
        total(footprints) >= budget,
    ensures
        taken(footprints + later, budget) == taken(footprints, budget),
        total(footprints + later) >= budget,
    decreases later.len(),
{
    lemma_total_concat(footprints, later);
    if later.len() > 0 {
        assert((footprints + later).drop_last() =~= footprints + later.drop_last());
        lemma_total_concat(footprints, later.drop_last());
        lemma_reaching_budget_stops_accumulation(footprints, later.drop_last(), budget);
    } else {
        assert(footprints + later =~= footprints);
    }
}

/// Records a stream's successful batches while they fit strictly under a
/// byte budget, and hands them over at the natural end of the stream.
pub struct CacheCapture<B> {
    records: Vec<B>,
    records_size: usize,
    max_size: usize,
    ended: bool,
    offered: Ghost<Seq<B>>,
    footprints: Ghost<Seq<nat>>,
}

impl<B> View for CacheCapture<B> {
    type V = CaptureView<B>;

    closed spec fn view(&self) -> CaptureView<B> {
        CaptureView {
            budget: self.max_size as nat,
            offered: self.offered@,
            footprints: self.footprints@,
            ended: self.ended,
        }
    }
}

impl<B: Clone> CacheCapture<B> {
    /// The batches held for the cache so far.
    pub closed spec fn accumulated(&self) -> Seq<B> {
        self.records@
    }

    pub closed spec fn wf(&self) -> bool {
        &&& self.offered@.len() == self.footprints@.len()
        &&& !self.ended ==> {
            let k = taken(self.footprints@, self.max_size as nat);
            &&& clones_of(self.records@, self.offered@.take(k as int))
            &&& self.records_size as int == if total(self.footprints@.take(k as int))
                > usize::MAX {
                usize::MAX as int
            } else {
                total(self.footprints@.take(k as int)) as int
            }
        }
    }

    /// Starts a run whose budget is the store's `max_size`, saturated to
    /// `usize`.
    pub fn new(max_size: u64) -> (r: Self)
        ensures
            r.wf(),
            r@ == fresh::<B>(budget_of(max_size)),
            r.accumulated().len() == 0,
    {
        let budget: usize = if max_size as u128 > usize::MAX as u128 {
            usize::MAX
        } else {
            max_size as usize
        };
        let r = CacheCapture {
            records: Vec::new(),
            records_size: 0,
            max_size: budget,
            ended: false,
            offered: Ghost(Seq::empty()),
            footprints: Ghost(Seq::empty()),
        };
        proof {
            assert(r.footprints@.take(0) =~= Seq::<nat>::empty());
            assert(r.offered@.take(0) =~= Seq::<B>::empty());
        }
        r
    }

    /// Whether the batches seen so far fit strictly below the budget, so
    /// that the end of the stream would store them.
    pub fn is_under_budget(&self) -> (r: bool)
        requires
            self.wf(),
            !self@.ended,
        ensures
            r == under_budget(self@),
    {
        proof {
            self.lemma_size_tracks_budget();
        }
        self.records_size < self.max_size
    }

    /// The running total stays below the budget exactly while every batch
    /// seen so far is held.
    proof fn lemma_size_tracks_budget(&self)
        requires
            self.wf(),
            !self.ended,
        ensures
            (self.records_size < self.max_size) == under_budget(self@),
            under_budget(self@) ==> clones_of(self.records@, self.offered@),
            under_budget(self@) ==> self.records_size == total(self.footprints@),
    {
        let s = self.footprints@;
        let b = self.max_size as nat;
        let k = taken(s, b);
        lemma_taken(s, b);
        lemma_total_take(s, k as int);
        if k == s.len() {
            assert(s.take(k as int) =~= s);
            assert(self.offered@.take(k as int) =~= self.offered@);
        }
    }

    /// Takes in a successful batch whose footprint is `footprint`: a clone of
    /// it joins the buffer while the running total is below the budget.
    pub fn record_batch(&mut self, batch: &B, footprint: usize)
        requires
            old(self).wf(),
        ensures
            final(self).wf(),
            final(self)@ == with_batch(old(self)@, *batch, footprint as nat),
            !old(self)@.ended ==> clones_of(
                final(self).accumulated(),
                final(self)@.offered.take(
                    taken(final(self)@.footprints, final(self)@.budget) as int,
                ),
            ),
    {
        if self.ended {
            return;
        }
        proof {
            self.lemma_size_tracks_budget();
            lemma_total_push(self.footprints@, footprint as nat);
            assert(self.footprints@.push(footprint as nat).drop_last() =~= self.footprints@);
        }
        let ghost s = self.footprints@;
        let ghost k = taken(s, self.max_size as nat);
        let ghost s2 = s.push(footprint as nat);
        let ghost o2 = self.offered@.push(*batch);
        self.offered = Ghost(o2);
        self.footprints = Ghost(s2);
        if self.records_size < self.max_size {
            let copy = batch.clone();
            self.records.push(copy);
            self.records_size = self.records_size.saturating_add(footprint);
            proof {
                assert(s2.take(s2.len() as int) =~= s2);
                assert(o2.take(o2.len() as int) =~= o2);
                assert(clones_of(self.records@, o2));
            }
        } else {
            proof {
                lemma_taken(s, self.max_size as nat);
                lemma_total_take(s, k as int);
                assert(s2.take(k as int) =~= s.take(k as int));
                assert(o2.take(k as int) =~= old(self).offered@.take(k as int));
            }
        }
    }

    /// Handles one event of the stream and says what the driver does next:
    /// every element is forwarded unchanged, and the first end of a stream
    /// whose batches stayed strictly under the budget hands over a clone of
    /// each of them. `footprint` is what the batch of a successful element
    /// measured; other events ignore it.
    pub fn step<E>(&mut self, event: StreamEvent<B, E>, footprint: usize) -> (r: CacheAction<B, E>)
        requires
            old(self).wf(),
        ensures
            final(self).wf(),
            final(self)@ == after(old(self)@, event, footprint as nat),
            match event {
                StreamEvent::Next(item) => r == CacheAction::Forward(item),
                StreamEvent::End => if stores_on(old(self)@, event) {
                    r matches CacheAction::Store(records) && clones_of(records@, old(self)@.offered)
                } else {
                    r is Skip
                },
            },
    {
        match event {
            StreamEvent::Next(item) => {
                if let Ok(batch) = &item {
                    self.record_batch(batch, footprint);
                }
                CacheAction::Forward(item)
            },
            StreamEvent::End => {
                if self.ended {
                    return CacheAction::Skip;
                }
                proof {
                    self.lemma_size_tracks_budget();
                }
                let store = self.records_size < self.max_size;
                let mut records: Vec<B> = Vec::new();
                std::mem::swap(&mut records, &mut self.records);
                self.ended = true;
                if store {
                    CacheAction::Store(records)
                } else {
                    CacheAction::Skip
                }
            },
        }
    }
}

} // verus!
