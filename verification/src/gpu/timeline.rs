//! Submission ordering and retirement on one timeline.
//!
//! - Every queue submission that uses resources signals the next timeline value. A resource (or a
//!   reader token) used by submissions up to value `v` is retired at `v`: it is freed (or released)
//!   only once the timeline's counter has reached `v`.
//! - [`FrameReaders`] holds a [`ReaderToken`] until the submission that read that snapshot has
//!   completed, so last-reader retirement waits for the GPU.
use crate::derived::pipeline::{Pipeline, Stats};
use crate::derived::store::ReaderToken;
use std::collections::VecDeque;
use vstd::prelude::*;

verus! {

/// The values of one timeline, handed out in order.
#[derive(Debug, PartialEq, Eq)]
pub struct Timeline {
    last_signal: u64,
}

impl Timeline {
    pub closed spec fn at(&self) -> u64 {
        self.last_signal
    }

    pub fn new() -> (r: Timeline)
        ensures
            r.at() == 0,
    {
        Timeline { last_signal: 0 }
    }

    /// The value the next submission will signal. Values only grow.
    pub fn next_value(&mut self) -> (r: u64)
        requires
            old(self).at() < u64::MAX,
        ensures
            r == old(self).at() + 1,
            final(self).at() == r,
    {
        self.last_signal = self.last_signal + 1;
        self.last_signal
    }

    /// Highest value handed out so far.
    pub fn last_signal(&self) -> (r: u64)
        ensures
            r == self.at(),
    {
        self.last_signal
    }
}

/// How many items of `s`, from the front, have a value of at most `completed`.
pub open spec fn done<T>(s: Seq<(u64, T)>, completed: u64) -> nat
    decreases s.len(),
{
    if s.len() == 0 || s[0].0 > completed {
        0
    } else {
        1 + done(s.subrange(1, s.len() as int), completed)
    }
}

/// Values do not decrease.
pub open spec fn ordered<T>(s: Seq<(u64, T)>) -> bool {
    forall|i: int, j: int| 0 <= i <= j < s.len() ==> (#[trigger] s[i]).0 <= (#[trigger] s[j]).0
}

/// Exactly the items in front, up to the count, are done.
pub proof fn law_done_items_come_first<T>(s: Seq<(u64, T)>, completed: u64)
    requires
        ordered(s),
    ensures
        done(s, completed) <= s.len(),
        forall|i: int| 0 <= i < s.len() ==> ((#[trigger] s[i]).0 <= completed <==> i < done(s, completed)),
    decreases s.len(),
{
    if s.len() > 0 && s[0].0 <= completed {
        let rest = s.subrange(1, s.len() as int);
        assert forall|i: int, j: int| 0 <= i <= j < rest.len() implies (#[trigger] rest[i]).0 <= (#[trigger] rest[j]).0 by {
            assert(rest[i] == s[i + 1] && rest[j] == s[j + 1]);
        }
        law_done_items_come_first(rest, completed);
        assert forall|i: int| 0 <= i < s.len() implies ((#[trigger] s[i]).0 <= completed <==> i < done(s, completed)) by {
            if i > 0 {
                assert(rest[i - 1] == s[i]);
            }
        }
    }
}

/// Items waiting for the timeline to pass the value of their last use.
#[verifier::reject_recursive_types(T)]
#[derive(Debug)]
pub struct Retirement<T> {
    pending: VecDeque<(u64, T)>,
}

impl<T> Default for Retirement<T> {
    fn default() -> (r: Retirement<T>)
        ensures
            r.wf(),
            r@ == Seq::<(u64, T)>::empty(),
    {
        Retirement { pending: VecDeque::new() }
    }
}

impl<T> View for Retirement<T> {
    type V = Seq<(u64, T)>;

    closed spec fn view(&self) -> Seq<(u64, T)> {
        self.pending@
    }
}

impl<T> Retirement<T> {
    pub open spec fn wf(&self) -> bool {
        ordered(self@)
    }

    /// Retires `item` at `value`. Values must not decrease (they come from one timeline).
    pub fn push(&mut self, value: u64, item: T)
        requires
            old(self).wf(),
            old(self)@.len() > 0 ==> old(self)@.last().0 <= value,
        ensures
            final(self).wf(),
            final(self)@ == old(self)@.push((value, item)),
    {
        self.pending.push_back((value, item));
    }

    /// Removes and returns every item whose value is at most `completed`.
    pub fn collect(&mut self, completed: u64) -> (r: Vec<T>)
        requires
            old(self).wf(),
        ensures
            final(self).wf(),
            r@ == Seq::new(done(old(self)@, completed), |i: int| old(self)@[i].1),
            final(self)@ == old(self)@.skip(done(old(self)@, completed) as int),
    {
        let ghost all = self@;
        let mut out: Vec<T> = Vec::new();
        assert(all.skip(0) =~= all);
        while self.pending.len() > 0 && self.pending[0].0 <= completed
            invariant
                all == old(self)@,
                out@.len() <= all.len(),
                self@ == all.skip(out@.len() as int),
                done(all, completed) == out@.len() + done(self@, completed),
                forall|i: int| 0 <= i < out@.len() ==> #[trigger] out@[i] == all[i].1,
            decreases self@.len(),
        {
            let ghost n = out@.len() as int;
            assert(self@[0] == all[n]);
            if let Some((_, item)) = self.pending.pop_front() {
                out.push(item);
            }
            assert(self@ =~= all.skip(n + 1));
        }
        proof {
            assert(out@ =~= Seq::new(done(all, completed), |i: int| all[i].1));
            let n = out@.len() as int;
            assert forall|i: int, j: int| 0 <= i <= j < self@.len() implies (#[trigger] self@[i]).0 <= (#[trigger] self@[j]).0 by {
                assert(self@[i] == all[i + n] && self@[j] == all[j + n]);
            }
        }
        out
    }

    pub fn len(&self) -> (r: usize)
        ensures
            r == self@.len(),
    {
        self.pending.len()
    }

    pub fn is_empty(&self) -> (r: bool)
        ensures
            r == (self@.len() == 0),
    {
        self.pending.len() == 0
    }
}

/// Reader tokens held by GPU submissions.
#[derive(Debug)]
pub struct FrameReaders {
    held: Retirement<ReaderToken>,
}

impl Default for FrameReaders {
    fn default() -> (r: FrameReaders)
        ensures
            r.wf(),
            r@ == Seq::<(u64, ReaderToken)>::empty(),
    {
        FrameReaders { held: Retirement::default() }
    }
}

impl View for FrameReaders {
    type V = Seq<(u64, ReaderToken)>;

    closed spec fn view(&self) -> Seq<(u64, ReaderToken)> {
        self.held@
    }
}

/// `m` without the readers of the first `n` tokens.
pub open spec fn without(m: Map<u64, u64>, held: Seq<(u64, ReaderToken)>, n: nat) -> Map<u64, u64>
    decreases n,
{
    if n == 0 {
        m
    } else {
        without(m, held, (n - 1) as nat).remove(held[n - 1].1.id.number)
    }
}

/// The tokens held are readers of the pipeline, each held once.
pub open spec fn readers_of(held: Seq<(u64, ReaderToken)>, m: Map<u64, u64>) -> bool {
    &&& forall|i: int| 0 <= i < held.len() ==> m.dom().contains((#[trigger] held[i]).1.id.number)
    &&& forall|i: int, j: int| 0 <= i < j < held.len() ==> (#[trigger] held[i]).1.id.number != (#[trigger] held[j]).1.id.number
}

proof fn lemma_without(m: Map<u64, u64>, held: Seq<(u64, ReaderToken)>, n: nat)
    requires
        n <= held.len(),
        readers_of(held, m),
    ensures
        forall|i: int| n <= i < held.len() ==> without(m, held, n).dom().contains((#[trigger] held[i]).1.id.number),
        forall|r: u64| #[trigger] without(m, held, n).dom().contains(r) ==> m.dom().contains(r) && without(m, held, n)[r] == m[r],
    decreases n,
{
    if n > 0 {
        lemma_without(m, held, (n - 1) as nat);
    }
}

impl FrameReaders {
    pub closed spec fn wf(&self) -> bool {
        self.held.wf()
    }

    /// The tokens are in the order of their values.
    pub proof fn law_tokens_are_in_order(&self)
        requires
            self.wf(),
        ensures
            ordered(self@),
    {
    }

    /// The submission signalling `value` reads the snapshot `token` names.
    pub fn hold(&mut self, value: u64, token: ReaderToken)
        requires
            old(self).wf(),
            old(self)@.len() > 0 ==> old(self)@.last().0 <= value,
        ensures
            final(self).wf(),
            final(self)@ == old(self)@.push((value, token)),
    {
        self.held.push(value, token);
    }

    /// Releases every token whose submission has completed, and no other. Returns how many were
    /// released.
    pub fn release_completed(&mut self, pipeline: &mut Pipeline, completed: u64) -> (r: usize)
        requires
            old(self).wf(),
            old(pipeline).wf(),
            readers_of(old(self)@, old(pipeline).spec_store().holding()),
            old(pipeline).spec_stats().freed + old(pipeline).spec_store().fading().len() <= u64::MAX,
        ensures
            final(self).wf(),
            r == done(old(self)@, completed),
            final(self)@ == old(self)@.skip(r as int),
            final(pipeline).wf(),
            final(pipeline).settles(old(pipeline)),
            final(pipeline).same_table(old(pipeline)),
            final(pipeline).spec_store().holding() == without(old(pipeline).spec_store().holding(), old(self)@, r as nat),
            final(pipeline).spec_store().readers_made() == old(pipeline).spec_store().readers_made(),
            readers_of(final(self)@, final(pipeline).spec_store().holding()),
            final(pipeline).spec_stats() == (Stats {
                freed: (old(pipeline).spec_stats().freed + old(pipeline).spec_store().fading().len() - final(pipeline).spec_store().fading().len()) as u64,
                ..old(pipeline).spec_stats()
            }),
            final(pipeline).spec_store().fading().len() <= old(pipeline).spec_store().fading().len(),
            final(pipeline).spec_store().swept(old(pipeline).spec_store().meshes().dom(), old(pipeline).spec_store().fading()),
            forall|i: u64| #[trigger]
                final(pipeline).spec_store().snaps().dom().contains(i) <==> old(pipeline).spec_store().snaps().dom().contains(i) && (i
                    == final(pipeline).spec_store().cur() || final(pipeline).spec_store().held(i)),
            forall|i: u64| #[trigger]
                final(pipeline).spec_store().snaps().dom().contains(i) ==> final(pipeline).spec_store().snaps()[i] == old(
                    pipeline,
                ).spec_store().snaps()[i],
    {
        let ghost all = self@;
        let ghost start = *pipeline;
        let ghost m = start.spec_store().holding();
        proof {
            law_done_items_come_first(all, completed);
            start.law_store_is_sound();
            start.spec_store().lemma_swept_already();
            start.spec_store().law_live_entries_resolve();
        }
        let mut rest = self.held.collect(completed);
        let n: usize = rest.len();
        let ghost out = rest@;
        let mut i: usize = 0;
        while i < n
            invariant
                i <= n == out.len(),
                n <= all.len(),
                rest@ == out.skip(i as int),
                forall|j: int| 0 <= j < n ==> #[trigger] out[j] == all[j].1,
                m == start.spec_store().holding(),
                readers_of(all, m),
                pipeline.wf(),
                pipeline.same_table(&start),
                pipeline.spec_store().holding() == without(m, all, i as nat),
                pipeline.spec_store().readers_made() == start.spec_store().readers_made(),
                start.spec_stats().freed + start.spec_store().fading().len() <= u64::MAX,
                pipeline.spec_store().fading().len() <= start.spec_store().fading().len(),
                pipeline.spec_stats() == (Stats {
                    freed: (start.spec_stats().freed + start.spec_store().fading().len() - pipeline.spec_store().fading().len()) as u64,
                    ..start.spec_stats()
                }),
                pipeline.spec_store().swept(start.spec_store().meshes().dom(), start.spec_store().fading()),
                forall|k: u64| #[trigger]
                    pipeline.spec_store().snaps().dom().contains(k) <==> start.spec_store().snaps().dom().contains(k) && (k
                        == pipeline.spec_store().cur() || pipeline.spec_store().held(k)),
                forall|k: u64| #[trigger]
                    pipeline.spec_store().snaps().dom().contains(k) ==> pipeline.spec_store().snaps()[k] == start.spec_store().snaps()[k],
            decreases n - i,
        {
            let ghost mid = pipeline.spec_store();
            proof {
                lemma_without(m, all, i as nat);
                assert(rest@[0] == out[i as int]);
                assert(out[i as int] == all[i as int].1);
                assert(m.dom().contains(all[i as int].1.id.number));
            }
            let token = rest.remove(0);
            let _ = pipeline.release(token);
            proof {
                let store = pipeline.spec_store();
                assert forall|r: u64| #[trigger] store.holding().dom().contains(r) implies mid.holding().dom().contains(r) && mid.holding()[r]
                    == store.holding()[r] by {}
                store.lemma_swept_on(&mid, start.spec_store().meshes().dom(), start.spec_store().fading());
                assert forall|k: u64| #[trigger] store.snaps().dom().contains(k) <==> start.spec_store().snaps().dom().contains(k) && (k
                    == store.cur() || store.held(k)) by {
                    if store.held(k) {
                        let r = choose|r: u64| #[trigger] store.holding().dom().contains(r) && store.holding()[r] == k;
                        assert(mid.holding().dom().contains(r));
                        assert(mid.held(k));
                    }
                    assert(mid.snaps().dom().contains(k) <==> start.spec_store().snaps().dom().contains(k) && (k == mid.cur() || mid.held(k)));
                }
                assert forall|k: u64| #[trigger] store.snaps().dom().contains(k) implies store.snaps()[k] == start.spec_store().snaps()[k] by {
                    assert(mid.snaps().dom().contains(k));
                }
            }
            assert(rest@ =~= out.skip(i + 1));
            i += 1;
        }
        proof {
            lemma_without(m, all, n as nat);
            let left = all.skip(n as int);
            assert forall|j: int| 0 <= j < left.len() implies pipeline.spec_store().holding().dom().contains((#[trigger] left[j]).1.id.number) by {
                assert(left[j] == all[j + n]);
            }
            assert forall|a: int, b: int| 0 <= a < b < left.len() implies (#[trigger] left[a]).1.id.number != (#[trigger] left[b]).1.id.number by {
                assert(left[a] == all[a + n] && left[b] == all[b + n]);
            }
            pipeline.lemma_released_settles(&start);
        }
        n
    }

    pub fn len(&self) -> (r: usize)
        ensures
            r == self@.len(),
    {
        self.held.len()
    }

    pub fn is_empty(&self) -> (r: bool)
        ensures
            r == (self@.len() == 0),
    {
        self.held.is_empty()
    }
}

/// A snapshot that a running submission reads stays: a held token whose value is not yet reached
/// is still a reader after every completed token was released.
pub proof fn law_readers_outlive_their_submissions(held: Seq<(u64, ReaderToken)>, m: Map<u64, u64>, completed: u64, i: int)
    requires
        ordered(held),
        readers_of(held, m),
        0 <= i < held.len(),
        held[i].0 > completed,
    ensures
        without(m, held, done(held, completed)).dom().contains(held[i].1.id.number),
        without(m, held, done(held, completed))[held[i].1.id.number] == m[held[i].1.id.number],
{
    law_done_items_come_first(held, completed);
    lemma_without(m, held, done(held, completed));
}

} // verus!
