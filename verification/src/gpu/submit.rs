//! Command buffers of one pool: each is recorded again only after the submission that used it has
//! completed.
use crate::gpu::timeline::{done, law_done_items_come_first, ordered, Retirement};
use vstd::prelude::*;

verus! {

/// Recycles command buffers once the submission that used them has completed. A buffer is known by
/// its handle.
pub struct Submitter {
    free: Vec<u64>,
    in_flight: Retirement<u64>,
}

impl Submitter {
    /// The buffers that may be recorded, the last one first.
    pub closed spec fn spec_free(&self) -> Seq<u64> {
        self.free@
    }

    /// The buffers that the device may still read, with the value each waits for.
    pub closed spec fn spec_in_flight(&self) -> Seq<(u64, u64)> {
        self.in_flight@
    }

    pub closed spec fn wf(&self) -> bool {
        self.in_flight.wf()
    }

    pub fn new() -> (r: Submitter)
        ensures
            r.wf(),
            r.spec_free() == Seq::<u64>::empty(),
            r.spec_in_flight() == Seq::<(u64, u64)>::empty(),
    {
        Submitter { free: Vec::new(), in_flight: Retirement::default() }
    }

    /// What is free once the submissions up to `completed` are done.
    pub open spec fn freed(&self, completed: u64) -> Seq<u64> {
        self.spec_free() + Seq::new(done(self.spec_in_flight(), completed), |i: int| self.spec_in_flight()[i].1)
    }

    /// A buffer to record into again, or `None` when one has to be made. `completed` is the value the
    /// device has reached.
    pub fn begin(&mut self, completed: u64) -> (r: Option<u64>)
        requires
            old(self).wf(),
        ensures
            final(self).wf(),
            final(self).spec_in_flight() == old(self).spec_in_flight().skip(done(old(self).spec_in_flight(), completed) as int),
            match r {
                Some(c) => old(self).freed(completed).len() > 0 && c == old(self).freed(completed).last() && final(self).spec_free() == old(
                    self,
                ).freed(completed).drop_last(),
                None => old(self).freed(completed).len() == 0 && final(self).spec_free() == Seq::<u64>::empty(),
            },
    {
        let mut done_now = self.in_flight.collect(completed);
        self.free.append(&mut done_now);
        assert(self.free@ =~= old(self).freed(completed));
        self.free.pop()
    }

    /// `cmd` was submitted and is done when the timeline reaches `value`.
    pub fn submitted(&mut self, value: u64, cmd: u64)
        requires
            old(self).wf(),
            old(self).spec_in_flight().len() > 0 ==> old(self).spec_in_flight().last().0 <= value,
        ensures
            final(self).wf(),
            final(self).spec_free() == old(self).spec_free(),
            final(self).spec_in_flight() == old(self).spec_in_flight().push((value, cmd)),
    {
        self.in_flight.push(value, cmd);
    }
}

/// A buffer handed out was free or belonged to a submission that has completed, so none is recorded
/// while the device reads it.
pub proof fn law_recycled_buffers_are_done(s: &Submitter, completed: u64, c: u64)
    requires
        s.freed(completed).len() > 0,
        c == s.freed(completed).last(),
    ensures
        s.spec_free().contains(c) || exists|i: int|
            0 <= i < s.spec_in_flight().len() && (#[trigger] s.spec_in_flight()[i]).1 == c && s.spec_in_flight()[i].0 <= completed,
{
    let n = done(s.spec_in_flight(), completed);
    if n == 0 {
        assert(s.freed(completed).last() == s.spec_free().last());
    } else {
        lemma_done(s.spec_in_flight(), completed, n - 1);
        assert(s.spec_in_flight()[n - 1].1 == c);
    }
}

proof fn lemma_done(q: Seq<(u64, u64)>, completed: u64, i: int)
    requires
        0 <= i < done(q, completed),
    ensures
        i < q.len(),
        q[i].0 <= completed,
    decreases q.len(),
{
    if i > 0 {
        lemma_done(q.drop_first(), completed, i - 1);
    }
}

/// Everything that may be used again is: what was free, in its order, and behind it every buffer of a submission that
/// has completed; no other.
pub proof fn law_done_buffers_are_free_again(s: &Submitter, completed: u64, i: int)
    requires
        ordered(s.spec_in_flight()),
        0 <= i < s.spec_in_flight().len(),
    ensures
        s.freed(completed).take(s.spec_free().len() as int) == s.spec_free(),
        s.spec_in_flight()[i].0 <= completed ==> s.spec_free().len() + i < s.freed(completed).len() && s.freed(completed)[s.spec_free().len() + i]
            == s.spec_in_flight()[i].1,
        s.spec_in_flight()[i].0 > completed ==> s.freed(completed).len() <= s.spec_free().len() + i,
{
    law_done_items_come_first(s.spec_in_flight(), completed);
    assert(s.freed(completed).take(s.spec_free().len() as int) =~= s.spec_free());
}

} // verus!
