//! What an encoder holds in any state that it comes to.
use vstd::prelude::*;

use crate::encoder::{CallState, EncoderState, Held, Task};
use crate::encoding::{allowed, law_begin, law_resume, plausible, task_data, under_way};
use crate::format::chunk;

verus! {

/// Something that happens to an encoder.
pub enum Step {
    /// A call begins, or goes on where it was given up.
    Begin(Task),
    /// The output took this many bytes, or was shut down.
    Reply(nat),
}

/// An encoder, the call that began last, and the data that has been taken since
/// a chunk was last begun.
pub struct Progress {
    pub e: EncoderState,
    pub c: Option<CallState>,
    pub pending: Seq<u8>,
}

impl Progress {
    /// The encoder and the call after a step.
    pub open spec fn next(self, step: Step) -> (EncoderState, Option<CallState>) {
        match (step, self.c) {
            (Step::Begin(task), _) => {
                let (e1, c1) = self.e.begin(task);
                (e1, Some(c1))
            },
            (Step::Reply(count), Some(c)) => {
                let (e1, c1) = self.e.resume(c, count);
                (e1, Some(c1))
            },
            (Step::Reply(_), None) => (self.e, None),
        }
    }

    /// The data of the write that had been taken before a step: that of a write
    /// which goes on.
    pub open spec fn taken_before(self, step: Step) -> Seq<u8> {
        match step {
            Step::Begin(Task::Write(data)) => if self.e.taken.is_prefix_of(data) {
                self.e.taken
            } else {
                Seq::empty()
            },
            Step::Begin(_) => Seq::empty(),
            Step::Reply(_) => if self.c is Some && self.c->0.request is Done {
                task_data(self.c->0.task)
            } else {
                self.e.taken
            },
        }
    }

    /// The data of the write that has been taken after a step.
    pub open spec fn taken_after(self, step: Step) -> Seq<u8> {
        match self.next(step) {
            (e1, Some(c1)) => if c1.request is Done {
                task_data(c1.task)
            } else {
                e1.taken
            },
            (e1, None) => e1.taken,
        }
    }

    /// The data that is taken in a step.
    pub open spec fn newly_taken(self, step: Step) -> Seq<u8> {
        self.taken_after(step).skip(self.taken_before(step).len() as int)
    }

    /// A chunk is begun in a step.
    pub open spec fn begins_chunk(self, step: Step) -> bool {
        &&& self.next(step).0.held is Sending
        &&& self.e.held is Sending ==> (step matches Step::Reply(count) && count
            >= self.e.held.unsent().len())
    }

    /// A step.
    pub open spec fn step(self, step: Step) -> Progress {
        let (e, c) = self.next(step);
        Progress {
            e,
            c,
            pending: if self.begins_chunk(step) {
                Seq::empty()
            } else {
                self.pending + self.newly_taken(step)
            },
        }
    }

    /// A call can begin, or the output takes no more than it is offered.
    pub open spec fn possible(self, step: Step) -> bool {
        match (step, self.c) {
            (Step::Begin(task), _) => allowed(self.e, task),
            (Step::Reply(count), Some(c)) => plausible(self.e, c, count),
            (Step::Reply(_), None) => true,
        }
    }

    /// The buffer holds the data that has been taken since a chunk was last
    /// begun, and nothing is pending while a chunk is being sent.
    pub open spec fn accounted(self) -> bool {
        &&& self.e.valid()
        &&& match self.c {
            Some(c) => under_way(self.e, c),
            None => self.e.held is Gathering,
        }
        &&& match self.e.held {
            Held::Gathering(data) => data == self.pending,
            _ => self.pending.len() == 0,
        }
    }
}

/// The data that is taken goes behind the data held back, in the buffer or in a
/// chunk.
proof fn lemma_taken(e: EncoderState, data: Seq<u8>)
    requires
        e.held is Gathering,
        e.held.len() <= e.chunks_size,
        e.taken.is_prefix_of(data),
        e.writable((data.len() - e.taken.len()) as nat),
    ensures
        ({
            let (e1, c1) = e.take(data);
            let after = if c1.request is Done {
                data
            } else {
                e1.taken
            };
            let all = e.held->Gathering_0 + after.skip(e.taken.len() as int);
            &&& e.taken.is_prefix_of(after)
            &&& if c1.request is Done {
                e1.held == Held::Gathering(all)
            } else {
                &&& all.len() > 0
                &&& e1.held is Sending
                &&& e1.held.unsent() == chunk(all)
            }
        }),
{
    let (e1, c1) = e.take(data);
    let rest = data.skip(e.taken.len() as int);
    if c1.request is Done {
        assert(rest.take(rest.len() as int) =~= rest);
    } else {
        let count = e1.taken.len() - e.taken.len();
        assert(e1.taken.skip(e.taken.len() as int) =~= rest.take(count));
        assert(e.taken =~= e1.taken.subrange(0, e.taken.len() as int));
    }
}

/// The proof of [`law_step`].
proof fn lemma_step(p: Progress, step: Step)
    requires
        p.accounted(),
        p.possible(step),
    ensures
        p.step(step).accounted(),
        p.taken_before(step).is_prefix_of(p.taken_after(step)),
        p.begins_chunk(step) ==> {
            let data = p.pending + p.newly_taken(step);
            &&& data.len() > 0
            &&& p.step(step).e.held.unsent() == chunk(data)
        },
{
    let none = Seq::<u8>::empty();
    let before = p.taken_before(step);
    let next = EncoderState { taken: before, ..p.e };
    let empty = EncoderState { held: Held::nothing(), ..next };
    assert(p.pending.len() == 0 ==> p.pending =~= none);
    assert(p.pending + none =~= p.pending);
    assert(before.skip(before.len() as int) =~= none);
    assert(none.skip(0) =~= none);
    assert(before.is_prefix_of(before));
    assert(p.e.taken.len() == 0 ==> p.e.taken =~= none);
    match step {
        Step::Begin(task) => {
            law_begin(p.e, task);
            if let Task::Write(data) = task {
                assert(none.is_prefix_of(data));
                if p.e.held is Gathering {
                    lemma_taken(next, data);
                } else {
                    lemma_taken(empty, data);
                }
            }
        },
        Step::Reply(count) => {
            if let Some(c) = p.c {
                law_resume(p.e, c, count);
                if let Task::Write(data) = c.task {
                    if c.request is Write {
                        lemma_taken(empty, data);
                    }
                }
            }
        },
    }
}

/// Each step keeps account of the data that is taken: a chunk that is begun holds
/// all the data that has been taken and not been put into a chunk before, and as
/// long as none is begun the buffer holds that data. No data of a write is left
/// out: what is taken in a step follows what had been taken of the same write.
pub proof fn law_step(p: Progress, step: Step)
    requires
        p.accounted(),
        p.possible(step),
    ensures
        p.step(step).accounted(),
        p.taken_before(step) + p.newly_taken(step) == p.taken_after(step),
        p.begins_chunk(step) ==> {
            let data = p.pending + p.newly_taken(step);
            &&& data.len() > 0
            &&& p.step(step).e.held.unsent() == chunk(data)
        },
{
    lemma_step(p, step);
    assert(p.taken_before(step) + p.newly_taken(step) =~= p.taken_after(step));
}

/// An encoder after steps.
pub open spec fn run(p: Progress, steps: Seq<Step>) -> Progress
    decreases steps.len(),
{
    if steps.len() == 0 {
        p
    } else {
        run(p.step(steps.first()), steps.drop_first())
    }
}

/// Every step is possible when it comes.
pub open spec fn all_possible(p: Progress, steps: Seq<Step>) -> bool
    decreases steps.len(),
{
    steps.len() > 0 ==> {
        &&& p.possible(steps.first())
        &&& all_possible(p.step(steps.first()), steps.drop_first())
    }
}

/// In every state that an encoder comes to, whichever calls began, were given up
/// or were called again, and whatever the output took: when no chunk is being
/// sent the buffer holds the data that has been taken and has not been put into
/// a chunk, and its length is zero exactly if there is none.
pub proof fn law_reachable(p: Progress, steps: Seq<Step>)
    requires
        p.accounted(),
        all_possible(p, steps),
    ensures
        ({
            let q = run(p, steps);
            &&& q.accounted()
            &&& q.e.held !is Sending ==> {
                &&& q.e.held.len() == q.pending.len()
                &&& q.e.held is Gathering ==> q.e.held == Held::Gathering(q.pending)
            }
        }),
    decreases steps.len(),
{
    if steps.len() > 0 {
        law_step(p, steps.first());
        law_reachable(p.step(steps.first()), steps.drop_first());
    }
}

} // verus!
