//! What a call of the encoder comes to, whatever state it begins in and whatever
//! the output takes.
use vstd::prelude::*;

use crate::encoder::{CallState, EncoderState, Held, Task, WriteRequest};
use crate::encoding::{
    all_plausible, driven, due, kept, law_begin, law_call, law_resume, law_written, lemma_driven,
    lemma_take, offered, outcome, pieces, under_way,
};
use crate::format::{chunks, last_chunk};

verus! {

/// What a call writes, byte for byte. First comes what is left of a chunk that is
/// being sent. A write then makes chunks of the data held back and its own, but
/// for what it had taken when it was given up. The other calls make one chunk of
/// the data held back, if there is any. A finish and a shutdown end the message,
/// once. The output is asked to shut down in a shutdown alone, and when it has
/// taken all of this. A call that has ended has written all of it, a write has
/// taken all of its data, and what is held back is what did not go into a chunk.
/// (A flush after a finish that was given up has nothing to send. A write after it
/// completes the last chunk if some of it was taken.)
pub proof fn law_call_writes(e: EncoderState, task: Task, counts: Seq<nat>)
    requires
        e.valid(),
        task matches Task::Write(data) ==> data.len() <= usize::MAX && (e.chunks_size > 0
            || data.len() == 0),
        all_plausible(e.begin(task).0, e.begin(task).1, counts),
    ensures
        ({
            let (e1, c1, bytes) = driven(e.begin(task).0, e.begin(task).1, counts);
            let first = match e.held {
                Held::Gathering(_) => Seq::<u8>::empty(),
                Held::Sending { unsent, .. } => unsent,
                Held::Ending { unsent } => if task is Flush || (task is Write && unsent.len()
                    == 5) {
                    Seq::empty()
                } else {
                    unsent
                },
            };
            let held = match e.held {
                Held::Gathering(held) => held,
                _ => Seq::empty(),
            };
            let fresh = match task {
                Task::Write(data) => if e.taken.is_prefix_of(data) {
                    data.skip(e.taken.len() as int)
                } else {
                    data
                },
                _ => Seq::empty(),
            };
            let parts = if task is Write {
                pieces(e.chunks_size, e.flush_after_write, held + fresh)
            } else if held.len() > 0 {
                seq![held]
            } else {
                Seq::empty()
            };
            let last = if (task is Finish || task is Shutdown) && e.held !is Ending {
                seq![48u8, 13u8, 10u8, 13u8, 10u8]
            } else {
                Seq::empty()
            };
            let all = first + chunks(parts) + last;
            &&& c1.task == task
            &&& bytes.is_prefix_of(all)
            &&& c1.request is Write ==> {
                &&& e1.held.unsent().len() > 0
                &&& (bytes + e1.held.unsent()).is_prefix_of(all)
                &&& task !is Write ==> bytes + e1.held.unsent() == all || bytes + e1.held.unsent()
                    == first + chunks(parts)
            }
            &&& c1.request is Shutdown ==> task is Shutdown && bytes == all
            &&& c1.request matches WriteRequest::Done(count) ==> {
                &&& bytes == all
                &&& count == match task {
                    Task::Write(data) => data.len(),
                    _ => 0,
                }
                &&& e1.chunks_size == e.chunks_size
                &&& e1.flush_after_write == e.flush_after_write
                &&& e1.taken.len() == 0
                &&& e1.held == if task is Write {
                    Held::Gathering(kept(e.chunks_size, e.flush_after_write, held + fresh))
                } else if task is Flush && e.held is Ending {
                    e.held
                } else {
                    Held::Gathering(Seq::empty())
                }
            }
        }),
{
    let (e0, c0) = e.begin(task);
    let (e1, c1, bytes) = driven(e0, c0, counts);
    let none = Seq::<u8>::empty();
    law_begin(e, task);
    law_call(e0, c0, counts);
    lemma_driven(e0, c0, counts);
    lemma_due(e, task);
    let later = due(e1, c1);
    let now = offered(e1, c1);
    assert(bytes =~= (bytes + later).subrange(0, bytes.len() as int));
    assert(now + later.skip(now.len() as int) =~= later);
    assert(bytes + now =~= (bytes + later).subrange(0, (bytes + now).len() as int));
    assert(c1.request !is Write ==> later =~= none);
    assert(bytes + none =~= bytes);
    assert(e1.taken.len() == 0 ==> e1.taken =~= none);
    if c1.request is Write && task !is Write {
        let all = bytes + later;
        let rest = later.skip(now.len() as int);
        assert(all =~= (bytes + now) + rest);
        assert(rest.len() == 0 ==> bytes + now =~= all);
        if rest.len() > 0 {
            assert(rest =~= last_chunk());
            assert(all.take(all.len() - 5) =~= bytes + now);
        }
    }
}

/// All that a call has to write, and what it leaves behind.
proof fn lemma_due(e: EncoderState, task: Task)
    requires
        e.valid(),
        task matches Task::Write(data) ==> data.len() <= usize::MAX && (e.chunks_size > 0
            || data.len() == 0),
    ensures
        ({
            let (e0, c0) = e.begin(task);
            let first = match e.held {
                Held::Gathering(_) => Seq::<u8>::empty(),
                Held::Sending { unsent, .. } => unsent,
                Held::Ending { unsent } => if task is Flush || (task is Write && unsent.len()
                    == 5) {
                    Seq::empty()
                } else {
                    unsent
                },
            };
            let held = match e.held {
                Held::Gathering(held) => held,
                _ => Seq::empty(),
            };
            let fresh = match task {
                Task::Write(data) => if e.taken.is_prefix_of(data) {
                    data.skip(e.taken.len() as int)
                } else {
                    data
                },
                _ => Seq::empty(),
            };
            let parts = if task is Write {
                pieces(e.chunks_size, e.flush_after_write, held + fresh)
            } else if held.len() > 0 {
                seq![held]
            } else {
                Seq::empty()
            };
            let last = if (task is Finish || task is Shutdown) && e.held !is Ending {
                seq![48u8, 13u8, 10u8, 13u8, 10u8]
            } else {
                Seq::empty()
            };
            &&& due(e0, c0) == first + chunks(parts) + last
            &&& outcome(e0, c0) == if task is Write {
                Held::Gathering(kept(e.chunks_size, e.flush_after_write, held + fresh))
            } else if task is Flush && e.held is Ending {
                e.held
            } else {
                Held::Gathering(Seq::empty())
            }
        }),
{
    let (e0, c0) = e.begin(task);
    let none = Seq::<u8>::empty();
    let no_parts = Seq::<Seq<u8>>::empty();
    assert(chunks(no_parts) =~= none);
    assert(last_chunk() =~= seq![48u8, 13u8, 10u8, 13u8, 10u8]);
    assert(e.taken.len() == 0 ==> e.taken =~= none);
    if e.held is Gathering {
        law_written(e, task);
        if let Task::Write(data) = task {
            assert(e.taken.is_prefix_of(data));
            assert(data.skip(0) =~= data);
            let all = chunks(
                pieces(e.chunks_size, e.flush_after_write, e.held->Gathering_0 + data),
            );
            assert(none + all + none =~= all + none);
        } else {
            let one = chunks(crate::encoding::sent_pieces(e, task));
            assert(none + one =~= one);
        }
    } else {
        match task {
            Task::Write(data) => {
                assert(data.skip(0) =~= data);
                assert(none.is_prefix_of(data));
                let taken = if e.taken.is_prefix_of(data) {
                    e.taken
                } else {
                    none
                };
                let fresh = data.skip(taken.len() as int);
                assert(none + fresh =~= fresh);
                let more = chunks(pieces(e.chunks_size, e.flush_after_write, fresh));
                let unsent = e.held.unsent();
                assert(unsent + more + none =~= unsent + more);
                assert(none + more + none =~= more);
                assert(unsent.len() == 0 ==> unsent =~= none);
                lemma_take(EncoderState { held: Held::nothing(), taken, ..e }, data);
            },
            _ => {
                let unsent = e.held.unsent();
                assert(unsent.len() == 0 ==> unsent =~= none);
                assert(unsent + none =~= unsent);
                assert(none + none + none =~= none);
                assert(none + none =~= none);
            },
        }
    }
}

/// How often the output was shut down in a call.
pub open spec fn shutdowns(e: EncoderState, c: CallState, counts: Seq<nat>) -> nat
    decreases counts.len(),
{
    if counts.len() == 0 {
        0
    } else {
        let (e1, c1) = e.resume(c, counts.first());
        let later = shutdowns(e1, c1, counts.drop_first());
        if c.request is Shutdown {
            later + 1
        } else {
            later
        }
    }
}

/// A shutdown that has ended has shut the output down, once, and one that has not
/// ended has not. No other call shuts it down.
pub proof fn law_shutdown(e: EncoderState, task: Task, counts: Seq<nat>)
    requires
        e.valid(),
        task matches Task::Write(data) ==> data.len() <= usize::MAX && (e.chunks_size > 0
            || data.len() == 0),
        all_plausible(e.begin(task).0, e.begin(task).1, counts),
    ensures
        ({
            let (e0, c0) = e.begin(task);
            let c1 = driven(e0, c0, counts).1;
            shutdowns(e0, c0, counts) == if task is Shutdown && c1.request is Done {
                1nat
            } else {
                0
            }
        }),
{
    law_begin(e, task);
    lemma_shutdowns(e.begin(task).0, e.begin(task).1, counts);
}

proof fn lemma_shutdowns(e: EncoderState, c: CallState, counts: Seq<nat>)
    requires
        under_way(e, c),
        all_plausible(e, c, counts),
    ensures
        shutdowns(e, c, counts) == if c.task is Shutdown && c.request !is Done && driven(
            e,
            c,
            counts,
        ).1.request is Done {
            1nat
        } else {
            0
        },
        c.request is Done ==> driven(e, c, counts).1.request is Done,
    decreases counts.len(),
{
    if counts.len() > 0 {
        law_resume(e, c, counts.first());
        let (e1, c1) = e.resume(c, counts.first());
        lemma_shutdowns(e1, c1, counts.drop_first());
    }
}

/// A call that has ended stays so, and leaves the encoder as it is. More bytes
/// than there are count as all of them, and none change nothing.
pub proof fn law_reply_counts(e: EncoderState, c: CallState, count: nat)
    requires
        under_way(e, c),
    ensures
        c.request is Done ==> e.resume(c, count) == (e, c),
        c.request is Write ==> e.resume(c, 0) == (e, c),
        c.request is Write && count >= e.held.unsent().len() ==> e.resume(c, count) == e.resume(
            c,
            e.held.unsent().len(),
        ),
{
    let unsent = e.held.unsent();
    assert(unsent.skip(0) =~= unsent);
}

} // verus!
