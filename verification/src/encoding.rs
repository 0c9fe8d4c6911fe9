//! What the calls of an encoder write, however the output takes the bytes.
use vstd::prelude::*;

use crate::decoder::DecoderState;
use crate::decoding::{
    all_positive, between_messages, coming, law_message_is_read, read_to_end, ReadPlan,
};
use crate::encoder::{CallState, EncoderState, Held, Task, WriteRequest, MAX_CHUNK_SIZE};
use crate::format::{
    chunk, chunks, last_chunk, lemma_chunks_join, lemma_message_chunks, lemma_message_last_chunk,
    message,
};

verus! {

/// The pieces of `data` that go into chunks of their own, where a chunk holds
/// up to `size` bytes. What does not fill a chunk, and is not followed by more,
/// goes into one if it is to be flushed.
pub open spec fn pieces(size: nat, flush: bool, data: Seq<u8>) -> Seq<Seq<u8>>
    decreases data.len(),
{
    if size == 0 {
        Seq::empty()
    } else if data.len() > size {
        seq![data.take(size as int)] + pieces(size, flush, data.skip(size as int))
    } else if flush && data.len() > 0 {
        seq![data]
    } else {
        Seq::empty()
    }
}

/// The part of `data` that stays in the buffer.
pub open spec fn kept(size: nat, flush: bool, data: Seq<u8>) -> Seq<u8>
    decreases data.len(),
{
    if size == 0 {
        data
    } else if data.len() > size {
        kept(size, flush, data.skip(size as int))
    } else if flush {
        Seq::empty()
    } else {
        data
    }
}

/// No data is lost or changed: the pieces and what stays in the buffer are the
/// data. No piece is empty or larger than a chunk may be, and what stays in the
/// buffer does not exceed a chunk. Nothing stays in it after a flush.
pub proof fn law_pieces(size: nat, flush: bool, data: Seq<u8>)
    requires
        size > 0,
    ensures
        pieces(size, flush, data).flatten() + kept(size, flush, data) == data,
        forall|i: int|
            0 <= i < pieces(size, flush, data).len() ==> 0 < (#[trigger] pieces(
                size,
                flush,
                data,
            )[i]).len() <= size,
        kept(size, flush, data).len() <= size,
        flush ==> kept(size, flush, data).len() == 0,
    decreases data.len(),
{
    let all = pieces(size, flush, data);
    if data.len() > size {
        let head = data.take(size as int);
        let rest = data.skip(size as int);
        law_pieces(size, flush, rest);
        let more = pieces(size, flush, rest);
        assert(all.drop_first() =~= more);
        assert(all.flatten() == head + more.flatten());
        assert(head + more.flatten() + kept(size, flush, rest) =~= head + rest);
        assert(head + rest =~= data);
        assert forall|i: int| 0 <= i < all.len() implies 0 < (#[trigger] all[i]).len() <= size by {
            if i > 0 {
                assert(all[i] == more[i - 1]);
            }
        }
    } else if flush && data.len() > 0 {
        assert(all.drop_first() =~= Seq::<Seq<u8>>::empty());
        assert(all.drop_first().flatten() =~= Seq::<u8>::empty());
        assert(all.flatten() == data + all.drop_first().flatten());
        assert(all.flatten() + kept(size, flush, data) =~= data);
    } else {
        assert(all.flatten() =~= Seq::<u8>::empty());
        assert(all.flatten() + kept(size, flush, data) =~= data);
    }
}

/// The bytes that a call asks to be written next.
pub open spec fn offered(e: EncoderState, c: CallState) -> Seq<u8> {
    match c.request {
        WriteRequest::Write => e.held.unsent(),
        _ => Seq::empty(),
    }
}

/// All the bytes that a call has still to write.
pub open spec fn due(e: EncoderState, c: CallState) -> Seq<u8> {
    offered(e, c) + match c.request {
        WriteRequest::Write => match c.task {
            Task::Write(data) => chunks(
                pieces(e.chunks_size, e.flush_after_write, data.skip(e.taken.len() as int)),
            ),
            Task::Flush => Seq::empty(),
            Task::Finish | Task::Shutdown => if e.held is Ending {
                Seq::empty()
            } else {
                last_chunk()
            },
        },
        _ => Seq::empty(),
    }
}

/// What the encoder holds back when a call has written all that it has to.
pub open spec fn outcome(e: EncoderState, c: CallState) -> Held {
    match c.request {
        WriteRequest::Write => match c.task {
            Task::Write(data) => Held::Gathering(
                kept(e.chunks_size, e.flush_after_write, data.skip(e.taken.len() as int)),
            ),
            _ => Held::nothing(),
        },
        WriteRequest::Shutdown => Held::nothing(),
        WriteRequest::Done(_) => e.held,
    }
}

/// The encoder is in the middle of the call, or the call has ended.
pub open spec fn under_way(e: EncoderState, c: CallState) -> bool {
    &&& e.valid()
    &&& e.resumable(c)
    &&& c.task matches Task::Write(data) ==> data.len() <= usize::MAX
    &&& c.request is Done ==> e.taken.len() == 0
}

/// The output takes no more than it is offered.
pub open spec fn plausible(e: EncoderState, c: CallState, count: nat) -> bool {
    count <= offered(e, c).len()
}

/// Taking data that is left of a write, with no chunk being sent.
pub proof fn lemma_take(e: EncoderState, data: Seq<u8>)
    requires
        e.held is Gathering,
        e.held.len() <= e.chunks_size,
        e.chunks_size <= MAX_CHUNK_SIZE,
        data.len() <= usize::MAX,
        e.taken.is_prefix_of(data),
        e.writable((data.len() - e.taken.len()) as nat),
    ensures
        ({
            let (e1, c1) = e.take(data);
            let all = e.held->Gathering_0 + data.skip(e.taken.len() as int);
            &&& under_way(e1, c1)
            &&& c1.task == Task::Write(data)
            &&& e1.chunks_size == e.chunks_size
            &&& e1.flush_after_write == e.flush_after_write
            &&& due(e1, c1) == chunks(pieces(e.chunks_size, e.flush_after_write, all))
            &&& outcome(e1, c1) == Held::Gathering(kept(e.chunks_size, e.flush_after_write, all))
        }),
{
    let size = e.chunks_size;
    let flush = e.flush_after_write;
    let gathered = e.held->Gathering_0;
    let rest = data.skip(e.taken.len() as int);
    let all = gathered + rest;
    let (e1, c1) = e.take(data);
    let space = (size - gathered.len()) as nat;
    let count = if rest.len() < space {
        rest.len()
    } else {
        space
    };
    let part = gathered + rest.take(count as int);
    let taken = e.taken + rest.take(count as int);
    let later = data.skip(taken.len() as int);
    assert(taken =~= data.take(taken.len() as int));
    assert(later =~= rest.skip(count as int));
    if count < rest.len() {
        assert(part =~= all.take(size as int));
        assert(later =~= all.skip(size as int));
        let more = pieces(size, flush, later);
        assert(pieces(size, flush, all).drop_first() =~= more);
        assert(chunks(pieces(size, flush, all)) == chunk(part) + chunks(more));
    } else {
        assert(part =~= all);
        assert(later =~= Seq::<u8>::empty());
        assert(all.len() == 0 ==> all =~= Seq::<u8>::empty());
        assert(kept(size, flush, later) =~= Seq::<u8>::empty());
        let one = seq![all];
        assert(one.drop_first() =~= Seq::<Seq<u8>>::empty());
        assert(chunks(one) =~= chunk(all)) by {
            assert(chunks(one.drop_first()) =~= Seq::<u8>::empty());
        }
        assert(chunks(pieces(size, flush, later)) =~= Seq::<u8>::empty());
    }
}

/// A call can begin.
pub open spec fn allowed(e: EncoderState, task: Task) -> bool {
    task matches Task::Write(data) ==> e.writable(data.len()) && data.len() <= usize::MAX
}

/// All the bytes that a call writes.
pub open spec fn written(e: EncoderState, task: Task) -> Seq<u8> {
    let (e1, c1) = e.begin(task);
    due(e1, c1)
}

/// The encoder after a call that has written all that it has to.
pub open spec fn after(e: EncoderState, task: Task) -> EncoderState {
    let (e1, c1) = e.begin(task);
    EncoderState { held: outcome(e1, c1), taken: Seq::empty(), ..e }
}

/// Every call can begin in every state.
pub proof fn law_begin(e: EncoderState, task: Task)
    requires
        e.valid(),
        allowed(e, task),
    ensures
        under_way(e.begin(task).0, e.begin(task).1),
        e.begin(task).1.task == task,
        e.begin(task).0.chunks_size == e.chunks_size,
        e.begin(task).0.flush_after_write == e.flush_after_write,
{
    assert(last_chunk().skip(0) =~= last_chunk());
    assert(last_chunk().skip(5) =~= Seq::<u8>::empty());
    assert(e.held is Gathering && e.held.len() == 0 ==> e.held->Gathering_0 =~= Seq::<u8>::empty());
    match task {
        Task::Write(data) => {
            let taken = if e.taken.is_prefix_of(data) {
                e.taken
            } else {
                Seq::empty()
            };
            let next = EncoderState { taken, ..e };
            assert(Seq::<u8>::empty().is_prefix_of(data));
            if e.held is Gathering {
                lemma_take(next, data);
            } else {
                lemma_take(EncoderState { held: Held::nothing(), ..next }, data);
            }
        },
        _ => {},
    }
}

/// The pieces of data of which a call makes chunks, where no chunk is being
/// sent: those of the data held back and the data of a write, or the data held
/// back as one piece.
pub open spec fn sent_pieces(e: EncoderState, task: Task) -> Seq<Seq<u8>> {
    let held = e.held->Gathering_0;
    match task {
        Task::Write(data) => pieces(e.chunks_size, e.flush_after_write, held + data),
        _ => if held.len() > 0 {
            seq![held]
        } else {
            Seq::empty()
        },
    }
}

/// What a call writes behind the chunks: a finish and a shutdown end the
/// message.
pub open spec fn ending(task: Task) -> Seq<u8> {
    match task {
        Task::Finish | Task::Shutdown => last_chunk(),
        _ => Seq::empty(),
    }
}

/// The data of a call.
pub open spec fn task_data(task: Task) -> Seq<u8> {
    match task {
        Task::Write(data) => data,
        _ => Seq::empty(),
    }
}

/// What a call writes where no chunk is being sent: its pieces as chunks, none
/// of them empty or larger than a chunk may be, and then what ends the message.
/// The pieces, and what the encoder then holds back, are the data that it held
/// back before and the data of the call. Only a write leaves any of it behind,
/// and none if each write is flushed.
pub proof fn law_written(e: EncoderState, task: Task)
    requires
        e.valid(),
        e.held is Gathering,
        allowed(e, task),
    ensures
        written(e, task) == chunks(sent_pieces(e, task)) + ending(task),
        after(e, task).valid(),
        after(e, task).held is Gathering,
        sent_pieces(e, task).flatten() + after(e, task).held->Gathering_0
            == e.held->Gathering_0 + task_data(task),
        forall|i: int|
            0 <= i < sent_pieces(e, task).len() ==> 0 < (#[trigger] sent_pieces(e, task)[i]).len()
                <= e.chunks_size,
        task !is Write || e.flush_after_write ==> after(e, task).held == Held::nothing(),
        task matches Task::Write(data) ==> after(e, task).held == Held::Gathering(
            kept(e.chunks_size, e.flush_after_write, e.held->Gathering_0 + data),
        ),
{
    let held = e.held->Gathering_0;
    let parts = sent_pieces(e, task);
    let left = after(e, task).held->Gathering_0;
    assert(held.len() == 0 ==> held =~= Seq::<u8>::empty());
    assert(held + Seq::<u8>::empty() =~= held);
    match task {
        Task::Write(data) => {
            let all = held + data;
            assert(e.taken =~= Seq::<u8>::empty());
            assert(e.taken.is_prefix_of(data));
            lemma_take(e, data);
            assert(data.skip(0) =~= data);
            if e.chunks_size > 0 {
                law_pieces(e.chunks_size, e.flush_after_write, all);
                assert(left.len() == 0 ==> left =~= Seq::<u8>::empty());
            } else {
                assert(all =~= Seq::<u8>::empty());
                assert(parts.flatten() + left =~= all);
            }
            assert(chunks(parts) + ending(task) =~= chunks(parts));
        },
        _ => {
            let one = seq![held];
            assert(one.drop_first() =~= Seq::<Seq<u8>>::empty());
            assert(one.drop_first().flatten() =~= Seq::<u8>::empty());
            assert(one.flatten() =~= held);
            assert(chunks(one.drop_first()) =~= Seq::<u8>::empty());
            assert(chunks(one) =~= chunk(held));
            assert(Seq::<Seq<u8>>::empty().flatten() =~= Seq::<u8>::empty());
            assert(chunks(Seq::<Seq<u8>>::empty()) =~= Seq::<u8>::empty());
            assert(written(e, task) =~= chunks(parts) + ending(task));
            assert(parts.flatten() + left =~= held);
        },
    }
}

/// Each reply of the output brings a call on by the bytes that the output took:
/// these, and what the call then has still to write, are what it had to write
/// before. What the encoder will hold back stays the same. So a call ends when
/// the output keeps taking bytes and can be shut down.
pub proof fn law_resume(e: EncoderState, c: CallState, count: nat)
    requires
        under_way(e, c),
        plausible(e, c, count),
    ensures
        ({
            let (e1, c1) = e.resume(c, count);
            &&& under_way(e1, c1)
            &&& c1.task == c.task
            &&& e1.chunks_size == e.chunks_size
            &&& e1.flush_after_write == e.flush_after_write
            &&& due(e, c) == offered(e, c).take(count as int) + due(e1, c1)
            &&& outcome(e1, c1) == outcome(e, c)
            &&& c.request is Write && count > 0 ==> due(e1, c1).len() < due(e, c).len()
            &&& c.request is Write ==> offered(e, c).len() > 0
            &&& c.request is Shutdown ==> c1.request is Done
        }),
{
    let (e1, c1) = e.resume(c, count);
    let now = offered(e, c);
    assert(last_chunk().skip(0) =~= last_chunk());
    assert(last_chunk().skip(5) =~= Seq::<u8>::empty());
    if c.request is Write && count < now.len() {
        assert(now =~= now.take(count as int) + now.skip(count as int));
        assert(due(e, c) =~= now.take(count as int) + due(e1, c1));
        if e.held is Ending {
            assert(now.skip(count as int) =~= last_chunk().skip(5 - (now.len() - count)));
        }
    } else if c.request is Write {
        assert(now.take(count as int) =~= now);
        match c.task {
            Task::Write(data) => {
                let rest = data.skip(e.taken.len() as int);
                if e.taken.len() < data.len() {
                    lemma_take(EncoderState { held: Held::nothing(), ..e }, data);
                    assert(Seq::<u8>::empty() + rest =~= rest);
                } else {
                    assert(rest =~= Seq::<u8>::empty());
                    assert(kept(e.chunks_size, e.flush_after_write, rest) =~= Seq::<u8>::empty());
                    assert(due(e, c) =~= now + due(e1, c1));
                }
            },
            _ => {
                assert(due(e, c) =~= now + due(e1, c1));
            },
        }
    } else {
        assert(due(e, c) =~= now.take(count as int) + due(e1, c1));
    }
}

/// The encoder and the call after replies of the output, and the bytes that the
/// output took.
pub open spec fn driven(e: EncoderState, c: CallState, counts: Seq<nat>) -> (
    EncoderState,
    CallState,
    Seq<u8>,
)
    decreases counts.len(),
{
    if counts.len() == 0 {
        (e, c, Seq::empty())
    } else {
        let (e1, c1) = e.resume(c, counts.first());
        let (e2, c2, bytes) = driven(e1, c1, counts.drop_first());
        (e2, c2, offered(e, c).take(counts.first() as int) + bytes)
    }
}

/// Every reply is plausible when it comes.
pub open spec fn all_plausible(e: EncoderState, c: CallState, counts: Seq<nat>) -> bool
    decreases counts.len(),
{
    counts.len() > 0 ==> {
        let (e1, c1) = e.resume(c, counts.first());
        plausible(e, c, counts.first()) && all_plausible(e1, c1, counts.drop_first())
    }
}

/// However the output takes the bytes, it gets those that the call has to write,
/// in order, each once. When the call has ended it has got them all, and the
/// encoder holds back what is left; a write has then taken all of its data.
pub proof fn law_call(e: EncoderState, c: CallState, counts: Seq<nat>)
    requires
        under_way(e, c),
        all_plausible(e, c, counts),
    ensures
        ({
            let (e1, c1, bytes) = driven(e, c, counts);
            &&& under_way(e1, c1)
            &&& c1.task == c.task
            &&& bytes + due(e1, c1) == due(e, c)
            &&& outcome(e1, c1) == outcome(e, c)
            &&& c1.request matches WriteRequest::Done(count) ==> {
                &&& bytes == due(e, c)
                &&& e1 == EncoderState { held: outcome(e, c), taken: Seq::empty(), ..e }
                &&& count == task_data(c.task).len()
            }
        }),
{
    lemma_driven(e, c, counts);
    let (e1, c1, bytes) = driven(e, c, counts);
    if c1.request is Done {
        assert(bytes + due(e1, c1) =~= bytes);
        assert(e1.taken =~= Seq::<u8>::empty());
    }
}

pub proof fn lemma_driven(e: EncoderState, c: CallState, counts: Seq<nat>)
    requires
        under_way(e, c),
        all_plausible(e, c, counts),
    ensures
        ({
            let (e1, c1, bytes) = driven(e, c, counts);
            &&& under_way(e1, c1)
            &&& c1.task == c.task
            &&& e1.chunks_size == e.chunks_size
            &&& e1.flush_after_write == e.flush_after_write
            &&& bytes + due(e1, c1) == due(e, c)
            &&& outcome(e1, c1) == outcome(e, c)
        }),
    decreases counts.len(),
{
    if counts.len() == 0 {
        assert(Seq::<u8>::empty() + due(e, c) =~= due(e, c));
    } else {
        let count = counts.first();
        law_resume(e, c, count);
        let (e1, c1) = e.resume(c, count);
        lemma_driven(e1, c1, counts.drop_first());
        let (e2, c2, bytes) = driven(e1, c1, counts.drop_first());
        assert(offered(e, c).take(count as int) + bytes + due(e2, c2) =~= offered(e, c).take(
            count as int,
        ) + (bytes + due(e2, c2)));
    }
}

/// A call that was given up goes on where it stopped when it is called again:
/// the encoder and the call are as they were, and what was left to write is
/// written.
pub proof fn law_called_again(e: EncoderState, c: CallState)
    requires
        under_way(e, c),
        c.request !is Done,
    ensures
        e.begin(c.task) == (e, c),
        written(e, c.task) == due(e, c),
        after(e, c.task).held == outcome(e, c),
{
    assert(e.taken.len() == 0 ==> e.taken =~= Seq::<u8>::empty());
}

/// A write that was given up goes on where it stopped, too, when it is called
/// again with the same data and more behind it: what is left of the chunk that is
/// being sent is written, and then the data behind what had been taken.
pub proof fn law_called_again_with_more(e: EncoderState, c: CallState, a: Seq<u8>, b: Seq<u8>)
    requires
        under_way(e, c),
        c.task == Task::Write(a),
        c.request is Write,
        a.is_prefix_of(b),
        allowed(e, Task::Write(b)),
    ensures
        e.taken.is_prefix_of(b),
        e.begin(Task::Write(b)) == (e, CallState { task: Task::Write(b), ..c }),
        written(e, Task::Write(b)) == offered(e, c) + chunks(
            pieces(e.chunks_size, e.flush_after_write, b.skip(e.taken.len() as int)),
        ),
        after(e, Task::Write(b)).held == Held::Gathering(
            kept(e.chunks_size, e.flush_after_write, b.skip(e.taken.len() as int)),
        ),
{
    assert(e.taken =~= b.subrange(0, e.taken.len() as int));
}

/// Other data is taken from its start. No part of it is left out, whatever was
/// taken of a write that was given up before it.
pub proof fn law_other_data(e: EncoderState, c: CallState, b: Seq<u8>)
    requires
        under_way(e, c),
        c.request is Write,
        e.held is Sending,
        e.taken.len() == 0 || !e.taken.is_prefix_of(b),
        allowed(e, Task::Write(b)),
    ensures
        written(e, Task::Write(b)) == offered(e, c) + chunks(
            pieces(e.chunks_size, e.flush_after_write, b),
        ),
        after(e, Task::Write(b)).held == Held::Gathering(
            kept(e.chunks_size, e.flush_after_write, b),
        ),
{
    assert(b.skip(0) =~= b);
}

/// A chunk that was being sent when its call was given up is not lost, cut short
/// or sent twice: a flush writes the rest of it and nothing else, a finish and a
/// shutdown write the rest of it and end the message.
pub proof fn law_given_up(e: EncoderState, c: CallState)
    requires
        under_way(e, c),
        c.request is Write,
        e.held is Sending,
    ensures
        written(e, Task::Flush) == offered(e, c),
        written(e, Task::Finish) == offered(e, c) + last_chunk(),
        written(e, Task::Shutdown) == offered(e, c) + last_chunk(),
        after(e, Task::Flush).held == Held::nothing(),
        after(e, Task::Finish).held == Held::nothing(),
        after(e, Task::Shutdown).held == Held::nothing(),
{
    assert(offered(e, c) + Seq::<u8>::empty() =~= offered(e, c));
}

/// The bytes that the calls of an encoder write, one after the other.
pub open spec fn written_all(e: EncoderState, tasks: Seq<Task>) -> Seq<u8>
    decreases tasks.len(),
{
    if tasks.len() == 0 {
        Seq::empty()
    } else {
        written(e, tasks.first()) + written_all(after(e, tasks.first()), tasks.drop_first())
    }
}

/// The encoder after calls that have written all that they have to.
pub open spec fn after_all(e: EncoderState, tasks: Seq<Task>) -> EncoderState
    decreases tasks.len(),
{
    if tasks.len() == 0 {
        e
    } else {
        after_all(after(e, tasks.first()), tasks.drop_first())
    }
}

/// All the calls can begin.
pub open spec fn all_allowed(e: EncoderState, tasks: Seq<Task>) -> bool {
    forall|i: int| 0 <= i < tasks.len() ==> allowed(e, #[trigger] tasks[i])
}

/// The data of calls.
pub open spec fn data_of(tasks: Seq<Task>) -> Seq<u8>
    decreases tasks.len(),
{
    if tasks.len() == 0 {
        Seq::empty()
    } else {
        task_data(tasks.first()) + data_of(tasks.drop_first())
    }
}

/// The data in the chunks that calls write.
pub open spec fn sent_data(e: EncoderState, tasks: Seq<Task>) -> Seq<u8>
    decreases tasks.len(),
{
    if tasks.len() == 0 {
        Seq::empty()
    } else {
        sent_pieces(e, tasks.first()).flatten() + sent_data(
            after(e, tasks.first()),
            tasks.drop_first(),
        )
    }
}

proof fn lemma_allowed_later(e: EncoderState, tasks: Seq<Task>)
    requires
        tasks.len() > 0,
        all_allowed(e, tasks),
    ensures
        allowed(e, tasks.first()),
        all_allowed(after(e, tasks.first()), tasks.drop_first()),
{
    assert(allowed(e, tasks[0]));
    assert forall|i: int| 0 <= i < tasks.drop_first().len() implies allowed(
        after(e, tasks.first()),
        #[trigger] tasks.drop_first()[i],
    ) by {
        assert(tasks.drop_first()[i] == tasks[i + 1]);
    }
}

/// What was sent before and what is sent later are sent together.
proof fn lemma_sent_together(
    before: Seq<u8>,
    data: Seq<u8>,
    sent: Seq<u8>,
    left: Seq<u8>,
    later: Seq<u8>,
    sent_later: Seq<u8>,
    end: Seq<u8>,
)
    requires
        sent + left == before + data,
        sent_later + end == left + later,
    ensures
        (sent + sent_later) + end == before + (data + later),
        end.len() == before.len() + (data + later).len() - (sent + sent_later).len(),
{
    assert((sent + sent_later) + end =~= sent + (sent_later + end));
    assert(sent + (left + later) =~= (sent + left) + later);
    assert((before + data) + later =~= before + (data + later));
    assert(((sent + sent_later) + end).len() == (before + (data + later)).len());
}

/// Whatever the calls were, when no chunk is being sent the buffer holds the
/// data that has been taken and has not been written out in a chunk: what was
/// written out and what the buffer holds are all the data, in order. The buffer
/// holds no more than a chunk. Its length is zero exactly if nothing is held
/// back.
pub proof fn law_buffer(e: EncoderState, tasks: Seq<Task>)
    requires
        e.valid(),
        e.held is Gathering,
        all_allowed(e, tasks),
    ensures
        ({
            let held = after_all(e, tasks).held;
            &&& held is Gathering
            &&& sent_data(e, tasks) + held->Gathering_0 == e.held->Gathering_0 + data_of(tasks)
            &&& held.len() == e.held.len() + data_of(tasks).len() - sent_data(e, tasks).len()
            &&& held.len() <= e.chunks_size
            &&& held.len() == 0 <==> held == Held::nothing()
        }),
    decreases tasks.len(),
{
    let before = e.held->Gathering_0;
    let end = after_all(e, tasks).held->Gathering_0;
    if tasks.len() == 0 {
        assert(Seq::<u8>::empty() + before =~= before + Seq::<u8>::empty());
        assert(before.len() == 0 ==> before =~= Seq::<u8>::empty());
    } else {
        let task = tasks.first();
        let next = after(e, task);
        let parts = sent_pieces(e, task).flatten();
        let later = tasks.drop_first();
        lemma_allowed_later(e, tasks);
        law_written(e, task);
        law_buffer(next, later);
        lemma_sent_together(
            before,
            task_data(task),
            parts,
            next.held->Gathering_0,
            data_of(later),
            sent_data(next, later),
            end,
        );
    }
}

/// Data that comes in two parts is cut into pieces as if it came in one.
proof fn lemma_pieces_join(size: nat, a: Seq<u8>, b: Seq<u8>)
    ensures
        pieces(size, false, a) + pieces(size, false, kept(size, false, a) + b) == pieces(
            size,
            false,
            a + b,
        ),
        kept(size, false, kept(size, false, a) + b) == kept(size, false, a + b),
    decreases a.len(),
{
    if size > 0 && a.len() > size {
        let first = a.take(size as int);
        let rest = a.skip(size as int);
        lemma_pieces_join(size, rest, b);
        assert((a + b).take(size as int) =~= first);
        assert((a + b).skip(size as int) =~= rest + b);
        let more = pieces(size, false, kept(size, false, a) + b);
        assert(seq![first] + pieces(size, false, rest) + more =~= seq![first] + (pieces(
            size,
            false,
            rest,
        ) + more));
    } else {
        assert(pieces(size, false, a) + pieces(size, false, a + b) =~= pieces(size, false, a + b));
    }
}

/// How data was cut into writes does not show, unless each write is flushed: the
/// output gets the chunks of all the data, and the same data is held back, as
/// from one write.
pub proof fn law_cut(e: EncoderState, tasks: Seq<Task>)
    requires
        e.valid(),
        e.held is Gathering,
        !e.flush_after_write,
        all_allowed(e, tasks),
        forall|i: int| 0 <= i < tasks.len() ==> (#[trigger] tasks[i]) is Write,
    ensures
        written_all(e, tasks) == chunks(
            pieces(e.chunks_size, false, e.held->Gathering_0 + data_of(tasks)),
        ),
        after_all(e, tasks).held == Held::Gathering(
            kept(e.chunks_size, false, e.held->Gathering_0 + data_of(tasks)),
        ),
    decreases tasks.len(),
{
    let size = e.chunks_size;
    let held = e.held->Gathering_0;
    if tasks.len() == 0 {
        assert(held + data_of(tasks) =~= held);
        assert(chunks(pieces(size, false, held)) =~= Seq::<u8>::empty());
    } else {
        assert(tasks[0] is Write);
        let data = tasks.first()->Write_0;
        let next = after(e, tasks.first());
        let later = tasks.drop_first();
        lemma_allowed_later(e, tasks);
        law_written(e, tasks.first());
        assert forall|i: int| 0 <= i < later.len() implies (#[trigger] later[i]) is Write by {
            assert(later[i] == tasks[i + 1]);
        }
        law_cut(next, later);
        let left = next.held->Gathering_0;
        assert(left == kept(size, false, held + data));
        lemma_pieces_join(size, held + data, data_of(later));
        assert(held + data + data_of(later) =~= held + data_of(tasks));
        let first = pieces(size, false, held + data);
        let more = pieces(size, false, left + data_of(later));
        assert(chunks(first) + Seq::<u8>::empty() =~= chunks(first));
        lemma_chunks_join(first, more);
    }
}

/// Writes and flushes, and then a finish or a shutdown.
pub open spec fn complete(tasks: Seq<Task>) -> bool
    decreases tasks.len(),
{
    if tasks.len() == 0 {
        false
    } else {
        match tasks.first() {
            Task::Write(_) | Task::Flush => complete(tasks.drop_first()),
            Task::Finish | Task::Shutdown => tasks.len() == 1,
        }
    }
}

/// What a write or a flush writes comes before the rest of the message.
pub proof fn lemma_message_written(e: EncoderState, task: Task, rest: Seq<u8>, later: Seq<u8>)
    requires
        e.valid(),
        e.held is Gathering,
        task is Write || task is Flush,
        allowed(e, task),
        message(None, rest) matches Some((data, _)) && data == after(
            e,
            task,
        ).held->Gathering_0 + later,
    ensures
        message(None, written(e, task) + rest) == Some(
            (
                e.held->Gathering_0 + (task_data(task) + later),
                written(e, task).len() + (message(None, rest)->0).1,
            ),
        ),
{
    let held = e.held->Gathering_0;
    let left = after(e, task).held->Gathering_0;
    let parts = sent_pieces(e, task);
    law_written(e, task);
    assert(written(e, task) =~= chunks(parts));
    lemma_message_chunks(parts, rest);
    assert(parts.flatten() + (left + later) =~= (parts.flatten() + left) + later);
    assert(held + task_data(task) + later =~= held + (task_data(task) + later));
}

/// What a finish or a shutdown writes ends the message.
pub proof fn lemma_message_finish(e: EncoderState, task: Task, rest: Seq<u8>)
    requires
        e.valid(),
        e.held is Gathering,
        task is Finish || task is Shutdown,
    ensures
        message(None, written(e, task) + rest) == Some((e.held->Gathering_0, written(e, task).len())),
{
    let held = e.held->Gathering_0;
    let parts = sent_pieces(e, task);
    law_written(e, task);
    lemma_message_last_chunk(rest);
    lemma_message_chunks(parts, last_chunk() + rest);
    assert(written(e, task) + rest =~= chunks(parts) + (last_chunk() + rest));
    assert(parts.flatten() + Seq::<u8>::empty() =~= parts.flatten());
    assert(held + Seq::<u8>::empty() =~= held);
}

/// What an encoder writes, up to the end of a finish or a shutdown, is a message
/// with the data that was written to the encoder, whatever the size of its
/// chunks, however the data was split into writes and wherever it was flushed.
pub proof fn law_stream_is_message(e: EncoderState, tasks: Seq<Task>, rest: Seq<u8>)
    requires
        e.valid(),
        e.held is Gathering,
        all_allowed(e, tasks),
        complete(tasks),
    ensures
        message(None, written_all(e, tasks) + rest) == Some(
            (e.held->Gathering_0 + data_of(tasks), written_all(e, tasks).len()),
        ),
    decreases tasks.len(),
{
    let held = e.held->Gathering_0;
    let task = tasks.first();
    let next = after(e, task);
    let later = tasks.drop_first();
    let more = written_all(next, later);
    assert(written_all(e, tasks) + rest =~= written(e, task) + (more + rest));
    if task is Finish || task is Shutdown {
        lemma_message_finish(e, task, rest);
        assert(more =~= Seq::<u8>::empty());
        assert(more + rest =~= rest);
        assert(data_of(later) =~= Seq::<u8>::empty());
        assert(held + data_of(tasks) =~= held);
    } else {
        lemma_allowed_later(e, tasks);
        law_written(e, task);
        law_stream_is_message(next, later, rest);
        lemma_message_written(e, task, more + rest, data_of(later));
    }
}

/// A decoder reads the message that its source starts with.
pub proof fn lemma_read_back(
    d: DecoderState,
    s: Seq<u8>,
    data: Seq<u8>,
    rest: Seq<u8>,
    plans: Seq<ReadPlan>,
)
    requires
        d.valid(),
        between_messages(d),
        message(None, s + rest) == Some((data, s.len())),
        all_positive(plans),
        plans.len() > data.len(),
    ensures
        read_to_end(d, s + rest, plans) matches Some((out, end, left)) && {
            &&& out == data
            &&& between_messages(end)
            &&& left == rest
        },
{
    assert(Seq::<u8>::empty() + (s + rest) =~= s + rest);
    assert(d.kept + data =~= data);
    assert(coming(d, s + rest) == Some((data, s.len())));
    law_message_is_read(d, s + rest, plans, data, s.len());
    assert((s + rest).skip(s.len() as int) =~= rest);
}

/// A decoder gives back what was written to an encoder: enough reads of
/// whatever size hand out exactly that data, whenever the source is ready, and
/// leave in the source what follows the message.
pub proof fn law_round_trip(
    e: EncoderState,
    tasks: Seq<Task>,
    d: DecoderState,
    rest: Seq<u8>,
    plans: Seq<ReadPlan>,
)
    requires
        e.valid(),
        e.held == Held::nothing(),
        all_allowed(e, tasks),
        complete(tasks),
        d.valid(),
        between_messages(d),
        all_positive(plans),
        plans.len() > data_of(tasks).len(),
    ensures
        read_to_end(d, written_all(e, tasks) + rest, plans) matches Some((data, end, left)) && {
            &&& data == data_of(tasks)
            &&& between_messages(end)
            &&& left == rest
        },
{
    law_stream_is_message(e, tasks, rest);
    assert(Seq::<u8>::empty() + data_of(tasks) =~= data_of(tasks));
    lemma_read_back(d, written_all(e, tasks), data_of(tasks), rest, plans);
}

} // verus!
