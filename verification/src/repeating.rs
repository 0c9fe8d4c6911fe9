//! What calls of an encoder write that are given up and called again.
use vstd::prelude::*;

use crate::decoder::DecoderState;
use crate::decoding::{all_positive, between_messages, read_to_end, ReadPlan};
use crate::encoder::{CallState, EncoderState, Held, Task, WriteRequest};
use crate::encoding::{
    after, after_all, all_plausible, allowed, complete, data_of, driven, due, kept, law_begin,
    law_call, law_called_again, law_called_again_with_more, law_resume, law_written, lemma_driven,
    lemma_message_finish, lemma_message_written, lemma_read_back, offered, pieces, plausible,
    task_data, under_way, written, written_all,
};
use crate::format::{chunk, chunks, lemma_chunks_join, lemma_message_chunks, message};

verus! {

/// A call, and what the output takes, reply by reply, before the call ends or is
/// given up.
pub struct Attempt {
    pub task: Task,
    pub counts: Seq<nat>,
}

/// Calls one after the other, up to the first that ends, each of the others given
/// up. Gives the encoder, the last call and the bytes that the output took.
pub open spec fn repeated(e: EncoderState, attempts: Seq<Attempt>) -> (
    EncoderState,
    CallState,
    Seq<u8>,
)
    recommends
        attempts.len() > 0,
    decreases attempts.len(),
{
    let (e1, c1) = e.begin(attempts.first().task);
    let (e2, c2, bytes) = driven(e1, c1, attempts.first().counts);
    if c2.request is Done || attempts.len() <= 1 {
        (e2, c2, bytes)
    } else {
        let (e3, c3, more) = repeated(e2, attempts.drop_first());
        (e3, c3, bytes + more)
    }
}

/// There is a call, each call can begin, and every reply is plausible when it
/// comes.
pub open spec fn attempts_plausible(e: EncoderState, attempts: Seq<Attempt>) -> bool
    decreases attempts.len(),
{
    let (e1, c1) = e.begin(attempts.first().task);
    let (e2, c2, _) = driven(e1, c1, attempts.first().counts);
    &&& attempts.len() > 0
    &&& allowed(e, attempts.first().task)
    &&& all_plausible(e1, c1, attempts.first().counts)
    &&& c2.request !is Done && attempts.len() > 1 ==> attempts_plausible(e2, attempts.drop_first())
}

/// The same call each time.
pub open spec fn all_same(attempts: Seq<Attempt>, task: Task) -> bool {
    forall|i: int| 0 <= i < attempts.len() ==> (#[trigger] attempts[i]).task == task
}

/// However often a call is given up and called again, and whatever the output
/// takes each time, the output gets what the call writes where it is never given
/// up, each byte once. When the call has ended, the encoder is as it is then,
/// and a write has taken all of its data, each byte once.
pub proof fn law_repeated(e: EncoderState, task: Task, attempts: Seq<Attempt>)
    requires
        e.valid(),
        attempts_plausible(e, attempts),
        all_same(attempts, task),
    ensures
        ({
            let (e1, c1, bytes) = repeated(e, attempts);
            &&& c1.task == task
            &&& bytes + due(e1, c1) == written(e, task)
            &&& c1.request matches WriteRequest::Done(count) ==> {
                &&& bytes == written(e, task)
                &&& e1 == after(e, task)
                &&& count == task_data(task).len()
            }
        }),
    decreases attempts.len(),
{
    assert(attempts[0].task == task);
    law_begin(e, task);
    let (e1, c1) = e.begin(task);
    let (e3, c3, all) = repeated(e, attempts);
    let counts = attempts.first().counts;
    law_call(e1, c1, counts);
    lemma_driven(e1, c1, counts);
    let (e2, c2, bytes) = driven(e1, c1, counts);
    if c2.request is Done {
        assert(bytes + due(e2, c2) =~= bytes);
    } else if attempts.len() > 1 {
        let later = attempts.drop_first();
        assert(all_same(later, task)) by {
            assert forall|i: int| 0 <= i < later.len() implies (#[trigger] later[i]).task
                == task by {
                assert(later[i] == attempts[i + 1]);
            }
        }
        law_called_again(e2, c2);
        law_repeated(e2, task, later);
        let (_, _, more) = repeated(e2, later);
        assert(bytes + (more + due(e3, c3)) =~= all + due(e3, c3));
    }
}

/// The second call goes on with the first: it is the same, or a write with the
/// same data and perhaps more behind it.
pub open spec fn continues(first: Task, second: Task) -> bool {
    match (first, second) {
        (Task::Write(a), Task::Write(b)) => a.is_prefix_of(b),
        _ => first == second,
    }
}

/// Each call goes on with the one before it.
pub open spec fn all_continue(attempts: Seq<Attempt>) -> bool
    decreases attempts.len(),
{
    attempts.len() > 1 ==> {
        &&& continues(attempts[0].task, attempts[1].task)
        &&& all_continue(attempts.drop_first())
    }
}

/// `bytes` are the chunks of `parts`, which are `data` together. None of them is
/// empty or larger than `size`, or smaller where they are to be full.
pub open spec fn chunks_of(
    size: nat,
    full: bool,
    parts: Seq<Seq<u8>>,
    data: Seq<u8>,
    bytes: Seq<u8>,
) -> bool {
    &&& bytes == chunks(parts)
    &&& parts.flatten() == data
    &&& forall|i: int| 0 <= i < parts.len() ==> 0 < (#[trigger] parts[i]).len() <= size
    &&& full ==> forall|i: int| 0 <= i < parts.len() ==> (#[trigger] parts[i]).len() == size
}

/// `bytes` are chunks with `data`, none of them larger than `size`, or smaller
/// where they are to be full.
pub open spec fn chunked(size: nat, full: bool, data: Seq<u8>, bytes: Seq<u8>) -> bool {
    exists|parts: Seq<Seq<u8>>| chunks_of(size, full, parts, data, bytes)
}

/// Another chunk follows chunks.
proof fn lemma_chunked_push(
    size: nat,
    full: bool,
    data: Seq<u8>,
    bytes: Seq<u8>,
    piece: Seq<u8>,
)
    requires
        chunked(size, full, data, bytes),
        0 < piece.len() <= size,
        full ==> piece.len() == size,
    ensures
        chunked(size, full, data + piece, bytes + chunk(piece)),
{
    let parts = choose|parts: Seq<Seq<u8>>| chunks_of(size, full, parts, data, bytes);
    let one = seq![piece];
    assert(one.drop_first() =~= Seq::<Seq<u8>>::empty());
    assert(chunks(one.drop_first()) =~= Seq::<u8>::empty());
    assert(chunks(one) =~= chunk(piece));
    lemma_chunks_join(parts, one);
    assert(parts + one =~= parts.push(piece));
    parts.lemma_flatten_push(piece);
    assert(chunks_of(size, full, parts.push(piece), data + piece, bytes + chunk(piece)));
}

/// No chunks are chunks with no data.
proof fn lemma_chunked_nothing(size: nat, full: bool)
    ensures
        chunked(size, full, Seq::empty(), Seq::empty()),
{
    let none = Seq::<Seq<u8>>::empty();
    assert(none.flatten() =~= Seq::<u8>::empty());
    assert(chunks_of(size, full, none, Seq::empty(), Seq::empty()));
}

/// Where a write stands that began with `held` in the buffer and has written
/// `bytes`: with the chunk that is being sent, these are chunks with `held` and
/// the data taken. When the write has ended, they are chunks with all but the
/// data that is held back. Unless each write is flushed, the chunks are full, and
/// one is being sent only where more data follows.
pub open spec fn write_stands(
    e: EncoderState,
    c: CallState,
    held: Seq<u8>,
    bytes: Seq<u8>,
) -> bool {
    let all = held + task_data(c.task);
    match c.request {
        WriteRequest::Write => {
            &&& e.held is Sending
            &&& chunked(
                e.chunks_size,
                !e.flush_after_write,
                held + e.taken,
                bytes + e.held.unsent(),
            )
            &&& e.flush_after_write || e.taken.len() < task_data(c.task).len()
        },
        WriteRequest::Done(count) => {
            &&& count == task_data(c.task).len()
            &&& e.held matches Held::Gathering(left) && {
                let sent = all.len() - left.len();
                &&& 0 <= sent
                &&& all.skip(sent) == left
                &&& chunked(e.chunks_size, !e.flush_after_write, all.take(sent), bytes)
            }
        },
        WriteRequest::Shutdown => false,
    }
}

/// Taking data brings a write on.
proof fn lemma_take_stands(e: EncoderState, data: Seq<u8>, held: Seq<u8>, bytes: Seq<u8>)
    requires
        e.held is Gathering,
        e.held.len() <= e.chunks_size,
        e.taken.is_prefix_of(data),
        data.len() <= usize::MAX,
        e.writable((data.len() - e.taken.len()) as nat),
        e.held->Gathering_0.len() <= (held + e.taken).len(),
        e.held->Gathering_0 == (held + e.taken).skip(
            (held + e.taken).len() - e.held->Gathering_0.len(),
        ),
        chunked(
            e.chunks_size,
            !e.flush_after_write,
            (held + e.taken).take((held + e.taken).len() - e.held->Gathering_0.len()),
            bytes,
        ),
    ensures
        write_stands(e.take(data).0, e.take(data).1, held, bytes),
{
    let (e1, c1) = e.take(data);
    let gathered = e.held->Gathering_0;
    let before = held + e.taken;
    let sent = before.len() - gathered.len();
    let rest = data.skip(e.taken.len() as int);
    let all = held + data;
    assert(all =~= before + rest);
    if c1.request is Done {
        assert(rest.take(rest.len() as int) =~= rest);
        assert(all.take(sent) =~= before.take(sent));
        assert(all.skip(sent) =~= gathered + rest);
    } else {
        let part = e1.taken.skip(e.taken.len() as int);
        assert(part =~= rest.take(e1.taken.len() - e.taken.len()));
        let piece = gathered + part;
        lemma_chunked_push(e.chunks_size, !e.flush_after_write, before.take(sent), bytes, piece);
        assert(before.take(sent) + piece =~= held + e1.taken);
    }
}

/// A write begins with no chunks written.
proof fn lemma_begin_stands(e: EncoderState, data: Seq<u8>)
    requires
        e.valid(),
        e.held is Gathering,
        allowed(e, Task::Write(data)),
    ensures
        write_stands(
            e.begin(Task::Write(data)).0,
            e.begin(Task::Write(data)).1,
            e.held->Gathering_0,
            Seq::empty(),
        ),
{
    let held = e.held->Gathering_0;
    assert(e.taken =~= Seq::<u8>::empty());
    assert(e.taken.is_prefix_of(data));
    let all = held + e.taken;
    assert(all =~= held);
    assert(all.take(0) =~= Seq::<u8>::empty());
    assert(all.skip(0) =~= held);
    lemma_chunked_nothing(e.chunks_size, !e.flush_after_write);
    lemma_take_stands(e, data, held, Seq::empty());
}

/// A reply of the output brings a write on.
proof fn lemma_resume_stands(
    e: EncoderState,
    c: CallState,
    count: nat,
    held: Seq<u8>,
    bytes: Seq<u8>,
)
    requires
        under_way(e, c),
        c.task is Write,
        plausible(e, c, count),
        write_stands(e, c, held, bytes),
    ensures
        write_stands(
            e.resume(c, count).0,
            e.resume(c, count).1,
            held,
            bytes + offered(e, c).take(count as int),
        ),
{
    let now = offered(e, c);
    let more = bytes + now.take(count as int);
    if c.request is Done {
        assert(more =~= bytes);
    } else if count < now.len() {
        assert(more + now.skip(count as int) =~= bytes + now);
    } else {
        assert(more =~= bytes + now);
        let data = task_data(c.task);
        let next = EncoderState { held: Held::nothing(), ..e };
        let all = held + e.taken;
        assert(all.take(all.len() as int) =~= all);
        assert(all.skip(all.len() as int) =~= Seq::<u8>::empty());
        if e.taken.len() < data.len() {
            lemma_take_stands(next, data, held, more);
        } else {
            assert(e.taken =~= data);
        }
    }
}

/// Replies of the output bring a write on.
proof fn lemma_driven_stands(
    e: EncoderState,
    c: CallState,
    counts: Seq<nat>,
    held: Seq<u8>,
    bytes: Seq<u8>,
)
    requires
        under_way(e, c),
        c.task is Write,
        all_plausible(e, c, counts),
        write_stands(e, c, held, bytes),
    ensures
        ({
            let (e1, c1, more) = driven(e, c, counts);
            write_stands(e1, c1, held, bytes + more)
        }),
    decreases counts.len(),
{
    if counts.len() == 0 {
        assert(bytes + Seq::<u8>::empty() =~= bytes);
    } else {
        let count = counts.first();
        let now = offered(e, c).take(count as int);
        law_resume(e, c, count);
        lemma_resume_stands(e, c, count, held, bytes);
        let (e1, c1) = e.resume(c, count);
        lemma_driven_stands(e1, c1, counts.drop_first(), held, bytes + now);
        let (_, _, more) = driven(e1, c1, counts.drop_first());
        assert(bytes + now + more =~= bytes + (now + more));
    }
}

/// A write that is called again with more data behind its data, too, loses and
/// doubles nothing, however often it is given up and whatever the output takes:
/// what the output gets are chunks with the data that was held back and the data
/// of the write that ended, up to what the encoder holds back then. As long as
/// none has ended, the data in the chunks is what has been taken.
pub proof fn law_growing_write(e: EncoderState, attempts: Seq<Attempt>)
    requires
        e.valid(),
        e.held is Gathering,
        attempts_plausible(e, attempts),
        all_continue(attempts),
        attempts.first().task is Write,
    ensures
        ({
            let (e1, c1, bytes) = repeated(e, attempts);
            &&& c1.task is Write
            &&& under_way(e1, c1)
            &&& e1.chunks_size == e.chunks_size
            &&& e1.flush_after_write == e.flush_after_write
            &&& write_stands(e1, c1, e.held->Gathering_0, bytes)
        }),
{
    lemma_begin_stands(e, task_data(attempts.first().task));
    lemma_growing(e, attempts, e.held->Gathering_0, Seq::empty());
    let (_, _, bytes) = repeated(e, attempts);
    assert(Seq::<u8>::empty() + bytes =~= bytes);
}

/// The proof of [`law_growing_write`], from a call on that goes on with those
/// that have written `bytes`.
proof fn lemma_growing(e: EncoderState, attempts: Seq<Attempt>, held: Seq<u8>, bytes: Seq<u8>)
    requires
        e.valid(),
        attempts_plausible(e, attempts),
        all_continue(attempts),
        attempts.first().task is Write,
        write_stands(
            e.begin(attempts.first().task).0,
            e.begin(attempts.first().task).1,
            held,
            bytes,
        ),
    ensures
        ({
            let (e1, c1, more) = repeated(e, attempts);
            &&& c1.task is Write
            &&& under_way(e1, c1)
            &&& e1.chunks_size == e.chunks_size
            &&& e1.flush_after_write == e.flush_after_write
            &&& write_stands(e1, c1, held, bytes + more)
        }),
    decreases attempts.len(),
{
    let task = attempts.first().task;
    let counts = attempts.first().counts;
    law_begin(e, task);
    let (e1, c1) = e.begin(task);
    lemma_driven(e1, c1, counts);
    lemma_driven_stands(e1, c1, counts, held, bytes);
    let (e2, c2, now) = driven(e1, c1, counts);
    if c2.request !is Done && attempts.len() > 1 {
        let later = attempts.drop_first();
        assert(later.first() == attempts[1]);
        assert(attempts_plausible(e2, later));
        law_called_again_with_more(e2, c2, task_data(task), task_data(later.first().task));
        lemma_growing(e2, later, held, bytes + now);
        let (_, _, more) = repeated(e2, later);
        assert(bytes + now + more =~= bytes + (now + more));
    }
}

/// Full chunks are the first pieces of their data and what follows it.
proof fn lemma_full_pieces(size: nat, parts: Seq<Seq<u8>>, rest: Seq<u8>)
    requires
        size > 0,
        rest.len() > 0,
        forall|i: int| 0 <= i < parts.len() ==> (#[trigger] parts[i]).len() == size,
    ensures
        pieces(size, false, parts.flatten() + rest) == parts + pieces(size, false, rest),
        kept(size, false, parts.flatten() + rest) == kept(size, false, rest),
    decreases parts.len(),
{
    let data = parts.flatten() + rest;
    if parts.len() == 0 {
        assert(data =~= rest);
        assert(parts + pieces(size, false, rest) =~= pieces(size, false, rest));
    } else {
        let first = parts.first();
        let later = parts.drop_first();
        assert(parts[0].len() == size);
        assert forall|i: int| 0 <= i < later.len() implies (#[trigger] later[i]).len() == size by {
            assert(later[i] == parts[i + 1]);
        }
        lemma_full_pieces(size, later, rest);
        assert(data.take(size as int) =~= first);
        assert(data.skip(size as int) =~= later.flatten() + rest);
        assert(seq![first] + (later + pieces(size, false, rest)) =~= parts + pieces(
            size,
            false,
            rest,
        ));
    }
}

/// Unless each write is flushed, a write that is called again with more data
/// behind its data writes exactly what it would have written had it been called
/// with all of the data from the first.
pub proof fn law_growing_write_at_once(e: EncoderState, attempts: Seq<Attempt>)
    requires
        e.valid(),
        e.held is Gathering,
        !e.flush_after_write,
        attempts_plausible(e, attempts),
        all_continue(attempts),
        attempts.first().task is Write,
    ensures
        ({
            let (e1, c1, bytes) = repeated(e, attempts);
            &&& bytes + due(e1, c1) == written(e, c1.task)
            &&& c1.request matches WriteRequest::Done(count) ==> {
                &&& bytes == written(e, c1.task)
                &&& e1 == after(e, c1.task)
                &&& count == task_data(c1.task).len()
            }
        }),
{
    let none = Seq::<u8>::empty();
    let task = attempts.first().task;
    lemma_begin_stands(e, task_data(task));
    assert(none + written(e, task) =~= written(e, task));
    lemma_growing_at_once(e, e, attempts, none);
    let (e1, c1, bytes) = repeated(e, attempts);
    assert(none + bytes =~= bytes);
    assert(c1.request is Done ==> bytes + due(e1, c1) =~= bytes);
}

/// A write that goes on with more data writes the rest of what one write of all
/// the data writes.
proof fn lemma_more_data(
    start: EncoderState,
    e: EncoderState,
    c: CallState,
    data: Seq<u8>,
    bytes: Seq<u8>,
)
    requires
        start.valid(),
        start.held is Gathering,
        !start.flush_after_write,
        under_way(e, c),
        e.chunks_size == start.chunks_size,
        e.flush_after_write == start.flush_after_write,
        c.request is Write,
        c.task is Write,
        task_data(c.task).is_prefix_of(data),
        allowed(e, Task::Write(data)),
        write_stands(e, c, start.held->Gathering_0, bytes),
    ensures
        ({
            let task = Task::Write(data);
            &&& write_stands(e.begin(task).0, e.begin(task).1, start.held->Gathering_0, bytes)
            &&& bytes + written(e, task) == written(start, task)
            &&& after(e, task) == after(start, task)
        }),
{
    let task = Task::Write(data);
    let held = start.held->Gathering_0;
    let size = start.chunks_size;
    law_called_again_with_more(e, c, task_data(c.task), data);
    let rest = data.skip(e.taken.len() as int);
    let more = chunks(pieces(size, false, rest));
    let sent = held + e.taken;
    let all = bytes + e.held.unsent();
    let parts = choose|parts: Seq<Seq<u8>>| chunks_of(size, true, parts, sent, all);
    lemma_full_pieces(size, parts, rest);
    lemma_chunks_join(parts, pieces(size, false, rest));
    assert(sent + rest =~= held + data);
    law_written(start, task);
    assert(written(start, task) =~= chunks(pieces(size, false, held + data)));
    assert(bytes + (e.held.unsent() + more) =~= all + more);
}

/// The proof of [`law_growing_write_at_once`], from a call on that goes on with
/// those that have written `bytes`.
proof fn lemma_growing_at_once(
    start: EncoderState,
    e: EncoderState,
    attempts: Seq<Attempt>,
    bytes: Seq<u8>,
)
    requires
        start.valid(),
        start.held is Gathering,
        !start.flush_after_write,
        e.valid(),
        e.chunks_size == start.chunks_size,
        e.flush_after_write == start.flush_after_write,
        attempts_plausible(e, attempts),
        all_continue(attempts),
        attempts.first().task is Write,
        write_stands(
            e.begin(attempts.first().task).0,
            e.begin(attempts.first().task).1,
            start.held->Gathering_0,
            bytes,
        ),
        bytes + written(e, attempts.first().task) == written(start, attempts.first().task),
        after(e, attempts.first().task) == after(start, attempts.first().task),
    ensures
        ({
            let (e1, c1, more) = repeated(e, attempts);
            &&& bytes + more + due(e1, c1) == written(start, c1.task)
            &&& c1.request matches WriteRequest::Done(count) ==> {
                &&& e1 == after(start, c1.task)
                &&& count == task_data(c1.task).len()
            }
        }),
    decreases attempts.len(),
{
    let task = attempts.first().task;
    let counts = attempts.first().counts;
    let held = start.held->Gathering_0;
    law_begin(e, task);
    let (e1, c1) = e.begin(task);
    law_call(e1, c1, counts);
    lemma_driven(e1, c1, counts);
    lemma_driven_stands(e1, c1, counts, held, bytes);
    let (e2, c2, now) = driven(e1, c1, counts);
    assert(bytes + now + due(e2, c2) =~= bytes + (now + due(e2, c2)));
    if c2.request !is Done && attempts.len() > 1 {
        let later = attempts.drop_first();
        let data = task_data(later.first().task);
        assert(later.first() == attempts[1]);
        assert(attempts_plausible(e2, later));
        lemma_more_data(start, e2, c2, data, bytes + now);
        lemma_growing_at_once(start, e2, later, bytes + now);
        let (_, _, more) = repeated(e2, later);
        assert(bytes + now + more =~= bytes + (now + more));
    }
}

/// Calls one after the other, each called again until it has ended. Gives the
/// encoder after them, the calls as they ended and the bytes that the output
/// took, or nothing if a call did not end.
pub open spec fn session(e: EncoderState, calls: Seq<Seq<Attempt>>) -> Option<
    (EncoderState, Seq<Task>, Seq<u8>),
>
    decreases calls.len(),
{
    if calls.len() == 0 {
        Some((e, Seq::empty(), Seq::empty()))
    } else {
        let (e1, c1, bytes) = repeated(e, calls.first());
        if c1.request is Done {
            match session(e1, calls.drop_first()) {
                Some((e2, tasks, more)) => Some((e2, seq![c1.task] + tasks, bytes + more)),
                None => None,
            }
        } else {
            None
        }
    }
}

/// Each of the calls can begin when its turn comes, and every reply is plausible
/// when it comes.
pub open spec fn session_plausible(e: EncoderState, calls: Seq<Seq<Attempt>>) -> bool
    decreases calls.len(),
{
    calls.len() > 0 ==> {
        &&& attempts_plausible(e, calls.first())
        &&& session_plausible(repeated(e, calls.first()).0, calls.drop_first())
    }
}

/// An output that is not always ready, and takes what it likes, gets the same
/// bytes as one that takes all that it is offered at once, if the calls that it
/// was not ready for are called again until they have ended.
pub proof fn law_session(e: EncoderState, calls: Seq<Seq<Attempt>>)
    requires
        e.valid(),
        e.held is Gathering,
        session_plausible(e, calls),
        forall|i: int|
            0 <= i < calls.len() ==> all_same(#[trigger] calls[i], calls[i].first().task),
    ensures
        session(e, calls) matches Some((end, tasks, bytes)) ==> {
            &&& end == after_all(e, tasks)
            &&& bytes == written_all(e, tasks)
            &&& tasks == calls.map_values(|attempts: Seq<Attempt>| attempts.first().task)
        },
    decreases calls.len(),
{
    let all = calls.map_values(|attempts: Seq<Attempt>| attempts.first().task);
    if let Some((end, tasks, _)) = session(e, calls) {
        if calls.len() == 0 {
            assert(tasks =~= all);
        } else {
            let attempts = calls.first();
            let task = attempts.first().task;
            let later = calls.drop_first();
            assert(calls[0] == attempts);
            law_repeated(e, task, attempts);
            law_written(e, task);
            assert forall|i: int| 0 <= i < later.len() implies all_same(
                #[trigger] later[i],
                later[i].first().task,
            ) by {
                assert(later[i] == calls[i + 1]);
            }
            law_session(after(e, task), later);
            assert(tasks.drop_first() =~= (session(after(e, task), later)->0).1);
            assert(tasks.first() == task);
            assert(tasks =~= all) by {
                let rest = later.map_values(|attempts: Seq<Attempt>| attempts.first().task);
                assert(all.drop_first() =~= rest);
                assert(all =~= seq![task] + rest);
            }
        }
    }
}

/// Calls that go on with one another, other than writes, are the same.
proof fn lemma_same(attempts: Seq<Attempt>)
    requires
        all_continue(attempts),
        attempts.len() > 0,
        attempts.first().task !is Write,
    ensures
        all_same(attempts, attempts.first().task),
    decreases attempts.len(),
{
    if attempts.len() > 1 {
        let later = attempts.drop_first();
        assert(later.first() == attempts[1]);
        lemma_same(later);
        assert forall|i: int| 0 <= i < attempts.len() implies (#[trigger] attempts[i]).task
            == attempts.first().task by {
            if i > 0 {
                assert(attempts[i] == later[i - 1]);
            }
        }
    }
}

/// What the output gets, up to the end of a finish or a shutdown, is a message
/// with the data of the writes that ended, whenever the output was ready, and
/// also where writes were called again with more data.
#[verifier::rlimit(30)]
pub proof fn law_session_is_message(
    e: EncoderState,
    calls: Seq<Seq<Attempt>>,
    end: EncoderState,
    tasks: Seq<Task>,
    bytes: Seq<u8>,
    rest: Seq<u8>,
)
    requires
        e.valid(),
        e.held is Gathering,
        session_plausible(e, calls),
        forall|i: int| 0 <= i < calls.len() ==> all_continue(#[trigger] calls[i]),
        session(e, calls) == Some((end, tasks, bytes)),
        complete(tasks),
    ensures
        message(None, bytes + rest) == Some((e.held->Gathering_0 + data_of(tasks), bytes.len())),
    decreases calls.len(),
{
    let held = e.held->Gathering_0;
    let attempts = calls.first();
    assert(calls[0] == attempts);
    let task = attempts.first().task;
    let (e1, c1, now) = repeated(e, attempts);
    let later = calls.drop_first();
    let (_, tasks1, more) = session(e1, later)->0;
    assert(tasks.first() == c1.task);
    assert(tasks.drop_first() =~= tasks1);
    assert(bytes + rest =~= now + (more + rest));
    assert forall|i: int| 0 <= i < later.len() implies all_continue(#[trigger] later[i]) by {
        assert(later[i] == calls[i + 1]);
    }
    if task is Write {
        law_growing_write(e, attempts);
        law_session_is_message(e1, later, end, tasks1, more, rest);
        let all = held + task_data(c1.task);
        let left = e1.held->Gathering_0;
        let sent = all.take(all.len() - left.len());
        let full = !e.flush_after_write;
        let parts = choose|parts: Seq<Seq<u8>>| chunks_of(e.chunks_size, full, parts, sent, now);
        lemma_message_chunks(parts, more + rest);
        assert(sent + (left + data_of(tasks1)) =~= held + data_of(tasks));
    } else {
        lemma_same(attempts);
        law_repeated(e, task, attempts);
        law_written(e, task);
        if task is Flush {
            law_session_is_message(e1, later, end, tasks1, more, rest);
            lemma_message_written(e, task, more + rest, data_of(tasks1));
        } else {
            lemma_message_finish(e, task, more + rest);
            assert(tasks1.len() == 0);
            assert(more.len() == 0) by {
                lemma_session_length(e1, later);
            }
            assert(data_of(tasks1) =~= Seq::<u8>::empty());
            assert(held + data_of(tasks) =~= held);
        }
    }
}

/// As many calls end as there are.
proof fn lemma_session_length(e: EncoderState, calls: Seq<Seq<Attempt>>)
    ensures
        session(e, calls) matches Some((_, tasks, bytes)) ==> {
            &&& tasks.len() == calls.len()
            &&& calls.len() == 0 ==> bytes.len() == 0
        },
    decreases calls.len(),
{
    if calls.len() > 0 {
        lemma_session_length(repeated(e, calls.first()).0, calls.drop_first());
    }
}

/// A decoder gives back what was written to an encoder, whenever the output and
/// the source were ready.
pub proof fn law_session_is_read(
    e: EncoderState,
    calls: Seq<Seq<Attempt>>,
    end: EncoderState,
    tasks: Seq<Task>,
    bytes: Seq<u8>,
    d: DecoderState,
    rest: Seq<u8>,
    plans: Seq<ReadPlan>,
)
    requires
        e.valid(),
        e.held == Held::nothing(),
        session_plausible(e, calls),
        forall|i: int| 0 <= i < calls.len() ==> all_continue(#[trigger] calls[i]),
        session(e, calls) == Some((end, tasks, bytes)),
        complete(tasks),
        d.valid(),
        between_messages(d),
        all_positive(plans),
        plans.len() > data_of(tasks).len(),
    ensures
        read_to_end(d, bytes + rest, plans) matches Some((data, d1, left)) && {
            &&& data == data_of(tasks)
            &&& between_messages(d1)
            &&& left == rest
        },
{
    law_session_is_message(e, calls, end, tasks, bytes, rest);
    assert(Seq::<u8>::empty() + data_of(tasks) =~= data_of(tasks));
    lemma_read_back(d, bytes, data_of(tasks), rest, plans);
}

} // verus!
