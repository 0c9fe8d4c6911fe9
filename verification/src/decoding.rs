//! What reads come to, whenever the source is ready.
use vstd::prelude::*;

use crate::decoder::{lemma_reply, DecoderError, DecoderState, ReadRequest, ReadTrace};
use crate::format::{
    end_of_line, field_length, lemma_field_in_line, line_length, message, preceded, run, size_line,
    LineEnd, SizeLine, CR, SEMICOLON,
};

verus! {

/// The bytes of the source that a read has read.
pub open spec fn consumed(t: ReadTrace) -> Seq<u8> {
    t.head + (match t.data {
        Some(data) => data,
        None => Seq::empty(),
    }) + t.tail
}

/// The bytes of the source that the read under way, if there is one, has read.
pub open spec fn taken_in(d: DecoderState) -> Seq<u8> {
    if d.reading() {
        consumed(d.read->0)
    } else {
        Seq::empty()
    }
}

/// The message, or what is left of it, that a decoder has still to hand out
/// where its source has the bytes `s`, and how many bytes it takes up, those
/// counted that the read under way has read.
pub open spec fn coming(d: DecoderState, s: Seq<u8>) -> Option<(Seq<u8>, nat)> {
    preceded(d.kept, 0, message(d.remaining, taken_in(d) + s))
}

/// A read that has ended well has come to the end of the message.
pub open spec fn at_end(t: ReadTrace) -> bool {
    t.kept.len() == 0 && t.data is None
}

/// How many bytes of `s` a decoder reads as a size line.
pub open spec fn size_line_extent(s: Seq<u8>) -> nat {
    if size_line(s) is Partial {
        s.len()
    } else {
        line_length(s) + 2
    }
}

proof fn lemma_run_take(s: Seq<u8>, i: int, stop: spec_fn(u8) -> bool)
    requires
        0 <= i <= s.len(),
    ensures
        run(s, stop) <= s.len(),
        run(s.take(i), stop) == if run(s, stop) < i {
            run(s, stop) as int
        } else {
            i
        },
    decreases s.len(),
{
    if s.len() > 0 {
        if i > 0 {
            lemma_run_take(s.drop_first(), i - 1, stop);
            assert(s.take(i).drop_first() =~= s.drop_first().take(i - 1));
        } else {
            lemma_run_take(s.drop_first(), 0, stop);
        }
    }
}

/// A size line that is read in part is partial; what follows it does not count.
proof fn lemma_size_line_take(s: Seq<u8>, i: int)
    requires
        0 <= i <= s.len(),
    ensures
        i < size_line_extent(s) ==> size_line(s.take(i)) is Partial,
        i >= size_line_extent(s) ==> size_line(s.take(i)) == size_line(s),
        size_line_extent(s) <= s.len(),
{
    lemma_run_take(s, i, |b: u8| b == CR);
    lemma_run_take(s, i, |b: u8| b == CR || b == SEMICOLON);
    lemma_field_in_line(s);
    if i >= size_line_extent(s) {
        if size_line(s) is Partial {
            assert(s.take(i) =~= s);
        } else {
            let field = field_length(s) as int;
            assert(s.take(i).take(field) =~= s.take(field));
        }
    }
}

/// Data from within a chunk leaves the rest of the chunk.
proof fn lemma_message_split(size: usize, s: Seq<u8>, count: usize)
    requires
        count < size,
        count <= s.len(),
    ensures
        message(Some(size), s) == preceded(
            s.take(count as int),
            count as nat,
            message(Some((size - count) as usize), s.skip(count as int)),
        ),
{
    let rest = s.skip(count as int);
    let left = (size - count) as usize;
    if s.len() >= size {
        assert(rest.skip(left as int) =~= s.skip(size as int));
        if end_of_line(s.skip(size as int)) is Complete {
            assert(rest.skip(left + 2) =~= s.skip(size + 2));
            if let Some((data, _)) = message(None, s.skip(size + 2)) {
                assert(s.take(count as int) + (rest.take(left as int) + data) =~= s.take(
                    size as int,
                ) + data);
            }
        }
    }
}

/// What follows a size line does not count.
pub proof fn lemma_size_line_within(head: Seq<u8>, rest: Seq<u8>)
    requires
        size_line(head) !is Partial,
    ensures
        size_line(head + rest) == size_line(head),
{
    lemma_size_line_take(head + rest, head.len() as int);
    assert((head + rest).take(head.len() as int) =~= head);
}

/// What a read that has read the last data of a chunk leaves of the message.
proof fn lemma_chunk_read(data: Seq<u8>, tail: Seq<u8>, rest: Seq<u8>)
    requires
        0 < data.len() <= usize::MAX,
        tail.len() <= 2,
        tail.len() == 2 ==> tail[0] == CR,
    ensures
        match end_of_line(tail) {
            LineEnd::Partial => message(Some(data.len() as usize), data + tail) is None,
            LineEnd::Invalid => message(Some(data.len() as usize), data + tail + rest) is None,
            LineEnd::Complete => message(Some(data.len() as usize), data + tail + rest) == preceded(
                data,
                data.len() + 2,
                message(None, rest),
            ),
        },
{
    let size = data.len() as int;
    let s = data + tail + rest;
    assert((data + tail).skip(size) =~= tail);
    assert(s.skip(size) =~= tail + rest);
    if end_of_line(tail) is Complete {
        assert(s.skip(size + 2) =~= rest);
        assert(s.take(size) =~= data);
    }
}

/// What a read that has come to the last chunk leaves of the message.
proof fn lemma_last_read(head: Seq<u8>, rest: Seq<u8>)
    requires
        size_line(head) matches SizeLine::Complete { size, length } && size == 0 && head.len()
            <= length + 2 && (head.len() == length + 2 ==> head[length as int] == CR),
    ensures
        match end_of_line(head.skip(size_line(head)->length as int)) {
            LineEnd::Partial => message(None, head) is None,
            LineEnd::Invalid => message(None, head + rest) is None,
            LineEnd::Complete => message(None, head + rest) == Some(
                (Seq::<u8>::empty(), head.len()),
            ),
        },
{
    let length = size_line(head)->length as int;
    lemma_size_line_within(head, rest);
    assert((head + rest).skip(length) =~= head.skip(length) + rest);
}

/// What a read with the trace `t` has for the reader at its end, and what the
/// decoder `d1` then leaves of the message, where `all` is the message that was
/// to come.
#[verifier::opaque]
spec fn accounted(
    d1: DecoderState,
    t: ReadTrace,
    rest: Seq<u8>,
    all: Option<(Seq<u8>, nat)>,
) -> bool {
    match t.request() {
        ReadRequest::Done(Ok(count)) => {
            &&& d1.valid()
            &&& count == t.handed_out().len()
            &&& count <= t.room
            &&& if at_end(t) {
                &&& count == 0
                &&& all == Some((Seq::<u8>::empty(), consumed(t).len()))
                &&& d1.remaining is None
                &&& d1.kept.len() == 0
            } else {
                &&& all == preceded(t.handed_out(), consumed(t).len(), coming(d1, rest))
                &&& count == 0 ==> d1.remaining is Some || d1.kept.len() > 0
            }
        },
        ReadRequest::Done(Err(_)) => all is None,
        _ => true,
    }
}

/// Data that was kept is handed out and changes nothing else.
proof fn lemma_ended_kept(d: DecoderState, t: ReadTrace, rest: Seq<u8>)
    requires
        d.valid(),
        t.valid(),
        t.kept.len() > 0,
        t.kept == d.kept,
    ensures
        consumed(t) == Seq::<u8>::empty(),
        accounted(d.at(t), t, rest, preceded(t.kept, 0, message(None, rest))),
{
    reveal(accounted);
    let out = t.handed_out();
    let back = t.kept_back();
    assert(Seq::<u8>::empty() + rest =~= rest);
    if let Some((data, _)) = message(None, rest) {
        assert(out + (back + data) =~= t.kept + data);
    }
}

/// What a read that has read data leaves of the chunk.
#[verifier::rlimit(30)]
proof fn lemma_ended_data(d: DecoderState, t: ReadTrace, data: Seq<u8>, rest: Seq<u8>)
    requires
        t.valid(),
        !t.failed,
        t.kept.len() == 0,
        t.data == Some(data),
    ensures
        ({
            let u = ReadTrace { remaining: Some(t.available()), head: Seq::empty(), ..t };
            let all = message(Some(t.available()), data + t.tail + rest);
            &&& accounted(d.at(u), u, rest, all)
            &&& u.request() is Byte && rest.len() == 0 ==> all is None
        }),
{
    reveal(accounted);
    let u = ReadTrace { remaining: Some(t.available()), head: Seq::empty(), ..t };
    let d1 = d.at(u);
    let out = u.handed_out();
    let back = u.kept_back();
    let size = t.available();
    let s = data + t.tail + rest;
    assert(out + back =~= data);
    assert(Seq::<u8>::empty() + rest =~= rest);
    assert(consumed(u) =~= data + t.tail);
    if data.len() < size {
        assert(s =~= data + rest);
        lemma_message_split(size, s, data.len() as usize);
        assert(s.take(data.len() as int) =~= data);
        assert(s.skip(data.len() as int) =~= rest);
        assert(out =~= data);
        assert(back =~= Seq::<u8>::empty());
        if let Some((more, _)) = message(d1.remaining, rest) {
            assert(back + more =~= more);
        }
    } else {
        lemma_chunk_read(data, t.tail, rest);
        assert(rest.len() == 0 ==> s =~= data + t.tail);
        if let Some((more, _)) = message(None, rest) {
            assert(out + (back + more) =~= data + more);
        }
    }
}

/// What a read that has read data leaves of the message.
proof fn lemma_ended_chunk(d: DecoderState, t: ReadTrace, data: Seq<u8>, rest: Seq<u8>)
    requires
        t.valid(),
        !t.failed,
        t.kept.len() == 0,
        t.data == Some(data),
    ensures
        ({
            let all = message(t.remaining, consumed(t) + rest);
            &&& accounted(d.at(t), t, rest, all)
            &&& t.request() is Byte && rest.len() == 0 ==> all is None
        }),
{
    let s = data + t.tail + rest;
    let u = ReadTrace { remaining: Some(t.available()), head: Seq::empty(), ..t };
    lemma_ended_data(d, t, data, rest);
    assert(consumed(t) =~= t.head + consumed(u));
    assert(consumed(t) + rest =~= t.head + s);
    assert(u.handed_out() == t.handed_out());
    assert(u.request() == t.request());
    reveal(accounted);
    if t.remaining is None {
        lemma_size_line_within(t.head, s);
        assert((t.head + s).skip(t.head.len() as int) =~= s);
    } else {
        assert(t.head + s =~= s);
    }
}

/// What a read that has read no data leaves of the message.
proof fn lemma_ended_head(d: DecoderState, t: ReadTrace, rest: Seq<u8>)
    requires
        t.valid(),
        !t.failed,
        t.kept.len() == 0,
        t.data is None,
    ensures
        ({
            let all = message(t.remaining, consumed(t) + rest);
            &&& accounted(d.at(t), t, rest, all)
            &&& t.request() is Byte && rest.len() == 0 ==> all is None
        }),
{
    reveal(accounted);
    assert(consumed(t) =~= t.head);
    assert(rest.len() == 0 ==> t.head + rest =~= t.head);
    if t.remaining is None {
        match size_line(t.head) {
            SizeLine::Complete { size, .. } => if size == 0 {
                lemma_last_read(t.head, rest);
            },
            SizeLine::Invalid => {
                lemma_size_line_within(t.head, rest);
            },
            SizeLine::Partial => {},
        }
    }
}

/// What a read has for the reader at its end, and what it leaves of the message.
proof fn lemma_ended(d: DecoderState, t: ReadTrace, rest: Seq<u8>)
    requires
        d.valid(),
        t.valid(),
        !t.failed,
        t.remaining == d.remaining,
        t.kept == d.kept,
    ensures
        ({
            let all = preceded(t.kept, 0, message(t.remaining, consumed(t) + rest));
            &&& accounted(d.at(t), t, rest, all)
            &&& t.request() is Byte && rest.len() == 0 ==> all is None
        }),
{
    if t.kept.len() > 0 {
        lemma_ended_kept(d, t, rest);
        assert(Seq::<u8>::empty() + rest =~= rest);
    } else {
        let all = message(t.remaining, consumed(t) + rest);
        if let Some((data, _)) = all {
            assert(t.kept + data =~= data);
        }
        assert(preceded(t.kept, 0, all) == all);
        match t.data {
            Some(data) => lemma_ended_chunk(d, t, data, rest),
            None => lemma_ended_head(d, t, rest),
        }
    }
}

/// A reply of the source is added to what the read has read.
proof fn lemma_consumed(t: ReadTrace, bytes: Seq<u8>)
    requires
        t.valid(),
        t.request() == ReadRequest::Byte ==> bytes.len() == 1,
        t.request() !is Done,
    ensures
        consumed(t.reply(Some(bytes))) == consumed(t) + bytes,
        !t.reply(Some(bytes)).failed,
{
    if t.request() == ReadRequest::Byte {
        assert(bytes =~= seq![bytes[0]]);
    }
    assert(consumed(t.reply(Some(bytes))) =~= consumed(t) + bytes);
}

/// The state of a decoder stays valid, whichever reads begin and whatever the
/// source gives.
pub proof fn law_valid(d: DecoderState, room: usize, reply: Option<Seq<u8>>)
    requires
        d.valid(),
    ensures
        d.begin(room).valid(),
        d.reading() && d.read->0.plausible(reply) ==> d.resume(reply).valid(),
{
    if d.reading() {
        let t = d.read->0;
        if t.plausible(reply) {
            lemma_reply(t, reply);
            assert(d.kept =~= Seq::<u8>::empty());
        }
    }
}

/// How much data a source with the bytes `s` gives that is asked for `limit`
/// bytes and gives no more than `most`.
pub open spec fn given(s: Seq<u8>, limit: usize, most: nat) -> nat {
    let count = if most < limit {
        most
    } else {
        limit as nat
    };
    if count < s.len() {
        count
    } else {
        s.len()
    }
}

/// The reply of a source with the bytes `s` to the read under way, where the
/// source gives no more than `most` bytes of data at once.
pub open spec fn source_reply(d: DecoderState, s: Seq<u8>, most: nat) -> Seq<u8> {
    match d.read->0.request() {
        ReadRequest::Byte => if s.len() == 0 {
            Seq::empty()
        } else {
            s.take(1)
        },
        ReadRequest::Data(limit) => s.take(given(s, limit, most) as int),
        ReadRequest::Done(_) => Seq::empty(),
    }
}

/// The decoder, and what is left in the source, after up to `steps` replies of
/// the source. The source has the bytes `s` and gives no more than `most` bytes
/// of data at once.
pub open spec fn paused(d: DecoderState, s: Seq<u8>, most: nat, steps: nat) -> (
    DecoderState,
    Seq<u8>,
)
    decreases steps,
{
    if steps == 0 || !d.reading() {
        (d, s)
    } else {
        let bytes = source_reply(d, s, most);
        paused(d.resume(Some(bytes)), s.skip(bytes.len() as int), most, (steps - 1) as nat)
    }
}

/// The decoder at the end of its read, and what is left in the source, where the
/// source is always ready.
pub open spec fn served(d: DecoderState, s: Seq<u8>, most: nat) -> (DecoderState, Seq<u8>)
    decreases
            s.len(),
            (if !d.reading() {
                0int
            } else if d.read->0.data is Some {
                1int
            } else {
                2int
            }),
{
    if !d.reading() {
        (d, s)
    } else {
        let bytes = source_reply(d, s, most);
        if bytes.len() == 0 && d.read->0.request() is Byte {
            (d.resume(Some(bytes)), s)
        } else {
            served(d.resume(Some(bytes)), s.skip(bytes.len() as int), most)
        }
    }
}

/// What one reply of the source comes to: its bytes are added to those that the
/// read has read. The read fails only where a byte is due at the end of the
/// source.
pub proof fn lemma_step(d: DecoderState, s: Seq<u8>, most: nat)
    requires
        d.valid(),
        d.reading(),
    ensures
        ({
            let bytes = source_reply(d, s, most);
            let d1 = d.resume(Some(bytes));
            let t = d.read->0;
            let t1 = d1.read->0;
            &&& d1 == d.at(t1)
            &&& d1.valid()
            &&& d1.read is Some
            &&& t1.valid()
            &&& t1.room == t.room
            &&& t1.remaining == d.remaining
            &&& t1.kept == d.kept
            &&& bytes.len() <= s.len()
            &&& consumed(t1) + s.skip(bytes.len() as int) == consumed(t) + s
            &&& if bytes.len() == 0 && t.request() is Byte {
                &&& !d1.reading()
                &&& t1 == ReadTrace { failed: true, ..t }
                &&& !t.failed
                &&& s.len() == 0
            } else {
                &&& !t1.failed
                &&& d1.reading() ==> {
                    &&& d1.remaining == d.remaining
                    &&& d1.kept == d.kept
                    &&& bytes.len() > 0 || (t.data is None && t1.data is Some)
                }
            }
            &&& !d1.reading() && t1.data is Some && t1.data->0.len() == 0 && t.room > 0 && most > 0
                ==> s.len() == bytes.len()
        }),
{
    let t = d.read->0;
    let bytes = source_reply(d, s, most);
    law_valid(d, t.room, Some(bytes));
    lemma_reply(t, Some(bytes));
    if bytes.len() == 0 && t.request() is Byte {
        assert(s.skip(0) =~= s);
    } else {
        lemma_consumed(t, bytes);
        assert(bytes + s.skip(bytes.len() as int) =~= s);
        assert(consumed(t) + bytes + s.skip(bytes.len() as int) =~= consumed(t) + (bytes + s.skip(
            bytes.len() as int,
        )));
    }
}

/// What a read that is under way comes to: what it has read at its end and what
/// is left in the source are what it had read and what there was.
pub proof fn lemma_served(d: DecoderState, s: Seq<u8>, most: nat)
    requires
        d.valid(),
        d.reading(),
    ensures
        ({
            let (d1, rest) = served(d, s, most);
            let t = d.read->0;
            let u = d1.read->0;
            &&& d1 == d.at(u)
            &&& d1.valid()
            &&& !d1.reading()
            &&& d1.read is Some
            &&& u.valid()
            &&& u.room == t.room
            &&& u.remaining == d.remaining
            &&& u.kept == d.kept
            &&& rest.len() <= s.len()
            &&& rest == s.skip(s.len() - rest.len())
            &&& consumed(u) + rest == consumed(t) + s
            &&& u.failed ==> {
                &&& rest.len() == 0
                &&& ReadTrace { failed: false, ..u }.request() is Byte
            }
            &&& u.data is Some && u.data->0.len() == 0 && t.room > 0 && most > 0 ==> rest.len()
                == 0 || u.failed
        }),
    decreases
            s.len(),
            (if d.read->0.data is Some {
                1int
            } else {
                2int
            }),
{
    lemma_step(d, s, most);
    let bytes = source_reply(d, s, most);
    let t = d.read->0;
    let d1 = d.resume(Some(bytes));
    let rest = s.skip(bytes.len() as int);
    assert(s =~= s.skip(0));
    if d1.reading() {
        lemma_served(d1, rest, most);
        let (_, end) = served(d1, rest, most);
        assert(end =~= s.skip(s.len() - end.len()));
    } else {
        assert(served(d1, rest, most) == (d1, rest));
        assert(rest =~= s.skip(s.len() - rest.len()));
        assert(d1.read->0.failed ==> ReadTrace { failed: false, ..d1.read->0 } == t);
    }
}

/// A read, a new one or one that was given up, hands out the data that comes
/// next in the message and leaves the rest of the message for the reads after
/// it. It hands out nothing at the end of the message, of which it then has read
/// the last byte. It fails only where the source has no message. What the source
/// gave to a read that was given up counts as if it were still in the source.
pub proof fn law_read(d: DecoderState, room: usize, s: Seq<u8>, most: nat)
    requires
        d.valid(),
    ensures
        ({
            let (d1, rest) = served(d.begin(room), s, most);
            let t = d1.read->0;
            let used = taken_in(d).len() + s.len() - rest.len();
            &&& d1.valid()
            &&& !d1.reading()
            &&& rest.len() <= s.len()
            &&& rest == s.skip(s.len() - rest.len())
            &&& match t.request() {
                ReadRequest::Done(Ok(count)) => {
                    &&& t.handed_out().len() == count
                    &&& count <= room
                    &&& if at_end(t) {
                        &&& count == 0
                        &&& coming(d, s) == Some((Seq::<u8>::empty(), used as nat))
                        &&& d1.remaining is None
                        &&& d1.kept.len() == 0
                    } else {
                        &&& coming(d, s) == preceded(
                            t.handed_out(),
                            used as nat,
                            coming(d1, rest),
                        )
                        &&& room > 0 && most > 0 && coming(d, s) is Some ==> count > 0
                        &&& count == 0 ==> d1.remaining is Some || d1.kept.len() > 0
                    }
                },
                ReadRequest::Done(Err(_)) => coming(d, s) is None,
                _ => false,
            }
        }),
{
    reveal(accounted);
    let d0 = d.begin(room);
    law_valid(d, room, None);
    assert(consumed(ReadTrace::start(d.remaining, d.kept, room)) =~= Seq::<u8>::empty());
    if d0.reading() {
        lemma_served(d0, s, most);
        assert(consumed(d0.read->0) == taken_in(d));
        let (d1, rest) = served(d0, s, most);
        let t = d1.read->0;
        if t.failed {
            assert(consumed(t) + rest == taken_in(d) + s);
            lemma_ended(d0, ReadTrace { failed: false, ..t }, rest);
        } else {
            lemma_ended(d0, t, rest);
            assert((consumed(t) + rest).len() == (taken_in(d) + s).len());
        }
        if let ReadRequest::Done(Ok(count)) = t.request() {
            if room > 0 && most > 0 && count == 0 && !at_end(t) {
                lemma_message_length(d1.remaining, rest);
                assert(message(d1.remaining, Seq::<u8>::empty() + rest) is None);
            }
        }
    } else {
        assert(s.skip(0) =~= s);
        lemma_ended(d, d0.read->0, s);
    }
}

/// A read that is given up after some replies of the source is not changed by
/// that: it ends as if it had not been given up.
proof fn lemma_paused(d: DecoderState, s: Seq<u8>, most: nat, steps: nat)
    requires
        d.valid(),
        d.reading(),
    ensures
        ({
            let (d1, rest) = paused(d, s, most, steps);
            &&& d1.valid()
            &&& d1.reading() ==> d1.read->0.room == d.read->0.room
            &&& served(d1, rest, most) == served(d, s, most)
        }),
    decreases steps,
{
    if steps > 0 {
        lemma_step(d, s, most);
        let bytes = source_reply(d, s, most);
        let d1 = d.resume(Some(bytes));
        let rest = s.skip(bytes.len() as int);
        assert(s.skip(0) =~= s);
        assert(served(d, s, most) == served(d1, rest, most));
        if d1.reading() {
            lemma_paused(d1, rest, most, (steps - 1) as nat);
        } else {
            assert(paused(d1, rest, most, (steps - 1) as nat) == (d1, rest));
        }
    }
}

/// A read into a buffer of size `room`, from a source that gives no more than
/// `most` bytes of data at once. Each of `pauses` stands for a call that is given
/// up after that many replies of the source, unless the read has ended before.
/// In the call after these the source is always ready.
pub struct ReadPlan {
    pub room: usize,
    pub most: nat,
    pub pauses: Seq<nat>,
}

impl ReadPlan {
    /// The same read from a source that is always ready.
    pub open spec fn at_once(self) -> ReadPlan {
        ReadPlan { pauses: Seq::empty(), ..self }
    }
}

/// The decoder and what is left in the source when a read has ended.
pub open spec fn polled(d: DecoderState, s: Seq<u8>, plan: ReadPlan) -> (DecoderState, Seq<u8>)
    decreases plan.pauses.len(),
{
    let d0 = d.begin(plan.room);
    if plan.pauses.len() == 0 {
        served(d0, s, plan.most)
    } else {
        let (d1, rest) = paused(d0, s, plan.most, plan.pauses.first());
        if d1.reading() {
            polled(d1, rest, ReadPlan { pauses: plan.pauses.drop_first(), ..plan })
        } else {
            (d1, rest)
        }
    }
}

/// However often a read is given up and called again, it ends as it does where
/// the source is always ready: with the same data or the same error, the decoder
/// in the same state, and the same bytes left in the source.
pub proof fn law_polled(d: DecoderState, s: Seq<u8>, plan: ReadPlan)
    requires
        d.valid(),
    ensures
        polled(d, s, plan) == served(d.begin(plan.room), s, plan.most),
    decreases plan.pauses.len(),
{
    let d0 = d.begin(plan.room);
    law_valid(d, plan.room, None);
    if plan.pauses.len() > 0 {
        if d0.reading() {
            lemma_paused(d0, s, plan.most, plan.pauses.first());
            let (d1, rest) = paused(d0, s, plan.most, plan.pauses.first());
            if d1.reading() {
                assert(d1.begin(plan.room) == d1);
                law_polled(d1, rest, ReadPlan { pauses: plan.pauses.drop_first(), ..plan });
            }
        }
    }
}

/// What a read that has ended came to: the data that it handed out, or an error.
pub open spec fn result(t: ReadTrace) -> Result<Seq<u8>, DecoderError> {
    match t.request() {
        ReadRequest::Done(Ok(_)) => Ok(t.handed_out()),
        _ => Err(DecoderError),
    }
}

/// What reads come to one after the other, the decoder after them, and what is
/// left in the source.
pub open spec fn results(d: DecoderState, s: Seq<u8>, plans: Seq<ReadPlan>) -> (
    Seq<Result<Seq<u8>, DecoderError>>,
    DecoderState,
    Seq<u8>,
)
    decreases plans.len(),
{
    if plans.len() == 0 {
        (Seq::empty(), d, s)
    } else {
        let (d1, rest) = polled(d, s, plans.first());
        let (later, d2, end) = results(d1, rest, plans.drop_first());
        (seq![result(d1.read->0)] + later, d2, end)
    }
}

/// A source that is not always ready makes no difference: reads into the same
/// buffers, each called again until it ends, hand out the same data, and fail
/// where they fail, as those from a source that is always ready.
pub proof fn law_results(d: DecoderState, s: Seq<u8>, plans: Seq<ReadPlan>)
    requires
        d.valid(),
    ensures
        results(d, s, plans) == results(d, s, plans.map_values(|plan: ReadPlan| plan.at_once())),
    decreases plans.len(),
{
    let ready = plans.map_values(|plan: ReadPlan| plan.at_once());
    if plans.len() > 0 {
        let plan = plans.first();
        law_polled(d, s, plan);
        law_polled(d, s, plan.at_once());
        law_read(d, plan.room, s, plan.most);
        let (d1, rest) = polled(d, s, plan);
        law_results(d1, rest, plans.drop_first());
        assert(ready.first() == plan.at_once());
        assert(ready.drop_first() =~= plans.drop_first().map_values(
            |plan: ReadPlan| plan.at_once(),
        ));
    }
}

/// What reads hand out until one hands out nothing, the decoder after them, and
/// what they leave in the source. `None` where a read fails or no read hands out
/// nothing.
pub open spec fn read_to_end(d: DecoderState, s: Seq<u8>, plans: Seq<ReadPlan>) -> Option<
    (Seq<u8>, DecoderState, Seq<u8>),
>
    decreases plans.len(),
{
    if plans.len() == 0 {
        None
    } else {
        let (d1, rest) = polled(d, s, plans.first());
        match result(d1.read->0) {
            Ok(data) => if data.len() == 0 {
                Some((data, d1, rest))
            } else {
                match read_to_end(d1, rest, plans.drop_first()) {
                    Some((more, d2, end)) => Some((data + more, d2, end)),
                    None => None,
                }
            },
            Err(_) => None,
        }
    }
}

/// Every read has a buffer, and the source gives something.
pub open spec fn all_positive(plans: Seq<ReadPlan>) -> bool {
    forall|i: int| 0 <= i < plans.len() ==> (#[trigger] plans[i]).room > 0 && plans[i].most > 0
}

/// The decoder is between two messages.
pub open spec fn between_messages(d: DecoderState) -> bool {
    d.remaining is None && d.kept.len() == 0 && !d.reading()
}

/// Where the source has a message, enough reads of whatever size hand out
/// exactly the data of the message, whenever the source is ready. They leave in
/// the source what follows it.
pub proof fn law_message_is_read(
    d: DecoderState,
    s: Seq<u8>,
    plans: Seq<ReadPlan>,
    data: Seq<u8>,
    length: nat,
)
    requires
        d.valid(),
        coming(d, s) == Some((data, length)),
        all_positive(plans),
        plans.len() > data.len(),
    ensures
        read_to_end(d, s, plans) matches Some((out, end, rest)) && {
            &&& out == data
            &&& between_messages(end)
            &&& end.valid()
            &&& rest == (taken_in(d) + s).skip(length as int)
        },
    decreases plans.len(),
{
    let plan = plans.first();
    assert(plans[0].room > 0 && plans[0].most > 0);
    law_polled(d, s, plan);
    law_read(d, plan.room, s, plan.most);
    lemma_message_length(d.remaining, taken_in(d) + s);
    let (d1, rest) = polled(d, s, plan);
    let t = d1.read->0;
    let used = taken_in(d).len() + s.len() - rest.len();
    assert(rest =~= (taken_in(d) + s).skip(used));
    if at_end(t) {
        assert(t.handed_out() =~= Seq::<u8>::empty());
    } else {
        let more = coming(d1, rest)->0;
        assert(all_positive(plans.drop_first())) by {
            assert forall|i: int| 0 <= i < plans.drop_first().len() implies (
            #[trigger] plans.drop_first()[i]).room > 0 && plans.drop_first()[i].most > 0 by {
                assert(plans.drop_first()[i] == plans[i + 1]);
            }
        }
        law_message_is_read(d1, rest, plans.drop_first(), more.0, more.1);
        lemma_message_length(d1.remaining, taken_in(d1) + rest);
        assert((taken_in(d1) + rest) =~= rest);
        assert(rest.skip(more.1 as int) =~= (taken_in(d) + s).skip(length as int));
    }
}

/// Reads that come to the end of a message have handed out its data: what is
/// no message is never read as one. (A source that ends within a chunk ends
/// the reads as well; something is then left of the chunk.)
pub proof fn law_read_is_message(
    d: DecoderState,
    s: Seq<u8>,
    plans: Seq<ReadPlan>,
    data: Seq<u8>,
    end: DecoderState,
    rest: Seq<u8>,
)
    requires
        d.valid(),
        read_to_end(d, s, plans) == Some((data, end, rest)),
        between_messages(end),
    ensures
        rest.len() <= s.len(),
        coming(d, s) == Some((data, (taken_in(d).len() + s.len() - rest.len()) as nat)),
        rest == s.skip(s.len() - rest.len()),
    decreases plans.len(),
{
    let plan = plans.first();
    law_polled(d, s, plan);
    law_read(d, plan.room, s, plan.most);
    let (d1, next) = polled(d, s, plan);
    if let Ok(part) = result(d1.read->0) {
        if part.len() > 0 {
            let (more, _, _) = read_to_end(d1, next, plans.drop_first())->0;
            law_read_is_message(d1, next, plans.drop_first(), more, end, rest);
            assert(rest =~= s.skip(s.len() - rest.len()));
        } else {
            assert(part =~= Seq::<u8>::empty());
        }
    }
}

/// A message is no longer than what it stands in.
proof fn lemma_message_length(remaining: Option<usize>, s: Seq<u8>)
    ensures
        message(remaining, s) matches Some((_, length)) ==> length <= s.len(),
    decreases s.len(), (if remaining is None { 1int } else { 0int }),
{
    match remaining {
        Some(size) => if s.len() >= size && end_of_line(s.skip(size as int)) is Complete {
            lemma_message_length(None, s.skip(size + 2));
        },
        None => if let SizeLine::Complete { size, length } = size_line(s) {
            lemma_message_length(Some(size), s.skip(length as int));
        },
    }
}

} // verus!
