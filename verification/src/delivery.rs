//! What reads hand out of any source, whether it has a message or not, and how
//! much they leave of a chunk.
use vstd::prelude::*;

use crate::decoder::{DecoderState, ReadRequest, ReadTrace};
use crate::decoding::{
    at_end, consumed, law_polled, law_valid, lemma_served, lemma_size_line_within, polled, result,
    served, taken_in, ReadPlan,
};
use crate::format::{end_of_line, size_line, LineEnd, SizeLine, CR};

verus! {

/// What a read that has ended has read, and what it leaves.
pub proof fn lemma_read_state(d: DecoderState, room: usize, s: Seq<u8>, most: nat)
    requires
        d.valid(),
    ensures
        ({
            let (d1, rest) = served(d.begin(room), s, most);
            let t = d1.read->0;
            &&& d1 == d.at(t)
            &&& d1.valid()
            &&& !d1.reading()
            &&& t.valid()
            &&& t.room == room
            &&& t.remaining == d.remaining
            &&& t.kept == d.kept
            &&& t.request() is Done
            &&& consumed(t) + rest == taken_in(d) + s
            &&& t.failed ==> {
                &&& rest.len() == 0
                &&& ReadTrace { failed: false, ..t }.request() is Byte
            }
        }),
{
    let d0 = d.begin(room);
    law_valid(d, room, None);
    assert(consumed(ReadTrace::start(d.remaining, d.kept, room)) =~= Seq::<u8>::empty());
    if d0.reading() {
        lemma_served(d0, s, most);
        assert(consumed(d0.read->0) == taken_in(d));
    }
}

/// A read that ends well lowers the remaining size by what it hands out. Where it
/// began between chunks, that is the size of the chunk less what it hands out. No
/// remaining size is left when all of the chunk has been handed out, and at the
/// end of the message. A read that fails does not change it.
pub proof fn law_remaining_size(d: DecoderState, room: usize, s: Seq<u8>, most: nat)
    requires
        d.valid(),
    ensures
        ({
            let d1 = served(d.begin(room), s, most).0;
            let t = d1.read->0;
            match t.request() {
                ReadRequest::Done(Ok(count)) => if at_end(t) {
                    &&& d.left_in_chunk() is None
                    &&& d1.left_in_chunk() is None
                } else {
                    let size = match d.left_in_chunk() {
                        Some(left) => left,
                        None => size_line(t.head)->size,
                    };
                    &&& d.left_in_chunk() is None ==> size_line(t.head) is Complete
                    &&& count <= size
                    &&& d1.left_in_chunk() == if count < size {
                        Some((size - count) as usize)
                    } else {
                        None
                    }
                },
                _ => d1.left_in_chunk() == d.left_in_chunk(),
            }
        }),
{
    lemma_read_state(d, room, s, most);
}

/// The data in the chunks that `s` starts with, as far as they go. Where
/// `remaining` is given, `s` starts inside of a chunk, with that many bytes of its
/// data still to come.
pub open spec fn data_in(remaining: Option<usize>, s: Seq<u8>) -> Seq<u8>
    decreases s.len(), (if remaining is None { 1int } else { 0int }),
{
    match remaining {
        Some(size) => if s.len() >= size && end_of_line(s.skip(size as int)) is Complete {
            s.take(size as int) + data_in(None, s.skip(size + 2))
        } else if s.len() >= size {
            s.take(size as int)
        } else {
            s
        },
        None => match size_line(s) {
            SizeLine::Complete { size, length } => if size == 0 {
                Seq::empty()
            } else {
                data_in(Some(size), s.skip(length as int))
            },
            _ => Seq::empty(),
        },
    }
}

/// The data in those chunks that have their line end.
pub open spec fn data_in_whole_chunks(remaining: Option<usize>, s: Seq<u8>) -> Seq<u8>
    decreases s.len(), (if remaining is None { 1int } else { 0int }),
{
    match remaining {
        Some(size) => if s.len() >= size && end_of_line(s.skip(size as int)) is Complete {
            s.take(size as int) + data_in_whole_chunks(None, s.skip(size + 2))
        } else {
            Seq::empty()
        },
        None => match size_line(s) {
            SizeLine::Complete { size, length } => if size == 0 {
                Seq::empty()
            } else {
                data_in_whole_chunks(Some(size), s.skip(length as int))
            },
            _ => Seq::empty(),
        },
    }
}

/// The most that reads can hand out before one hands out nothing or fails.
pub open spec fn at_most(d: DecoderState, s: Seq<u8>) -> Seq<u8> {
    d.kept + data_in(d.remaining, taken_in(d) + s)
}

/// The least that reads hand out before one fails.
pub open spec fn at_least(d: DecoderState, s: Seq<u8>) -> Seq<u8> {
    d.kept + data_in_whole_chunks(d.remaining, taken_in(d) + s)
}

/// Data from within a chunk leaves the rest of the chunk.
proof fn lemma_data_split(size: usize, data: Seq<u8>, rest: Seq<u8>)
    requires
        data.len() < size,
    ensures
        ({
            let left = Some((size - data.len()) as usize);
            &&& data_in(Some(size), data + rest) == data + data_in(left, rest)
            &&& data_in_whole_chunks(Some(size), data + rest).is_prefix_of(
                data + data_in_whole_chunks(left, rest),
            )
        }),
{
    let s = data + rest;
    let left = (size - data.len()) as usize;
    let more = data_in_whole_chunks(Some(left), rest);
    assert(Seq::<u8>::empty() =~= (data + more).subrange(0, 0));
    if s.len() >= size {
        assert(rest.skip(left as int) =~= s.skip(size as int));
        assert(data + rest.take(left as int) =~= s.take(size as int));
        if end_of_line(s.skip(size as int)) is Complete {
            assert(rest.skip(left + 2) =~= s.skip(size + 2));
            let next = data_in(None, s.skip(size + 2));
            assert(data + (rest.take(left as int) + next) =~= s.take(size as int) + next);
            let whole = data_in_whole_chunks(None, s.skip(size + 2));
            assert(data + (rest.take(left as int) + whole) =~= s.take(size as int) + whole);
            assert(data + more =~= (data + more).subrange(0, (data + more).len() as int));
        }
    }
}

/// The last data of a chunk leaves what follows its line end.
proof fn lemma_data_chunk(data: Seq<u8>, tail: Seq<u8>, rest: Seq<u8>)
    requires
        0 < data.len() <= usize::MAX,
        tail.len() <= 2,
        tail.len() == 2 ==> tail[0] == CR,
    ensures
        ({
            let size = Some(data.len() as usize);
            let s = data + tail + rest;
            match end_of_line(tail) {
                LineEnd::Partial => rest.len() == 0 ==> data_in_whole_chunks(size, s).len() == 0,
                LineEnd::Invalid => data_in_whole_chunks(size, s).len() == 0,
                LineEnd::Complete => {
                    &&& data_in(size, s) == data + data_in(None, rest)
                    &&& data_in_whole_chunks(size, s) == data + data_in_whole_chunks(None, rest)
                },
            }
        }),
{
    let size = data.len() as int;
    let s = data + tail + rest;
    assert(s.skip(size) =~= tail + rest);
    if end_of_line(tail) is Complete {
        assert(s.skip(size + 2) =~= rest);
        assert(s.take(size) =~= data);
    }
}

/// What a read hands out, or keeps for later, comes next in the chunks. A read
/// that fails has no whole chunk before it.
proof fn lemma_delivered(t: ReadTrace, rest: Seq<u8>)
    requires
        t.valid(),
        t.kept.len() == 0,
        !t.failed,
        t.request() is Done || (t.request() is Byte && rest.len() == 0),
    ensures
        ({
            let s = consumed(t) + rest;
            match t.request() {
                ReadRequest::Done(Ok(_)) => !at_end(t) ==> {
                    &&& data_in(t.remaining, s) == t.ready() + data_in(t.left(), rest)
                    &&& data_in_whole_chunks(t.remaining, s).is_prefix_of(
                        t.ready() + data_in_whole_chunks(t.left(), rest),
                    )
                },
                _ => data_in_whole_chunks(t.remaining, s).len() == 0,
            }
        }),
{
    let s = consumed(t) + rest;
    match t.data {
        Some(data) => {
            let size = t.available();
            let inner = data + t.tail + rest;
            assert(s =~= t.head + inner);
            if t.remaining is None {
                lemma_size_line_within(t.head, inner);
                assert((t.head + inner).skip(t.head.len() as int) =~= inner);
            } else {
                assert(t.head + inner =~= inner);
            }
            if data.len() < size {
                assert(inner =~= data + rest);
                lemma_data_split(size, data, rest);
            } else {
                lemma_data_chunk(data, t.tail, rest);
                let all = data + data_in_whole_chunks(None, rest);
                assert(all =~= all.subrange(0, all.len() as int));
            }
        },
        None => {
            assert(s =~= t.head + rest);
            assert(rest.len() == 0 ==> s =~= t.head);
            if size_line(t.head) !is Partial {
                lemma_size_line_within(t.head, rest);
            }
        },
    }
}

/// What one read hands out is the start of what there is, and leaves the rest of
/// it. A read fails only where no whole chunk is left.
#[verifier::rlimit(30)]
proof fn lemma_read_delivers(d: DecoderState, room: usize, s: Seq<u8>, most: nat)
    requires
        d.valid(),
    ensures
        ({
            let (d1, rest) = served(d.begin(room), s, most);
            let t = d1.read->0;
            &&& d1.valid()
            &&& match result(t) {
                Ok(data) => data.len() > 0 ==> {
                    &&& at_most(d, s) == data + at_most(d1, rest)
                    &&& at_least(d, s).is_prefix_of(data + at_least(d1, rest))
                },
                Err(_) => at_least(d, s).len() == 0,
            }
        }),
{
    lemma_read_state(d, room, s, most);
    let (d1, rest) = served(d.begin(room), s, most);
    let t = d1.read->0;
    let out = t.handed_out();
    let back = t.kept_back();
    assert(out + back =~= t.ready());
    assert(Seq::<u8>::empty() + rest =~= rest);
    if t.kept.len() > 0 {
        assert(consumed(t) =~= Seq::<u8>::empty());
        let more = data_in(None, rest);
        assert(out + (back + more) =~= d.kept + more);
        let whole = data_in_whole_chunks(None, rest);
        assert(out + (back + whole) =~= d.kept + whole);
        let all = d.kept + whole;
        assert(all =~= all.subrange(0, all.len() as int));
    } else {
        let more = data_in(t.left(), rest);
        let whole = data_in_whole_chunks(t.left(), rest);
        assert(out + (back + more) =~= t.ready() + more);
        assert(out + (back + whole) =~= t.ready() + whole);
        assert(at_most(d, s) =~= data_in(d.remaining, taken_in(d) + s));
        assert(at_least(d, s) =~= data_in_whole_chunks(d.remaining, taken_in(d) + s));
        if t.failed {
            lemma_delivered(ReadTrace { failed: false, ..t }, rest);
        } else {
            lemma_delivered(t, rest);
            assert(at_end(t) ==> out.len() == 0);
        }
    }
}

/// What reads hand out before one hands out nothing or fails, and whether one
/// failed.
pub open spec fn delivered(d: DecoderState, s: Seq<u8>, plans: Seq<ReadPlan>) -> (Seq<u8>, bool)
    decreases plans.len(),
{
    if plans.len() == 0 {
        (Seq::empty(), false)
    } else {
        let (d1, rest) = polled(d, s, plans.first());
        match result(d1.read->0) {
            Ok(data) => if data.len() == 0 {
                (Seq::empty(), false)
            } else {
                let (more, failed) = delivered(d1, rest, plans.drop_first());
                (data + more, failed)
            },
            Err(_) => (Seq::empty(), true),
        }
    }
}

/// Whatever the source has, reads of whatever size hand out, in order, data that
/// stands in its chunks and nothing else. Where a read fails, the data of all the
/// chunks before the fault has been handed out.
pub proof fn law_delivered(d: DecoderState, s: Seq<u8>, plans: Seq<ReadPlan>)
    requires
        d.valid(),
    ensures
        delivered(d, s, plans).0.is_prefix_of(at_most(d, s)),
        delivered(d, s, plans).1 ==> at_least(d, s).is_prefix_of(delivered(d, s, plans).0),
    decreases plans.len(),
{
    let (all, failed) = delivered(d, s, plans);
    assert(Seq::<u8>::empty().is_prefix_of(at_most(d, s)));
    if plans.len() > 0 {
        let plan = plans.first();
        law_polled(d, s, plan);
        lemma_read_delivers(d, plan.room, s, plan.most);
        let (d1, rest) = polled(d, s, plan);
        match result(d1.read->0) {
            Ok(data) => if data.len() > 0 {
                law_delivered(d1, rest, plans.drop_first());
                let (more, _) = delivered(d1, rest, plans.drop_first());
                lemma_prefix_behind(data, more, at_most(d1, rest));
                if failed {
                    lemma_prefix_behind(data, at_least(d1, rest), more);
                    lemma_prefix_of_prefix(at_least(d, s), data + at_least(d1, rest), all);
                }
            },
            Err(_) => {
                assert(at_least(d, s) =~= Seq::<u8>::empty());
                assert(at_least(d, s).is_prefix_of(all));
            },
        }
    }
}

proof fn lemma_prefix_behind(data: Seq<u8>, a: Seq<u8>, b: Seq<u8>)
    requires
        a.is_prefix_of(b),
    ensures
        (data + a).is_prefix_of(data + b),
{
    assert forall|i: int| 0 <= i < (data + a).len() implies (data + a)[i] == (data + b)[i] by {
        if i >= data.len() {
            assert(a[i - data.len()] == b.subrange(0, a.len() as int)[i - data.len()]);
        }
    }
    assert(data + a =~= (data + b).subrange(0, (data + a).len() as int));
}

proof fn lemma_prefix_of_prefix(a: Seq<u8>, b: Seq<u8>, c: Seq<u8>)
    requires
        a.is_prefix_of(b),
        b.is_prefix_of(c),
    ensures
        a.is_prefix_of(c),
{
    assert forall|i: int| 0 <= i < a.len() implies a[i] == c[i] by {
        assert(a[i] == b.subrange(0, a.len() as int)[i]);
        assert(b[i] == c.subrange(0, b.len() as int)[i]);
    }
    assert(a =~= c.subrange(0, a.len() as int));
}

} // verus!
