//! What a read comes to, case by case, for every source.
use vstd::prelude::*;

use crate::decoder::{byte_of, DecoderError, DecoderState, ReadRequest, ReadTrace, SourceReply};
use crate::decoding::{
    consumed, law_valid, lemma_served, lemma_size_line_within, lemma_step, paused, served,
    source_reply, taken_in,
};
use crate::delivery::lemma_read_state;
use crate::format::{line_length, run, size_line, SizeLine};

verus! {

/// A source that fails is no source that ends.
pub proof fn law_source_reply(reply: SourceReply<'_>)
    ensures
        reply@ == match reply {
            SourceReply::Failed => None::<Seq<u8>>,
            SourceReply::Filled(bytes) => Some(bytes@),
        },
        byte_of(None) == None::<u8>,
        forall|bytes: Seq<u8>, b: u8|
            byte_of(Some(bytes)) == Some(b) <==> (bytes.len() == 1 && bytes[0] == b),
{
}

/// Whatever a read asks for, and whatever its buffer: if the source fails, the
/// read ends with an error, and never well. The same holds if the source ends, or
/// gives more than it was asked for, where one byte is due. The decoder stands
/// where it stood before the read.
pub proof fn law_failure(d: DecoderState, reply: Option<Seq<u8>>)
    requires
        d.valid(),
        d.reading(),
        reply is None || (d.read->0.request() is Byte && reply->0.len() != 1),
    ensures
        d.resume(reply).read is Some,
        d.resume(reply).read->0.request() == ReadRequest::Done(Err(DecoderError)),
        d.resume(reply).remaining == d.remaining,
        d.resume(reply).kept == d.kept,
{
}

/// A source may give anything, but for more data than it was asked for.
pub proof fn law_any_reply(t: ReadTrace, reply: Option<Seq<u8>>)
    ensures
        t.plausible(reply) <==> match (t.request(), reply) {
            (ReadRequest::Data(limit), Some(bytes)) => bytes.len() <= limit,
            _ => true,
        },
{
}

/// A read that was given up has kept the bytes that the source gave to it, in
/// order, and the decoder stands where it stood. Where it has read data, that is
/// all that was left of the chunk.
pub proof fn law_given_up_read(d: DecoderState, room: usize, s: Seq<u8>, most: nat, steps: nat)
    requires
        d.valid(),
    ensures
        ({
            let (d1, rest) = paused(d.begin(room), s, most, steps);
            let t = d1.read->0;
            let all = taken_in(d1);
            &&& d1.valid()
            &&& d1.reading() ==> {
                &&& all + rest == taken_in(d) + s
                &&& d1.remaining == d.remaining
                &&& d1.kept == d.kept
                &&& t.data matches Some(data) ==> match d.remaining {
                    Some(n) => all == data + t.tail && data.len() == n,
                    None => {
                        &&& size_line(all) matches SizeLine::Complete { size, length }
                        &&& data.len() == size
                        &&& all.skip(length as int) == data + t.tail
                    },
                }
            }
        }),
{
    let d0 = d.begin(room);
    law_valid(d, room, None);
    assert(consumed(ReadTrace::start(d.remaining, d.kept, room)) =~= Seq::<u8>::empty());
    lemma_paused_state(d0, s, most, steps);
    let (d1, rest) = paused(d0, s, most, steps);
    if d1.reading() && d0.reading() {
        assert(taken_in(d0) == taken_in(d));
        let t = d1.read->0;
        if let Some(data) = t.data {
            let inner = data + t.tail;
            assert(consumed(t) =~= t.head + inner);
            if d.remaining is None {
                lemma_size_line_within(t.head, inner);
                assert((t.head + inner).skip(t.head.len() as int) =~= inner);
            } else {
                assert(t.head + inner =~= inner);
            }
        }
    }
}

proof fn lemma_paused_state(d: DecoderState, s: Seq<u8>, most: nat, steps: nat)
    requires
        d.valid(),
    ensures
        ({
            let (d1, rest) = paused(d, s, most, steps);
            &&& d1.valid()
            &&& d1.reading() ==> {
                &&& d.reading()
                &&& taken_in(d1) + rest == taken_in(d) + s
                &&& d1.remaining == d.remaining
                &&& d1.kept == d.kept
            }
        }),
    decreases steps,
{
    if steps > 0 && d.reading() {
        lemma_step(d, s, most);
        let bytes = source_reply(d, s, most);
        lemma_paused_state(
            d.resume(Some(bytes)),
            s.skip(bytes.len() as int),
            most,
            (steps - 1) as nat,
        );
    }
}

/// A reply after the end of a read changes nothing.
pub proof fn law_read_ended(d: DecoderState, reply: Option<Seq<u8>>)
    requires
        d.read is Some,
        d.read->0.request() is Done,
    ensures
        d.resume(reply) == d,
{
}

/// The data that a read has read, and what it leaves of it.
proof fn lemma_data_read(d: DecoderState, s: Seq<u8>, most: nat)
    requires
        d.valid(),
        d.reading(),
    ensures
        ({
            let (d1, rest) = served(d, s, most);
            let t = d.read->0;
            let u = d1.read->0;
            &&& t.data is Some ==> u.data == t.data && u.head == t.head
            &&& t.data is None && u.data is Some ==> ({
                let count = u.data->0.len();
                let limit = if t.room < u.available() {
                    t.room
                } else {
                    u.available()
                };
                let there = count + u.tail.len() + rest.len();
                &&& count <= limit
                &&& count <= most
                &&& count == limit || count == most || count == there
            })
        }),
    decreases
            s.len(),
            (if d.read->0.data is Some {
                1int
            } else {
                2int
            }),
{
    let t = d.read->0;
    let bytes = source_reply(d, s, most);
    law_valid(d, t.room, Some(bytes));
    let d1 = d.resume(Some(bytes));
    let rest = s.skip(bytes.len() as int);
    lemma_served(d, s, most);
    if d1.reading() {
        lemma_data_read(d1, rest, most);
        lemma_served(d1, rest, most);
        let (d2, end) = served(d1, rest, most);
        let t1 = d1.read->0;
        let u = d2.read->0;
        if t.data is None && t1.data is Some {
            assert((consumed(u) + end).len() == (consumed(t1) + rest).len());
        }
    } else {
        assert(served(d1, rest, most) == (d1, rest));
    }
}

/// A read that reads `n` bytes of data at most, where `z` starts with what is
/// left of the chunk: its end, the decoder then and what is left of `z`.
spec fn ends_in_chunk(
    d: DecoderState,
    d1: DecoderState,
    rest: Seq<u8>,
    n: usize,
    z: Seq<u8>,
    room: usize,
    most: nat,
) -> bool {
    let t = d1.read->0;
    let k = data_count(n, z, room, most);
    if k < n {
        &&& t.request() == ReadRequest::Done(Ok(k as usize))
        &&& t.handed_out() == z.take(k as int)
        &&& d1.remaining == Some((n - k) as usize)
        &&& d1.kept.len() == 0
        &&& rest == z.skip(k as int)
    } else if z.len() >= n + 2 && z[n as int] == 13 && z[n + 1] == 10 {
        &&& t.request() == ReadRequest::Done(Ok(n))
        &&& t.handed_out() == z.take(n as int)
        &&& d1.remaining is None
        &&& d1.kept.len() == 0
        &&& rest == z.skip(n + 2)
    } else {
        &&& t.request() == ReadRequest::Done(Err(DecoderError))
        &&& d1.remaining == d.remaining
        &&& d1.kept == d.kept
        &&& rest == z.skip(
            n + if z.len() == n {
                0
            } else if z[n as int] != 13 || z.len() == n + 1 {
                1int
            } else {
                2
            },
        )
    }
}

spec fn data_count(n: usize, z: Seq<u8>, room: usize, most: nat) -> nat {
    let a = if room < n {
        room as nat
    } else {
        n as nat
    };
    let b = if most < z.len() {
        most
    } else {
        z.len()
    };
    if a < b {
        a
    } else {
        b
    }
}

/// The end of a read, from the trace of it.
proof fn lemma_ends_in_chunk(
    d: DecoderState,
    d1: DecoderState,
    rest: Seq<u8>,
    n: usize,
    z: Seq<u8>,
    room: usize,
    most: nat,
)
    requires
        d.kept.len() == 0,
        ({
            let t = d1.read->0;
            &&& d1 == d.at(t)
            &&& t.valid()
            &&& t.kept.len() == 0
            &&& t.room == room
            &&& t.request() is Done
            &&& t.available() == n
            &&& t.data matches Some(data) && {
                &&& data.len() == data_count(n, z, room, most)
                &&& data + t.tail + rest == z
            }
            &&& t.failed ==> {
                &&& rest.len() == 0
                &&& ReadTrace { failed: false, ..t }.request() is Byte
            }
        }),
    ensures
        ends_in_chunk(d, d1, rest, n, z, room, most),
{
    let t = d1.read->0;
    let data = t.data->0;
    let k = data.len() as int;
    assert(z.take(k) =~= data);
    assert(t.handed_out() =~= data);
    assert(t.kept_back() =~= Seq::<u8>::empty());
    assert(z.skip(k) =~= t.tail + rest);
    assert(z.skip(k + t.tail.len()) =~= rest);
    if k == n {
        assert(t.tail.len() > 0 ==> z[k] == t.tail[0]);
        assert(t.tail.len() > 1 ==> z[k + 1] == t.tail[1]);
    }
}

/// The first carriage return ends the line.
proof fn lemma_first_stop(s: Seq<u8>, stop: spec_fn(u8) -> bool)
    ensures
        run(s, stop) <= s.len(),
        run(s, stop) < s.len() ==> stop(s[run(s, stop) as int]),
        forall|i: int| 0 <= i < run(s, stop) ==> !stop(#[trigger] s[i]),
    decreases s.len(),
{
    if s.len() > 0 && !stop(s.first()) {
        let rest = s.drop_first();
        lemma_first_stop(rest, stop);
        assert forall|i: int| 0 <= i < run(s, stop) implies !stop(#[trigger] s[i]) by {
            if i > 0 {
                assert(s[i] == rest[i - 1]);
            }
        }
        assert(run(rest, stop) < rest.len() ==> rest[run(rest, stop) as int] == s[run(
            s,
            stop,
        ) as int]);
    }
}

/// What the trace of a read that has ended says of the source.
#[verifier::rlimit(30)]
proof fn lemma_classified(d: DecoderState, room: usize, s: Seq<u8>, most: nat)
    requires
        d.valid(),
        d.kept.len() == 0,
        d.reading() ==> d.read->0.data is None,
    ensures
        ({
            let (d1, rest) = served(d.begin(room), s, most);
            let t = d1.read->0;
            let all = taken_in(d) + s;
            match t.data {
                Some(data) => {
                    let n = t.available();
                    let z = data + t.tail + rest;
                    &&& n > 0
                    &&& ends_in_chunk(d, d1, rest, n, z, room, most)
                    &&& match d.remaining {
                        Some(size) => n == size && z == all,
                        None => {
                            &&& size_line(all) matches SizeLine::Complete { size, length }
                            &&& size == n
                            &&& z == all.skip(length as int)
                        },
                    }
                },
                None => {
                    &&& d.remaining is None
                    &&& size_line(all) == size_line(t.head)
                    &&& all == t.head + rest
                    &&& size_line(all) is Partial ==> t.failed && rest.len() == 0
                    &&& size_line(all) matches SizeLine::Complete { size, .. } ==> size == 0
                },
            }
        }),
{
    lemma_read_state(d, room, s, most);
    let d0 = d.begin(room);
    let (d1, rest) = served(d0, s, most);
    let t = d1.read->0;
    let all = taken_in(d) + s;
    law_valid(d, room, None);
    assert(d0.reading());
    lemma_data_read(d0, s, most);
    match t.data {
        Some(data) => {
            let n = t.available();
            let z = data + t.tail + rest;
            assert(all =~= t.head + z);
            lemma_ends_in_chunk(d, d1, rest, n, z, room, most);
            if d.remaining is None {
                lemma_size_line_within(t.head, z);
                assert(all.skip(t.head.len() as int) =~= z);
            } else {
                assert(all =~= z);
            }
        },
        None => {
            assert(all =~= t.head + rest);
            assert(rest.len() == 0 ==> all =~= t.head);
            if size_line(t.head) !is Partial {
                lemma_size_line_within(t.head, rest);
            }
        },
    }
}

/// A read inside of a chunk hands out as much of its data as there is, the
/// buffer has room for and the source gives at once. Where that is the last of
/// the chunk, the line end after it is read too, and the read fails if it is none.
/// (What the source gave to a read that was given up counts as if it were still
/// in the source.)
pub proof fn law_read_in_chunk(d: DecoderState, room: usize, s: Seq<u8>, most: nat, n: usize)
    requires
        d.valid(),
        d.kept.len() == 0,
        d.remaining == Some(n),
        d.reading() ==> d.read->0.data is None,
    ensures
        ({
            let (d1, rest) = served(d.begin(room), s, most);
            let t = d1.read->0;
            let z = taken_in(d) + s;
            let k = if room < n {
                room as nat
            } else {
                n as nat
            };
            let k = if k < most {
                k
            } else {
                most
            };
            let k = if k < z.len() {
                k
            } else {
                z.len()
            };
            if k < n {
                &&& t.request() == ReadRequest::Done(Ok(k as usize))
                &&& t.handed_out() == z.take(k as int)
                &&& d1.remaining == Some((n - k) as usize)
                &&& d1.kept.len() == 0
                &&& rest == z.skip(k as int)
            } else if z.len() >= n + 2 && z[n as int] == 13 && z[n + 1] == 10 {
                &&& t.request() == ReadRequest::Done(Ok(n))
                &&& t.handed_out() == z.take(n as int)
                &&& d1.remaining is None
                &&& d1.kept.len() == 0
                &&& rest == z.skip(n + 2)
            } else {
                &&& t.request() == ReadRequest::Done(Err(DecoderError))
                &&& d1.remaining == d.remaining
                &&& d1.kept.len() == 0
                &&& rest == z.skip(
                    n + if z.len() == n {
                        0
                    } else if z[n as int] != 13 || z.len() == n + 1 {
                        1int
                    } else {
                        2
                    },
                )
            }
        }),
{
    lemma_classified(d, room, s, most);
}

/// A read between chunks reads a size line, and then the data of the chunk as a
/// read inside of the chunk does.
pub proof fn law_read_chunk(
    d: DecoderState,
    room: usize,
    s: Seq<u8>,
    most: nat,
    n: usize,
    length: nat,
)
    requires
        d.valid(),
        d.kept.len() == 0,
        d.remaining is None,
        d.reading() ==> d.read->0.data is None,
        size_line(taken_in(d) + s) == (SizeLine::Complete { size: n, length }),
        n > 0,
    ensures
        ({
            let (d1, rest) = served(d.begin(room), s, most);
            let t = d1.read->0;
            let z = (taken_in(d) + s).skip(length as int);
            let k = if room < n {
                room as nat
            } else {
                n as nat
            };
            let k = if k < most {
                k
            } else {
                most
            };
            let k = if k < z.len() {
                k
            } else {
                z.len()
            };
            if k < n {
                &&& t.request() == ReadRequest::Done(Ok(k as usize))
                &&& t.handed_out() == z.take(k as int)
                &&& d1.remaining == Some((n - k) as usize)
                &&& d1.kept.len() == 0
                &&& rest == z.skip(k as int)
            } else if z.len() >= n + 2 && z[n as int] == 13 && z[n + 1] == 10 {
                &&& t.request() == ReadRequest::Done(Ok(n))
                &&& t.handed_out() == z.take(n as int)
                &&& d1.remaining is None
                &&& d1.kept.len() == 0
                &&& rest == z.skip(n + 2)
            } else {
                &&& t.request() == ReadRequest::Done(Err(DecoderError))
                &&& d1.remaining == d.remaining
                &&& d1.kept.len() == 0
                &&& rest == z.skip(
                    n + if z.len() == n {
                        0
                    } else if z[n as int] != 13 || z.len() == n + 1 {
                        1int
                    } else {
                        2
                    },
                )
            }
        }),
{
    lemma_classified(d, room, s, most);
}

/// A read that comes to a chunk of size zero hands out nothing and ends well if a
/// line end follows. If not it fails.
pub proof fn law_read_last_chunk(
    d: DecoderState,
    room: usize,
    s: Seq<u8>,
    most: nat,
    length: nat,
)
    requires
        d.valid(),
        d.kept.len() == 0,
        d.remaining is None,
        d.reading() ==> d.read->0.data is None,
        size_line(taken_in(d) + s) == (SizeLine::Complete { size: 0, length }),
    ensures
        ({
            let (d1, rest) = served(d.begin(room), s, most);
            let t = d1.read->0;
            let z = (taken_in(d) + s).skip(length as int);
            &&& d1.remaining is None
            &&& d1.kept.len() == 0
            &&& if z.len() >= 2 && z[0] == 13 && z[1] == 10 {
                &&& t.request() == ReadRequest::Done(Ok(0))
                &&& t.handed_out().len() == 0
                &&& rest == z.skip(2)
            } else {
                &&& t.request() == ReadRequest::Done(Err(DecoderError))
                &&& rest == z.skip(
                    if z.len() == 0 {
                        0
                    } else if z[0] != 13 || z.len() == 1 {
                        1int
                    } else {
                        2
                    },
                )
            }
        }),
{
    lemma_read_state(d, room, s, most);
    lemma_classified(d, room, s, most);
    let (d1, rest) = served(d.begin(room), s, most);
    let t = d1.read->0;
    let z = (taken_in(d) + s).skip(length as int);
    let end = t.head.skip(length as int);
    assert(z =~= end + rest);
    assert(z.skip(end.len() as int) =~= rest);
    assert(end.len() > 0 ==> z[0] == end[0]);
    assert(end.len() > 1 ==> z[1] == end[1]);
    assert(t.kept_back() =~= Seq::<u8>::empty());
}

/// A read between chunks fails where the source has no size line. It has then
/// read what there is, or up to the byte after the first carriage return.
pub proof fn law_read_no_size_line(d: DecoderState, room: usize, s: Seq<u8>, most: nat)
    requires
        d.valid(),
        d.kept.len() == 0,
        d.remaining is None,
        d.reading() ==> d.read->0.data is None,
        size_line(taken_in(d) + s) !is Complete,
    ensures
        ({
            let (d1, rest) = served(d.begin(room), s, most);
            let all = taken_in(d) + s;
            let k = all.len() - rest.len() - 2;
            &&& d1.read->0.request() == ReadRequest::Done(Err(DecoderError))
            &&& d1.remaining is None
            &&& d1.kept.len() == 0
            &&& rest.len() == 0 || {
                &&& 0 <= k
                &&& all[k] == 13
                &&& rest == all.skip(k + 2)
                &&& forall|i: int| 0 <= i < k ==> #[trigger] all[i] != 13
            }
            &&& size_line(all) is Partial ==> rest.len() == 0
        }),
{
    lemma_read_state(d, room, s, most);
    lemma_classified(d, room, s, most);
    let (d1, rest) = served(d.begin(room), s, most);
    let t = d1.read->0;
    let all = taken_in(d) + s;
    if size_line(all) is Invalid {
        let stop = |b: u8| b == crate::format::CR;
        lemma_first_stop(t.head, stop);
        let k = line_length(t.head) as int;
        assert(rest =~= all.skip(t.head.len() as int));
        assert(all[k] == t.head[k]);
        assert forall|i: int| 0 <= i < k implies #[trigger] all[i] != 13 by {
            assert(all[i] == t.head[i]);
            assert(!stop(t.head[i]));
        }
    }
}

/// Data that was kept from the read before is handed out first, as much of it as
/// the buffer has room for, and the source is not asked.
pub proof fn law_read_kept(d: DecoderState, room: usize, s: Seq<u8>, most: nat)
    requires
        d.valid(),
        d.kept.len() > 0,
    ensures
        ({
            let (d1, rest) = served(d.begin(room), s, most);
            let t = d1.read->0;
            let k = if room < d.kept.len() {
                room as int
            } else {
                d.kept.len() as int
            };
            &&& t.request() == ReadRequest::Done(Ok(k as usize))
            &&& t.handed_out() == d.kept.take(k)
            &&& d1.kept == d.kept.skip(k)
            &&& d1.remaining == d.remaining
            &&& rest == s
        }),
{
}

/// A read that was given up when it had read the last data of a chunk hands that
/// out if the line end follows, as much of it as the buffer has room for now, and
/// keeps the rest. If not it fails.
pub proof fn law_read_line_end(d: DecoderState, room: usize, s: Seq<u8>, most: nat)
    requires
        d.valid(),
        d.reading(),
        d.read->0.data is Some,
    ensures
        ({
            let (d1, rest) = served(d.begin(room), s, most);
            let t = d1.read->0;
            let data = d.read->0.data->0;
            let z = d.read->0.tail + s;
            let k = if room < data.len() {
                room as int
            } else {
                data.len() as int
            };
            if z.len() >= 2 && z[0] == 13 && z[1] == 10 {
                &&& t.request() == ReadRequest::Done(Ok(k as usize))
                &&& t.handed_out() == data.take(k)
                &&& d1.kept == data.skip(k)
                &&& d1.remaining is None
                &&& rest == z.skip(2)
            } else {
                &&& t.request() == ReadRequest::Done(Err(DecoderError))
                &&& d1.remaining == d.remaining
                &&& d1.kept == d.kept
            }
        }),
{
    lemma_read_state(d, room, s, most);
    let d0 = d.begin(room);
    let (d1, rest) = served(d0, s, most);
    let t = d1.read->0;
    lemma_data_read(d0, s, most);
    let before = d.read->0;
    let data = before.data->0;
    let z = before.tail + s;
    let front = before.head + data;
    assert(consumed(t) + rest =~= front + (t.tail + rest));
    assert(consumed(before) + s =~= front + z);
    assert((front + (t.tail + rest)).skip(front.len() as int) =~= t.tail + rest);
    assert((front + z).skip(front.len() as int) =~= z);
    assert(t.tail + rest == z);
    assert(z.skip(t.tail.len() as int) =~= rest);
    assert(t.tail.len() > 0 ==> z[0] == t.tail[0]);
    assert(t.tail.len() > 1 ==> z[1] == t.tail[1]);
}

} // verus!
