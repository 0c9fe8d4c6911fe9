//! The decoder: reads chunks from a source and hands back the data in them.
//!
//! The decoder does not read by itself. A read is a conversation: it asks for
//! bytes of the source, is told what the source gave, and asks again or ends.
//! Where the source is not ready the read is given up; the decoder keeps what
//! the source gave, and the next read goes on with it.
use vstd::prelude::*;

use crate::format::{
    end_of_line, field_length, lemma_run_push, lemma_size_line_ends, lemma_size_line_push,
    line_length, size_line, LineEnd, SizeLine, CR, LF, SEMICOLON,
};
use crate::text::parse_size;

verus! {

/// What the source has is not in the chunked coding, or the source failed.
#[derive(Debug, Clone, Copy, PartialEq, Eq, Structural)]
pub struct DecoderError;

impl DecoderError {
    /// Says what went wrong.
    pub fn description(&self) -> (r: &'static str)
        ensures
            r@ == "Error while decoding chunks"@,
    {
        "Error while decoding chunks"
    }
}

/// What the source did when it was asked for bytes.
#[derive(Debug, Clone, Copy)]
pub enum SourceReply<'a> {
    /// It failed.
    Failed,
    /// It filled in these bytes; none at its end.
    Filled(&'a [u8]),
}

impl<'a> View for SourceReply<'a> {
    type V = Option<Seq<u8>>;

    open spec fn view(&self) -> Option<Seq<u8>> {
        match self {
            SourceReply::Failed => None,
            SourceReply::Filled(bytes) => Some(bytes@),
        }
    }
}

/// The byte that a reply brings when one byte was asked for.
pub open spec fn byte_of(reply: Option<Seq<u8>>) -> Option<u8> {
    match reply {
        Some(bytes) => if bytes.len() == 1 {
            Some(bytes[0])
        } else {
            None
        },
        None => None,
    }
}

/// The one byte that was asked for.
pub fn read_byte(reply: &SourceReply<'_>) -> (r: Result<u8, DecoderError>)
    ensures
        r == match byte_of(reply@) {
            Some(byte) => Ok::<u8, DecoderError>(byte),
            None => Err(DecoderError),
        },
        r is Ok <==> (reply@ is Some && reply@->0.len() == 1),
        r matches Ok(byte) ==> byte == reply@->0[0],
{
    match reply {
        SourceReply::Failed => Err(DecoderError),
        SourceReply::Filled(bytes) => if bytes.len() != 1 {
            Err(DecoderError)
        } else {
            Ok(bytes[0])
        },
    }
}

/// Accepts a carriage return and nothing else.
pub fn read_carriage_return(reply: &SourceReply<'_>) -> (r: Result<(), DecoderError>)
    ensures
        r == if byte_of(reply@) == Some(CR) {
            Ok::<(), DecoderError>(())
        } else {
            Err(DecoderError)
        },
        r is Ok <==> (reply@ is Some && reply@->0.len() == 1 && reply@->0[0] == 13),
{
    match read_byte(reply) {
        Ok(byte) => if byte == CR {
            Ok(())
        } else {
            Err(DecoderError)
        },
        Err(e) => Err(e),
    }
}

/// Accepts a line feed and nothing else.
pub fn read_line_feed(reply: &SourceReply<'_>) -> (r: Result<(), DecoderError>)
    ensures
        r == if byte_of(reply@) == Some(LF) {
            Ok::<(), DecoderError>(())
        } else {
            Err(DecoderError)
        },
        r is Ok <==> (reply@ is Some && reply@->0.len() == 1 && reply@->0[0] == 10),
{
    match read_byte(reply) {
        Ok(byte) => if byte == LF {
            Ok(())
        } else {
            Err(DecoderError)
        },
        Err(e) => Err(e),
    }
}

/// Where in a size line the next byte stands.
#[derive(Debug, Clone, Copy)]
enum LinePart {
    Field,
    Extension,
    LineFeed,
}

/// Reads a size line byte by byte.
pub struct SizeLineReader {
    // the bytes of the size field
    field: Vec<u8>,
    part: LinePart,
    // the bytes of the line
    line: Ghost<Seq<u8>>,
}

impl View for SizeLineReader {
    type V = Seq<u8>;

    closed spec fn view(&self) -> Seq<u8> {
        self.line@
    }
}

impl SizeLineReader {
    /// The line goes on, and the reader knows where in it the next byte stands.
    pub closed spec fn wf(&self) -> bool {
        let line = self.line@;
        &&& match self.part {
            LinePart::Field => {
                &&& field_length(line) == line.len()
                &&& line_length(line) == line.len()
            },
            LinePart::Extension => {
                &&& field_length(line) < line.len()
                &&& line_length(line) == line.len()
            },
            LinePart::LineFeed => {
                &&& field_length(line) < line.len()
                &&& line_length(line) == line.len() - 1
            },
        }
        &&& self.field@ == line.take(field_length(line) as int)
    }

    /// A reader at the start of a line.
    pub fn new() -> (r: SizeLineReader)
        ensures
            r.wf(),
            r@ == Seq::<u8>::empty(),
    {
        let r = SizeLineReader {
            field: Vec::new(),
            part: LinePart::Field,
            line: Ghost(Seq::empty()),
        };
        assert(r.field@ =~= r.line@.take(0));
        r
    }

    /// Takes the next byte of the line. The result is `None` as long as the
    /// line goes on.
    pub fn read_chunk_size(&mut self, reply: &SourceReply<'_>) -> (r: Option<
        Result<usize, DecoderError>,
    >)
        requires
            old(self).wf(),
        ensures
            match byte_of(reply@) {
                None => final(self)@ == old(self)@ && r == Some(
                    Err::<usize, DecoderError>(DecoderError),
                ),
                Some(byte) => final(self)@ == old(self)@.push(byte) && r == match size_line(
                    final(self)@,
                ) {
                    SizeLine::Partial => None,
                    SizeLine::Invalid => Some(Err::<usize, DecoderError>(DecoderError)),
                    SizeLine::Complete { size, .. } => Some(Ok::<usize, DecoderError>(size)),
                },
            },
            r is None ==> final(self).wf(),
    {
        let byte = match read_byte(reply) {
            Ok(byte) => byte,
            Err(e) => {
                return Some(Err(e));
            },
        };
        let ghost before = self.line@;
        proof {
            lemma_run_push(before, byte, |b: u8| b == CR);
            lemma_run_push(before, byte, |b: u8| b == CR || b == SEMICOLON);
            assert(before.push(byte).take(field_length(before) as int) =~= before.take(
                field_length(before) as int,
            ));
            assert(before.push(byte).take(before.len() as int + 1) =~= before.push(byte));
            assert(before.take(before.len() as int) =~= before);
        }
        self.line = Ghost(before.push(byte));
        match self.part {
            LinePart::Field => {
                if byte == CR {
                    self.part = LinePart::LineFeed;
                } else if byte == SEMICOLON {
                    self.part = LinePart::Extension;
                } else {
                    self.field.push(byte);
                }
                None
            },
            LinePart::Extension => {
                if byte == CR {
                    self.part = LinePart::LineFeed;
                }
                None
            },
            LinePart::LineFeed => {
                match read_line_feed(reply) {
                    Err(e) => Some(Err(e)),
                    Ok(()) => {
                        let mut field: Vec<u8> = Vec::new();
                        std::mem::swap(&mut field, &mut self.field);
                        match parse_size(field) {
                            Some(size) => Some(Ok(size)),
                            None => Some(Err(DecoderError)),
                        }
                    },
                }
            },
        }
    }
}

/// What a read asks for next.
#[derive(Debug, Clone, Copy, PartialEq, Eq)]
pub enum ReadRequest {
    /// One byte of the source.
    Byte,
    /// Up to this many bytes of the source.
    Data(usize),
    /// Nothing more: the read has ended. It hands out this many bytes of data;
    /// none at the end of the message.
    Done(Result<usize, DecoderError>),
}

/// The smaller of two numbers.
pub open spec fn smaller(a: usize, b: usize) -> usize {
    if a < b {
        a
    } else {
        b
    }
}

/// What has happened in a read so far.
pub struct ReadTrace {
    /// What was left of the chunk when the read began; `None` between chunks.
    pub remaining: Option<usize>,
    /// Data that was ready to be handed out when the read began.
    pub kept: Seq<u8>,
    /// The size of the reader's buffer.
    pub room: usize,
    /// The bytes that were read before the data.
    pub head: Seq<u8>,
    /// The data, once it has been read.
    pub data: Option<Seq<u8>>,
    /// The bytes that were read after the data.
    pub tail: Seq<u8>,
    /// The source failed, or ended where a byte was due.
    pub failed: bool,
}

impl ReadTrace {
    /// Nothing has happened yet.
    pub open spec fn start(remaining: Option<usize>, kept: Seq<u8>, room: usize) -> ReadTrace {
        ReadTrace {
            remaining,
            kept,
            room,
            head: Seq::empty(),
            data: None,
            tail: Seq::empty(),
            failed: false,
        }
    }

    /// How much of the current chunk's data there is to read: what was left of
    /// the chunk, or the size of the chunk that starts.
    pub open spec fn available(self) -> usize {
        match self.remaining {
            Some(size) => size,
            None => match size_line(self.head) {
                SizeLine::Complete { size, .. } => size,
                _ => 0,
            },
        }
    }

    /// The data that the read has for the reader.
    pub open spec fn ready(self) -> Seq<u8> {
        if self.kept.len() > 0 {
            self.kept
        } else {
            match self.data {
                Some(data) => data,
                None => Seq::empty(),
            }
        }
    }

    /// How much of that the reader's buffer has room for.
    pub open spec fn count(self) -> usize {
        smaller(self.room, self.ready().len() as usize)
    }

    /// The data that a read that has ended well hands out.
    pub open spec fn handed_out(self) -> Seq<u8> {
        self.ready().take(self.count() as int)
    }

    /// The data that a read that has ended well keeps for the next one.
    pub open spec fn kept_back(self) -> Seq<u8> {
        self.ready().skip(self.count() as int)
    }

    /// What is left of the current chunk after a read that has ended well;
    /// `None` between chunks.
    pub open spec fn left(self) -> Option<usize> {
        match self.data {
            Some(data) => if data.len() < self.available() {
                Some((self.available() - data.len()) as usize)
            } else {
                None
            },
            None => None,
        }
    }

    /// What the read asks for after `bytes` that should end a line.
    pub open spec fn line_end_request(self, bytes: Seq<u8>) -> ReadRequest {
        match end_of_line(bytes) {
            LineEnd::Partial => ReadRequest::Byte,
            LineEnd::Invalid => ReadRequest::Done(Err(DecoderError)),
            LineEnd::Complete => ReadRequest::Done(Ok(self.count())),
        }
    }

    /// What the read asks for next. Data that was ready is handed out first.
    /// Otherwise, between chunks, the read starts with a size line. A chunk of
    /// size zero has no data; the line end after it ends the read. Any other
    /// has data, which is read once, and where that is the last of the chunk,
    /// the line end after it.
    pub open spec fn request(self) -> ReadRequest {
        if self.failed {
            ReadRequest::Done(Err(DecoderError))
        } else if self.kept.len() > 0 {
            ReadRequest::Done(Ok(self.count()))
        } else {
            match self.data {
                Some(data) => if data.len() < self.available() {
                    ReadRequest::Done(Ok(self.count()))
                } else {
                    self.line_end_request(self.tail)
                },
                None => match self.remaining {
                    Some(size) => ReadRequest::Data(smaller(self.room, size)),
                    None => match size_line(self.head) {
                        SizeLine::Partial => ReadRequest::Byte,
                        SizeLine::Invalid => ReadRequest::Done(Err(DecoderError)),
                        SizeLine::Complete { size, length } => if size == 0 {
                            self.line_end_request(self.head.skip(length as int))
                        } else {
                            ReadRequest::Data(smaller(self.room, size))
                        },
                    },
                },
            }
        }
    }

    /// The source gives no more than it is asked for.
    pub open spec fn plausible(self, reply: Option<Seq<u8>>) -> bool {
        self.request() matches ReadRequest::Data(limit) ==> (reply matches Some(bytes)
            ==> bytes.len() <= limit)
    }

    /// The trace after another reply of the source.
    pub open spec fn reply(self, reply: Option<Seq<u8>>) -> ReadTrace {
        match self.request() {
            ReadRequest::Done(_) => self,
            ReadRequest::Data(_) => match reply {
                Some(bytes) => ReadTrace { data: Some(bytes), ..self },
                None => ReadTrace { failed: true, ..self },
            },
            ReadRequest::Byte => match byte_of(reply) {
                Some(byte) => if self.data is None {
                    ReadTrace { head: self.head.push(byte), ..self }
                } else {
                    ReadTrace { tail: self.tail.push(byte), ..self }
                },
                None => ReadTrace { failed: true, ..self },
            },
        }
    }

    /// The bytes were read one after the other, none of them after the read had
    /// ended.
    pub open spec fn valid(self) -> bool {
        &&& self.remaining != Some(0usize)
        &&& self.remaining is Some ==> self.head.len() == 0
        &&& self.kept.len() > 0 ==> {
            &&& self.remaining is None
            &&& self.head.len() == 0
            &&& self.data is None
            &&& !self.failed
            &&& self.kept.len() <= usize::MAX
        }
        &&& match self.data {
            None => {
                &&& self.tail.len() == 0
                &&& size_line(self.head) is Invalid ==> self.head.len() == line_length(self.head)
                    + 2
                &&& size_line(self.head) matches SizeLine::Complete { size, length } ==> {
                    &&& self.head.len() <= if size == 0 {
                        length + 2
                    } else {
                        length
                    }
                    &&& self.head.len() == length + 2 ==> self.head[length as int] == CR
                }
            },
            Some(data) => {
                &&& 0 < self.available()
                &&& data.len() <= self.available()
                &&& self.remaining is None ==> (size_line(self.head) matches SizeLine::Complete {
                    length,
                    ..
                } && length == self.head.len())
                &&& data.len() < self.available() ==> self.tail.len() == 0 && data.len()
                    <= self.room
                &&& self.tail.len() <= 2
                &&& self.tail.len() == 2 ==> self.tail[0] == CR
            },
        }
    }
}

/// The state of a decoder.
pub struct DecoderState {
    /// How much data is left in the source of the chunk being read; `None`
    /// between chunks.
    pub remaining: Option<usize>,
    /// Data of a chunk that was read to its end, and has not been handed out.
    pub kept: Seq<u8>,
    /// The read that is under way, or has ended.
    pub read: Option<ReadTrace>,
}

impl DecoderState {
    /// A chunk of which nothing is left is no longer being read. A read that is
    /// under way began where the decoder stands.
    pub open spec fn valid(self) -> bool {
        &&& self.remaining != Some(0usize)
        &&& self.kept.len() > 0 ==> self.remaining is None
        &&& self.kept.len() <= usize::MAX
        &&& self.read matches Some(t) ==> {
            &&& t.valid()
            &&& t.request() !is Done ==> t.remaining == self.remaining && t.kept == self.kept
        }
    }

    /// How much data is left in the chunk being read, kept or in the source;
    /// `None` between chunks.
    pub open spec fn left_in_chunk(self) -> Option<usize> {
        if self.kept.len() > 0 {
            Some(self.kept.len() as usize)
        } else {
            self.remaining
        }
    }

    /// A read is under way.
    pub open spec fn reading(self) -> bool {
        self.read matches Some(t) && t.request() !is Done
    }

    /// The decoder where its read has come to `t`. Only the end of a read that
    /// ends well moves the decoder on.
    pub open spec fn at(self, t: ReadTrace) -> DecoderState {
        if t.request() matches ReadRequest::Done(result) && result is Ok {
            DecoderState { remaining: t.left(), kept: t.kept_back(), read: Some(t) }
        } else {
            DecoderState { read: Some(t), ..self }
        }
    }

    /// Begins a read into a buffer of size `room`, or goes on with the one that
    /// is under way.
    pub open spec fn begin(self, room: usize) -> DecoderState {
        self.at(
            match self.read {
                Some(t) => if t.request() is Done {
                    ReadTrace::start(self.remaining, self.kept, room)
                } else {
                    ReadTrace { room, ..t }
                },
                None => ReadTrace::start(self.remaining, self.kept, room),
            },
        )
    }

    /// Goes on with a read after a reply of the source.
    pub open spec fn resume(self, reply: Option<Seq<u8>>) -> DecoderState {
        if self.reading() {
            self.at(self.read->0.reply(reply))
        } else {
            self
        }
    }
}

/// A reply leads from one valid trace to another.
pub proof fn lemma_reply(t: ReadTrace, reply: Option<Seq<u8>>)
    requires
        t.valid(),
        t.plausible(reply),
    ensures
        t.reply(reply).valid(),
{
    if let Some(byte) = byte_of(reply) {
        if size_line(t.head) is Partial {
            lemma_size_line_ends(t.head, byte);
        } else {
            lemma_size_line_push(t.head, byte);
        }
    }
}

/// Where a read stands.
#[derive(Debug, Clone, Copy)]
enum ReadStage {
    // no read has begun
    Idle,
    // in the size line
    Size,
    // after the size line of the chunk that ends the message
    LastCarriageReturn,
    LastLineFeed,
    // before the data, of which the chunk has this much
    Data(usize),
    // after the last data of the chunk
    CarriageReturn,
    LineFeed,
    Done(Result<usize, DecoderError>),
}

/// Reads chunks and hands back the data in them.
pub struct Decoder<R> {
    // where the chunks come from
    source: R,
    // remaining size of the chunk being read,
    // none if no chunk is being read
    remaining_chunks_size: Option<usize>,
    // where the read that is under way stands
    stage: ReadStage,
    // the size of the reader's buffer
    room: usize,
    // the size line that is being read
    line: SizeLineReader,
    // the data that was read last; what stands from `start` to `end` has been
    // handed out, what follows is kept
    data: Vec<u8>,
    start: usize,
    end: usize,
    read: Ghost<Option<ReadTrace>>,
}

impl<R> View for Decoder<R> {
    type V = DecoderState;

    closed spec fn view(&self) -> DecoderState {
        DecoderState {
            remaining: self.remaining_chunks_size,
            kept: self.data@.skip(self.end as int),
            read: self.read@,
        }
    }
}

impl<R> Decoder<R> {
    /// Where the chunks come from.
    pub closed spec fn source(&self) -> R {
        self.source
    }

    /// The decoder knows where its read stands.
    pub closed spec fn inv(&self) -> bool {
        &&& self.start <= self.end <= self.data@.len()
        &&& match self.read@ {
            None => self.stage is Idle,
            Some(t) => {
                &&& self.room == t.room
                &&& match self.stage {
                    ReadStage::Idle => false,
                    ReadStage::Done(result) => {
                        &&& t.request() == ReadRequest::Done(result)
                        &&& result is Ok ==> self.data@.subrange(
                            self.start as int,
                            self.end as int,
                        ) == t.handed_out()
                    },
                    stage => {
                        &&& !t.failed
                        &&& t.kept.len() == 0
                        &&& self.end == self.data@.len()
                        &&& match stage {
                            ReadStage::Size => {
                                &&& t.data is None
                                &&& t.remaining is None
                                &&& self.line.wf()
                                &&& self.line@ == t.head
                                &&& size_line(t.head) is Partial
                            },
                            ReadStage::LastCarriageReturn => {
                                &&& t.data is None
                                &&& t.remaining is None
                                &&& size_line(t.head) matches SizeLine::Complete { size, length }
                                &&& size == 0
                                &&& length == t.head.len()
                            },
                            ReadStage::LastLineFeed => {
                                &&& t.data is None
                                &&& t.remaining is None
                                &&& size_line(t.head) matches SizeLine::Complete { size, length }
                                &&& size == 0
                                &&& length + 1 == t.head.len()
                                &&& t.head.last() == CR
                            },
                            ReadStage::Data(size) => {
                                &&& t.data is None
                                &&& size == t.available()
                                &&& size > 0
                            },
                            ReadStage::CarriageReturn => {
                                &&& t.data == Some(self.data@)
                                &&& self.data@.len() == t.available()
                                &&& t.tail == Seq::<u8>::empty()
                            },
                            _ => {
                                &&& t.data == Some(self.data@)
                                &&& self.data@.len() == t.available()
                                &&& t.tail == seq![CR]
                            },
                        }
                    },
                }
            },
        }
    }

    /// The state is valid, and the decoder knows where its read stands.
    pub open spec fn wf(&self) -> bool {
        self.inv() && self@.valid()
    }

    /// A decoder for the message that `source` starts with.
    pub fn new(source: R) -> (r: Decoder<R>)
        ensures
            r.wf(),
            r.source() == source,
            r@ == (DecoderState {
                remaining: None::<usize>,
                kept: Seq::<u8>::empty(),
                read: None::<ReadTrace>,
            }),
    {
        let r = Decoder {
            source,
            remaining_chunks_size: None,
            stage: ReadStage::Idle,
            room: 0,
            line: SizeLineReader::new(),
            data: Vec::new(),
            start: 0,
            end: 0,
            read: Ghost(None),
        };
        assert(r@.kept =~= Seq::<u8>::empty());
        r
    }

    /// Returns the remaining bytes left in the chunk being read.
    pub fn remaining_chunks_size(&self) -> (r: Option<usize>)
        requires
            self.wf(),
        ensures
            r == self@.left_in_chunk(),
            self@.kept.len() > 0 ==> r == Some(self@.kept.len() as usize),
            self@.kept.len() == 0 ==> r == self@.remaining,
    {
        if self.end < self.data.len() {
            Some(self.data.len() - self.end)
        } else {
            self.remaining_chunks_size
        }
    }

    /// Unwraps the decoder into its source.
    pub fn into_inner(self) -> (r: R)
        ensures
            r == self.source(),
    {
        self.source
    }

    /// The source, for the bytes that a read asks for.
    pub fn source_mut(&mut self) -> (r: &mut R)
        ensures
            *r == old(self).source(),
            final(self).source() == *final(r),
            final(self)@ == old(self)@,
            final(self).inv() == old(self).inv(),
    {
        &mut self.source
    }

    /// Begins a read into a buffer of size `room`, or goes on with the one that
    /// was given up.
    pub fn poll_read(&mut self, room: usize)
        requires
            old(self).wf(),
        ensures
            final(self).wf(),
            final(self).source() == old(self).source(),
            final(self)@ == old(self)@.begin(room),
            final(self)@.read is Some,
    {
        self.room = room;
        match self.stage {
            ReadStage::Idle | ReadStage::Done(_) => {
                let ghost kept = self@.kept;
                let ghost t = ReadTrace::start(self.remaining_chunks_size, kept, room);
                let left: usize = self.data.len() - self.end;
                self.read = Ghost(Some(t));
                if left > 0 {
                    let count: usize = if room < left {
                        room
                    } else {
                        left
                    };
                    self.start = self.end;
                    self.end = self.end + count;
                    self.stage = ReadStage::Done(Ok(count));
                    assert(self.data@.subrange(self.start as int, self.end as int)
                        =~= t.handed_out());
                    assert(self.data@.skip(self.end as int) =~= t.kept_back());
                } else {
                    self.line = SizeLineReader::new();
                    self.stage = match self.remaining_chunks_size {
                        Some(size) => ReadStage::Data(size),
                        None => ReadStage::Size,
                    };
                }
            },
            _ => {
                let ghost t = self.read@->0;
                self.read = Ghost(Some(ReadTrace { room, ..t }));
            },
        }
    }

    /// What the read asks for next.
    pub fn request(&self) -> (r: ReadRequest)
        requires
            self.wf(),
            self@.read is Some,
        ensures
            r == self@.read->0.request(),
    {
        match self.stage {
            ReadStage::Done(result) => ReadRequest::Done(result),
            ReadStage::Data(size) => if self.room < size {
                ReadRequest::Data(self.room)
            } else {
                ReadRequest::Data(size)
            },
            _ => ReadRequest::Byte,
        }
    }

    /// The data that the read, which has ended well, hands out.
    pub fn data(&self) -> (r: &[u8])
        requires
            self.wf(),
            self@.read is Some,
            self@.read->0.request() matches ReadRequest::Done(result) && result is Ok,
        ensures
            r@ == self@.read->0.handed_out(),
    {
        vstd::slice::slice_subrange(self.data.as_slice(), self.start, self.end)
    }

    /// Ends the read with the data of a chunk that was read to its end.
    fn hand_out(&mut self)
        ensures
            final(self).source == old(self).source,
            final(self).remaining_chunks_size == None::<usize>,
            final(self).room == old(self).room,
            final(self).data == old(self).data,
            final(self).read == old(self).read,
            final(self).start == 0,
            final(self).end == smaller(old(self).room, old(self).data@.len() as usize),
            final(self).stage == ReadStage::Done(Ok(final(self).end)),
    {
        self.remaining_chunks_size = None;
        self.start = 0;
        self.end = if self.room < self.data.len() {
            self.room
        } else {
            self.data.len()
        };
        self.stage = ReadStage::Done(Ok(self.end));
    }

    /// Goes on with the read after a reply of the source to what the read asked
    /// for.
    pub fn resume(&mut self, reply: &SourceReply<'_>)
        requires
            old(self).wf(),
            old(self)@.read is Some,
            old(self)@.read->0.plausible(reply@),
        ensures
            final(self).wf(),
            final(self).source() == old(self).source(),
            final(self)@ == old(self)@.resume(reply@),
            final(self)@.read is Some,
    {
        let ghost before = self.read@->0;
        let ghost after = before.reply(reply@);
        proof {
            lemma_reply(before, reply@);
            if let Some(byte) = byte_of(reply@) {
                if size_line(before.head) is Partial {
                    lemma_size_line_ends(before.head, byte);
                } else {
                    lemma_size_line_push(before.head, byte);
                }
                if let SizeLine::Complete { length, .. } = size_line(before.head.push(byte)) {
                    let rest = before.head.push(byte).skip(length as int);
                    assert(rest.len() == 1 ==> rest =~= seq![byte]);
                    assert(rest.len() == 2 ==> rest[0] == before.head.last() && rest[1] == byte);
                }
                assert(Seq::<u8>::empty().push(byte) =~= seq![byte]);
            }
        }
        match self.stage {
            ReadStage::Idle | ReadStage::Done(_) => {},
            ReadStage::Size => {
                self.stage = match self.line.read_chunk_size(reply) {
                    None => ReadStage::Size,
                    Some(Err(e)) => ReadStage::Done(Err(e)),
                    Some(Ok(size)) => if size == 0 {
                        ReadStage::LastCarriageReturn
                    } else {
                        ReadStage::Data(size)
                    },
                };
            },
            ReadStage::LastCarriageReturn => {
                self.stage = match read_carriage_return(reply) {
                    Ok(()) => ReadStage::LastLineFeed,
                    Err(e) => ReadStage::Done(Err(e)),
                };
            },
            ReadStage::LastLineFeed => match read_line_feed(reply) {
                Ok(()) => {
                    self.data.clear();
                    self.hand_out();
                },
                Err(e) => {
                    self.stage = ReadStage::Done(Err(e));
                },
            },
            ReadStage::Data(size) => match reply {
                SourceReply::Failed => {
                    self.stage = ReadStage::Done(Err(DecoderError));
                },
                SourceReply::Filled(bytes) => {
                    let count = bytes.len();
                    self.data = vstd::slice::slice_to_vec(bytes);
                    self.start = 0;
                    self.end = count;
                    if count < size {
                        self.remaining_chunks_size = Some(size - count);
                        self.stage = ReadStage::Done(Ok(count));
                    } else {
                        self.stage = ReadStage::CarriageReturn;
                    }
                },
            },
            ReadStage::CarriageReturn => {
                self.stage = match read_carriage_return(reply) {
                    Ok(()) => ReadStage::LineFeed,
                    Err(e) => ReadStage::Done(Err(e)),
                };
            },
            ReadStage::LineFeed => match read_line_feed(reply) {
                Ok(()) => {
                    self.hand_out();
                },
                Err(e) => {
                    self.stage = ReadStage::Done(Err(e));
                },
            },
        }
        self.read = Ghost(Some(after));
        proof {
            assert(before.tail.len() == 0 ==> before.tail =~= Seq::<u8>::empty());
            assert(before.kept.len() == 0 ==> before.kept =~= Seq::<u8>::empty());
            assert(self.end == self.data@.len() ==> self@.kept =~= Seq::<u8>::empty());
            if before.request() !is Done {
                if let ReadRequest::Done(Ok(_)) = after.request() {
                    assert(self.data@ =~= after.ready());
                    assert(self.data@.subrange(0, self.end as int) =~= after.handed_out());
                    assert(self@.kept =~= after.kept_back());
                }
            }
        }
    }
}

} // verus!
