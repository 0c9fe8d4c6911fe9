//! The encoder: gathers data and writes it to an output in chunks.
//!
//! The encoder does not write by itself. A call of it is a conversation: it
//! asks for bytes to be written, is told how many the output took, and asks
//! again or ends. Where the output is not ready the call is given up; when it
//! is called again it goes on where it stopped.
use vstd::prelude::*;

use crate::format::{chunk, last_chunk, line_end, CR, LF};
use crate::number::{hex, lemma_hex_length, write_hex};

verus! {

/// No chunk holds more data than this.
pub const MAX_CHUNK_SIZE: usize = 0xffff_ffff;

/// How much of the buffer is kept free for the chunk size, eight digits at
/// most, and the line end after it.
pub const MAX_HEADER_SIZE: usize = 10;

/// The size of the chunks unless another one is asked for.
pub const DEFAULT_CHUNK_SIZE: usize = 8192;

/// What an encoder holds back.
pub enum Held {
    /// Data for the next chunk.
    Gathering(Seq<u8>),
    /// What the output has not taken yet of a chunk. `size` counts what the
    /// buffer holds behind the space for the header, taken or not.
    Sending { unsent: Seq<u8>, size: nat },
    /// What the output has not taken yet of the chunk that ends the message.
    /// If that is nothing, the output is still to be shut down.
    Ending { unsent: Seq<u8> },
}

impl Held {
    /// Nothing.
    pub open spec fn nothing() -> Held {
        Held::Gathering(Seq::empty())
    }

    /// How much the buffer holds of data.
    pub open spec fn len(self) -> nat {
        match self {
            Held::Gathering(data) => data.len(),
            Held::Sending { size, .. } => size,
            Held::Ending { .. } => 0,
        }
    }

    /// The bytes that are being sent.
    pub open spec fn unsent(self) -> Seq<u8> {
        match self {
            Held::Gathering(_) => Seq::empty(),
            Held::Sending { unsent, .. } => unsent,
            Held::Ending { unsent } => unsent,
        }
    }

    /// With the data that was gathered, if any, made into a chunk.
    pub open spec fn framed(self) -> Held {
        match self {
            Held::Gathering(data) => if data.len() == 0 {
                self
            } else {
                Held::Sending { unsent: chunk(data), size: data.len() + 2 }
            },
            _ => self,
        }
    }

    /// After the output took `count` bytes.
    pub open spec fn sent(self, count: nat) -> Held {
        match self {
            Held::Gathering(_) => self,
            Held::Sending { unsent, size } => if count >= unsent.len() {
                Held::nothing()
            } else {
                Held::Sending { unsent: unsent.skip(count as int), size }
            },
            Held::Ending { unsent } => if count >= unsent.len() {
                Held::Ending { unsent: Seq::empty() }
            } else {
                Held::Ending { unsent: unsent.skip(count as int) }
            },
        }
    }
}

/// What a call of the encoder asks for next.
#[derive(Debug, Clone, Copy, PartialEq, Eq)]
pub enum WriteRequest {
    /// Write what is being sent.
    Write,
    /// Shut the output down.
    Shutdown,
    /// Nothing more: the call has ended. A write has taken this many bytes of
    /// data; the other calls take none.
    Done(usize),
}

/// What a call of the encoder is to do.
pub enum Task {
    /// Take this data.
    Write(Seq<u8>),
    /// Send what has been gathered.
    Flush,
    /// Send what has been gathered and end the message.
    Finish,
    /// End the message and shut the output down.
    Shutdown,
}

/// A call of the encoder.
pub struct CallState {
    pub task: Task,
    pub request: WriteRequest,
}

/// The state of an encoder.
pub struct EncoderState {
    pub chunks_size: nat,
    pub flush_after_write: bool,
    pub held: Held,
    /// The data that has been taken of a write that has not ended.
    pub taken: Seq<u8>,
}

impl EncoderState {
    /// No more than one chunk is gathered. What is being sent is not empty. Of
    /// the chunk that ends the message the last bytes are held back. A write
    /// has not ended only while a chunk is being sent.
    pub open spec fn valid(self) -> bool {
        &&& self.chunks_size <= MAX_CHUNK_SIZE
        &&& self.taken.len() > 0 ==> self.held is Sending
        &&& match self.held {
            Held::Gathering(data) => data.len() <= self.chunks_size,
            Held::Sending { unsent, size } => 0 < unsent.len() && 0 < size,
            Held::Ending { unsent } => {
                &&& unsent.len() <= 5
                &&& unsent == last_chunk().skip(5 - unsent.len())
            },
        }
    }

    /// The encoder can take `count` bytes of data: it cannot take any where a
    /// chunk holds none.
    pub open spec fn writable(self, count: nat) -> bool {
        self.chunks_size > 0 || count == 0
    }

    /// Takes from `data`, which starts with what has been taken already, what the
    /// buffer has space for. A chunk is sent if there is more to take, or if each
    /// write is to be flushed.
    pub open spec fn take(self, data: Seq<u8>) -> (EncoderState, CallState) {
        let gathered = match self.held {
            Held::Gathering(gathered) => gathered,
            _ => Seq::empty(),
        };
        let rest = data.skip(self.taken.len() as int);
        let space = (self.chunks_size - gathered.len()) as nat;
        let count = if rest.len() < space {
            rest.len()
        } else {
            space
        };
        let part = rest.take(count as int);
        let held = Held::Gathering(gathered + part);
        if (self.flush_after_write || count < rest.len()) && held.framed() is Sending {
            (
                EncoderState { held: held.framed(), taken: self.taken + part, ..self },
                CallState { task: Task::Write(data), request: WriteRequest::Write },
            )
        } else {
            (
                EncoderState { held, taken: Seq::empty(), ..self },
                CallState {
                    task: Task::Write(data),
                    request: WriteRequest::Done((self.taken + part).len() as usize),
                },
            )
        }
    }

    /// Goes on with a call when nothing is being sent.
    pub open spec fn all_sent(self, task: Task) -> (EncoderState, CallState) {
        match task {
            Task::Write(data) => if self.taken.len() < data.len() {
                self.take(data)
            } else {
                (
                    EncoderState { taken: Seq::empty(), ..self },
                    CallState { task, request: WriteRequest::Done(data.len() as usize) },
                )
            },
            Task::Flush => (self, CallState { task, request: WriteRequest::Done(0) }),
            Task::Finish | Task::Shutdown => (
                EncoderState { held: Held::Ending { unsent: last_chunk() }, ..self },
                CallState { task, request: WriteRequest::Write },
            ),
        }
    }

    /// Goes on with a call when the chunk that ends the message has been sent.
    pub open spec fn ended(self, task: Task) -> (EncoderState, CallState) {
        match task {
            Task::Shutdown => (
                EncoderState { held: Held::Ending { unsent: Seq::empty() }, ..self },
                CallState { task, request: WriteRequest::Shutdown },
            ),
            Task::Finish => (
                EncoderState { held: Held::nothing(), ..self },
                CallState { task, request: WriteRequest::Done(0) },
            ),
            _ => EncoderState { held: Held::nothing(), ..self }.all_sent(task),
        }
    }

    /// Begins a call, or goes on with it where it was given up.
    ///
    /// A write that was given up goes on behind the data that it had taken, where
    /// the data starts with that. Any other call, and a write of other data, ends
    /// it there. What is being sent is sent before a write takes data. But where a
    /// finish or a shutdown was given up before the output took any of the chunk
    /// that ends the message, or after it took all of it, a write does not send
    /// that chunk. A flush does not either.
    pub open spec fn begin(self, task: Task) -> (EncoderState, CallState) {
        let writing = CallState { task, request: WriteRequest::Write };
        match task {
            Task::Write(data) => {
                let taken = if self.taken.is_prefix_of(data) {
                    self.taken
                } else {
                    Seq::empty()
                };
                let next = EncoderState { taken, ..self };
                match self.held {
                    Held::Gathering(_) => next.take(data),
                    Held::Sending { .. } => (next, writing),
                    Held::Ending { unsent } => if 0 < unsent.len() < 5 {
                        (next, writing)
                    } else {
                        EncoderState { held: Held::nothing(), ..next }.take(data)
                    },
                }
            },
            _ => {
                let next = EncoderState {
                    held: self.held.framed(),
                    taken: Seq::empty(),
                    ..self
                };
                match next.held {
                    Held::Gathering(_) => next.all_sent(task),
                    Held::Sending { .. } => (next, writing),
                    Held::Ending { unsent } => if task is Flush {
                        (next, CallState { task, request: WriteRequest::Done(0) })
                    } else if unsent.len() > 0 {
                        (next, writing)
                    } else {
                        next.ended(task)
                    },
                }
            },
        }
    }

    /// Goes on with a call after the output took `count` bytes, or was shut
    /// down.
    pub open spec fn resume(self, call: CallState, count: nat) -> (EncoderState, CallState) {
        match call.request {
            WriteRequest::Write => {
                let next = EncoderState { held: self.held.sent(count), ..self };
                match next.held {
                    Held::Gathering(_) => next.all_sent(call.task),
                    Held::Sending { .. } => (next, call),
                    Held::Ending { unsent } => if unsent.len() > 0 {
                        (next, call)
                    } else {
                        next.ended(call.task)
                    },
                }
            },
            WriteRequest::Shutdown => (
                EncoderState { held: Held::nothing(), ..self },
                CallState { request: WriteRequest::Done(0), ..call },
            ),
            WriteRequest::Done(_) => (self, call),
        }
    }

    /// The encoder is in the middle of `call`, or `call` has ended.
    pub open spec fn resumable(self, call: CallState) -> bool {
        match call.request {
            WriteRequest::Write => {
                &&& self.held.unsent().len() > 0
                &&& match call.task {
                    Task::Write(data) => {
                        &&& self.taken.is_prefix_of(data)
                        &&& self.writable((data.len() - self.taken.len()) as nat)
                        &&& self.held is Ending ==> self.held.unsent().len() < 5
                    },
                    Task::Flush => self.taken.len() == 0 && self.held is Sending,
                    Task::Finish | Task::Shutdown => self.taken.len() == 0,
                }
            },
            WriteRequest::Shutdown => {
                &&& call.task is Shutdown
                &&& self.taken.len() == 0
                &&& self.held == Held::Ending { unsent: Seq::empty() }
            },
            WriteRequest::Done(count) => count == match call.task {
                Task::Write(data) => data.len(),
                _ => 0,
            },
        }
    }
}

/// What a call of the encoder is to do, with the data of a write.
#[derive(Debug, Clone, Copy)]
enum Operation<'a> {
    Write(&'a [u8]),
    Flush,
    Finish,
    Shutdown,
}

impl<'a> Operation<'a> {
    spec fn task(self) -> Task {
        match self {
            Operation::Write(data) => Task::Write(data@),
            Operation::Flush => Task::Flush,
            Operation::Finish => Task::Finish,
            Operation::Shutdown => Task::Shutdown,
        }
    }
}

/// A call of the encoder that is under way. Where the output is not ready, or
/// fails, the call is to be given up; the encoder keeps the state that it is
/// in.
pub struct WriteCall<'a> {
    operation: Operation<'a>,
    request: WriteRequest,
}

impl<'a> View for WriteCall<'a> {
    type V = CallState;

    closed spec fn view(&self) -> CallState {
        CallState { task: self.operation.task(), request: self.request }
    }
}

impl<'a> WriteCall<'a> {
    /// What the call asks for next.
    pub fn request(&self) -> (r: WriteRequest)
        ensures
            r == self@.request,
    {
        self.request
    }
}

/// Splits the incoming data into chunks.
///
/// The message is complete only when [`Encoder::finish`] has been called and
/// has ended.
pub struct Encoder<W> {
    // where to send the result
    output: W,
    // size of each chunk
    chunks_size: usize,
    // data waiting to be sent is stored here, behind the free space for the
    // header
    buffer: Vec<u8>,
    // sends the data after each write
    flush_after_write: bool,
    // where in the buffer the bytes start that are still to be written,
    // if a chunk is being written
    offset: Option<usize>,
    // the chunk that ends the message is being written or has been written
    ending: bool,
    // the data that has been taken of a write that has not ended
    taken: Vec<u8>,
}

impl<W> View for Encoder<W> {
    type V = EncoderState;

    closed spec fn view(&self) -> EncoderState {
        EncoderState {
            chunks_size: self.chunks_size as nat,
            flush_after_write: self.flush_after_write,
            held: match self.offset {
                None => if self.ending {
                    Held::Ending { unsent: Seq::empty() }
                } else {
                    Held::Gathering(self.buffer@.skip(MAX_HEADER_SIZE as int))
                },
                Some(offset) => if self.ending {
                    Held::Ending { unsent: self.buffer@.skip(offset as int) }
                } else {
                    Held::Sending {
                        unsent: self.buffer@.skip(offset as int),
                        size: (self.buffer@.len() - MAX_HEADER_SIZE) as nat,
                    }
                },
            },
            taken: self.taken@,
        }
    }
}

impl<W> Encoder<W> {
    /// Where the chunks go.
    pub closed spec fn output(&self) -> W {
        self.output
    }

    /// The buffer starts with the space for the header, and something is left
    /// of what is being sent.
    pub closed spec fn inv(&self) -> bool {
        &&& self.buffer@.len() >= MAX_HEADER_SIZE
        &&& self.offset matches Some(offset) ==> offset < self.buffer@.len()
    }

    /// The state is valid, and the buffer is as that state asks for.
    pub open spec fn wf(&self) -> bool {
        self.inv() && self@.valid()
    }

    /// An encoder with chunks of a fair size.
    pub fn new(output: W) -> (r: Encoder<W>)
        ensures
            r.wf(),
            r.output() == output,
            r@ == (EncoderState {
                chunks_size: DEFAULT_CHUNK_SIZE as nat,
                flush_after_write: false,
                held: Held::nothing(),
                taken: Seq::<u8>::empty(),
            }),
            r@.chunks_size == 8192,
    {
        Encoder::with_chunks_size(output, DEFAULT_CHUNK_SIZE)
    }

    /// An encoder with chunks of at most `chunks` bytes of data.
    pub fn with_chunks_size(output: W, chunks: usize) -> (r: Encoder<W>)
        ensures
            r.wf(),
            r.output() == output,
            r@ == (EncoderState {
                chunks_size: if chunks < MAX_CHUNK_SIZE {
                    chunks as nat
                } else {
                    MAX_CHUNK_SIZE as nat
                },
                flush_after_write: false,
                held: Held::nothing(),
                taken: Seq::<u8>::empty(),
            }),
            chunks < 4294967295 ==> r@.chunks_size == chunks,
            chunks >= 4294967295 ==> r@.chunks_size == 4294967295,
    {
        let chunks_size: usize = if chunks < MAX_CHUNK_SIZE {
            chunks
        } else {
            MAX_CHUNK_SIZE
        };
        let mut encoder = Encoder {
            output,
            chunks_size,
            buffer: vec![0; MAX_HEADER_SIZE],
            flush_after_write: false,
            offset: None,
            ending: false,
            taken: Vec::new(),
        };
        encoder.reset_buffer();
        encoder
    }

    /// An encoder that sends the data of each write at once.
    pub fn with_flush_after_write(output: W) -> (r: Encoder<W>)
        ensures
            r.wf(),
            r.output() == output,
            r@ == (EncoderState {
                chunks_size: DEFAULT_CHUNK_SIZE as nat,
                flush_after_write: true,
                held: Held::nothing(),
                taken: Seq::<u8>::empty(),
            }),
            r@.chunks_size == 8192,
    {
        let mut encoder = Encoder {
            output,
            chunks_size: DEFAULT_CHUNK_SIZE,
            buffer: vec![0; MAX_HEADER_SIZE],
            flush_after_write: true,
            offset: None,
            ending: false,
            taken: Vec::new(),
        };
        encoder.reset_buffer();
        encoder
    }

    /// Empties the buffer.
    fn reset_buffer(&mut self)
        requires
            old(self).buffer@.len() >= MAX_HEADER_SIZE,
        ensures
            final(self).inv(),
            final(self).output() == old(self).output(),
            final(self)@ == (EncoderState { held: Held::nothing(), ..old(self)@ }),
    {
        // The space for the header stays; it is filled in when the size of the
        // chunk is known.
        self.buffer.truncate(MAX_HEADER_SIZE);
        self.offset = None;
        self.ending = false;
        assert(self.buffer@.skip(MAX_HEADER_SIZE as int) =~= Seq::empty());
    }

    /// No data is held back.
    pub fn is_buffer_empty(&self) -> (r: bool)
        requires
            self.wf(),
        ensures
            r == (self@.held.len() == 0),
            r == match self@.held {
                Held::Gathering(data) => data.len() == 0,
                Held::Sending { .. } => false,
                Held::Ending { .. } => true,
            },
    {
        self.ending || self.buffer.len() == MAX_HEADER_SIZE
    }

    /// How much the buffer holds of data.
    pub fn buffer_len(&self) -> (r: usize)
        requires
            self.wf(),
        ensures
            r == self@.held.len(),
            self@.held matches Held::Gathering(data) ==> r == data.len(),
            self@.held is Sending ==> r > 0,
            self@.held is Ending ==> r == 0,
    {
        if self.ending {
            0
        } else {
            self.buffer.len() - MAX_HEADER_SIZE
        }
    }

    /// Makes the gathered data, if any, into a chunk.
    fn frame(&mut self)
        requires
            old(self).inv(),
            old(self)@.held matches Held::Gathering(data) ==> data.len() <= MAX_CHUNK_SIZE,
        ensures
            final(self).inv(),
            final(self).output() == old(self).output(),
            final(self)@ == (EncoderState { held: old(self)@.held.framed(), ..old(self)@ }),
    {
        // An empty chunk would end the message.
        if self.offset.is_some() || self.ending || self.buffer.len() == MAX_HEADER_SIZE {
            return ;
        }
        let ghost data = self.buffer@.skip(MAX_HEADER_SIZE as int);
        let mut prelude = write_hex(self.buffer.len() - MAX_HEADER_SIZE);
        proof {
            lemma_hex_length(data.len());
        }
        prelude.push(CR);
        prelude.push(LF);
        assert(prelude@ =~= hex(data.len()) + line_end());

        // A short prelude does not take up all of the space for it.
        let offset: usize = MAX_HEADER_SIZE - prelude.len();
        let mut i: usize = 0;
        while i < prelude.len()
            invariant
                i <= prelude.len(),
                prelude.len() <= MAX_HEADER_SIZE,
                offset == MAX_HEADER_SIZE - prelude.len(),
                self.buffer@.len() == MAX_HEADER_SIZE + data.len(),
                self.buffer@.skip(MAX_HEADER_SIZE as int) == data,
                self.buffer@.subrange(offset as int, offset + i) == prelude@.take(i as int),
                self.output == old(self).output,
                self.chunks_size == old(self).chunks_size,
                self.flush_after_write == old(self).flush_after_write,
                self.ending == old(self).ending,
                self.taken == old(self).taken,
            decreases prelude.len() - i,
        {
            let ghost before = self.buffer@;
            let byte = prelude[i];
            self.buffer.set(offset + i, byte);
            i = i + 1;
            proof {
                assert(self.buffer@.skip(MAX_HEADER_SIZE as int) =~= data);
                assert(self.buffer@.subrange(offset as int, offset + i) =~= before.subrange(
                    offset as int,
                    offset + i - 1,
                ).push(byte));
                assert(prelude@.take(i as int) =~= prelude@.take(i - 1).push(byte));
            }
        }
        self.buffer.push(CR);
        self.buffer.push(LF);
        self.offset = Some(offset);
        proof {
            assert(prelude@.take(i as int) =~= prelude@);
            assert(self.buffer@.skip(offset as int) =~= chunk(data));
        }
    }

    /// Puts the chunk that ends the message into the buffer.
    fn frame_last(&mut self)
        requires
            old(self).inv(),
        ensures
            final(self).inv(),
            final(self).output() == old(self).output(),
            final(self)@ == (EncoderState {
                held: Held::Ending { unsent: last_chunk() },
                ..old(self)@
            }),
    {
        self.buffer.truncate(MAX_HEADER_SIZE);
        self.buffer.push(48);
        self.buffer.push(CR);
        self.buffer.push(LF);
        self.buffer.push(CR);
        self.buffer.push(LF);
        self.offset = Some(MAX_HEADER_SIZE);
        self.ending = true;
        assert(self.buffer@.skip(MAX_HEADER_SIZE as int) =~= last_chunk());
    }

    /// Takes from `data`, which starts with what has been taken already, what the
    /// buffer has space for.
    fn take<'a>(&mut self, data: &'a [u8]) -> (r: WriteCall<'a>)
        requires
            old(self).inv(),
            old(self)@.held is Gathering,
            old(self)@.held.len() <= old(self)@.chunks_size <= MAX_CHUNK_SIZE,
            old(self)@.taken.is_prefix_of(data@),
            old(self)@.writable((data@.len() - old(self)@.taken.len()) as nat),
        ensures
            final(self).wf(),
            final(self).output() == old(self).output(),
            (final(self)@, r@) == old(self)@.take(data@),
            final(self)@.resumable(r@),
    {
        let taken: usize = self.taken.len();
        let space: usize = self.chunks_size - (self.buffer.len() - MAX_HEADER_SIZE);
        let rest: usize = data.len() - taken;
        let count: usize = if rest < space {
            rest
        } else {
            space
        };
        let part = vstd::slice::slice_subrange(data, taken, taken + count);
        let ghost before = self.buffer@;
        self.buffer.extend_from_slice(part);
        proof {
            assert(part@ =~= data@.skip(taken as int).take(count as int));
            assert(self.buffer@ =~= before + part@);
            assert(self.buffer@.skip(MAX_HEADER_SIZE as int) =~= before.skip(MAX_HEADER_SIZE as int)
                + part@);
        }
        if self.flush_after_write || count < rest {
            self.frame();
        }
        let request = if self.offset.is_some() {
            self.taken.extend_from_slice(part);
            assert(self.taken@ =~= old(self).taken@ + part@);
            WriteRequest::Write
        } else {
            self.taken.clear();
            WriteRequest::Done(taken + count)
        };
        WriteCall { operation: Operation::Write(data), request }
    }

    /// Goes on with a call when nothing is being sent.
    fn all_sent<'a>(&mut self, operation: Operation<'a>) -> (r: WriteCall<'a>)
        requires
            old(self).inv(),
            old(self)@.held == Held::nothing(),
            old(self)@.chunks_size <= MAX_CHUNK_SIZE,
            operation matches Operation::Write(data) ==> {
                &&& old(self)@.taken.is_prefix_of(data@)
                &&& old(self)@.writable((data@.len() - old(self)@.taken.len()) as nat)
            },
            operation !is Write ==> old(self)@.taken.len() == 0,
        ensures
            final(self).wf(),
            final(self).output() == old(self).output(),
            (final(self)@, r@) == old(self)@.all_sent(operation.task()),
            final(self)@.resumable(r@),
    {
        match operation {
            Operation::Write(data) => if self.taken.len() < data.len() {
                self.take(data)
            } else {
                self.taken.clear();
                WriteCall { operation, request: WriteRequest::Done(data.len()) }
            },
            Operation::Flush => WriteCall { operation, request: WriteRequest::Done(0) },
            Operation::Finish | Operation::Shutdown => {
                self.frame_last();
                assert(last_chunk().skip(0) =~= last_chunk());
                WriteCall { operation, request: WriteRequest::Write }
            },
        }
    }

    /// Goes on with a call when the chunk that ends the message has been sent.
    fn ended<'a>(&mut self, operation: Operation<'a>) -> (r: WriteCall<'a>)
        requires
            old(self).wf(),
            old(self)@.held == (Held::Ending { unsent: Seq::empty() }),
            operation !is Flush,
            operation matches Operation::Write(data) ==> old(self)@.writable(data@.len()),
        ensures
            final(self).wf(),
            final(self).output() == old(self).output(),
            (final(self)@, r@) == old(self)@.ended(operation.task()),
            final(self)@.resumable(r@),
    {
        match operation {
            Operation::Shutdown => WriteCall { operation, request: WriteRequest::Shutdown },
            Operation::Finish => {
                self.reset_buffer();
                WriteCall { operation, request: WriteRequest::Done(0) }
            },
            _ => {
                self.reset_buffer();
                self.all_sent(operation)
            },
        }
    }

    /// Begins a flush, a finish or a shutdown, or goes on with it.
    fn begin(&mut self, operation: Operation<'static>) -> (r: WriteCall<'static>)
        requires
            old(self).wf(),
            operation !is Write,
        ensures
            final(self).wf(),
            final(self).output() == old(self).output(),
            (final(self)@, r@) == old(self)@.begin(operation.task()),
            final(self)@.resumable(r@),
    {
        self.taken.clear();
        self.frame();
        if self.ending {
            match operation {
                Operation::Flush => WriteCall { operation, request: WriteRequest::Done(0) },
                _ => if self.offset.is_some() {
                    WriteCall { operation, request: WriteRequest::Write }
                } else {
                    self.ended(operation)
                },
            }
        } else if self.offset.is_some() {
            WriteCall { operation, request: WriteRequest::Write }
        } else {
            assert(self@.held->Gathering_0 =~= Seq::<u8>::empty());
            self.all_sent(operation)
        }
    }

    /// Tells whether `count` bytes of data can be taken: [`Encoder::poll_write`]
    /// asks for that.
    pub fn can_write(&self, count: usize) -> (r: bool)
        requires
            self.wf(),
        ensures
            r == self@.writable(count as nat),
            r == (self@.chunks_size > 0 || count == 0),
    {
        self.chunks_size > 0 || count == 0
    }

    /// Tells whether `data` starts with what has been taken of a write that has
    /// not ended.
    fn starts_with_taken(&self, data: &[u8]) -> (r: bool)
        ensures
            r == self@.taken.is_prefix_of(data@),
    {
        if self.taken.len() > data.len() {
            return false;
        }
        let mut i: usize = 0;
        while i < self.taken.len()
            invariant
                i <= self.taken@.len() <= data@.len(),
                self.taken@.take(i as int) == data@.take(i as int),
            decreases self.taken@.len() - i,
        {
            if self.taken[i] != data[i] {
                assert(data@.subrange(0, self.taken@.len() as int)[i as int] != self.taken@[i as int]);
                return false;
            }
            assert(self.taken@.take(i + 1) =~= self.taken@.take(i as int).push(
                self.taken@[i as int],
            ));
            assert(data@.take(i + 1) =~= data@.take(i as int).push(data@[i as int]));
            i = i + 1;
        }
        assert(self.taken@.take(i as int) =~= self.taken@);
        true
    }

    /// Begins to take `data`.
    ///
    /// A write that was given up is to be called again until it has ended, with
    /// the same data or with more behind it; it goes on behind the data that it
    /// had taken. Data that does not start with that is other data, and is taken
    /// from its start.
    pub fn poll_write<'a>(&mut self, data: &'a [u8]) -> (r: WriteCall<'a>)
        requires
            old(self).wf(),
            old(self)@.writable(data@.len()),
        ensures
            final(self).wf(),
            final(self).output() == old(self).output(),
            (final(self)@, r@) == old(self)@.begin(Task::Write(data@)),
            final(self)@.resumable(r@),
    {
        if !self.starts_with_taken(data) {
            self.taken.clear();
        }
        if self.ending {
            let left: usize = match self.offset {
                Some(offset) => self.buffer.len() - offset,
                None => 0,
            };
            if left == 0 || left == 5 {
                self.reset_buffer();
                return self.take(data);
            }
        }
        if self.offset.is_some() {
            WriteCall { operation: Operation::Write(data), request: WriteRequest::Write }
        } else {
            self.take(data)
        }
    }

    /// Begins to send what has been gathered.
    pub fn poll_flush(&mut self) -> (r: WriteCall<'static>)
        requires
            old(self).wf(),
        ensures
            final(self).wf(),
            final(self).output() == old(self).output(),
            (final(self)@, r@) == old(self)@.begin(Task::Flush),
            final(self)@.resumable(r@),
    {
        self.begin(Operation::Flush)
    }

    /// Begins to end the message with a chunk of size zero.
    ///
    /// This should only be called when all data has been written.
    pub fn finish(&mut self) -> (r: WriteCall<'static>)
        requires
            old(self).wf(),
        ensures
            final(self).wf(),
            final(self).output() == old(self).output(),
            (final(self)@, r@) == old(self)@.begin(Task::Finish),
            final(self)@.resumable(r@),
    {
        self.begin(Operation::Finish)
    }

    /// Begins to end the message and to shut the output down.
    pub fn poll_shutdown(&mut self) -> (r: WriteCall<'static>)
        requires
            old(self).wf(),
        ensures
            final(self).wf(),
            final(self).output() == old(self).output(),
            (final(self)@, r@) == old(self)@.begin(Task::Shutdown),
            final(self)@.resumable(r@),
    {
        self.begin(Operation::Shutdown)
    }

    /// The output, and what is left of what is being sent.
    pub fn parts(&mut self) -> (r: (&mut W, &[u8]))
        requires
            old(self).wf(),
        ensures
            *r.0 == old(self).output(),
            r.1@ == old(self)@.held.unsent(),
            final(self).wf(),
            final(self)@ == old(self)@,
            final(self).output() == *final(r.0),
    {
        let start: usize = match self.offset {
            Some(offset) => offset,
            None => self.buffer.len(),
        };
        let unsent = vstd::slice::slice_subrange(self.buffer.as_slice(), start, self.buffer.len());
        assert(unsent@ =~= self.buffer@.skip(start as int));
        (&mut self.output, unsent)
    }

    /// Notes that the output took `count` bytes of what is being sent.
    fn sent(&mut self, count: usize)
        requires
            old(self).wf(),
            old(self)@.held.unsent().len() > 0,
        ensures
            final(self).inv(),
            final(self).output() == old(self).output(),
            final(self)@ == (EncoderState {
                held: old(self)@.held.sent(count as nat),
                ..old(self)@
            }),
            final(self)@.held !is Gathering ==> final(self)@.valid(),
    {
        if let Some(offset) = self.offset {
            let ghost unsent = self.buffer@.skip(offset as int);
            if count < self.buffer.len() - offset {
                self.offset = Some(offset + count);
                proof {
                    assert(unsent.skip(count as int) =~= self.buffer@.skip(offset + count));
                    if self.ending {
                        assert(unsent.skip(count as int) =~= last_chunk().skip(
                            5 - (unsent.len() - count),
                        ));
                    }
                }
            } else if self.ending {
                self.offset = None;
                assert(last_chunk().skip(5) =~= Seq::<u8>::empty());
            } else {
                self.reset_buffer();
            }
        }
    }

    /// Goes on with a call after the output took `count` bytes of what is being
    /// sent, or was shut down.
    pub fn resume<'a>(&mut self, call: &mut WriteCall<'a>, count: usize)
        requires
            old(self).wf(),
            old(self)@.resumable(old(call)@),
        ensures
            final(self).wf(),
            final(self).output() == old(self).output(),
            (final(self)@, final(call)@) == old(self)@.resume(old(call)@, count as nat),
            final(self)@.resumable(final(call)@),
    {
        match call.request {
            WriteRequest::Write => {
                self.sent(count);
                if self.offset.is_some() {
                    return ;
                }
                if self.ending {
                    *call = self.ended(call.operation);
                } else {
                    *call = self.all_sent(call.operation);
                }
            },
            WriteRequest::Shutdown => {
                self.reset_buffer();
                call.request = WriteRequest::Done(0);
            },
            WriteRequest::Done(_) => {},
        }
    }
}

} // verus!
