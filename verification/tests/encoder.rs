use async_chunked_transfer::encoder::{Encoder, WriteCall, WriteRequest};

/// Goes on with a call. The output takes no more than `most` bytes at once. Where
/// `budget` replies do not suffice, the call is given up.
fn drive(
    encoder: &mut Encoder<Vec<u8>>,
    mut call: WriteCall<'_>,
    most: usize,
    budget: usize,
) -> Option<usize> {
    for _ in 0..budget {
        let (output, unsent) = encoder.parts();
        let count = match call.request() {
            WriteRequest::Write => {
                let count = unsent.len().min(most);
                output.extend_from_slice(&unsent[..count]);
                count
            }
            WriteRequest::Shutdown => {
                output.extend_from_slice(b"<shutdown>");
                0
            }
            WriteRequest::Done(count) => return Some(count),
        };
        encoder.resume(&mut call, count);
    }
    match call.request() {
        WriteRequest::Done(count) => Some(count),
        _ => None,
    }
}

fn write(encoder: &mut Encoder<Vec<u8>>, data: &[u8], most: usize) {
    assert!(encoder.can_write(data.len()));
    let call = encoder.poll_write(data);
    assert_eq!(drive(encoder, call, most, usize::MAX), Some(data.len()));
}

fn flush(encoder: &mut Encoder<Vec<u8>>, most: usize) {
    let call = encoder.poll_flush();
    assert_eq!(drive(encoder, call, most, usize::MAX), Some(0));
}

fn finish(encoder: &mut Encoder<Vec<u8>>, most: usize) {
    let call = encoder.finish();
    assert_eq!(drive(encoder, call, most, usize::MAX), Some(0));
}

/// Writes `source` to the encoder and flushes it.
fn copy(source: &[u8], encoder: &mut Encoder<Vec<u8>>) {
    write(encoder, source, usize::MAX);
    flush(encoder, usize::MAX);
}

fn text(encoder: &mut Encoder<Vec<u8>>) -> String {
    String::from_utf8(encoder.parts().0.clone()).unwrap()
}

#[test]
fn test() {
    let mut encoder = Encoder::with_chunks_size(Vec::new(), 5);
    copy(b"hello world", &mut encoder);
    finish(&mut encoder, usize::MAX);

    assert_eq!(
        text(&mut encoder),
        "5\r\nhello\r\n5\r\n worl\r\n1\r\nd\r\n0\r\n\r\n"
    );
}

#[test]
fn flush_after_write() {
    let mut encoder = Encoder::with_flush_after_write(Vec::new());
    copy(b"hello world", &mut encoder);
    // The internal buffer has been flushed.
    assert!(encoder.is_buffer_empty());
    finish(&mut encoder, usize::MAX);

    assert_eq!(text(&mut encoder), "b\r\nhello world\r\n0\r\n\r\n");
}

#[test]
fn writes_are_gathered() {
    let mut encoder = Encoder::new(Vec::new());
    write(&mut encoder, b"hello", usize::MAX);
    write(&mut encoder, b" world", usize::MAX);
    assert_eq!(text(&mut encoder), "");
    assert!(!encoder.is_buffer_empty());
    finish(&mut encoder, usize::MAX);
    assert!(encoder.is_buffer_empty());
    assert_eq!(text(&mut encoder), "b\r\nhello world\r\n0\r\n\r\n");
}

#[test]
fn a_full_chunk_is_sent_when_more_comes() {
    let mut encoder = Encoder::with_chunks_size(Vec::new(), 5);
    write(&mut encoder, b"hello", usize::MAX);
    assert_eq!(text(&mut encoder), "");
    write(&mut encoder, b"", usize::MAX);
    assert_eq!(text(&mut encoder), "");
    write(&mut encoder, b"!", usize::MAX);
    assert_eq!(text(&mut encoder), "5\r\nhello\r\n");
    flush(&mut encoder, usize::MAX);
    assert_eq!(text(&mut encoder), "5\r\nhello\r\n1\r\n!\r\n");
}

#[test]
fn default_chunk_size() {
    let mut encoder = Encoder::new(Vec::new());
    write(&mut encoder, &[b'x'; 8193], usize::MAX);
    finish(&mut encoder, usize::MAX);
    let expected = format!("2000\r\n{}\r\n1\r\nx\r\n0\r\n\r\n", "x".repeat(8192));
    assert_eq!(text(&mut encoder), expected);
}

#[test]
fn nothing_is_sent_for_no_data() {
    let mut encoder = Encoder::with_flush_after_write(Vec::new());
    write(&mut encoder, b"", usize::MAX);
    flush(&mut encoder, usize::MAX);
    assert_eq!(text(&mut encoder), "");
    finish(&mut encoder, usize::MAX);
    assert_eq!(text(&mut encoder), "0\r\n\r\n");
}

#[test]
fn outputs_may_take_few_bytes_at_once() {
    for most in 1..12 {
        let mut encoder = Encoder::with_chunks_size(Vec::new(), 5);
        write(&mut encoder, b"hello world", most);
        finish(&mut encoder, most);
        assert_eq!(
            text(&mut encoder),
            "5\r\nhello\r\n5\r\n worl\r\n1\r\nd\r\n0\r\n\r\n"
        );
    }
}

#[test]
fn shutdown_ends_the_message_first() {
    let mut encoder = Encoder::with_chunks_size(Vec::new(), 5);
    write(&mut encoder, b"abc", usize::MAX);
    let call = encoder.poll_shutdown();
    assert_eq!(drive(&mut encoder, call, usize::MAX, usize::MAX), Some(0));
    assert_eq!(text(&mut encoder), "3\r\nabc\r\n0\r\n\r\n<shutdown>");
}

/// Begins a call and gives it up after `budget` replies.
fn give_up(encoder: &mut Encoder<Vec<u8>>, task: Task<'_>, most: usize, budget: usize) {
    let call = begin(encoder, task);
    assert_eq!(drive(encoder, call, most, budget), None);
}

#[derive(Clone, Copy)]
enum Task<'a> {
    Write(&'a [u8]),
    Flush,
    Finish,
    Shutdown,
}

fn begin<'a>(encoder: &mut Encoder<Vec<u8>>, task: Task<'a>) -> WriteCall<'a> {
    match task {
        Task::Write(data) => encoder.poll_write(data),
        Task::Flush => encoder.poll_flush(),
        Task::Finish => encoder.finish(),
        Task::Shutdown => encoder.poll_shutdown(),
    }
}

/// Calls again, with `budget` replies each time, until the call has ended.
fn repeat(encoder: &mut Encoder<Vec<u8>>, task: Task<'_>, most: usize, budget: usize) {
    loop {
        let call = begin(encoder, task);
        if let Some(count) = drive(encoder, call, most, budget) {
            let expected = match task {
                Task::Write(data) => data.len(),
                _ => 0,
            };
            assert_eq!(count, expected);
            return;
        }
    }
}

#[test]
fn calls_that_are_given_up_go_on_where_they_stopped() {
    let sessions: [&[Task<'_>]; 4] = [
        &[Task::Write(b"hello world"), Task::Finish],
        &[Task::Write(b"hel"), Task::Write(b"lo world!!!"), Task::Shutdown],
        &[Task::Write(b"abc"), Task::Flush, Task::Write(b""), Task::Write(b"d"), Task::Finish],
        &[Task::Flush, Task::Finish],
    ];
    for session in sessions {
        for size in [1, 3, 5, 8192] {
            for flushed in [false, true] {
                let new = || {
                    if flushed {
                        Encoder::with_flush_after_write(Vec::new())
                    } else {
                        Encoder::with_chunks_size(Vec::new(), size)
                    }
                };
                let mut ready = new();
                for task in session {
                    let call = begin(&mut ready, *task);
                    assert!(drive(&mut ready, call, usize::MAX, usize::MAX).is_some());
                }
                for most in 1..9 {
                    for budget in 1..9 {
                        let mut encoder = new();
                        for task in session {
                            repeat(&mut encoder, *task, most, budget);
                        }
                        assert_eq!(text(&mut encoder), text(&mut ready));
                        assert_eq!(encoder.buffer_len(), ready.buffer_len());
                    }
                }
            }
        }
    }
}

#[test]
fn a_write_that_is_called_again_takes_its_data_once() {
    let mut encoder = Encoder::with_flush_after_write(Vec::new());
    give_up(&mut encoder, Task::Write(b"hel"), 1, 0);
    give_up(&mut encoder, Task::Write(b"hel"), 1, 4);
    write(&mut encoder, b"hel", usize::MAX);
    assert_eq!(text(&mut encoder), "3\r\nhel\r\n");

    let mut encoder = Encoder::with_chunks_size(Vec::new(), 5);
    give_up(&mut encoder, Task::Write(b"hello world"), 1, 2);
    write(&mut encoder, b"hello world", usize::MAX);
    assert_eq!(text(&mut encoder), "5\r\nhello\r\n5\r\n worl\r\n");
    assert_eq!(encoder.buffer_len(), 1);
}

#[test]
fn a_write_may_be_called_again_with_more_data() {
    let mut encoder = Encoder::with_flush_after_write(Vec::new());
    give_up(&mut encoder, Task::Write(b"hel"), 1, 4);
    write(&mut encoder, b"hello", usize::MAX);
    assert_eq!(text(&mut encoder), "3\r\nhel\r\n2\r\nlo\r\n");

    let data = b"hello world!!!";
    for size in 1..8 {
        for most in 1..6 {
            for budget in 0..6 {
                let mut encoder = Encoder::with_chunks_size(Vec::new(), size);
                let mut length = 6;
                loop {
                    let call = encoder.poll_write(&data[..length]);
                    if let Some(count) = drive(&mut encoder, call, most, budget) {
                        assert_eq!(count, length);
                        break;
                    }
                    if length == data.len() {
                        repeat(&mut encoder, Task::Write(data), most, 7);
                        break;
                    }
                    length += 1;
                }
                finish(&mut encoder, most);
                let mut expected = String::new();
                let sent = &data[..length];
                for part in sent.chunks(size) {
                    let part = String::from_utf8(part.to_vec()).unwrap();
                    expected += &format!("{:x}\r\n{}\r\n", part.len(), part);
                }
                expected += "0\r\n\r\n";
                // Without flushes the chunks are as from one write.
                assert_eq!(text(&mut encoder), expected);
            }
        }
    }
}

#[test]
fn how_data_is_cut_into_writes_does_not_show() {
    let data: Vec<u8> = (b'a'..=b'z').collect();
    for size in 1..12 {
        let mut whole = Encoder::with_chunks_size(Vec::new(), size);
        write(&mut whole, &data, usize::MAX);
        for step in 1..12 {
            let mut encoder = Encoder::with_chunks_size(Vec::new(), size);
            for part in data.chunks(step) {
                write(&mut encoder, part, usize::MAX);
            }
            assert_eq!(text(&mut encoder), text(&mut whole));
            assert_eq!(encoder.buffer_len(), whole.buffer_len());
        }
    }
}

#[test]
fn the_last_chunk_is_written_to_its_end() {
    for most in 1..6 {
        let mut encoder = Encoder::new(Vec::new());
        finish(&mut encoder, most);
        assert_eq!(text(&mut encoder), "0\r\n\r\n");
    }
    let mut encoder = Encoder::new(Vec::<u8>::new());
    let mut call = encoder.finish();
    assert_eq!(encoder.parts().1, b"0\r\n\r\n");
    encoder.resume(&mut call, 3);
    assert_eq!(call.request(), WriteRequest::Write);
    assert_eq!(encoder.parts().1, b"\r\n");
    encoder.resume(&mut call, 0);
    assert_eq!(call.request(), WriteRequest::Write);
    encoder.resume(&mut call, 2);
    assert_eq!(call.request(), WriteRequest::Done(0));
    // a reply after the end changes nothing
    encoder.resume(&mut call, 2);
    assert_eq!(call.request(), WriteRequest::Done(0));
    assert_eq!(encoder.parts().1, b"");
}

#[test]
fn a_shutdown_of_the_output_is_asked_for_again() {
    let mut encoder = Encoder::new(Vec::new());
    give_up(&mut encoder, Task::Shutdown, usize::MAX, 1);
    assert_eq!(text(&mut encoder), "0\r\n\r\n");
    assert_eq!(encoder.poll_shutdown().request(), WriteRequest::Shutdown);
    repeat(&mut encoder, Task::Shutdown, 1, 1);
    assert_eq!(text(&mut encoder), "0\r\n\r\n<shutdown>");
    // a finish has nothing left to write
    let mut encoder = Encoder::new(Vec::new());
    give_up(&mut encoder, Task::Shutdown, usize::MAX, 1);
    finish(&mut encoder, usize::MAX);
    assert_eq!(text(&mut encoder), "0\r\n\r\n");
}

#[test]
fn a_chunk_that_is_being_sent_goes_before_new_data() {
    let mut encoder = Encoder::with_chunks_size(Vec::new(), 5);
    write(&mut encoder, b"abcde", usize::MAX);
    give_up(&mut encoder, Task::Flush, 1, 2);
    assert_eq!(encoder.buffer_len(), 7);
    assert!(encoder.can_write(11));
    write(&mut encoder, b"xyz", usize::MAX);
    assert_eq!(text(&mut encoder), "5\r\nabcde\r\n");
    assert_eq!(encoder.buffer_len(), 3);
    flush(&mut encoder, usize::MAX);
    assert_eq!(text(&mut encoder), "5\r\nabcde\r\n3\r\nxyz\r\n");
}

#[test]
fn another_call_ends_a_write_that_was_given_up() {
    let mut encoder = Encoder::with_chunks_size(Vec::new(), 5);
    give_up(&mut encoder, Task::Write(b"hello world"), 1, 2);
    flush(&mut encoder, usize::MAX);
    write(&mut encoder, b"HELLO WORLD", usize::MAX);
    finish(&mut encoder, usize::MAX);
    assert_eq!(
        text(&mut encoder),
        "5\r\nhello\r\n5\r\nHELLO\r\n5\r\n WORL\r\n1\r\nD\r\n0\r\n\r\n"
    );
    // data that does not start with what was taken is other data
    let mut encoder = Encoder::with_flush_after_write(Vec::new());
    give_up(&mut encoder, Task::Write(b"hel"), 1, 0);
    write(&mut encoder, b"other", usize::MAX);
    assert_eq!(text(&mut encoder), "3\r\nhel\r\n5\r\nother\r\n");
    // and so is less data
    let mut encoder = Encoder::with_chunks_size(Vec::new(), 5);
    give_up(&mut encoder, Task::Write(b"hello world"), 1, 2);
    write(&mut encoder, b"abc", usize::MAX);
    finish(&mut encoder, usize::MAX);
    assert_eq!(text(&mut encoder), "5\r\nhello\r\n3\r\nabc\r\n0\r\n\r\n");
}

#[test]
fn writes_after_a_finish_that_was_given_up() {
    // nothing of the last chunk was written
    let mut encoder = Encoder::with_chunks_size(Vec::new(), 5);
    give_up(&mut encoder, Task::Finish, 1, 0);
    write(&mut encoder, b"abc", usize::MAX);
    finish(&mut encoder, usize::MAX);
    assert_eq!(text(&mut encoder), "3\r\nabc\r\n0\r\n\r\n");
    // some of it was
    let mut encoder = Encoder::with_chunks_size(Vec::new(), 5);
    give_up(&mut encoder, Task::Finish, 1, 2);
    assert!(encoder.is_buffer_empty());
    assert_eq!(encoder.buffer_len(), 0);
    flush(&mut encoder, usize::MAX);
    assert_eq!(text(&mut encoder), "0\r");
    give_up(&mut encoder, Task::Write(b"abc"), 1, 1);
    write(&mut encoder, b"abc", usize::MAX);
    assert_eq!(text(&mut encoder), "0\r\n\r\n");
    assert_eq!(encoder.buffer_len(), 3);
}

#[test]
fn limits_of_writes() {
    // no chunk can hold data
    let encoder = Encoder::with_chunks_size(Vec::<u8>::new(), 0);
    assert!(encoder.can_write(0));
    assert!(!encoder.can_write(1));
    let encoder = Encoder::with_chunks_size(Vec::<u8>::new(), 1);
    assert!(encoder.can_write(usize::MAX));
    let encoder = Encoder::with_chunks_size(Vec::<u8>::new(), usize::MAX);
    assert!(encoder.can_write(usize::MAX));
    // without data there are still messages
    let mut encoder = Encoder::with_chunks_size(Vec::new(), 0);
    write(&mut encoder, b"", usize::MAX);
    finish(&mut encoder, usize::MAX);
    assert_eq!(text(&mut encoder), "0\r\n\r\n");
}

#[test]
fn large_chunks() {
    for size in [0xffff, 0x10000, 0x12345] {
        let mut encoder = Encoder::with_chunks_size(Vec::new(), usize::MAX);
        write(&mut encoder, &vec![b'x'; size], usize::MAX);
        assert_eq!(encoder.buffer_len(), size);
        flush(&mut encoder, usize::MAX);
        let expected = format!("{:x}\r\n{}\r\n", size, "x".repeat(size));
        assert_eq!(text(&mut encoder), expected);
    }
}

#[test]
fn the_buffer_holds_what_was_not_written_out() {
    let data: Vec<u8> = (0..40).collect();
    for size in 1..9 {
        let mut encoder = Encoder::with_chunks_size(Vec::new(), size);
        let mut taken = 0;
        let mut flushed = 0;
        for (i, part) in data.chunks(3).enumerate() {
            write(&mut encoder, part, 2);
            taken += part.len();
            if i % 4 == 3 {
                flush(&mut encoder, 2);
                flushed = taken;
            }
            // full chunks go out when more data comes
            let pending = taken - flushed;
            let held = if pending == 0 { 0 } else { (pending - 1) % size + 1 };
            assert_eq!(encoder.buffer_len(), held);
            assert_eq!(encoder.is_buffer_empty(), held == 0);
        }
    }
}

#[test]
fn the_chunk_of_a_write_that_is_given_up_is_completed() {
    let mut encoder = Encoder::with_chunks_size(Vec::new(), 5);
    give_up(&mut encoder, Task::Write(b"hello world"), 1, 2);
    assert_eq!(text(&mut encoder), "5\r");
    finish(&mut encoder, usize::MAX);
    assert_eq!(text(&mut encoder), "5\r\nhello\r\n0\r\n\r\n");
    assert!(encoder.is_buffer_empty());
}
