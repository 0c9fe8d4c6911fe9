use async_chunked_transfer::decoder::{
    read_byte, read_carriage_return, read_line_feed, Decoder, DecoderError, ReadRequest,
    SizeLineReader, SourceReply,
};

/// A source in memory that hands out no more than `most` bytes at once.
struct Source {
    bytes: Vec<u8>,
    position: usize,
    most: usize,
}

impl Source {
    fn new(bytes: &[u8], most: usize) -> Source {
        Source {
            bytes: bytes.to_vec(),
            position: 0,
            most,
        }
    }

    fn read(&mut self, limit: usize) -> Vec<u8> {
        let count = limit.min(self.most).min(self.bytes.len() - self.position);
        let part = self.bytes[self.position..self.position + count].to_vec();
        self.position += count;
        part
    }
}

/// Goes on with a read, with up to `budget` replies of the source.
fn poll(
    decoder: &mut Decoder<Source>,
    room: usize,
    budget: usize,
) -> Option<Result<Vec<u8>, DecoderError>> {
    decoder.poll_read(room);
    let mut replies = 0;
    loop {
        let limit = match decoder.request() {
            ReadRequest::Byte => 1,
            ReadRequest::Data(limit) => {
                assert!(limit <= room);
                limit
            }
            ReadRequest::Done(Ok(count)) => {
                assert_eq!(decoder.data().len(), count);
                assert!(count <= room);
                return Some(Ok(decoder.data().to_vec()));
            }
            ReadRequest::Done(Err(e)) => return Some(Err(e)),
        };
        if replies == budget {
            return None;
        }
        replies += 1;
        let part = decoder.source_mut().read(limit);
        decoder.resume(&SourceReply::Filled(&part));
    }
}

/// One read into a buffer of size `room`.
fn read(decoder: &mut Decoder<Source>, room: usize) -> Result<Vec<u8>, DecoderError> {
    poll(decoder, room, usize::MAX).unwrap()
}

fn read_to_end(decoder: &mut Decoder<Source>, room: usize) -> Result<Vec<u8>, DecoderError> {
    let mut all = Vec::new();
    loop {
        let part = read(decoder, room)?;
        if part.is_empty() {
            return Ok(all);
        }
        all.extend_from_slice(&part);
    }
}

fn read_to_string(decoder: &mut Decoder<Source>) -> Result<String, DecoderError> {
    read_to_end(decoder, 32).map(|bytes| String::from_utf8(bytes).unwrap())
}

fn chunk_size(s: &[u8]) -> Result<usize, DecoderError> {
    let mut reader = SizeLineReader::new();
    let mut source = Source::new(s, 1);
    loop {
        let part = source.read(1);
        if let Some(result) = reader.read_chunk_size(&SourceReply::Filled(&part)) {
            if result.is_ok() {
                assert_eq!(source.position, s.len());
            }
            return result;
        }
    }
}

#[test]
fn test_read_chunk_size() {
    fn read(s: &str, expected: usize) {
        assert_eq!(chunk_size(s.as_bytes()), Ok(expected));
    }

    fn read_err(s: &str) {
        assert_eq!(chunk_size(s.as_bytes()), Err(DecoderError));
    }

    read("1\r\n", 1);
    read("01\r\n", 1);
    read("0\r\n", 0);
    read("00\r\n", 0);
    read("A\r\n", 10);
    read("a\r\n", 10);
    read("Ff\r\n", 255);
    read("Ff   \r\n", 255);
    // Missing LF or CRLF
    read_err("F\rF");
    read_err("F");
    // Invalid hex digit
    read_err("X\r\n");
    read_err("1X\r\n");
    read_err("-\r\n");
    read_err("-1\r\n");
    // Acceptable (if not fully valid) extensions do not influence the size
    read("1;extension\r\n", 1);
    read("a;ext name=value\r\n", 10);
    read("1;extension;extension2\r\n", 1);
    read("1;;;  ;\r\n", 1);
    read("2; extension...\r\n", 2);
    read("3   ; extension=123\r\n", 3);
    read("3   ;\r\n", 3);
    read("3   ;   \r\n", 3);
    // Invalid extensions cause an error
    read_err("1 invalid extension\r\n");
    read_err("1 A\r\n");
    read_err("1;no CRLF");
}

#[test]
fn test_valid_chunk_decode() {
    let source = Source::new(b"3\r\nhel\r\nb\r\nlo world!!!\r\n0\r\n\r\n", usize::MAX);
    let mut decoded = Decoder::new(source);

    assert_eq!(read_to_string(&mut decoded).unwrap(), "hello world!!!");
}

#[test]
fn test_decode_zero_length() {
    let mut decoder = Decoder::new(Source::new(b"0\r\n\r\n", usize::MAX));

    assert_eq!(read_to_string(&mut decoder).unwrap(), "");
}

#[test]
fn test_decode_invalid_chunk_length() {
    let mut decoder = Decoder::new(Source::new(b"m\r\n\r\n", usize::MAX));

    assert!(read_to_string(&mut decoder).is_err());
}

#[test]
fn invalid_input1() {
    let source = Source::new(b"2\r\nhel\r\nb\r\nlo world!!!\r\n0\r\n", usize::MAX);
    let mut decoded = Decoder::new(source);

    assert!(read_to_string(&mut decoded).is_err());
}

#[test]
fn invalid_input2() {
    let source = Source::new(b"3\rhel\r\nb\r\nlo world!!!\r\n0\r\n", usize::MAX);
    let mut decoded = Decoder::new(source);

    assert!(read_to_string(&mut decoded).is_err());
}

#[test]
fn size_line_edge_cases() {
    // white space of any kind, also before the number
    assert_eq!(chunk_size(b" \t\n7f\x0b\r\n"), Ok(127));
    assert_eq!(chunk_size("\u{2003}1\u{3000}\r\n".as_bytes()), Ok(1));
    // a plus sign, but no minus sign, and no sign alone
    assert_eq!(chunk_size(b"+a\r\n"), Ok(10));
    assert_eq!(chunk_size(b"+\r\n"), Err(DecoderError));
    assert_eq!(chunk_size(b"++1\r\n"), Err(DecoderError));
    // an empty field
    assert_eq!(chunk_size(b"\r\n"), Err(DecoderError));
    assert_eq!(chunk_size(b";x\r\n"), Err(DecoderError));
    // no UTF-8
    assert_eq!(chunk_size(b"1\xff\r\n"), Err(DecoderError));
    assert_eq!(chunk_size(b"1;\xff\r\n"), Ok(1));
    // the largest size, and one more
    let largest = format!("{:x}\r\n", usize::MAX);
    assert_eq!(chunk_size(largest.as_bytes()), Ok(usize::MAX));
    let more = format!("1{}\r\n", "0".repeat(2 * std::mem::size_of::<usize>()));
    assert_eq!(chunk_size(more.as_bytes()), Err(DecoderError));
    let zeros = format!("{}5\r\n", "0".repeat(100));
    assert_eq!(chunk_size(zeros.as_bytes()), Ok(5));
}

#[test]
fn size_line_of_a_failing_source() {
    let mut reader = SizeLineReader::new();
    assert_eq!(reader.read_chunk_size(&SourceReply::Filled(b"1")), None);
    assert_eq!(
        reader.read_chunk_size(&SourceReply::Failed),
        Some(Err(DecoderError))
    );
}

#[test]
fn single_bytes() {
    assert_eq!(read_byte(&SourceReply::Filled(b"x")), Ok(b'x'));
    assert_eq!(read_byte(&SourceReply::Filled(b"")), Err(DecoderError));
    assert_eq!(read_byte(&SourceReply::Filled(b"xy")), Err(DecoderError));
    assert_eq!(read_byte(&SourceReply::Failed), Err(DecoderError));
    assert_eq!(read_carriage_return(&SourceReply::Filled(b"\r")), Ok(()));
    assert_eq!(read_carriage_return(&SourceReply::Filled(b"\n")), Err(DecoderError));
    assert_eq!(read_carriage_return(&SourceReply::Failed), Err(DecoderError));
    assert_eq!(read_line_feed(&SourceReply::Filled(b"\n")), Ok(()));
    assert_eq!(read_line_feed(&SourceReply::Filled(b"\r")), Err(DecoderError));
    assert_eq!(read_line_feed(&SourceReply::Filled(b"")), Err(DecoderError));
}

#[test]
fn error_description() {
    assert_eq!(DecoderError.description(), "Error while decoding chunks");
}

#[test]
fn fresh_decoder() {
    let mut decoder = Decoder::new(5u8);
    assert_eq!(decoder.remaining_chunks_size(), None);
    *decoder.source_mut() = 6;
    assert_eq!(decoder.into_inner(), 6);
}

#[test]
fn remaining_size_goes_down_within_a_chunk() {
    let mut decoder = Decoder::new(Source::new(b"b\r\nlo world!!!\r\n0\r\n\r\n", usize::MAX));
    assert_eq!(read(&mut decoder, 4).unwrap(), b"lo w");
    assert_eq!(decoder.remaining_chunks_size(), Some(7));
    assert_eq!(read(&mut decoder, 0).unwrap(), b"");
    assert_eq!(decoder.remaining_chunks_size(), Some(7));
    assert_eq!(read(&mut decoder, 7).unwrap(), b"orld!!!");
    assert_eq!(decoder.remaining_chunks_size(), None);
    assert_eq!(read(&mut decoder, 7).unwrap(), b"");
    assert_eq!(decoder.remaining_chunks_size(), None);
}

#[test]
fn reads_of_any_size_give_the_message_and_leave_the_rest() {
    let encoded = b"3\r\nhel\r\nb;ext\r\nlo world!!!\r\n0\r\n\r\nGET /";
    for room in 1..20 {
        for most in 1..20 {
            let mut decoder = Decoder::new(Source::new(encoded, most));
            assert_eq!(read_to_end(&mut decoder, room).unwrap(), b"hello world!!!");
            let source = decoder.into_inner();
            assert_eq!(&source.bytes[source.position..], b"GET /");
        }
    }
}

#[test]
fn what_is_no_message_is_not_read_as_one() {
    let bad: [&[u8]; 8] = [
        b"",
        b"3",
        b"3\r\nhel",
        b"3\r\nhel\r",
        b"3\r\nhello\r\n0\r\n\r\n",
        b"3\r\nhel\r\n0\r\n",
        b"3\r\nhel\r\n0\r\n\rx",
        b"3\r\nhel\r\n0\r\nx",
    ];
    for encoded in bad {
        let mut decoder = Decoder::new(Source::new(encoded, usize::MAX));
        assert_eq!(read_to_end(&mut decoder, 32), Err(DecoderError));
    }
    // a source that ends within a chunk
    let mut decoder = Decoder::new(Source::new(b"5\r\nhel", usize::MAX));
    assert_eq!(read_to_end(&mut decoder, 32).unwrap(), b"hel");
    assert_eq!(decoder.remaining_chunks_size(), Some(2));
}

#[test]
fn whole_chunks_are_handed_out_before_a_fault() {
    let bad: [&[u8]; 3] = [
        b"3\r\nhel\r\n2\r\nlo\r\n4\r\nwild\rX",
        b"3\r\nhel\r\n2\r\nlo\r\nX\r\n",
        b"3\r\nhel\r\n2\r\nlo\r\n0\r\nX",
    ];
    for encoded in bad {
        for room in 1..8 {
            let mut decoder = Decoder::new(Source::new(encoded, usize::MAX));
            let mut all = Vec::new();
            while let Ok(part) = read(&mut decoder, room) {
                assert!(!part.is_empty());
                all.extend_from_slice(&part);
            }
            assert!(all.starts_with(b"hello"));
            assert!(b"hellowild".starts_with(&all));
        }
    }
}

#[test]
fn failed_reads_do_not_change_the_decoder() {
    let mut decoder = Decoder::new(Source::new(b"4\r\nabcdX", usize::MAX));
    assert_eq!(read(&mut decoder, 1).unwrap(), b"a");
    assert_eq!(decoder.remaining_chunks_size(), Some(3));
    assert_eq!(read(&mut decoder, 3), Err(DecoderError));
    assert_eq!(decoder.remaining_chunks_size(), Some(3));
    // the source fails when it is asked for data
    decoder.poll_read(2);
    assert_eq!(decoder.request(), ReadRequest::Data(2));
    decoder.resume(&SourceReply::Failed);
    assert_eq!(decoder.request(), ReadRequest::Done(Err(DecoderError)));
    // a reply after the end changes nothing
    decoder.resume(&SourceReply::Filled(b"xy"));
    assert_eq!(decoder.request(), ReadRequest::Done(Err(DecoderError)));
    assert_eq!(decoder.remaining_chunks_size(), Some(3));
    decoder.poll_read(5);
    assert_eq!(decoder.request(), ReadRequest::Data(3));
}

#[test]
fn reads_that_are_given_up_keep_what_the_source_gave() {
    let mut decoder = Decoder::new(Source::new(b"4\r\nabcd\r\n0\r\n\r\n", usize::MAX));
    assert_eq!(poll(&mut decoder, 8, 1), None);
    assert_eq!(poll(&mut decoder, 8, 2), None);
    assert_eq!(decoder.request(), ReadRequest::Data(4));
    assert_eq!(poll(&mut decoder, 8, 2), None);
    assert_eq!(decoder.source_mut().position, 8);
    assert_eq!(decoder.remaining_chunks_size(), None);
    assert_eq!(poll(&mut decoder, 8, 0), None);
    assert_eq!(poll(&mut decoder, 8, 1), Some(Ok(b"abcd".to_vec())));
    assert_eq!(read(&mut decoder, 8).unwrap(), b"");
}

#[test]
fn a_source_that_is_not_always_ready_makes_no_difference() {
    let sources: [&[u8]; 8] = [
        b"3\r\nhel\r\nb;ext\r\nlo world!!!\r\n0\r\n\r\nGET /",
        b"0\r\n\r\n",
        b"3\r\nhel\r\n0\r\n",
        b"3\r\nhel\r\nx\r\n",
        b"3\r\nhelX",
        b"3\r\nhel\rX",
        b"3\r\nhel\r\n0\r\nX",
        b"5\r\nhel",
    ];
    for encoded in sources {
        for room in 1..16 {
            for most in 1..12 {
                for budget in 1..8 {
                    let mut ready = Decoder::new(Source::new(encoded, most));
                    let mut decoder = Decoder::new(Source::new(encoded, most));
                    loop {
                        let expected = read(&mut ready, room);
                        let result = loop {
                            if let Some(result) = poll(&mut decoder, room, budget) {
                                break result;
                            }
                        };
                        assert_eq!(result, expected);
                        assert_eq!(decoder.remaining_chunks_size(), ready.remaining_chunks_size());
                        assert_eq!(decoder.source_mut().position, ready.source_mut().position);
                        match result {
                            Ok(data) if !data.is_empty() => {}
                            _ => break,
                        }
                    }
                }
            }
        }
    }
}

#[test]
fn a_read_may_go_on_into_another_buffer() {
    let encoded = b"6\r\nabcdef\r\n2\r\ngh\r\n0\r\n\r\n";
    // the data has been read, and its line end has not
    let mut decoder = Decoder::new(Source::new(encoded, usize::MAX));
    assert_eq!(poll(&mut decoder, 8, 4), None);
    assert_eq!(poll(&mut decoder, 4, usize::MAX), Some(Ok(b"abcd".to_vec())));
    assert_eq!(decoder.remaining_chunks_size(), Some(2));
    assert_eq!(read(&mut decoder, 0).unwrap(), b"");
    assert_eq!(decoder.remaining_chunks_size(), Some(2));
    assert_eq!(read(&mut decoder, 1).unwrap(), b"e");
    assert_eq!(read(&mut decoder, 8).unwrap(), b"f");
    assert_eq!(decoder.remaining_chunks_size(), None);
    assert_eq!(read_to_end(&mut decoder, 8).unwrap(), b"gh");
    // the size line has been read, and the data has not
    let mut decoder = Decoder::new(Source::new(encoded, usize::MAX));
    assert_eq!(poll(&mut decoder, 2, 3), None);
    assert_eq!(decoder.request(), ReadRequest::Data(2));
    assert_eq!(poll(&mut decoder, 5, 0), None);
    assert_eq!(decoder.request(), ReadRequest::Data(5));
    // whatever the buffers and the pauses, the message is read
    for first in 0..9 {
        for second in 1..9 {
            for budget in 1..6 {
                let mut decoder = Decoder::new(Source::new(encoded, usize::MAX));
                let mut all = Vec::new();
                let mut turn = 0;
                loop {
                    let room = if turn % 2 == 0 { first } else { second };
                    turn += 1;
                    match poll(&mut decoder, room, budget) {
                        Some(Ok(data)) => {
                            if data.is_empty()
                                && room > 0
                                && decoder.remaining_chunks_size().is_none()
                            {
                                break;
                            }
                            all.extend_from_slice(&data);
                            if decoder.source_mut().position == encoded.len()
                                && decoder.remaining_chunks_size().is_none()
                            {
                                break;
                            }
                        }
                        Some(Err(_)) => panic!("the message was not read"),
                        None => {}
                    }
                }
                assert_eq!(all, b"abcdefgh");
            }
        }
    }
}
