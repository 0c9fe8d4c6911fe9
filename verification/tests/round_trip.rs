use async_chunked_transfer::decoder::{Decoder, ReadRequest, SourceReply};
use async_chunked_transfer::encoder::{Encoder, WriteCall, WriteRequest};

fn drive(encoder: &mut Encoder<Vec<u8>>, mut call: WriteCall<'_>, most: usize) {
    loop {
        let (output, unsent) = encoder.parts();
        let count = match call.request() {
            WriteRequest::Write => {
                let count = unsent.len().min(most);
                output.extend_from_slice(&unsent[..count]);
                count
            }
            WriteRequest::Shutdown => 0,
            WriteRequest::Done(_) => return,
        };
        encoder.resume(&mut call, count);
    }
}

fn decode(encoded: &[u8], room: usize) -> (Vec<u8>, usize) {
    let mut decoder = Decoder::new(0usize);
    let mut all = Vec::new();
    loop {
        decoder.poll_read(room);
        loop {
            let position = *decoder.source_mut();
            let limit = match decoder.request() {
                ReadRequest::Byte => 1,
                ReadRequest::Data(limit) => limit,
                ReadRequest::Done(result) => {
                    if result.unwrap() == 0 {
                        return (all, decoder.into_inner());
                    }
                    all.extend_from_slice(decoder.data());
                    break;
                }
            };
            let end = encoded.len().min(position + limit);
            *decoder.source_mut() = end;
            decoder.resume(&SourceReply::Filled(&encoded[position..end]));
        }
    }
}

#[test]
fn what_is_encoded_is_decoded() {
    let data: Vec<u8> = (0..300usize).map(|i| (i * 7) as u8).collect();
    for size in [1, 2, 16, 255, 8192] {
        for write in [1, 3, 100, 300] {
            for flushed in [false, true] {
                let mut encoder = Encoder::with_chunks_size(Vec::new(), size);
                for part in data.chunks(write) {
                    let call = encoder.poll_write(part);
                    drive(&mut encoder, call, 5);
                    if flushed {
                        let call = encoder.poll_flush();
                        drive(&mut encoder, call, 5);
                        assert!(encoder.is_buffer_empty());
                    }
                }
                let call = encoder.finish();
                drive(&mut encoder, call, 5);
                let mut encoded = encoder.parts().0.clone();
                let length = encoded.len();
                encoded.extend_from_slice(b"rest");
                for room in [1, 7, 1000] {
                    assert_eq!(decode(&encoded, room), (data.clone(), length));
                }
            }
        }
    }
}
