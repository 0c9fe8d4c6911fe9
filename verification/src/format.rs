//! The chunked transfer coding as a format of byte sequences.
//!
//! A message is a sequence of chunks that a chunk of size zero ends. A chunk
//! is a size line, its data and a line end. A size line is a size field, an
//! optional extension after a semicolon, and a line end.
use vstd::prelude::*;

use crate::number::{hex, lemma_hex_reads_back};
use crate::text::{lemma_size_field_hex, size_field};

verus! {

/// Carriage return.
pub const CR: u8 = 13;

/// Line feed.
pub const LF: u8 = 10;

/// What separates a chunk size from its extensions.
pub const SEMICOLON: u8 = 59;

/// The two bytes that end a line.
pub open spec fn line_end() -> Seq<u8> {
    seq![CR, LF]
}

/// How many bytes of `s` stand before the first one that `stop` holds of, or
/// all of them where there is none.
pub open spec fn run(s: Seq<u8>, stop: spec_fn(u8) -> bool) -> nat
    decreases s.len(),
{
    if s.len() == 0 || stop(s.first()) {
        0
    } else {
        1 + run(s.drop_first(), stop)
    }
}

/// Appending a byte extends a run that reaches to the end, and no other.
pub proof fn lemma_run_push(s: Seq<u8>, b: u8, stop: spec_fn(u8) -> bool)
    ensures
        run(s, stop) <= s.len(),
        run(s.push(b), stop) == if run(s, stop) < s.len() || stop(b) {
            run(s, stop)
        } else {
            s.len() + 1
        },
    decreases s.len(),
{
    if s.len() == 0 {
        assert(s.push(b).drop_first() =~= s);
    } else {
        lemma_run_push(s.drop_first(), b, stop);
        assert(s.push(b).drop_first() =~= s.drop_first().push(b));
    }
}

/// The length of the line that `s` starts with, its carriage return left out.
pub open spec fn line_length(s: Seq<u8>) -> nat {
    run(s, |b: u8| b == CR)
}

/// The length of the size field that `s` starts with.
pub open spec fn field_length(s: Seq<u8>) -> nat {
    run(s, |b: u8| b == CR || b == SEMICOLON)
}

/// What the bytes of a size line, as far as they have been read, amount to.
pub enum SizeLine {
    /// The line goes on.
    Partial,
    /// The line is no size line.
    Invalid,
    /// The line gives this chunk size and takes up this many bytes.
    Complete { size: usize, length: nat },
}

/// Reads `s` as a size line. Whatever stands between the size field and the
/// carriage return is skipped.
pub open spec fn size_line(s: Seq<u8>) -> SizeLine {
    let end = line_length(s);
    if s.len() < end + 2 {
        SizeLine::Partial
    } else if s[end as int + 1] != LF {
        SizeLine::Invalid
    } else {
        match size_field(s.take(field_length(s) as int)) {
            Some(size) => SizeLine::Complete { size, length: end + 2 },
            None => SizeLine::Invalid,
        }
    }
}

/// What follows a complete size line does not count.
pub proof fn lemma_size_line_push(s: Seq<u8>, b: u8)
    requires
        size_line(s) !is Partial,
    ensures
        size_line(s.push(b)) == size_line(s),
{
    lemma_run_push(s, b, |b: u8| b == CR);
    lemma_run_push(s, b, |b: u8| b == CR || b == SEMICOLON);
    lemma_field_in_line(s);
    let field = field_length(s) as int;
    assert(s.push(b).take(field) =~= s.take(field));
}

/// The byte that completes a size line is its last one.
pub proof fn lemma_size_line_ends(s: Seq<u8>, b: u8)
    requires
        size_line(s) is Partial,
    ensures
        size_line(s.push(b)) matches SizeLine::Complete { length, .. } ==> length == s.len() + 1,
        size_line(s.push(b)) is Invalid ==> line_length(s.push(b)) + 2 == s.len() + 1,
{
    lemma_run_push(s, b, |b: u8| b == CR);
}

/// The size field ends where the line ends, or before.
pub proof fn lemma_field_in_line(s: Seq<u8>)
    ensures
        field_length(s) <= line_length(s) <= s.len(),
    decreases s.len(),
{
    if s.len() > 0 {
        lemma_field_in_line(s.drop_first());
    }
}

/// What the bytes that should end a line, as far as they have been read,
/// amount to.
pub enum LineEnd {
    /// Another byte is due.
    Partial,
    /// The bytes do not end a line.
    Invalid,
    /// The bytes end the line.
    Complete,
}

/// Reads `s` as the end of a line.
pub open spec fn end_of_line(s: Seq<u8>) -> LineEnd {
    if s.len() == 0 {
        LineEnd::Partial
    } else if s[0] != CR {
        LineEnd::Invalid
    } else if s.len() == 1 {
        LineEnd::Partial
    } else if s[1] != LF {
        LineEnd::Invalid
    } else {
        LineEnd::Complete
    }
}

/// The data of the message that `s` starts with, and how many bytes of `s` the
/// message takes up. Where `remaining` is given, `s` starts inside of a chunk,
/// with that many bytes of its data still to come.
pub open spec fn message(remaining: Option<usize>, s: Seq<u8>) -> Option<(Seq<u8>, nat)>
    decreases s.len(), (if remaining is None { 1int } else { 0int }),
{
    match remaining {
        Some(size) => {
            if s.len() >= size && end_of_line(s.skip(size as int)) is Complete {
                match message(None, s.skip(size + 2)) {
                    Some((data, length)) => Some((s.take(size as int) + data, size as nat + 2 + length)),
                    None => None,
                }
            } else {
                None
            }
        },
        None => match size_line(s) {
            SizeLine::Complete { size, length } => {
                if size == 0 {
                    if end_of_line(s.skip(length as int)) is Complete {
                        Some((Seq::empty(), length + 2))
                    } else {
                        None
                    }
                } else {
                    match message(Some(size), s.skip(length as int)) {
                        Some((data, rest)) => Some((data, length + rest)),
                        None => None,
                    }
                }
            },
            _ => None,
        },
    }
}

/// One chunk with `data` in it.
pub open spec fn chunk(data: Seq<u8>) -> Seq<u8> {
    hex(data.len()) + line_end() + data + line_end()
}

/// The chunk of size zero that ends a message.
pub open spec fn last_chunk() -> Seq<u8> {
    seq![48, CR, LF, CR, LF]
}

/// The chunks with each of `pieces` in turn.
pub open spec fn chunks(pieces: Seq<Seq<u8>>) -> Seq<u8>
    decreases pieces.len(),
{
    if pieces.len() == 0 {
        Seq::empty()
    } else {
        chunk(pieces.first()) + chunks(pieces.drop_first())
    }
}

/// A message with `data`, coded in `length` bytes, put before it.
pub open spec fn preceded(
    data: Seq<u8>,
    length: nat,
    rest: Option<(Seq<u8>, nat)>,
) -> Option<(Seq<u8>, nat)> {
    match rest {
        Some((rest_data, rest_length)) => Some((data + rest_data, length + rest_length)),
        None => None,
    }
}

/// A run passes over bytes that do not stop it.
pub proof fn lemma_run_over(s: Seq<u8>, rest: Seq<u8>, stop: spec_fn(u8) -> bool)
    requires
        forall|i: int| 0 <= i < s.len() ==> !stop(#[trigger] s[i]),
    ensures
        run(s + rest, stop) == s.len() + run(rest, stop),
    decreases s.len(),
{
    if s.len() == 0 {
        assert(s + rest =~= rest);
    } else {
        assert forall|i: int| 0 <= i < s.drop_first().len() implies !stop(
            #[trigger] s.drop_first()[i],
        ) by {
            assert(s.drop_first()[i] == s[i + 1]);
        }
        lemma_run_over(s.drop_first(), rest, stop);
        assert((s + rest).drop_first() =~= s.drop_first() + rest);
    }
}

/// Extensions do not influence the size: a size line with an extension gives
/// the same chunk size as the one without it, and is invalid where that one is.
pub proof fn law_extension_is_skipped(field: Seq<u8>, extension: Seq<u8>, rest: Seq<u8>)
    requires
        forall|i: int| 0 <= i < field.len() ==> #[trigger] field[i] != CR && field[i] != SEMICOLON,
        forall|i: int| 0 <= i < extension.len() ==> #[trigger] extension[i] != CR,
    ensures
        ({
            let plain = field + line_end() + rest;
            let extended = field + seq![SEMICOLON] + extension + line_end() + rest;
            match size_field(field) {
                Some(size) => {
                    &&& size_line(plain) == (SizeLine::Complete { size, length: field.len() + 2 })
                    &&& size_line(extended) == (SizeLine::Complete {
                        size,
                        length: field.len() + 1 + extension.len() + 2,
                    })
                },
                None => size_line(plain) is Invalid && size_line(extended) is Invalid,
            }
        }),
{
    let plain = field + line_end() + rest;
    let extended = field + seq![SEMICOLON] + extension + line_end() + rest;
    let after = seq![SEMICOLON] + extension + line_end() + rest;
    let stop_line = |b: u8| b == CR;
    let stop_field = |b: u8| b == CR || b == SEMICOLON;
    lemma_run_over(field, line_end() + rest, stop_line);
    lemma_run_over(field, line_end() + rest, stop_field);
    assert(plain =~= field + (line_end() + rest));
    assert(plain.take(field.len() as int) =~= field);
    lemma_run_over(field, after, stop_field);
    assert(extended =~= field + after);
    assert(extended.take(field.len() as int) =~= field);
    let line = field + seq![SEMICOLON] + extension;
    lemma_run_over(line, line_end() + rest, stop_line);
    assert(extended =~= line + (line_end() + rest));
}

/// A chunk comes before the rest of the message.
#[verifier::rlimit(30)]
proof fn lemma_message_chunk(data: Seq<u8>, rest: Seq<u8>)
    requires
        0 < data.len() <= usize::MAX,
    ensures
        message(None, chunk(data) + rest) == preceded(
            data,
            chunk(data).len(),
            message(None, rest),
        ),
{
    let digits = hex(data.len());
    let size = data.len() as usize;
    let s = chunk(data) + rest;
    let body = data + line_end() + rest;
    lemma_size_field_hex(size);
    lemma_hex_reads_back(data.len());
    law_extension_is_skipped(digits, Seq::empty(), body);
    assert(s =~= digits + line_end() + body);
    let length = digits.len() as int + 2;
    assert(s.skip(length) =~= body);
    assert(body.skip(size as int) =~= line_end() + rest);
    assert(body.skip(size + 2) =~= rest);
    assert(body.take(size as int) =~= data);
    assert(end_of_line(body.skip(size as int)) is Complete);
    assert(message(Some(size), body) == preceded(data, size as nat + 2, message(None, rest)));
}

/// The chunk of size zero ends the message, whatever follows it.
pub proof fn lemma_message_last_chunk(rest: Seq<u8>)
    ensures
        message(None, last_chunk() + rest) == Some((Seq::<u8>::empty(), 5nat)),
{
    let s = last_chunk() + rest;
    lemma_size_field_hex(0);
    law_extension_is_skipped(hex(0), Seq::empty(), line_end() + rest);
    assert(s =~= hex(0) + line_end() + (line_end() + rest));
    assert(s.skip(3) =~= line_end() + rest);
}

/// Chunks follow one another.
pub proof fn lemma_chunks_join(first: Seq<Seq<u8>>, more: Seq<Seq<u8>>)
    ensures
        chunks(first + more) == chunks(first) + chunks(more),
    decreases first.len(),
{
    if first.len() == 0 {
        assert(first + more =~= more);
        assert(chunks(first) + chunks(more) =~= chunks(more));
    } else {
        lemma_chunks_join(first.drop_first(), more);
        assert((first + more).drop_first() =~= first.drop_first() + more);
        assert(chunk(first.first()) + (chunks(first.drop_first()) + chunks(more)) =~= chunk(
            first.first(),
        ) + chunks(first.drop_first()) + chunks(more));
    }
}

/// Chunks come before the rest of the message.
pub proof fn lemma_message_chunks(pieces: Seq<Seq<u8>>, rest: Seq<u8>)
    requires
        forall|i: int| 0 <= i < pieces.len() ==> 0 < (#[trigger] pieces[i]).len() <= usize::MAX,
    ensures
        message(None, chunks(pieces) + rest) == preceded(
            pieces.flatten(),
            chunks(pieces).len(),
            message(None, rest),
        ),
    decreases pieces.len(),
{
    if pieces.len() == 0 {
        assert(chunks(pieces) + rest =~= rest);
        assert(pieces.flatten() =~= Seq::<u8>::empty());
        if let Some((data, _)) = message(None, rest) {
            assert(Seq::<u8>::empty() + data =~= data);
        }
    } else {
        let data = pieces.first();
        let more = pieces.drop_first();
        assert forall|i: int| 0 <= i < more.len() implies 0 < (#[trigger] more[i]).len()
            <= usize::MAX by {
            assert(more[i] == pieces[i + 1]);
        }
        assert(0 < pieces[0].len() <= usize::MAX);
        lemma_message_chunks(more, rest);
        lemma_message_chunk(data, chunks(more) + rest);
        assert(chunks(pieces) + rest =~= chunk(data) + (chunks(more) + rest));
        if let Some((rest_data, _)) = message(None, rest) {
            assert(data + (more.flatten() + rest_data) =~= pieces.flatten() + rest_data);
        }
    }
}

/// Chunks and the chunk of size zero after them are a message with the data of
/// the chunks. What follows is not part of it.
pub proof fn law_chunks_are_message(pieces: Seq<Seq<u8>>, rest: Seq<u8>)
    requires
        forall|i: int| 0 <= i < pieces.len() ==> 0 < (#[trigger] pieces[i]).len() <= usize::MAX,
    ensures
        message(None, chunks(pieces) + last_chunk() + rest) == Some(
            (pieces.flatten(), chunks(pieces).len() + 5),
        ),
{
    lemma_message_chunks(pieces, last_chunk() + rest);
    lemma_message_last_chunk(rest);
    assert(chunks(pieces) + last_chunk() + rest =~= chunks(pieces) + (last_chunk() + rest));
    assert(pieces.flatten() + Seq::<u8>::empty() =~= pieces.flatten());
}

} // verus!
