//! What chunks and messages are, byte by byte, and how data is cut into chunks.
use vstd::prelude::*;

use crate::encoding::{kept, pieces};
use crate::format::{
    chunk, chunks, end_of_line, last_chunk, line_length, lemma_run_over, message, size_line,
    LineEnd, SizeLine,
};
use crate::number::hex;
use crate::text::size_field;

verus! {

/// A line ends with a carriage return and a line feed. Fewer bytes may still
/// become that; any other byte spoils it.
pub proof fn law_end_of_line(s: Seq<u8>)
    ensures
        end_of_line(s) is Complete <==> (s.len() >= 2 && s[0] == 13 && s[1] == 10),
        end_of_line(s) is Partial <==> (s.len() == 0 || (s.len() == 1 && s[0] == 13)),
{
}

/// A size line is a size field, which has no semicolon, or such a field and an
/// extension that starts with a semicolon, and a line end. It gives the size in
/// the field, whatever the extension is, and takes up these bytes. A carriage
/// return that no line feed follows makes it invalid, and so does a field that
/// gives no size. As long as the line feed has not come the line goes on.
pub proof fn law_size_line(field: Seq<u8>, extension: Seq<u8>, next: u8, rest: Seq<u8>)
    requires
        forall|i: int| 0 <= i < field.len() ==> #[trigger] field[i] != 13 && field[i] != 59,
        forall|i: int| 0 <= i < extension.len() ==> #[trigger] extension[i] != 13,
        extension.len() > 0 ==> extension[0] == 59,
    ensures
        size_line(field + extension) is Partial,
        size_line(field + extension + seq![13u8]) is Partial,
        size_line(field + extension + seq![13u8, next] + rest) == match size_field(field) {
            Some(size) if next == 10 => SizeLine::Complete {
                size,
                length: field.len() + extension.len() + 2,
            },
            _ => SizeLine::Invalid,
        },
{
    let stop_line = |b: u8| b == 13u8;
    let stop_field = |b: u8| b == 13u8 || b == 59u8;
    assert(stop_line =~= (|b: u8| b == crate::format::CR));
    assert(stop_field =~= (|b: u8| b == crate::format::CR || b == crate::format::SEMICOLON));
    let line = field + extension;
    let none = Seq::<u8>::empty();
    assert forall|i: int| 0 <= i < line.len() implies !stop_line(#[trigger] line[i]) by {
        if i >= field.len() {
            assert(line[i] == extension[i - field.len()]);
        } else {
            assert(line[i] == field[i]);
        }
    }
    lemma_run_over(line, none, stop_line);
    assert(line + none =~= line);
    lemma_run_over(line, seq![13u8], stop_line);
    let after = seq![13u8, next] + rest;
    let s = line + seq![13u8, next] + rest;
    assert(s =~= line + after);
    lemma_run_over(line, after, stop_line);
    assert(after.first() == 13);
    lemma_run_over(field, extension + after, stop_field);
    assert(s =~= field + (extension + after));
    assert(extension.len() > 0 ==> (extension + after).first() == extension[0]);
    assert(extension.len() == 0 ==> (extension + after).first() == after.first());
    assert(s.take(field.len() as int) =~= field);
}

/// Inside of a chunk a message goes on with the data that is left of the chunk, a
/// line end and the message that follows. Without these it is none.
pub proof fn law_message_in_chunk(size: usize, s: Seq<u8>)
    ensures
        message(Some(size), s) == if s.len() >= size + 2 && s[size as int] == 13 && s[size + 1]
            == 10 {
            match message(None, s.skip(size + 2)) {
                Some((data, length)) => Some(
                    (s.take(size as int) + data, (size + 2 + length) as nat),
                ),
                None => None,
            }
        } else {
            None
        },
{
}

/// A message is a size line, the chunk that it announces, and a message, or a
/// size line with size zero and a line end. Anything else is none.
pub proof fn law_message(s: Seq<u8>)
    ensures
        message(None, s) == match size_line(s) {
            SizeLine::Complete { size, length } => {
                let end = length as int + size;
                if s.len() < end + 2 || s[end] != 13 || s[end + 1] != 10 {
                    None
                } else if size == 0 {
                    Some((Seq::empty(), length + 2))
                } else {
                    match message(None, s.skip(end + 2)) {
                        Some((data, rest)) => Some(
                            (s.subrange(length as int, end) + data, (end + 2 + rest) as nat),
                        ),
                        None => None,
                    }
                }
            },
            _ => None,
        },
{
    if let SizeLine::Complete { size, length } = size_line(s) {
        let z = s.skip(length as int);
        assert(length <= s.len());
        law_message_in_chunk(size, z);
        law_end_of_line(z);
        if z.len() >= size + 2 {
            assert(z[size as int] == s[length as int + size]);
            assert(z[size + 1] == s[length as int + size + 1]);
            assert(z.skip(size + 2) =~= s.skip(length + size + 2));
            assert(z.take(size as int) =~= s.subrange(length as int, length + size));
        }
    }
}

/// A chunk is the length of its data in hexadecimal, a line end, the data and a
/// line end. The chunk that ends a message is a zero and two line ends.
pub proof fn law_chunk(data: Seq<u8>)
    ensures
        chunk(data) == hex(data.len()) + seq![13u8, 10u8] + data + seq![13u8, 10u8],
        last_chunk() == seq![48u8, 13u8, 10u8, 13u8, 10u8],
{
}

/// Chunks follow one another with nothing between them.
pub proof fn law_chunks(parts: Seq<Seq<u8>>)
    ensures
        chunks(parts) == parts.map_values(
            |data: Seq<u8>| hex(data.len()) + seq![13u8, 10u8] + data + seq![13u8, 10u8],
        ).flatten(),
    decreases parts.len(),
{
    let f = |data: Seq<u8>| hex(data.len()) + seq![13u8, 10u8] + data + seq![13u8, 10u8];
    let coded = parts.map_values(f);
    if parts.len() == 0 {
        assert(coded.flatten() =~= Seq::<u8>::empty());
    } else {
        law_chunks(parts.drop_first());
        assert(coded.drop_first() =~= parts.drop_first().map_values(f));
        assert(coded.first() == f(parts.first()));
        law_chunk(parts.first());
        assert(coded.flatten() == coded.first() + coded.drop_first().flatten());
    }
}

/// Data is cut into pieces of the size of a chunk from its start, the last of
/// which may be shorter. The last piece, of whatever size, stays in the buffer
/// unless it is to be flushed.
pub proof fn law_pieces_places(size: nat, flush: bool, data: Seq<u8>)
    requires
        size > 0,
    ensures
        ({
            let all = (data.len() + size - 1) / size as int;
            let count = if flush || all == 0 {
                all
            } else {
                all - 1
            };
            let parts = pieces(size, flush, data);
            &&& parts.len() == count
            &&& forall|i: int|
                0 <= i < count ==> #[trigger] parts[i] == data.subrange(
                    i * size,
                    if (i + 1) * size < data.len() {
                        (i + 1) * size
                    } else {
                        data.len() as int
                    },
                )
            &&& kept(size, flush, data) == data.skip(
                if count * size < data.len() {
                    count * size
                } else {
                    data.len() as int
                },
            )
        }),
    decreases data.len(),
{
    let all = (data.len() + size - 1) / size as int;
    let count = if flush || all == 0 {
        all
    } else {
        all - 1
    };
    let parts = pieces(size, flush, data);
    assert(0 * size == 0) by (nonlinear_arith);
    assert(1 * size == size) by (nonlinear_arith);
    if data.len() > size {
        let rest = data.skip(size as int);
        law_pieces_places(size, flush, rest);
        let more = pieces(size, flush, rest);
        let all1 = (rest.len() + size - 1) / size as int;
        assert(all == all1 + 1) by {
            vstd::arithmetic::div_mod::lemma_div_plus_one(rest.len() + size - 1, size as int);
            assert(size + (rest.len() + size - 1) == data.len() + size - 1);
        }
        assert(all1 > 0) by {
            vstd::arithmetic::div_mod::lemma_div_non_zero(rest.len() + size - 1, size as int);
        }
        let count1 = count - 1;
        assert(parts =~= seq![data.take(size as int)] + more);
        assert forall|i: int| 0 <= i < count implies #[trigger] parts[i] == data.subrange(
            i * size,
            if (i + 1) * size < data.len() {
                (i + 1) * size
            } else {
                data.len() as int
            },
        ) by {
            assert((i + 1) * size == i * size + size) by (nonlinear_arith);
            if i > 0 {
                let j = i - 1;
                assert(parts[i] == more[j]);
                assert(i * size == j * size + size) by (nonlinear_arith)
                    requires
                        i == j + 1,
                ;
                assert((j + 1) * size == i * size) by (nonlinear_arith)
                    requires
                        i == j + 1,
                ;
                assert(j * size >= 0) by (nonlinear_arith)
                    requires
                        j >= 0,
                ;
                lemma_before_end(j, all1, rest.len(), size);
                let a = j * size;
                let b = if (j + 1) * size < rest.len() {
                    (j + 1) * size
                } else {
                    rest.len() as int
                };
                assert(rest.subrange(a, b) =~= data.subrange(a + size, b + size));
            }
        }
        assert(count * size == count1 * size + size) by (nonlinear_arith)
            requires
                count == count1 + 1,
        ;
        assert(count1 * size >= 0) by (nonlinear_arith)
            requires
                count1 >= 0,
        ;
        let b = if count1 * size < rest.len() {
            count1 * size
        } else {
            rest.len() as int
        };
        assert(rest.skip(b) =~= data.skip(b + size));
    } else if data.len() > 0 {
        vstd::arithmetic::div_mod::lemma_fundamental_div_mod_converse(
            data.len() + size - 1,
            size as int,
            1,
            data.len() - 1,
        );
        assert(all == 1);
        assert(data.subrange(0, data.len() as int) =~= data);
        assert(data.skip(0) =~= data);
        assert(data.skip(data.len() as int) =~= Seq::<u8>::empty());
    } else {
        vstd::arithmetic::div_mod::lemma_basic_div(size - 1, size as int);
        assert(all == 0);
        assert(data.skip(0) =~= data);
        assert(data =~= Seq::<u8>::empty());
    }
}

/// No data makes no pieces, whatever the size of a chunk.
pub proof fn law_no_pieces(size: nat, flush: bool)
    ensures
        pieces(size, flush, Seq::empty()).len() == 0,
        kept(size, flush, Seq::empty()).len() == 0,
{
}

/// A piece starts before the end of the data.
proof fn lemma_before_end(j: int, all: int, length: nat, size: nat)
    requires
        0 <= j < all,
        size > 0,
        all == (length + size - 1) / size as int,
    ensures
        j * size < length,
{
    vstd::arithmetic::div_mod::lemma_fundamental_div_mod(length + size - 1, size as int);
    assert(j * size < length) by (nonlinear_arith)
        requires
            0 <= j,
            j <= all - 1,
            size > 0,
            size * all <= length + size - 1,
    ;
}

} // verus!
