//! Reading a body back, as spec functions: what a receiver that follows
//! the framing finds in a body, and which fields come through unchanged.
//!
//! Nothing here runs; it is what the round trip is stated over.

use crate::wire::{closing_bytes, delimiter, header_text, line_end, Field};
use vstd::prelude::*;
use vstd::utf8::{decode_utf8, encode_utf8};

verus! {

/// Where `mark` first occurs in `bytes`, if it does.
pub open spec fn find(bytes: Seq<u8>, mark: Seq<u8>) -> Option<int>
    decreases bytes.len(),
{
    if mark.is_prefix_of(bytes) {
        Some(0)
    } else if bytes.len() == 0 {
        None
    } else {
        match find(bytes.skip(1), mark) {
            Some(i) => Some(i + 1),
            None => None,
        }
    }
}

/// `bytes` cut at the first occurrence of `mark`: what precedes it and what
/// follows it.
pub open spec fn cut(bytes: Seq<u8>, mark: Seq<u8>) -> Option<(Seq<u8>, Seq<u8>)> {
    match find(bytes, mark) {
        Some(i) => Some((bytes.take(i), bytes.skip(i + mark.len()))),
        None => None,
    }
}

/// The name and the filename that a disposition line holds, the line taken
/// without its line end.
pub open spec fn read_disposition(line: Seq<u8>) -> Option<(Seq<char>, Option<Seq<char>>)> {
    let lead = encode_utf8("Content-Disposition: form-data; name=\""@);
    let more = encode_utf8("; filename=\""@);
    let quote = encode_utf8("\""@);
    if !lead.is_prefix_of(line) {
        None
    } else {
        match cut(line.skip(lead.len() as int), quote) {
            None => None,
            Some((name, tail)) => if tail.len() == 0 {
                Some((decode_utf8(name), None))
            } else if !more.is_prefix_of(tail) {
                None
            } else {
                match cut(tail.skip(more.len() as int), quote) {
                    None => None,
                    Some((filename, end)) => if end.len() == 0 {
                        Some((decode_utf8(name), Some(decode_utf8(filename))))
                    } else {
                        None
                    },
                }
            },
        }
    }
}

/// The content type that a line holds, if it is a content type line; the
/// line taken without its line end.
pub open spec fn read_content_type(line: Seq<u8>) -> Option<Seq<char>> {
    let lead = encode_utf8("Content-Type: "@);
    if lead.is_prefix_of(line) {
        Some(decode_utf8(line.skip(lead.len() as int)))
    } else {
        None
    }
}

/// The key and the value that a header line holds, the line taken without
/// its line end.
pub open spec fn read_header(line: Seq<u8>) -> Option<(Seq<char>, Seq<char>)> {
    match cut(line, encode_utf8(": "@)) {
        Some((key, value)) => Some((decode_utf8(key), decode_utf8(value))),
        None => None,
    }
}

/// The header lines up to the blank line, and what follows the blank line.
pub open spec fn read_headers(bytes: Seq<u8>) -> Option<(Seq<(Seq<char>, Seq<char>)>, Seq<u8>)>
    decreases bytes.len(),
{
    match cut(bytes, line_end()) {
        None => None,
        Some((line, rest)) => if line.len() == 0 {
            Some((Seq::empty(), rest))
        } else if rest.len() >= bytes.len() {
            None
        } else {
            match (read_header(line), read_headers(rest)) {
                (Some(header), Some((headers, after))) => Some((seq![header] + headers, after)),
                _ => None,
            }
        },
    }
}

/// The field that the part at the start of `bytes` holds, and what follows
/// the part. The value ends where a line end followed by the delimiter
/// first occurs.
#[verifier::opaque]
pub open spec fn read_part(boundary: Seq<char>, bytes: Seq<u8>) -> Option<(Field, Seq<u8>)> {
    let opening = delimiter(boundary) + line_end();
    if !opening.is_prefix_of(bytes) {
        None
    } else {
        match cut(bytes.skip(opening.len() as int), line_end()) {
            None => None,
            Some((first, below)) => match (read_disposition(first), cut(below, line_end())) {
                (Some((name, filename)), Some((second, further))) => {
                    let content_type = read_content_type(second);
                    let block = if content_type is Some {
                        further
                    } else {
                        below
                    };
                    match read_headers(block) {
                        None => None,
                        Some((headers, data)) => match cut(
                            data,
                            line_end() + delimiter(boundary),
                        ) {
                            None => None,
                            Some((value, after)) => Some(
                                (
                                    Field { name, value, filename, content_type, headers },
                                    delimiter(boundary) + after,
                                ),
                            ),
                        },
                    }
                },
                _ => None,
            },
        }
    }
}

/// The fields that a body holds, first to last.
pub open spec fn read_body(boundary: Seq<char>, bytes: Seq<u8>) -> Option<Seq<Field>>
    decreases bytes.len(),
{
    if bytes == closing_bytes(boundary) {
        Some(Seq::empty())
    } else {
        match read_part(boundary, bytes) {
            None => None,
            Some((field, rest)) => if rest.len() >= bytes.len() {
                None
            } else {
                match read_body(boundary, rest) {
                    Some(fields) => Some(seq![field] + fields),
                    None => None,
                }
            },
        }
    }
}

/// `mark` does not start at any of the first `n` positions of `bytes`.
pub open spec fn absent_before(bytes: Seq<u8>, mark: Seq<u8>, n: int) -> bool {
    forall|i: int| 0 <= i < n ==> !mark.is_prefix_of(#[trigger] bytes.skip(i))
}

/// No byte of `bytes` is `b`.
pub open spec fn free_of(bytes: Seq<u8>, b: u8) -> bool {
    forall|i: int| 0 <= i < bytes.len() ==> #[trigger] bytes[i] != b
}

/// A text that a quoted parameter can hold: no quote and no carriage
/// return among its bytes.
pub open spec fn is_quotable(text: Seq<char>) -> bool {
    &&& free_of(encode_utf8(text), 34)
    &&& free_of(encode_utf8(text), 13)
}

/// A text that can end a line: no carriage return among its bytes.
pub open spec fn is_line_text(text: Seq<char>) -> bool {
    free_of(encode_utf8(text), 13)
}

/// A header that reads back as it was written: no colon in the key, no
/// carriage return in either.
pub open spec fn is_clean_header(header: (Seq<char>, Seq<char>)) -> bool {
    &&& free_of(encode_utf8(header.0), 58)
    &&& free_of(encode_utf8(header.0), 13)
    &&& free_of(encode_utf8(header.1), 13)
}

/// A field that reads back as it was written. Nothing is escaped, so the
/// name and the filename hold no quote, no text holds a carriage return,
/// and no header key holds a colon. Without a content type, the first
/// extra header does not pass for one. A line end followed by the delimiter
/// does not occur in the value, nor does it start in the value and end in the
/// line end and delimiter that follow it.
pub open spec fn is_clean_field(boundary: Seq<char>, field: Field) -> bool {
    &&& is_quotable(field.name)
    &&& field.filename matches Some(f) ==> is_quotable(f)
    &&& field.content_type matches Some(t) ==> is_line_text(t)
    &&& forall|i: int| 0 <= i < field.headers.len() ==> is_clean_header(#[trigger] field.headers[i])
    &&& field.content_type is None && field.headers.len() > 0 ==> read_content_type(
        header_text(field.headers[0]),
    ) is None
    &&& absent_before(
        field.value + (line_end() + delimiter(boundary)),
        line_end() + delimiter(boundary),
        field.value.len() as int,
    )
}

} // verus!
