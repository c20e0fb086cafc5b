//! The round trip: reading an encoded body gives back the fields that were
//! encoded.

use crate::concat::{
    lemma_fronts_differ, lemma_prefix_chain, lemma_regroup, lemma_skip_front, lemma_split_front,
};
use crate::read::{
    absent_before, cut, find, free_of, is_clean_field, is_clean_header, is_line_text,
    is_quotable, read_body, read_content_type, read_disposition, read_header, read_headers,
    read_part,
};
use crate::wire::{
    body_bytes, closing_bytes, content_type_line, delimiter, disposition_line, disposition_text,
    filename_param, header_block, header_line, header_text, lemma_header_block_concat,
    lemma_parts_concat, line_end, part_bytes, part_head, parts_bytes, Field,
};
use vstd::prelude::*;
use vstd::utf8::{encode_utf8, encode_utf8_decode_utf8, is_ascii_chars_encode_utf8};

verus! {

/// `mark` is first found where it occurs and did not occur before.
proof fn lemma_find(bytes: Seq<u8>, mark: Seq<u8>, n: int)
    requires
        0 <= n <= bytes.len(),
        absent_before(bytes, mark, n),
        mark.is_prefix_of(bytes.skip(n)),
    ensures
        find(bytes, mark) == Some(n),
    decreases n,
{
    assert(bytes.skip(0) =~= bytes);
    if n > 0 {
        let tail = bytes.skip(1);
        assert forall|i: int| 0 <= i < n - 1 implies !mark.is_prefix_of(
            #[trigger] tail.skip(i),
        ) by {
            assert(tail.skip(i) =~= bytes.skip(i + 1));
        }
        assert(tail.skip(n - 1) =~= bytes.skip(n));
        lemma_find(tail, mark, n - 1);
    }
}

/// Cutting `front + mark + rest` at `mark` gives `front` and `rest`, where
/// `mark` does not occur earlier.
proof fn lemma_cut(front: Seq<u8>, mark: Seq<u8>, rest: Seq<u8>)
    requires
        absent_before(front + mark, mark, front.len() as int),
    ensures
        cut(front + mark + rest, mark) == Some((front, rest)),
{
    let bytes = front + mark + rest;
    let n = front.len() as int;
    assert forall|i: int| 0 <= i < n implies !mark.is_prefix_of(#[trigger] bytes.skip(i)) by {
        let short = (front + mark).skip(i);
        assert(!mark.is_prefix_of(short));
        if mark.is_prefix_of(bytes.skip(i)) {
            assert(mark =~= bytes.skip(i).subrange(0, mark.len() as int));
            assert(short.subrange(0, mark.len() as int) =~= bytes.skip(i).subrange(
                0,
                mark.len() as int,
            ));
        }
    }
    assert(bytes.skip(n) =~= mark + rest);
    assert(mark =~= (mark + rest).subrange(0, mark.len() as int));
    lemma_find(bytes, mark, n);
    assert(bytes.take(n) =~= front);
    assert(bytes.skip(n + mark.len()) =~= rest);
}

/// A mark cannot start inside a text that is free of the mark's first byte.
proof fn lemma_absent_where_free(front: Seq<u8>, mark: Seq<u8>)
    requires
        mark.len() > 0,
        free_of(front, mark[0]),
    ensures
        absent_before(front + mark, mark, front.len() as int),
{
    assert forall|i: int| 0 <= i < front.len() implies !mark.is_prefix_of(
        #[trigger] (front + mark).skip(i),
    ) by {
        let at = (front + mark).skip(i);
        assert(at[0] == front[i]);
        if mark.is_prefix_of(at) {
            assert(at.subrange(0, mark.len() as int)[0] == mark[0]);
        }
    }
}

/// The marks of the format, byte by byte.
proof fn lemma_marks()
    ensures
        line_end() =~= seq![13u8, 10u8],
        encode_utf8("\""@) =~= seq![34u8],
        encode_utf8(": "@) =~= seq![58u8, 32u8],
        encode_utf8("--"@) =~= seq![45u8, 45u8],
        encode_utf8("Content-Type: "@).len() == 14,
{
    reveal_strlit("\r\n");
    reveal_strlit("\"");
    reveal_strlit(": ");
    reveal_strlit("--");
    reveal_strlit("Content-Type: ");
    is_ascii_chars_encode_utf8("\r\n"@);
    is_ascii_chars_encode_utf8("\""@);
    is_ascii_chars_encode_utf8(": "@);
    is_ascii_chars_encode_utf8("--"@);
    is_ascii_chars_encode_utf8("Content-Type: "@);
}

/// A disposition line reads back as the name and the filename it was made
/// of, where both can stand between quotes.
proof fn lemma_read_disposition(name: Seq<char>, filename: Option<Seq<char>>)
    requires
        is_quotable(name),
        filename matches Some(f) ==> is_quotable(f),
    ensures
        read_disposition(disposition_text(name, filename)) == Some((name, filename)),
{
    lemma_marks();
    let lead = encode_utf8("Content-Disposition: form-data; name=\""@);
    let more = encode_utf8("; filename=\""@);
    let quote = encode_utf8("\""@);
    let tail = filename_param(filename);
    let line = lead + encode_utf8(name) + quote + tail;
    assert(lead =~= line.subrange(0, lead.len() as int));
    assert(line.skip(lead.len() as int) =~= encode_utf8(name) + quote + tail);
    lemma_absent_where_free(encode_utf8(name), quote);
    lemma_cut(encode_utf8(name), quote, tail);
    encode_utf8_decode_utf8(name);
    match filename {
        None => {},
        Some(f) => {
            assert(tail == more + encode_utf8(f) + quote);
            assert(more =~= tail.subrange(0, more.len() as int));
            assert(tail.skip(more.len() as int) =~= encode_utf8(f) + quote + Seq::<u8>::empty());
            lemma_absent_where_free(encode_utf8(f), quote);
            lemma_cut(encode_utf8(f), quote, Seq::<u8>::empty());
            encode_utf8_decode_utf8(f);
        },
    }
}

/// A clean header's line reads back as the header.
proof fn lemma_read_header(header: (Seq<char>, Seq<char>))
    requires
        is_clean_header(header),
    ensures
        read_header(header_text(header)) == Some(header),
{
    lemma_marks();
    lemma_absent_where_free(encode_utf8(header.0), encode_utf8(": "@));
    lemma_cut(encode_utf8(header.0), encode_utf8(": "@), encode_utf8(header.1));
    encode_utf8_decode_utf8(header.0);
    encode_utf8_decode_utf8(header.1);
}

/// A line free of carriage returns, followed by a line end and anything,
/// is cut off at that line end.
proof fn lemma_cut_line(line: Seq<u8>, rest: Seq<u8>)
    requires
        free_of(line, 13),
    ensures
        cut(line + line_end() + rest, line_end()) == Some((line, rest)),
{
    lemma_marks();
    lemma_absent_where_free(line, line_end());
    lemma_cut(line, line_end(), rest);
}

/// A block of clean headers, closed by a blank line, reads back as the
/// headers, in order, and leaves what follows the blank line.
proof fn lemma_read_headers(headers: Seq<(Seq<char>, Seq<char>)>, rest: Seq<u8>)
    requires
        forall|i: int| 0 <= i < headers.len() ==> is_clean_header(#[trigger] headers[i]),
    ensures
        read_headers(header_block(headers) + line_end() + rest) == Some((headers, rest)),
    decreases headers.len(),
{
    let bytes = header_block(headers) + line_end() + rest;
    lemma_marks();
    if headers.len() == 0 {
        assert(bytes =~= Seq::<u8>::empty() + line_end() + rest);
        lemma_cut_line(Seq::<u8>::empty(), rest);
        assert(headers =~= Seq::empty());
    } else {
        let first = headers[0];
        let others = headers.skip(1);
        let text = header_text(first);
        let after = header_block(others) + line_end() + rest;
        lemma_header_block_front(headers);
        lemma_regroup(text + line_end(), header_block(others), line_end());
        lemma_regroup(text + line_end(), header_block(others) + line_end(), rest);
        lemma_regroup(header_block(others), line_end(), rest);
        assert(bytes == text + line_end() + after);
        lemma_header_text_free(first);
        lemma_cut_line(text, after);
        lemma_read_header(first);
        assert forall|i: int| 0 <= i < others.len() implies is_clean_header(
            #[trigger] others[i],
        ) by {
            assert(others[i] == headers[i + 1]);
        }
        lemma_read_headers(others, rest);
        assert(headers =~= seq![first] + others);
        assert(text.len() >= 2);
        assert(after.len() < bytes.len());
    }
}

/// The fixed texts of the format hold no carriage return.
proof fn lemma_leads_free()
    ensures
        free_of(encode_utf8("Content-Disposition: form-data; name=\""@), 13),
        free_of(encode_utf8("; filename=\""@), 13),
        free_of(encode_utf8("Content-Type: "@), 13),
        free_of(encode_utf8("\""@), 13),
{
    reveal_strlit("Content-Disposition: form-data; name=\"");
    reveal_strlit("; filename=\"");
    reveal_strlit("Content-Type: ");
    reveal_strlit("\"");
    is_ascii_chars_encode_utf8("Content-Disposition: form-data; name=\""@);
    is_ascii_chars_encode_utf8("; filename=\""@);
    is_ascii_chars_encode_utf8("Content-Type: "@);
    is_ascii_chars_encode_utf8("\""@);
}

/// The text of a disposition line holds no carriage return, where the name
/// and the filename hold none.
proof fn lemma_disposition_text_free(name: Seq<char>, filename: Option<Seq<char>>)
    requires
        is_quotable(name),
        filename matches Some(f) ==> is_quotable(f),
    ensures
        free_of(disposition_text(name, filename), 13),
{
    lemma_leads_free();
}

/// The text of a clean header's line holds no carriage return.
proof fn lemma_header_text_free(header: (Seq<char>, Seq<char>))
    requires
        is_clean_header(header),
    ensures
        free_of(header_text(header), 13),
{
    lemma_marks();
}

/// The block of a non-empty header list starts with the line of its first
/// header.
proof fn lemma_header_block_front(headers: Seq<(Seq<char>, Seq<char>)>)
    requires
        headers.len() > 0,
    ensures
        header_block(headers) == header_text(headers[0]) + line_end() + header_block(
            headers.skip(1),
        ),
{
    let head = headers[0];
    let others = headers.skip(1);
    assert(headers =~= seq![head] + others);
    lemma_header_block_concat(seq![head], others);
    assert(header_block(Seq::<(Seq<char>, Seq<char>)>::empty()) =~= Seq::<u8>::empty());
    assert(seq![head].last() == head);
    assert(seq![head].drop_last() =~= Seq::<(Seq<char>, Seq<char>)>::empty());
    assert(header_block(seq![head]) =~= header_line(head));
    assert(header_block(headers) =~= header_text(head) + line_end() + header_block(others));
}

/// The line below the disposition line tells whether there is a content
/// type, and the header block starts behind it or in its place.
proof fn lemma_read_type_line(
    content_type: Option<Seq<char>>,
    headers: Seq<(Seq<char>, Seq<char>)>,
    data: Seq<u8>,
)
    requires
        content_type matches Some(t) ==> is_line_text(t),
        forall|i: int| 0 <= i < headers.len() ==> is_clean_header(#[trigger] headers[i]),
        content_type is None && headers.len() > 0 ==> read_content_type(header_text(headers[0]))
            is None,
    ensures
        ({
            let block = header_block(headers) + line_end() + data;
            let below = content_type_line(content_type) + block;
            match cut(below, line_end()) {
                Some((second, further)) => {
                    &&& read_content_type(second) == content_type
                    &&& content_type is Some ==> further == block
                    &&& content_type is None ==> below == block
                },
                None => false,
            }
        }),
{
    let crlf = line_end();
    let block = header_block(headers) + crlf + data;
    let below = content_type_line(content_type) + block;
    let lead = encode_utf8("Content-Type: "@);
    match content_type {
        Some(t) => {
            let second = lead + encode_utf8(t);
            assert(below =~= second + crlf + block);
            assert(free_of(second, 13)) by {
                lemma_leads_free();
            }
            lemma_cut_line(second, block);
            assert(lead =~= second.subrange(0, lead.len() as int));
            assert(second.skip(lead.len() as int) =~= encode_utf8(t));
            encode_utf8_decode_utf8(t);
        },
        None => {
            assert(below =~= block);
            if headers.len() == 0 {
                assert(header_block(headers) =~= Seq::<u8>::empty());
                assert(below =~= Seq::<u8>::empty() + crlf + data);
                lemma_cut_line(Seq::<u8>::empty(), data);
                assert(lead.len() == 14) by {
                    lemma_marks();
                }
            } else {
                let head = headers[0];
                let further = header_block(headers.skip(1)) + crlf + data;
                lemma_header_block_front(headers);
                assert(below =~= header_text(head) + crlf + further);
                lemma_header_text_free(head);
                lemma_cut_line(header_text(head), further);
            }
        },
    }
}

/// How a part followed by more bytes is laid out, in the reader's terms.
proof fn lemma_part_layout(boundary: Seq<char>, field: Field, more: Seq<u8>)
    ensures
        ({
            let opening = delimiter(boundary) + line_end();
            let mark = line_end() + delimiter(boundary);
            let data = field.value + mark + more;
            let below = content_type_line(field.content_type) + (header_block(field.headers)
                + line_end() + data);
            let bytes = part_bytes(boundary, field) + delimiter(boundary) + more;
            &&& opening.is_prefix_of(bytes)
            &&& bytes.skip(opening.len() as int) == disposition_text(field.name, field.filename)
                + line_end() + below
        }),
{
    let crlf = line_end();
    let mark_end = delimiter(boundary);
    let opening = mark_end + crlf;
    let first = disposition_text(field.name, field.filename);
    let type_line = content_type_line(field.content_type);
    let block = header_block(field.headers);
    let value = field.value;
    let data = value + (crlf + mark_end) + more;
    let lower = block + crlf + data;
    let below = type_line + lower;
    let head = part_head(boundary, field.name, field.filename, field.content_type, field.headers);
    let bytes = part_bytes(boundary, field) + mark_end + more;
    assert(disposition_line(field.name, field.filename) == first + crlf);
    assert(head == opening + (first + crlf) + type_line + block + crlf);
    assert(bytes == head + value + crlf + mark_end + more);
    // the tail, from the value on
    lemma_regroup(head + value, crlf, mark_end);
    lemma_regroup(head, value, crlf + mark_end);
    lemma_regroup(head, value + (crlf + mark_end), more);
    assert(bytes == head + data);
    // the header block and what follows it
    let upper = opening + (first + crlf) + type_line;
    lemma_regroup(upper + block, crlf, data);
    lemma_regroup(upper, block, crlf + data);
    lemma_regroup(block, crlf, data);
    assert(bytes == upper + lower);
    // the lines above it
    lemma_regroup(opening + (first + crlf), type_line, lower);
    lemma_regroup(opening, first + crlf, below);
    lemma_regroup(first, crlf, below);
    lemma_regroup(first + crlf, below, Seq::<u8>::empty());
    assert(bytes == opening + (first + crlf + below));
    lemma_skip_front(opening, first + crlf + below);
}

/// A clean field's part, followed by the delimiter and anything, reads back
/// as the field and leaves the delimiter and what followed it.
proof fn lemma_read_part(boundary: Seq<char>, field: Field, more: Seq<u8>)
    requires
        is_clean_field(boundary, field),
    ensures
        read_part(boundary, part_bytes(boundary, field) + delimiter(boundary) + more) == Some(
            (field, delimiter(boundary) + more),
        ),
{
    reveal(read_part);
    let mark = line_end() + delimiter(boundary);
    let data = field.value + mark + more;
    let block = header_block(field.headers) + line_end() + data;
    let below = content_type_line(field.content_type) + block;
    let first = disposition_text(field.name, field.filename);
    lemma_part_layout(boundary, field, more);
    lemma_disposition_text_free(field.name, field.filename);
    lemma_cut_line(first, below);
    lemma_read_disposition(field.name, field.filename);
    lemma_read_type_line(field.content_type, field.headers, data);
    lemma_read_headers(field.headers, data);
    lemma_cut(field.value, mark, more);
}

/// The parts of a non-empty field list start with the part of its first
/// field.
proof fn lemma_parts_front(boundary: Seq<char>, fields: Seq<Field>)
    requires
        fields.len() > 0,
    ensures
        parts_bytes(boundary, fields) == part_bytes(boundary, fields[0]) + parts_bytes(
            boundary,
            fields.skip(1),
        ),
{
    let first = fields[0];
    assert(fields =~= seq![first] + fields.skip(1));
    lemma_parts_concat(boundary, seq![first], fields.skip(1));
    assert(seq![first].drop_last() =~= Seq::<Field>::empty());
    assert(seq![first].last() == first);
    assert(parts_bytes(boundary, Seq::<Field>::empty()) =~= Seq::<u8>::empty());
    assert(parts_bytes(boundary, seq![first]) =~= part_bytes(boundary, first));
}

/// Every body starts with the delimiter. A body with a field is the part
/// of the first field followed by the body of the others, and starts with
/// the delimiter line.
proof fn lemma_body_front(boundary: Seq<char>, fields: Seq<Field>)
    ensures
        delimiter(boundary).is_prefix_of(body_bytes(boundary, fields)),
        fields.len() > 0 ==> body_bytes(boundary, fields) == part_bytes(boundary, fields[0])
            + body_bytes(boundary, fields.skip(1)),
        fields.len() > 0 ==> (delimiter(boundary) + line_end()).is_prefix_of(
            body_bytes(boundary, fields),
        ),
    decreases fields.len(),
{
    let mark = delimiter(boundary);
    let closing = closing_bytes(boundary);
    if fields.len() == 0 {
        assert(parts_bytes(boundary, fields) + closing =~= closing);
        lemma_regroup(mark, encode_utf8("--"@), line_end());
        lemma_skip_front(mark, encode_utf8("--"@) + line_end());
    } else {
        let part = part_bytes(boundary, fields[0]);
        let others = fields.skip(1);
        let rest = body_bytes(boundary, others);
        lemma_parts_front(boundary, fields);
        lemma_regroup(part, parts_bytes(boundary, others), closing);
        lemma_body_front(boundary, others);
        lemma_split_front(mark, rest);
        let more = rest.skip(mark.len() as int);
        lemma_regroup(part, mark, more);
        lemma_part_layout(boundary, fields[0], more);
        lemma_skip_front(mark, line_end());
        lemma_prefix_chain(mark, mark + line_end(), body_bytes(boundary, fields));
    }
}

/// A body with a field is not the closing delimiter: behind the
/// delimiter the one has a line end, the other two dashes.
proof fn lemma_body_is_not_closing(boundary: Seq<char>, fields: Seq<Field>)
    requires
        fields.len() > 0,
    ensures
        body_bytes(boundary, fields) != closing_bytes(boundary),
        body_bytes(boundary, fields.skip(1)).len() < body_bytes(boundary, fields).len(),
{
    lemma_body_front(boundary, fields);
    let dashes = encode_utf8("--"@);
    assert(line_end().len() > 0 && dashes.len() > 0 && line_end()[0] != dashes[0]) by {
        lemma_marks();
    }
    lemma_fronts_differ(
        delimiter(boundary),
        line_end(),
        dashes,
        body_bytes(boundary, fields),
        line_end(),
    );
    assert(part_bytes(boundary, fields[0]).len() >= line_end().len());
}

/// One step of reading a body: a part, then the body that follows it.
proof fn lemma_read_body_step(
    boundary: Seq<char>,
    bytes: Seq<u8>,
    field: Field,
    rest: Seq<u8>,
    fields: Seq<Field>,
)
    requires
        bytes != closing_bytes(boundary),
        read_part(boundary, bytes) == Some((field, rest)),
        rest.len() < bytes.len(),
        read_body(boundary, rest) == Some(fields),
    ensures
        read_body(boundary, bytes) == Some(seq![field] + fields),
{
}

/// Round trip: where every field is clean, reading an encoded body gives
/// the fields that were encoded, each as it was, in the order given.
pub proof fn lemma_round_trip(boundary: Seq<char>, fields: Seq<Field>)
    requires
        forall|i: int| 0 <= i < fields.len() ==> is_clean_field(boundary, #[trigger] fields[i]),
    ensures
        read_body(boundary, body_bytes(boundary, fields)) == Some(fields),
    decreases fields.len(),
{
    let body = body_bytes(boundary, fields);
    let mark = delimiter(boundary);
    if fields.len() == 0 {
        assert(body =~= closing_bytes(boundary));
    } else {
        let first = fields[0];
        let others = fields.skip(1);
        let rest = body_bytes(boundary, others);
        let part = part_bytes(boundary, first);
        let more = rest.skip(mark.len() as int);
        lemma_body_front(boundary, fields);
        lemma_body_front(boundary, others);
        lemma_body_is_not_closing(boundary, fields);
        lemma_split_front(mark, rest);
        lemma_regroup(part, mark, more);
        assert(is_clean_field(boundary, first));
        lemma_read_part(boundary, first, more);
        assert forall|i: int| 0 <= i < others.len() implies is_clean_field(
            boundary,
            #[trigger] others[i],
        ) by {
            assert(others[i] == fields[i + 1]);
        }
        lemma_round_trip(boundary, others);
        lemma_read_body_step(boundary, body, first, rest, others);
        assert(seq![first] + others =~= fields);
    }
}

} // verus!
