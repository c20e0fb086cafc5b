//! The byte layout of a body, as spec functions, and what holds of it.
//!
//! Text is put on the wire as its UTF-8 bytes, unescaped. Every line ends in
//! CRLF, and the closing delimiter is followed by one too.

use vstd::prelude::*;
use vstd::utf8::encode_utf8;

verus! {

/// CRLF, the terminator of every line.
pub open spec fn line_end() -> Seq<u8> {
    encode_utf8("\r\n"@)
}

/// Two dashes and the boundary: what opens every part and the closing line.
pub open spec fn delimiter(boundary: Seq<char>) -> Seq<u8> {
    encode_utf8("--"@) + encode_utf8(boundary)
}

/// The `filename` parameter of the disposition line, if there is a filename.
pub open spec fn filename_param(filename: Option<Seq<char>>) -> Seq<u8> {
    match filename {
        Some(f) => encode_utf8("; filename=\""@) + encode_utf8(f) + encode_utf8("\""@),
        None => Seq::empty(),
    }
}

/// The text of a disposition line, without its line end.
pub open spec fn disposition_text(name: Seq<char>, filename: Option<Seq<char>>) -> Seq<u8> {
    encode_utf8("Content-Disposition: form-data; name=\""@) + encode_utf8(name) + encode_utf8(
        "\""@,
    ) + filename_param(filename)
}

/// The `Content-Disposition` line of a part.
pub open spec fn disposition_line(name: Seq<char>, filename: Option<Seq<char>>) -> Seq<u8> {
    disposition_text(name, filename) + line_end()
}

/// The `Content-Type` line of a part, if there is a content type.
pub open spec fn content_type_line(content_type: Option<Seq<char>>) -> Seq<u8> {
    match content_type {
        Some(t) => encode_utf8("Content-Type: "@) + encode_utf8(t) + line_end(),
        None => Seq::empty(),
    }
}

/// The text of the line of one extra header: key, colon, space, value.
pub open spec fn header_text(header: (Seq<char>, Seq<char>)) -> Seq<u8> {
    encode_utf8(header.0) + encode_utf8(": "@) + encode_utf8(header.1)
}

/// The line of one extra header.
pub open spec fn header_line(header: (Seq<char>, Seq<char>)) -> Seq<u8> {
    header_text(header) + line_end()
}

/// The extra headers, one line each, first to last.
pub open spec fn header_block(headers: Seq<(Seq<char>, Seq<char>)>) -> Seq<u8>
    decreases headers.len(),
{
    if headers.len() == 0 {
        Seq::empty()
    } else {
        header_block(headers.drop_last()) + header_line(headers.last())
    }
}

/// A field as the encoder sees it.
pub ghost struct Field {
    pub name: Seq<char>,
    pub value: Seq<u8>,
    pub filename: Option<Seq<char>>,
    pub content_type: Option<Seq<char>>,
    pub headers: Seq<(Seq<char>, Seq<char>)>,
}

/// Everything of a part that precedes the value: delimiter line, disposition
/// line, content type line, extra headers, blank line.
pub open spec fn part_head(
    boundary: Seq<char>,
    name: Seq<char>,
    filename: Option<Seq<char>>,
    content_type: Option<Seq<char>>,
    headers: Seq<(Seq<char>, Seq<char>)>,
) -> Seq<u8> {
    delimiter(boundary) + line_end() + disposition_line(name, filename) + content_type_line(
        content_type,
    ) + header_block(headers) + line_end()
}

/// One whole part: head, raw value, CRLF.
pub open spec fn part_bytes(boundary: Seq<char>, field: Field) -> Seq<u8> {
    part_head(boundary, field.name, field.filename, field.content_type, field.headers)
        + field.value + line_end()
}

/// The closing delimiter: two dashes, boundary, two dashes, CRLF.
pub open spec fn closing_bytes(boundary: Seq<char>) -> Seq<u8> {
    delimiter(boundary) + encode_utf8("--"@) + line_end()
}

/// The parts of `fields`, first to last.
pub open spec fn parts_bytes(boundary: Seq<char>, fields: Seq<Field>) -> Seq<u8>
    decreases fields.len(),
{
    if fields.len() == 0 {
        Seq::empty()
    } else {
        parts_bytes(boundary, fields.drop_last()) + part_bytes(boundary, fields.last())
    }
}

/// A finished body: the parts and the closing delimiter.
pub open spec fn body_bytes(boundary: Seq<char>, fields: Seq<Field>) -> Seq<u8> {
    parts_bytes(boundary, fields) + closing_bytes(boundary)
}

/// The block of two header lists, one after the other, is the block of the
/// first followed by the block of the second.
pub proof fn lemma_header_block_concat(
    first: Seq<(Seq<char>, Seq<char>)>,
    second: Seq<(Seq<char>, Seq<char>)>,
)
    ensures
        header_block(first + second) == header_block(first) + header_block(second),
    decreases second.len(),
{
    if second.len() == 0 {
        assert(first + second =~= first);
        assert(header_block(first) + header_block(second) =~= header_block(first));
    } else {
        lemma_header_block_concat(first, second.drop_last());
        assert((first + second).drop_last() =~= first + second.drop_last());
        assert((first + second).last() == second.last());
        assert(header_block(first + second) =~= header_block(first) + header_block(second));
    }
}

/// Where the line of header `i` starts within the header block.
pub open spec fn header_offset(headers: Seq<(Seq<char>, Seq<char>)>, i: int) -> int {
    header_block(headers.take(i)).len() as int
}

/// Extra headers stand on the wire in the order supplied: the line of each
/// header stands whole at its offset in the block, and the line of an
/// earlier header ends before the line of a later one starts. Equal keys
/// change nothing.
pub proof fn lemma_header_order(headers: Seq<(Seq<char>, Seq<char>)>, i: int, j: int)
    requires
        0 <= i < j < headers.len(),
    ensures
        header_block(headers).subrange(
            header_offset(headers, i),
            header_offset(headers, i) + header_line(headers[i]).len(),
        ) == header_line(headers[i]),
        header_block(headers).subrange(
            header_offset(headers, j),
            header_offset(headers, j) + header_line(headers[j]).len(),
        ) == header_line(headers[j]),
        header_offset(headers, i) + header_line(headers[i]).len() <= header_offset(headers, j),
        header_offset(headers, j) + header_line(headers[j]).len() <= header_block(headers).len(),
{
    lemma_header_line_at(headers, i);
    lemma_header_line_at(headers, j);
    let upto = headers.take(j);
    assert(upto =~= upto.take(i + 1) + upto.skip(i + 1));
    lemma_header_block_concat(upto.take(i + 1), upto.skip(i + 1));
    assert(upto.take(i + 1) =~= headers.take(i + 1));
    assert(headers.take(i + 1).drop_last() =~= headers.take(i));
}

/// The line of header `i` stands whole at its offset in the header block.
pub proof fn lemma_header_line_at(headers: Seq<(Seq<char>, Seq<char>)>, i: int)
    requires
        0 <= i < headers.len(),
    ensures
        header_offset(headers, i) + header_line(headers[i]).len() <= header_block(headers).len(),
        header_block(headers).subrange(
            header_offset(headers, i),
            header_offset(headers, i) + header_line(headers[i]).len(),
        ) == header_line(headers[i]),
{
    let before = headers.take(i);
    let after = headers.skip(i + 1);
    assert(headers =~= headers.take(i + 1) + after);
    lemma_header_block_concat(headers.take(i + 1), after);
    assert(headers.take(i + 1).drop_last() =~= before);
    assert(headers.take(i + 1).last() == headers[i]);
    let line = header_line(headers[i]);
    assert(header_block(headers) =~= header_block(before) + line + header_block(after));
    assert(header_block(headers).subrange(
        header_offset(headers, i),
        header_offset(headers, i) + line.len(),
    ) =~= line);
}

/// A body with no field is the closing delimiter and nothing else.
pub proof fn lemma_body_without_fields(boundary: Seq<char>)
    ensures
        body_bytes(boundary, Seq::empty()) == closing_bytes(boundary),
{
    assert(body_bytes(boundary, Seq::empty()) =~= closing_bytes(boundary));
}

/// Parts stand in the order in which the fields were given: one more field
/// adds its part behind the parts already there.
pub proof fn lemma_parts_append(boundary: Seq<char>, fields: Seq<Field>, field: Field)
    ensures
        parts_bytes(boundary, fields.push(field)) == parts_bytes(boundary, fields) + part_bytes(
            boundary,
            field,
        ),
{
    assert(fields.push(field).drop_last() =~= fields);
}

/// The parts of two field lists, one after the other, are the parts of the
/// first followed by the parts of the second.
pub proof fn lemma_parts_concat(boundary: Seq<char>, first: Seq<Field>, second: Seq<Field>)
    ensures
        parts_bytes(boundary, first + second) == parts_bytes(boundary, first) + parts_bytes(
            boundary,
            second,
        ),
    decreases second.len(),
{
    if second.len() == 0 {
        assert(first + second =~= first);
        assert(parts_bytes(boundary, first) + parts_bytes(boundary, second) =~= parts_bytes(
            boundary,
            first,
        ));
    } else {
        lemma_parts_concat(boundary, first, second.drop_last());
        assert((first + second).drop_last() =~= first + second.drop_last());
        assert((first + second).last() == second.last());
        assert(parts_bytes(boundary, first + second) =~= parts_bytes(boundary, first)
            + parts_bytes(boundary, second));
    }
}

/// Where the part of field `i` starts within the body.
pub open spec fn part_offset(boundary: Seq<char>, fields: Seq<Field>, i: int) -> int {
    parts_bytes(boundary, fields.take(i)).len() as int
}

/// Fields stand on the wire in the order given: the part of each field
/// stands whole at its offset in the body, the part of the next field
/// starts where it ends, and the closing delimiter follows the last part.
pub proof fn lemma_part_at(boundary: Seq<char>, fields: Seq<Field>, i: int)
    requires
        0 <= i < fields.len(),
    ensures
        part_offset(boundary, fields, i + 1) == part_offset(boundary, fields, i) + part_bytes(
            boundary,
            fields[i],
        ).len(),
        part_offset(boundary, fields, i + 1) <= part_offset(
            boundary,
            fields,
            fields.len() as int,
        ),
        body_bytes(boundary, fields).subrange(
            part_offset(boundary, fields, i),
            part_offset(boundary, fields, i + 1),
        ) == part_bytes(boundary, fields[i]),
        body_bytes(boundary, fields).skip(part_offset(boundary, fields, fields.len() as int))
            == closing_bytes(boundary),
{
    let before = fields.take(i);
    let after = fields.skip(i + 1);
    let part = part_bytes(boundary, fields[i]);
    assert(fields.take(i + 1) =~= before.push(fields[i]));
    lemma_parts_append(boundary, before, fields[i]);
    assert(fields =~= fields.take(i + 1) + after);
    lemma_parts_concat(boundary, fields.take(i + 1), after);
    assert(fields.take(fields.len() as int) =~= fields);
    let body = body_bytes(boundary, fields);
    assert(body =~= parts_bytes(boundary, before) + part + parts_bytes(boundary, after)
        + closing_bytes(boundary));
    assert(body.subrange(
        part_offset(boundary, fields, i),
        part_offset(boundary, fields, i + 1),
    ) =~= part);
    assert(body.skip(part_offset(boundary, fields, fields.len() as int)) =~= closing_bytes(
        boundary,
    ));
}

/// Within its part the value stands raw and whole, right behind the head,
/// and only the line end follows it.
pub proof fn lemma_value_in_part(boundary: Seq<char>, field: Field)
    ensures
        ({
            let head = part_head(
                boundary,
                field.name,
                field.filename,
                field.content_type,
                field.headers,
            );
            let part = part_bytes(boundary, field);
            &&& part.take(head.len() as int) == head
            &&& part.subrange(head.len() as int, (head.len() + field.value.len()) as int) == field.value
            &&& part.skip((head.len() + field.value.len()) as int) == line_end()
        }),
{
    let head = part_head(boundary, field.name, field.filename, field.content_type, field.headers);
    let part = part_bytes(boundary, field);
    assert(part.take(head.len() as int) =~= head);
    assert(part.subrange(head.len() as int, (head.len() + field.value.len()) as int) =~= field.value);
    assert(part.skip((head.len() + field.value.len()) as int) =~= line_end());
}

} // verus!
