//! Executable framing: the bytes of a part's head and of the closing
//! delimiter, built in memory.

use crate::wire::{
    closing_bytes, content_type_line, delimiter, disposition_line, filename_param, header_block,
    header_line, line_end, part_head,
};
use vstd::prelude::*;
use vstd::utf8::encode_utf8;

verus! {

/// The text of an optional string.
pub open spec fn text_of(s: Option<&str>) -> Option<Seq<char>> {
    match s {
        Some(t) => Some(t@),
        None => None,
    }
}

/// The header list as pairs of texts; no list is the empty list.
pub open spec fn pairs_of(headers: Seq<(&str, &str)>) -> Seq<(Seq<char>, Seq<char>)> {
    Seq::new(headers.len(), |i: int| (headers[i].0@, headers[i].1@))
}

/// The texts of an optional header list; no list is the empty list.
pub open spec fn headers_of(headers: Option<Vec<(&str, &str)>>) -> Seq<(Seq<char>, Seq<char>)> {
    match headers {
        Some(list) => pairs_of(list@),
        None => Seq::empty(),
    }
}

/// The block of the first `n + 1` headers is the block of the first `n`
/// followed by the line of header `n`.
proof fn lemma_header_block_step(headers: Seq<(Seq<char>, Seq<char>)>, n: int)
    requires
        0 <= n < headers.len(),
    ensures
        header_block(headers.take(n + 1)) == header_block(headers.take(n)) + header_line(
            headers[n],
        ),
{
    assert(headers.take(n + 1).drop_last() =~= headers.take(n));
}

/// Appends the UTF-8 bytes of `text` to `out`.
fn put(out: &mut Vec<u8>, text: &str)
    ensures
        final(out)@ == old(out)@ + encode_utf8(text@),
{
    out.extend_from_slice(text.as_bytes());
    assert(out@ =~= old(out)@ + encode_utf8(text@));
}

/// Appends one line for each header, first to last.
fn put_headers(out: &mut Vec<u8>, headers: &[(&str, &str)])
    ensures
        final(out)@ == old(out)@ + header_block(pairs_of(headers@)),
{
    let ghost pairs = pairs_of(headers@);
    let mut i: usize = 0;
    assert(pairs.take(0) =~= Seq::empty());
    assert(out@ =~= old(out)@ + header_block(pairs.take(0)));
    while i < headers.len()
        invariant
            i <= headers.len(),
            pairs == pairs_of(headers@),
            out@ == old(out)@ + header_block(pairs.take(i as int)),
        decreases headers.len() - i,
    {
        let ghost before = out@;
        let (key, value) = headers[i];
        put(out, key);
        put(out, ": ");
        put(out, value);
        put(out, "\r\n");
        proof {
            lemma_header_block_step(pairs, i as int);
            assert(out@ =~= before + header_line(pairs[i as int]));
            assert(out@ =~= old(out)@ + header_block(pairs.take(i + 1)));
        }
        i += 1;
    }
    assert(pairs.take(headers.len() as int) =~= pairs);
}

/// The head of a part: everything that precedes the value.
pub fn encode_part_head(
    boundary: &str,
    name: &str,
    filename: Option<&str>,
    content_type: Option<&str>,
    headers: &[(&str, &str)],
) -> (head: Vec<u8>)
    ensures
        head@ == part_head(
            boundary@,
            name@,
            text_of(filename),
            text_of(content_type),
            pairs_of(headers@),
        ),
{
    let mut out: Vec<u8> = Vec::new();
    put(&mut out, "--");
    put(&mut out, boundary);
    put(&mut out, "\r\n");
    assert(out@ =~= delimiter(boundary@) + line_end());

    let ghost opened = out@;
    put(&mut out, "Content-Disposition: form-data; name=\"");
    put(&mut out, name);
    put(&mut out, "\"");
    let ghost named = out@;
    if let Some(f) = filename {
        put(&mut out, "; filename=\"");
        put(&mut out, f);
        put(&mut out, "\"");
    }
    assert(out@ =~= named + filename_param(text_of(filename)));
    put(&mut out, "\r\n");
    assert(out@ =~= opened + disposition_line(name@, text_of(filename)));

    let ghost disposed = out@;
    if let Some(t) = content_type {
        put(&mut out, "Content-Type: ");
        put(&mut out, t);
        put(&mut out, "\r\n");
    }
    assert(out@ =~= disposed + content_type_line(text_of(content_type)));

    put_headers(&mut out, headers);
    put(&mut out, "\r\n");
    out
}

/// The closing delimiter of a body.
pub fn encode_closing(boundary: &str) -> (closing: Vec<u8>)
    ensures
        closing@ == closing_bytes(boundary@),
{
    let mut out: Vec<u8> = Vec::new();
    put(&mut out, "--");
    put(&mut out, boundary);
    put(&mut out, "--");
    put(&mut out, "\r\n");
    assert(out@ =~= closing_bytes(boundary@));
    out
}

} // verus!
