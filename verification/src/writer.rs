//! The writer: frames fields onto a sink, then closes the body.

use crate::boundary::{generate, is_generated_boundary};
use crate::concat::{lemma_prefix_chain, lemma_prefix_of_longer, lemma_regroup};
use crate::encode::{encode_closing, encode_part_head, headers_of, text_of};
use crate::sink::{Sink, SinkWriteFailure};
use crate::wire::{
    body_bytes, closing_bytes, line_end, part_bytes, part_head, parts_bytes, Field,
};
use vstd::prelude::*;
use vstd::utf8::encode_utf8;

verus! {

/// Frames fields onto a sink it owns, each delimited by `boundary`.
///
/// The writer keeps no record of the fields: all it changes is the sink.
/// `finish` consumes the writer, so nothing can be written after the closing
/// delimiter.
pub struct MultipartFormDataWriter<W: Sink> {
    sink: W,
    pub boundary: String,
}

/// The field that a call of `write_field` with these arguments describes.
pub open spec fn field_of(
    name: &str,
    value: &[u8],
    filename: Option<&str>,
    content_type: Option<&str>,
    headers: Option<Vec<(&str, &str)>>,
) -> Field {
    Field {
        name: name@,
        value: value@,
        filename: text_of(filename),
        content_type: text_of(content_type),
        headers: headers_of(headers),
    }
}

/// The field that a call of `write_text_field` describes: the value is the
/// text's UTF-8 bytes, and nothing else is set.
pub open spec fn text_field_of(name: &str, value: &str) -> Field {
    Field {
        name: name@,
        value: encode_utf8(value@),
        filename: None,
        content_type: None,
        headers: Seq::empty(),
    }
}

/// What one attempt to append `bytes` to a recorded sink does to it. With
/// enough room it succeeds. On success the sink has taken exactly `bytes`;
/// on failure it has taken some prefix of them, and nothing was rolled back.
/// Of a sink that is not recorded this says nothing.
pub open spec fn appended<W: Sink>(before: W, after: W, bytes: Seq<u8>, ok: bool) -> bool {
    before.is_recorded() ==> {
        &&& after.is_recorded()
        &&& bytes.len() <= before.room() ==> ok
        &&& ok ==> after.written() == before.written() + bytes
        &&& ok ==> after.room() + bytes.len() >= before.room()
        &&& !ok ==> before.written().is_prefix_of(after.written())
        &&& !ok ==> after.written().is_prefix_of(before.written() + bytes)
    }
}

/// What a sink holds after a successful write is a function of what it held
/// before and of the bytes written: two sinks, of whatever kinds, that held
/// the same bytes and took the same bytes hold the same bytes.
pub proof fn lemma_output_is_determined<V: Sink, W: Sink>(
    before_one: V,
    after_one: V,
    before_two: W,
    after_two: W,
    bytes: Seq<u8>,
)
    requires
        appended(before_one, after_one, bytes, true),
        appended(before_two, after_two, bytes, true),
        before_one.is_recorded(),
        before_two.is_recorded(),
        before_one.written() == before_two.written(),
    ensures
        after_one.written() == after_two.written(),
{
}

/// Step `i` of writing `fields` one after the other: the sink goes from
/// state `i` to state `i + 1` by taking the part of field `i`.
pub open spec fn is_step<W: Sink>(
    boundary: Seq<char>,
    fields: Seq<Field>,
    states: Seq<W>,
    i: int,
) -> bool {
    appended(states[i], states[i + 1], part_bytes(boundary, fields[i]), true)
}

/// Fields written one after the other, each successfully, and then a
/// successful `finish`, leave in a recorded sink what it held before,
/// followed by the body of these fields in the order of the calls.
pub proof fn lemma_body_written<W: Sink>(
    boundary: Seq<char>,
    fields: Seq<Field>,
    states: Seq<W>,
    finished: W,
)
    requires
        states.len() == fields.len() + 1,
        states[0].is_recorded(),
        forall|i: int| 0 <= i < fields.len() ==> #[trigger] is_step(boundary, fields, states, i),
        appended(states.last(), finished, closing_bytes(boundary), true),
    ensures
        finished.is_recorded(),
        finished.written() == states[0].written() + body_bytes(boundary, fields),
{
    lemma_parts_written(boundary, fields, states);
    lemma_regroup(
        states[0].written(),
        parts_bytes(boundary, fields),
        closing_bytes(boundary),
    );
}

/// Fields written one after the other, each successfully, leave in a
/// recorded sink what it held before, followed by their parts in the order
/// of the calls.
pub proof fn lemma_parts_written<W: Sink>(
    boundary: Seq<char>,
    fields: Seq<Field>,
    states: Seq<W>,
)
    requires
        states.len() == fields.len() + 1,
        states[0].is_recorded(),
        forall|i: int| 0 <= i < fields.len() ==> #[trigger] is_step(boundary, fields, states, i),
    ensures
        states.last().is_recorded(),
        states.last().written() == states[0].written() + parts_bytes(boundary, fields),
    decreases fields.len(),
{
    if fields.len() == 0 {
        assert(states[0].written() + parts_bytes(boundary, fields) =~= states[0].written());
    } else {
        let n = fields.len() - 1;
        let earlier = fields.drop_last();
        let before = states.drop_last();
        assert forall|i: int| 0 <= i < earlier.len() implies #[trigger] is_step(
            boundary,
            earlier,
            before,
            i,
        ) by {
            assert(is_step(boundary, fields, states, i));
        }
        lemma_parts_written(boundary, earlier, before);
        assert(before.last() == states[n]);
        assert(is_step(boundary, fields, states, n));
        lemma_regroup(
            states[0].written(),
            parts_bytes(boundary, earlier),
            part_bytes(boundary, fields[n]),
        );
    }
}

impl<W: Sink> MultipartFormDataWriter<W> {
    /// The sink that the writer owns.
    pub closed spec fn sink(&self) -> W {
        self.sink
    }

    /// The boundary that delimits the parts.
    pub closed spec fn boundary_text(&self) -> Seq<char> {
        self.boundary@
    }

    /// The boundary, for the `Content-Type` header of the request.
    pub fn boundary(&self) -> (boundary: &str)
        ensures
            boundary@ == self.boundary_text(),
    {
        self.boundary.as_str()
    }

    /// A writer on `writer` with a freshly generated boundary.
    pub fn new(writer: W) -> (w: Self)
        ensures
            w.sink() == writer,
            is_generated_boundary(w.boundary_text()),
    {
        MultipartFormDataWriter { sink: writer, boundary: generate() }
    }

    /// A writer on `writer` with the given boundary, taken as it is.
    pub fn with_boundary(writer: W, boundary: &str) -> (w: Self)
        ensures
            w.sink() == writer,
            w.boundary_text() == boundary@,
    {
        MultipartFormDataWriter { sink: writer, boundary: String::from_str(boundary) }
    }

    /// Appends one part with the text `value` and no filename, content type
    /// or extra header.
    pub fn write_text_field(&mut self, name: &str, value: &str) -> (r: Result<
        (),
        SinkWriteFailure,
    >)
        ensures
            final(self).boundary_text() == old(self).boundary_text(),
            appended(
                old(self).sink(),
                final(self).sink(),
                part_bytes(old(self).boundary_text(), text_field_of(name, value)),
                r is Ok,
            ),
    {
        self.write_field(name, value.as_bytes(), None, None, None)
    }

    /// Appends one part: delimiter line, disposition line, content type line
    /// if any, the extra headers in the order given, a blank line, the raw
    /// value, CRLF. Nothing is escaped or validated.
    pub fn write_field(
        &mut self,
        name: &str,
        value: &[u8],
        filename: Option<&str>,
        content_type: Option<&str>,
        headers: Option<Vec<(&str, &str)>>,
    ) -> (r: Result<(), SinkWriteFailure>)
        ensures
            final(self).boundary_text() == old(self).boundary_text(),
            appended(
                old(self).sink(),
                final(self).sink(),
                part_bytes(
                    old(self).boundary_text(),
                    field_of(name, value, filename, content_type, headers),
                ),
                r is Ok,
            ),
    {
        let ghost field = field_of(name, value, filename, content_type, headers);
        let ghost part = part_bytes(self.boundary@, field);
        let head = match &headers {
            Some(list) => encode_part_head(
                self.boundary.as_str(),
                name,
                filename,
                content_type,
                list.as_slice(),
            ),
            None => {
                let none: Vec<(&str, &str)> = Vec::new();
                encode_part_head(
                    self.boundary.as_str(),
                    name,
                    filename,
                    content_type,
                    none.as_slice(),
                )
            },
        };
        assert(head@ == part_head(
            self.boundary@,
            field.name,
            field.filename,
            field.content_type,
            field.headers,
        )) by {
            assert(headers is None ==> headers_of(headers) =~= Seq::empty());
        }
        assert(part =~= head@ + value@ + line_end());
        let ghost recorded = self.sink.is_recorded();
        let ghost start = self.sink.written();
        match self.sink.write_all(head.as_slice()) {
            Ok(()) => {},
            Err(e) => {
                proof {
                    if recorded {
                        lemma_prefix_of_longer(
                            self.sink.written(),
                            start + head@,
                            value@ + line_end(),
                        );
                        assert(start + head@ + (value@ + line_end()) =~= start + part);
                    }
                }
                return Err(e);
            },
        }
        let ghost after_head = self.sink.written();
        match self.sink.write_all(value) {
            Ok(()) => {},
            Err(e) => {
                proof {
                    if recorded {
                        lemma_prefix_of_longer(
                            self.sink.written(),
                            after_head + value@,
                            line_end(),
                        );
                        assert(after_head + value@ + line_end() =~= start + part);
                        lemma_prefix_chain(start, after_head, self.sink.written());
                    }
                }
                return Err(e);
            },
        }
        let ghost after_value = self.sink.written();
        match self.sink.write_all("\r\n".as_bytes()) {
            Ok(()) => {},
            Err(e) => {
                proof {
                    if recorded {
                        assert(after_value + line_end() =~= start + part);
                        lemma_prefix_chain(start, after_value, self.sink.written());
                    }
                }
                return Err(e);
            },
        }
        assert(recorded ==> self.sink.written() =~= start + part);
        Ok(())
    }

    /// Appends the closing delimiter, followed by CRLF, and hands the sink
    /// back. On failure the sink is gone with the writer.
    pub fn finish(self) -> (r: Result<W, SinkWriteFailure>)
        ensures
            self.sink().is_recorded() && closing_bytes(self.boundary_text()).len()
                <= self.sink().room() ==> r is Ok,
            r matches Ok(sink) ==> appended(
                self.sink(),
                sink,
                closing_bytes(self.boundary_text()),
                true,
            ),
    {
        let mut sink = self.sink;
        let closing = encode_closing(self.boundary.as_str());
        match sink.write_all(closing.as_slice()) {
            Ok(()) => Ok(sink),
            Err(e) => Err(e),
        }
    }
}

} // verus!
