use multipart_form_data::boundary::generate;
use multipart_form_data::encode::{encode_closing, encode_part_head};
use multipart_form_data::sink::{BoundedSink, Sink, SinkWriteFailure};
use multipart_form_data::writer::MultipartFormDataWriter;

const BOUNDARY_ONE: &str = "------------------------afb08437765cfecd";
const BOUNDARY_TWO: &str = "------------------------8cde15cb2484c740";

#[test]
fn test_writer() {
    //
    let mut writer = MultipartFormDataWriter::with_boundary(vec![], BOUNDARY_ONE);
    writer.write_text_field("foo", "bar").unwrap();
    let buf = writer.finish().unwrap();
    println!("{}", String::from_utf8(buf.clone()).unwrap());
    assert_eq!(
        buf,
        b"--------------------------afb08437765cfecd\r\n\
Content-Disposition: form-data; name=\"foo\"\r\n\
\r\n\
bar\r\n\
--------------------------afb08437765cfecd--\r\n"
    );

    //
    let mut writer = MultipartFormDataWriter::with_boundary(vec![], BOUNDARY_TWO);
    writer
        .write_field(
            "foo",
            "bar".as_bytes(),
            Some("foo.txt"),
            Some("text/plain"),
            Some(vec![("X-A", "1"), ("X-B", "2")]),
        )
        .unwrap();
    let buf = writer.finish().unwrap();
    println!("{}", String::from_utf8(buf.clone()).unwrap());
    assert_eq!(
        buf,
        b"--------------------------8cde15cb2484c740\r\n\
Content-Disposition: form-data; name=\"foo\"; filename=\"foo.txt\"\r\n\
Content-Type: text/plain\r\n\
X-A: 1\r\n\
X-B: 2\r\n\
\r\n\
bar\r\n\
--------------------------8cde15cb2484c740--\r\n"
    );
}

#[test]
fn write_field_with_nothing_optional() {
    let mut writer = MultipartFormDataWriter::with_boundary(vec![], BOUNDARY_ONE);
    writer
        .write_field("foo", b"bar", None, None, None)
        .unwrap();
    let buf = writer.finish().unwrap();
    let expected = format!(
        "--{b}\r\nContent-Disposition: form-data; name=\"foo\"\r\n\r\nbar\r\n--{b}--\r\n",
        b = BOUNDARY_ONE
    );
    assert_eq!(buf, expected.as_bytes());
}

#[test]
fn text_field_is_a_field_with_nothing_else_set() {
    let mut one = MultipartFormDataWriter::with_boundary(vec![], "xyz");
    one.write_text_field("name", "value").unwrap();
    let mut two = MultipartFormDataWriter::with_boundary(vec![], "xyz");
    two.write_field("name", b"value", None, None, None).unwrap();
    assert_eq!(one.finish().unwrap(), two.finish().unwrap());
}

#[test]
fn body_with_generated_boundary_has_known_length() {
    let mut writer = MultipartFormDataWriter::new(vec![]);
    let boundary = writer.boundary.to_owned();
    assert_eq!(boundary.len(), 40);
    assert_eq!(writer.boundary(), boundary);
    writer.write_text_field("foo", "bar").unwrap();
    let buf = writer.finish().unwrap();
    assert_eq!(buf.len(), 141);
    assert!(buf.starts_with(format!("--{}\r\n", boundary).as_bytes()));
    assert!(buf.ends_with(format!("--{}--\r\n", boundary).as_bytes()));
}

#[test]
fn finish_without_fields_gives_only_the_closing_delimiter() {
    let writer = MultipartFormDataWriter::with_boundary(vec![], "abc");
    assert_eq!(writer.finish().unwrap(), b"--abc--\r\n");
}

#[test]
fn finish_keeps_what_the_sink_already_held() {
    let writer = MultipartFormDataWriter::with_boundary(b"head".to_vec(), "abc");
    assert_eq!(writer.finish().unwrap(), b"head--abc--\r\n");
}

#[test]
fn extra_headers_keep_their_order_and_duplicates() {
    let mut writer = MultipartFormDataWriter::with_boundary(vec![], "b");
    writer
        .write_field(
            "n",
            b"v",
            None,
            None,
            Some(vec![("X-B", "2"), ("X-A", "1"), ("X-B", "3")]),
        )
        .unwrap();
    let buf = writer.finish().unwrap();
    assert_eq!(
        buf,
        b"--b\r\nContent-Disposition: form-data; name=\"n\"\r\nX-B: 2\r\nX-A: 1\r\nX-B: 3\r\n\r\nv\r\n--b--\r\n"
    );
}

#[test]
fn empty_header_list_is_no_header_list() {
    let mut one = MultipartFormDataWriter::with_boundary(vec![], "b");
    one.write_field("n", b"v", None, None, Some(vec![])).unwrap();
    let mut two = MultipartFormDataWriter::with_boundary(vec![], "b");
    two.write_field("n", b"v", None, None, None).unwrap();
    assert_eq!(one.finish().unwrap(), two.finish().unwrap());
}

#[test]
fn empty_and_binary_values_are_written_raw() {
    let mut writer = MultipartFormDataWriter::with_boundary(vec![], "b");
    writer.write_field("e", b"", None, None, None).unwrap();
    writer
        .write_field("bin", &[0u8, 255, 13, 10, 34], Some("f"), None, None)
        .unwrap();
    let buf = writer.finish().unwrap();
    let mut expected: Vec<u8> = Vec::new();
    expected.extend_from_slice(b"--b\r\nContent-Disposition: form-data; name=\"e\"\r\n\r\n\r\n");
    expected.extend_from_slice(
        b"--b\r\nContent-Disposition: form-data; name=\"bin\"; filename=\"f\"\r\n\r\n",
    );
    expected.extend_from_slice(&[0u8, 255, 13, 10, 34]);
    expected.extend_from_slice(b"\r\n--b--\r\n");
    assert_eq!(buf, expected);
}

#[test]
fn text_goes_out_as_utf8_without_escaping() {
    let mut writer = MultipartFormDataWriter::with_boundary(vec![], "b");
    writer
        .write_field("n\u{e9}", "\u{4e2d}".as_bytes(), Some("a\"b"), Some("t"), None)
        .unwrap();
    let buf = writer.finish().unwrap();
    let expected = "--b\r\nContent-Disposition: form-data; name=\"n\u{e9}\"; filename=\"a\"b\"\r\nContent-Type: t\r\n\r\n\u{4e2d}\r\n--b--\r\n";
    assert_eq!(buf, expected.as_bytes());
}

#[test]
fn content_type_without_filename() {
    let mut writer = MultipartFormDataWriter::with_boundary(vec![], "b");
    writer
        .write_field("n", b"{}", None, Some("application/json"), None)
        .unwrap();
    let buf = writer.finish().unwrap();
    assert_eq!(
        buf,
        b"--b\r\nContent-Disposition: form-data; name=\"n\"\r\nContent-Type: application/json\r\n\r\n{}\r\n--b--\r\n"
    );
}

#[test]
fn parts_stand_in_call_order() {
    let mut writer = MultipartFormDataWriter::with_boundary(vec![], "b");
    writer.write_text_field("one", "1").unwrap();
    writer.write_text_field("two", "2").unwrap();
    let buf = writer.finish().unwrap();
    assert_eq!(
        buf,
        b"--b\r\nContent-Disposition: form-data; name=\"one\"\r\n\r\n1\r\n--b\r\nContent-Disposition: form-data; name=\"two\"\r\n\r\n2\r\n--b--\r\n"
    );
}

#[test]
fn same_input_gives_same_bytes() {
    let mut bodies: Vec<Vec<u8>> = Vec::new();
    for _ in 0..2 {
        let mut writer = MultipartFormDataWriter::with_boundary(vec![], BOUNDARY_TWO);
        writer
            .write_field("a", b"1", Some("f"), Some("t"), Some(vec![("K", "V")]))
            .unwrap();
        writer.write_text_field("b", "2").unwrap();
        bodies.push(writer.finish().unwrap());
    }
    assert_eq!(bodies[0], bodies[1]);
}

#[test]
fn head_and_closing_encoders_give_exact_bytes() {
    let head = encode_part_head("b", "n", Some("f"), Some("t"), &[("K", "V")]);
    assert_eq!(
        head,
        b"--b\r\nContent-Disposition: form-data; name=\"n\"; filename=\"f\"\r\nContent-Type: t\r\nK: V\r\n\r\n"
    );
    let head = encode_part_head("b", "n", None, None, &[]);
    assert_eq!(head, b"--b\r\nContent-Disposition: form-data; name=\"n\"\r\n\r\n");
    assert_eq!(encode_closing("b"), b"--b--\r\n");
    assert_eq!(encode_closing(""), b"----\r\n");
}

#[test]
fn vec_sink_appends() {
    let mut sink: Vec<u8> = vec![1, 2];
    assert_eq!(Sink::write_all(&mut sink, &[3, 4]), Ok(()));
    assert_eq!(sink, vec![1, 2, 3, 4]);
}

#[test]
fn bounded_sink_takes_what_fits_then_fails() {
    let mut sink = BoundedSink::new(5);
    assert_eq!(sink.write_all(b"abc"), Ok(()));
    assert_eq!(sink.write_all(b"defg"), Err(SinkWriteFailure));
    assert_eq!(sink.write_all(b""), Ok(()));
    assert_eq!(sink.write_all(b"x"), Err(SinkWriteFailure));
    assert_eq!(sink.into_bytes(), b"abcde");
}

#[test]
fn bounded_sink_with_exact_room_succeeds() {
    // the part is 52 bytes long, the closing delimiter 7
    let mut writer = MultipartFormDataWriter::with_boundary(BoundedSink::new(59), "b");
    assert_eq!(writer.write_text_field("n", "v"), Ok(()));
    let sink = writer.finish().unwrap();
    assert_eq!(
        sink.into_bytes(),
        b"--b\r\nContent-Disposition: form-data; name=\"n\"\r\n\r\nv\r\n--b--\r\n"
    );
}

#[test]
fn write_field_reports_sink_failure() {
    let mut writer = MultipartFormDataWriter::with_boundary(BoundedSink::new(10), "b");
    assert_eq!(
        writer.write_field("n", b"v", None, None, None),
        Err(SinkWriteFailure)
    );
    let mut writer = MultipartFormDataWriter::with_boundary(BoundedSink::new(51), "b");
    assert_eq!(writer.write_text_field("n", "v"), Err(SinkWriteFailure));
    let mut writer = MultipartFormDataWriter::with_boundary(BoundedSink::new(49), "b");
    assert_eq!(writer.write_text_field("n", "v"), Err(SinkWriteFailure));
    let mut writer = MultipartFormDataWriter::with_boundary(BoundedSink::new(52), "b");
    assert_eq!(writer.write_text_field("n", "v"), Ok(()));
}

#[test]
fn finish_reports_sink_failure() {
    let writer = MultipartFormDataWriter::with_boundary(BoundedSink::new(6), "b");
    assert!(matches!(writer.finish(), Err(SinkWriteFailure)));
    let mut writer = MultipartFormDataWriter::with_boundary(BoundedSink::new(58), "b");
    assert_eq!(writer.write_text_field("n", "v"), Ok(()));
    assert!(matches!(writer.finish(), Err(SinkWriteFailure)));
}

#[test]
fn new_uses_a_fresh_boundary() {
    let one = MultipartFormDataWriter::new(Vec::<u8>::new());
    let two = MultipartFormDataWriter::new(Vec::<u8>::new());
    assert_ne!(one.boundary, two.boundary);
    assert_ne!(one.boundary, generate());
    let boundary = one.boundary.clone();
    assert_eq!(
        one.finish().unwrap(),
        format!("--{}--\r\n", boundary).as_bytes()
    );
}
