use multipart_form_data::writer::MultipartFormDataWriter;

#[derive(Debug, Clone, PartialEq)]
struct Part {
    name: String,
    value: Vec<u8>,
    filename: Option<String>,
    content_type: Option<String>,
    headers: Vec<(String, String)>,
}

fn find(bytes: &[u8], mark: &[u8]) -> Option<usize> {
    (0..=bytes.len()).find(|i| bytes[*i..].starts_with(mark))
}

fn cut<'a>(bytes: &'a [u8], mark: &[u8]) -> Option<(&'a [u8], &'a [u8])> {
    let at = find(bytes, mark)?;
    Some((&bytes[..at], &bytes[at + mark.len()..]))
}

fn text(bytes: &[u8]) -> String {
    String::from_utf8(bytes.to_vec()).unwrap()
}

fn read_part<'a>(boundary: &str, bytes: &'a [u8]) -> Option<(Part, &'a [u8])> {
    let delimiter = format!("--{}", boundary);
    let rest = bytes.strip_prefix(format!("{}\r\n", delimiter).as_bytes())?;
    let (first, below) = cut(rest, b"\r\n")?;
    let first = first.strip_prefix(b"Content-Disposition: form-data; name=\"")?;
    let (name, tail) = cut(first, b"\"")?;
    let filename = if tail.is_empty() {
        None
    } else {
        let (filename, end) = cut(tail.strip_prefix(b"; filename=\"")?, b"\"")?;
        assert!(end.is_empty());
        Some(text(filename))
    };
    let (second, further) = cut(below, b"\r\n")?;
    let (content_type, mut block) = match second.strip_prefix(b"Content-Type: ") {
        Some(t) => (Some(text(t)), further),
        None => (None, below),
    };
    let mut headers = Vec::new();
    loop {
        let (line, rest) = cut(block, b"\r\n")?;
        block = rest;
        if line.is_empty() {
            break;
        }
        let (key, value) = cut(line, b": ")?;
        headers.push((text(key), text(value)));
    }
    let (value, after) = cut(block, format!("\r\n{}", delimiter).as_bytes())?;
    let at = bytes.len() - after.len() - delimiter.len();
    let part = Part {
        name: text(name),
        value: value.to_vec(),
        filename,
        content_type,
        headers,
    };
    Some((part, &bytes[at..]))
}

fn read_body(boundary: &str, mut bytes: &[u8]) -> Option<Vec<Part>> {
    let closing = format!("--{}--\r\n", boundary);
    let mut parts = Vec::new();
    while bytes != closing.as_bytes() {
        let (part, rest) = read_part(boundary, bytes)?;
        parts.push(part);
        bytes = rest;
    }
    Some(parts)
}

fn encode(boundary: &str, parts: &[Part]) -> Vec<u8> {
    let mut writer = MultipartFormDataWriter::with_boundary(vec![], boundary);
    for part in parts {
        let headers: Vec<(&str, &str)> = part
            .headers
            .iter()
            .map(|(k, v)| (k.as_str(), v.as_str()))
            .collect();
        writer
            .write_field(
                &part.name,
                &part.value,
                part.filename.as_deref(),
                part.content_type.as_deref(),
                if headers.is_empty() { None } else { Some(headers) },
            )
            .unwrap();
    }
    writer.finish().unwrap()
}

fn sample_parts() -> Vec<Part> {
    vec![
        Part {
            name: "foo".to_owned(),
            value: b"bar".to_vec(),
            filename: None,
            content_type: None,
            headers: vec![],
        },
        Part {
            name: "file".to_owned(),
            value: vec![0, 1, 2, 13, 10, 45, 45, 255],
            filename: Some("a.bin".to_owned()),
            content_type: Some("application/octet-stream".to_owned()),
            headers: vec![
                ("X-B".to_owned(), "2".to_owned()),
                ("X-A".to_owned(), "1: one".to_owned()),
                ("X-B".to_owned(), "3".to_owned()),
            ],
        },
        Part {
            name: "empty".to_owned(),
            value: vec![],
            filename: Some(String::new()),
            content_type: None,
            headers: vec![("X-Only".to_owned(), String::new())],
        },
        Part {
            name: "t\u{e9}xt".to_owned(),
            value: "\u{4e2d}\u{6587}".as_bytes().to_vec(),
            filename: None,
            content_type: Some("text/plain".to_owned()),
            headers: vec![],
        },
    ]
}

#[test]
fn reading_an_encoded_body_gives_the_fields_back() {
    let boundary = "------------------------8cde15cb2484c740";
    let parts = sample_parts();
    let body = encode(boundary, &parts);
    assert_eq!(read_body(boundary, &body), Some(parts));
}

#[test]
fn reading_twice_gives_the_same_fields() {
    let boundary = "------------------------afb08437765cfecd";
    let body = encode(boundary, &sample_parts());
    let once = read_body(boundary, &body);
    let twice = read_body(boundary, &body);
    assert!(once.is_some());
    assert_eq!(once, twice);
    assert_eq!(body, encode(boundary, &once.unwrap()));
}

#[test]
fn reading_a_body_without_fields_gives_none_of_them() {
    let body = encode("b", &[]);
    assert_eq!(body, b"--b--\r\n");
    assert_eq!(read_body("b", &body), Some(vec![]));
}

#[test]
fn a_quote_in_the_name_does_not_read_back() {
    let part = Part {
        name: "a\"b".to_owned(),
        value: b"v".to_vec(),
        filename: None,
        content_type: None,
        headers: vec![],
    };
    let body = encode("b", &[part.clone()]);
    assert_ne!(read_body("b", &body), Some(vec![part]));
}

#[test]
fn a_header_named_like_the_content_type_reads_back_as_one() {
    let written = Part {
        name: "n".to_owned(),
        value: b"v".to_vec(),
        filename: None,
        content_type: None,
        headers: vec![("Content-Type".to_owned(), "t".to_owned())],
    };
    let read = Part {
        name: "n".to_owned(),
        value: b"v".to_vec(),
        filename: None,
        content_type: Some("t".to_owned()),
        headers: vec![],
    };
    let body = encode("b", &[written]);
    assert_eq!(read_body("b", &body), Some(vec![read]));
}
