use micro_http_async::{static_reply, DataType};
use std::io::Read;

const TEXT_HEADER: &str = "HTTP/1.1 {} {}\r\nContent-type: text/css;\r\nTransfer-Encoding: chunked\r\n\r\n";
const IMAGE_HEADER: &str = "HTTP/1.1 {} {}\r\nContent-type: image/jpeg;\r\nTransfer-Encoding: chunked\r\n\r\n";

fn dechunk(body: &[u8]) -> Vec<u8> {
    let mut out = Vec::new();
    chunked_transfer::Decoder::new(body).read_to_end(&mut out).unwrap();
    out
}

#[test]
fn ascii_file_is_text_and_round_trips() {
    let file = b"body { color: red; }\n".to_vec();
    match static_reply(Some(file.clone())) {
        DataType::Text(t) => {
            assert!(t.starts_with(TEXT_HEADER));
            assert_eq!(dechunk(t[TEXT_HEADER.len()..].as_bytes()), file);
        }
        DataType::Bytes(_) => panic!("expected text"),
    }
}

#[test]
fn chunks_are_eight_bytes() {
    match static_reply(Some(b"hello world".to_vec())) {
        DataType::Text(t) => assert_eq!(
            t,
            format!("{}8\r\nhello wo\r\n3\r\nrld\r\n0\r\n\r\n", TEXT_HEADER)
        ),
        DataType::Bytes(_) => panic!("expected text"),
    }
}

#[test]
fn exactly_one_chunk() {
    match static_reply(Some(b"12345678".to_vec())) {
        DataType::Text(t) => assert_eq!(t, format!("{}8\r\n12345678\r\n0\r\n\r\n", TEXT_HEADER)),
        DataType::Bytes(_) => panic!("expected text"),
    }
}

#[test]
fn empty_file_has_only_the_last_chunk() {
    match static_reply(Some(Vec::new())) {
        DataType::Text(t) => assert_eq!(t, format!("{}0\r\n\r\n", TEXT_HEADER)),
        DataType::Bytes(_) => panic!("expected text"),
    }
}

#[test]
fn binary_file_is_bytes_under_image_header() {
    let file = vec![0xFFu8, 0xD8, 0xFF, 0xE0, 0x00, 0x10, b'J', b'F', b'I', b'F'];
    match static_reply(Some(file.clone())) {
        DataType::Bytes(b) => {
            assert!(b.starts_with(IMAGE_HEADER.as_bytes()));
            assert_eq!(dechunk(&b[IMAGE_HEADER.len()..]), file);
        }
        DataType::Text(_) => panic!("expected bytes"),
    }
}

#[test]
fn multibyte_utf8_file_is_text() {
    let file = "héllo wörld".as_bytes().to_vec();
    match static_reply(Some(file.clone())) {
        DataType::Text(t) => assert!(t.starts_with(TEXT_HEADER)),
        DataType::Bytes(_) => panic!("expected text"),
    }
}

#[test]
fn missing_file_gives_placeholder() {
    match static_reply(None) {
        DataType::Text(t) => assert_eq!(t, "ERROR - CONTENT NOT AVAILABLE"),
        DataType::Bytes(_) => panic!("expected text"),
    }
}
