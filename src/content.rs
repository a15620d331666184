//! Response bodies: handler results and static content framed with chunked
//! transfer encoding.
use vstd::prelude::*;
use vstd::utf8::{
    decode_utf8, decode_utf8_encode_utf8, encode_utf8, is_ascii_chars, is_ascii_chars_encode_utf8,
    pop_first_scalar,
    valid_first_scalar, valid_utf8,
};
use crate::routes::DataType;

verus! {

/// The chunk size that static content is framed with.
pub const CHUNK_SIZE: usize = 8;

/// The lowercase hexadecimal digit of `d`, for `d < 16`.
pub open spec fn hex_digit(d: nat) -> u8 {
    if d < 10 {
        (48 + d) as u8
    } else {
        (87 + d) as u8
    }
}

/// `"\r\n"` as bytes.
pub open spec fn crlf() -> Seq<u8> {
    seq![13u8, 10u8]
}

/// The last chunk, `"0\r\n\r\n"`, that ends a chunked body.
pub open spec fn last_chunk() -> Seq<u8> {
    seq![48u8] + crlf() + crlf()
}

/// One chunk: its length in hex, CRLF, the data, CRLF.
pub open spec fn chunk(data: Seq<u8>) -> Seq<u8> {
    seq![hex_digit(data.len())] + crlf() + data + crlf()
}

/// `b` in chunked transfer encoding with chunks of `n` bytes (the last one
/// may be shorter), ended by the last chunk.
pub open spec fn chunked(b: Seq<u8>, n: nat) -> Seq<u8>
    decreases b.len(),
{
    if b.len() == 0 || n == 0 {
        last_chunk()
    } else if b.len() <= n {
        chunk(b) + last_chunk()
    } else {
        chunk(b.take(n as int)) + chunked(b.skip(n as int), n)
    }
}

/// Relies on `chunked_transfer::Encoder::with_chunks_size` and its `Write`
/// impl: writing `data` in full and dropping the encoder emits each full
/// chunk, the remainder, and the last chunk, into the vector.
#[verifier::external_body]
fn encode_chunked(data: &Vec<u8>, chunk_size: usize) -> (r: Vec<u8>)
    requires
        1 <= chunk_size < 16,
    ensures
        r@ == chunked(data@, chunk_size as nat),
{
    let mut encoded: Vec<u8> = Vec::new();
    {
        let mut encoder = chunked_transfer::Encoder::with_chunks_size(&mut encoded, chunk_size);
        std::io::Write::write_all(&mut encoder, data).unwrap();
    }
    encoded
}

/// Relies on `String::from_utf8`: it succeeds exactly on valid UTF-8, and the
/// string then holds the decoded characters.
#[verifier::external_body]
fn utf8_string(bytes: Vec<u8>) -> (r: Option<String>)
    ensures
        r is Some <==> valid_utf8(bytes@),
        r matches Some(s) ==> s@ == decode_utf8(bytes@),
{
    String::from_utf8(bytes).ok()
}


/// The body for a handler's result: its text on success; on failure the
/// message is dropped and the body is empty.
pub fn respond(result: Result<String, String>) -> (r: DataType)
    ensures
        result matches Ok(v) ==> (r matches DataType::Text(t) && t@ == v@),
        result is Err ==> (r matches DataType::Text(t) && t@ == Seq::<char>::empty()),
{
    match result {
        Ok(v) => DataType::Text(v),
        Err(_) => DataType::Text(String::new()),
    }
}

/// Whether every byte of `p` is ASCII.
pub open spec fn ascii_bytes(p: Seq<u8>) -> bool {
    forall|i: int| 0 <= i < p.len() ==> #[trigger] p[i] < 128
}

/// An ASCII prefix does not change whether bytes are valid UTF-8.
proof fn lemma_ascii_prefix_valid(p: Seq<u8>, x: Seq<u8>)
    requires
        ascii_bytes(p),
    ensures
        valid_utf8(p + x) == valid_utf8(x),
    decreases p.len(),
{
    if p.len() == 0 {
        assert(p + x =~= x);
    } else {
        let q = p + x;
        let b = q[0];
        assert(b < 128);
        assert((b & 0x7F) <= 0x7F) by (bit_vector);
        assert(valid_first_scalar(q));
        assert(pop_first_scalar(q) =~= p.skip(1) + x);
        lemma_ascii_prefix_valid(p.skip(1), x);
    }
}

/// The header of static content labelled as an image.
pub open spec fn image_header() -> Seq<char> {
    "HTTP/1.1 {} {}\r\nContent-type: image/jpeg;\r\nTransfer-Encoding: chunked\r\n\r\n"@
}

/// The header of static content labelled as a stylesheet.
pub open spec fn text_header() -> Seq<char> {
    "HTTP/1.1 {} {}\r\nContent-type: text/css;\r\nTransfer-Encoding: chunked\r\n\r\n"@
}

/// The body served when a static file cannot be opened.
pub open spec fn not_available() -> Seq<char> {
    "ERROR - CONTENT NOT AVAILABLE"@
}

/// The framed response for static content `c`, as bytes, under the image header.
pub open spec fn image_response(c: Seq<u8>) -> Seq<u8> {
    encode_utf8(image_header()) + chunked(c, CHUNK_SIZE as nat)
}

/// The framed response for static content `c`, as bytes, under the stylesheet header.
pub open spec fn text_response(c: Seq<u8>) -> Seq<u8> {
    encode_utf8(text_header()) + chunked(c, CHUNK_SIZE as nat)
}

/// Copies `b` onto the end of `v`.
fn extend_bytes(v: &mut Vec<u8>, b: &[u8])
    ensures
        final(v)@ == old(v)@ + b@,
{
    let ghost start = v@;
    let mut i: usize = 0;
    while i < b.len()
        invariant
            i <= b@.len(),
            v@ == start + b@.take(i as int),
        decreases b.len() - i,
    {
        v.push(b[i]);
        assert(b@.take(i + 1) =~= b@.take(i as int).push(b@[i as int]));
        i = i + 1;
    }
    assert(b@.take(i as int) == b@);
}

/// The body for static content: `None` when the file could not be opened,
/// else its bytes. The bytes are chunked; when the result under the image
/// header is valid UTF-8 the same chunks are returned as text under the
/// stylesheet header, otherwise the image-labelled bytes are returned.
pub fn static_reply(contents: Option<Vec<u8>>) -> (r: DataType)
    ensures
        contents is None ==> (r matches DataType::Text(t) && t@ == not_available()),
        contents matches Some(c) ==> if valid_utf8(image_response(c@)) {
            r matches DataType::Text(t) && t@ == decode_utf8(text_response(c@))
        } else {
            r matches DataType::Bytes(b) && b@ == image_response(c@)
        },
{
    match contents {
        None => DataType::Text(String::from_str("ERROR - CONTENT NOT AVAILABLE")),
        Some(c) => {
            let encoded = encode_chunked(&c, CHUNK_SIZE);
            let mut result: Vec<u8> = Vec::new();
            extend_bytes(&mut result, "HTTP/1.1 {} {}\r\nContent-type: image/jpeg;\r\nTransfer-Encoding: chunked\r\n\r\n".as_bytes());
            extend_bytes(&mut result, encoded.as_slice());
            assert(result@ =~= image_response(c@));
            match utf8_string(result.clone()) {
                Some(_) => {
                    let mut text: Vec<u8> = Vec::new();
                    extend_bytes(&mut text, "HTTP/1.1 {} {}\r\nContent-type: text/css;\r\nTransfer-Encoding: chunked\r\n\r\n".as_bytes());
                    extend_bytes(&mut text, encoded.as_slice());
                    assert(text@ =~= text_response(c@));
                    proof {
                        lemma_headers_ascii();
                        lemma_ascii_prefix_valid(encode_utf8(image_header()), chunked(c@, CHUNK_SIZE as nat));
                        lemma_ascii_prefix_valid(encode_utf8(text_header()), chunked(c@, CHUNK_SIZE as nat));
                    }
                    match utf8_string(text) {
                        Some(v) => DataType::Text(v),
                        None => DataType::Bytes(result),
                    }
                },
                None => DataType::Bytes(result),
            }
        },
    }
}

/// Both headers are ASCII, byte for byte.
proof fn lemma_headers_ascii()
    ensures
        ascii_bytes(encode_utf8(image_header())),
        ascii_bytes(encode_utf8(text_header())),
{
    reveal_strlit("HTTP/1.1 {} {}\r\nContent-type: image/jpeg;\r\nTransfer-Encoding: chunked\r\n\r\n");
    reveal_strlit("HTTP/1.1 {} {}\r\nContent-type: text/css;\r\nTransfer-Encoding: chunked\r\n\r\n");
    assert(is_ascii_chars(image_header()));
    assert(is_ascii_chars(text_header()));
    is_ascii_chars_encode_utf8(image_header());
    is_ascii_chars_encode_utf8(text_header());
}

/// The value of a lowercase hexadecimal digit; 0 for any other byte.
pub open spec fn hex_value(b: u8) -> nat {
    if 48 <= b <= 57 {
        (b - 48) as nat
    } else if 97 <= b <= 102 {
        (b - 87) as nat
    } else {
        0
    }
}

/// The data carried by a chunked body whose chunk lengths are single hex
/// digits, up to the first chunk of length 0 (or the first malformed chunk).
pub open spec fn dechunk(b: Seq<u8>) -> Seq<u8>
    decreases b.len(),
{
    if b.len() < 3 {
        Seq::empty()
    } else {
        let d = hex_value(b[0]);
        if d == 0 || b.len() < 5 + d {
            Seq::empty()
        } else {
            b.subrange(3, 3 + d as int) + dechunk(b.skip(5 + d as int))
        }
    }
}

proof fn lemma_dechunk_chunked(c: Seq<u8>, n: nat)
    requires
        1 <= n < 16,
    ensures
        dechunk(chunked(c, n)) == c,
    decreases c.len(),
{
    if c.len() == 0 {
        assert(c =~= Seq::<u8>::empty());
    } else if c.len() <= n {
        let b = chunked(c, n);
        let d = c.len() as int;
        assert(b == chunk(c) + last_chunk());
        assert(hex_value(b[0]) == d as nat);
        assert(b.subrange(3, 3 + d as int) =~= c);
        assert(b.skip(5 + d as int) =~= last_chunk());
        assert(dechunk(last_chunk()) =~= Seq::<u8>::empty());
        assert(c + Seq::<u8>::empty() =~= c);
    } else {
        let b = chunked(c, n);
        assert(b == chunk(c.take(n as int)) + chunked(c.skip(n as int), n));
        assert(hex_value(b[0]) == n);
        assert(b.subrange(3, 3 + n as int) =~= c.take(n as int));
        assert(b.skip(5 + n as int) =~= chunked(c.skip(n as int), n));
        lemma_dechunk_chunked(c.skip(n as int), n);
        assert(c.take(n as int) + c.skip(n as int) =~= c);
    }
}

proof fn lemma_chunked_ascii(c: Seq<u8>, n: nat)
    requires
        1 <= n < 16,
        ascii_bytes(c),
    ensures
        ascii_bytes(chunked(c, n)),
    decreases c.len(),
{
    if c.len() == 0 {
    } else if c.len() <= n {
        assert(ascii_bytes(chunk(c) + last_chunk()));
    } else {
        lemma_chunked_ascii(c.skip(n as int), n);
        let head = chunk(c.take(n as int));
        assert(ascii_bytes(head));
        assert(ascii_bytes(head + chunked(c.skip(n as int), n)));
    }
}

/// Framing static content in chunks loses nothing: the chunks carry exactly
/// the file's bytes, in order.
pub proof fn law_chunked_round_trip(c: Seq<u8>)
    ensures
        dechunk(chunked(c, CHUNK_SIZE as nat)) == c,
{
    lemma_dechunk_chunked(c, CHUNK_SIZE as nat);
}

/// Static content that is ASCII is served as text (its framing under the
/// image header is valid UTF-8), and that text is, byte for byte, the
/// stylesheet header followed by the file's chunks.
pub proof fn law_ascii_static_is_text(c: Seq<u8>)
    requires
        ascii_bytes(c),
    ensures
        valid_utf8(image_response(c)),
        encode_utf8(decode_utf8(text_response(c))) == text_response(c),
        dechunk(chunked(c, CHUNK_SIZE as nat)) == c,
{
    let body = chunked(c, CHUNK_SIZE as nat);
    lemma_chunked_ascii(c, CHUNK_SIZE as nat);
    lemma_headers_ascii();
    assert(valid_utf8(Seq::<u8>::empty()));
    lemma_ascii_prefix_valid(body, Seq::<u8>::empty());
    assert(body + Seq::<u8>::empty() =~= body);
    lemma_ascii_prefix_valid(encode_utf8(image_header()), body);
    lemma_ascii_prefix_valid(encode_utf8(text_header()), body);
    decode_utf8_encode_utf8(text_response(c));
    lemma_dechunk_chunked(c, CHUNK_SIZE as nat);
}

} // verus!
