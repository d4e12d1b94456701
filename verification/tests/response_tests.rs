use choki::response::{
    hex_bytes, map_compression_level, pipe_bytes, push_frame, push_frames, Pipe, Response,
};
use choki::structs::{ContentType, Cookie, Encoding, EncodingType, Header, ResponseCode};
use std::io::Read;

fn split_head(wire: &[u8]) -> (String, Vec<u8>) {
    let at = wire.windows(4).position(|w| w == b"\r\n\r\n").unwrap();
    (String::from_utf8(wire[..at].to_vec()).unwrap(), wire[at + 4..].to_vec())
}

fn dechunk(body: &[u8]) -> (Vec<Vec<u8>>, Vec<u8>) {
    let mut blocks: Vec<Vec<u8>> = Vec::new();
    let mut pos = 0;
    loop {
        let end = pos + body[pos..].windows(2).position(|w| w == b"\r\n").unwrap();
        let size_text = std::str::from_utf8(&body[pos..end]).unwrap();
        let size = usize::from_str_radix(size_text, 16).unwrap();
        pos = end + 2;
        if size == 0 {
            return (blocks, body[pos..].to_vec());
        }
        blocks.push(body[pos..pos + size].to_vec());
        assert_eq!(&body[pos + size..pos + size + 2], b"\r\n");
        pos += size + 2;
    }
}

fn gunzip(data: &[u8]) -> Vec<u8> {
    let mut out = Vec::new();
    flate2::read::GzDecoder::new(data).read_to_end(&mut out).unwrap();
    out
}

fn sample(len: usize) -> Vec<u8> {
    (0..len).map(|i| (i * 7 % 251) as u8).collect()
}

#[test]
fn hexadecimal_numerals() {
    assert_eq!(hex_bytes(0), b"0".to_vec());
    assert_eq!(hex_bytes(9), b"9".to_vec());
    assert_eq!(hex_bytes(10), b"A".to_vec());
    assert_eq!(hex_bytes(15), b"F".to_vec());
    assert_eq!(hex_bytes(16), b"10".to_vec());
    assert_eq!(hex_bytes(255), b"FF".to_vec());
    assert_eq!(hex_bytes(1024), b"400".to_vec());
    assert_eq!(hex_bytes(16384), b"4000".to_vec());
    assert_eq!(hex_bytes(0xDEADBEEF), b"DEADBEEF".to_vec());
}

#[test]
fn compression_levels() {
    assert_eq!(map_compression_level(0), 0);
    assert_eq!(map_compression_level(49), 0);
    assert_eq!(map_compression_level(50), 1);
    assert_eq!(map_compression_level(200), 2);
    assert_eq!(map_compression_level(249), 2);
    assert_eq!(map_compression_level(250), 3);
    assert_eq!(map_compression_level(500), 5);
    assert_eq!(map_compression_level(949), 9);
    assert_eq!(map_compression_level(950), 10);
    assert_eq!(map_compression_level(1000), 10);
    assert_eq!(map_compression_level(u16::MAX), 10);
}

#[test]
fn one_frame() {
    let mut out = b"x".to_vec();
    push_frame(&mut out, b"hello");
    assert_eq!(out, b"x5\r\nhello\r\n".to_vec());
    let mut out = Vec::new();
    push_frame(&mut out, &[7u8; 26]);
    assert_eq!(&out[..4], b"1A\r\n");
    assert_eq!(out.len(), 4 + 26 + 2);
}

#[test]
fn frames_in_blocks() {
    let mut out = Vec::new();
    push_frames(&mut out, b"abcdefgh", 3);
    assert_eq!(out, b"3\r\nabc\r\n3\r\ndef\r\n2\r\ngh\r\n".to_vec());
    let mut out = Vec::new();
    push_frames(&mut out, b"abcdef", 3);
    assert_eq!(out, b"3\r\nabc\r\n3\r\ndef\r\n".to_vec());
    let mut out = Vec::new();
    push_frames(&mut out, b"", 3);
    assert!(out.is_empty());
    push_frames(&mut out, b"abc", 0);
    assert!(out.is_empty());
}

#[test]
fn new_response_is_plain() {
    let res = Response::new(None);
    assert_eq!(res.status_code, ResponseCode::Success);
    assert!(res.headers.is_empty());
    assert!(res.cookies.is_empty());
    assert!(res.content_encoding.is_empty());
    assert!(!res.use_compression);
    let res = Response::new(Some(vec![Encoding::new(EncodingType::Gzip, None)]));
    assert_eq!(res.content_encoding, vec![Encoding::new(EncodingType::Gzip, None)]);
}

#[test]
fn direct_reply() {
    let wire = Response::new(None).send_bytes(b"hello", Some(ContentType::PlainText));
    assert_eq!(
        wire,
        b"HTTP/1.1 200 OK\r\nContent-Type: text/plain\r\nContent-Length: 5\r\n\r\nhello".to_vec()
    );
}

#[test]
fn direct_reply_without_a_content_type() {
    let wire = Response::new(None).send_bytes(b"", None);
    assert_eq!(wire, b"HTTP/1.1 200 OK\r\nContent-Type: \r\nContent-Length: 0\r\n\r\n".to_vec());
}

#[test]
fn direct_reply_with_status_headers_and_cookies() {
    let mut res = Response::new(None);
    res.set_status(&ResponseCode::PartialContent);
    res.set_header(&Header::new("Accept-Ranges", "bytes"));
    res.set_cookie(&Cookie::new_simple("sid".to_string(), "1".to_string()));
    res.delete_cookie("old");
    let wire = res.send_bytes(b"ab", Some(ContentType::OctetStream));
    let expected = "HTTP/1.1 206 Partial Content\r\nAccept-Ranges: bytes\r\nContent-Type: application/octet-stream\r\nContent-Length: 2\r\nSet-Cookie: sid=1\r\nSet-Cookie: old=; Path=/; Expires=Thu, 01 Jan 1970 00:00:00 GMT\r\n\r\nab";
    assert_eq!(String::from_utf8(wire).unwrap(), expected);
}

#[test]
fn the_head_keeps_every_value_as_it_is() {
    let mut res = Response::new(None);
    res.set_cookie(&Cookie::new_simple("a".to_string(), "b  ".to_string()));
    let wire = res.send_bytes(b"x", Some(ContentType::PlainText));
    let expected =
        "HTTP/1.1 200 OK\r\nContent-Type: text/plain\r\nContent-Length: 1\r\nSet-Cookie: a=b  \r\n\r\nx";
    assert_eq!(String::from_utf8(wire).unwrap(), expected);
}

#[test]
fn text_and_json_replies() {
    let wire = Response::new(None).send_string("hi");
    assert_eq!(
        wire,
        b"HTTP/1.1 200 OK\r\nContent-Type: text/plain\r\nContent-Length: 2\r\n\r\nhi".to_vec()
    );
    let wire = Response::new(None).send_json("{}");
    assert_eq!(
        wire,
        b"HTTP/1.1 200 OK\r\nContent-Type: application/json\r\nContent-Length: 2\r\n\r\n{}".to_vec()
    );
    let wire = Response::new(None).send_string("é");
    assert_eq!(
        wire,
        "HTTP/1.1 200 OK\r\nContent-Type: text/plain\r\nContent-Length: 2\r\n\r\né".as_bytes().to_vec()
    );
}

#[test]
fn chunked_reply() {
    let wire = Response::new(None).send_bytes_chunked(b"hello", Some(ContentType::Json));
    assert_eq!(
        wire,
        b"HTTP/1.1 200 OK\r\nContent-Type: application/json\r\nTransfer-Encoding: chunked\r\nConnection: keep-alive\r\n\r\n5\r\nhello\r\n0\r\n\r\n"
            .to_vec()
    );
    let wire = Response::new(None).send_string_chunked("hi");
    assert_eq!(
        wire,
        b"HTTP/1.1 200 OK\r\nContent-Type: text/plain\r\nTransfer-Encoding: chunked\r\nConnection: keep-alive\r\n\r\n2\r\nhi\r\n0\r\n\r\n"
            .to_vec()
    );
    let wire = Response::new(None).send_json_chunked("");
    assert_eq!(
        wire,
        b"HTTP/1.1 200 OK\r\nContent-Type: application/json\r\nTransfer-Encoding: chunked\r\nConnection: keep-alive\r\n\r\n0\r\n\r\n"
            .to_vec()
    );
}

#[test]
fn chunked_reply_in_blocks_of_1024() {
    let data = sample(2500);
    let wire = Response::new(None).send_bytes_chunked(&data, None);
    let (_, body) = split_head(&wire);
    let (blocks, rest) = dechunk(&body);
    assert_eq!(rest, b"\r\n".to_vec());
    assert_eq!(blocks.len(), 3);
    assert_eq!(blocks[0].len(), 1024);
    assert_eq!(blocks[1].len(), 1024);
    assert_eq!(blocks[2].len(), 452);
    assert_eq!(blocks.concat(), data);
    assert!(body.starts_with(b"400\r\n"));
}

#[test]
fn download_reply() {
    let wire = Response::new(None).send_download_bytes(b"abc", "a.bin");
    assert_eq!(
        wire,
        b"HTTP/1.1 200 OK\r\nContent-Disposition: attachment; filename=a.bin\r\nContent-Type: application/octet-stream\r\nTransfer-Encoding: chunked\r\nConnection: keep-alive\r\n\r\n3\r\nabc\r\n0\r\n\r\n"
            .to_vec()
    );
}

#[test]
fn stock_replies() {
    let wire = Response::new(None).send_code(ResponseCode::NotFound);
    assert_eq!(
        wire,
        b"HTTP/1.1 404 NOT FOUND\r\nContent-Type: text/plain\r\nContent-Length: 9\r\n\r\nNOT FOUND"
            .to_vec()
    );
    let wire = Response::new(None).send_code(ResponseCode::ContentTooLarge);
    assert_eq!(
        wire,
        b"HTTP/1.1 413 Content Too Large\r\nContent-Type: text/plain\r\nContent-Length: 17\r\n\r\nContent Too Large"
            .to_vec()
    );
    let mut res = Response::new(None);
    res.set_status(&ResponseCode::Success);
    res.set_cookie(&Cookie::new_simple("a".to_string(), "b".to_string()));
    let wire = res.send_code(ResponseCode::Other(500));
    assert_eq!(
        wire,
        b"HTTP/1.1 500 Unknown\r\nContent-Type: text/plain\r\nContent-Length: 7\r\nSet-Cookie: a=b\r\n\r\nUnknown"
            .to_vec()
    );
}

#[test]
fn headers_of_the_same_name_each_have_their_line() {
    let mut res = Response::new(None);
    res.set_header(&Header::new("Content-Length", "0"));
    res.set_header(&Header::new("X", "1"));
    let wire = res.send_bytes(b"abc", None);
    assert_eq!(
        String::from_utf8(wire).unwrap(),
        "HTTP/1.1 200 OK\r\nContent-Length: 0\r\nX: 1\r\nContent-Type: \r\nContent-Length: 3\r\n\r\nabc"
    );
}

#[test]
fn a_status_outside_the_table_is_unknown() {
    let mut res = Response::new(None);
    res.set_status(&ResponseCode::Other(65736));
    let wire = res.send_bytes(b"", Some(ContentType::PlainText));
    assert_eq!(
        String::from_utf8(wire).unwrap(),
        "HTTP/1.1 65736 Unknown\r\nContent-Type: text/plain\r\nContent-Length: 0\r\n\r\n"
    );
}

#[test]
fn delete_header_removes_the_first_of_that_name() {
    let mut res = Response::new(None);
    res.set_header(&Header::new("A", "1"));
    res.set_header(&Header::new("B", "2"));
    res.set_header(&Header::new("A", "3"));
    res.delete_header("A");
    assert_eq!(res.headers, vec![Header::new("B", "2"), Header::new("A", "3")]);
    res.delete_header("missing");
    assert_eq!(res.headers, vec![Header::new("B", "2"), Header::new("A", "3")]);
    res.delete_header("A");
    res.delete_header("B");
    assert!(res.headers.is_empty());
    res.delete_header("A");
    assert!(res.headers.is_empty());
}

#[test]
fn compression_is_off_unless_asked_for() {
    let res = Response::new(Some(vec![Encoding::new(EncodingType::Gzip, Some(1000))]));
    let wire = res.send_bytes(b"hello hello hello", Some(ContentType::PlainText));
    let (head, payload) = split_head(&wire);
    assert!(!head.contains("Content-Encoding"));
    assert_eq!(payload, b"hello hello hello".to_vec());
}

#[test]
fn gzip_round_trip_at_both_ends_of_the_quality_scale() {
    let data = sample(5000);
    let mut sizes = Vec::new();
    for quality in [1000u16, 0u16] {
        let mut res = Response::new(Some(vec![Encoding::new(EncodingType::Gzip, Some(quality))]));
        res.use_compression = true;
        let wire = res.send_bytes(&data, Some(ContentType::OctetStream));
        let (head, payload) = split_head(&wire);
        assert_eq!(
            head,
            format!(
                "HTTP/1.1 200 OK\r\nContent-Encoding: gzip\r\nContent-Type: application/octet-stream\r\nContent-Length: {}",
                payload.len()
            )
        );
        assert_ne!(payload, data);
        assert_eq!(gunzip(&payload), data);
        sizes.push(payload.len());
    }
    assert!(sizes[0] < sizes[1]);
}

#[test]
fn gzip_for_the_wildcard_and_without_a_quality() {
    let data = b"aaaaaaaaaaaaaaaaaaaaaaaaaaaaaaaaaaaaaaaaaaaaaaaaaaaaaaaaaaaa".to_vec();
    let mut res = Response::new(Some(vec![
        Encoding::new(EncodingType::Any, None),
        Encoding::new(EncodingType::Unknown, Some(1000)),
    ]));
    res.use_compression = true;
    let wire = res.send_bytes_chunked(&data, Some(ContentType::PlainText));
    let (head, body) = split_head(&wire);
    assert!(head.contains("\r\nContent-Encoding: gzip\r\n"));
    let (blocks, _) = dechunk(&body);
    assert_eq!(gunzip(&blocks.concat()), data);
    let direct = Response::new(None).gzip_compress_data(&data, None);
    assert_eq!(direct, Response::new(None).gzip_compress_data(&data, Some(200)));
    assert_eq!(gunzip(&direct), data);
}

#[test]
fn only_the_first_preference_counts() {
    let mut res = Response::new(Some(vec![
        Encoding::new(EncodingType::Unknown, Some(1000)),
        Encoding::new(EncodingType::Gzip, Some(1000)),
    ]));
    res.use_compression = true;
    let wire = res.send_bytes(b"plain", Some(ContentType::PlainText));
    let (head, payload) = split_head(&wire);
    assert!(!head.contains("Content-Encoding"));
    assert_eq!(payload, b"plain".to_vec());
    let mut res = Response::new(None);
    res.use_compression = true;
    let wire = res.send_bytes(b"plain", Some(ContentType::PlainText));
    assert_eq!(split_head(&wire).1, b"plain".to_vec());
}

#[test]
fn prepare_data_adds_the_header_when_it_compresses() {
    let mut res = Response::new(Some(vec![Encoding::new(EncodingType::Gzip, Some(500))]));
    let plain = res.prepare_data(b"abc");
    assert_eq!(plain, b"abc".to_vec());
    assert!(res.headers.is_empty());
    res.use_compression = true;
    let packed = res.prepare_data(b"abc");
    assert_eq!(gunzip(&packed), b"abc".to_vec());
    assert_eq!(res.headers, vec![Header::new("Content-Encoding", "gzip")]);
    let mut other = Response::new(Some(vec![Encoding::new(EncodingType::Gzip, Some(500))]));
    let packed = other.compress_data(b"abc");
    assert_eq!(gunzip(&packed), b"abc".to_vec());
    assert_eq!(other.headers, vec![Header::new("Content-Encoding", "gzip")]);
}

#[test]
fn piped_head() {
    let mut res = Response::new(None);
    res.set_status(&ResponseCode::PartialContent);
    let (head, pipe) = res.pipe_stream(Some(ContentType::Mp4), Some(1000), Some(100));
    assert_eq!(
        head,
        b"HTTP/1.1 206 Partial Content\r\nContent-Type: video/mp4\r\nContent-Length: 1000\r\nTransfer-Encoding: chunked\r\nConnection: keep-alive\r\n\r\n"
            .to_vec()
    );
    assert!(!pipe.is_done());
    assert_eq!(pipe.next_read(), 100);
    let (head, pipe) = Response::new(None).pipe_stream(None, None, None);
    assert_eq!(
        head,
        b"HTTP/1.1 200 OK\r\nTransfer-Encoding: chunked\r\nConnection: keep-alive\r\n\r\n".to_vec()
    );
    assert_eq!(pipe.next_read(), 16384);
}

#[test]
fn piped_download_head() {
    let (head, _) = Response::new(None).send_download_stream("movie.mkv", Some(5), None);
    assert_eq!(
        head,
        b"HTTP/1.1 200 OK\r\nContent-Disposition: attachment; filename=movie.mkv\r\nContent-Type: application/octet-stream\r\nContent-Length: 5\r\nTransfer-Encoding: chunked\r\nConnection: keep-alive\r\n\r\n"
            .to_vec()
    );
}

#[test]
fn a_pipe_with_a_target_lets_exactly_that_many_bytes_through() {
    let source = sample(40000);
    let wire = pipe_bytes(&source, Some(20000));
    let (blocks, rest) = dechunk(&wire);
    assert_eq!(rest, b"\r\n".to_vec());
    assert_eq!(blocks.len(), 2);
    assert_eq!(blocks[0].len(), 16384);
    assert_eq!(blocks[1].len(), 3616);
    assert_eq!(blocks.concat(), source[..20000].to_vec());
    assert!(wire.ends_with(b"\r\n0\r\n\r\n"));
    assert!(wire.starts_with(b"4000\r\n"));
}

#[test]
fn a_pipe_without_a_target_lets_the_whole_source_through() {
    let source = sample(40000);
    let wire = pipe_bytes(&source, None);
    let (blocks, _) = dechunk(&wire);
    assert_eq!(blocks.len(), 3);
    assert_eq!(blocks.concat(), source);
    let wire = pipe_bytes(&source, Some(50000));
    assert_eq!(dechunk(&wire).0.concat(), source);
    let wire = pipe_bytes(&source, Some(40000));
    assert_eq!(dechunk(&wire).0.concat(), source);
}

#[test]
fn a_pipe_of_nothing_is_the_last_chunk() {
    assert_eq!(pipe_bytes(b"", None), b"0\r\n\r\n".to_vec());
    assert_eq!(pipe_bytes(b"abc", Some(0)), b"0\r\n\r\n".to_vec());
    assert_eq!(pipe_bytes(b"abc", Some(2)), b"2\r\nab\r\n0\r\n\r\n".to_vec());
    assert_eq!(pipe_bytes(b"abc", None), b"3\r\nabc\r\n0\r\n\r\n".to_vec());
}

#[test]
fn a_pipe_frames_each_block_as_it_comes() {
    let mut pipe = Pipe::new(Some(10));
    assert_eq!(pipe.next_read(), 10);
    assert_eq!(pipe.feed(b"abcd"), b"4\r\nabcd\r\n".to_vec());
    assert!(!pipe.is_done());
    assert_eq!(pipe.next_read(), 6);
    assert_eq!(pipe.feed(b"efghijKLMN"), b"6\r\nefghij\r\n0\r\n\r\n".to_vec());
    assert!(pipe.is_done());
    assert_eq!(pipe.next_read(), 0);
    assert_eq!(pipe.feed(b"more"), Vec::<u8>::new());
    assert_eq!(pipe.feed(b""), Vec::<u8>::new());
}

#[test]
fn a_pipe_ends_with_its_source() {
    let mut pipe = Pipe::new(None);
    assert_eq!(pipe.feed(b"ab"), b"2\r\nab\r\n".to_vec());
    assert_eq!(pipe.feed(b""), b"0\r\n\r\n".to_vec());
    assert!(pipe.is_done());
    let mut pipe = Pipe::new(Some(100));
    assert_eq!(pipe.feed(b"ab"), b"2\r\nab\r\n".to_vec());
    assert_eq!(pipe.feed(b""), b"0\r\n\r\n".to_vec());
    assert!(pipe.is_done());
    assert_eq!(pipe.feed(b"late"), Vec::<u8>::new());
}
