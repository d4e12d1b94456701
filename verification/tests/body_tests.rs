use choki::body::{decode_multipart, decode_urlencoded, BodyItem, BodyItemInfo};
use choki::request::{BodyStore, Request};
use choki::structs::ContentType;

fn request_with(content_type: Option<ContentType>, boundary: Option<&str>) -> Request {
    let mut lines: Vec<String> = vec!["POST /upload HTTP/1.1".to_string()];
    match (&content_type, boundary) {
        (Some(t), Some(b)) => lines.push(format!("Content-Type: {}; boundary={}", t.as_str(), b)),
        (Some(t), None) => lines.push(format!("Content-Type: {}", t.as_str())),
        _ => {}
    }
    let borrowed: Vec<&str> = lines.iter().map(|l| l.as_str()).collect();
    Request::parse(&borrowed, None, None).unwrap()
}

#[test]
fn default_info_is_empty() {
    let info = BodyItemInfo::default();
    assert_eq!(info.content_type, ContentType::Unset);
    assert_eq!(info.name, None);
    assert_eq!(info.file_name, None);
    assert_eq!(info.value, None);
}

#[test]
fn simple_info_has_only_a_type() {
    let info = BodyItemInfo::new_simple(ContentType::Json);
    assert_eq!(info.content_type, ContentType::Json);
    assert_eq!(info.name, None);
    assert_eq!(info.file_name, None);
    assert_eq!(info.value, None);
}

#[test]
fn url_info_and_its_item() {
    let info = BodyItemInfo::new_url("k".to_string(), "v".to_string());
    assert_eq!(info.content_type, ContentType::UrlEncoded);
    assert_eq!(info.name, Some("k".to_string()));
    assert_eq!(info.file_name, None);
    assert_eq!(info.value, Some("v".to_string()));
    let item = info.to_body_item();
    assert_eq!(item.info, &info);
    assert!(item.data.is_empty());
    assert_eq!(item.value, "v");
}

#[test]
fn item_without_a_value_has_an_empty_one() {
    let info = BodyItemInfo::new_simple(ContentType::PlainText);
    let item = info.to_body_item();
    assert_eq!(item.value, "");
    assert!(item.data.is_empty());
}

#[test]
fn body_item_constructors() {
    let info = BodyItemInfo::new_simple(ContentType::Png);
    let data = [1u8, 2, 3];
    let item = BodyItem::new(&info, &data);
    assert_eq!(item.data, &[1u8, 2, 3]);
    assert_eq!(item.value, "");
    let item = BodyItem::new_url(&info, "x".to_string());
    assert!(item.data.is_empty());
    assert_eq!(item.value, "x");
}

#[test]
fn header_block_of_a_field() {
    let info = BodyItemInfo::from_str("Content-Disposition: form-data; name=\"field\"").unwrap();
    assert_eq!(info.content_type, ContentType::MultipartForm);
    assert_eq!(info.name, Some("field".to_string()));
    assert_eq!(info.file_name, None);
    assert_eq!(info.value, None);
}

#[test]
fn header_block_of_a_file() {
    let info = BodyItemInfo::from_str(
        "Content-Disposition: form-data; name=\"f\"; filename=\"a.txt\"\r\nContent-Type: text/plain",
    )
    .unwrap();
    assert_eq!(info.content_type, ContentType::PlainText);
    assert_eq!(info.name, Some("f".to_string()));
    assert_eq!(info.file_name, Some("a.txt".to_string()));
}

#[test]
fn header_block_with_a_file_name_and_one_line() {
    let info =
        BodyItemInfo::from_str("Content-Disposition: form-data; name=\"f\"; filename=\"a.txt\"")
            .unwrap();
    assert_eq!(info.content_type, ContentType::MultipartForm);
    assert_eq!(info.name, Some("f".to_string()));
    assert_eq!(info.file_name, Some("a.txt".to_string()));
}

#[test]
fn header_block_with_an_empty_file_name() {
    let info = BodyItemInfo::from_str(
        "Content-Disposition: form-data; name=\"f\"; filename=\"\"\r\nContent-Type: image/png",
    )
    .unwrap();
    assert_eq!(info.content_type, ContentType::Png);
    assert_eq!(info.name, Some("f".to_string()));
    assert_eq!(info.file_name, None);
}

#[test]
fn empty_header_block_gives_the_default() {
    assert_eq!(BodyItemInfo::from_str("").unwrap(), BodyItemInfo::default());
}

#[test]
fn header_block_with_one_token_gives_the_default() {
    assert_eq!(
        BodyItemInfo::from_str("Content-Disposition: form-data").unwrap(),
        BodyItemInfo::default()
    );
}

#[test]
fn two_lines_need_three_tokens() {
    assert_eq!(
        BodyItemInfo::from_str(
            "Content-Disposition: form-data; name=\"f\"\r\nContent-Type: text/plain"
        )
        .unwrap(),
        BodyItemInfo::default()
    );
}

#[test]
fn a_second_line_that_sets_no_type_leaves_the_form_type() {
    for second in ["Content-Type", "Content-Transfer-Encoding: binary", "content-type: text/css"] {
        let info = BodyItemInfo::from_str(&format!(
            "Content-Disposition: form-data; name=\"f\"; filename=\"a.txt\"\r\n{}",
            second
        ))
        .unwrap();
        assert_eq!(info.content_type, ContentType::MultipartForm);
        assert_eq!(info.name, Some("f".to_string()));
        assert_eq!(info.file_name, Some("a.txt".to_string()));
    }
    let info = BodyItemInfo::from_str(
        "Content-Disposition: form-data; name=\"f\"; filename=\"a.txt\"\r\nContent-Type: ",
    )
    .unwrap();
    assert_eq!(info.content_type, ContentType::Other("".to_string()));
}

#[test]
fn a_content_type_with_a_blank_is_an_error() {
    let e = BodyItemInfo::from_str(
        "Content-Disposition: form-data; name=\"f\"; filename=\"a.txt\"\r\nContent-Type: text/ plain",
    )
    .err()
    .unwrap();
    assert_eq!(e.reason, "Content Type can't contain blank spaces.");
}

#[test]
fn lines_may_end_in_a_bare_line_feed() {
    let info = BodyItemInfo::from_str(
        "Content-Disposition: form-data; name=\"f\"; filename=\"b.bin\"\nContent-Type: image/gif\n",
    )
    .unwrap();
    assert_eq!(info.content_type, ContentType::Gif);
    assert_eq!(info.file_name, Some("b.bin".to_string()));
}

#[test]
fn url_encoded_pairs() {
    let infos = decode_urlencoded(b"a=1&b=2");
    assert_eq!(infos.len(), 2);
    assert_eq!(infos[0], BodyItemInfo::new_url("a".to_string(), "1".to_string()));
    assert_eq!(infos[1], BodyItemInfo::new_url("b".to_string(), "2".to_string()));
}

#[test]
fn url_encoded_pieces_without_equals_are_dropped() {
    let infos = decode_urlencoded(b"a=1&junk&b=x=y&");
    assert_eq!(infos.len(), 2);
    assert_eq!(infos[0], BodyItemInfo::new_url("a".to_string(), "1".to_string()));
    assert_eq!(infos[1], BodyItemInfo::new_url("b".to_string(), "x=y".to_string()));
    assert!(decode_urlencoded(b"").is_empty());
}

#[test]
fn url_encoded_body_of_a_request() {
    let mut req = request_with(Some(ContentType::UrlEncoded), None);
    assert_eq!(req.extract_body(b"a=1&b=2".to_vec()).unwrap(), true);
    let items = req.body();
    assert_eq!(items.len(), 2);
    assert_eq!(items[0].info.name, Some("a".to_string()));
    assert_eq!(items[0].value, "1");
    assert!(items[0].data.is_empty());
    assert_eq!(items[0].info.content_type, ContentType::UrlEncoded);
    assert_eq!(items[0].info.file_name, None);
    assert_eq!(items[1].info.name, Some("b".to_string()));
    assert_eq!(items[1].value, "2");
    assert!(items[1].data.is_empty());
}

fn two_part_body() -> Vec<u8> {
    let mut raw: Vec<u8> = Vec::new();
    raw.extend_from_slice(b"--XBOUNDARYX\r\n");
    raw.extend_from_slice(b"Content-Disposition: form-data; name=\"name\"\r\n\r\n");
    raw.extend_from_slice(b"value\r\n");
    raw.extend_from_slice(b"--XBOUNDARYX\r\n");
    raw.extend_from_slice(
        b"Content-Disposition: form-data; name=\"file\"; filename=\"a.txt\"\r\n",
    );
    raw.extend_from_slice(b"Content-Type: text/plain\r\n\r\n");
    raw.extend_from_slice(b"file \x00\xff bytes\r\n");
    raw.extend_from_slice(b"--XBOUNDARYX--\r\n");
    raw
}

#[test]
fn multipart_body_of_two_parts() {
    let mut req = request_with(Some(ContentType::MultipartForm), Some("XBOUNDARYX"));
    assert_eq!(req.boudary, Some("XBOUNDARYX".to_string()));
    assert_eq!(req.extract_body(two_part_body()).unwrap(), true);
    let items = req.body();
    assert_eq!(items.len(), 2);
    assert_eq!(items[0].info.name, Some("name".to_string()));
    assert_eq!(items[0].info.file_name, None);
    assert_eq!(items[0].info.content_type, ContentType::MultipartForm);
    assert_eq!(items[0].data, b"value");
    assert_eq!(items[0].value, "");
    assert_eq!(items[1].info.name, Some("file".to_string()));
    assert_eq!(items[1].info.file_name, Some("a.txt".to_string()));
    assert_eq!(items[1].info.content_type, ContentType::PlainText);
    assert_eq!(items[1].data, b"file \x00\xff bytes");
    assert_eq!(items[1].value, "");
}

#[test]
fn multipart_ranges_point_into_the_normalized_buffer() {
    let mut buffer = two_part_body();
    let (infos, ranges) = decode_multipart(&mut buffer, b"XBOUNDARYX").ok().unwrap();
    assert_eq!(infos.len(), 2);
    assert_eq!(ranges.len(), 2);
    let expected = b"--XBOUNDARYXContent-Disposition: form-data; name=\"name\"\r\n\r\nvalueXBOUNDARYXContent-Disposition: form-data; name=\"file\"; filename=\"a.txt\"\r\nContent-Type: text/plain\r\n\r\nfile \x00\xff bytesXBOUNDARYX--\r\n";
    assert_eq!(buffer, expected.to_vec());
    assert_eq!(&buffer[ranges[0].0..ranges[0].1], b"value");
    assert_eq!(&buffer[ranges[1].0..ranges[1].1], b"file \x00\xff bytes");
}

#[test]
fn multipart_part_without_a_blank_line_is_all_header() {
    let mut buffer = b"--BBContent-Disposition: form-data; name=\"a\"BB".to_vec();
    let (infos, ranges) = decode_multipart(&mut buffer, b"BB").ok().unwrap();
    assert_eq!(infos.len(), 1);
    assert_eq!(infos[0].name, Some("a".to_string()));
    assert_eq!(ranges[0].0, ranges[0].1);
}

#[test]
fn multipart_without_boundaries_has_no_part() {
    let mut buffer = b"nothing here".to_vec();
    let (infos, ranges) = decode_multipart(&mut buffer, b"XBOUNDARYX").ok().unwrap();
    assert!(infos.is_empty());
    assert!(ranges.is_empty());
    let mut buffer = two_part_body();
    let (infos, _) = decode_multipart(&mut buffer, b"").ok().unwrap();
    assert!(infos.is_empty());
}

#[test]
fn multipart_part_with_a_bad_content_type_is_an_error() {
    let mut buffer = b"--BB\r\nContent-Disposition: form-data; name=\"f\"; filename=\"a.txt\"\r\nContent-Type: text/ plain\r\n\r\nx\r\n--BB--".to_vec();
    let e = decode_multipart(&mut buffer, b"BB").err().unwrap();
    assert_eq!(e.reason, "Content Type can't contain blank spaces.");
}

#[test]
fn multipart_without_a_boundary_is_an_error() {
    let mut req = request_with(Some(ContentType::MultipartForm), None);
    let e = req.extract_body(two_part_body()).err().unwrap();
    assert_eq!(e.reason, "No boundary!");
    assert!(req.body().is_empty());
    assert!(!req.body.is_decoded());
}

#[test]
fn any_other_body_is_one_item() {
    let mut req = request_with(Some(ContentType::Json), None);
    assert_eq!(req.extract_body(b"{\"a\":1}".to_vec()).unwrap(), true);
    let items = req.body();
    assert_eq!(items.len(), 1);
    assert_eq!(items[0].info.content_type, ContentType::Json);
    assert_eq!(items[0].info.name, None);
    assert_eq!(items[0].info.file_name, None);
    assert_eq!(items[0].data, b"{\"a\":1}");
    assert_eq!(items[0].value, "");
}

#[test]
fn a_body_without_a_content_type_is_one_item() {
    let mut req = request_with(None, None);
    assert_eq!(req.extract_body(b"raw".to_vec()).unwrap(), true);
    let items = req.body();
    assert_eq!(items.len(), 1);
    assert_eq!(items[0].info.content_type, ContentType::Unset);
    assert_eq!(items[0].data, b"raw");
}

#[test]
fn the_body_is_decoded_once() {
    let mut req = request_with(Some(ContentType::UrlEncoded), None);
    assert!(req.body().is_empty());
    assert!(!req.body.is_decoded());
    assert_eq!(req.extract_body(b"a=1".to_vec()).unwrap(), true);
    assert!(req.body.is_decoded());
    assert_eq!(req.extract_body(b"b=2&c=3".to_vec()).unwrap(), false);
    let items = req.body();
    assert_eq!(items.len(), 1);
    assert_eq!(items[0].info.name, Some("a".to_string()));
    assert_eq!(req.body.buffer(), &b"a=1".to_vec());
}

#[test]
fn body_store_decodes_by_content_type() {
    let store = BodyStore::new();
    assert!(!store.is_decoded());
    assert_eq!(store.len(), 0);
    assert!(store.items().is_empty());
    let store = BodyStore::decode(&Some(ContentType::Html), &None, b"<p>".to_vec()).ok().unwrap();
    assert!(store.is_decoded());
    assert_eq!(store.len(), 1);
    assert_eq!(store.items()[0].data, b"<p>");
}
