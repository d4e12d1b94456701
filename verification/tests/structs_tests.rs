use choki::structs::{
    ContentType, Cookie, Encoding, EncodingType, Header, HttpServerError, RequestType,
    ResponseCode,
};

#[test]
fn error_keeps_its_reason() {
    assert_eq!(HttpServerError::new("boom").reason, "boom");
}

#[test]
fn request_type_from_string() {
    assert_eq!(RequestType::from_string("GET").unwrap(), RequestType::Get);
    assert_eq!(RequestType::from_string("post").unwrap(), RequestType::Post);
    assert_eq!(RequestType::from_string("Put").unwrap(), RequestType::Put);
    assert_eq!(RequestType::from_string("DELETE").unwrap(), RequestType::Delete);
    assert_eq!(RequestType::from_string("head").unwrap(), RequestType::Head);
    assert_eq!(RequestType::from_string("OPTIONS").unwrap(), RequestType::Options);
    assert_eq!(RequestType::from_string("Patch").unwrap(), RequestType::Patch);
    assert_eq!(
        RequestType::from_string("PURGE").unwrap(),
        RequestType::Other("purge".to_string())
    );
}

#[test]
fn request_type_refuses_blanks() {
    let e = RequestType::from_string("GE T").err().unwrap();
    assert_eq!(e.reason, "Content Type can't contain blank spaces.");
}

#[test]
fn request_type_same_tells_methods_apart() {
    assert!(RequestType::Get.same(&RequestType::Get));
    assert!(!RequestType::Get.same(&RequestType::Post));
    assert!(RequestType::Other("x".to_string()).same(&RequestType::Other("x".to_string())));
    assert!(!RequestType::Other("x".to_string()).same(&RequestType::Other("y".to_string())));
    assert!(!RequestType::Other("get".to_string()).same(&RequestType::Get));
}

#[test]
fn encoding_type_round_trip() {
    assert_eq!(EncodingType::from_string("gzip"), EncodingType::Gzip);
    assert_eq!(EncodingType::from_string("GZIP"), EncodingType::Gzip);
    assert_eq!(EncodingType::from_string("*"), EncodingType::Any);
    assert_eq!(EncodingType::from_string("br"), EncodingType::Unknown);
    assert_eq!(EncodingType::from_string(""), EncodingType::Unknown);
    assert_eq!(EncodingType::Gzip.to_string(), "gzip");
    assert_eq!(EncodingType::Any.to_string(), "*");
    assert_eq!(EncodingType::Unknown.to_string(), "");
}

#[test]
fn encoding_new_keeps_its_parts() {
    let e = Encoding::new(EncodingType::Gzip, Some(800));
    assert_eq!(e.encoding_type, EncodingType::Gzip);
    assert_eq!(e.quality, Some(800));
}

#[test]
fn content_type_as_str() {
    assert_eq!(ContentType::Unset.as_str(), "");
    assert_eq!(ContentType::PlainText.as_str(), "text/plain");
    assert_eq!(ContentType::Html.as_str(), "text/html");
    assert_eq!(ContentType::Css.as_str(), "text/css");
    assert_eq!(ContentType::Javascript.as_str(), "text/javascript");
    assert_eq!(ContentType::Xml.as_str(), "text/xml");
    assert_eq!(ContentType::Json.as_str(), "application/json");
    assert_eq!(ContentType::OctetStream.as_str(), "application/octet-stream");
    assert_eq!(ContentType::MultipartForm.as_str(), "multipart/form-data");
    assert_eq!(ContentType::UrlEncoded.as_str(), "application/x-www-form-urlencoded");
    assert_eq!(ContentType::Jpeg.as_str(), "image/jpeg");
    assert_eq!(ContentType::Png.as_str(), "image/png");
    assert_eq!(ContentType::Gif.as_str(), "image/gif");
    assert_eq!(ContentType::Webp.as_str(), "image/webp");
    assert_eq!(ContentType::SvgXml.as_str(), "image/svg+xml");
    assert_eq!(ContentType::Mkv.as_str(), "video/mkv");
    assert_eq!(ContentType::Mp4.as_str(), "video/mp4");
    assert_eq!(ContentType::Other("a/b".to_string()).as_str(), "a/b");
}

#[test]
fn content_type_from_string() {
    assert_eq!(ContentType::from_string("text/plain").unwrap(), ContentType::PlainText);
    assert_eq!(ContentType::from_string("Text/HTML").unwrap(), ContentType::Html);
    assert_eq!(ContentType::from_string("application/json").unwrap(), ContentType::Json);
    assert_eq!(
        ContentType::from_string("multipart/form-data").unwrap(),
        ContentType::MultipartForm
    );
    assert_eq!(
        ContentType::from_string("application/x-www-form-urlencoded").unwrap(),
        ContentType::UrlEncoded
    );
    assert_eq!(ContentType::from_string("video/mp4").unwrap(), ContentType::Mp4);
    assert_eq!(
        ContentType::from_string("Application/PDF").unwrap(),
        ContentType::Other("application/pdf".to_string())
    );
    assert_eq!(ContentType::from_string("").unwrap(), ContentType::Other("".to_string()));
}

#[test]
fn content_type_refuses_blanks() {
    let e = ContentType::from_string("text/html; charset=utf-8").err().unwrap();
    assert_eq!(e.reason, "Content Type can't contain blank spaces.");
}

#[test]
fn content_type_from_lowercase_takes_the_text_as_it_is() {
    assert_eq!(ContentType::from_lowercase("text/css"), ContentType::Css);
    assert_eq!(
        ContentType::from_lowercase("TEXT/CSS"),
        ContentType::Other("TEXT/CSS".to_string())
    );
}

#[test]
fn content_type_from_extension() {
    assert_eq!(ContentType::from_extension("txt"), Some(ContentType::PlainText));
    assert_eq!(ContentType::from_extension("HTML"), Some(ContentType::Html));
    assert_eq!(ContentType::from_extension("css"), Some(ContentType::Css));
    assert_eq!(ContentType::from_extension("js"), Some(ContentType::Javascript));
    assert_eq!(ContentType::from_extension("ts"), Some(ContentType::Javascript));
    assert_eq!(ContentType::from_extension("xml"), Some(ContentType::Xml));
    assert_eq!(ContentType::from_extension("xaml"), Some(ContentType::Xml));
    assert_eq!(ContentType::from_extension("json"), Some(ContentType::Json));
    assert_eq!(ContentType::from_extension("jpeg"), Some(ContentType::Jpeg));
    assert_eq!(ContentType::from_extension("png"), Some(ContentType::Png));
    assert_eq!(ContentType::from_extension("gif"), Some(ContentType::Gif));
    assert_eq!(ContentType::from_extension("webp"), Some(ContentType::Webp));
    assert_eq!(ContentType::from_extension("svg"), Some(ContentType::SvgXml));
    assert_eq!(ContentType::from_extension("mkv"), Some(ContentType::Mkv));
    assert_eq!(ContentType::from_extension("Mp4"), Some(ContentType::Mp4));
    assert_eq!(ContentType::from_extension("jpg"), None);
    assert_eq!(ContentType::from_extension("exe"), None);
    assert_eq!(ContentType::from_extension(""), None);
}

#[test]
fn content_type_clone_and_same() {
    let other = ContentType::Other("x/y".to_string());
    assert_eq!(other.clone(), other);
    assert!(other.same(&ContentType::Other("x/y".to_string())));
    assert!(!other.same(&ContentType::Json));
    assert!(ContentType::Json.same(&ContentType::Json));
}

#[test]
fn response_code_numbers() {
    assert_eq!(ResponseCode::Continue.as_u16(), 100);
    assert_eq!(ResponseCode::Success.as_u16(), 200);
    assert_eq!(ResponseCode::PartialContent.as_u16(), 206);
    assert_eq!(ResponseCode::BadRequest.as_u16(), 400);
    assert_eq!(ResponseCode::NotFound.as_u16(), 404);
    assert_eq!(ResponseCode::MethodNotAllowed.as_u16(), 405);
    assert_eq!(ResponseCode::ContentTooLarge.as_u16(), 413);
    assert_eq!(ResponseCode::RangeNotSatisfiable.as_u16(), 416);
    assert_eq!(ResponseCode::Other(299).as_u16(), 299);
    assert_eq!(ResponseCode::Other(-1).as_u16(), 65535);
    assert_eq!(ResponseCode::Other(65536 + 200).as_u16(), 200);
    assert_eq!(ResponseCode::NotFound.as_i64(), 404);
    assert_eq!(ResponseCode::Other(65536 + 200).as_i64(), 65736);
    assert_eq!(ResponseCode::Other(-1).as_i64(), -1);
}

#[test]
fn response_code_from_i64() {
    assert_eq!(ResponseCode::from_i64(100), ResponseCode::Continue);
    assert_eq!(ResponseCode::from_i64(200), ResponseCode::Success);
    assert_eq!(ResponseCode::from_i64(206), ResponseCode::PartialContent);
    assert_eq!(ResponseCode::from_i64(400), ResponseCode::BadRequest);
    assert_eq!(ResponseCode::from_i64(404), ResponseCode::NotFound);
    assert_eq!(ResponseCode::from_i64(405), ResponseCode::MethodNotAllowed);
    assert_eq!(ResponseCode::from_i64(413), ResponseCode::ContentTooLarge);
    assert_eq!(ResponseCode::from_i64(416), ResponseCode::RangeNotSatisfiable);
    assert_eq!(ResponseCode::from_i64(500), ResponseCode::Other(500));
    assert_eq!(ResponseCode::from_i64(-7), ResponseCode::Other(-7));
}

#[test]
fn response_code_descriptions() {
    assert_eq!(ResponseCode::Continue.to_desc(), "Continue");
    assert_eq!(ResponseCode::Success.to_desc(), "OK");
    assert_eq!(ResponseCode::PartialContent.to_desc(), "Partial Content");
    assert_eq!(ResponseCode::BadRequest.to_desc(), "Bad Request");
    assert_eq!(ResponseCode::NotFound.to_desc(), "NOT FOUND");
    assert_eq!(ResponseCode::MethodNotAllowed.to_desc(), "Method Not Allowed");
    assert_eq!(ResponseCode::ContentTooLarge.to_desc(), "Content Too Large");
    assert_eq!(ResponseCode::RangeNotSatisfiable.to_desc(), "Range Not Satisfiable");
    assert_eq!(ResponseCode::Other(500).to_desc(), "Unknown");
    assert_eq!(ResponseCode::Other(65736).to_desc(), "Unknown");
    assert_eq!(ResponseCode::Other(-1).to_desc(), "Unknown");
    assert_eq!(ResponseCode::from_i64(65736).to_desc(), "Unknown");
    assert_eq!(ResponseCode::Other(200).to_desc(), "OK");
}

#[test]
fn response_code_strings() {
    assert_eq!(ResponseCode::NotFound.to_string(), "404");
    assert_eq!(ResponseCode::Other(7).to_string(), "7");
    assert_eq!(ResponseCode::Success.format_string(), "200 OK");
    assert_eq!(ResponseCode::NotFound.format_string(), "404 NOT FOUND");
    assert_eq!(ResponseCode::Other(500).format_string(), "500 Unknown");
    assert_eq!(ResponseCode::Other(-1).format_string(), "-1 Unknown");
    assert_eq!(ResponseCode::Other(65736).format_string(), "65736 Unknown");
    assert_eq!(ResponseCode::Other(65736).to_string(), "65736");
    assert_eq!(ResponseCode::Other(i64::MIN).to_string(), "-9223372036854775808");
    assert_eq!(ResponseCode::Other(i64::MAX).to_string(), "9223372036854775807");
    assert_eq!(ResponseCode::Other(0).format_string(), "0 Unknown");
}

#[test]
fn cookie_as_str() {
    let simple = Cookie::new_simple("sid".to_string(), "abc".to_string());
    assert_eq!(simple.path, "");
    assert_eq!(simple.expires, "");
    assert_eq!(simple.as_str(), "sid=abc");
    let full = Cookie {
        name: "sid".to_string(),
        value: "abc".to_string(),
        path: "/app".to_string(),
        expires: "Wed, 21 Oct 2015 07:28:00 GMT".to_string(),
    };
    assert_eq!(full.as_str(), "sid=abc; Path=/app; Expires=Wed, 21 Oct 2015 07:28:00 GMT");
    let with_path = Cookie {
        name: "a".to_string(),
        value: "".to_string(),
        path: "/".to_string(),
        expires: "".to_string(),
    };
    assert_eq!(with_path.as_str(), "a=; Path=/");
    let with_expiry = Cookie {
        name: "a".to_string(),
        value: "b".to_string(),
        path: "".to_string(),
        expires: "never".to_string(),
    };
    assert_eq!(with_expiry.as_str(), "a=b; Expires=never");
}

#[test]
fn set_cookie_headers() {
    assert_eq!(Cookie::generate_set_cookie_headers(&Vec::new()), "");
    let cookies = vec![
        Cookie::new_simple("a".to_string(), "1".to_string()),
        Cookie::new_simple("b".to_string(), "2".to_string()),
    ];
    assert_eq!(
        Cookie::generate_set_cookie_headers(&cookies),
        "\r\nSet-Cookie: a=1\r\nSet-Cookie: b=2"
    );
}

#[test]
fn header_as_str() {
    let h = Header::new("Content-Type", "text/plain");
    assert_eq!(h.name, "Content-Type");
    assert_eq!(h.value, "text/plain");
    assert_eq!(h.as_str(), "Content-Type: text/plain");
}

#[test]
fn header_block() {
    assert_eq!(Header::generate_headers(&Vec::new()), "");
    let one = vec![Header::new("A", "1")];
    assert_eq!(Header::generate_headers(&one), "\r\nA: 1");
    let two = vec![Header::new("A", "1"), Header::new("B", "2")];
    assert_eq!(Header::generate_headers(&two), "\r\nA: 1\r\nB: 2");
}

#[test]
fn header_block_has_each_header_on_a_line_of_its_own() {
    let headers = vec![Header::new("X", "1"), Header::new("Y", "2"), Header::new("X", "3")];
    let block = Header::generate_headers(&headers);
    assert_eq!(block, "\r\nX: 1\r\nY: 2\r\nX: 3");
    assert_eq!(block.trim_start(), "X: 1\r\nY: 2\r\nX: 3");
}
