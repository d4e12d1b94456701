//! The wire-level data types: methods, content types, status codes, headers,
//! cookies, URLs and body items.

use crate::text::{
    chars_of, contains_blank, has_blank, lowercase_of, lowercased, same_text, signed_decimal,
    signed_decimal_string,
};
use vstd::prelude::*;
use vstd::string::StringExecFns;

verus! {

/// A failure that the caller can recover from, with its reason.
#[derive(Debug)]
pub struct HttpServerError {
    pub reason: String,
}

impl View for HttpServerError {
    type V = Seq<char>;

    open spec fn view(&self) -> Seq<char> {
        self.reason@
    }
}

impl HttpServerError {
    /// An error with the given reason.
    pub fn new(reason: &str) -> (e: HttpServerError)
        ensures
            e@ == reason@,
    {
        HttpServerError { reason: reason.to_owned() }
    }
}

/// The request method: the fixed verbs, or any other token.
#[derive(Debug, PartialEq, Eq)]
pub enum RequestType {
    Get,
    Post,
    Put,
    Delete,
    Head,
    Options,
    Patch,
    Other(String),
}

/// The mathematical value of a [`RequestType`].
pub enum RequestTypeView {
    Get,
    Post,
    Put,
    Delete,
    Head,
    Options,
    Patch,
    Other(Seq<char>),
}

impl View for RequestType {
    type V = RequestTypeView;

    open spec fn view(&self) -> RequestTypeView {
        match self {
            RequestType::Get => RequestTypeView::Get,
            RequestType::Post => RequestTypeView::Post,
            RequestType::Put => RequestTypeView::Put,
            RequestType::Delete => RequestTypeView::Delete,
            RequestType::Head => RequestTypeView::Head,
            RequestType::Options => RequestTypeView::Options,
            RequestType::Patch => RequestTypeView::Patch,
            RequestType::Other(s) => RequestTypeView::Other(s@),
        }
    }
}

/// The method that a lower-case token names.
pub open spec fn method_of(lower: Seq<char>) -> RequestTypeView {
    if lower == "get"@ {
        RequestTypeView::Get
    } else if lower == "post"@ {
        RequestTypeView::Post
    } else if lower == "put"@ {
        RequestTypeView::Put
    } else if lower == "delete"@ {
        RequestTypeView::Delete
    } else if lower == "head"@ {
        RequestTypeView::Head
    } else if lower == "options"@ {
        RequestTypeView::Options
    } else if lower == "patch"@ {
        RequestTypeView::Patch
    } else {
        RequestTypeView::Other(lower)
    }
}

impl Clone for RequestType {
    fn clone(&self) -> (r: RequestType)
        ensures
            r@ == self@,
    {
        match self {
            RequestType::Get => RequestType::Get,
            RequestType::Post => RequestType::Post,
            RequestType::Put => RequestType::Put,
            RequestType::Delete => RequestType::Delete,
            RequestType::Head => RequestType::Head,
            RequestType::Options => RequestType::Options,
            RequestType::Patch => RequestType::Patch,
            RequestType::Other(s) => RequestType::Other(s.clone()),
        }
    }
}

impl RequestType {
    /// The method that `input` names, whatever its case. A token with a blank
    /// in it names none.
    pub fn from_string(input: &str) -> (r: Result<RequestType, HttpServerError>)
        ensures
            match r {
                Ok(t) => !has_blank(input@) && t@ == method_of(lowercased(input@)),
                Err(e) => has_blank(input@) && e@
                    == "Content Type can't contain blank spaces."@,
            },
    {
        if contains_blank(input) {
            return Err(HttpServerError::new("Content Type can't contain blank spaces."));
        }
        let lower = lowercase_of(input);
        Ok(RequestType::from_lowercase(lower.as_str()))
    }

    /// The method that the lower-case token `lower` names.
    pub fn from_lowercase(lower: &str) -> (t: RequestType)
        ensures
            t@ == method_of(lower@),
    {
        let chars = chars_of(lower);
        let c = chars.as_slice();
        if same_text(c, "get") {
            RequestType::Get
        } else if same_text(c, "post") {
            RequestType::Post
        } else if same_text(c, "put") {
            RequestType::Put
        } else if same_text(c, "delete") {
            RequestType::Delete
        } else if same_text(c, "head") {
            RequestType::Head
        } else if same_text(c, "options") {
            RequestType::Options
        } else if same_text(c, "patch") {
            RequestType::Patch
        } else {
            RequestType::Other(lower.to_owned())
        }
    }

    /// Whether the two methods are the same.
    pub fn same(&self, other: &RequestType) -> (r: bool)
        ensures
            r == (self@ == other@),
    {
        match (self, other) {
            (RequestType::Get, RequestType::Get) => true,
            (RequestType::Post, RequestType::Post) => true,
            (RequestType::Put, RequestType::Put) => true,
            (RequestType::Delete, RequestType::Delete) => true,
            (RequestType::Head, RequestType::Head) => true,
            (RequestType::Options, RequestType::Options) => true,
            (RequestType::Patch, RequestType::Patch) => true,
            (RequestType::Other(a), RequestType::Other(b)) => *a == *b,
            _ => false,
        }
    }
}

/// A content coding that a client may accept.
#[derive(Debug, Clone, Copy, PartialEq, Eq, Structural)]
pub enum EncodingType {
    Unknown,
    Any,
    Gzip,
}

/// The coding that a lower-case token names.
pub open spec fn encoding_of(lower: Seq<char>) -> EncodingType {
    if lower == "gzip"@ {
        EncodingType::Gzip
    } else if lower == "*"@ {
        EncodingType::Any
    } else {
        EncodingType::Unknown
    }
}

impl EncodingType {
    /// The coding that `input` names, whatever its case.
    pub fn from_string(input: &str) -> (t: EncodingType)
        ensures
            t == encoding_of(lowercased(input@)),
    {
        let lower = lowercase_of(input);
        EncodingType::from_lowercase(lower.as_str())
    }

    /// The coding that the lower-case token `lower` names.
    pub fn from_lowercase(lower: &str) -> (t: EncodingType)
        ensures
            t == encoding_of(lower@),
    {
        let chars = chars_of(lower);
        let c = chars.as_slice();
        if same_text(c, "gzip") {
            EncodingType::Gzip
        } else if same_text(c, "*") {
            EncodingType::Any
        } else {
            EncodingType::Unknown
        }
    }

    /// The token of this coding.
    pub open spec fn token(self) -> Seq<char> {
        match self {
            EncodingType::Gzip => "gzip"@,
            EncodingType::Any => "*"@,
            EncodingType::Unknown => ""@,
        }
    }

    /// The token of this coding, as a string.
    pub fn to_string(&self) -> (s: String)
        ensures
            s@ == self.token(),
    {
        match self {
            EncodingType::Gzip => "gzip".to_owned(),
            EncodingType::Any => "*".to_owned(),
            EncodingType::Unknown => "".to_owned(),
        }
    }
}

/// One preference of an Accept-Encoding header: a coding and its quality in
/// thousandths, from 0 to 1000, or no quality where the header gave none
/// that could be read.
#[derive(Debug, Clone, Copy, PartialEq, Eq, Structural)]
pub struct Encoding {
    pub encoding_type: EncodingType,
    pub quality: Option<u16>,
}

impl Encoding {
    /// A preference with the given coding and quality.
    pub fn new(encoding_type: EncodingType, quality: Option<u16>) -> (e: Encoding)
        ensures
            e == (Encoding { encoding_type, quality }),
    {
        Encoding { encoding_type, quality }
    }
}

/// A response status.
#[derive(Debug, Clone, Copy, PartialEq, Eq, Structural)]
pub enum ResponseCode {
    Continue,
    Success,
    PartialContent,
    BadRequest,
    NotFound,
    MethodNotAllowed,
    ContentTooLarge,
    RangeNotSatisfiable,
    Other(i64),
}

/// The description that goes with a status number on the status line: the
/// eight numbers of the table have a name, every other number is unknown.
pub open spec fn description_of(code: int) -> Seq<char> {
    if code == 100 {
        "Continue"@
    } else if code == 200 {
        "OK"@
    } else if code == 206 {
        "Partial Content"@
    } else if code == 400 {
        "Bad Request"@
    } else if code == 404 {
        "NOT FOUND"@
    } else if code == 405 {
        "Method Not Allowed"@
    } else if code == 413 {
        "Content Too Large"@
    } else if code == 416 {
        "Range Not Satisfiable"@
    } else {
        "Unknown"@
    }
}

impl ResponseCode {
    /// The status number: the one of the table, or the number that the
    /// status carries.
    pub open spec fn value(self) -> int {
        match self {
            ResponseCode::Continue => 100,
            ResponseCode::Success => 200,
            ResponseCode::PartialContent => 206,
            ResponseCode::BadRequest => 400,
            ResponseCode::NotFound => 404,
            ResponseCode::MethodNotAllowed => 405,
            ResponseCode::ContentTooLarge => 413,
            ResponseCode::RangeNotSatisfiable => 416,
            ResponseCode::Other(code) => code as int,
        }
    }

    /// The status number in 16 bits: the one of the table, or the low 16
    /// bits of the number that the status carries.
    pub open spec fn number(self) -> u16 {
        match self {
            ResponseCode::Continue => 100,
            ResponseCode::Success => 200,
            ResponseCode::PartialContent => 206,
            ResponseCode::BadRequest => 400,
            ResponseCode::NotFound => 404,
            ResponseCode::MethodNotAllowed => 405,
            ResponseCode::ContentTooLarge => 413,
            ResponseCode::RangeNotSatisfiable => 416,
            ResponseCode::Other(code) => code as u16,
        }
    }

    /// The status with the number `code`.
    pub open spec fn of_number(code: i64) -> ResponseCode {
        if code == 100 {
            ResponseCode::Continue
        } else if code == 200 {
            ResponseCode::Success
        } else if code == 206 {
            ResponseCode::PartialContent
        } else if code == 400 {
            ResponseCode::BadRequest
        } else if code == 404 {
            ResponseCode::NotFound
        } else if code == 405 {
            ResponseCode::MethodNotAllowed
        } else if code == 413 {
            ResponseCode::ContentTooLarge
        } else if code == 416 {
            ResponseCode::RangeNotSatisfiable
        } else {
            ResponseCode::Other(code)
        }
    }

    /// The status line's text: the number, a blank, the description.
    pub open spec fn line(self) -> Seq<char> {
        signed_decimal(self.value()) + " "@ + description_of(self.value())
    }

    /// The status number.
    pub fn as_i64(&self) -> (n: i64)
        ensures
            n == self.value(),
    {
        match self {
            ResponseCode::Continue => 100,
            ResponseCode::Success => 200,
            ResponseCode::PartialContent => 206,
            ResponseCode::BadRequest => 400,
            ResponseCode::NotFound => 404,
            ResponseCode::MethodNotAllowed => 405,
            ResponseCode::ContentTooLarge => 413,
            ResponseCode::RangeNotSatisfiable => 416,
            ResponseCode::Other(code) => *code,
        }
    }

    /// The status number in 16 bits.
    pub fn as_u16(&self) -> (n: u16)
        ensures
            n == self.number(),
    {
        match self {
            ResponseCode::Continue => 100,
            ResponseCode::Success => 200,
            ResponseCode::PartialContent => 206,
            ResponseCode::BadRequest => 400,
            ResponseCode::NotFound => 404,
            ResponseCode::MethodNotAllowed => 405,
            ResponseCode::ContentTooLarge => 413,
            ResponseCode::RangeNotSatisfiable => 416,
            ResponseCode::Other(code) => #[verifier::truncate]
            (*code as u16),
        }
    }

    /// The status with the number `code`.
    pub fn from_i64(code: i64) -> (c: ResponseCode)
        ensures
            c == ResponseCode::of_number(code),
    {
        if code == 100 {
            ResponseCode::Continue
        } else if code == 200 {
            ResponseCode::Success
        } else if code == 206 {
            ResponseCode::PartialContent
        } else if code == 400 {
            ResponseCode::BadRequest
        } else if code == 404 {
            ResponseCode::NotFound
        } else if code == 405 {
            ResponseCode::MethodNotAllowed
        } else if code == 413 {
            ResponseCode::ContentTooLarge
        } else if code == 416 {
            ResponseCode::RangeNotSatisfiable
        } else {
            ResponseCode::Other(code)
        }
    }

    /// The description of the status.
    pub fn to_desc(&self) -> (s: String)
        ensures
            s@ == description_of(self.value()),
    {
        let code = self.as_i64();
        if code == 100 {
            "Continue".to_owned()
        } else if code == 200 {
            "OK".to_owned()
        } else if code == 206 {
            "Partial Content".to_owned()
        } else if code == 400 {
            "Bad Request".to_owned()
        } else if code == 404 {
            "NOT FOUND".to_owned()
        } else if code == 405 {
            "Method Not Allowed".to_owned()
        } else if code == 413 {
            "Content Too Large".to_owned()
        } else if code == 416 {
            "Range Not Satisfiable".to_owned()
        } else {
            "Unknown".to_owned()
        }
    }

    /// The status number in decimal.
    pub fn to_string(&self) -> (s: String)
        ensures
            s@ == signed_decimal(self.value()),
    {
        signed_decimal_string(self.as_i64())
    }

    /// The number, a blank, and the description.
    pub fn format_string(&self) -> (s: String)
        ensures
            s@ == self.line(),
    {
        let mut s = self.to_string();
        s.append(" ");
        let desc = self.to_desc();
        s.append(desc.as_str());
        s
    }
}

/// The media type of a body.
#[derive(Debug, PartialEq, Eq)]
pub enum ContentType {
    Unset,
    PlainText,
    Html,
    Css,
    Javascript,
    Xml,
    Json,
    MultipartForm,
    UrlEncoded,
    Jpeg,
    Png,
    Gif,
    Webp,
    SvgXml,
    Mkv,
    Mp4,
    OctetStream,
    Other(String),
}

/// The mathematical value of a [`ContentType`].
pub enum ContentTypeView {
    Unset,
    PlainText,
    Html,
    Css,
    Javascript,
    Xml,
    Json,
    MultipartForm,
    UrlEncoded,
    Jpeg,
    Png,
    Gif,
    Webp,
    SvgXml,
    Mkv,
    Mp4,
    OctetStream,
    Other(Seq<char>),
}

impl View for ContentType {
    type V = ContentTypeView;

    open spec fn view(&self) -> ContentTypeView {
        match self {
            ContentType::Unset => ContentTypeView::Unset,
            ContentType::PlainText => ContentTypeView::PlainText,
            ContentType::Html => ContentTypeView::Html,
            ContentType::Css => ContentTypeView::Css,
            ContentType::Javascript => ContentTypeView::Javascript,
            ContentType::Xml => ContentTypeView::Xml,
            ContentType::Json => ContentTypeView::Json,
            ContentType::MultipartForm => ContentTypeView::MultipartForm,
            ContentType::UrlEncoded => ContentTypeView::UrlEncoded,
            ContentType::Jpeg => ContentTypeView::Jpeg,
            ContentType::Png => ContentTypeView::Png,
            ContentType::Gif => ContentTypeView::Gif,
            ContentType::Webp => ContentTypeView::Webp,
            ContentType::SvgXml => ContentTypeView::SvgXml,
            ContentType::Mkv => ContentTypeView::Mkv,
            ContentType::Mp4 => ContentTypeView::Mp4,
            ContentType::OctetStream => ContentTypeView::OctetStream,
            ContentType::Other(s) => ContentTypeView::Other(s@),
        }
    }
}

impl ContentTypeView {
    /// The media type as it is written in a header.
    pub open spec fn text(self) -> Seq<char> {
        match self {
            ContentTypeView::Unset => ""@,
            ContentTypeView::PlainText => "text/plain"@,
            ContentTypeView::Html => "text/html"@,
            ContentTypeView::Css => "text/css"@,
            ContentTypeView::Javascript => "text/javascript"@,
            ContentTypeView::Xml => "text/xml"@,
            ContentTypeView::Json => "application/json"@,
            ContentTypeView::OctetStream => "application/octet-stream"@,
            ContentTypeView::MultipartForm => "multipart/form-data"@,
            ContentTypeView::UrlEncoded => "application/x-www-form-urlencoded"@,
            ContentTypeView::Jpeg => "image/jpeg"@,
            ContentTypeView::Png => "image/png"@,
            ContentTypeView::Gif => "image/gif"@,
            ContentTypeView::Webp => "image/webp"@,
            ContentTypeView::SvgXml => "image/svg+xml"@,
            ContentTypeView::Mkv => "video/mkv"@,
            ContentTypeView::Mp4 => "video/mp4"@,
            ContentTypeView::Other(s) => s,
        }
    }
}

/// The content type that a lower-case media type names.
pub open spec fn content_type_of(lower: Seq<char>) -> ContentTypeView {
    if lower == "text/plain"@ {
        ContentTypeView::PlainText
    } else if lower == "text/html"@ {
        ContentTypeView::Html
    } else if lower == "text/css"@ {
        ContentTypeView::Css
    } else if lower == "text/javascript"@ {
        ContentTypeView::Javascript
    } else if lower == "text/xml"@ {
        ContentTypeView::Xml
    } else if lower == "application/json"@ {
        ContentTypeView::Json
    } else if lower == "application/octet-stream"@ {
        ContentTypeView::OctetStream
    } else if lower == "multipart/form-data"@ {
        ContentTypeView::MultipartForm
    } else if lower == "application/x-www-form-urlencoded"@ {
        ContentTypeView::UrlEncoded
    } else if lower == "image/jpeg"@ {
        ContentTypeView::Jpeg
    } else if lower == "image/png"@ {
        ContentTypeView::Png
    } else if lower == "image/gif"@ {
        ContentTypeView::Gif
    } else if lower == "image/webp"@ {
        ContentTypeView::Webp
    } else if lower == "image/svg+xml"@ {
        ContentTypeView::SvgXml
    } else if lower == "video/mkv"@ {
        ContentTypeView::Mkv
    } else if lower == "video/mp4"@ {
        ContentTypeView::Mp4
    } else {
        ContentTypeView::Other(lower)
    }
}

/// The content type that goes with a lower-case file extension.
pub open spec fn extension_type(lower: Seq<char>) -> Option<ContentTypeView> {
    if lower == "txt"@ {
        Some(ContentTypeView::PlainText)
    } else if lower == "html"@ {
        Some(ContentTypeView::Html)
    } else if lower == "css"@ {
        Some(ContentTypeView::Css)
    } else if lower == "js"@ {
        Some(ContentTypeView::Javascript)
    } else if lower == "ts"@ {
        Some(ContentTypeView::Javascript)
    } else if lower == "xml"@ {
        Some(ContentTypeView::Xml)
    } else if lower == "xaml"@ {
        Some(ContentTypeView::Xml)
    } else if lower == "json"@ {
        Some(ContentTypeView::Json)
    } else if lower == "jpeg"@ {
        Some(ContentTypeView::Jpeg)
    } else if lower == "png"@ {
        Some(ContentTypeView::Png)
    } else if lower == "gif"@ {
        Some(ContentTypeView::Gif)
    } else if lower == "webp"@ {
        Some(ContentTypeView::Webp)
    } else if lower == "svg"@ {
        Some(ContentTypeView::SvgXml)
    } else if lower == "mkv"@ {
        Some(ContentTypeView::Mkv)
    } else if lower == "mp4"@ {
        Some(ContentTypeView::Mp4)
    } else {
        None
    }
}

impl Clone for ContentType {
    fn clone(&self) -> (r: ContentType)
        ensures
            r@ == self@,
    {
        match self {
            ContentType::Unset => ContentType::Unset,
            ContentType::PlainText => ContentType::PlainText,
            ContentType::Html => ContentType::Html,
            ContentType::Css => ContentType::Css,
            ContentType::Javascript => ContentType::Javascript,
            ContentType::Xml => ContentType::Xml,
            ContentType::Json => ContentType::Json,
            ContentType::MultipartForm => ContentType::MultipartForm,
            ContentType::UrlEncoded => ContentType::UrlEncoded,
            ContentType::Jpeg => ContentType::Jpeg,
            ContentType::Png => ContentType::Png,
            ContentType::Gif => ContentType::Gif,
            ContentType::Webp => ContentType::Webp,
            ContentType::SvgXml => ContentType::SvgXml,
            ContentType::Mkv => ContentType::Mkv,
            ContentType::Mp4 => ContentType::Mp4,
            ContentType::OctetStream => ContentType::OctetStream,
            ContentType::Other(s) => ContentType::Other(s.clone()),
        }
    }
}

impl ContentType {
    /// The media type as it is written in a header.
    pub fn as_str(&self) -> (s: &str)
        ensures
            s@ == self@.text(),
    {
        match self {
            ContentType::Unset => "",
            ContentType::PlainText => "text/plain",
            ContentType::Html => "text/html",
            ContentType::Css => "text/css",
            ContentType::Javascript => "text/javascript",
            ContentType::Xml => "text/xml",
            ContentType::Json => "application/json",
            ContentType::OctetStream => "application/octet-stream",
            ContentType::MultipartForm => "multipart/form-data",
            ContentType::UrlEncoded => "application/x-www-form-urlencoded",
            ContentType::Jpeg => "image/jpeg",
            ContentType::Png => "image/png",
            ContentType::Gif => "image/gif",
            ContentType::Webp => "image/webp",
            ContentType::SvgXml => "image/svg+xml",
            ContentType::Mkv => "video/mkv",
            ContentType::Mp4 => "video/mp4",
            ContentType::Other(content_type) => content_type.as_str(),
        }
    }

    /// The content type that `input` names, whatever its case. A media type
    /// with a blank in it names none.
    pub fn from_string(input: &str) -> (r: Result<ContentType, HttpServerError>)
        ensures
            match r {
                Ok(t) => !has_blank(input@) && t@ == content_type_of(lowercased(input@)),
                Err(e) => has_blank(input@) && e@
                    == "Content Type can't contain blank spaces."@,
            },
    {
        if contains_blank(input) {
            return Err(HttpServerError::new("Content Type can't contain blank spaces."));
        }
        let lower = lowercase_of(input);
        Ok(ContentType::from_lowercase(lower.as_str()))
    }

    /// The content type that the lower-case media type `lower` names.
    pub fn from_lowercase(lower: &str) -> (t: ContentType)
        ensures
            t@ == content_type_of(lower@),
    {
        let chars = chars_of(lower);
        let c = chars.as_slice();
        if same_text(c, "text/plain") {
            ContentType::PlainText
        } else if same_text(c, "text/html") {
            ContentType::Html
        } else if same_text(c, "text/css") {
            ContentType::Css
        } else if same_text(c, "text/javascript") {
            ContentType::Javascript
        } else if same_text(c, "text/xml") {
            ContentType::Xml
        } else if same_text(c, "application/json") {
            ContentType::Json
        } else if same_text(c, "application/octet-stream") {
            ContentType::OctetStream
        } else if same_text(c, "multipart/form-data") {
            ContentType::MultipartForm
        } else if same_text(c, "application/x-www-form-urlencoded") {
            ContentType::UrlEncoded
        } else if same_text(c, "image/jpeg") {
            ContentType::Jpeg
        } else if same_text(c, "image/png") {
            ContentType::Png
        } else if same_text(c, "image/gif") {
            ContentType::Gif
        } else if same_text(c, "image/webp") {
            ContentType::Webp
        } else if same_text(c, "image/svg+xml") {
            ContentType::SvgXml
        } else if same_text(c, "video/mkv") {
            ContentType::Mkv
        } else if same_text(c, "video/mp4") {
            ContentType::Mp4
        } else {
            ContentType::Other(lower.to_owned())
        }
    }

    /// The content type that goes with the file extension `extension`,
    /// whatever its case.
    pub fn from_extension(extension: &str) -> (r: Option<ContentType>)
        ensures
            r.deep_view() == extension_type(lowercased(extension@)),
    {
        let lower = lowercase_of(extension);
        ContentType::from_lowercase_extension(lower.as_str())
    }

    /// The content type that goes with the lower-case file extension `lower`.
    pub fn from_lowercase_extension(lower: &str) -> (r: Option<ContentType>)
        ensures
            r.deep_view() == extension_type(lower@),
    {
        let chars = chars_of(lower);
        let c = chars.as_slice();
        if same_text(c, "txt") {
            Some(ContentType::PlainText)
        } else if same_text(c, "html") {
            Some(ContentType::Html)
        } else if same_text(c, "css") {
            Some(ContentType::Css)
        } else if same_text(c, "js") {
            Some(ContentType::Javascript)
        } else if same_text(c, "ts") {
            Some(ContentType::Javascript)
        } else if same_text(c, "xml") {
            Some(ContentType::Xml)
        } else if same_text(c, "xaml") {
            Some(ContentType::Xml)
        } else if same_text(c, "json") {
            Some(ContentType::Json)
        } else if same_text(c, "jpeg") {
            Some(ContentType::Jpeg)
        } else if same_text(c, "png") {
            Some(ContentType::Png)
        } else if same_text(c, "gif") {
            Some(ContentType::Gif)
        } else if same_text(c, "webp") {
            Some(ContentType::Webp)
        } else if same_text(c, "svg") {
            Some(ContentType::SvgXml)
        } else if same_text(c, "mkv") {
            Some(ContentType::Mkv)
        } else if same_text(c, "mp4") {
            Some(ContentType::Mp4)
        } else {
            None
        }
    }

    /// Whether the two content types are the same.
    pub fn same(&self, other: &ContentType) -> (r: bool)
        ensures
            r == (self@ == other@),
    {
        match (self, other) {
            (ContentType::Unset, ContentType::Unset) => true,
            (ContentType::PlainText, ContentType::PlainText) => true,
            (ContentType::Html, ContentType::Html) => true,
            (ContentType::Css, ContentType::Css) => true,
            (ContentType::Javascript, ContentType::Javascript) => true,
            (ContentType::Xml, ContentType::Xml) => true,
            (ContentType::Json, ContentType::Json) => true,
            (ContentType::MultipartForm, ContentType::MultipartForm) => true,
            (ContentType::UrlEncoded, ContentType::UrlEncoded) => true,
            (ContentType::Jpeg, ContentType::Jpeg) => true,
            (ContentType::Png, ContentType::Png) => true,
            (ContentType::Gif, ContentType::Gif) => true,
            (ContentType::Webp, ContentType::Webp) => true,
            (ContentType::SvgXml, ContentType::SvgXml) => true,
            (ContentType::Mkv, ContentType::Mkv) => true,
            (ContentType::Mp4, ContentType::Mp4) => true,
            (ContentType::OctetStream, ContentType::OctetStream) => true,
            (ContentType::Other(a), ContentType::Other(b)) => *a == *b,
            _ => false,
        }
    }
}

impl DeepView for ContentType {
    type V = ContentTypeView;

    open spec fn deep_view(&self) -> ContentTypeView {
        self@
    }
}

/// A cookie to set, or one that a request carried.
#[derive(Debug, PartialEq, Eq)]
pub struct Cookie {
    pub name: String,
    pub value: String,
    pub path: String,
    pub expires: String,
}

/// The mathematical value of a [`Cookie`].
pub struct CookieView {
    pub name: Seq<char>,
    pub value: Seq<char>,
    pub path: Seq<char>,
    pub expires: Seq<char>,
}

impl CookieView {
    /// The cookie as it is written after `Set-Cookie: `.
    pub open spec fn text(self) -> Seq<char> {
        self.name + "="@ + self.value + (if self.path.len() > 0 {
            "; Path="@ + self.path
        } else {
            Seq::empty()
        }) + (if self.expires.len() > 0 {
            "; Expires="@ + self.expires
        } else {
            Seq::empty()
        })
    }
}

/// One `Set-Cookie` line for each cookie, each preceded by a line break.
pub open spec fn set_cookie_lines(cookies: Seq<CookieView>) -> Seq<char>
    decreases cookies.len(),
{
    if cookies.len() == 0 {
        Seq::empty()
    } else {
        set_cookie_lines(cookies.drop_last()) + "\r\nSet-Cookie: "@ + cookies.last().text()
    }
}

impl View for Cookie {
    type V = CookieView;

    open spec fn view(&self) -> CookieView {
        CookieView {
            name: self.name@,
            value: self.value@,
            path: self.path@,
            expires: self.expires@,
        }
    }
}

impl DeepView for Cookie {
    type V = CookieView;

    open spec fn deep_view(&self) -> CookieView {
        self@
    }
}

impl Clone for Cookie {
    fn clone(&self) -> (r: Cookie)
        ensures
            r@ == self@,
    {
        Cookie {
            name: self.name.clone(),
            value: self.value.clone(),
            path: self.path.clone(),
            expires: self.expires.clone(),
        }
    }
}

impl Cookie {
    /// A cookie with a name and a value, and neither path nor expiry.
    pub fn new_simple(name: String, value: String) -> (c: Cookie)
        ensures
            c@ == (CookieView {
                name: name@,
                value: value@,
                path: Seq::empty(),
                expires: Seq::empty(),
            }),
    {
        Cookie { name, value, path: String::new(), expires: String::new() }
    }

    /// The cookie as it is written after `Set-Cookie: `.
    pub fn as_str(&self) -> (s: String)
        ensures
            s@ == self@.text(),
    {
        let mut s = self.name.clone();
        s.append("=");
        s.append(self.value.as_str());
        let ghost base = s@;
        if !self.path.as_str().is_empty() {
            s.append("; Path=");
            s.append(self.path.as_str());
            assert(s@ == base + ("; Path="@ + self.path@));
        } else {
            assert(s@ == base + Seq::<char>::empty());
        }
        let ghost mid = s@;
        if !self.expires.as_str().is_empty() {
            s.append("; Expires=");
            s.append(self.expires.as_str());
            assert(s@ == mid + ("; Expires="@ + self.expires@));
        } else {
            assert(s@ == mid + Seq::<char>::empty());
        }
        s
    }

    /// One `Set-Cookie` line for each cookie, each preceded by a line break.
    pub fn generate_set_cookie_headers(cookies: &Vec<Cookie>) -> (s: String)
        ensures
            s@ == set_cookie_lines(cookies.deep_view()),
    {
        let mut s = String::new();
        let mut i: usize = 0;
        while i < cookies.len()
            invariant
                i <= cookies@.len(),
                s@ == set_cookie_lines(cookies.deep_view().take(i as int)),
            decreases cookies.len() - i,
        {
            let ghost before = s@;
            let line = cookies[i].as_str();
            s.append("\r\nSet-Cookie: ");
            s.append(line.as_str());
            proof {
                let next = cookies.deep_view().take(i + 1);
                assert(next.drop_last() =~= cookies.deep_view().take(i as int));
                assert(next.last() == cookies@[i as int]@);
                assert(s@ == before + "\r\nSet-Cookie: "@ + next.last().text());
            }
            i += 1;
        }
        assert(cookies.deep_view().take(cookies@.len() as int) =~= cookies.deep_view());
        s
    }
}

/// A header: a name and a value.
#[derive(Debug, PartialEq, Eq)]
pub struct Header {
    pub name: String,
    pub value: String,
}

/// The mathematical value of a [`Header`].
pub struct HeaderView {
    pub name: Seq<char>,
    pub value: Seq<char>,
}

impl HeaderView {
    /// The header as one line: the name, a colon and a blank, the value.
    pub open spec fn text(self) -> Seq<char> {
        self.name + ": "@ + self.value
    }
}

/// The header block: each header on a line of its own, in the order of the
/// list, each preceded by a line break; nothing for no header.
pub open spec fn header_lines(headers: Seq<HeaderView>) -> Seq<char>
    decreases headers.len(),
{
    if headers.len() == 0 {
        Seq::empty()
    } else {
        header_lines(headers.drop_last()) + "\r\n"@ + headers.last().text()
    }
}

impl View for Header {
    type V = HeaderView;

    open spec fn view(&self) -> HeaderView {
        HeaderView { name: self.name@, value: self.value@ }
    }
}

impl DeepView for Header {
    type V = HeaderView;

    open spec fn deep_view(&self) -> HeaderView {
        self@
    }
}

impl Clone for Header {
    fn clone(&self) -> (r: Header)
        ensures
            r@ == self@,
    {
        Header { name: self.name.clone(), value: self.value.clone() }
    }
}

impl Header {
    /// A header with the given name and value.
    pub fn new(name: &str, value: &str) -> (h: Header)
        ensures
            h@ == (HeaderView { name: name@, value: value@ }),
    {
        Header { name: name.to_owned(), value: value.to_owned() }
    }

    /// The header as one line: the name, a colon and a blank, the value.
    pub fn as_str(&self) -> (s: String)
        ensures
            s@ == self@.text(),
    {
        let mut s = self.name.clone();
        s.append(": ");
        s.append(self.value.as_str());
        s
    }

    /// The header block of a response.
    pub fn generate_headers(headers: &Vec<Header>) -> (s: String)
        ensures
            s@ == header_lines(headers.deep_view()),
    {
        let mut s = String::new();
        let mut i: usize = 0;
        while i < headers.len()
            invariant
                i <= headers@.len(),
                s@ == header_lines(headers.deep_view().take(i as int)),
            decreases headers.len() - i,
        {
            let ghost before = s@;
            let line = headers[i].as_str();
            s.append("\r\n");
            s.append(line.as_str());
            proof {
                let next = headers.deep_view().take(i + 1);
                assert(next.drop_last() =~= headers.deep_view().take(i as int));
                assert(next.last() == headers@[i as int]@);
                assert(s@ == before + "\r\n"@ + next.last().text());
            }
            i += 1;
        }
        assert(headers.deep_view().take(headers@.len() as int) =~= headers.deep_view());
        s
    }
}

} // verus!
