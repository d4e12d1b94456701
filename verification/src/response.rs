//! The response writer: status, headers and cookies, optional gzip
//! compression, and the framing of a direct, a chunked and a piped reply.
//!
//! A response is consumed by the one send that ends it; each send returns
//! the bytes to put on the wire.

use crate::seqs::{append_range, copy_range};
use crate::structs::{
    header_lines, set_cookie_lines, ContentType, ContentTypeView, Cookie, CookieView, Encoding,
    EncodingType, Header, HeaderView, ResponseCode,
};
use crate::text::{chars_of, decimal, decimal_string};
use vstd::prelude::*;
use vstd::slice::slice_subrange;
use vstd::string::{StrSliceExecFns, StringExecFns, StringSliceAdditionalSpecFns};

verus! {

/// The size of the blocks of a chunked reply.
pub const CHUNK_SIZE: usize = 1024;

/// The size of the blocks of a piped reply.
pub const PIPE_BLOCK: usize = 16384;

/// What the gzip encoder of `flate2` writes for the input `data` at the
/// compression level `level`.
pub uninterp spec fn gzip_bytes(data: Seq<u8>, level: u32) -> Seq<u8>;

/// Compresses `data` as one gzip member; this is `flate2::write::GzEncoder`
/// over a vector, made with `Compression::new(level)`, fed with `write_all`
/// and closed with `finish`. The contract only names the result. Levels
/// above 10 are left out: the encoder is not made for them.
#[verifier::external_body]
fn gzip(data: &[u8], level: u32) -> (out: Vec<u8>)
    requires
        level <= 10,
    ensures
        out@ == gzip_bytes(data@, level),
{
    let mut encoder = flate2::write::GzEncoder::new(Vec::new(), flate2::Compression::new(level));
    std::io::Write::write_all(&mut encoder, data).unwrap_or_default();
    encoder.finish().unwrap_or_default()
}

/// The compression level for a quality in thousandths: ten times the
/// quality, rounded to the nearest whole, halves up; 10 from 1000 on.
pub open spec fn compression_level(quality: u16) -> u32 {
    if quality >= 1000 {
        10
    } else {
        ((quality + 50) / 100) as u32
    }
}

/// The compression level for a preference: that of its quality, or that of
/// 200 thousandths where it has none.
pub open spec fn level_of(quality: Option<u16>) -> u32 {
    match quality {
        Some(q) => compression_level(q),
        None => compression_level(200),
    }
}

/// The compression level for a quality in thousandths.
pub fn map_compression_level(quality: u16) -> (level: u32)
    ensures
        level == compression_level(quality),
        level <= 10,
{
    if quality >= 1000 {
        10
    } else {
        ((quality + 50) / 100) as u32
    }
}

/// The upper-case hexadecimal digit for `d`, as a byte.
pub open spec fn hex_digit(d: int) -> u8 {
    if d < 10 {
        (48 + d) as u8
    } else {
        (55 + d) as u8
    }
}

/// The upper-case hexadecimal numeral of `n`, without leading zeros.
pub open spec fn hex_upper(n: nat) -> Seq<u8>
    decreases n,
{
    if n < 16 {
        seq![hex_digit(n as int)]
    } else {
        hex_upper(n / 16).push(hex_digit((n % 16) as int))
    }
}

/// One chunk on the wire: the length in hexadecimal, a line break, the
/// bytes, a line break.
pub open spec fn frame(block: Seq<u8>) -> Seq<u8> {
    hex_upper(block.len()) + "\r\n".spec_bytes() + block + "\r\n".spec_bytes()
}

/// The chunk of length zero that ends a chunked body.
pub open spec fn last_chunk() -> Seq<u8> {
    "0\r\n\r\n".spec_bytes()
}

/// The chunks of `data` in blocks of `size` bytes, the last one shorter
/// where the data ends.
pub open spec fn chunk_frames(data: Seq<u8>, size: nat) -> Seq<u8>
    decreases data.len(),
{
    if data.len() == 0 || size == 0 {
        Seq::empty()
    } else if data.len() <= size {
        frame(data)
    } else {
        frame(data.take(size as int)) + chunk_frames(data.skip(size as int), size)
    }
}

/// The mathematical value of a [`Response`].
pub struct ResponseView {
    pub status_code: ResponseCode,
    pub cookies: Seq<CookieView>,
    pub headers: Seq<HeaderView>,
    pub content_encoding: Seq<Encoding>,
    pub use_compression: bool,
}

/// The head of a reply as text: the status line, the headers and the cookies
/// each on a line of its own, and a blank line.
pub open spec fn head_text(
    status: ResponseCode,
    headers: Seq<HeaderView>,
    cookies: Seq<CookieView>,
) -> Seq<char> {
    "HTTP/1.1 "@ + status.line() + header_lines(headers) + set_cookie_lines(cookies)
        + "\r\n\r\n"@
}

/// The head of a reply on the wire.
pub open spec fn head_bytes(
    status: ResponseCode,
    headers: Seq<HeaderView>,
    cookies: Seq<CookieView>,
) -> Seq<u8> {
    vstd::utf8::encode_utf8(head_text(status, headers, cookies))
}

/// A header in the model.
pub open spec fn header(name: Seq<char>, value: Seq<char>) -> HeaderView {
    HeaderView { name, value }
}

impl ResponseView {
    /// The payload is compressed: compression is on, and the first accepted
    /// coding is gzip or the wildcard. Later preferences are not looked at.
    pub open spec fn compresses(self) -> bool {
        &&& self.use_compression
        &&& self.content_encoding.len() > 0
        &&& (self.content_encoding[0].encoding_type == EncodingType::Any
            || self.content_encoding[0].encoding_type == EncodingType::Gzip)
    }

    /// The payload that goes on the wire for the data `data`.
    pub open spec fn payload(self, data: Seq<u8>) -> Seq<u8> {
        if self.compresses() {
            gzip_bytes(data, level_of(self.content_encoding[0].quality))
        } else {
            data
        }
    }

    /// The headers once the payload is prepared: a compressed payload adds
    /// `Content-Encoding: gzip`.
    pub open spec fn prepared(self) -> Seq<HeaderView> {
        if self.compresses() {
            self.headers.push(header("Content-Encoding"@, "gzip"@))
        } else {
            self.headers
        }
    }

    /// The bytes of a direct reply: the head with the content type and the
    /// length of the payload, then the payload.
    pub open spec fn direct_wire(self, data: Seq<u8>, content_type: ContentTypeView) -> Seq<u8> {
        head_bytes(
            self.status_code,
            self.prepared().push(header("Content-Type"@, content_type.text())).push(
                header("Content-Length"@, decimal(self.payload(data).len())),
            ),
            self.cookies,
        ) + self.payload(data)
    }

    /// The bytes of a chunked reply: the head with the content type and the
    /// two headers of a chunked transfer, then the payload in chunks of
    /// [`CHUNK_SIZE`] bytes, then the last chunk.
    pub open spec fn chunked_wire(self, data: Seq<u8>, content_type: ContentTypeView) -> Seq<u8> {
        head_bytes(
            self.status_code,
            self.prepared().push(header("Content-Type"@, content_type.text())).push(
                header("Transfer-Encoding"@, "chunked"@),
            ).push(header("Connection"@, "keep-alive"@)),
            self.cookies,
        ) + chunk_frames(self.payload(data), CHUNK_SIZE as nat) + last_chunk()
    }

    /// The headers of a piped reply: the content type where one is given,
    /// the length where a size is given, and the two headers of a chunked
    /// transfer.
    pub open spec fn piped_headers(
        self,
        content_type: Option<ContentTypeView>,
        stream_size: Option<u64>,
    ) -> Seq<HeaderView> {
        let typed = match content_type {
            Some(t) => self.headers.push(header("Content-Type"@, t.text())),
            None => self.headers,
        };
        let sized = match stream_size {
            Some(n) => typed.push(header("Content-Length"@, decimal(n as nat))),
            None => typed,
        };
        sized.push(header("Transfer-Encoding"@, "chunked"@)).push(
            header("Connection"@, "keep-alive"@),
        )
    }

    /// The bytes of a stock reply for the status `code`: its status line, the
    /// headers with a plain-text content type and the length of the
    /// description, the cookie lines, a blank line, and the description.
    pub open spec fn code_wire(self, code: ResponseCode) -> Seq<u8> {
        vstd::utf8::encode_utf8(
            "HTTP/1.1 "@ + code.line() + header_lines(
                self.headers.push(header("Content-Type"@, "text/plain"@)).push(
                    header(
                        "Content-Length"@,
                        decimal(crate::structs::description_of(code.value()).len()),
                    ),
                ),
            ) + set_cookie_lines(self.cookies) + "\r\n\r\n"@ + crate::structs::description_of(code.value()),
        )
    }
}

/// The headers without the first one named `name`.
pub open spec fn without_first(headers: Seq<HeaderView>, name: Seq<char>) -> Seq<HeaderView>
    decreases headers.len(),
{
    if headers.len() == 0 {
        headers
    } else if headers[0].name == name {
        headers.drop_first()
    } else {
        seq![headers[0]] + without_first(headers.drop_first(), name)
    }
}

/// The content type that is given, or the unset one.
pub open spec fn given_type(content_type: Option<ContentType>) -> ContentTypeView {
    match content_type {
        Some(t) => t@,
        None => ContentTypeView::Unset,
    }
}

/// The upper-case hexadecimal numeral of `n`, as bytes.
pub fn hex_bytes(n: usize) -> (out: Vec<u8>)
    ensures
        out@ == hex_upper(n as nat),
    decreases n,
{
    let d = (n % 16) as u8;
    let digit: u8 = if d < 10 {
        48 + d
    } else {
        55 + d
    };
    if n < 16 {
        let mut out: Vec<u8> = Vec::new();
        out.push(digit);
        out
    } else {
        let mut out = hex_bytes(n / 16);
        out.push(digit);
        out
    }
}

/// Appends the chunk of `block` to `out`.
pub fn push_frame(out: &mut Vec<u8>, block: &[u8])
    ensures
        final(out)@ == old(out)@ + frame(block@),
{
    let ghost before = out@;
    let size = hex_bytes(block.len());
    let crlf = "\r\n".as_bytes();
    append_range(out, size.as_slice(), 0, size.len());
    append_range(out, crlf, 0, crlf.len());
    append_range(out, block, 0, block.len());
    append_range(out, crlf, 0, crlf.len());
    assert(size@.subrange(0, size@.len() as int) =~= size@);
    assert(crlf@.subrange(0, crlf@.len() as int) =~= crlf@);
    assert(block@.subrange(0, block@.len() as int) =~= block@);
    assert(out@ =~= before + frame(block@));
}

/// Appends the chunks of `data`, in blocks of `size` bytes, to `out`. A
/// block size of 0 gives no chunk.
pub fn push_frames(out: &mut Vec<u8>, data: &[u8], size: usize)
    ensures
        final(out)@ == old(out)@ + chunk_frames(data@, size as nat),
{
    let n = data.len();
    let mut start: usize = 0;
    assert(data@.skip(0) =~= data@);
    if size == 0 {
        assert(out@ + Seq::<u8>::empty() =~= out@);
        return ;
    }
    while start < n
        invariant
            start <= n == data@.len(),
            size > 0,
            out@ + chunk_frames(data@.skip(start as int), size as nat) == old(out)@ + chunk_frames(
                data@,
                size as nat,
            ),
        decreases n - start,
    {
        let end = if n - start <= size {
            n
        } else {
            start + size
        };
        let ghost rest = data@.skip(start as int);
        let ghost before = out@;
        let block = slice_subrange(data, start, end);
        push_frame(out, block);
        proof {
            if n - start <= size {
                assert(block@ =~= rest);
                assert(data@.skip(end as int) =~= Seq::<u8>::empty());
                assert(out@ + chunk_frames(data@.skip(end as int), size as nat) =~= before
                    + chunk_frames(rest, size as nat));
            } else {
                assert(block@ =~= rest.take(size as int));
                assert(data@.skip(end as int) =~= rest.skip(size as int));
                assert(out@ + chunk_frames(data@.skip(end as int), size as nat) =~= before
                    + chunk_frames(rest, size as nat));
            }
        }
        start = end;
    }
    assert(out@ + Seq::<u8>::empty() =~= out@);
}

/// The head of a reply on the wire.
pub fn head_of(status: &ResponseCode, headers: &Vec<Header>, cookies: &Vec<Cookie>) -> (out: Vec<
    u8,
>)
    ensures
        out@ == head_bytes(*status, headers.deep_view(), cookies.deep_view()),
{
    let mut text = "HTTP/1.1 ".to_owned();
    let line = status.format_string();
    text.append(line.as_str());
    let block = Header::generate_headers(headers);
    text.append(block.as_str());
    let cookie_lines = Cookie::generate_set_cookie_headers(cookies);
    text.append(cookie_lines.as_str());
    text.append("\r\n\r\n");
    text.as_str().as_bytes_vec()
}

/// A reply in the making.
pub struct Response {
    pub status_code: ResponseCode,
    pub cookies: Vec<Cookie>,
    pub headers: Vec<Header>,
    pub content_encoding: Vec<Encoding>,
    pub use_compression: bool,
}

impl View for Response {
    type V = ResponseView;

    open spec fn view(&self) -> ResponseView {
        ResponseView {
            status_code: self.status_code,
            cookies: self.cookies.deep_view(),
            headers: self.headers.deep_view(),
            content_encoding: self.content_encoding@,
            use_compression: self.use_compression,
        }
    }
}

impl Response {
    /// A reply with status 200, no header, no cookie, compression off, and
    /// the accepted codings of the request.
    pub fn new(content_encoding: Option<Vec<Encoding>>) -> (res: Response)
        ensures
            res@ == (ResponseView {
                status_code: ResponseCode::Success,
                cookies: Seq::empty(),
                headers: Seq::empty(),
                content_encoding: match content_encoding {
                    Some(list) => list@,
                    None => Seq::empty(),
                },
                use_compression: false,
            }),
    {
        let res = Response {
            status_code: ResponseCode::Success,
            cookies: Vec::new(),
            headers: Vec::new(),
            content_encoding: match content_encoding {
                Some(list) => list,
                None => Vec::new(),
            },
            use_compression: false,
        };
        assert(res.cookies.deep_view() =~= Seq::<CookieView>::empty());
        assert(res.headers.deep_view() =~= Seq::<HeaderView>::empty());
        res
    }

    /// Asks the client to drop the cookie `name`: a cookie with no value,
    /// the root path and an expiry in the past is added.
    pub fn delete_cookie(&mut self, name: &str)
        ensures
            final(self)@ == (ResponseView {
                cookies: old(self)@.cookies.push(
                    CookieView {
                        name: name@,
                        value: ""@,
                        path: "/"@,
                        expires: "Thu, 01 Jan 1970 00:00:00 GMT"@,
                    },
                ),
                ..old(self)@
            }),
    {
        let ghost before = self.cookies.deep_view();
        let cookie = Cookie {
            name: name.to_owned(),
            value: "".to_owned(),
            path: "/".to_owned(),
            expires: "Thu, 01 Jan 1970 00:00:00 GMT".to_owned(),
        };
        self.cookies.push(cookie);
        assert(self.cookies.deep_view() =~= before.push(cookie@));
    }

    /// Adds a cookie.
    pub fn set_cookie(&mut self, cookie: &Cookie)
        ensures
            final(self)@ == (ResponseView {
                cookies: old(self)@.cookies.push(cookie@),
                ..old(self)@
            }),
    {
        let ghost before = self.cookies.deep_view();
        let copy = cookie.clone();
        self.cookies.push(copy);
        assert(self.cookies.deep_view() =~= before.push(cookie@));
    }

    /// Adds a header.
    pub fn set_header(&mut self, header: &Header)
        ensures
            final(self)@ == (ResponseView {
                headers: old(self)@.headers.push(header@),
                ..old(self)@
            }),
    {
        let ghost before = self.headers.deep_view();
        let copy = header.clone();
        self.headers.push(copy);
        assert(self.headers.deep_view() =~= before.push(header@));
    }

    /// Removes the first header named `name`, if there is one.
    pub fn delete_header(&mut self, name: &str)
        ensures
            final(self)@ == (ResponseView {
                headers: without_first(old(self)@.headers, name@),
                ..old(self)@
            }),
    {
        let wanted = chars_of(name);
        let ghost all = self.headers.deep_view();
        let mut i: usize = 0;
        assert(all.skip(0) =~= all);
        assert(all.take(0) + without_first(all, name@) =~= without_first(all, name@));
        while i < self.headers.len()
            invariant
                i <= self.headers@.len(),
                wanted@ == name@,
                *self == *old(self),
                all == self.headers.deep_view(),
                without_first(all, name@) == all.take(i as int) + without_first(
                    all.skip(i as int),
                    name@,
                ),
            decreases self.headers.len() - i,
        {
            let ghost rest = all.skip(i as int);
            assert(rest[0] == self.headers@[i as int]@);
            if crate::text::same_text(wanted.as_slice(), self.headers[i].name.as_str()) {
                self.headers.remove(i);
                assert(self.headers.deep_view() =~= all.take(i as int) + rest.drop_first());
                return ;
            }
            assert(rest.drop_first() =~= all.skip(i + 1));
            assert(all.take(i + 1) =~= all.take(i as int) + seq![rest[0]]);
            assert(all.take(i as int) + (seq![rest[0]] + without_first(all.skip(i + 1), name@))
                =~= all.take(i + 1) + without_first(all.skip(i + 1), name@));
            i += 1;
        }
        assert(all.take(i as int) =~= all);
        assert(all.skip(i as int) =~= Seq::<HeaderView>::empty());
        assert(all + Seq::<HeaderView>::empty() =~= all);
    }

    /// Sets the status of the reply.
    pub fn set_status(&mut self, status_code: &ResponseCode)
        ensures
            final(self)@ == (ResponseView { status_code: *status_code, ..old(self)@ }),
    {
        self.status_code = *status_code;
    }

    /// Compresses `data` for a preference of the quality `quality`.
    pub fn gzip_compress_data(&self, data: &[u8], quality: Option<u16>) -> (out: Vec<u8>)
        ensures
            out@ == gzip_bytes(data@, level_of(quality)),
    {
        let level = match quality {
            Some(q) => map_compression_level(q),
            None => map_compression_level(200),
        };
        gzip(data, level)
    }

    /// The payload for `data` where compression is on: compressed, with the
    /// header that says so, where the first accepted coding allows it.
    pub fn compress_data(&mut self, data: &[u8]) -> (out: Vec<u8>)
        ensures
            out@ == (ResponseView { use_compression: true, ..old(self)@ }).payload(data@),
            final(self)@ == (ResponseView {
                headers: (ResponseView { use_compression: true, ..old(self)@ }).prepared(),
                ..old(self)@
            }),
    {
        if self.content_encoding.len() == 0 {
            return copy_range(data, 0, data.len());
        }
        let encoding = self.content_encoding[0];
        if encoding.encoding_type == EncodingType::Any || encoding.encoding_type
            == EncodingType::Gzip {
            let name = EncodingType::Gzip.to_string();
            self.set_header(&Header::new("Content-Encoding", name.as_str()));
            return self.gzip_compress_data(data, encoding.quality);
        }
        copy_range(data, 0, data.len())
    }

    /// The payload for `data`, and the headers that go with it.
    pub fn prepare_data(&mut self, data: &[u8]) -> (out: Vec<u8>)
        ensures
            out@ == old(self)@.payload(data@),
            final(self)@ == (ResponseView { headers: old(self)@.prepared(), ..old(self)@ }),
    {
        if self.use_compression {
            self.compress_data(data)
        } else {
            copy_range(data, 0, data.len())
        }
    }

    /// Ends the reply with `data` in one piece.
    pub fn send_bytes(self, data: &[u8], content_type: Option<ContentType>) -> (wire: Vec<u8>)
        ensures
            wire@ == self@.direct_wire(data@, given_type(content_type)),
    {
        let mut res = self;
        let kind = match content_type {
            Some(t) => t,
            None => ContentType::Unset,
        };
        let payload = res.prepare_data(data);
        res.set_header(&Header::new("Content-Type", kind.as_str()));
        let length = decimal_string(payload.len() as u64);
        res.set_header(&Header::new("Content-Length", length.as_str()));
        let mut wire = head_of(&res.status_code, &res.headers, &res.cookies);
        append_range(&mut wire, payload.as_slice(), 0, payload.len());
        assert(payload@.subrange(0, payload@.len() as int) =~= payload@);
        wire
    }

    /// Ends the reply with `data` in chunks.
    pub fn send_bytes_chunked(self, data: &[u8], content_type: Option<ContentType>) -> (wire: Vec<
        u8,
    >)
        ensures
            wire@ == self@.chunked_wire(data@, given_type(content_type)),
    {
        let mut res = self;
        let kind = match content_type {
            Some(t) => t,
            None => ContentType::Unset,
        };
        let payload = res.prepare_data(data);
        res.set_header(&Header::new("Content-Type", kind.as_str()));
        res.set_header(&Header::new("Transfer-Encoding", "chunked"));
        res.set_header(&Header::new("Connection", "keep-alive"));
        let mut wire = head_of(&res.status_code, &res.headers, &res.cookies);
        push_frames(&mut wire, payload.as_slice(), CHUNK_SIZE);
        let end = "0\r\n\r\n".as_bytes();
        append_range(&mut wire, end, 0, end.len());
        assert(end@.subrange(0, end@.len() as int) =~= end@);
        wire
    }

    /// Ends the reply with a text in one piece.
    pub fn send_string(self, data: &str) -> (wire: Vec<u8>)
        ensures
            wire@ == self@.direct_wire(data.spec_bytes(), ContentTypeView::PlainText),
    {
        self.send_bytes(data.as_bytes(), Some(ContentType::PlainText))
    }

    /// Ends the reply with a text in chunks.
    pub fn send_string_chunked(self, data: &str) -> (wire: Vec<u8>)
        ensures
            wire@ == self@.chunked_wire(data.spec_bytes(), ContentTypeView::PlainText),
    {
        self.send_bytes_chunked(data.as_bytes(), Some(ContentType::PlainText))
    }

    /// Ends the reply with a JSON text in one piece.
    pub fn send_json(self, data: &str) -> (wire: Vec<u8>)
        ensures
            wire@ == self@.direct_wire(data.spec_bytes(), ContentTypeView::Json),
    {
        self.send_bytes(data.as_bytes(), Some(ContentType::Json))
    }

    /// Ends the reply with a JSON text in chunks.
    pub fn send_json_chunked(self, data: &str) -> (wire: Vec<u8>)
        ensures
            wire@ == self@.chunked_wire(data.spec_bytes(), ContentTypeView::Json),
    {
        self.send_bytes_chunked(data.as_bytes(), Some(ContentType::Json))
    }

    /// Ends the reply with `data` as a download named `file_name`, in chunks.
    pub fn send_download_bytes(self, data: &[u8], file_name: &str) -> (wire: Vec<u8>)
        ensures
            wire@ == (ResponseView {
                headers: self@.headers.push(
                    header("Content-Disposition"@, "attachment; filename="@ + file_name@),
                ),
                ..self@
            }).chunked_wire(data@, ContentTypeView::OctetStream),
    {
        let mut res = self;
        let mut value = "attachment; filename=".to_owned();
        value.append(file_name);
        res.set_header(&Header::new("Content-Disposition", value.as_str()));
        res.send_bytes_chunked(data, Some(ContentType::OctetStream))
    }

    /// Ends the reply with the stock text of the status `code`.
    pub fn send_code(self, code: ResponseCode) -> (wire: Vec<u8>)
        ensures
            wire@ == self@.code_wire(code),
    {
        let mut res = self;
        let mut text = "HTTP/1.1 ".to_owned();
        let line = code.format_string();
        text.append(line.as_str());
        let desc = code.to_desc();
        let length = decimal_string(chars_of(desc.as_str()).len() as u64);
        res.set_header(&Header::new("Content-Type", "text/plain"));
        res.set_header(&Header::new("Content-Length", length.as_str()));
        let block = Header::generate_headers(&res.headers);
        let cookie_lines = Cookie::generate_set_cookie_headers(&res.cookies);
        text.append(block.as_str());
        text.append(cookie_lines.as_str());
        text.append("\r\n\r\n");
        text.append(desc.as_str());
        text.as_str().as_bytes_vec()
    }
}

/// The state of a piped reply, in the model: how many bytes may still go
/// out, where a target count was given, and whether the last chunk has gone
/// out.
pub struct PipeView {
    pub remaining: Option<u64>,
    pub done: bool,
}

impl PipeView {
    /// The state before the first block, with the target `target`.
    pub open spec fn fresh(target: Option<u64>) -> PipeView {
        PipeView { remaining: target, done: false }
    }

    /// How many bytes of a block of `n` bytes go out: all of them, or as
    /// many as may still go out, and none once the pipe is done.
    pub open spec fn share(self, n: int) -> int {
        if self.done {
            0
        } else {
            match self.remaining {
                Some(r) => if n < r {
                    n
                } else {
                    r as int
                },
                None => n,
            }
        }
    }

    /// The state after a block of `n` bytes: the pipe is done once a block
    /// is empty or the target is reached.
    pub open spec fn after(self, n: int) -> PipeView {
        let left: Option<u64> = match self.remaining {
            Some(r) => Some((r - self.share(n)) as u64),
            None => None,
        };
        PipeView { remaining: left, done: self.done || n == 0 || left == Some(0u64) }
    }

    /// What goes on the wire for the block `block`: the chunk of the bytes
    /// that go out, and the last chunk where this block ends the pipe.
    pub open spec fn wire(self, block: Seq<u8>) -> Seq<u8> {
        (if self.share(block.len() as int) > 0 {
            frame(block.take(self.share(block.len() as int)))
        } else {
            Seq::empty()
        }) + (if self.after(block.len() as int).done && !self.done {
            last_chunk()
        } else {
            Seq::empty()
        })
    }

    /// The bytes of the block `block` that go out as content.
    pub open spec fn content(self, block: Seq<u8>) -> Seq<u8> {
        block.take(self.share(block.len() as int))
    }

    /// The state after the blocks `blocks`, in order.
    pub open spec fn after_all(self, blocks: Seq<Seq<u8>>) -> PipeView
        decreases blocks.len(),
    {
        if blocks.len() == 0 {
            self
        } else {
            self.after_all(blocks.drop_last()).after(blocks.last().len() as int)
        }
    }

    /// All the content that goes out for the blocks `blocks`.
    pub open spec fn content_of(self, blocks: Seq<Seq<u8>>) -> Seq<u8>
        decreases blocks.len(),
    {
        if blocks.len() == 0 {
            Seq::empty()
        } else {
            self.content_of(blocks.drop_last()) + self.after_all(blocks.drop_last()).content(
                blocks.last(),
            )
        }
    }

    /// All that goes on the wire for the blocks `blocks`.
    pub open spec fn wire_of(self, blocks: Seq<Seq<u8>>) -> Seq<u8>
        decreases blocks.len(),
    {
        if blocks.len() == 0 {
            Seq::empty()
        } else {
            self.wire_of(blocks.drop_last()) + self.after_all(blocks.drop_last()).wire(
                blocks.last(),
            )
        }
    }
}

/// The blocks one after the other.
pub open spec fn joined(blocks: Seq<Seq<u8>>) -> Seq<u8>
    decreases blocks.len(),
{
    if blocks.len() == 0 {
        Seq::empty()
    } else {
        joined(blocks.drop_last()) + blocks.last()
    }
}

/// The state of a piped reply. The caller asks [`Pipe::next_read`] how much
/// to read from the source, reads, and hands the block to [`Pipe::feed`],
/// which returns the bytes to write, until the pipe is done.
pub struct Pipe {
    remaining: Option<u64>,
    done: bool,
}

impl View for Pipe {
    type V = PipeView;

    closed spec fn view(&self) -> PipeView {
        PipeView { remaining: self.remaining, done: self.done }
    }
}

impl Pipe {
    /// A pipe that lets `target` bytes through, or all where none is given.
    pub fn new(target: Option<u64>) -> (pipe: Pipe)
        ensures
            pipe@ == PipeView::fresh(target),
    {
        Pipe { remaining: target, done: false }
    }

    /// Whether the last chunk has gone out.
    pub fn is_done(&self) -> (r: bool)
        ensures
            r == self@.done,
    {
        self.done
    }

    /// The size of the next read from the source: one block, or what may
    /// still go out where that is less; 0 once the pipe is done.
    pub fn next_read(&self) -> (n: usize)
        ensures
            n == self@.share(PIPE_BLOCK as int),
    {
        if self.done {
            0
        } else {
            match self.remaining {
                Some(r) => if r < PIPE_BLOCK as u64 {
                    r as usize
                } else {
                    PIPE_BLOCK
                },
                None => PIPE_BLOCK,
            }
        }
    }

    /// Takes a block read from the source and returns what goes on the wire
    /// for it. An empty block stands for the end of the source. A pipe that
    /// is done gives nothing.
    pub fn feed(&mut self, block: &[u8]) -> (out: Vec<u8>)
        ensures
            final(self)@ == old(self)@.after(block@.len() as int),
            out@ == old(self)@.wire(block@),
    {
        let mut out: Vec<u8> = Vec::new();
        if self.done {
            assert(out@ =~= self@.wire(block@));
            return out;
        }
        let n = block.len();
        let k: usize = match self.remaining {
            Some(r) => if (n as u64) < r {
                n
            } else {
                r as usize
            },
            None => n,
        };
        if k > 0 {
            push_frame(&mut out, slice_subrange(block, 0, k));
            assert(block@.subrange(0, k as int) =~= block@.take(k as int));
        }
        let left = match self.remaining {
            Some(r) => Some(r - k as u64),
            None => None,
        };
        let ended = match left {
            Some(r) => n == 0 || r == 0,
            None => n == 0,
        };
        if ended {
            let end = "0\r\n\r\n".as_bytes();
            append_range(&mut out, end, 0, end.len());
            assert(end@.subrange(0, end@.len() as int) =~= end@);
        } else {
            assert(out@ + Seq::<u8>::empty() =~= out@);
        }
        self.remaining = left;
        self.done = ended;
        out
    }
}

impl Response {
    /// Begins a piped reply: returns the head, and the pipe that frames the
    /// blocks of the source. The length header advertises `stream_size`; the
    /// pipe lets `target` bytes through.
    pub fn pipe_stream(
        self,
        content_type: Option<ContentType>,
        stream_size: Option<u64>,
        target: Option<u64>,
    ) -> (r: (Vec<u8>, Pipe))
        ensures
            r.0@ == head_bytes(
                self@.status_code,
                self@.piped_headers(content_type.deep_view(), stream_size),
                self@.cookies,
            ),
            r.1@ == PipeView::fresh(target),
    {
        let mut res = self;
        match content_type {
            Some(t) => {
                res.set_header(&Header::new("Content-Type", t.as_str()));
            },
            None => {},
        }
        match stream_size {
            Some(n) => {
                let length = decimal_string(n);
                res.set_header(&Header::new("Content-Length", length.as_str()));
            },
            None => {},
        }
        res.set_header(&Header::new("Transfer-Encoding", "chunked"));
        res.set_header(&Header::new("Connection", "keep-alive"));
        let head = head_of(&res.status_code, &res.headers, &res.cookies);
        (head, Pipe::new(target))
    }

    /// Begins a piped reply that is a download named `file_name`.
    pub fn send_download_stream(
        self,
        file_name: &str,
        file_size: Option<u64>,
        target: Option<u64>,
    ) -> (r: (Vec<u8>, Pipe))
        ensures
            r.0@ == head_bytes(
                self@.status_code,
                (ResponseView {
                    headers: self@.headers.push(
                        header("Content-Disposition"@, "attachment; filename="@ + file_name@),
                    ),
                    ..self@
                }).piped_headers(Some(ContentTypeView::OctetStream), file_size),
                self@.cookies,
            ),
            r.1@ == PipeView::fresh(target),
    {
        let mut res = self;
        let mut value = "attachment; filename=".to_owned();
        value.append(file_name);
        res.set_header(&Header::new("Content-Disposition", value.as_str()));
        res.pipe_stream(Some(ContentType::OctetStream), file_size, target)
    }
}

/// The number of bytes of a source of `len` bytes that a pipe with the
/// target `target` lets through.
pub open spec fn piped_len(len: nat, target: Option<u64>) -> nat {
    match target {
        Some(t) => if t < len {
            t as nat
        } else {
            len
        },
        None => len,
    }
}

/// The body of a piped reply for a source that is all in memory: the bytes
/// that the target lets through, in chunks of [`PIPE_BLOCK`] bytes, and the
/// last chunk.
pub open spec fn piped_body(source: Seq<u8>, target: Option<u64>) -> Seq<u8> {
    chunk_frames(source.take(piped_len(source.len(), target) as int), PIPE_BLOCK as nat)
        + last_chunk()
}

/// Pipes a source that is all in memory: reads it block by block as a
/// stream would be read, and returns all that the pipe gives.
pub fn pipe_bytes(source: &[u8], target: Option<u64>) -> (wire: Vec<u8>)
    ensures
        wire@ == piped_body(source@, target),
{
    let mut pipe = Pipe::new(target);
    let mut wire: Vec<u8> = Vec::new();
    let len = source.len();
    let ghost total = piped_len(source@.len(), target) as int;
    let ghost data = source@.take(total);
    let mut pos: usize = 0;
    assert(data.skip(0) =~= data);
    while !pipe.is_done()
        invariant
            len == source@.len(),
            total == piped_len(source@.len(), target),
            data == source@.take(total),
            pos <= total <= len,
            target is Some ==> pipe@.remaining == Some((target->0 - pos) as u64),
            target is None ==> pipe@.remaining is None,
            if pipe@.done {
                wire@ == piped_body(source@, target)
            } else {
                wire@ + chunk_frames(data.skip(pos as int), PIPE_BLOCK as nat) + last_chunk()
                    == piped_body(source@, target)
            },
        decreases
                (if pipe@.done {
                    0int
                } else {
                    1int
                }) + total - pos,
    {
        let want = pipe.next_read();
        let n = if len - pos < want {
            len - pos
        } else {
            want
        };
        let ghost rest = data.skip(pos as int);
        let ghost before = wire@;
        let block = slice_subrange(source, pos, pos + n);
        let out = pipe.feed(block);
        append_range(&mut wire, out.as_slice(), 0, out.len());
        proof {
            assert(out@.subrange(0, out@.len() as int) =~= out@);
            assert(n == total - pos || (n == PIPE_BLOCK && n < total - pos));
            assert(block@.take(n as int) =~= block@);
            if n == 0 {
                assert(rest =~= Seq::<u8>::empty());
                assert(before + Seq::<u8>::empty() + last_chunk() =~= before + last_chunk());
            } else if n == total - pos {
                assert(block@ =~= rest);
                assert(data.skip(pos + n) =~= Seq::<u8>::empty());
                assert(chunk_frames(rest, PIPE_BLOCK as nat) == frame(rest));
                if pipe@.done {
                    assert(wire@ =~= before + frame(rest) + last_chunk());
                } else {
                    assert(wire@ + Seq::<u8>::empty() + last_chunk() =~= before + frame(rest)
                        + last_chunk());
                }
            } else {
                assert(block@ =~= rest.take(PIPE_BLOCK as int));
                assert(data.skip(pos + n) =~= rest.skip(PIPE_BLOCK as int));
                assert(wire@ + chunk_frames(data.skip(pos + n), PIPE_BLOCK as nat) + last_chunk()
                    =~= before + chunk_frames(rest, PIPE_BLOCK as nat) + last_chunk());
            }
        }
        pos = pos + n;
    }
    wire
}

/// A pipe with the target `target` that is fed the blocks `blocks`, none of
/// them empty, lets through the start of the source up to the target, or all
/// of it where it is shorter, and is done as soon as the target is reached.
pub proof fn lemma_pipe_progress(target: u64, blocks: Seq<Seq<u8>>)
    requires
        forall|i: int| 0 <= i < blocks.len() ==> (#[trigger] blocks[i]).len() > 0,
    ensures
        PipeView::fresh(Some(target)).after_all(blocks).remaining == Some(
            (target - piped_len(joined(blocks).len(), Some(target))) as u64,
        ),
        PipeView::fresh(Some(target)).after_all(blocks).done == (blocks.len() > 0 && joined(
            blocks,
        ).len() >= target),
        PipeView::fresh(Some(target)).content_of(blocks) == joined(blocks).take(
            piped_len(joined(blocks).len(), Some(target)) as int,
        ),
    decreases blocks.len(),
{
    let p = PipeView::fresh(Some(target));
    if blocks.len() == 0 {
        assert(joined(blocks).take(0) =~= Seq::<u8>::empty());
    } else {
        let front = blocks.drop_last();
        let b = blocks.last();
        assert forall|i: int| 0 <= i < front.len() implies (#[trigger] front[i]).len() > 0 by {
            assert(front[i] == blocks[i]);
        }
        lemma_pipe_progress(target, front);
        let before = p.after_all(front);
        let sent_front = piped_len(joined(front).len(), Some(target)) as int;
        let sent = piped_len(joined(blocks).len(), Some(target)) as int;
        let share = before.share(b.len() as int);
        assert(sent == sent_front + share);
        assert(p.content_of(blocks) =~= joined(blocks).take(sent));
    }
}

/// A piped send with a target of `target` bytes, smaller than the length of
/// the source, puts exactly the first `target` bytes of the source into its
/// chunks, and is done.
pub proof fn lemma_pipe_target(target: u64, blocks: Seq<Seq<u8>>)
    requires
        forall|i: int| 0 <= i < blocks.len() ==> (#[trigger] blocks[i]).len() > 0,
        target < joined(blocks).len(),
    ensures
        PipeView::fresh(Some(target)).content_of(blocks) == joined(blocks).take(target as int),
        PipeView::fresh(Some(target)).content_of(blocks).len() == target,
        PipeView::fresh(Some(target)).after_all(blocks).done,
{
    lemma_pipe_progress(target, blocks);
}

/// The chunks that go on the wire for the blocks `blocks`, without the last
/// chunk.
pub open spec fn chunks_of(pipe: PipeView, blocks: Seq<Seq<u8>>) -> Seq<u8>
    decreases blocks.len(),
{
    if blocks.len() == 0 {
        Seq::empty()
    } else {
        let before = pipe.after_all(blocks.drop_last());
        chunks_of(pipe, blocks.drop_last()) + if before.share(blocks.last().len() as int) > 0 {
            frame(before.content(blocks.last()))
        } else {
            Seq::empty()
        }
    }
}

/// What a pipe puts on the wire is the chunks of the content and, once it
/// is done, the last chunk after them, and nothing after that.
pub proof fn lemma_pipe_wire(pipe: PipeView, blocks: Seq<Seq<u8>>)
    requires
        !pipe.done,
    ensures
        pipe.wire_of(blocks) == chunks_of(pipe, blocks) + if pipe.after_all(blocks).done {
            last_chunk()
        } else {
            Seq::empty()
        },
    decreases blocks.len(),
{
    if blocks.len() == 0 {
        assert(pipe.wire_of(blocks) =~= chunks_of(pipe, blocks) + Seq::<u8>::empty());
    } else {
        let front = blocks.drop_last();
        lemma_pipe_wire(pipe, front);
        let before = pipe.after_all(front);
        let b = blocks.last();
        if before.done {
            assert(pipe.wire_of(blocks) =~= chunks_of(pipe, blocks) + last_chunk());
        } else if before.after(b.len() as int).done {
            assert(pipe.wire_of(blocks) =~= chunks_of(pipe, blocks) + last_chunk());
        } else {
            assert(pipe.wire_of(blocks) =~= chunks_of(pipe, blocks) + Seq::<u8>::empty());
        }
    }
}

} // verus!
