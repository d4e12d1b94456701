//! The request decoder: header lines into a structured request, and the
//! body into items.

use crate::body::{
    decode_multipart, decode_urlencoded, multipart_body, normalized, slots_of, urlencoded_slots,
    BodyItem, BodyItemInfo, BodyItemInfoView, Slot,
};
use crate::seqs::{
    matches_at, ranges_within, same_ranges, split, split_indices, split_once,
    split_once_indices, split_ranges, starts_with,
};
use crate::strmap::StringMap;
use crate::structs::{
    content_type_of, encoding_of, ContentType, ContentTypeView, Cookie, CookieView, Encoding,
    EncodingType, Header, HeaderView, HttpServerError,
};
use crate::text::{
    all_digits, chars_of, digit_value, has_blank, is_digit, lowercase_of, lowercased,
    parse_unsigned, parse_usize, string_of_range, utf8_lossy,
};
use vstd::prelude::*;
use vstd::slice::slice_subrange;

verus! {

/// The digit at position `i` of a fraction, or 0 past its end.
pub open spec fn frac_digit(frac: Seq<char>, i: int) -> nat {
    if 0 <= i < frac.len() {
        digit_value(frac[i])
    } else {
        0
    }
}

/// Every character of `s` is the digit zero.
pub open spec fn all_zero(s: Seq<char>) -> bool {
    forall|i: int| 0 <= i < s.len() ==> #[trigger] s[i] == '0'
}

/// The thousandths that a decimal numeral stands for, at most 1000: digits, a
/// point and digits, with at least one digit in all. Digits after the third
/// decimal place do not count; a numeral of one or more is 1000.
pub open spec fn milli_of(text: Seq<char>) -> Option<u16> {
    match split_once(text, "."@) {
        Some((whole, frac)) => milli_parts(whole, frac),
        None => milli_parts(text, Seq::empty()),
    }
}

/// The thousandths of a numeral with the digits `whole` before its point and
/// the digits `frac` after it.
pub open spec fn milli_parts(whole: Seq<char>, frac: Seq<char>) -> Option<u16> {
    if !all_digits(whole) || !all_digits(frac) || whole.len() + frac.len() == 0 {
        None
    } else if !all_zero(whole) {
        Some(1000)
    } else {
        Some((frac_digit(frac, 0) * 100 + frac_digit(frac, 1) * 10 + frac_digit(frac, 2)) as u16)
    }
}

/// The quality that the parameter of an accepted coding gives: the numeral
/// after an optional `q=`.
pub open spec fn quality_of(param: Seq<char>) -> Option<u16> {
    if starts_with(param, "q="@) {
        milli_of(param.subrange("q="@.len() as int, param.len() as int))
    } else {
        milli_of(param)
    }
}

/// `s` without the blanks at its start.
pub open spec fn strip_start(s: Seq<char>) -> Seq<char>
    decreases s.len(),
{
    if s.len() > 0 && s[0] == ' ' {
        strip_start(s.drop_first())
    } else {
        s
    }
}

/// `s` without the blanks at its end.
pub open spec fn strip_end(s: Seq<char>) -> Seq<char>
    decreases s.len(),
{
    if s.len() > 0 && s.last() == ' ' {
        strip_end(s.drop_last())
    } else {
        s
    }
}

/// `s` without the blanks at its two ends.
pub open spec fn stripped(s: Seq<char>) -> Seq<char> {
    strip_end(strip_start(s))
}

/// The preference that one token of an Accept-Encoding header gives: the
/// coding that stands before the first semicolon, and the quality that the
/// parameter after it gives, each without the blanks around it. A token
/// that names no known coding is kept as an unknown one.
pub open spec fn encoding_entry(token: Seq<char>) -> Encoding {
    let parts = split(token, ";"@);
    Encoding {
        encoding_type: encoding_of(lowercased(stripped(parts[0]))),
        quality: if parts.len() > 1 {
            quality_of(stripped(parts[1]))
        } else {
            None
        },
    }
}

/// The preferences of an Accept-Encoding value: one for each token between
/// its commas, in the order of the header.
pub open spec fn encodings_of(value: Seq<char>) -> Seq<Encoding> {
    split(value, ","@).map_values(|token: Seq<char>| encoding_entry(token))
}

/// The boundary that the parameters of a Content-Type give: what follows
/// `boundary=` in the first parameter at or after `from` that begins so.
pub open spec fn boundary_of(params: Seq<Seq<char>>, from: int) -> Option<Seq<char>>
    decreases params.len() - from,
{
    if from < 0 || from >= params.len() {
        None
    } else if starts_with(params[from], "boundary="@) {
        Some(params[from].subrange("boundary="@.len() as int, params[from].len() as int))
    } else {
        boundary_of(params, from + 1)
    }
}

/// The cookies that the pieces of a Cookie value give: each piece with an
/// equals sign gives one, named by what stands before the first equals sign
/// and valued by what stands after it.
pub open spec fn cookies_from(pieces: Seq<Seq<char>>) -> Seq<CookieView>
    decreases pieces.len(),
{
    if pieces.len() == 0 {
        Seq::empty()
    } else {
        match split_once(pieces.last(), "="@) {
            Some((name, value)) => cookies_from(pieces.drop_last()).push(
                CookieView { name, value, path: Seq::empty(), expires: Seq::empty() },
            ),
            None => cookies_from(pieces.drop_last()),
        }
    }
}

/// The cookies of a Cookie value.
pub open spec fn cookies_of(value: Seq<char>) -> Seq<CookieView> {
    cookies_from(split(value, "; "@))
}

/// The length that the value of a Content-Length line declares: 0 where it
/// is no number that fits.
pub open spec fn length_of(token: Seq<char>) -> usize {
    match parse_unsigned(token, usize::MAX as nat) {
        Some(n) => n as usize,
        None => 0,
    }
}

/// What has been decoded of a body, in the model.
pub struct BodyStoreView {
    pub slots: Seq<Slot>,
    pub buffer: Seq<u8>,
    pub decoded: bool,
}

/// The mathematical value of a [`Request`].
pub struct RequestView {
    pub query: Map<Seq<char>, Seq<char>>,
    pub params: Map<Seq<char>, Seq<char>>,
    pub headers: Seq<HeaderView>,
    pub cookies: Seq<CookieView>,
    pub ip: Option<Seq<char>>,
    pub user_agent: Option<Seq<char>>,
    pub content_encoding: Option<Seq<Encoding>>,
    pub content_length: usize,
    pub content_type: Option<ContentTypeView>,
    pub boudary: Option<Seq<char>>,
    pub body: BodyStoreView,
}

/// The request after one more header line, given the line's lower-case form.
/// `Err` stands for a Content-Type with a blank in its media type.
///
/// The recognized headers are told by the lower-case form of the line, and
/// their values are what follows a fixed number of characters of the line
/// itself; a recognized line too short for that changes nothing.
pub open spec fn apply_line_with(req: RequestView, line: Seq<char>, lower: Seq<char>) -> Result<
    RequestView,
    (),
> {
    let n = line.len() as int;
    if starts_with(lower, "user-agent:"@) {
        if n < "User-Agent: "@.len() {
            Ok(req)
        } else {
            Ok(RequestView { user_agent: Some(line.subrange("User-Agent: "@.len() as int, n)), ..req })
        }
    } else if starts_with(lower, "content-length:"@) {
        if n < "Content-Length: "@.len() {
            Ok(req)
        } else {
            Ok(
                RequestView {
                    content_length: length_of(line.subrange("Content-Length: "@.len() as int, n)),
                    ..req
                },
            )
        }
    } else if starts_with(lower, "accept-encoding:"@) {
        if n < "Accept-Encoding: "@.len() {
            Ok(req)
        } else {
            Ok(
                RequestView {
                    content_encoding: Some(
                        encodings_of(line.subrange("Accept-Encoding: "@.len() as int, n)),
                    ),
                    ..req
                },
            )
        }
    } else if starts_with(lower, "content-type:"@) {
        if n < "Content-Type: "@.len() {
            Ok(req)
        } else {
            let parts = split(line.subrange("Content-Type: "@.len() as int, n), "; "@);
            if has_blank(parts[0]) {
                Err(())
            } else {
                Ok(
                    RequestView {
                        content_type: Some(content_type_of(lowercased(parts[0]))),
                        boudary: match boundary_of(parts, 1) {
                            Some(token) => Some(token),
                            None => req.boudary,
                        },
                        ..req
                    },
                )
            }
        }
    } else if starts_with(lower, "cookie:"@) {
        if n < "Cookie: "@.len() {
            Ok(req)
        } else {
            Ok(
                RequestView {
                    cookies: req.cookies + cookies_of(line.subrange("Cookie: "@.len() as int, n)),
                    ..req
                },
            )
        }
    } else {
        match split_once(line, ": "@) {
            Some((name, value)) => Ok(
                RequestView { headers: req.headers.push(HeaderView { name, value }), ..req },
            ),
            None => Ok(req),
        }
    }
}

/// The request after one more header line.
pub open spec fn apply_line(req: RequestView, line: Seq<char>) -> Result<RequestView, ()> {
    apply_line_with(req, line, lowercased(line))
}

/// The request after the header lines `lines`, taken in order; the first
/// failing line fails the whole.
pub open spec fn apply_lines(req: RequestView, lines: Seq<Seq<char>>) -> Result<RequestView, ()>
    decreases lines.len(),
{
    if lines.len() == 0 {
        Ok(req)
    } else {
        match apply_lines(req, lines.drop_last()) {
            Ok(front) => apply_line(front, lines.last()),
            Err(e) => Err(e),
        }
    }
}

/// The request that nothing has been decoded into yet.
pub open spec fn blank_request(
    query: Map<Seq<char>, Seq<char>>,
    params: Map<Seq<char>, Seq<char>>,
) -> RequestView {
    RequestView {
        query,
        params,
        headers: Seq::empty(),
        cookies: Seq::empty(),
        ip: None,
        user_agent: None,
        content_encoding: None,
        content_length: 0,
        content_type: None,
        boudary: None,
        body: BodyStoreView { slots: Seq::empty(), buffer: Seq::empty(), decoded: false },
    }
}

/// The body that a raw buffer decodes into, or the reason why it does not.
///
/// A url-encoded body gives one item for each pair. A multipart body needs a
/// boundary, is normalized, and gives one item for each part. Any other body
/// gives one unnamed item for the whole buffer.
pub open spec fn decoded_body(
    content_type: Option<ContentTypeView>,
    boundary: Option<Seq<char>>,
    raw: Seq<u8>,
) -> Result<BodyStoreView, Seq<char>> {
    match content_type {
        Some(ContentTypeView::UrlEncoded) => Ok(
            BodyStoreView { slots: urlencoded_slots(raw), buffer: raw, decoded: true },
        ),
        Some(ContentTypeView::MultipartForm) => match boundary {
            None => Err("No boundary!"@),
            Some(token) => match multipart_body(normalized(raw), vstd::utf8::encode_utf8(token)) {
                Ok(slots) => Ok(BodyStoreView { slots, buffer: normalized(raw), decoded: true }),
                Err(_) => Err("Content Type can't contain blank spaces."@),
            },
        },
        _ => Ok(
            BodyStoreView {
                slots: seq![
                    Slot {
                        info: BodyItemInfoView {
                            content_type: match content_type {
                                Some(t) => t,
                                None => ContentTypeView::Unset,
                            },
                            name: None,
                            file_name: None,
                            value: None,
                        },
                        start: 0,
                        end: raw.len() as int,
                    },
                ],
                buffer: raw,
                decoded: true,
            },
        ),
    }
}

/// The items of a decoded body: a url-encoded item has its value and no
/// data; any other item has its range of the buffer as data and no value.
pub open spec fn slot_item(buffer: Seq<u8>, slot: Slot) -> crate::body::BodyItemView {
    if slot.info.content_type == ContentTypeView::UrlEncoded {
        crate::body::BodyItemView {
            info: slot.info,
            data: Seq::empty(),
            value: match slot.info.value {
                Some(v) => v,
                None => Seq::empty(),
            },
        }
    } else {
        crate::body::BodyItemView {
            info: slot.info,
            data: buffer.subrange(slot.start, slot.end),
            value: Seq::empty(),
        }
    }
}

/// The decoded body of a request: the infos of its items, the ranges of
/// their data, and the buffer that the ranges point into.
pub struct BodyStore {
    infos: Vec<BodyItemInfo>,
    ranges: Vec<(usize, usize)>,
    buffer: Vec<u8>,
    decoded: bool,
}

impl View for BodyStore {
    type V = BodyStoreView;

    closed spec fn view(&self) -> BodyStoreView {
        BodyStoreView {
            slots: slots_of(self.infos@, self.ranges@),
            buffer: self.buffer@,
            decoded: self.decoded,
        }
    }
}

impl BodyStore {
    /// There is one range for each info, and every range lies in the buffer.
    #[verifier::type_invariant]
    spec fn well_formed(&self) -> bool {
        &&& self.infos@.len() == self.ranges@.len()
        &&& ranges_within(self.ranges@, self.buffer@.len() as int)
    }

    /// The store of a body that has not been decoded.
    pub fn new() -> (store: BodyStore)
        ensures
            store@ == (BodyStoreView { slots: Seq::empty(), buffer: Seq::empty(), decoded: false }),
    {
        let store = BodyStore {
            infos: Vec::new(),
            ranges: Vec::new(),
            buffer: Vec::new(),
            decoded: false,
        };
        assert(slots_of(store.infos@, store.ranges@) =~= Seq::<Slot>::empty());
        store
    }

    /// Whether a body has been decoded into this store.
    pub fn is_decoded(&self) -> (r: bool)
        ensures
            r == self@.decoded,
    {
        self.decoded
    }

    /// The number of items.
    pub fn len(&self) -> (n: usize)
        ensures
            n == self@.slots.len(),
    {
        self.infos.len()
    }

    /// The raw buffer that the items point into.
    pub fn buffer(&self) -> (b: &Vec<u8>)
        ensures
            b@ == self@.buffer,
    {
        &self.buffer
    }

    /// Decodes the raw body `raw` of a request with the given content type
    /// and boundary.
    pub fn decode(content_type: &Option<ContentType>, boundary: &Option<String>, raw: Vec<u8>) -> (r:
        Result<BodyStore, HttpServerError>)
        ensures
            match r {
                Ok(store) => decoded_body(content_type.deep_view(), boundary.deep_view(), raw@)
                    == Ok::<BodyStoreView, Seq<char>>(store@),
                Err(e) => decoded_body(content_type.deep_view(), boundary.deep_view(), raw@)
                    == Err::<BodyStoreView, Seq<char>>(e@),
            },
    {
        let mut buffer = raw;
        match content_type {
            Some(ContentType::UrlEncoded) => {
                let infos = decode_urlencoded(buffer.as_slice());
                let mut ranges: Vec<(usize, usize)> = Vec::new();
                let mut i: usize = 0;
                while i < infos.len()
                    invariant
                        i <= infos@.len(),
                        ranges@.len() == i,
                        forall|j: int| 0 <= j < i ==> #[trigger] ranges@[j] == (0usize, 0usize),
                    decreases infos.len() - i,
                {
                    ranges.push((0, 0));
                    i += 1;
                }
                assert(slots_of(infos@, ranges@) =~= urlencoded_slots(raw@)) by {
                    let pairs = crate::url::form_pairs(utf8_lossy(raw@));
                    assert(infos.deep_view().len() == pairs.len());
                    assert(infos.deep_view().len() == infos@.len());
                    assert forall|j: int| 0 <= j < infos@.len() implies slots_of(
                        infos@,
                        ranges@,
                    )[j] == urlencoded_slots(raw@)[j] by {
                        assert(infos.deep_view()[j] == infos@[j]@);
                        assert(infos.deep_view()[j] == crate::body::url_info(pairs[j]));
                        assert(ranges@[j] == (0usize, 0usize));
                    }
                }
                Ok(BodyStore { infos, ranges, buffer, decoded: true })
            },
            Some(ContentType::MultipartForm) => {
                match boundary {
                    None => Err(HttpServerError::new("No boundary!")),
                    Some(token) => {
                        match decode_multipart(&mut buffer, token.as_str().as_bytes()) {
                            Ok((infos, ranges)) => Ok(
                                BodyStore { infos, ranges, buffer, decoded: true },
                            ),
                            Err(e) => Err(e),
                        }
                    },
                }
            },
            _ => {
                let kind = match content_type {
                    Some(t) => t.clone(),
                    None => ContentType::Unset,
                };
                let mut infos: Vec<BodyItemInfo> = Vec::new();
                let mut ranges: Vec<(usize, usize)> = Vec::new();
                infos.push(BodyItemInfo::new_simple(kind));
                ranges.push((0, buffer.len()));
                let store = BodyStore { infos, ranges, buffer, decoded: true };
                assert(store@.slots =~= decoded_body(
                    content_type.deep_view(),
                    boundary.deep_view(),
                    raw@,
                )->Ok_0.slots);
                Ok(store)
            },
        }
    }

    /// The items of the body, in the order in which they were met.
    pub fn items(&self) -> (out: Vec<BodyItem<'_>>)
        ensures
            out.deep_view() == self@.slots.map_values(|slot: Slot| slot_item(self@.buffer, slot)),
    {
        proof {
            use_type_invariant(self);
        }
        let mut out: Vec<BodyItem<'_>> = Vec::new();
        let mut i: usize = 0;
        while i < self.infos.len()
            invariant
                i <= self.infos@.len(),
                self.infos@.len() == self.ranges@.len(),
                ranges_within(self.ranges@, self.buffer@.len() as int),
                out@.len() == i,
                forall|j: int|
                    0 <= j < i ==> (#[trigger] out@[j])@ == slot_item(self@.buffer, self@.slots[j]),
            decreases self.infos.len() - i,
        {
            let info = &self.infos[i];
            let item = match info.content_type {
                ContentType::UrlEncoded => info.to_body_item(),
                _ => {
                    let (a, b) = self.ranges[i];
                    BodyItem::new(info, slice_subrange(self.buffer.as_slice(), a, b))
                },
            };
            out.push(item);
            i += 1;
        }
        assert(out.deep_view() =~= self@.slots.map_values(
            |slot: Slot| slot_item(self@.buffer, slot),
        ));
        out
    }
}

/// Reads the thousandths of a decimal numeral.
pub fn parse_milli(text: &[char]) -> (q: Option<u16>)
    ensures
        q == milli_of(text@),
{
    let dot = chars_of(".");
    let n = text.len();
    let (whole, frac) = match split_once_indices(text, dot.as_slice()) {
        Some((a, b)) => (a, b),
        None => ((0, n), (n, n)),
    };
    let w = slice_subrange(text, whole.0, whole.1);
    let f = slice_subrange(text, frac.0, frac.1);
    proof {
        if split_once(text@, "."@) is None {
            assert(w@ =~= text@);
            assert(f@ =~= Seq::<char>::empty());
        }
    }
    assert(milli_of(text@) == milli_parts(w@, f@));
    let mut zero = true;
    let mut i: usize = 0;
    while i < w.len()
        invariant
            i <= w@.len(),
            milli_of(text@) == milli_parts(w@, f@),
            all_digits(w@.take(i as int)),
            zero == all_zero(w@.take(i as int)),
        decreases w.len() - i,
    {
        let c = w[i];
        if !('0' <= c && c <= '9') {
            assert(!is_digit(w@[i as int]));
            return None;
        }
        proof {
            let next = w@.take(i + 1);
            assert forall|j: int| 0 <= j < next.len() implies is_digit(#[trigger] next[j]) by {
                if j < i {
                    assert(next[j] == w@.take(i as int)[j]);
                }
            }
            if zero && c == '0' {
                assert forall|j: int| 0 <= j < next.len() implies #[trigger] next[j] == '0' by {
                    if j < i {
                        assert(next[j] == w@.take(i as int)[j]);
                    }
                }
            } else if zero {
                assert(next[i as int] != '0');
            } else {
                let k = choose|k: int| 0 <= k < i && w@.take(i as int)[k] != '0';
                assert(next[k] != '0');
            }
        }
        if c != '0' {
            zero = false;
        }
        i += 1;
    }
    assert(w@.take(w@.len() as int) =~= w@);
    let mut milli: u16 = 0;
    let mut j: usize = 0;
    while j < f.len()
        invariant
            j <= f@.len(),
            milli_of(text@) == milli_parts(w@, f@),
            all_digits(w@),
            zero == all_zero(w@),
            all_digits(f@.take(j as int)),
            forall|k: int| 0 <= k < j ==> frac_digit(f@, k) <= 9,
            milli == (if j > 0 {
                frac_digit(f@, 0) * 100
            } else {
                0
            }) + (if j > 1 {
                frac_digit(f@, 1) * 10
            } else {
                0
            }) + (if j > 2 {
                frac_digit(f@, 2)
            } else {
                0
            }),
        decreases f.len() - j,
    {
        let c = f[j];
        if !('0' <= c && c <= '9') {
            assert(!is_digit(f@[j as int]));
            return None;
        }
        proof {
            let next = f@.take(j + 1);
            assert forall|k: int| 0 <= k < next.len() implies is_digit(#[trigger] next[k]) by {
                if k < j {
                    assert(next[k] == f@.take(j as int)[k]);
                }
            }
        }
        let d: u16 = (c as u32 - '0' as u32) as u16;
        assert(d == digit_value(c));
        assert(frac_digit(f@, j as int) == d);
        if j == 0 {
            milli = milli + d * 100;
        } else if j == 1 {
            milli = milli + d * 10;
        } else if j == 2 {
            milli = milli + d;
        }
        j += 1;
    }
    assert(f@.take(f@.len() as int) =~= f@);
    if w.len() + f.len() == 0 {
        None
    } else if !zero {
        Some(1000)
    } else {
        Some(milli)
    }
}

/// Reads the quality of an accepted coding from its parameter.
pub fn parse_quality(param: &[char]) -> (q: Option<u16>)
    ensures
        q == quality_of(param@),
{
    let prefix = chars_of("q=");
    if matches_at(param, prefix.as_slice(), 0) {
        parse_milli(slice_subrange(param, prefix.len(), param.len()))
    } else {
        parse_milli(param)
    }
}

/// The range of `s` that is left without the blanks at its two ends.
pub fn strip_range(s: &[char]) -> (r: (usize, usize))
    ensures
        r.0 <= r.1 <= s@.len(),
        s@.subrange(r.0 as int, r.1 as int) == stripped(s@),
{
    let n = s.len();
    let mut a: usize = 0;
    assert(s@.subrange(0, n as int) =~= s@);
    while a < n && s[a] == ' '
        invariant
            a <= n == s@.len(),
            strip_start(s@) == strip_start(s@.subrange(a as int, n as int)),
        decreases n - a,
    {
        assert(s@.subrange(a as int, n as int).drop_first() =~= s@.subrange(a + 1, n as int));
        a += 1;
    }
    let mut b: usize = n;
    while b > a && s[b - 1] == ' '
        invariant
            a <= b <= n == s@.len(),
            strip_start(s@) == s@.subrange(a as int, n as int),
            stripped(s@) == strip_end(s@.subrange(a as int, b as int)),
        decreases b,
    {
        assert(s@.subrange(a as int, b as int).drop_last() =~= s@.subrange(a as int, b - 1));
        b -= 1;
    }
    (a, b)
}

/// Reads one token of an Accept-Encoding header.
pub fn parse_encoding(token: &[char]) -> (e: Encoding)
    ensures
        e == encoding_entry(token@),
{
    let semi = chars_of(";");
    let parts = split_indices(token, semi.as_slice());
    let first = slice_subrange(token, parts[0].0, parts[0].1);
    let (a, b) = strip_range(first);
    let name = string_of_range(first, a, b);
    let encoding_type = EncodingType::from_string(name.as_str());
    let quality = if parts.len() > 1 {
        let param = slice_subrange(token, parts[1].0, parts[1].1);
        let (c, d) = strip_range(param);
        parse_quality(slice_subrange(param, c, d))
    } else {
        None
    };
    Encoding::new(encoding_type, quality)
}

/// Reads the preferences of an Accept-Encoding value.
pub fn parse_encodings(value: &[char]) -> (out: Vec<Encoding>)
    ensures
        out@ == encodings_of(value@),
{
    let comma = chars_of(",");
    let ranges = split_indices(value, comma.as_slice());
    let mut out: Vec<Encoding> = Vec::new();
    let mut k: usize = 0;
    while k < ranges.len()
        invariant
            k <= ranges@.len(),
            same_ranges(ranges@, split_ranges(value@, ","@)),
            ranges_within(ranges@, value@.len() as int),
            out@.len() == k,
            forall|j: int| 0 <= j < k ==> #[trigger] out@[j] == encodings_of(value@)[j],
        decreases ranges.len() - k,
    {
        let (a, b) = ranges[k];
        out.push(parse_encoding(slice_subrange(value, a, b)));
        k += 1;
    }
    assert(out@ =~= encodings_of(value@));
    out
}

/// Reads the boundary from the parameters of a Content-Type value.
pub fn parse_boundary(value: &[char]) -> (r: Option<String>)
    ensures
        r.deep_view() == boundary_of(split(value@, "; "@), 1),
{
    let semi = chars_of("; ");
    let prefix = chars_of("boundary=");
    let parts = split_indices(value, semi.as_slice());
    let ghost params = split(value@, "; "@);
    let mut k: usize = 1;
    while k < parts.len()
        invariant
            1 <= k,
            prefix@ == "boundary="@,
            params == split(value@, "; "@),
            same_ranges(parts@, split_ranges(value@, "; "@)),
            ranges_within(parts@, value@.len() as int),
            boundary_of(params, 1) == boundary_of(params, k as int),
        decreases parts.len() - k,
    {
        let param = slice_subrange(value, parts[k].0, parts[k].1);
        assert(params[k as int] == param@);
        if matches_at(param, prefix.as_slice(), 0) {
            return Some(string_of_range(param, prefix.len(), param.len()));
        }
        k += 1;
    }
    None
}

/// Reads the cookies of a Cookie value.
pub fn parse_cookies(value: &[char]) -> (out: Vec<Cookie>)
    ensures
        out.deep_view() == cookies_of(value@),
{
    let semi = chars_of("; ");
    let eq = chars_of("=");
    let ranges = split_indices(value, semi.as_slice());
    let ghost all = split(value@, "; "@);
    let mut out: Vec<Cookie> = Vec::new();
    let mut k: usize = 0;
    assert(out.deep_view() =~= cookies_from(all.take(0)));
    while k < ranges.len()
        invariant
            k <= ranges@.len(),
            eq@ == "="@,
            all == split(value@, "; "@),
            same_ranges(ranges@, split_ranges(value@, "; "@)),
            ranges_within(ranges@, value@.len() as int),
            out.deep_view() == cookies_from(all.take(k as int)),
        decreases ranges.len() - k,
    {
        let (a, b) = ranges[k];
        let piece = slice_subrange(value, a, b);
        let ghost before = out.deep_view();
        proof {
            assert(all[k as int] == piece@);
            assert(all.take(k + 1).drop_last() =~= all.take(k as int));
            assert(all.take(k + 1).last() == piece@);
        }
        match split_once_indices(piece, eq.as_slice()) {
            Some((left, right)) => {
                let name = string_of_range(piece, left.0, left.1);
                let val = string_of_range(piece, right.0, right.1);
                let cookie = Cookie::new_simple(name, val);
                out.push(cookie);
                assert(out.deep_view() =~= before.push(cookie@));
            },
            None => {},
        }
        k += 1;
    }
    assert(all.take(ranges@.len() as int) =~= all);
    out
}

/// A decoded request.
pub struct Request {
    pub query: StringMap,
    pub params: StringMap,
    pub headers: Vec<Header>,
    pub cookies: Vec<Cookie>,
    pub ip: Option<String>,
    pub user_agent: Option<String>,
    pub content_encoding: Option<Vec<Encoding>>,
    pub content_length: usize,
    pub content_type: Option<ContentType>,
    pub boudary: Option<String>,
    pub body: BodyStore,
}

impl View for Request {
    type V = RequestView;

    open spec fn view(&self) -> RequestView {
        RequestView {
            query: self.query@,
            params: self.params@,
            headers: self.headers.deep_view(),
            cookies: self.cookies.deep_view(),
            ip: self.ip.deep_view(),
            user_agent: self.user_agent.deep_view(),
            content_encoding: match self.content_encoding {
                Some(list) => Some(list@),
                None => None,
            },
            content_length: self.content_length,
            content_type: self.content_type.deep_view(),
            boudary: self.boudary.deep_view(),
            body: self.body@,
        }
    }
}

impl Request {
    /// A request with the given parts and a body that is not decoded.
    pub fn new(
        query: StringMap,
        params: StringMap,
        headers: Vec<Header>,
        cookies: Vec<Cookie>,
        ip: Option<String>,
        user_agent: Option<String>,
        content_encoding: Option<Vec<Encoding>>,
        content_length: usize,
        content_type: Option<ContentType>,
        boudary: Option<String>,
    ) -> (req: Request)
        ensures
            req@ == (RequestView {
                query: query@,
                params: params@,
                headers: headers.deep_view(),
                cookies: cookies.deep_view(),
                ip: ip.deep_view(),
                user_agent: user_agent.deep_view(),
                content_encoding: match content_encoding {
                    Some(list) => Some(list@),
                    None => None,
                },
                content_length,
                content_type: content_type.deep_view(),
                boudary: boudary.deep_view(),
                body: BodyStoreView { slots: Seq::empty(), buffer: Seq::empty(), decoded: false },
            }),
    {
        Request {
            query,
            params,
            headers,
            cookies,
            ip,
            user_agent,
            content_encoding,
            content_length,
            content_type,
            boudary,
            body: BodyStore::new(),
        }
    }

    /// Takes one header line into the request, given the line's lower-case
    /// form. A Content-Type with a blank in its media type is refused, and
    /// the request stays as it was.
    pub fn apply_header(&mut self, line: &str, lower: &str) -> (r: Result<(), HttpServerError>)
        ensures
            match r {
                Ok(()) => apply_line_with(old(self)@, line@, lower@) == Ok::<RequestView, ()>(
                    final(self)@,
                ),
                Err(e) => apply_line_with(old(self)@, line@, lower@) is Err && final(self)@ == old(
                    self,
                )@ && e@ == "Content Type can't contain blank spaces."@,
            },
    {
        let text = chars_of(line);
        let l = text.as_slice();
        let folded = chars_of(lower);
        let lw = folded.as_slice();
        let n = l.len();
        let user_agent = chars_of("user-agent:");
        let content_length = chars_of("content-length:");
        let accept_encoding = chars_of("accept-encoding:");
        let content_type = chars_of("content-type:");
        let cookie = chars_of("cookie:");
        if matches_at(lw, user_agent.as_slice(), 0) {
            let skip = chars_of("User-Agent: ").len();
            if n >= skip {
                self.user_agent = Some(string_of_range(l, skip, n));
            }
            Ok(())
        } else if matches_at(lw, content_length.as_slice(), 0) {
            let skip = chars_of("Content-Length: ").len();
            if n >= skip {
                self.content_length = match parse_usize(slice_subrange(l, skip, n)) {
                    Some(v) => v,
                    None => 0,
                };
            }
            Ok(())
        } else if matches_at(lw, accept_encoding.as_slice(), 0) {
            let skip = chars_of("Accept-Encoding: ").len();
            if n >= skip {
                self.content_encoding = Some(parse_encodings(slice_subrange(l, skip, n)));
            }
            Ok(())
        } else if matches_at(lw, content_type.as_slice(), 0) {
            let skip = chars_of("Content-Type: ").len();
            if n >= skip {
                let value = slice_subrange(l, skip, n);
                let semi = chars_of("; ");
                let parts = split_indices(value, semi.as_slice());
                let media = string_of_range(value, parts[0].0, parts[0].1);
                let kind = match ContentType::from_string(media.as_str()) {
                    Ok(kind) => kind,
                    Err(e) => {
                        return Err(e);
                    },
                };
                self.content_type = Some(kind);
                match parse_boundary(value) {
                    Some(token) => {
                        self.boudary = Some(token);
                    },
                    None => {},
                }
            }
            Ok(())
        } else if matches_at(lw, cookie.as_slice(), 0) {
            let skip = chars_of("Cookie: ").len();
            if n >= skip {
                let mut found = parse_cookies(slice_subrange(l, skip, n));
                let ghost before = self.cookies.deep_view();
                let ghost added = found.deep_view();
                self.cookies.append(&mut found);
                assert(self.cookies.deep_view() =~= before + added);
            }
            Ok(())
        } else {
            let colon = chars_of(": ");
            match split_once_indices(l, colon.as_slice()) {
                Some((a, b)) => {
                    let name = string_of_range(l, a.0, a.1);
                    let value = string_of_range(l, b.0, b.1);
                    let ghost before = self.headers.deep_view();
                    self.headers.push(Header { name, value });
                    assert(self.headers.deep_view() =~= before.push(
                        HeaderView { name: name@, value: value@ },
                    ));
                },
                None => {},
            }
            Ok(())
        }
    }

    /// Decodes the header lines `lines` into a request with the given query
    /// and path parameters, each empty where none is given.
    pub fn parse(lines: &Vec<&str>, query: Option<StringMap>, params: Option<StringMap>) -> (r:
        Result<Request, HttpServerError>)
        ensures
            match r {
                Ok(req) => apply_lines(
                    blank_request(given_map(query), given_map(params)),
                    line_views(lines@),
                ) == Ok::<RequestView, ()>(req@),
                Err(e) => apply_lines(
                    blank_request(given_map(query), given_map(params)),
                    line_views(lines@),
                ) is Err && e@ == "Content Type can't contain blank spaces."@,
            },
    {
        let given_query = match query {
            Some(m) => m,
            None => StringMap::new(),
        };
        let given_params = match params {
            Some(m) => m,
            None => StringMap::new(),
        };
        let mut req = Request::new(
            given_query,
            given_params,
            Vec::new(),
            Vec::new(),
            None,
            None,
            None,
            0,
            None,
            None,
        );
        let ghost start = req@;
        let ghost all = line_views(lines@);
        assert(req.headers.deep_view() =~= Seq::<HeaderView>::empty());
        assert(req.cookies.deep_view() =~= Seq::<CookieView>::empty());
        let mut i: usize = 0;
        assert(all.take(0) =~= Seq::<Seq<char>>::empty());
        while i < lines.len()
            invariant
                i <= lines@.len(),
                all == line_views(lines@),
                start == blank_request(given_map(query), given_map(params)),
                apply_lines(start, all.take(i as int)) == Ok::<RequestView, ()>(req@),
            decreases lines.len() - i,
        {
            let line: &str = lines[i];
            let lower = lowercase_of(line);
            proof {
                assert(all.take(i + 1).drop_last() =~= all.take(i as int));
                assert(all.take(i + 1).last() == line@);
            }
            let ghost before = req@;
            match req.apply_header(line, lower.as_str()) {
                Ok(()) => {},
                Err(e) => {
                    proof {
                        assert(apply_line(before, line@) is Err);
                        assert(apply_lines(start, all.take(i + 1).drop_last()) == Ok::<
                            RequestView,
                            (),
                        >(before));
                        assert(apply_lines(start, all.take(i + 1)) is Err);
                        lemma_lines_fail(start, all, i + 1);
                    }
                    return Err(e);
                },
            }
            i += 1;
        }
        assert(all.take(lines@.len() as int) =~= all);
        Ok(req)
    }

    /// The items of the decoded body; none before the body is decoded.
    pub fn body(&self) -> (out: Vec<BodyItem<'_>>)
        ensures
            out.deep_view() == self@.body.slots.map_values(
                |slot: Slot| slot_item(self@.body.buffer, slot),
            ),
    {
        self.body.items()
    }

    /// Decodes the raw body `raw` into the request. The body is decoded at
    /// most once: the result says whether this call decoded it. On failure
    /// the request stays as it was.
    pub fn extract_body(&mut self, raw: Vec<u8>) -> (r: Result<bool, HttpServerError>)
        ensures
            match r {
                Ok(done) => {
                    &&& done == !old(self)@.body.decoded
                    &&& if done {
                        &&& decoded_body(old(self)@.content_type, old(self)@.boudary, raw@) == Ok::<
                            BodyStoreView,
                            Seq<char>,
                        >(final(self)@.body)
                        &&& final(self)@ == (RequestView { body: final(self)@.body, ..old(self)@ })
                    } else {
                        final(self)@ == old(self)@
                    }
                },
                Err(e) => {
                    &&& !old(self)@.body.decoded
                    &&& decoded_body(old(self)@.content_type, old(self)@.boudary, raw@) == Err::<
                        BodyStoreView,
                        Seq<char>,
                    >(e@)
                    &&& final(self)@ == old(self)@
                },
            },
    {
        if self.body.is_decoded() {
            return Ok(false);
        }
        match BodyStore::decode(&self.content_type, &self.boudary, raw) {
            Ok(store) => {
                self.body = store;
                Ok(true)
            },
            Err(e) => Err(e),
        }
    }

    /// Whether the request declares a body: its declared length is not 0.
    pub fn declares_body(&self) -> (r: bool)
        ensures
            r == (self.content_length > 0),
    {
        self.content_length > 0
    }

    /// The reader that takes the declared body off the stream, whether the
    /// body is kept or only drained.
    pub fn read_only_body(&self) -> (reader: BodyReader)
        ensures
            reader@ == ReaderView::fresh(self.content_length),
    {
        BodyReader::new(self.content_length)
    }
}

/// Whether a read of `read` bytes ends the header block: an empty line, or
/// the end of the stream.
pub fn header_block_ends(read: usize) -> (r: bool)
    ensures
        r == (read <= 2),
{
    read <= 2
}

/// The map that is given, or the empty one.
pub open spec fn given_map(map: Option<StringMap>) -> Map<Seq<char>, Seq<char>> {
    match map {
        Some(m) => m@,
        None => Map::empty(),
    }
}

/// The texts of a list of lines.
pub open spec fn line_views(lines: Seq<&str>) -> Seq<Seq<char>> {
    lines.map_values(|line: &str| line@)
}

/// Once the first `k` lines fail, all of them fail.
proof fn lemma_lines_fail(req: RequestView, lines: Seq<Seq<char>>, k: int)
    requires
        0 <= k <= lines.len(),
        apply_lines(req, lines.take(k)) is Err,
    ensures
        apply_lines(req, lines) is Err,
    decreases lines.len() - k,
{
    if k < lines.len() {
        assert(lines.take(k + 1).drop_last() =~= lines.take(k));
        lemma_lines_fail(req, lines, k + 1);
    } else {
        assert(lines.take(k) =~= lines);
    }
}

/// The size of one read of a body.
pub const BODY_CHUNK: usize = 4096;

/// The state of reading a declared body, in the model: how many bytes were
/// declared, how many have come, and whether reading has ended.
pub struct ReaderView {
    pub declared: usize,
    pub received: usize,
    pub finished: bool,
}

impl ReaderView {
    /// The state before the first read of a body of `declared` bytes: a body
    /// of no bytes is read at once.
    pub open spec fn fresh(declared: usize) -> ReaderView {
        ReaderView { declared, received: 0, finished: declared == 0 }
    }

    /// No more has come than was declared, and reading has ended once all
    /// has come.
    pub open spec fn wf(self) -> bool {
        &&& self.received <= self.declared
        &&& self.received == self.declared ==> self.finished
    }

    /// The size of the next read: at most one chunk, never more than what is
    /// still owed, and 0 once reading has ended.
    pub open spec fn want(self) -> int {
        if self.finished {
            0
        } else if self.declared - self.received < BODY_CHUNK {
            self.declared - self.received
        } else {
            BODY_CHUNK as int
        }
    }

    /// The bytes that a read of `read` bytes takes off the stream: a count
    /// above what was asked for counts as what was asked for.
    pub open spec fn taken(self, read: usize) -> int {
        if read < self.want() {
            read as int
        } else {
            self.want()
        }
    }

    /// The state after a read of `read` bytes. A read of nothing ends the
    /// reading, and so does the arrival of the declared length.
    pub open spec fn after(self, read: usize) -> ReaderView {
        ReaderView {
            declared: self.declared,
            received: (self.received + self.taken(read)) as usize,
            finished: self.finished || read == 0 || self.received + self.taken(read)
                >= self.declared,
        }
    }

    /// The state after the reads `reads`, in order.
    pub open spec fn after_all(self, reads: Seq<usize>) -> ReaderView
        decreases reads.len(),
    {
        if reads.len() == 0 {
            self
        } else {
            self.after_all(reads.drop_last()).after(reads.last())
        }
    }
}

/// However the reads fall, no more than the declared length is taken off
/// the stream.
pub proof fn lemma_reader_never_exceeds(declared: usize, reads: Seq<usize>)
    ensures
        ReaderView::fresh(declared).after_all(reads).wf(),
        ReaderView::fresh(declared).after_all(reads).received <= declared,
        ReaderView::fresh(declared).after_all(reads).declared == declared,
    decreases reads.len(),
{
    if reads.len() > 0 {
        lemma_reader_never_exceeds(declared, reads.drop_last());
    }
}

/// Where the stream does not end early, that is, no read gives nothing,
/// reading ends when exactly the declared length has been taken.
pub proof fn lemma_reader_takes_exactly(declared: usize, reads: Seq<usize>)
    requires
        forall|i: int| 0 <= i < reads.len() ==> #[trigger] reads[i] > 0,
        ReaderView::fresh(declared).after_all(reads).finished,
    ensures
        ReaderView::fresh(declared).after_all(reads).received == declared,
    decreases reads.len(),
{
    if reads.len() > 0 {
        let front = reads.drop_last();
        lemma_reader_never_exceeds(declared, front);
        assert forall|i: int| 0 <= i < front.len() implies #[trigger] front[i] > 0 by {
            assert(front[i] == reads[i]);
        }
        if ReaderView::fresh(declared).after_all(front).finished {
            lemma_reader_takes_exactly(declared, front);
        }
    }
}

/// The state of reading a declared body off a stream. The caller asks
/// [`BodyReader::next_read`] how much to read, reads, and hands the count to
/// [`BodyReader::record`], until the reader has finished.
pub struct BodyReader {
    declared: usize,
    received: usize,
    finished: bool,
}

impl View for BodyReader {
    type V = ReaderView;

    closed spec fn view(&self) -> ReaderView {
        ReaderView { declared: self.declared, received: self.received, finished: self.finished }
    }
}

impl BodyReader {
    /// No more has come than was declared.
    #[verifier::type_invariant]
    spec fn bounded(&self) -> bool {
        self@.wf()
    }

    /// A reader for a body of `declared` bytes.
    pub fn new(declared: usize) -> (reader: BodyReader)
        ensures
            reader@ == ReaderView::fresh(declared),
    {
        BodyReader { declared, received: 0, finished: declared == 0 }
    }

    /// Whether reading has ended.
    pub fn is_finished(&self) -> (r: bool)
        ensures
            r == self@.finished,
    {
        self.finished
    }

    /// The number of bytes taken so far.
    pub fn total(&self) -> (n: usize)
        ensures
            n == self@.received,
            n <= self@.declared,
    {
        proof {
            use_type_invariant(self);
        }
        self.received
    }

    /// The size of the next read.
    pub fn next_read(&self) -> (n: usize)
        ensures
            n == self@.want(),
    {
        proof {
            use_type_invariant(self);
        }
        if self.finished {
            0
        } else if self.declared - self.received < BODY_CHUNK {
            self.declared - self.received
        } else {
            BODY_CHUNK
        }
    }

    /// Takes note of a read that gave `read` bytes.
    pub fn record(&mut self, read: usize)
        ensures
            final(self)@ == old(self)@.after(read),
    {
        proof {
            use_type_invariant(&*self);
        }
        let want = self.next_read();
        let taken = if read < want {
            read
        } else {
            want
        };
        let received = self.received + taken;
        let finished = self.finished || read == 0 || received >= self.declared;
        *self = BodyReader { declared: self.declared, received, finished };
    }
}

} // verus!
