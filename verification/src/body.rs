//! Body items, and the decoding of url-encoded and multipart bodies.

use crate::seqs::{
    find, find_from, matches_at, ranges_within, replace, replace_all, same_ranges, split,
    split_indices, starts_with,
};
use crate::structs::{content_type_of, ContentType, ContentTypeView, HttpServerError};
use crate::text::{
    chars_of, has_blank, line_ranges, lines_of, lossy_text, lowercased, string_of_range,
    utf8_lossy,
};
use crate::url::{form_pairs, key_value_pairs};
use crate::utils::{find_all, occurrences, replace_bytes};
use vstd::prelude::*;
use vstd::slice::slice_subrange;
use vstd::string::StringSliceAdditionalSpecFns;

verus! {

/// What is known of a body item besides its data: its content type, its
/// field name, its file name where it is an uploaded file, and its value
/// where it comes from a url-encoded body.
#[derive(Debug, PartialEq, Eq)]
pub struct BodyItemInfo {
    pub content_type: ContentType,
    pub name: Option<String>,
    pub file_name: Option<String>,
    pub value: Option<String>,
}

/// The mathematical value of a [`BodyItemInfo`].
pub struct BodyItemInfoView {
    pub content_type: ContentTypeView,
    pub name: Option<Seq<char>>,
    pub file_name: Option<Seq<char>>,
    pub value: Option<Seq<char>>,
}

impl View for BodyItemInfo {
    type V = BodyItemInfoView;

    open spec fn view(&self) -> BodyItemInfoView {
        BodyItemInfoView {
            content_type: self.content_type@,
            name: self.name.deep_view(),
            file_name: self.file_name.deep_view(),
            value: self.value.deep_view(),
        }
    }
}

impl DeepView for BodyItemInfo {
    type V = BodyItemInfoView;

    open spec fn deep_view(&self) -> BodyItemInfoView {
        self@
    }
}

/// The item with no content type, name, file name or value.
pub open spec fn default_info() -> BodyItemInfoView {
    BodyItemInfoView { content_type: ContentTypeView::Unset, name: None, file_name: None, value: None }
}

/// The item of a url-encoded pair.
pub open spec fn url_info(pair: (Seq<char>, Seq<char>)) -> BodyItemInfoView {
    BodyItemInfoView {
        content_type: ContentTypeView::UrlEncoded,
        name: Some(pair.0),
        file_name: None,
        value: Some(pair.1),
    }
}

/// The field name in the second token of a part's first header line: the
/// token without `name="`, and without its last character.
pub open spec fn field_name(token: Seq<char>) -> Option<Seq<char>> {
    let name = replace_all(token, "name=\""@, ""@);
    if name.len() < 1 {
        None
    } else {
        Some(name.drop_last())
    }
}

/// The file name in the third token of a part's first header line: what
/// stands between the ten characters of `filename="` and the last character,
/// where the token has more than eleven characters.
pub open spec fn file_name_of(token: Seq<char>) -> Option<Seq<char>> {
    if token.len() > 11 {
        Some(token.subrange(10, token.len() - 1))
    } else {
        None
    }
}

/// What the header block of a part says of it, or `Err` where its content
/// type has a blank in it.
///
/// No line gives the default item. A second line of the form
/// `Content-Type: <value>` sets the content type; without one the type is
/// multipart/form-data. The first line is cut at each `"; "`: fewer than two
/// tokens, or other than three where there are two lines, give the default
/// item; the second token holds the field name, the third the file name.
pub open spec fn part_info(text: Seq<char>) -> Result<BodyItemInfoView, ()> {
    let ls = lines_of(text);
    if ls.len() == 0 {
        Ok(default_info())
    } else {
        let typed = ls.len() > 1 && starts_with(ls[1], "Content-Type: "@);
        let value = ls[1].subrange("Content-Type: "@.len() as int, ls[1].len() as int);
        let tokens = split(ls[0], "; "@);
        if typed && has_blank(value) {
            Err(())
        } else if tokens.len() < 2 || (tokens.len() != 3 && ls.len() == 2) {
            Ok(default_info())
        } else {
            Ok(
                BodyItemInfoView {
                    content_type: if typed {
                        content_type_of(lowercased(value))
                    } else {
                        ContentTypeView::MultipartForm
                    },
                    name: field_name(tokens[1]),
                    file_name: if tokens.len() >= 3 {
                        file_name_of(tokens[2])
                    } else {
                        None
                    },
                    value: None,
                },
            )
        }
    }
}

/// A copy of an optional text.
fn clone_text(text: &Option<String>) -> (r: Option<String>)
    ensures
        r.deep_view() == text.deep_view(),
{
    match text {
        Some(s) => Some(s.clone()),
        None => None,
    }
}

impl Clone for BodyItemInfo {
    fn clone(&self) -> (r: BodyItemInfo)
        ensures
            r@ == self@,
    {
        BodyItemInfo {
            content_type: self.content_type.clone(),
            name: clone_text(&self.name),
            file_name: clone_text(&self.file_name),
            value: clone_text(&self.value),
        }
    }
}

impl BodyItemInfo {
    /// The item with no content type, name, file name or value.
    pub fn default() -> (info: BodyItemInfo)
        ensures
            info@ == default_info(),
    {
        BodyItemInfo { content_type: ContentType::Unset, name: None, file_name: None, value: None }
    }

    /// An unnamed item of the given content type.
    pub fn new_simple(content_type: ContentType) -> (info: BodyItemInfo)
        ensures
            info@ == (BodyItemInfoView {
                content_type: content_type@,
                name: None,
                file_name: None,
                value: None,
            }),
    {
        BodyItemInfo { content_type, name: None, file_name: None, value: None }
    }

    /// The item of a url-encoded pair.
    pub fn new_url(name: String, value: String) -> (info: BodyItemInfo)
        ensures
            info@ == url_info((name@, value@)),
    {
        BodyItemInfo {
            content_type: ContentType::UrlEncoded,
            name: Some(name),
            file_name: None,
            value: Some(value),
        }
    }

    /// The body item of a url-encoded item: its value, and no data.
    pub fn to_body_item(&self) -> (item: BodyItem<'_>)
        ensures
            item@ == (BodyItemView {
                info: self@,
                data: Seq::empty(),
                value: match self@.value {
                    Some(v) => v,
                    None => Seq::empty(),
                },
            }),
    {
        let value = match &self.value {
            Some(v) => v.clone(),
            None => String::new(),
        };
        BodyItem::new_url(self, value)
    }

    /// Reads the header block of a multipart part.
    pub fn from_str(input: &str) -> (r: Result<BodyItemInfo, HttpServerError>)
        ensures
            match r {
                Ok(info) => part_info(input@) == Ok::<BodyItemInfoView, ()>(info@),
                Err(e) => part_info(input@) is Err && e@
                    == "Content Type can't contain blank spaces."@,
            },
    {
        let text = chars_of(input);
        let t = text.as_slice();
        let lines = line_ranges(t);
        let ghost ls = lines_of(input@);
        if lines.len() == 0 {
            return Ok(BodyItemInfo::default());
        }
        let first = slice_subrange(t, lines[0].0, lines[0].1);
        assert(first@ == ls[0]);
        let mut content_type = ContentType::MultipartForm;
        if lines.len() > 1 {
            let second = slice_subrange(t, lines[1].0, lines[1].1);
            assert(second@ == ls[1]);
            let prefix = chars_of("Content-Type: ");
            if matches_at(second, prefix.as_slice(), 0) {
                let token = string_of_range(second, prefix.len(), second.len());
                content_type = match ContentType::from_string(token.as_str()) {
                    Ok(t) => t,
                    Err(e) => {
                        return Err(e);
                    },
                };
            }
        }
        let semi = chars_of("; ");
        let tokens = split_indices(first, semi.as_slice());
        if tokens.len() < 2 || (tokens.len() != 3 && lines.len() == 2) {
            return Ok(BodyItemInfo::default());
        }
        let mut file_name: Option<String> = None;
        if tokens.len() >= 3 {
            let (a, b) = tokens[2];
            assert(split(ls[0], "; "@)[2] == first@.subrange(a as int, b as int));
            if b - a > 11 {
                let name = string_of_range(first, a + 10, b - 1);
                assert(first@.subrange(a as int, b as int).subrange(10, b - a - 1)
                    =~= first@.subrange(a + 10, b - 1));
                file_name = Some(name);
            }
        }
        let (a, b) = tokens[1];
        assert(split(ls[0], "; "@)[1] == first@.subrange(a as int, b as int));
        let prefix = chars_of("name=\"");
        let nothing = chars_of("");
        let stripped = replace(slice_subrange(first, a, b), prefix.as_slice(), nothing.as_slice());
        let name = if stripped.len() < 1 {
            None
        } else {
            assert(stripped@.drop_last() =~= stripped@.subrange(0, stripped@.len() - 1));
            Some(string_of_range(stripped.as_slice(), 0, stripped.len() - 1))
        };
        Ok(BodyItemInfo { content_type, name, file_name, value: None })
    }
}

/// One item of a decoded body: its info, its bytes in the body buffer, and
/// its value where it comes from a url-encoded body.
pub struct BodyItem<'a> {
    pub info: &'a BodyItemInfo,
    pub data: &'a [u8],
    pub value: String,
}

/// The mathematical value of a [`BodyItem`].
pub struct BodyItemView {
    pub info: BodyItemInfoView,
    pub data: Seq<u8>,
    pub value: Seq<char>,
}

impl<'a> View for BodyItem<'a> {
    type V = BodyItemView;

    open spec fn view(&self) -> BodyItemView {
        BodyItemView { info: self.info@, data: self.data@, value: self.value@ }
    }
}

impl<'a> DeepView for BodyItem<'a> {
    type V = BodyItemView;

    open spec fn deep_view(&self) -> BodyItemView {
        self@
    }
}

impl<'a> BodyItem<'a> {
    /// An item with data and no value.
    pub fn new(info: &'a BodyItemInfo, data: &'a [u8]) -> (item: BodyItem<'a>)
        ensures
            item@ == (BodyItemView { info: info@, data: data@, value: Seq::empty() }),
    {
        BodyItem { info, data, value: String::new() }
    }

    /// An item with a value and no data.
    pub fn new_url(info: &'a BodyItemInfo, value: String) -> (item: BodyItem<'a>)
        ensures
            item@ == (BodyItemView { info: info@, data: Seq::empty(), value: value@ }),
    {
        let data: &[u8] = "".as_bytes();
        proof {
            reveal_strlit("");
            assert(""@ =~= Seq::<char>::empty());
        }
        BodyItem { info, data, value }
    }
}

/// One item of a decoded body in the model: its info and the range of its
/// data in the body buffer.
pub struct Slot {
    pub info: BodyItemInfoView,
    pub start: int,
    pub end: int,
}

/// The slots that a list of infos and a list of ranges of the same length
/// stand for.
pub open spec fn slots_of(infos: Seq<BodyItemInfo>, ranges: Seq<(usize, usize)>) -> Seq<Slot> {
    Seq::new(
        infos.len(),
        |i: int| Slot { info: infos[i]@, start: ranges[i].0 as int, end: ranges[i].1 as int },
    )
}

/// The raw multipart buffer made ready for the boundary scan: every
/// `\r\n--` removed, then the line break before every `Content-Di` removed.
pub open spec fn normalized(raw: Seq<u8>) -> Seq<u8> {
    replace_all(
        replace_all(raw, "\r\n--".spec_bytes(), "".spec_bytes()),
        "\r\nContent-Di".spec_bytes(),
        "Content-Di".spec_bytes(),
    )
}

/// The ranges of the parts between the boundaries at the positions `occ`:
/// each runs from the end of one boundary to the start of the next, and only
/// those that are not empty count. What follows the last boundary is no part.
pub open spec fn part_ranges(occ: Seq<int>, boundary_len: int) -> Seq<(int, int)>
    decreases occ.len(),
{
    if occ.len() < 2 {
        Seq::empty()
    } else if occ[occ.len() - 2] + boundary_len < occ.last() {
        part_ranges(occ.drop_last(), boundary_len).push(
            (occ[occ.len() - 2] + boundary_len, occ.last()),
        )
    } else {
        part_ranges(occ.drop_last(), boundary_len)
    }
}

/// The header range and the data range of the part `part` of `buffer`: the
/// part is cut at its first blank line; without one it is all header.
pub open spec fn part_split(buffer: Seq<u8>, part: (int, int)) -> ((int, int), (int, int)) {
    let blank = "\r\n\r\n".spec_bytes();
    let i = find_from(buffer.subrange(part.0, part.1), blank, 0);
    if i < 0 {
        (part, (part.1, part.1))
    } else {
        ((part.0, part.0 + i), (part.0 + i + blank.len(), part.1))
    }
}

/// The slots of the parts `parts` of `buffer`, in order, or `Err` where the
/// header block of a part has a content type with a blank in it.
pub open spec fn multipart_slots(buffer: Seq<u8>, parts: Seq<(int, int)>) -> Result<Seq<Slot>, ()>
    decreases parts.len(),
{
    if parts.len() == 0 {
        Ok(Seq::empty())
    } else {
        let (header, data) = part_split(buffer, parts.last());
        match (
            multipart_slots(buffer, parts.drop_last()),
            part_info(utf8_lossy(buffer.subrange(header.0, header.1))),
        ) {
            (Ok(front), Ok(info)) => Ok(front.push(Slot { info, start: data.0, end: data.1 })),
            _ => Err(()),
        }
    }
}

/// The slots of a multipart body whose buffer has been normalized.
pub open spec fn multipart_body(buffer: Seq<u8>, boundary: Seq<u8>) -> Result<Seq<Slot>, ()> {
    multipart_slots(buffer, part_ranges(occurrences(buffer, boundary), boundary.len() as int))
}

/// The slots of a url-encoded body: one for each pair, with no data.
pub open spec fn urlencoded_slots(raw: Seq<u8>) -> Seq<Slot> {
    form_pairs(utf8_lossy(raw)).map_values(
        |pair: (Seq<char>, Seq<char>)| Slot { info: url_info(pair), start: 0, end: 0 },
    )
}

/// The non-empty ranges between consecutive boundaries.
fn part_list(occ: &Vec<usize>, boundary_len: usize, Ghost(len): Ghost<int>) -> (out: Vec<
    (usize, usize),
>)
    requires
        forall|k: int| 0 <= k < occ@.len() ==> #[trigger] occ@[k] + boundary_len <= len,
        len <= usize::MAX,
    ensures
        ranges_within(out@, len),
        same_ranges(out@, part_ranges(occ@.map_values(|p: usize| p as int), boundary_len as int)),
{
    let ghost model = occ@.map_values(|p: usize| p as int);
    let mut out: Vec<(usize, usize)> = Vec::new();
    if occ.len() < 2 {
        return out;
    }
    let mut k: usize = 1;
    assert(part_ranges(model.take(1), boundary_len as int) =~= Seq::<(int, int)>::empty());
    while k < occ.len()
        invariant
            1 <= k <= occ@.len(),
            model == occ@.map_values(|p: usize| p as int),
            forall|j: int| 0 <= j < occ@.len() ==> #[trigger] occ@[j] + boundary_len <= len,
            len <= usize::MAX,
            ranges_within(out@, len),
            same_ranges(out@, part_ranges(model.take(k as int), boundary_len as int)),
        decreases occ.len() - k,
    {
        let start = occ[k - 1] + boundary_len;
        let end = occ[k];
        proof {
            let next = model.take(k + 1);
            assert(next.drop_last() =~= model.take(k as int));
            assert(next.last() == end);
            assert(next[next.len() - 2] == occ@[k - 1]);
        }
        if start < end {
            out.push((start, end));
        }
        k += 1;
    }
    assert(model.take(occ@.len() as int) =~= model);
    out
}

/// Decodes a url-encoded body: the buffer is read as text, cut at each
/// ampersand, and each piece with an equals sign in it gives an item.
pub fn decode_urlencoded(buffer: &[u8]) -> (infos: Vec<BodyItemInfo>)
    ensures
        infos.deep_view() == form_pairs(utf8_lossy(buffer@)).map_values(
            |pair: (Seq<char>, Seq<char>)| url_info(pair),
        ),
{
    let text = lossy_text(buffer);
    let chars = chars_of(text.as_str());
    let pairs = key_value_pairs(chars.as_slice());
    let ghost model = form_pairs(utf8_lossy(buffer@));
    let mut infos: Vec<BodyItemInfo> = Vec::new();
    let mut i: usize = 0;
    while i < pairs.len()
        invariant
            i <= pairs@.len(),
            pairs.deep_view() == model,
            infos@.len() == i,
            forall|j: int| 0 <= j < i ==> (#[trigger] infos@[j])@ == url_info(model[j]),
        decreases pairs.len() - i,
    {
        let name = pairs[i].0.clone();
        let value = pairs[i].1.clone();
        assert(model[i as int] == (name@, value@));
        infos.push(BodyItemInfo::new_url(name, value));
        i += 1;
    }
    assert(infos.deep_view() =~= model.map_values(
        |pair: (Seq<char>, Seq<char>)| url_info(pair),
    ));
    infos
}

/// Decodes a multipart body. The buffer is normalized in place, the
/// boundaries are found, and each part between two of them gives an item:
/// its header block is read by [`BodyItemInfo::from_str`], and its data stays
/// in the buffer as a range.
pub fn decode_multipart(buffer: &mut Vec<u8>, boundary: &[u8]) -> (r: Result<
    (Vec<BodyItemInfo>, Vec<(usize, usize)>),
    HttpServerError,
>)
    ensures
        final(buffer)@ == normalized(old(buffer)@),
        match r {
            Ok((infos, ranges)) => {
                &&& infos@.len() == ranges@.len()
                &&& ranges_within(ranges@, final(buffer)@.len() as int)
                &&& multipart_body(final(buffer)@, boundary@) == Ok::<Seq<Slot>, ()>(
                    slots_of(infos@, ranges@),
                )
            },
            Err(e) => multipart_body(final(buffer)@, boundary@) is Err && e@
                == "Content Type can't contain blank spaces."@,
        },
{
    replace_bytes(buffer, "\r\n--".as_bytes(), "".as_bytes());
    replace_bytes(buffer, "\r\nContent-Di".as_bytes(), "Content-Di".as_bytes());
    let buf = buffer.as_slice();
    let blank = "\r\n\r\n".as_bytes();
    let occ = find_all(buf, boundary);
    let n = buf.len();
    let parts = part_list(&occ, boundary.len(), Ghost(n as int));
    let ghost model = part_ranges(occurrences(buf@, boundary@), boundary@.len() as int);
    assert(occ@.map_values(|p: usize| p as int) =~= occurrences(buf@, boundary@));
    let mut infos: Vec<BodyItemInfo> = Vec::new();
    let mut ranges: Vec<(usize, usize)> = Vec::new();
    let mut k: usize = 0;
    assert(model.take(0) =~= Seq::<(int, int)>::empty());
    assert(slots_of(infos@, ranges@) =~= Seq::<Slot>::empty());
    while k < parts.len()
        invariant
            k <= parts@.len(),
            n == buf@.len(),
            buf@ == buffer@,
            buffer@ == normalized(old(buffer)@),
            model == part_ranges(occurrences(buf@, boundary@), boundary@.len() as int),
            blank@ == "\r\n\r\n".spec_bytes(),
            same_ranges(parts@, model),
            ranges_within(parts@, n as int),
            infos@.len() == ranges@.len(),
            ranges_within(ranges@, n as int),
            multipart_slots(buf@, model.take(k as int)) == Ok::<Seq<Slot>, ()>(
                slots_of(infos@, ranges@),
            ),
        decreases parts.len() - k,
    {
        let (start, end) = parts[k];
        let part = slice_subrange(buf, start, end);
        let ghost next = model.take(k + 1);
        let ghost before = slots_of(infos@, ranges@);
        proof {
            assert(next.drop_last() =~= model.take(k as int));
            assert(next.last() == (start as int, end as int));
        }
        let (header, data) = match find(part, blank, 0) {
            Some(i) => ((start, start + i), (start + i + blank.len(), end)),
            None => ((start, end), (end, end)),
        };
        assert(part_split(buf@, (start as int, end as int)) == (
            (header.0 as int, header.1 as int),
            (data.0 as int, data.1 as int),
        ));
        let text = lossy_text(slice_subrange(buf, header.0, header.1));
        let info = match BodyItemInfo::from_str(text.as_str()) {
            Ok(info) => info,
            Err(e) => {
                proof {
                    lemma_slots_fail(buf@, model, k + 1);
                }
                return Err(e);
            },
        };
        infos.push(info);
        ranges.push(data);
        assert(slots_of(infos@, ranges@) =~= before.push(
            Slot { info: info@, start: data.0 as int, end: data.1 as int },
        ));
        k += 1;
    }
    assert(model.take(parts@.len() as int) =~= model);
    Ok((infos, ranges))
}

/// Once the first `k` parts fail, all of them fail.
proof fn lemma_slots_fail(buffer: Seq<u8>, parts: Seq<(int, int)>, k: int)
    requires
        0 <= k <= parts.len(),
        multipart_slots(buffer, parts.take(k)) is Err,
    ensures
        multipart_slots(buffer, parts) is Err,
    decreases parts.len() - k,
{
    if k < parts.len() {
        assert(parts.take(k + 1).drop_last() =~= parts.take(k));
        lemma_slots_fail(buffer, parts, k + 1);
    } else {
        assert(parts.take(k) =~= parts);
    }
}

} // verus!
