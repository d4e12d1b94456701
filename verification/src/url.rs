//! The request line: method, path and query, and the matching of a path
//! against a route pattern.

use crate::seqs::{
    contains, cut, find, find_from, lemma_find_from, occurs_at, ranges_within, replace,
    replace_all, replace_from, same_ranges, same_seq, split, split_indices, split_once,
    split_once_indices, split_ranges,
};
use crate::strmap::StringMap;
use crate::structs::{method_of, HttpServerError, RequestType, RequestTypeView};
use crate::text::{chars_of, has_blank, lowercase_of, lowercased, string_of, string_of_range};
use vstd::prelude::*;
use vstd::slice::slice_subrange;

verus! {

/// What `urlencoding::decode` returns for a string with the characters
/// `input`: the decoded text, or nothing where it fails.
pub uninterp spec fn percent_decoded(input: Seq<char>) -> Option<Seq<char>>;

/// Percent-decodes `input`; this is `urlencoding::decode`, which replaces
/// each `%xx` escape by its byte and reads the bytes as UTF-8, and fails
/// where they are no UTF-8. The contract only names the result.
#[verifier::external_body]
fn percent_decode(input: &str) -> (r: Option<String>)
    ensures
        r.deep_view() == percent_decoded(input@),
{
    match urlencoding::decode(input) {
        Ok(text) => Some(text.into_owned()),
        Err(_) => None,
    }
}

/// The pieces of `pieces` that are not empty, in order.
pub open spec fn nonempty<T>(pieces: Seq<Seq<T>>) -> Seq<Seq<T>>
    decreases pieces.len(),
{
    if pieces.len() == 0 {
        Seq::empty()
    } else if pieces.last().len() > 0 {
        nonempty(pieces.drop_last()).push(pieces.last())
    } else {
        nonempty(pieces.drop_last())
    }
}

/// The segments of a path: what stands between its slashes, without the
/// empty pieces.
pub open spec fn segments(path: Seq<char>) -> Seq<Seq<char>> {
    nonempty(split(path, "/"@))
}

/// A pattern segment of the form `[name]` stands for a parameter.
pub open spec fn is_param(segment: Seq<char>) -> bool {
    segment.len() >= 2 && segment[0] == '[' && segment.last() == ']'
}

/// The name of a parameter segment: what stands between its brackets.
pub open spec fn name_of(segment: Seq<char>) -> Seq<char> {
    segment.subrange(1, segment.len() - 1)
}

/// The pattern has a parameter segment.
pub open spec fn has_param(pattern: Seq<char>) -> bool {
    exists|i: int| 0 <= i < segments(pattern).len() && is_param(#[trigger] segments(pattern)[i])
}

/// An input segment agrees with a pattern segment: the pattern segment
/// stands for a parameter, which any input segment matches, or the two are
/// equal.
pub open spec fn segment_matches(input: Seq<char>, pattern: Seq<char>) -> bool {
    is_param(pattern) || input == pattern
}

/// The segments of `input` agree one by one with those of `pattern`.
pub open spec fn segments_match(input: Seq<Seq<char>>, pattern: Seq<Seq<char>>) -> bool {
    &&& input.len() == pattern.len()
    &&& forall|i: int| 0 <= i < input.len() ==> segment_matches(#[trigger] input[i], pattern[i])
}

/// The path `input` has the shape of the pattern `pattern`.
pub open spec fn shape_matches(input: Seq<char>, pattern: Seq<char>) -> bool {
    segments_match(segments(input), segments(pattern))
}

/// The parameters that the first `n` segments bind: each parameter segment
/// of the pattern binds its name to the input segment at its place.
pub open spec fn bindings(input: Seq<Seq<char>>, pattern: Seq<Seq<char>>, n: int) -> Map<
    Seq<char>,
    Seq<char>,
>
    decreases n,
{
    if n <= 0 {
        Map::empty()
    } else if is_param(pattern[n - 1]) {
        bindings(input, pattern, n - 1).insert(name_of(pattern[n - 1]), input[n - 1])
    } else {
        bindings(input, pattern, n - 1)
    }
}

/// The parameters that `pattern` binds on the path `input`: none where the
/// shapes differ.
pub open spec fn path_params(input: Seq<char>, pattern: Seq<char>) -> Map<Seq<char>, Seq<char>> {
    if shape_matches(input, pattern) {
        bindings(segments(input), segments(pattern), segments(input).len() as int)
    } else {
        Map::empty()
    }
}

/// The pairs that the pieces with an equals sign in them give: what stands
/// before the first equals sign, and what stands after it.
pub open spec fn key_values(pieces: Seq<Seq<char>>) -> Seq<(Seq<char>, Seq<char>)>
    decreases pieces.len(),
{
    if pieces.len() == 0 {
        Seq::empty()
    } else {
        match split_once(pieces.last(), "="@) {
            Some(pair) => key_values(pieces.drop_last()).push(pair),
            None => key_values(pieces.drop_last()),
        }
    }
}

/// The map that a list of pairs stands for: later pairs win.
pub open spec fn pairs_map(pairs: Seq<(Seq<char>, Seq<char>)>) -> Map<Seq<char>, Seq<char>>
    decreases pairs.len(),
{
    if pairs.len() == 0 {
        Map::empty()
    } else {
        pairs_map(pairs.drop_last()).insert(pairs.last().0, pairs.last().1)
    }
}

/// The pairs of a form-encoded text: its pieces between ampersands, each cut
/// at its first equals sign; pieces without one are dropped.
pub open spec fn form_pairs(text: Seq<char>) -> Seq<(Seq<char>, Seq<char>)> {
    key_values(split(text, "&"@))
}

/// The query map of a query string. One of fewer than three characters, or
/// without an equals sign, gives no entry.
pub open spec fn query_of(query: Seq<char>) -> Map<Seq<char>, Seq<char>> {
    if query.len() > 2 && contains(query, "="@) {
        pairs_map(form_pairs(query))
    } else {
        Map::empty()
    }
}

/// A decoded target made safe: every `..` is removed, scanning from the
/// left, and then every run of slashes is made one slash. What is left holds
/// neither `..` nor `//`.
pub open spec fn sanitized(target: Seq<char>) -> Seq<char> {
    collapsed(replace_all(target, ".."@, ""@))
}

/// `s` with every run of slashes made one slash: a slash that follows a
/// slash is left out.
pub open spec fn collapsed(s: Seq<char>) -> Seq<char>
    decreases s.len(),
{
    if s.len() == 0 {
        s
    } else if s.len() >= 2 && s.last() == '/' && s[s.len() - 2] == '/' {
        collapsed(s.drop_last())
    } else {
        collapsed(s.drop_last()).push(s.last())
    }
}

/// The mathematical value of a [`Url`].
pub struct UrlView {
    pub path: Seq<char>,
    pub req_type: RequestTypeView,
    pub query: Map<Seq<char>, Seq<char>>,
}

/// The URL of a decoded target: the sanitized target up to its first question
/// mark is the path, the rest is the query string.
pub open spec fn target_url(decoded: Seq<char>, req_type: RequestTypeView) -> UrlView {
    let clean = sanitized(decoded);
    match split_once(clean, "?"@) {
        Some((path, query)) => UrlView { path, req_type, query: query_of(query) },
        None => UrlView { path: clean, req_type, query: Map::empty() },
    }
}

/// The tokens of a request line, cut at each blank.
pub open spec fn line_tokens(line: Seq<char>) -> Seq<Seq<char>> {
    split(line, " "@)
}

/// The decoded target of a request line token: empty where decoding fails.
pub open spec fn decoded_target(token: Seq<char>) -> Seq<char> {
    match percent_decoded(token) {
        Some(text) => text,
        None => Seq::empty(),
    }
}

/// A parsed request line.
pub struct Url {
    pub path: String,
    pub req_type: RequestType,
    pub query: StringMap,
}

impl View for Url {
    type V = UrlView;

    open spec fn view(&self) -> UrlView {
        UrlView { path: self.path@, req_type: self.req_type@, query: self.query@ }
    }
}

/// The pairs of the form-encoded text `text`.
pub fn key_value_pairs(text: &[char]) -> (out: Vec<(String, String)>)
    ensures
        out.deep_view() == form_pairs(text@),
{
    let amp = chars_of("&");
    let eq = chars_of("=");
    let ranges = split_indices(text, amp.as_slice());
    let ghost all = split(text@, "&"@);
    let mut out: Vec<(String, String)> = Vec::new();
    let mut k: usize = 0;
    assert(out.deep_view() =~= key_values(all.take(0)));
    while k < ranges.len()
        invariant
            k <= ranges@.len(),
            eq@ == "="@,
            all == split(text@, "&"@),
            same_ranges(ranges@, split_ranges(text@, "&"@)),
            ranges_within(ranges@, text@.len() as int),
            out.deep_view() == key_values(all.take(k as int)),
        decreases ranges.len() - k,
    {
        let (a, b) = ranges[k];
        let piece = slice_subrange(text, a, b);
        let ghost before = out.deep_view();
        proof {
            assert(all[k as int] == text@.subrange(a as int, b as int));
            assert(all.take(k + 1).drop_last() =~= all.take(k as int));
            assert(all.take(k + 1).last() == piece@);
        }
        match split_once_indices(piece, eq.as_slice()) {
            Some((left, right)) => {
                let key = string_of_range(piece, left.0, left.1);
                let value = string_of_range(piece, right.0, right.1);
                out.push((key, value));
                assert(out.deep_view() =~= before.push((key@, value@)));
            },
            None => {},
        }
        k += 1;
    }
    assert(all.take(ranges@.len() as int) =~= all);
    out
}

/// The ranges of the segments of the path `path`.
pub fn segment_ranges(path: &[char]) -> (out: Vec<(usize, usize)>)
    ensures
        ranges_within(out@, path@.len() as int),
        cut(path@, out@) == segments(path@),
{
    let slash = chars_of("/");
    let ranges = split_indices(path, slash.as_slice());
    let ghost all = split(path@, "/"@);
    let mut out: Vec<(usize, usize)> = Vec::new();
    let mut k: usize = 0;
    assert(cut(path@, out@) =~= nonempty(all.take(0)));
    while k < ranges.len()
        invariant
            k <= ranges@.len(),
            all == split(path@, "/"@),
            same_ranges(ranges@, split_ranges(path@, "/"@)),
            ranges_within(ranges@, path@.len() as int),
            ranges_within(out@, path@.len() as int),
            cut(path@, out@) == nonempty(all.take(k as int)),
        decreases ranges.len() - k,
    {
        let (a, b) = ranges[k];
        let ghost before = cut(path@, out@);
        proof {
            assert(all[k as int] == path@.subrange(a as int, b as int));
            assert(all.take(k + 1).drop_last() =~= all.take(k as int));
            assert(all.take(k + 1).last() == path@.subrange(a as int, b as int));
        }
        if a < b {
            out.push((a, b));
            assert(cut(path@, out@) =~= before.push(path@.subrange(a as int, b as int)));
        }
        k += 1;
    }
    assert(all.take(ranges@.len() as int) =~= all);
    out
}

/// The name of the pattern segment `segment` where it stands for a
/// parameter.
pub fn param_name(segment: &[char]) -> (r: Option<String>)
    ensures
        match r {
            Some(name) => is_param(segment@) && name@ == name_of(segment@),
            None => !is_param(segment@),
        },
{
    let n = segment.len();
    if n >= 2 && segment[0] == '[' && segment[n - 1] == ']' {
        Some(string_of_range(segment, 1, n - 1))
    } else {
        None
    }
}

/// Whether the pattern `pattern` has a parameter segment.
pub fn pattern_has_param(pattern: &[char]) -> (r: bool)
    ensures
        r == has_param(pattern@),
{
    let ranges = segment_ranges(pattern);
    let mut i: usize = 0;
    while i < ranges.len()
        invariant
            i <= ranges@.len(),
            ranges_within(ranges@, pattern@.len() as int),
            cut(pattern@, ranges@) == segments(pattern@),
            forall|j: int| 0 <= j < i ==> !is_param(#[trigger] segments(pattern@)[j]),
        decreases ranges.len() - i,
    {
        let (a, b) = ranges[i];
        let segment = slice_subrange(pattern, a, b);
        assert(segments(pattern@)[i as int] == segment@);
        if param_name(segment).is_some() {
            return true;
        }
        i += 1;
    }
    false
}

/// Makes every run of slashes in `s` one slash.
pub fn collapse(s: &[char]) -> (out: Vec<char>)
    ensures
        out@ == collapsed(s@),
{
    let mut out: Vec<char> = Vec::new();
    let mut i: usize = 0;
    assert(s@.take(0) =~= Seq::<char>::empty());
    while i < s.len()
        invariant
            i <= s@.len(),
            out@ == collapsed(s@.take(i as int)),
        decreases s.len() - i,
    {
        let ghost next = s@.take(i + 1);
        assert(next.drop_last() =~= s@.take(i as int));
        assert(next.last() == s@[i as int]);
        if !(i >= 1 && s[i] == '/' && s[i - 1] == '/') {
            out.push(s[i]);
        } else {
            assert(next[next.len() - 2] == s@[i - 1]);
        }
        i += 1;
    }
    assert(s@.take(s@.len() as int) =~= s@);
    out
}

impl Url {
    /// A URL with the given parts.
    pub fn new(path: String, req_type: RequestType, query: StringMap) -> (url: Url)
        ensures
            url@ == (UrlView { path: path@, req_type: req_type@, query: query@ }),
    {
        Url { path, req_type, query }
    }

    /// What a request line reads as, or the reason why it does not.
    ///
    /// The line must fall into three tokens at its blanks: method, target
    /// and version. The method is read from the lower-case form of the first
    /// token, and refused where that has a blank in it. The target is
    /// percent-decoded, empty where that fails, and read by [`target_url`].
    pub open spec fn parse_result(line: Seq<char>) -> Result<UrlView, Seq<char>> {
        let tokens = line_tokens(line);
        if tokens.len() != 3 {
            Err("Invalid input."@)
        } else if has_blank(lowercased(tokens[0])) {
            Err("Content Type can't contain blank spaces."@)
        } else {
            Ok(
                target_url(
                    decoded_target(tokens[1]),
                    method_of(lowercased(lowercased(tokens[0]))),
                ),
            )
        }
    }

    /// Reads a request line: a method, a target and a version, with one
    /// blank between them. The target is percent-decoded and then read by
    /// [`Url::parse_target`].
    pub fn parse(input: &str) -> (r: Result<Url, HttpServerError>)
        ensures
            match r {
                Ok(url) => Url::parse_result(input@) == Ok::<UrlView, Seq<char>>(url@)
                    && !contains(url@.path, ".."@) && !contains(url@.path, "//"@),
                Err(e) => Url::parse_result(input@) == Err::<UrlView, Seq<char>>(e@),
            },
    {
        let line = chars_of(input);
        let blank = chars_of(" ");
        let ranges = split_indices(line.as_slice(), blank.as_slice());
        if ranges.len() != 3 {
            return Err(HttpServerError::new("Invalid input."));
        }
        let ghost tokens = line_tokens(input@);
        let method = string_of_range(line.as_slice(), ranges[0].0, ranges[0].1);
        let target = string_of_range(line.as_slice(), ranges[1].0, ranges[1].1);
        assert(method@ == tokens[0]);
        assert(target@ == tokens[1]);
        let lower = lowercase_of(method.as_str());
        let req_type = match RequestType::from_string(lower.as_str()) {
            Ok(t) => t,
            Err(e) => {
                return Err(e);
            },
        };
        let decoded = match percent_decode(target.as_str()) {
            Some(text) => text,
            None => String::new(),
        };
        Ok(Url::parse_target(decoded.as_str(), req_type))
    }

    /// The same path and method, with no query.
    pub fn without_query(&self) -> (url: Url)
        ensures
            url@ == (UrlView { query: Map::empty(), ..self@ }),
    {
        Url { path: self.path.clone(), req_type: self.req_type.clone(), query: StringMap::new() }
    }

    /// The URL of a decoded target and a method.
    pub fn parse_target(decoded: &str, req_type: RequestType) -> (url: Url)
        ensures
            url@ == target_url(decoded@, req_type@),
            !contains(url@.path, ".."@),
            !contains(url@.path, "//"@),
    {
        let raw = chars_of(decoded);
        let dots = chars_of("..");
        let nothing = chars_of("");
        let mark = chars_of("?");
        let step = replace(raw.as_slice(), dots.as_slice(), nothing.as_slice());
        let clean = collapse(step.as_slice());
        assert(clean@ == sanitized(decoded@));
        proof {
            lemma_path_is_normal(decoded@, req_type@);
        }
        match split_once_indices(clean.as_slice(), mark.as_slice()) {
            Some((left, right)) => {
                let path = string_of_range(clean.as_slice(), left.0, left.1);
                let query_text = slice_subrange(clean.as_slice(), right.0, right.1);
                let query = Url::parse_query(query_text);
                Url { path, req_type, query }
            },
            None => Url { path: string_of(clean.as_slice()), req_type, query: StringMap::new() },
        }
    }

    /// The query map of a query string.
    pub fn parse_query(query: &[char]) -> (map: StringMap)
        ensures
            map@ == query_of(query@),
    {
        let eq = chars_of("=");
        let mut map = StringMap::new();
        if query.len() > 2 && find(query, eq.as_slice(), 0).is_some() {
            let pairs = key_value_pairs(query);
            let ghost views = pairs.deep_view();
            let mut i: usize = 0;
            assert(views.take(0) =~= Seq::<(Seq<char>, Seq<char>)>::empty());
            while i < pairs.len()
                invariant
                    i <= pairs@.len(),
                    views == pairs.deep_view(),
                    map@ == pairs_map(views.take(i as int)),
                decreases pairs.len() - i,
            {
                let key = pairs[i].0.clone();
                let value = pairs[i].1.clone();
                proof {
                    assert(views.take(i + 1).drop_last() =~= views.take(i as int));
                    assert(views.take(i + 1).last() == (key@, value@));
                }
                map.insert(key, value);
                i += 1;
            }
            assert(views.take(pairs@.len() as int) =~= views);
        }
        map
    }

    /// Matches the path `input` against the route pattern `pattern`: whether
    /// the shapes agree, and the parameters that the pattern binds.
    pub fn match_patern(input: &str, pattern: &str) -> (r: (bool, StringMap))
        ensures
            r.0 == shape_matches(input@, pattern@),
            r.1@ == path_params(input@, pattern@),
    {
        let path = chars_of(input);
        let shape = chars_of(pattern);
        let given = segment_ranges(path.as_slice());
        let wanted = segment_ranges(shape.as_slice());
        let ghost a = segments(input@);
        let ghost b = segments(pattern@);
        if given.len() != wanted.len() {
            return (false, StringMap::new());
        }
        let mut params = StringMap::new();
        let mut i: usize = 0;
        while i < given.len()
            invariant
                i <= given@.len() == wanted@.len(),
                path@ == input@,
                shape@ == pattern@,
                a == segments(input@),
                b == segments(pattern@),
                cut(path@, given@) == a,
                cut(shape@, wanted@) == b,
                ranges_within(given@, path@.len() as int),
                ranges_within(wanted@, shape@.len() as int),
                forall|j: int| 0 <= j < i ==> segment_matches(#[trigger] a[j], b[j]),
                params@ == bindings(a, b, i as int),
            decreases given.len() - i,
        {
            let (g0, g1) = given[i];
            let (w0, w1) = wanted[i];
            let part = slice_subrange(path.as_slice(), g0, g1);
            let want = slice_subrange(shape.as_slice(), w0, w1);
            assert(a[i as int] == part@);
            assert(b[i as int] == want@);
            match param_name(want) {
                Some(name) => {
                    params.insert(name, string_of(part));
                },
                None => {
                    if !same_seq(part, want) {
                        return (false, StringMap::new());
                    }
                },
            }
            i += 1;
        }
        (true, params)
    }
}

/// `s` nowhere holds the character `c` twice in a row.
pub open spec fn no_pair(s: Seq<char>, c: char) -> bool {
    forall|i: int| 0 <= i < s.len() - 1 ==> !(#[trigger] s[i] == c && s[i + 1] == c)
}

/// Two texts without a pair of `c`, of which the first does not end in `c`
/// or the second does not begin with it, give such a text when put together.
proof fn lemma_no_pair_joined(a: Seq<char>, b: Seq<char>, c: char)
    requires
        no_pair(a, c),
        no_pair(b, c),
        a.len() == 0 || b.len() == 0 || a.last() != c || b[0] != c,
    ensures
        no_pair(a + b, c),
{
    assert forall|i: int| 0 <= i < (a + b).len() - 1 implies !(#[trigger] (a + b)[i] == c && (a
        + b)[i + 1] == c) by {
        if i + 1 < a.len() {
            assert((a + b)[i] == a[i] && (a + b)[i + 1] == a[i + 1]);
        } else if i >= a.len() {
            assert((a + b)[i] == b[i - a.len()] && (a + b)[i + 1] == b[i - a.len() + 1]);
        } else {
            assert((a + b)[i] == a.last() && (a + b)[i + 1] == b[0]);
        }
    }
}

/// Two dots stand at `p` just where both characters are dots.
proof fn lemma_dots_at(s: Seq<char>, p: int)
    ensures
        occurs_at(s, ".."@, p) == (0 <= p && p + 2 <= s.len() && s[p] == '.' && s[p + 1] == '.'),
{
    reveal_strlit("..");
    if 0 <= p && p + 2 <= s.len() {
        let piece = s.subrange(p, p + 2);
        assert(piece[0] == s[p] && piece[1] == s[p + 1]);
        if s[p] == '.' && s[p + 1] == '.' {
            assert(piece =~= ".."@);
        }
    }
}

/// Two slashes stand at `p` just where both characters are slashes.
proof fn lemma_slashes_at(s: Seq<char>, p: int)
    ensures
        occurs_at(s, "//"@, p) == (0 <= p && p + 2 <= s.len() && s[p] == '/' && s[p + 1] == '/'),
{
    reveal_strlit("//");
    if 0 <= p && p + 2 <= s.len() {
        let piece = s.subrange(p, p + 2);
        assert(piece[0] == s[p] && piece[1] == s[p + 1]);
        if s[p] == '/' && s[p + 1] == '/' {
            assert(piece =~= "//"@);
        }
    }
}

/// What is left from `from` on when every `..` is removed holds no `..`.
proof fn lemma_dots_removed(s: Seq<char>, from: int)
    requires
        0 <= from <= s.len(),
    ensures
        no_pair(replace_from(s, ".."@, ""@, from), '.'),
    decreases s.len() - from,
{
    reveal_strlit("..");
    reveal_strlit("");
    lemma_find_from(s, ".."@, from);
    let i = find_from(s, ".."@, from);
    if i < from || i + 2 > s.len() {
        let rest = s.subrange(from, s.len() as int);
        assert forall|k: int| 0 <= k < rest.len() - 1 implies !(#[trigger] rest[k] == '.' && rest[k
            + 1] == '.') by {
            lemma_dots_at(s, from + k);
            assert(rest[k] == s[from + k] && rest[k + 1] == s[from + k + 1]);
        }
    } else {
        let kept = s.subrange(from, i);
        let rest = replace_from(s, ".."@, ""@, i + 2);
        lemma_dots_removed(s, i + 2);
        assert forall|k: int| 0 <= k < kept.len() - 1 implies !(#[trigger] kept[k] == '.' && kept[k
            + 1] == '.') by {
            lemma_dots_at(s, from + k);
            assert(kept[k] == s[from + k] && kept[k + 1] == s[from + k + 1]);
        }
        if kept.len() > 0 {
            lemma_dots_at(s, i - 1);
            lemma_dots_at(s, i);
            assert(kept.last() == s[i - 1]);
        }
        lemma_no_pair_joined(kept, rest, '.');
        assert(kept + ""@ + rest =~= kept + rest);
    }
}

/// A collapsed text holds no `//`, ends as the text does, and holds no `..`
/// where the text holds none.
proof fn lemma_collapsed(s: Seq<char>)
    ensures
        no_pair(collapsed(s), '/'),
        s.len() > 0 ==> collapsed(s).len() > 0 && collapsed(s).last() == s.last(),
        no_pair(s, '.') ==> no_pair(collapsed(s), '.'),
    decreases s.len(),
{
    if s.len() > 0 {
        let front = s.drop_last();
        lemma_collapsed(front);
        let f = collapsed(front);
        if no_pair(s, '.') {
            assert forall|k: int| 0 <= k < front.len() - 1 implies !(#[trigger] front[k] == '.'
                && front[k + 1] == '.') by {
                assert(front[k] == s[k] && front[k + 1] == s[k + 1]);
            }
        }
        if front.len() > 0 {
            assert(front.last() == s[s.len() - 2]);
        }
        if !(s.len() >= 2 && s.last() == '/' && s[s.len() - 2] == '/') {
            let out = f.push(s.last());
            assert forall|k: int| 0 <= k < out.len() - 1 implies !(#[trigger] out[k] == '/' && out[k
                + 1] == '/') by {
                if k + 1 < f.len() {
                    assert(out[k] == f[k] && out[k + 1] == f[k + 1]);
                }
            }
            if no_pair(s, '.') {
                assert forall|k: int| 0 <= k < out.len() - 1 implies !(#[trigger] out[k] == '.'
                    && out[k + 1] == '.') by {
                    if k + 1 < f.len() {
                        assert(out[k] == f[k] && out[k + 1] == f[k + 1]);
                    } else {
                        assert(s[s.len() - 2] == front.last());
                    }
                }
            }
        }
    }
}

/// The stored path is normal: a sanitized target holds neither `..` nor
/// `//`, and neither does the path of its URL. No request reaches above the
/// folder it is served from.
pub proof fn lemma_path_is_normal(decoded: Seq<char>, req_type: RequestTypeView)
    ensures
        no_pair(sanitized(decoded), '.'),
        no_pair(sanitized(decoded), '/'),
        !contains(target_url(decoded, req_type).path, ".."@),
        !contains(target_url(decoded, req_type).path, "//"@),
{
    let step = replace_all(decoded, ".."@, ""@);
    lemma_dots_removed(decoded, 0);
    lemma_collapsed(step);
    let clean = sanitized(decoded);
    let path = target_url(decoded, req_type).path;
    match split_once(clean, "?"@) {
        Some(_) => {
            lemma_find_from(clean, "?"@, 0);
        },
        None => {},
    }
    assert forall|k: int| 0 <= k < path.len() - 1 implies (#[trigger] path[k] == clean[k] && path[k
        + 1] == clean[k + 1]) by {}
    lemma_find_from(path, ".."@, 0);
    let dots = find_from(path, ".."@, 0);
    if dots >= 0 {
        lemma_dots_at(path, dots);
        assert(path[dots] == clean[dots]);
    }
    lemma_find_from(path, "//"@, 0);
    let slashes = find_from(path, "//"@, 0);
    if slashes >= 0 {
        lemma_slashes_at(path, slashes);
        assert(path[slashes] == clean[slashes]);
    }
}

} // verus!
