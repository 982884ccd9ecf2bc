//! REST request and response messages, and the rules by which the REST
//! endpoint turns an HTTP request into a bus topic and a bus reply into HTTP.
use std::collections::HashMap;
use vstd::prelude::*;

use crate::text::{
    chars_of, join_with, lemma_join_split, lemma_split_pieces_free, push_all, split_chars, split_on, string_from_chars, strings_of, strings_view,
    words_view,
};

verus! {

/// Default TCP port of the REST endpoint.
pub const DEFAULT_REST_PORT: u16 = 4340;

/// REST request message
#[derive(Debug, Default, Clone)]
pub struct RESTRequest {
    /// HTTP method: GET, POST etc.
    pub method: String,
    /// URL path: /foo
    pub path: String,
    /// URL path elements (split on /)
    pub path_elements: Vec<String>,
    /// Request body (if any)
    pub body: String,
    /// Request query parameters
    pub query_parameters: HashMap<String, String>,
}

/// REST response message
#[derive(Debug, Default, Clone)]
pub struct RESTResponse {
    /// HTTP response code
    pub code: u16,
    /// Response body (if any)
    pub body: String,
    /// Response content-type
    pub content_type: String,
}

impl RESTResponse {
    /// Construct with any content-type
    pub fn new(code: u16, body: &str, content_type: &str) -> (r: Self)
        ensures
            r.code == code,
            r.body@ == body@,
            r.content_type@ == content_type@,
    {
        RESTResponse { code, body: body.to_owned(), content_type: content_type.to_owned() }
    }

    /// Construct for text/plain
    pub fn with_text(code: u16, body: &str) -> (r: Self)
        ensures
            r.code == code,
            r.body@ == body@,
            r.content_type@ == "text/plain"@,
    {
        Self::new(code, body, "text/plain")
    }

    /// Construct for application/json
    pub fn with_json(code: u16, body: &str) -> (r: Self)
        ensures
            r.code == code,
            r.body@ == body@,
            r.content_type@ == "application/json"@,
    {
        Self::new(code, body, "application/json")
    }
}

/// Implemented by a bus message type that may carry a REST response.
pub trait GetRESTResponse {
    fn get_rest_response(&self) -> Option<RESTResponse>;
}

/// `s` without one leading `/`, if it has one.
pub open spec fn trim_slash_start(s: Seq<char>) -> Seq<char> {
    if s.len() > 0 && s[0] == '/' {
        s.drop_first()
    } else {
        s
    }
}

/// `s` without one trailing `/`, if it has one.
pub open spec fn trim_slash_end(s: Seq<char>) -> Seq<char> {
    if s.len() > 0 && s.last() == '/' {
        s.drop_last()
    } else {
        s
    }
}

/// `c`, with `/` turned into `.`.
pub open spec fn slash_to_dot(c: char) -> char {
    if c == '/' {
        '.'
    } else {
        c
    }
}

/// The dotted form of a URL path: one leading and one trailing `/` removed,
/// every other `/` turned into `.`.
pub open spec fn dotted_path(path: Seq<char>) -> Seq<char> {
    trim_slash_end(trim_slash_start(path)).map_values(|c: char| slash_to_dot(c))
}

/// The dotted path changes nothing but the slashes: it is the path without one
/// leading and one trailing `/`, with each remaining `/` turned into `.` and every
/// other character, upper-case letters included, kept as it is.
pub proof fn law_dotted_path_changes_only_slashes(path: Seq<char>)
    ensures
        ({
            let s: int = if path.len() > 0 && path[0] == '/' { 1 } else { 0 };
            let e: int = if path.len() > s && path.last() == '/' { 1 } else { 0 };
            &&& dotted_path(path).len() == path.len() - s - e
            &&& forall|k: int| 0 <= k < path.len() - s - e ==> (#[trigger] dotted_path(path)[k]) == (if path[k + s] == '/' {
                '.'
            } else {
                path[k + s]
            })
        }),
{
    let s: int = if path.len() > 0 && path[0] == '/' { 1 } else { 0 };
    let e: int = if path.len() > s && path.last() == '/' { 1 } else { 0 };
    let a = trim_slash_start(path);
    assert(a =~= path.subrange(s, path.len() as int));
    let b = trim_slash_end(a);
    assert(b =~= path.subrange(s, path.len() - e));
}

/// The bus topic of a REST request: `<prefix>.<method>.<dotted path>`.
pub open spec fn request_topic_of(prefix: Seq<char>, method: Seq<char>, path: Seq<char>) -> Seq<char> {
    prefix + seq!['.'] + method + seq!['.'] + dotted_path(path)
}

/// What `str::to_lowercase` gives for `s`.
pub uninterp spec fn lowercase_of(s: Seq<char>) -> Seq<char>;

/// `c` with ASCII upper-case letters mapped to lower case.
pub open spec fn ascii_lower(c: char) -> char {
    if 'A' <= c && c <= 'Z' {
        ((c as u32) + 32) as char
    } else {
        c
    }
}

/// Lower-cases a text with std's `str::to_lowercase`. The result is the named
/// `lowercase_of` of the text; for an all-ASCII text it is the ASCII
/// lower-casing, since the Unicode lower case of an ASCII character is its
/// ASCII lower case. What Unicode lower-casing does beyond ASCII is not stated.
#[verifier::external_body]
fn to_lowercase(s: &str) -> (r: String)
    ensures
        r@ == lowercase_of(s@),
        vstd::utf8::is_ascii_chars(s@) ==> r@ == s@.map_values(|c: char| ascii_lower(c)),
{
    s.to_lowercase()
}

/// The dotted form of `path`, as characters.
pub fn dotted_path_chars(path: &str) -> (r: Vec<char>)
    ensures
        r@ == dotted_path(path@),
{
    let c = chars_of(path);
    let n = c.len();
    let start: usize = if n > 0 && c[0] == '/' { 1 } else { 0 };
    let end: usize = if n > start && c[n - 1] == '/' { n - 1 } else { n };
    let ghost trimmed = trim_slash_end(trim_slash_start(path@));
    proof {
        let a = trim_slash_start(path@);
        assert(a =~= path@.subrange(start as int, n as int));
        assert(trimmed =~= path@.subrange(start as int, end as int));
    }
    let mut r: Vec<char> = Vec::new();
    let mut i = start;
    while i < end
        invariant
            start <= i <= end <= n,
            n == c.len(),
            c@ == path@,
            trimmed == path@.subrange(start as int, end as int),
            r@ == path@.subrange(start as int, i as int).map_values(|ch: char| slash_to_dot(ch)),
        decreases end - i,
    {
        let ch = c[i];
        let d = if ch == '/' { '.' } else { ch };
        r.push(d);
        i += 1;
        assert(r@ =~= path@.subrange(start as int, i as int).map_values(|ch: char| slash_to_dot(ch)));
    }
    r
}

/// The bus topic for a request whose method is already lower-cased.
pub fn topic_for_request(prefix: &str, method_lower: &str, path: &str) -> (topic: String)
    ensures
        topic@ == request_topic_of(prefix@, method_lower@, path@),
{
    let mut v = chars_of(prefix);
    v.push('.');
    let m = chars_of(method_lower);
    push_all(&mut v, &m);
    v.push('.');
    let d = dotted_path_chars(path);
    push_all(&mut v, &d);
    let topic = string_from_chars(v);
    assert(topic@ =~= request_topic_of(prefix@, method_lower@, path@));
    topic
}

/// The bus topic for a REST request: the prefix, the lower-cased method
/// and the dotted path, joined by dots.
pub fn request_topic(prefix: &str, method: &str, path: &str) -> (topic: String)
    ensures
        topic@ == request_topic_of(prefix@, lowercase_of(method@), path@),
        vstd::utf8::is_ascii_chars(method@) ==> topic@ == request_topic_of(
            prefix@,
            method@.map_values(|c: char| ascii_lower(c)),
            path@,
        ),
{
    let lower = to_lowercase(method);
    topic_for_request(prefix, lower.as_str(), path)
}

/// The elements of a request path: its dotted form split on `.`.
pub fn path_elements(path: &str) -> (elements: Vec<String>)
    ensures
        strings_view(elements@) == split_on(dotted_path(path@), '.'),
{
    let d = dotted_path_chars(path);
    let words = split_chars(&d, '.');
    strings_of(words)
}

/// Joining a request's path elements with dots gives its dotted path back.
pub proof fn law_path_elements_join_to_dotted_path(path: Seq<char>)
    ensures
        join_with(split_on(dotted_path(path), '.'), '.') == dotted_path(path),
{
    lemma_join_split(dotted_path(path), '.');
}

/// No path element contains a dot.
pub proof fn law_path_elements_have_no_dots(path: Seq<char>)
    ensures
        forall|k: int| 0 <= k < split_on(dotted_path(path), '.').len()
            ==> !(#[trigger] split_on(dotted_path(path), '.')[k]).contains('.'),
{
    lemma_split_pieces_free(dotted_path(path), '.');
}

/// Whether `i` is the position of the first `=` in `piece`.
pub open spec fn is_first_eq(piece: Seq<char>, i: int) -> bool {
    0 <= i < piece.len() && piece[i] == '=' && forall|k: int| 0 <= k < i ==> piece[k] != '='
}

/// The parameter that one piece of a query string carries: the text before its first
/// `=` as the name and the text after it as the value; a piece without `=` is a name
/// with an empty value.
pub open spec fn query_param(piece: Seq<char>) -> (Seq<char>, Seq<char>) {
    if exists|i: int| is_first_eq(piece, i) {
        let i = choose|i: int| is_first_eq(piece, i);
        (piece.take(i), piece.skip(i + 1))
    } else {
        (piece, Seq::<char>::empty())
    }
}

/// The parameters that the pieces of a query string carry, read in order: an empty
/// piece carries none, and a later piece with the same name replaces the earlier value.
pub open spec fn params_of_pieces(pieces: Seq<Seq<char>>) -> Map<Seq<char>, Seq<char>>
    decreases pieces.len(),
{
    if pieces.len() == 0 {
        Map::empty()
    } else {
        let m = params_of_pieces(pieces.drop_last());
        let w = pieces.last();
        if w.len() == 0 {
            m
        } else {
            m.insert(query_param(w).0, query_param(w).1)
        }
    }
}

/// The parameters of a URI query string: the parameters of its `&`-separated pieces.
pub open spec fn query_parameters_of(query: Seq<char>) -> Map<Seq<char>, Seq<char>> {
    params_of_pieces(split_on(query, '&'))
}

/// Whether piece `i` of `pieces` is non-empty and carries a parameter named `name`.
pub open spec fn names_parameter(pieces: Seq<Seq<char>>, i: int, name: Seq<char>) -> bool {
    0 <= i < pieces.len() && pieces[i].len() > 0 && query_param(pieces[i]).0 == name
}

proof fn lemma_params_of_pieces(pieces: Seq<Seq<char>>, name: Seq<char>)
    ensures
        params_of_pieces(pieces).contains_key(name) <==> exists|i: int| #[trigger] names_parameter(pieces, i, name),
        params_of_pieces(pieces).contains_key(name) ==> exists|i: int|
            #[trigger] names_parameter(pieces, i, name)
                && params_of_pieces(pieces)[name] == query_param(pieces[i]).1
                && forall|j: int| i < j ==> !#[trigger] names_parameter(pieces, j, name),
    decreases pieces.len(),
{
    if pieces.len() > 0 {
        let pre = pieces.drop_last();
        let n = pieces.len() - 1;
        lemma_params_of_pieces(pre, name);
        assert forall|i: int| i < n implies #[trigger] names_parameter(pieces, i, name) == names_parameter(pre, i, name) by {
            if 0 <= i {
                assert(pieces[i] == pre[i]);
            }
        }
        if names_parameter(pieces, n, name) {
            assert(params_of_pieces(pieces)[name] == query_param(pieces[n]).1);
            assert forall|j: int| n < j implies !#[trigger] names_parameter(pieces, j, name) by {}
        } else {
            assert(params_of_pieces(pieces).contains_key(name) == params_of_pieces(pre).contains_key(name));
            if exists|i: int| #[trigger] names_parameter(pieces, i, name) {
                let i = choose|i: int| #[trigger] names_parameter(pieces, i, name);
                assert(names_parameter(pre, i, name));
            }
            if params_of_pieces(pre).contains_key(name) {
                let i = choose|i: int|
                    #[trigger] names_parameter(pre, i, name)
                        && params_of_pieces(pre)[name] == query_param(pre[i]).1
                        && forall|j: int| i < j ==> !#[trigger] names_parameter(pre, j, name);
                assert(names_parameter(pieces, i, name));
                assert(params_of_pieces(pieces)[name] == params_of_pieces(pre)[name]);
                assert forall|j: int| i < j implies !#[trigger] names_parameter(pieces, j, name) by {
                    if j < n {
                        assert(!names_parameter(pre, j, name));
                    }
                }
            }
        }
    }
}

/// A query string has a parameter named `name` exactly when one of its non-empty
/// `&`-separated pieces carries that name, and the parameter then holds the value
/// of the last such piece.
pub proof fn law_query_parameter_from_last_piece(query: Seq<char>, name: Seq<char>)
    ensures
        query_parameters_of(query).contains_key(name) <==> exists|i: int|
            #[trigger] names_parameter(split_on(query, '&'), i, name),
        query_parameters_of(query).contains_key(name) ==> exists|i: int|
            #[trigger] names_parameter(split_on(query, '&'), i, name)
                && query_parameters_of(query)[name] == query_param(split_on(query, '&')[i]).1
                && forall|j: int| i < j ==> !#[trigger] names_parameter(split_on(query, '&'), j, name),
{
    lemma_params_of_pieces(split_on(query, '&'), name);
}

/// std's `HashMap::insert` on a map of strings, which keys entries by their text:
/// the entry for `key` now holds `value`, the other entries stay as they were.
#[verifier::external_body]
fn insert_parameter(params: &mut HashMap<String, String>, key: String, value: String)
    ensures
        final(params).deep_view() == old(params).deep_view().insert(key@, value@),
{
    params.insert(key, value);
}

/// The characters of `v` from `from` up to, not including, `to`.
fn copy_range(v: &Vec<char>, from: usize, to: usize) -> (r: Vec<char>)
    requires
        from <= to <= v.len(),
    ensures
        r@ == v@.subrange(from as int, to as int),
{
    let mut r: Vec<char> = Vec::new();
    let mut k = from;
    while k < to
        invariant
            from <= k <= to,
            to <= v.len(),
            r@ == v@.subrange(from as int, k as int),
        decreases to - k,
    {
        r.push(v[k]);
        k += 1;
        assert(r@ =~= v@.subrange(from as int, k as int));
    }
    r
}

/// The name and the value that one piece of a query string carries.
fn split_param(piece: &Vec<char>) -> (r: (Vec<char>, Vec<char>))
    ensures
        r.0@ == query_param(piece@).0,
        r.1@ == query_param(piece@).1,
{
    let mut i: usize = 0;
    while i < piece.len() && piece[i] != '='
        invariant
            i <= piece.len(),
            forall|k: int| 0 <= k < i ==> piece@[k] != '=',
        decreases piece.len() - i,
    {
        i += 1;
    }
    if i < piece.len() {
        proof {
            assert(is_first_eq(piece@, i as int));
            let j = choose|j: int| is_first_eq(piece@, j);
            if j < i {
                assert(piece@[j] != '=');
            }
            if j > i {
                assert(piece@[i as int] == '=');
            }
        }
        let name = copy_range(piece, 0, i);
        let value = copy_range(piece, i + 1, piece.len());
        assert(name@ =~= piece@.take(i as int));
        assert(value@ =~= piece@.skip(i + 1));
        (name, value)
    } else {
        proof {
            if exists|j: int| is_first_eq(piece@, j) {
                let j = choose|j: int| is_first_eq(piece@, j);
                assert(piece@[j] != '=');
            }
        }
        let name = copy_range(piece, 0, piece.len());
        assert(name@ =~= piece@);
        let value: Vec<char> = Vec::new();
        assert(value@ =~= Seq::<char>::empty());
        (name, value)
    }
}

/// The query parameters of a request whose URI carries the query string `query`
/// (`None`: the URI has no query, so there are none).
pub fn query_parameters(query: Option<&str>) -> (params: HashMap<String, String>)
    ensures
        params.deep_view() == (match query {
            Some(q) => query_parameters_of(q@),
            None => Map::<Seq<char>, Seq<char>>::empty(),
        }),
{
    let mut params: HashMap<String, String> = HashMap::new();
    proof {
        vstd::std_specs::hash::lemma_hashmap_deepview_dom(params);
        assert(params.deep_view().dom() =~= Set::<Seq<char>>::empty());
        assert(params.deep_view() =~= Map::<Seq<char>, Seq<char>>::empty());
    }
    match query {
        None => params,
        Some(q) => {
            let qc = chars_of(q);
            let pieces = split_chars(&qc, '&');
            let ghost pw = words_view(pieces@);
            let mut idx: usize = 0;
            while idx < pieces.len()
                invariant
                    idx <= pieces.len(),
                    pw == words_view(pieces@),
                    pw == split_on(q@, '&'),
                    params.deep_view() == params_of_pieces(pw.take(idx as int)),
                decreases pieces.len() - idx,
            {
                proof {
                    assert(pw.take(idx + 1).drop_last() =~= pw.take(idx as int));
                    assert(pw.take(idx + 1).last() == pieces@[idx as int]@);
                }
                if pieces[idx].len() > 0 {
                    let (name, value) = split_param(&pieces[idx]);
                    let key = string_from_chars(name);
                    let val = string_from_chars(value);
                    insert_parameter(&mut params, key, val);
                }
                idx += 1;
            }
            assert(pw.take(pw.len() as int) =~= pw);
            params
        }
    }
}

/// The request message for an HTTP request with the given method, path, URI query
/// string (if the URI has one) and body.
pub fn build_request(method: String, path: String, query: Option<&str>, body: String) -> (req: RESTRequest)
    ensures
        req.method@ == method@,
        req.path@ == path@,
        req.body@ == body@,
        strings_view(req.path_elements@) == split_on(dotted_path(path@), '.'),
        req.query_parameters.deep_view() == (match query {
            Some(q) => query_parameters_of(q@),
            None => Map::<Seq<char>, Seq<char>>::empty(),
        }),
{
    let path_elements = path_elements(path.as_str());
    let query_parameters = query_parameters(query);
    RESTRequest { method, path, path_elements, body, query_parameters }
}

/// The topic prefix of the REST endpoint: the configured one, else `rest`.
pub fn rest_topic_prefix(configured: Option<String>) -> (prefix: String)
    ensures
        prefix@ == (match configured {
            Some(t) => t@,
            None => "rest"@,
        }),
{
    match configured {
        Some(t) => t,
        None => "rest".to_owned(),
    }
}

/// The TCP port of the REST endpoint: the configured one, else the default.
pub fn rest_port(configured: Option<u16>) -> (port: u16)
    ensures
        port == (match configured {
            Some(p) => p,
            None => DEFAULT_REST_PORT,
        }),
{
    match configured {
        Some(p) => p,
        None => DEFAULT_REST_PORT,
    }
}

/// How a request sent on the bus for an HTTP request came out.
pub enum RequestOutcome {
    /// The request body could not be read as text; the error's text.
    BadBody(String),
    /// No reply came (no handler, or the request timed out).
    NoReply,
    /// A reply came; the REST response it carries, if it carries one.
    Reply(Option<RESTResponse>),
}

/// The HTTP answer to give.
pub struct HttpReply {
    pub status: u16,
    pub content_type: Option<String>,
    pub body: String,
}

/// Whether `code` is a valid HTTP status code, as `http::StatusCode::from_u16` checks it.
pub open spec fn valid_status(code: u16) -> bool {
    100 <= code < 1000
}

/// Checks a status code with `http::StatusCode::from_u16` (as axum re-exports it),
/// which accepts exactly the codes from 100 to 999.
#[verifier::external_body]
fn checked_status(code: u16) -> (r: Option<u16>)
    ensures
        r == (if valid_status(code) { Some(code) } else { None::<u16> }),
{
    match axum::http::StatusCode::from_u16(code) {
        Ok(s) => Some(s.as_u16()),
        Err(_) => None,
    }
}

/// The HTTP status for a reply that carries a REST response with `code`:
/// the code itself when valid, else 500.
pub fn reply_status(code: u16) -> (status: u16)
    ensures
        status == (if valid_status(code) { code } else { 500 }),
{
    match checked_status(code) {
        Some(s) => s,
        None => 500,
    }
}

/// The HTTP answer for the outcome of a REST request: 500 with the error for an
/// unreadable body, 404 when no reply came, 500 when the reply is no REST
/// response, else the response's status, content type and body.
pub fn http_reply(outcome: RequestOutcome) -> (reply: HttpReply)
    ensures
        match outcome {
            RequestOutcome::BadBody(e) => reply.status == 500 && reply.content_type is None
                && reply.body@ == e@,
            RequestOutcome::NoReply => reply.status == 404 && reply.content_type is None
                && reply.body@.len() == 0,
            RequestOutcome::Reply(None) => reply.status == 500 && reply.content_type is None
                && reply.body@.len() == 0,
            RequestOutcome::Reply(Some(r)) => reply.status == (if valid_status(r.code) { r.code } else { 500 })
                && reply.content_type == Some(r.content_type) && reply.body@ == r.body@,
        },
{
    match outcome {
        RequestOutcome::BadBody(e) => HttpReply { status: 500, content_type: None, body: e },
        RequestOutcome::NoReply => HttpReply { status: 404, content_type: None, body: String::new() },
        RequestOutcome::Reply(None) => HttpReply { status: 500, content_type: None, body: String::new() },
        RequestOutcome::Reply(Some(r)) => {
            let status = reply_status(r.code);
            HttpReply { status, content_type: Some(r.content_type), body: r.body }
        },
    }
}

} // verus!
