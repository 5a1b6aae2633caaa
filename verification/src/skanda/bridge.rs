//! How the HTTP bridge answers a request: when a request head is complete, and
//! from its first line which reply it gets (a search with its query and fuzzy
//! flag, or one of the fixed replies).
use vstd::prelude::*;

use crate::pfr::fuzzy_search::chars_of;
use crate::skanda::indexer::{lemma_seq_index, seq_index};
use crate::skanda::searcher::strings_view;
use crate::text::{from_utf8_lossy, is_whitespace, lossy_text, push_char, str_eq, whitespace};

verus! {

// ---------------------------------------------------------------------------
// The request head
// ---------------------------------------------------------------------------

/// The bytes that end a request head.
pub open spec fn head_end() -> Seq<u8> {
    seq![13u8, 10u8, 13u8, 10u8]
}

/// The most bytes read before giving up on finding the end of the head.
pub const MAX_HEAD_BYTES: usize = 8192;

/// Reading can stop: the end of the head has arrived, or more than
/// `MAX_HEAD_BYTES` bytes have.
pub fn request_complete(buf: &[u8]) -> (done: bool)
    ensures
        done == ((exists|i: int| 0 <= i && i + 4 <= buf@.len() && #[trigger] buf@.subrange(i, i + 4) == head_end())
            || buf@.len() > MAX_HEAD_BYTES),
{
    if buf.len() < 4 {
        return false;
    }
    let last = buf.len() - 4;
    let mut i: usize = 0;
    while i <= last
        invariant
            last + 4 == buf@.len(),
            i <= last + 1,
            forall|j: int| 0 <= j < i ==> #[trigger] buf@.subrange(j, j + 4) != head_end(),
        decreases last + 1 - i,
    {
        if buf[i] == 13u8 && buf[i + 1] == 10u8 && buf[i + 2] == 13u8 && buf[i + 3] == 10u8 {
            assert(buf@.subrange(i as int, i + 4) =~= head_end());
            return true;
        }
        proof {
            let w = buf@.subrange(i as int, i + 4);
            if w == head_end() {
                assert(w[0] == buf@[i as int] && w[1] == buf@[i + 1] && w[2] == buf@[i + 2] && w[3] == buf@[i + 3]);
            }
        }
        i = i + 1;
    }
    buf.len() > MAX_HEAD_BYTES
}

/// The first line of the text: up to the first line feed, less a carriage
/// return just before it; none for empty text (as `str::lines` gives it).
pub open spec fn first_line(s: Seq<char>) -> Option<Seq<char>> {
    if s.len() == 0 {
        None
    } else {
        match seq_index(s, '\n') {
            Some(i) => {
                let l = s.take(i);
                Some(
                    if l.len() > 0 && l.last() == '\r' {
                        l.drop_last()
                    } else {
                        l
                    },
                )
            },
            None => Some(s),
        }
    }
}

/// Scanning for fields: the fields so far and the one being read.
pub open spec fn fields_scan(s: Seq<char>) -> (Seq<Seq<char>>, Seq<char>)
    decreases s.len(),
{
    if s.len() == 0 {
        (seq![], seq![])
    } else {
        let (done, cur) = fields_scan(s.drop_last());
        if whitespace(s.last()) {
            if cur.len() > 0 {
                (done.push(cur), seq![])
            } else {
                (done, seq![])
            }
        } else {
            (done, cur.push(s.last()))
        }
    }
}

/// The runs of non-white-space characters (as `str::split_whitespace` gives them).
pub open spec fn fields(s: Seq<char>) -> Seq<Seq<char>> {
    let (done, cur) = fields_scan(s);
    if cur.len() > 0 {
        done.push(cur)
    } else {
        done
    }
}

/// The first line of `s`, as a vector of characters.
fn first_line_of(chars: &Vec<char>) -> (r: Option<Vec<char>>)
    ensures
        match first_line(chars@) {
            Some(l) => r is Some && r->0@ == l,
            None => r is None,
        },
{
    if chars.len() == 0 {
        return None;
    }
    let mut line: Vec<char> = Vec::new();
    let mut i: usize = 0;
    proof {
        lemma_seq_index(chars@, '\n');
    }
    while i < chars.len() && chars[i] != '\n'
        invariant
            i <= chars@.len(),
            line@ == chars@.take(i as int),
            forall|j: int| 0 <= j < i ==> chars@[j] != '\n',
        decreases chars@.len() - i,
    {
        line.push(chars[i]);
        proof {
            assert(chars@.take(i + 1) =~= chars@.take(i as int).push(chars@[i as int]));
        }
        i = i + 1;
    }
    if i < chars.len() {
        proof {
            match seq_index(chars@, '\n') {
                Some(k) => {
                    if k < i {
                    } else if k > i {
                    }
                },
                None => {},
            }
        }
        let n = line.len();
        if n > 0 && line[n - 1] == '\r' {
            line.pop();
            proof {
                assert(line@ =~= chars@.take(i as int).drop_last());
            }
        }
    } else {
        proof {
            assert(chars@.take(i as int) =~= chars@);
        }
    }
    Some(line)
}

/// The fields of a line (see `fields`).
fn fields_of(line: &Vec<char>) -> (r: Vec<String>)
    ensures
        strings_view(r@) == fields(line@),
{
    let mut done: Vec<String> = Vec::new();
    let mut cur = String::new();
    let mut i: usize = 0;
    proof {
        assert(line@.take(0) =~= Seq::<char>::empty());
        assert(strings_view(done@) =~= Seq::<Seq<char>>::empty());
    }
    while i < line.len()
        invariant
            i <= line@.len(),
            (strings_view(done@), cur@) == fields_scan(line@.take(i as int)),
        decreases line@.len() - i,
    {
        let c = line[i];
        proof {
            assert(line@.take(i + 1).drop_last() =~= line@.take(i as int));
            assert(line@.take(i + 1).last() == c);
        }
        if is_whitespace(c) {
            if cur.as_str().unicode_len() > 0 {
                let ghost before = strings_view(done@);
                let finished = cur;
                done.push(finished);
                cur = String::new();
                proof {
                    assert(strings_view(done@) =~= before.push(finished@));
                }
            } else {
                cur = String::new();
            }
        } else {
            push_char(&mut cur, c);
        }
        i = i + 1;
    }
    proof {
        assert(line@.take(line@.len() as int) =~= line@);
    }
    if cur.as_str().unicode_len() > 0 {
        let ghost before = strings_view(done@);
        let last = cur;
        done.push(last);
        proof {
            assert(strings_view(done@) =~= before.push(last@));
        }
    }
    done
}

// ---------------------------------------------------------------------------
// The target URL
// ---------------------------------------------------------------------------

/// Whether `url::Url::parse` takes the text as an absolute URL.
pub uninterp spec fn url_parses(s: Seq<char>) -> bool;

/// `Url::path` of the URL that `url::Url::parse` makes of the text.
pub uninterp spec fn url_path(s: Seq<char>) -> Seq<char>;

/// `Url::query_pairs` of that URL: its query's key/value pairs, decoded, in order.
pub uninterp spec fn url_query_pairs(s: Seq<char>) -> Seq<(Seq<char>, Seq<char>)>;

/// A URL as the bridge reads it: its path and its query's key/value pairs.
pub struct RequestUrl {
    pub path: String,
    pub pairs: Vec<(String, String)>,
}

/// Key/value pairs as plain values.
pub open spec fn pairs_view(v: Seq<(String, String)>) -> Seq<(Seq<char>, Seq<char>)> {
    v.map_values(|p: (String, String)| (p.0@, p.1@))
}

/// `url::Url::parse`, and of the URL it gives, `Url::path` and the pairs of
/// `Url::query_pairs` as owned strings. The crate parses by the WHATWG URL
/// standard; its results are named, not stated: what is claimed is only that
/// they depend on the text alone, and that `None` comes exactly when `parse`
/// fails.
#[verifier::external_body]
fn parse_url(s: &str) -> (r: Option<RequestUrl>)
    ensures
        r is Some <==> url_parses(s@),
        r is Some ==> r->0.path@ == url_path(s@) && pairs_view(r->0.pairs@) == url_query_pairs(s@),
{
    match url::Url::parse(s) {
        Ok(u) => {
            let mut pairs = Vec::new();
            for (k, v) in u.query_pairs() {
                pairs.push((k.into_owned(), v.into_owned()));
            }
            Some(RequestUrl { path: u.path().to_string(), pairs })
        },
        Err(_) => None,
    }
}

// ---------------------------------------------------------------------------
// Routing
// ---------------------------------------------------------------------------

/// How the bridge answers a request.
pub enum Reply {
    /// `204 No Content` with the cross-origin headers (an `OPTIONS` request).
    Preflight,
    /// `405 Method Not Allowed` (neither `OPTIONS` nor `GET`).
    MethodNotAllowed,
    /// `400 Bad Request` (the target does not make a URL).
    BadRequest,
    /// `404 Not Found` (the path is not `/search`).
    NotFound,
    /// `200 OK` with an empty list (no query).
    EmptyResults,
    /// `200 OK` with the results of searching `query`.
    Search { query: String, fuzzy: bool },
}

/// "OPTIONS".
pub open spec fn options_method() -> Seq<char> {
    seq!['O', 'P', 'T', 'I', 'O', 'N', 'S']
}

/// "GET".
pub open spec fn get_method() -> Seq<char> {
    seq!['G', 'E', 'T']
}

/// "/search".
pub open spec fn search_path() -> Seq<char> {
    seq!['/', 's', 'e', 'a', 'r', 'c', 'h']
}

/// "http://localhost", put before the request target.
pub open spec fn local_origin() -> Seq<char> {
    seq!['h', 't', 't', 'p', ':', '/', '/', 'l', 'o', 'c', 'a', 'l', 'h', 'o', 's', 't']
}

/// The value of the last `q` pair, or nothing.
pub open spec fn query_param(pairs: Seq<(Seq<char>, Seq<char>)>) -> Seq<char>
    decreases pairs.len(),
{
    if pairs.len() == 0 {
        seq![]
    } else if pairs.last().0 == seq!['q'] {
        pairs.last().1
    } else {
        query_param(pairs.drop_last())
    }
}

/// Whether the last `fuzzy` pair says `true`.
pub open spec fn fuzzy_param(pairs: Seq<(Seq<char>, Seq<char>)>) -> bool
    decreases pairs.len(),
{
    if pairs.len() == 0 {
        false
    } else if pairs.last().0 == seq!['f', 'u', 'z', 'z', 'y'] {
        pairs.last().1 == seq!['t', 'r', 'u', 'e']
    } else {
        fuzzy_param(pairs.drop_last())
    }
}

/// The reply to a request whose head is `req`, as the bridge decides it; `None`
/// when the request has no first line with a method and a target (the
/// connection is closed unanswered).
pub open spec fn route(req: Seq<char>) -> Option<Reply> {
    match first_line(req) {
        None => None,
        Some(line) => {
            let f = fields(line);
            let target = local_origin() + f[1];
            let pairs = url_query_pairs(target);
            if f.len() < 2 {
                None
            } else if f[0] == options_method() {
                Some(Reply::Preflight)
            } else if f[0] != get_method() {
                Some(Reply::MethodNotAllowed)
            } else if !url_parses(target) {
                Some(Reply::BadRequest)
            } else if url_path(target) != search_path() {
                Some(Reply::NotFound)
            } else if query_param(pairs).len() == 0 {
                Some(Reply::EmptyResults)
            } else {
                None
            }
        },
    }
}

/// The request is a search: a `GET` of `/search` with a non-empty `q`.
pub open spec fn is_search(req: Seq<char>) -> bool {
    match first_line(req) {
        None => false,
        Some(line) => {
            let f = fields(line);
            let target = local_origin() + f[1];
            &&& f.len() >= 2
            &&& f[0] == get_method()
            &&& url_parses(target)
            &&& url_path(target) == search_path()
            &&& query_param(url_query_pairs(target)).len() > 0
        },
    }
}

/// The query and fuzzy flag of a search request.
pub open spec fn search_args(req: Seq<char>) -> (Seq<char>, bool) {
    let f = fields(first_line(req)->0);
    let pairs = url_query_pairs(local_origin() + f[1]);
    (query_param(pairs), fuzzy_param(pairs))
}

/// Decides the reply to a request from its head: `Search` with the query and
/// the fuzzy flag for a search (see `is_search`), otherwise the fixed reply of
/// `route`, or `None` where there is none.
pub fn route_request(request: &str) -> (r: Option<Reply>)
    ensures
        is_search(request@) ==> (r matches Some(Reply::Search { query, fuzzy }) && (query@, fuzzy) == search_args(request@)),
        !is_search(request@) ==> r == route(request@),
{
    let chars = chars_of(request);
    let line = match first_line_of(&chars) {
        Some(l) => l,
        None => return None,
    };
    let f = fields_of(&line);
    if f.len() < 2 {
        return None;
    }
    proof {
        reveal_strlit("OPTIONS");
        reveal_strlit("GET");
        reveal_strlit("http://localhost");
        reveal_strlit("/search");
        reveal_strlit("q");
        reveal_strlit("fuzzy");
        reveal_strlit("true");
        assert("OPTIONS"@ =~= options_method());
        assert("GET"@ =~= get_method());
        assert("http://localhost"@ =~= local_origin());
        assert("/search"@ =~= search_path());
        assert(f@[0]@ == fields(line@)[0]);
        assert(f@[1]@ == fields(line@)[1]);
    }
    if str_eq(f[0].as_str(), "OPTIONS") {
        return Some(Reply::Preflight);
    }
    if !str_eq(f[0].as_str(), "GET") {
        return Some(Reply::MethodNotAllowed);
    }
    let mut target = "http://localhost".to_owned();
    target.append(f[1].as_str());
    let url = match parse_url(target.as_str()) {
        Some(u) => u,
        None => return Some(Reply::BadRequest),
    };
    if !str_eq(url.path.as_str(), "/search") {
        return Some(Reply::NotFound);
    }
    let ghost pv = pairs_view(url.pairs@);
    let mut query = String::new();
    let mut fuzzy = false;
    let mut k: usize = 0;
    proof {
        assert(pv.take(0) =~= Seq::<(Seq<char>, Seq<char>)>::empty());
    }
    while k < url.pairs.len()
        invariant
            pv == pairs_view(url.pairs@),
            k <= url.pairs@.len(),
            query@ == query_param(pv.take(k as int)),
            fuzzy == fuzzy_param(pv.take(k as int)),
        decreases url.pairs@.len() - k,
    {
        proof {
            assert(pv.take(k + 1).drop_last() =~= pv.take(k as int));
            assert(pv.take(k + 1).last() == (url.pairs@[k as int].0@, url.pairs@[k as int].1@));
        }
        proof {
            reveal_strlit("q");
            reveal_strlit("fuzzy");
            reveal_strlit("true");
            assert("q"@ =~= seq!['q']);
            assert("fuzzy"@ =~= seq!['f', 'u', 'z', 'z', 'y']);
            assert("true"@ =~= seq!['t', 'r', 'u', 'e']);
        }
        let key = url.pairs[k].0.as_str();
        let value = url.pairs[k].1.as_str();
        if str_eq(key, "q") {
            query = value.to_owned();
        } else if str_eq(key, "fuzzy") {
            fuzzy = str_eq(value, "true");
        }
        k = k + 1;
    }
    proof {
        assert(pv.take(pv.len() as int) =~= pv);
    }
    if query.as_str().unicode_len() == 0 {
        return Some(Reply::EmptyResults);
    }
    Some(Reply::Search { query, fuzzy })
}

/// Decides the reply to a request from the bytes of its head, taken as text
/// the way `String::from_utf8_lossy` takes them (see `route_request`).
pub fn route_head(head: &[u8]) -> (r: Option<Reply>)
    ensures
        is_search(lossy_text(head@)) ==> (r matches Some(Reply::Search { query, fuzzy }) && (query@, fuzzy) == search_args(lossy_text(head@))),
        !is_search(lossy_text(head@)) ==> r == route(lossy_text(head@)),
{
    let text = from_utf8_lossy(head);
    route_request(text.as_str())
}

} // verus!
