//! Requests and the replies to them.

use vstd::prelude::*;
use vstd::utf8::{decode_utf8_encode_utf8, encode_utf8, is_ascii_chars, valid_utf8};

use crate::paths::{join_path, joined};
use crate::text::{
    begins_with, chars_of, decode_lossy, find, finishes_with, has_part, in_class, index_of,
    is_blank, is_text, leading, leading_len, lemma_find_char, lemma_find_is, lemma_leading,
    lemma_leading_is, lemma_trailing_blanks, occurs, opt_lossy, opt_view, parts_are_found,
    position_of, skip, string_of, take, trailing_blanks, trim, trim_end, trim_start, views,
    CharClass,
};

verus! {

/// A header of a reply.
#[derive(Debug)]
pub struct HttpHeader {
    pub field: String,
    pub value: String,
}

/// The field and the value of a header line: what stands before its first
/// colon, which must not have a blank, and what stands behind it, without the
/// blanks around it; both in ASCII.
pub open spec fn header_parts(line: Seq<char>) -> Option<(Seq<char>, Seq<char>)> {
    match find(line, seq![':']) {
        Some(i) => {
            let field = line.take(i);
            let value = trim(line.skip(i + 1));
            if is_ascii_chars(field) && is_ascii_chars(value) && (forall|k: int|
                0 <= k < field.len() ==> !is_blank(#[trigger] field[k])) {
                Some((field, value))
            } else {
                None
            }
        },
        None => None,
    }
}

/// The texts of a header that may be missing.
pub open spec fn opt_header(h: Option<HttpHeader>) -> Option<(Seq<char>, Seq<char>)> {
    match h {
        Some(h) => Some((h.field@, h.value@)),
        None => None,
    }
}

/// Parses a header line as a `tiny_http::Header`. Claimed: `header_parts` says
/// whether it can be parsed, and what its field and its value then are.
#[verifier::external_body]
fn parse_header(line: &str) -> (r: Option<HttpHeader>)
    ensures
        opt_header(r) == header_parts(line@),
{
    match line.parse::<tiny_http::Header>() {
        Ok(h) => Some(
            HttpHeader {
                field: h.field.as_str().as_str().to_string(),
                value: h.value.as_str().to_string(),
            },
        ),
        Err(_) => None,
    }
}

/// What is asked for.
pub enum Request {
    /// What vnStat reports.
    VnstatData,
    /// The log of a day; the day as the request writes it, which may be empty.
    AppData(String),
    /// A file of the dashboard, by its name.
    Asset(String),
}

/// What is asked for, with its text.
#[verifier::ext_equal]
pub enum RequestView {
    VnstatData,
    AppData(Seq<char>),
    Asset(Seq<char>),
}

impl View for Request {
    type V = RequestView;

    open spec fn view(&self) -> RequestView {
        match self {
            Request::VnstatData => RequestView::VnstatData,
            Request::AppData(date) => RequestView::AppData(date@),
            Request::Asset(name) => RequestView::Asset(name@),
        }
    }
}

/// The kinds of content that are served.
#[derive(Clone, Copy, PartialEq, Eq, Structural, Debug)]
pub enum ContentType {
    Json,
    JavaScript,
    Css,
    Html,
}

/// How a reply names a kind of content.
pub open spec fn content_type_text(kind: ContentType) -> Seq<char> {
    match kind {
        ContentType::Json => "application/json"@,
        ContentType::JavaScript => "application/javascript"@,
        ContentType::Css => "text/css"@,
        ContentType::Html => "text/html; charset=utf-8"@,
    }
}

/// A reply.
pub enum Reply {
    /// Content, with the status code and the headers that go with it.
    Content { status: u16, headers: Vec<HttpHeader>, body: Vec<u8> },
    /// That there is no such file, with the status code and what is said of it.
    NotFound { status: u16, text: String },
}

/// The text up to the first `c`, or all of it.
pub open spec fn before(s: Seq<char>, c: char) -> Seq<char> {
    match find(s, seq![c]) {
        Some(i) => s.take(i),
        None => s,
    }
}

/// The day that a request names: what stands behind the first `date=`, up to
/// the next parameter.
pub open spec fn requested_date(url: Seq<char>) -> Seq<char> {
    match find(url, "date="@) {
        Some(i) => before(url.skip(i + 5), '&'),
        None => Seq::empty(),
    }
}

/// The name of the file that a request is for: its path without the slashes
/// that it begins with, and the start page for the root.
pub open spec fn asset_name(url: Seq<char>) -> Seq<char> {
    let path = before(url, '?');
    if path == "/"@ || path == "/index.html"@ {
        "index.html"@
    } else {
        path.skip(leading(path, CharClass::Slash) as int)
    }
}

/// What a request is for.
pub open spec fn request_of(url: Seq<char>) -> RequestView {
    if "/api/data"@.is_prefix_of(url) {
        RequestView::VnstatData
    } else if "/api/app_data"@.is_prefix_of(url) {
        RequestView::AppData(requested_date(url))
    } else {
        RequestView::Asset(asset_name(url))
    }
}

/// The kind of content of a file, by the end of its name.
pub open spec fn asset_type(name: Seq<char>) -> ContentType {
    if ".js"@.is_suffix_of(name) {
        ContentType::JavaScript
    } else if ".css"@.is_suffix_of(name) {
        ContentType::Css
    } else {
        ContentType::Html
    }
}

/// Where a file is looked for, in order.
pub open spec fn asset_places(home: Seq<char>, name: Seq<char>) -> Seq<Seq<char>> {
    seq![
        joined(joined(home, "2026/vnstat-dashboard"@), name),
        name,
        joined(joined(home, ".local/share/vnstat-rust-gui"@), name),
        joined(joined(home, ".local/share/vnstat-dashboard"@), name),
    ]
}

/// Whether the header has this field and this value.
pub open spec fn is_header(h: HttpHeader, field: Seq<char>, value: Seq<char>) -> bool {
    h.field@ == field && h.value@ == value
}

/// Whether these are the headers that go with content of this kind: its kind,
/// that it must not be kept, and that any page may read it.
pub open spec fn are_headers_for(headers: Seq<HttpHeader>, kind: ContentType) -> bool {
    &&& headers.len() == 3
    &&& is_header(headers[0], "Content-Type"@, content_type_text(kind))
    &&& is_header(headers[1], "Cache-Control"@, "no-cache, no-store, must-revalidate"@)
    &&& is_header(headers[2], "Access-Control-Allow-Origin"@, "*"@)
}

/// Whether the reply is content of this kind with these bytes, sent as a success.
pub open spec fn is_content(reply: Reply, kind: ContentType, body: Seq<u8>) -> bool {
    match reply {
        Reply::Content { status, headers, body: b } => status == 200 && are_headers_for(
            headers@,
            kind,
        ) && b@ == body,
        Reply::NotFound { .. } => false,
    }
}

/// Whether the reply is that there is no such file.
pub open spec fn is_not_found(reply: Reply) -> bool {
    match reply {
        Reply::Content { .. } => false,
        Reply::NotFound { status, text } => status == 404 && text@ == "404"@,
    }
}

/// Whether a text begins and ends with something else than a blank.
pub open spec fn is_tight(s: Seq<char>) -> bool {
    s.len() > 0 && !is_blank(s[0]) && !is_blank(s.last())
}

/// What is written as a header reads as that header.
pub proof fn header_reads_back(field: Seq<char>, value: Seq<char>)
    requires
        is_ascii_chars(field),
        is_ascii_chars(value),
        forall|k: int| 0 <= k < field.len() ==> !is_blank(#[trigger] field[k]) && field[k] != ':',
        is_tight(value),
    ensures
        header_parts(field + ": "@ + value) == Some((field, value)),
{
    reveal_strlit(": ");
    let line = field + ": "@ + value;
    let n = field.len() as int;
    lemma_find_char(line, ':');
    assert(line[n] == ':');
    assert forall|j: int| 0 <= j < n implies #[trigger] line[j] != ':' by {
        assert(line[j] == field[j]);
    }
    assert(find(line, seq![':']) == Some(n));
    assert(line.take(n) =~= field);
    let rest = line.skip(n + 1);
    assert(rest =~= seq![' '] + value);
    lemma_leading_is(rest, CharClass::Blank, 1);
    assert(trim_start(rest) =~= value);
    lemma_trailing_blanks(value);
    if trailing_blanks(value) > 0 {
        assert(is_blank(value[value.len() - 1]));
    }
    assert(trim_end(value) =~= value);
}

/// A request for the log of a day is taken as one for that day, whatever other
/// parameters follow.
pub proof fn requested_days_read_back(date: Seq<char>, others: Seq<char>)
    requires
        find(date, seq!['&']) is None,
        others.len() > 0 ==> others[0] == '&',
    ensures
        request_of("/api/app_data?date="@ + date + others) == RequestView::AppData(date),
{
    reveal_strlit("/api/data");
    reveal_strlit("/api/app_data");
    reveal_strlit("/api/app_data?date=");
    reveal_strlit("date=");
    let url = "/api/app_data?date="@ + date + others;
    if "/api/data"@.is_prefix_of(url) {
        assert(url.subrange(0, 9)[5] == url[5]);
    }
    assert("/api/app_data"@ =~= url.subrange(0, 13));
    assert forall|j: int| 0 <= j < 14 implies !"date="@.is_prefix_of(#[trigger] url.skip(j)) by {
        if "date="@.is_prefix_of(url.skip(j)) {
            assert(url.skip(j).subrange(0, 5)[0] == url[j]);
            assert(url.skip(j).subrange(0, 5)[3] == url[j + 3]);
        }
    }
    assert("date="@ =~= url.skip(14).subrange(0, 5));
    lemma_find_is(url, "date="@, 14);
    let rest = url.skip(19);
    let n = date.len() as int;
    assert(rest =~= date + others);
    lemma_find_char(date, '&');
    lemma_find_char(rest, '&');
    assert forall|k: int| 0 <= k < n implies #[trigger] rest[k] != '&' by {
        assert(rest[k] == date[k]);
    }
    if others.len() > 0 {
        assert(rest[n] == '&');
        assert(find(rest, seq!['&']) == Some(n));
        assert(rest.take(n) =~= date);
    } else {
        assert(rest =~= date);
    }
}

/// Requests are told apart by what they begin with: for what vnStat reports, for
/// the log of a day, and for a file. The day is what stands between the first
/// `date=`, wherever that is, and the next `&`; without it none is named.
pub proof fn requests_are_told_by_their_beginning(
    rest: Seq<char>,
    head: Seq<char>,
    date: Seq<char>,
    others: Seq<char>,
)
    requires
        !occurs('&', date),
        others.len() > 0 ==> others[0] == '&',
        forall|j: int|
            0 <= j < ("/api/app_data"@ + head).len() ==> !"date="@.is_prefix_of(
                #[trigger] ("/api/app_data"@ + head + "date="@ + date + others).skip(j),
            ),
    ensures
        request_of("/api/data"@ + rest) == RequestView::VnstatData,
        request_of("/api/app_data"@ + head + "date="@ + date + others) == RequestView::AppData(
            date,
        ),
        !has_part("/api/app_data"@ + rest, "date="@) ==> request_of("/api/app_data"@ + rest)
            == RequestView::AppData(Seq::empty()),
{
    reveal_strlit("/api/data");
    reveal_strlit("/api/app_data");
    reveal_strlit("date=");
    let data = "/api/data"@ + rest;
    assert("/api/data"@ =~= data.subrange(0, 9));
    let plain = "/api/app_data"@ + rest;
    if "/api/data"@.is_prefix_of(plain) {
        assert(plain.subrange(0, 9)[5] == plain[5]);
    }
    assert("/api/app_data"@ =~= plain.subrange(0, 13));
    parts_are_found(plain, "date="@);

    let start = "/api/app_data"@ + head;
    let url = start + "date="@ + date + others;
    if "/api/data"@.is_prefix_of(url) {
        assert(url.subrange(0, 9)[5] == url[5]);
    }
    assert("/api/app_data"@ =~= url.subrange(0, 13));
    let n = start.len() as int;
    assert("date="@ =~= url.skip(n).subrange(0, 5));
    lemma_find_is(url, "date="@, n);
    let tail = url.skip(n + 5);
    let m = date.len() as int;
    assert(tail =~= date + others);
    lemma_find_char(tail, '&');
    assert forall|k: int| 0 <= k < m implies #[trigger] tail[k] != '&' by {
        assert(tail[k] == date[k]);
        assert(!occurs('&', date));
    }
    if others.len() > 0 {
        assert(tail[m] == '&');
        assert(find(tail, seq!['&']) == Some(m));
        assert(tail.take(m) =~= date);
    } else {
        assert(tail =~= date);
    }
}

/// Any other request is for the file that its path names without the slashes
/// that it begins with, whether parameters follow or not; the root is the start
/// page.
pub proof fn other_requests_are_for_files(
    slashes: Seq<char>,
    name: Seq<char>,
    parameters: Seq<char>,
)
    requires
        forall|i: int| 0 <= i < slashes.len() ==> #[trigger] slashes[i] == '/',
        name.len() > 0 ==> name[0] != '/',
        !occurs('?', name),
        parameters.len() > 0 ==> parameters[0] == '?',
        !"/api/data"@.is_prefix_of(slashes + name + parameters),
        !"/api/app_data"@.is_prefix_of(slashes + name + parameters),
    ensures
        name.len() > 0 || slashes.len() != 1 ==> request_of(slashes + name + parameters)
            == RequestView::Asset(name),
        name.len() == 0 && slashes.len() == 1 ==> request_of(slashes + name + parameters)
            == RequestView::Asset("index.html"@),
{
    reveal_strlit("/");
    reveal_strlit("/index.html");
    reveal_strlit("index.html");
    let path = slashes + name;
    let url = path + parameters;
    let n = path.len() as int;
    let m = slashes.len() as int;
    lemma_find_char(url, '?');
    assert forall|k: int| 0 <= k < n implies #[trigger] url[k] != '?' by {
        if k < m {
            assert(url[k] == slashes[k]);
        } else {
            assert(url[k] == name[k - m]);
            assert(!occurs('?', name));
        }
    }
    if parameters.len() > 0 {
        assert(url[n] == '?');
        assert(find(url, seq!['?']) == Some(n));
        assert(url.take(n) =~= path);
    } else {
        assert(url =~= path);
    }
    assert(before(url, '?') == path);
    assert forall|k: int| 0 <= k < m implies in_class(#[trigger] path[k], CharClass::Slash) by {
        assert(path[k] == slashes[k]);
    }
    if name.len() > 0 {
        assert(path[m] == name[0]);
    }
    lemma_leading_is(path, CharClass::Slash, m);
    assert(path.skip(m) =~= name);
    if path == "/"@ {
        assert(path.len() == 1);
        if m == 0 {
            assert(name[0] == path[0]);
        }
    }
    if path == "/index.html"@ {
        assert(path[0] == '/' && path[1] == 'i');
        if m == 0 {
            assert(name[0] == path[0]);
        } else if m > 1 {
            assert(path[1] == slashes[1]);
        }
        assert(name =~= "index.html"@);
    }
    if name.len() == 0 && m == 1 {
        assert(slashes[0] == '/');
        assert(path =~= "/"@);
    }
}

/// The end of a name tells what a file holds: scripts, styles, or else a page.
pub proof fn names_tell_the_kind_of_content(stem: Seq<char>, name: Seq<char>)
    ensures
        asset_type(stem + ".js"@) == ContentType::JavaScript,
        asset_type(stem + ".css"@) == ContentType::Css,
        !".js"@.is_suffix_of(name) && !".css"@.is_suffix_of(name) ==> asset_type(name)
            == ContentType::Html,
        content_type_text(ContentType::Json) == "application/json"@,
        content_type_text(ContentType::JavaScript) == "application/javascript"@,
        content_type_text(ContentType::Css) == "text/css"@,
        content_type_text(ContentType::Html) == "text/html; charset=utf-8"@,
{
    reveal_strlit(".js");
    reveal_strlit(".css");
    let script = stem + ".js"@;
    let style = stem + ".css"@;
    let n = style.len() as int;
    assert(".js"@ =~= script.subrange(script.len() - 3, script.len() as int));
    assert(".css"@ =~= style.subrange(n - 4, n));
    if ".js"@.is_suffix_of(style) {
        assert(style.subrange(n - 3, n)[0] == style[n - 3]);
    }
}

/// A file is looked for in four places, one after the other.
pub proof fn files_have_four_places(home: Seq<char>, name: Seq<char>)
    requires
        home.len() > 0 && home.last() != '/',
        name.len() > 0 ==> name[0] != '/',
    ensures
        asset_places(home, name).len() == 4,
        asset_places(home, name)[0] == home + "/2026/vnstat-dashboard/"@ + name,
        asset_places(home, name)[1] == name,
        asset_places(home, name)[2] == home + "/.local/share/vnstat-rust-gui/"@ + name,
        asset_places(home, name)[3] == home + "/.local/share/vnstat-dashboard/"@ + name,
{
    reveal_strlit("2026/vnstat-dashboard");
    reveal_strlit("/2026/vnstat-dashboard/");
    reveal_strlit(".local/share/vnstat-rust-gui");
    reveal_strlit("/.local/share/vnstat-rust-gui/");
    reveal_strlit(".local/share/vnstat-dashboard");
    reveal_strlit("/.local/share/vnstat-dashboard/");
    let places = asset_places(home, name);
    assert(places[0] =~= home + "/2026/vnstat-dashboard/"@ + name);
    assert(places[2] =~= home + "/.local/share/vnstat-rust-gui/"@ + name);
    assert(places[3] =~= home + "/.local/share/vnstat-dashboard/"@ + name);
}

/// Content is sent as a success, under exactly three headers, with its own
/// bytes; that there is no such file is said with another status, and with that
/// status as its text. Where vnStat cannot be run, that is said in its place.
pub proof fn replies_say_what_they_are(
    reply: Reply,
    kind: ContentType,
    body: Seq<u8>,
    output: Seq<char>,
)
    ensures
        is_content(reply, kind, body) ==> match reply {
            Reply::Content { status, headers, body: b } => {
                &&& status == 200
                &&& b@ == body
                &&& headers@.len() == 3
                &&& headers@[0].field@ == "Content-Type"@
                &&& headers@[0].value@ == content_type_text(kind)
                &&& headers@[1].field@ == "Cache-Control"@
                &&& headers@[1].value@ == "no-cache, no-store, must-revalidate"@
                &&& headers@[2].field@ == "Access-Control-Allow-Origin"@
                &&& headers@[2].value@ == "*"@
            },
            Reply::NotFound { .. } => false,
        },
        is_not_found(reply) ==> match reply {
            Reply::Content { .. } => false,
            Reply::NotFound { status, text } => status == 404 && text@ == "404"@,
        },
        vnstat_text(Some(output)) == output,
        vnstat_text(None) == "{\"error\":\"Failed to execute vnstat\"}"@,
{
}

/// The parameters of a request for a file make no difference.
pub proof fn parameters_do_not_change_the_asset(path: Seq<char>, parameters: Seq<char>)
    requires
        find(path, seq!['?']) is None,
    ensures
        asset_name(path + seq!['?'] + parameters) == asset_name(path),
{
    let url = path + seq!['?'] + parameters;
    let n = path.len() as int;
    lemma_find_char(path, '?');
    lemma_find_char(url, '?');
    assert(url[n] == '?');
    assert forall|j: int| 0 <= j < n implies #[trigger] url[j] != '?' by {
        assert(url[j] == path[j]);
    }
    assert(find(url, seq!['?']) == Some(n));
    assert(url.take(n) =~= path);
}

/// The name of a file never begins with a slash.
pub proof fn asset_names_are_relative(url: Seq<char>)
    ensures
        asset_name(url).len() > 0 ==> asset_name(url)[0] != '/',
{
    reveal_strlit("index.html");
    let path = before(url, '?');
    lemma_leading(path, CharClass::Slash);
    let n = leading(path, CharClass::Slash) as int;
    if n < path.len() {
        assert(path.skip(n)[0] == path[n]);
    }
}

/// A header with this field and this value.
fn make_header(field: &str, value: &str) -> (r: HttpHeader)
    requires
        is_ascii_chars(field@),
        is_ascii_chars(value@),
        forall|k: int|
            0 <= k < field@.len() ==> !is_blank(#[trigger] field@[k]) && field@[k] != ':',
        is_tight(value@),
    ensures
        is_header(r, field@, value@),
{
    proof {
        header_reads_back(field@, value@);
    }
    let mut line = String::from_str(field);
    line.append(": ");
    line.append(value);
    parse_header(line.as_str()).unwrap()
}

/// How a reply names a kind of content.
pub fn content_type_name(kind: ContentType) -> (r: &'static str)
    ensures
        r@ == content_type_text(kind),
        is_ascii_chars(r@),
        is_tight(r@),
{
    proof {
        reveal_strlit("application/json");
        reveal_strlit("application/javascript");
        reveal_strlit("text/css");
        reveal_strlit("text/html; charset=utf-8");
    }
    match kind {
        ContentType::Json => "application/json",
        ContentType::JavaScript => "application/javascript",
        ContentType::Css => "text/css",
        ContentType::Html => "text/html; charset=utf-8",
    }
}

/// The headers that go with content of this kind.
pub fn response_headers(kind: ContentType) -> (r: Vec<HttpHeader>)
    ensures
        are_headers_for(r@, kind),
{
    proof {
        reveal_strlit("Content-Type");
        reveal_strlit("Cache-Control");
        reveal_strlit("no-cache, no-store, must-revalidate");
        reveal_strlit("Access-Control-Allow-Origin");
        reveal_strlit("*");
    }
    let name = content_type_name(kind);
    let mut r: Vec<HttpHeader> = Vec::new();
    r.push(make_header("Content-Type", name));
    r.push(make_header("Cache-Control", "no-cache, no-store, must-revalidate"));
    r.push(make_header("Access-Control-Allow-Origin", "*"));
    r
}

fn text_before_char(s: &[char], c: char) -> (r: &[char])
    ensures
        r@ == before(s@, c),
{
    match index_of(s, c) {
        Some(i) => take(s, i),
        None => s,
    }
}

/// What the request with this URL is for.
pub fn route_request(url: &str) -> (r: Request)
    ensures
        r@ == request_of(url@),
{
    let u = chars_of(url);
    let s = u.as_slice();
    if begins_with(s, "/api/data") {
        Request::VnstatData
    } else if begins_with(s, "/api/app_data") {
        match position_of(s, "date=") {
            Some(i) => {
                proof {
                    reveal_strlit("date=");
                }
                Request::AppData(string_of(text_before_char(skip(s, i + 5), '&')))
            },
            None => {
                let none = String::new();
                Request::AppData(none)
            },
        }
    } else {
        let path = text_before_char(s, '?');
        if is_text(path, "/") || is_text(path, "/index.html") {
            Request::Asset(String::from_str("index.html"))
        } else {
            Request::Asset(string_of(skip(path, leading_len(path, CharClass::Slash))))
        }
    }
}

/// Where a file is looked for, in order.
pub fn asset_paths(home: &str, name: &str) -> (r: Vec<String>)
    ensures
        views(r@) == asset_places(home@, name@),
{
    let mut r: Vec<String> = Vec::new();
    let checkout = join_path(home, "2026/vnstat-dashboard");
    r.push(join_path(checkout.as_str(), name));
    r.push(String::from_str(name));
    let gui = join_path(home, ".local/share/vnstat-rust-gui");
    r.push(join_path(gui.as_str(), name));
    let data = join_path(home, ".local/share/vnstat-dashboard");
    r.push(join_path(data.as_str(), name));
    assert(views(r@) =~= asset_places(home@, name@));
    r
}

/// The kind of content of a file.
pub fn asset_content_type(name: &str) -> (r: ContentType)
    ensures
        r == asset_type(name@),
{
    let n = chars_of(name);
    if finishes_with(n.as_slice(), ".js") {
        ContentType::JavaScript
    } else if finishes_with(n.as_slice(), ".css") {
        ContentType::Css
    } else {
        ContentType::Html
    }
}

fn content(kind: ContentType, body: Vec<u8>) -> (r: Reply)
    ensures
        is_content(r, kind, body@),
{
    Reply::Content { status: 200, headers: response_headers(kind), body }
}

/// What is answered to a request for what vnStat reports.
pub open spec fn vnstat_text(output: Option<Seq<char>>) -> Seq<char> {
    match output {
        Some(text) => text,
        None => "{\"error\":\"Failed to execute vnstat\"}"@,
    }
}

/// The reply to a request for what vnStat reports, by the text of what it
/// printed.
pub fn vnstat_text_reply(output: Option<&str>) -> (r: Reply)
    ensures
        is_content(r, ContentType::Json, encode_utf8(vnstat_text(opt_view(output)))),
{
    let text: &str = match output {
        Some(text) => text,
        None => "{\"error\":\"Failed to execute vnstat\"}",
    };
    content(ContentType::Json, text.as_bytes_vec())
}

/// The reply to a request for what vnStat reports. `output` is what it
/// printed, if it could be run: valid UTF-8 is passed on unchanged.
pub fn vnstat_reply(output: Option<&[u8]>) -> (r: Reply)
    ensures
        is_content(r, ContentType::Json, encode_utf8(vnstat_text(opt_lossy(output)))),
        match output {
            Some(bytes) => valid_utf8(bytes@) ==> is_content(r, ContentType::Json, bytes@),
            None => true,
        },
{
    match output {
        Some(bytes) => {
            let text = decode_lossy(bytes);
            proof {
                if valid_utf8(bytes@) {
                    decode_utf8_encode_utf8(bytes@);
                }
            }
            vnstat_text_reply(Some(text.as_str()))
        },
        None => vnstat_text_reply(None),
    }
}

/// The reply to a request for the log of a day. `json` is the log, if it could
/// be written as JSON.
pub fn app_log_reply(json: Option<&str>) -> (r: Reply)
    ensures
        is_content(
            r,
            ContentType::Json,
            encode_utf8(
                match json {
                    Some(text) => text@,
                    None => "{}"@,
                },
            ),
        ),
{
    let text: &str = match json {
        Some(text) => text,
        None => "{}",
    };
    content(ContentType::Json, text.as_bytes_vec())
}

/// The reply to a request for a file. `found` is what the first place that has
/// the file holds; the start page and the chart library are built in.
pub fn asset_reply(
    name: &str,
    found: Option<Vec<u8>>,
    index_html: Vec<u8>,
    chart_js: Vec<u8>,
) -> (r: Reply)
    ensures
        match found {
            Some(bytes) => is_content(r, asset_type(name@), bytes@),
            None => if name@ == "index.html"@ {
                is_content(r, ContentType::Html, index_html@)
            } else if name@ == "chart.umd.js"@ {
                is_content(r, ContentType::JavaScript, chart_js@)
            } else {
                is_not_found(r)
            },
        },
{
    match found {
        Some(bytes) => content(asset_content_type(name), bytes),
        None => {
            let n = chars_of(name);
            if is_text(n.as_slice(), "index.html") {
                content(ContentType::Html, index_html)
            } else if is_text(n.as_slice(), "chart.umd.js") {
                content(ContentType::JavaScript, chart_js)
            } else {
                Reply::NotFound { status: 404, text: String::from_str("404") }
            }
        },
    }
}

} // verus!
