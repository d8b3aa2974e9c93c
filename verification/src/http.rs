//! The small HTTP/1.1 dialect nodes speak: building requests, reading
//! requests and responses from raw bytes, and the text of a JSON reply.
use vstd::prelude::*;

use vstd::utf8::{decode_utf8, encode_utf8, valid_utf8};

use crate::scan::{split_all, split_on, split_once, split_once_str, split_words, trim_str, trim_ws, words,
    parse_unsigned, parse_unsigned_spec, strip_prefix_all, strip_prefix_window, string_of, matches_at};
use crate::sorting::views;
use crate::text::{chars_of, concat, owned, push_decimal, push_str, decimal, str_equal, str_starts_with};

verus! {

/// A request: method, path, protocol version, header lines and body.
#[derive(Debug)]
pub struct Request {
    pub method: String,
    pub path: String,
    pub version: String,
    pub headers: Vec<String>,
    pub body: String,
}

/// A response: status code, header lines and body.
#[derive(Debug)]
pub struct Response {
    pub status: u16,
    pub headers: Vec<String>,
    pub body: String,
}

impl Default for Request {
    fn default() -> (res: Self)
        ensures
            res.method@ == "GET"@,
            res.path@ == "/"@,
            res.version@ == "HTTP/1.1"@,
            res.headers@.len() == 0,
            res.body@.len() == 0,
    {
        Request {
            method: owned("GET"),
            path: owned("/"),
            version: owned("HTTP/1.1"),
            headers: Vec::new(),
            body: String::new(),
        }
    }
}

/// The header naming the target host.
pub open spec fn host_header(addr: Seq<char>) -> Seq<char> {
    "Host: "@ + addr
}

/// The header naming the sending node.
pub open spec fn node_addr_header(my_addr: Seq<char>) -> Seq<char> {
    "X-Node-Addr: "@ + my_addr
}

/// The header giving the byte length of a body.
pub open spec fn content_length_header(body: Seq<char>) -> Seq<char> {
    "Content-Length: "@ + decimal(vstd::utf8::encode_utf8(body).len())
}

/// The position of a header's name prefix `x-node-addr:`.
pub open spec fn node_addr_name() -> Seq<char> {
    "x-node-addr:"@
}

/// A character compared without regard to ASCII case: upper-case ASCII
/// letters count as their lower-case forms.
pub open spec fn ascii_lower(c: u32) -> u32 {
    if 65 <= c && c <= 90 { (c + 32) as u32 } else { c }
}

/// Whether a header line begins with `x-node-addr:` in any letter case.
/// Unicode lower-casing maps no character outside ASCII onto the characters
/// of this name, so this is what comparing the lower-cased line tests.
pub open spec fn is_node_addr_header(h: Seq<char>) -> bool {
    &&& h.len() >= node_addr_name().len()
    &&& forall|i: int| 0 <= i < node_addr_name().len() ==> ascii_lower(#[trigger] h[i] as u32) == node_addr_name()[i] as u32
}

/// The first header line that names the sending node, if any.
pub open spec fn first_node_addr_header(headers: Seq<Seq<char>>) -> Option<Seq<char>>
    decreases headers.len(),
{
    if headers.len() == 0 {
        None
    } else if first_node_addr_header(headers.drop_last()) is Some {
        first_node_addr_header(headers.drop_last())
    } else if is_node_addr_header(headers.last()) {
        Some(headers.last())
    } else {
        None
    }
}

impl Request {
    /// A request of `method` for `path`, addressed to `addr`, from `my_addr`.
    pub fn new(method: &str, path: &str, my_addr: &str, addr: &str) -> (res: Self)
        ensures
            res.method@ == method@,
            res.path@ == path@,
            res.version@ == "HTTP/1.1"@,
            views(res.headers@) == seq![host_header(addr@), node_addr_header(my_addr@)],
            res.body@.len() == 0,
    {
        let defaults = Request::default();
        let mut headers: Vec<String> = Vec::new();
        headers.push(concat("Host: ", addr));
        headers.push(concat("X-Node-Addr: ", my_addr));
        assert(views(headers@) =~= seq![host_header(addr@), node_addr_header(my_addr@)]);
        Request { method: owned(method), path: owned(path), headers, body: String::new(), version: defaults.version }
    }

    /// The request with `body`, and a header giving its length, unless the body is empty.
    pub fn with_body(self, body: String) -> (res: Self)
        ensures
            res.method == self.method,
            res.path == self.path,
            res.version == self.version,
            body@.len() == 0 ==> res.headers@ == self.headers@ && res.body == self.body,
            body@.len() > 0 ==> views(res.headers@) == views(self.headers@).push(content_length_header(body@)),
            body@.len() > 0 ==> res.body == body,
    {
        let mut req = self;
        if !body.as_str().is_empty() {
            let mut header = owned("Content-Length: ");
            let n = body.as_str().as_bytes().len();
            push_decimal(&mut header, n as u64);
            let ghost before = views(req.headers@);
            req.headers.push(header);
            assert(views(req.headers@) =~= before.push(content_length_header(body@)));
            req.body = body;
        }
        req
    }

    /// A `GET` request.
    pub fn get(path: &str, my_addr: &str, addr: &str) -> (res: Self)
        ensures
            res.method@ == "GET"@,
            res.path@ == path@,
            res.version@ == "HTTP/1.1"@,
            views(res.headers@) == seq![host_header(addr@), node_addr_header(my_addr@)],
            res.body@.len() == 0,
    {
        Self::new("GET", path, my_addr, addr)
    }

    /// A `POST` request with a body.
    pub fn post(path: &str, my_addr: &str, addr: &str, body: String) -> (res: Self)
        ensures
            res.method@ == "POST"@,
            res.path@ == path@,
            res.version@ == "HTTP/1.1"@,
            body@.len() == 0 ==> views(res.headers@) == seq![host_header(addr@), node_addr_header(my_addr@)],
            body@.len() > 0 ==> views(res.headers@) == seq![
                host_header(addr@),
                node_addr_header(my_addr@),
                content_length_header(body@),
            ],
            body@.len() > 0 ==> res.body == body,
            body@.len() == 0 ==> res.body@.len() == 0,
    {
        let req = Self::new("POST", path, my_addr, addr);
        let ghost hs = views(req.headers@);
        let res = req.with_body(body);
        assert(body@.len() > 0 ==> views(res.headers@) =~= hs.push(content_length_header(body@)));
        res
    }

    /// The address the sending node gave in its `X-Node-Addr` header, trimmed.
    pub fn node_addr(&self) -> (res: Option<String>)
        ensures
            match first_node_addr_header(views(self.headers@)) {
                Some(h) => res matches Some(a) && a@ == trim_ws(h.skip(node_addr_name().len() as int)),
                None => res is None,
            },
    {
        let name = chars_of("x-node-addr:");
        proof {
            reveal_strlit("x-node-addr:");
        }
        let mut i: usize = 0;
        while i < self.headers.len()
            invariant
                i <= self.headers@.len(),
                name@ == node_addr_name(),
                first_node_addr_header(views(self.headers@).take(i as int)) is None,
            decreases self.headers@.len() - i,
        {
            let h = chars_of(&self.headers[i]);
            assert(views(self.headers@).take(i + 1).drop_last() =~= views(self.headers@).take(i as int));
            assert(views(self.headers@).take(i + 1).last() == h@);
            let mut matched = h.len() >= name.len();
            let mut k: usize = 0;
            while matched && k < name.len()
                invariant
                    matched ==> h@.len() >= name@.len(),
                    k <= name@.len(),
                    matched ==> forall|m: int| 0 <= m < k ==> ascii_lower(#[trigger] h@[m] as u32) == name@[m] as u32,
                    !matched ==> !is_node_addr_header(h@),
                    name@ == node_addr_name(),
                decreases name@.len() - k + (if matched { 1int } else { 0int }),
            {
                let c = h[k] as u32;
                let lower = if 65 <= c && c <= 90 { c + 32 } else { c };
                if lower != name[k] as u32 {
                    matched = false;
                } else {
                    k = k + 1;
                }
            }
            if matched {
                let rest = crate::scan::string_of(&h, name.len(), h.len());
                assert(rest@ =~= h@.skip(node_addr_name().len() as int));
                assert(views(self.headers@).take(i + 1) =~= views(self.headers@).take(i as int).push(h@));
                proof {
                    lemma_first_node_addr_prefix(views(self.headers@), i as int);
                }
                return Some(trim_str(&rest));
            }
            i = i + 1;
        }
        assert(views(self.headers@).take(self.headers@.len() as int) =~= views(self.headers@));
        None
    }
}

/// Once a prefix of the header list holds the first `X-Node-Addr` header,
/// the whole list's first one is the same.
proof fn lemma_first_node_addr_prefix(headers: Seq<Seq<char>>, i: int)
    requires
        0 <= i < headers.len(),
        first_node_addr_header(headers.take(i + 1)) is Some,
    ensures
        first_node_addr_header(headers) == first_node_addr_header(headers.take(i + 1)),
    decreases headers.len() - i,
{
    if i + 1 < headers.len() {
        assert(headers.take(i + 2).drop_last() =~= headers.take(i + 1));
        lemma_first_node_addr_prefix(headers, i + 1);
    } else {
        assert(headers.take(i + 1) =~= headers);
    }
}

/// The text of some bytes read as UTF-8, with each invalid sequence replaced
/// by U+FFFD.
pub uninterp spec fn spec_utf8_lossy(bytes: Seq<u8>) -> Seq<char>;

/// Reads bytes as UTF-8 text.
///
/// Trusted: `String::from_utf8_lossy` decodes the bytes, replacing invalid
/// sequences; valid UTF-8 comes back unchanged (std documentation). Its result
/// depends on the bytes alone.
#[verifier::external_body]
fn utf8_lossy(buf: &[u8]) -> (res: String)
    ensures
        res@ == spec_utf8_lossy(buf@),
        valid_utf8(buf@) ==> res@ == decode_utf8(buf@),
{
    String::from_utf8_lossy(buf).into_owned()
}

/// The head and body of a message: the text before and after the first blank
/// line, or two empty texts when there is none.
pub open spec fn message_parts(text: Seq<char>) -> (Seq<char>, Seq<char>) {
    match split_once(text, "\r\n\r\n"@) {
        Some(parts) => parts,
        None => (Seq::empty(), Seq::empty()),
    }
}

/// The lines of a message's head.
pub open spec fn head_lines(text: Seq<char>) -> Seq<Seq<char>> {
    split_on(message_parts(text).0, "\r\n"@)
}

/// The `i`-th word of the first line of a message's head, or the empty text.
pub open spec fn start_word(text: Seq<char>, i: int) -> Seq<char> {
    let ws = words(head_lines(text)[0]);
    if 0 <= i < ws.len() { ws[i] } else { Seq::empty() }
}

/// The lines of a message, its first line aside.
fn message_lines(text: &String) -> (res: (Vec<String>, String))
    ensures
        views(res.0@) == head_lines(text@),
        res.0@.len() >= 1,
        res.1@ == message_parts(text@).1,
{
    proof {
        reveal_strlit("\r\n");
    }
    let (head, body) = match split_once_str(text.as_str(), "\r\n\r\n") {
        Some(parts) => parts,
        None => (String::new(), String::new()),
    };
    let lines = split_all(&head, "\r\n");
    assert(views(lines@).len() >= 1);
    (lines, body)
}

/// The word at `i` of a list of words, or the empty string.
fn word_at(ws: &Vec<String>, i: usize) -> (res: String)
    ensures
        res@ == (if i < ws@.len() { ws@[i as int]@ } else { Seq::empty() }),
{
    if i < ws.len() {
        ws[i].clone()
    } else {
        String::new()
    }
}

/// Reads a request from raw bytes: method, path and version from the first
/// line, the other head lines as headers, and the text after the blank line
/// as body.
pub fn parse_request(buf: &[u8]) -> (res: Request)
    ensures
        res.method@ == start_word(spec_utf8_lossy(buf@), 0),
        res.path@ == start_word(spec_utf8_lossy(buf@), 1),
        res.version@ == start_word(spec_utf8_lossy(buf@), 2),
        views(res.headers@) == head_lines(spec_utf8_lossy(buf@)).drop_first(),
        res.body@ == message_parts(spec_utf8_lossy(buf@)).1,
        valid_utf8(buf@) ==> spec_utf8_lossy(buf@) == decode_utf8(buf@),
{
    let text = utf8_lossy(buf);
    let (lines, body) = message_lines(&text);
    let first = split_words(&lines[0]);
    let method = word_at(&first, 0);
    let path = word_at(&first, 1);
    let version = word_at(&first, 2);
    let headers = rest_lines(&lines);
    Request { method, path, version, headers, body }
}

/// All lines but the first.
fn rest_lines(lines: &Vec<String>) -> (res: Vec<String>)
    requires
        lines@.len() >= 1,
    ensures
        views(res@) == views(lines@).drop_first(),
{
    let mut res: Vec<String> = Vec::new();
    let mut i: usize = 1;
    while i < lines.len()
        invariant
            1 <= i <= lines@.len(),
            views(res@) == views(lines@).subrange(1, i as int),
        decreases lines@.len() - i,
    {
        let ghost before = views(res@);
        res.push(lines[i].clone());
        assert(views(res@) =~= before.push(lines@[i as int]@));
        assert(views(lines@).subrange(1, i + 1) =~= views(lines@).subrange(1, i as int).push(lines@[i as int]@));
        i = i + 1;
    }
    assert(views(lines@).drop_first() =~= views(lines@).subrange(1, lines@.len() as int));
    res
}

/// The status code of a response text: the second word of its first line
/// read as a number, or 0 when it is not one.
pub open spec fn response_status(text: Seq<char>) -> u16 {
    match parse_unsigned_spec(start_word(text, 1), 65535) {
        Some(n) => n as u16,
        None => 0,
    }
}

/// Reads a response from raw bytes: the status code, the other head lines as
/// headers, and the text after the blank line as body.
pub fn parse_response(buf: &[u8]) -> (res: Response)
    ensures
        res.status == response_status(spec_utf8_lossy(buf@)),
        views(res.headers@) == head_lines(spec_utf8_lossy(buf@)).drop_first(),
        res.body@ == message_parts(spec_utf8_lossy(buf@)).1,
        valid_utf8(buf@) ==> spec_utf8_lossy(buf@) == decode_utf8(buf@),
{
    let text = utf8_lossy(buf);
    let (lines, body) = message_lines(&text);
    let first = split_words(&lines[0]);
    let code = word_at(&first, 1);
    let status: u16 = match parse_unsigned(&code, 65535) {
        Some(n) => n as u16,
        None => 0,
    };
    let headers = rest_lines(&lines);
    Response { status, headers, body }
}

/// The reason phrase sent with a status code.
pub open spec fn status_text(status: u16) -> Seq<char> {
    if status == 200 {
        "OK"@
    } else if status == 400 {
        "Bad Request"@
    } else if status == 404 {
        "Not Found"@
    } else if status == 500 {
        "Internal Server Error"@
    } else {
        "OK"@
    }
}

fn status_text_of(status: u16) -> (res: &'static str)
    ensures
        res@ == status_text(status),
{
    if status == 200 {
        "OK"
    } else if status == 400 {
        "Bad Request"
    } else if status == 404 {
        "Not Found"
    } else if status == 500 {
        "Internal Server Error"
    } else {
        "OK"
    }
}

/// The full text of a JSON reply.
pub open spec fn spec_response_text(status: u16, body: Seq<char>) -> Seq<char> {
    "HTTP/1.1 "@ + decimal(status as nat) + " "@ + status_text(status)
        + "\r\nContent-Type: application/json\r\nContent-Length: "@ + decimal(vstd::utf8::encode_utf8(body).len())
        + "\r\n\r\n"@ + body
}

/// The text of a JSON reply with this status and body.
pub fn response_text(status: u16, body: &str) -> (res: String)
    ensures
        res@ == spec_response_text(status, body@),
{
    let mut out = owned("HTTP/1.1 ");
    push_decimal(&mut out, status as u64);
    push_str(&mut out, " ");
    push_str(&mut out, status_text_of(status));
    push_str(&mut out, "\r\nContent-Type: application/json\r\nContent-Length: ");
    push_decimal(&mut out, body.as_bytes().len() as u64);
    push_str(&mut out, "\r\n\r\n");
    push_str(&mut out, body);
    out
}

/// The status line of a JSON reply.
pub open spec fn status_line(status: u16) -> Seq<char> {
    "HTTP/1.1 "@ + decimal(status as nat) + " "@ + status_text(status)
}

/// The header lines of a JSON reply with this body.
pub open spec fn reply_headers(body: Seq<char>) -> Seq<Seq<char>> {
    seq!["Content-Type: application/json"@, "Content-Length: "@ + decimal(encode_utf8(body).len())]
}

/// Whether a text holds no carriage return.
pub open spec fn no_cr(s: Seq<char>) -> bool {
    forall|i: int| 0 <= i < s.len() ==> s[i] != '\r'
}

/// A reply's text is its status line, its two header lines, a blank line and
/// its body; no line holds a carriage return, and each header starts with `C`.
proof fn lemma_reply_layout(status: u16, body: Seq<char>)
    ensures
        spec_response_text(status, body) == status_line(status) + "\r\n"@ + reply_headers(body)[0] + "\r\n"@
            + reply_headers(body)[1] + "\r\n\r\n"@ + body,
        no_cr(status_line(status)),
        no_cr(reply_headers(body)[0]),
        no_cr(reply_headers(body)[1]),
        reply_headers(body)[0].len() >= 1 && reply_headers(body)[0][0] == 'C',
        reply_headers(body)[1].len() >= 1 && reply_headers(body)[1][0] == 'C',
        "\r\n"@ == seq!['\r', '\n'],
        "\r\n\r\n"@ == seq!['\r', '\n', '\r', '\n'],
{
    reveal_strlit("HTTP/1.1 ");
    reveal_strlit(" ");
    reveal_strlit("\r\nContent-Type: application/json\r\nContent-Length: ");
    reveal_strlit("\r\n");
    reveal_strlit("\r\n\r\n");
    reveal_strlit("Content-Type: application/json");
    reveal_strlit("Content-Length: ");
    reveal_strlit("OK");
    reveal_strlit("Bad Request");
    reveal_strlit("Not Found");
    reveal_strlit("Internal Server Error");
    crate::scan::lemma_decimal_reads_back(status as nat);
    crate::scan::lemma_decimal_reads_back(encode_utf8(body).len());
    let d = decimal(status as nat);
    let l = decimal(encode_utf8(body).len());
    assert("\r\nContent-Type: application/json\r\nContent-Length: "@ =~= "\r\n"@ + "Content-Type: application/json"@
        + "\r\n"@ + "Content-Length: "@);
    assert(spec_response_text(status, body) =~= status_line(status) + "\r\n"@ + reply_headers(body)[0] + "\r\n"@
        + reply_headers(body)[1] + "\r\n\r\n"@ + body);
    assert forall|i: int| 0 <= i < d.len() implies d[i] != '\r' by {
        assert(crate::scan::is_digit(d[i]));
    }
    assert forall|i: int| 0 <= i < l.len() implies l[i] != '\r' by {
        assert(crate::scan::is_digit(l[i]));
    }
    assert(no_cr(status_text(status)));
    assert(no_cr(status_line(status))) by {
        assert forall|i: int| 0 <= i < status_line(status).len() implies status_line(status)[i] != '\r' by {
            if i < 9 {
            } else if i < 9 + d.len() {
                assert(status_line(status)[i] == d[i - 9]);
            } else if i == 9 + d.len() {
            } else {
                assert(status_line(status)[i] == status_text(status)[i - 10 - d.len()]);
            }
        }
    }
    assert(no_cr(reply_headers(body)[1])) by {
        assert forall|i: int| 0 <= i < reply_headers(body)[1].len() implies reply_headers(body)[1][i] != '\r' by {
            if i >= 16 {
                assert(reply_headers(body)[1][i] == l[i - 16]);
            }
        }
    }
}

/// Where the blank line of a reply is, and what lies around it.
pub(crate) proof fn lemma_reply_split(status: u16, body: Seq<char>)
    ensures
        message_parts(spec_response_text(status, body)) == (
            status_line(status) + "\r\n"@ + reply_headers(body)[0] + "\r\n"@ + reply_headers(body)[1],
            body,
        ),
{
    lemma_reply_layout(status, body);
    let l0 = status_line(status);
    let l1 = reply_headers(body)[0];
    let l2 = reply_headers(body)[1];
    let crlf = "\r\n"@;
    let pat = "\r\n\r\n"@;
    let a = l0 + crlf + l1 + crlf + l2;
    let text = spec_response_text(status, body);
    assert(text =~= a + pat + body);
    let p1 = l0.len() as int;
    let p2 = p1 + 2 + l1.len();
    assert forall|j: int| 0 <= j < a.len() implies !#[trigger] matches_at(text, pat, j) by {
        if matches_at(text, pat, j) {
            assert(text.subrange(j, j + 4)[0] == pat[0]);
            assert(text.subrange(j, j + 4)[2] == pat[2]);
            assert(text[j] == '\r');
            assert(text[j + 2] == '\r');
            if j < p1 {
                assert(text[j] == l0[j]);
            } else if j == p1 {
                assert(text[j + 2] == l1[0]);
            } else if j == p1 + 1 {
                assert(text[j] == '\n');
            } else if j < p2 {
                assert(text[j] == l1[j - p1 - 2]);
            } else if j == p2 {
                assert(text[j + 2] == l2[0]);
            } else if j == p2 + 1 {
                assert(text[j] == '\n');
            } else {
                assert(text[j] == l2[j - p2 - 2]);
            }
        }
    }
    assert(text.subrange(a.len() as int, a.len() + 4 as int) =~= pat);
    assert(matches_at(text, pat, a.len() as int));
    crate::scan::lemma_find_at_first(text, pat, 0, a.len() as int);
    assert(text.subrange(0, a.len() as int) =~= a);
    assert(text.subrange(a.len() + 4 as int, text.len() as int) =~= body);
}

/// The lines of a reply's head: its status line and its two headers.
pub(crate) proof fn lemma_reply_lines(status: u16, body: Seq<char>)
    ensures
        head_lines(spec_response_text(status, body)) == seq![
            status_line(status),
            reply_headers(body)[0],
            reply_headers(body)[1],
        ],
{
    lemma_reply_layout(status, body);
    lemma_reply_split(status, body);
    let l0 = status_line(status);
    let l1 = reply_headers(body)[0];
    let l2 = reply_headers(body)[1];
    let crlf = "\r\n"@;
    let a = l0 + crlf + l1 + crlf + l2;
    let p1 = l0.len() as int;
    let p2 = p1 + 2 + l1.len();
    assert forall|j: int| 0 <= j < p1 implies !#[trigger] matches_at(a, crlf, j) by {
        if matches_at(a, crlf, j) {
            assert(a.subrange(j, j + 2)[0] == crlf[0]);
            assert(a[j] == l0[j]);
        }
    }
    assert(a.subrange(p1, p1 + 2) =~= crlf);
    crate::scan::lemma_find_at_first(a, crlf, 0, p1);
    assert forall|j: int| p1 + 2 <= j < p2 implies !#[trigger] matches_at(a, crlf, j) by {
        if matches_at(a, crlf, j) {
            assert(a.subrange(j, j + 2)[0] == crlf[0]);
            assert(a[j] == l1[j - p1 - 2]);
        }
    }
    assert(a.subrange(p2, p2 + 2) =~= crlf);
    crate::scan::lemma_find_at_first(a, crlf, p1 + 2, p2);
    assert forall|j: int| p2 + 2 <= j implies !#[trigger] matches_at(a, crlf, j) by {
        if matches_at(a, crlf, j) {
            assert(a.subrange(j, j + 2)[0] == crlf[0]);
            assert(a[j] == l2[j - p2 - 2]);
        }
    }
    crate::scan::lemma_find_at_absent(a, crlf, p2 + 2);
    assert(a.subrange(0, p1) =~= l0);
    assert(a.subrange(p1 + 2, p2) =~= l1);
    assert(a.subrange(p2 + 2, a.len() as int) =~= l2);
    assert(crate::scan::split_from(a, crlf, p2 + 2) == seq![l2]);
    assert(crate::scan::split_from(a, crlf, p1 + 2) == seq![l1] + seq![l2]);
    assert(crate::scan::split_from(a, crlf, 0) == seq![l0] + (seq![l1] + seq![l2]));
    assert(seq![l0] + (seq![l1] + seq![l2]) =~= seq![l0, l1, l2]);
}

/// The second word of a reply's status line is its status code.
pub(crate) proof fn lemma_status_word(status: u16)
    ensures
        words(status_line(status)).len() >= 2,
        words(status_line(status))[1] == decimal(status as nat),
{
    reveal_strlit("HTTP/1.1 ");
    reveal_strlit(" ");
    crate::scan::lemma_decimal_reads_back(status as nat);
    let d = decimal(status as nat);
    let l0 = status_line(status);
    assert(l0 =~= "HTTP/1.1 "@ + d + " "@ + status_text(status));
    assert(l0[8] == ' ');
    crate::scan::lemma_word_end(l0, 0);
    let e0 = crate::scan::word_end(l0, 0);
    assert(!crate::scan::spec_is_whitespace(l0[0]));
    assert forall|j: int| 0 <= j < 8 implies !crate::scan::spec_is_whitespace(#[trigger] l0[j]) by {
    }
    if e0 < 8 {
        assert(crate::scan::spec_is_whitespace(l0[e0]));
    }
    if e0 > 8 {
        assert(!crate::scan::spec_is_whitespace(l0[8]));
    }
    assert(e0 == 8);
    let e1 = crate::scan::word_end(l0, 9);
    crate::scan::lemma_word_end(l0, 9);
    assert(l0[9] == d[0]);
    assert(l0[9 + d.len() as int] == ' ');
    if e1 < 9 + d.len() {
        assert(l0[e1] == d[e1 - 9]);
    }
    if e1 > 9 + d.len() {
        assert(!crate::scan::spec_is_whitespace(l0[9 + d.len() as int]));
    }
    assert(e1 == 9 + d.len());
    assert(crate::scan::words_from(l0, 0) == seq![l0.subrange(0, 8)] + crate::scan::words_from(l0, 8));
    assert(crate::scan::words_from(l0, 8) == crate::scan::words_from(l0, 9));
    assert(crate::scan::words_from(l0, 9) == seq![l0.subrange(9, e1)] + crate::scan::words_from(l0, e1));
    assert(l0.subrange(9, e1) =~= d);
}

/// Lines joined by CRLF.
pub open spec fn join_lines(ls: Seq<Seq<char>>) -> Seq<char>
    decreases ls.len(),
{
    if ls.len() == 0 {
        Seq::empty()
    } else if ls.len() == 1 {
        ls[0]
    } else {
        ls[0] + "\r\n"@ + join_lines(ls.drop_first())
    }
}

/// A word: one or more characters, none of them whitespace.
pub open spec fn is_word(w: Seq<char>) -> bool {
    w.len() > 0 && forall|i: int| 0 <= i < w.len() ==> !crate::scan::spec_is_whitespace(#[trigger] w[i])
}

/// Joined lines start with the first line.
proof fn lemma_join_starts(ls: Seq<Seq<char>>)
    requires
        ls.len() >= 1,
    ensures
        join_lines(ls).len() >= ls[0].len(),
        join_lines(ls).subrange(0, ls[0].len() as int) == ls[0],
{
    if ls.len() > 1 {
        assert((ls[0] + "\r\n"@ + join_lines(ls.drop_first())).subrange(0, ls[0].len() as int) =~= ls[0]);
    }
}

/// Joining one more line appends a CRLF and the line.
proof fn lemma_join_push(ls: Seq<Seq<char>>, x: Seq<char>)
    requires
        ls.len() >= 1,
    ensures
        join_lines(ls.push(x)) == join_lines(ls) + "\r\n"@ + x,
    decreases ls.len(),
{
    if ls.len() == 1 {
        assert(ls.push(x).drop_first() =~= seq![x]);
        assert(join_lines(seq![x]) == x);
        assert(ls.push(x)[0] == ls[0]);
        assert(join_lines(ls.push(x)) =~= join_lines(ls) + "\r\n"@ + x);
    } else {
        lemma_join_push(ls.drop_first(), x);
        assert(ls.push(x).drop_first() =~= ls.drop_first().push(x));
        assert(join_lines(ls.push(x)) =~= join_lines(ls) + "\r\n"@ + x);
    }
}

/// In joined lines without carriage returns, all after the first nonempty,
/// each carriage return starts a CRLF followed by a character that is none.
proof fn lemma_join_cr(ls: Seq<Seq<char>>)
    requires
        ls.len() >= 1,
        forall|k: int| 0 <= k < ls.len() ==> no_cr(#[trigger] ls[k]),
        forall|k: int| 1 <= k < ls.len() ==> (#[trigger] ls[k]).len() > 0,
    ensures
        forall|j: int| 0 <= j < join_lines(ls).len() && #[trigger] join_lines(ls)[j] == '\r' ==> j + 2 < join_lines(
            ls,
        ).len() && join_lines(ls)[j + 2] != '\r',
    decreases ls.len(),
{
    reveal_strlit("\r\n");
    if ls.len() > 1 {
        let rest = ls.drop_first();
        assert forall|k: int| 0 <= k < rest.len() implies no_cr(#[trigger] rest[k]) by {
            assert(rest[k] == ls[k + 1]);
        }
        assert forall|k: int| 1 <= k < rest.len() implies (#[trigger] rest[k]).len() > 0 by {
            assert(rest[k] == ls[k + 1]);
        }
        lemma_join_cr(rest);
        lemma_join_starts(rest);
        let a = ls[0];
        let t = join_lines(ls);
        let jr = join_lines(rest);
        assert(t == a + "\r\n"@ + jr);
        assert(rest[0] == ls[1]);
        assert(jr[0] == rest[0][0]) by {
            assert(jr.subrange(0, rest[0].len() as int)[0] == jr[0]);
        }
        assert forall|j: int| 0 <= j < t.len() && #[trigger] t[j] == '\r' implies j + 2 < t.len() && t[j + 2] != '\r' by {
            if j < a.len() {
                assert(t[j] == a[j]);
            } else if j == a.len() {
                assert(t[j + 2] == jr[0]);
            } else if j == a.len() + 1 {
                assert(t[j] == '\n');
            } else {
                let j2 = j - a.len() - 2;
                assert(t[j] == jr[j2]);
                assert(t[j + 2] == jr[j2 + 2]);
            }
        }
    }
}

/// Splitting joined lines, found after any prefix, gives the lines back.
proof fn lemma_split_join(x: Seq<char>, ls: Seq<Seq<char>>)
    requires
        ls.len() >= 1,
        forall|k: int| 0 <= k < ls.len() ==> no_cr(#[trigger] ls[k]),
    ensures
        crate::scan::split_from(x + join_lines(ls), "\r\n"@, x.len() as int) == ls,
    decreases ls.len(),
{
    reveal_strlit("\r\n");
    let crlf = "\r\n"@;
    let s = x + join_lines(ls);
    let a = ls[0];
    assert(no_cr(a));
    if ls.len() == 1 {
        assert forall|j: int| x.len() <= j implies !#[trigger] matches_at(s, crlf, j) by {
            if matches_at(s, crlf, j) {
                assert(s.subrange(j, j + 2)[0] == crlf[0]);
                assert(s[j] == a[j - x.len()]);
            }
        }
        crate::scan::lemma_find_at_absent(s, crlf, x.len() as int);
        assert(s.subrange(x.len() as int, s.len() as int) =~= a);
        assert(crate::scan::split_from(s, crlf, x.len() as int) =~= seq![a]);
    } else {
        let rest = ls.drop_first();
        assert forall|k: int| 0 <= k < rest.len() implies no_cr(#[trigger] rest[k]) by {
            assert(rest[k] == ls[k + 1]);
        }
        let x2 = x + a + crlf;
        assert(s =~= x2 + join_lines(rest));
        lemma_split_join(x2, rest);
        let p: int = (x.len() + a.len()) as int;
        assert forall|j: int| x.len() <= j < p implies !#[trigger] matches_at(s, crlf, j) by {
            if matches_at(s, crlf, j) {
                assert(s.subrange(j, j + 2)[0] == crlf[0]);
                assert(s[j] == a[j - x.len()]);
            }
        }
        assert(s.subrange(p, p + 2) =~= crlf);
        crate::scan::lemma_find_at_first(s, crlf, x.len() as int, p);
        assert(s.subrange(x.len() as int, p) =~= a);
        assert(x2.len() == p + 2);
        assert(crate::scan::split_from(s, crlf, x.len() as int) == seq![a] + rest);
        assert(seq![a] + rest =~= ls);
    }
}

/// The header lines of a request, after its first line and a CRLF, are the
/// lines joined by CRLF, and a CRLF.
proof fn lemma_header_lines_join(l0: Seq<char>, hs: Seq<Seq<char>>)
    ensures
        l0 + "\r\n"@ + header_lines(hs) == join_lines(seq![l0] + hs) + "\r\n"@,
    decreases hs.len(),
{
    if hs.len() == 0 {
        assert(seq![l0] + hs =~= seq![l0]);
        assert(header_lines(hs) =~= Seq::<char>::empty());
        assert(l0 + "\r\n"@ + header_lines(hs) =~= join_lines(seq![l0] + hs) + "\r\n"@);
    } else {
        lemma_header_lines_join(l0, hs.drop_last());
        assert(seq![l0] + hs =~= (seq![l0] + hs.drop_last()).push(hs.last()));
        lemma_join_push(seq![l0] + hs.drop_last(), hs.last());
        assert(l0 + "\r\n"@ + header_lines(hs) =~= join_lines(seq![l0] + hs) + "\r\n"@);
    }
}

/// The words of a text that is words separated by single spaces.
proof fn lemma_word_at(s: Seq<char>, i: int, w: Seq<char>)
    requires
        0 <= i,
        i + w.len() <= s.len(),
        s.subrange(i, i + w.len()) == w,
        is_word(w),
        i + w.len() == s.len() || crate::scan::spec_is_whitespace(s[i + w.len()]),
    ensures
        crate::scan::words_from(s, i) == seq![w] + crate::scan::words_from(s, i + w.len()),
{
    crate::scan::lemma_word_end(s, i);
    let e = crate::scan::word_end(s, i);
    assert(s[i] == w[0]);
    if e < i + w.len() {
        assert(s[e] == w[e - i]);
    }
    if e > i + w.len() {
        assert(!crate::scan::spec_is_whitespace(s[i + w.len()]));
    }
    assert(e == i + w.len());
}

/// The words of `m p v`, for three words: themselves.
proof fn lemma_three_words(m: Seq<char>, p: Seq<char>, v: Seq<char>)
    requires
        is_word(m),
        is_word(p),
        is_word(v),
    ensures
        crate::scan::words(m + " "@ + p + " "@ + v) == seq![m, p, v],
{
    reveal_strlit(" ");
    let s = m + " "@ + p + " "@ + v;
    let i1: int = (m.len() + 1) as int;
    let i2: int = i1 + p.len() + 1;
    assert(s.subrange(0, m.len() as int) =~= m);
    assert(s[m.len() as int] == ' ');
    lemma_word_at(s, 0, m);
    assert(crate::scan::words_from(s, m.len() as int) == crate::scan::words_from(s, i1));
    assert(s.subrange(i1, i1 + p.len()) =~= p);
    assert(s[i1 + p.len()] == ' ');
    lemma_word_at(s, i1, p);
    assert(crate::scan::words_from(s, i1 + p.len()) == crate::scan::words_from(s, i2));
    assert(s.subrange(i2, i2 + v.len()) =~= v);
    lemma_word_at(s, i2, v);
    assert(crate::scan::words_from(s, s.len() as int) =~= Seq::<Seq<char>>::empty());
    assert(seq![m] + (seq![p] + (seq![v] + Seq::<Seq<char>>::empty())) =~= seq![m, p, v]);
}

/// A request's text, read back: its first line's words, its header lines and
/// its body, when the first line's parts are words and the header lines are
/// nonempty without carriage returns.
pub(crate) proof fn lemma_request_parts(r: Request)
    requires
        is_word(r.method@),
        is_word(r.path@),
        is_word(r.version@),
        forall|k: int| 0 <= k < r.headers@.len() ==> (#[trigger] r.headers@[k])@.len() > 0 && no_cr(r.headers@[k]@),
    ensures
        message_parts(request_text(r)).1 == r.body@,
        head_lines(request_text(r)) == seq![r.method@ + " "@ + r.path@ + " "@ + r.version@] + views(r.headers@),
        words(head_lines(request_text(r))[0]) == seq![r.method@, r.path@, r.version@],
{
    reveal_strlit("\r\n");
    reveal_strlit("\r\n\r\n");
    reveal_strlit(" ");
    let l0 = r.method@ + " "@ + r.path@ + " "@ + r.version@;
    let hs = views(r.headers@);
    let ls = seq![l0] + hs;
    let j = join_lines(ls);
    let pat = "\r\n\r\n"@;
    let text = request_text(r);
    lemma_header_lines_join(l0, hs);
    assert(text =~= j + pat + r.body@);
    assert(no_cr(l0)) by {
        assert forall|i: int| 0 <= i < l0.len() implies l0[i] != '\r' by {
            let a = r.method@.len() as int;
            let b = a + 1 + r.path@.len();
            if i < a {
                assert(l0[i] == r.method@[i]);
                assert(!crate::scan::spec_is_whitespace(r.method@[i]));
            } else if i == a {
            } else if i < b {
                assert(l0[i] == r.path@[i - a - 1]);
                assert(!crate::scan::spec_is_whitespace(r.path@[i - a - 1]));
            } else if i == b {
            } else {
                assert(l0[i] == r.version@[i - b - 1]);
                assert(!crate::scan::spec_is_whitespace(r.version@[i - b - 1]));
            }
        }
    }
    assert forall|k: int| 0 <= k < ls.len() implies no_cr(#[trigger] ls[k]) by {
        if k > 0 {
            assert(ls[k] == r.headers@[k - 1]@);
        }
    }
    assert forall|k: int| 1 <= k < ls.len() implies (#[trigger] ls[k]).len() > 0 by {
        assert(ls[k] == r.headers@[k - 1]@);
    }
    lemma_join_cr(ls);
    assert forall|q: int| 0 <= q < j.len() implies !#[trigger] matches_at(text, pat, q) by {
        if matches_at(text, pat, q) {
            assert(text.subrange(q, q + 4)[0] == pat[0]);
            assert(text.subrange(q, q + 4)[2] == pat[2]);
            assert(text[q] == j[q]);
            assert(j[q] == '\r');
            assert(text[q + 2] == j[q + 2]);
        }
    }
    assert(text.subrange(j.len() as int, j.len() + 4 as int) =~= pat);
    crate::scan::lemma_find_at_first(text, pat, 0, j.len() as int);
    assert(text.subrange(0, j.len() as int) =~= j);
    assert(text.subrange(j.len() + 4 as int, text.len() as int) =~= r.body@);
    assert(message_parts(text) == (j, r.body@));
    lemma_split_join(Seq::<char>::empty(), ls);
    assert(Seq::<char>::empty() + j =~= j);
    assert(head_lines(text) == ls);
    assert(ls[0] == l0);
    lemma_three_words(r.method@, r.path@, r.version@);
}

/// The endpoints a node serves.
#[derive(Debug, Clone, Copy, PartialEq, Eq, Structural)]
pub enum Route {
    Ping,
    Status,
    GetPeers,
    PostPeers,
    Wallet,
    CreateTransaction,
    PostTransaction,
    GetTransactions,
    Mine,
    MiningStatus,
    PostBlock,
    GetBlock,
    Hashes,
    Chain,
    ChainStatus,
    Balances,
    Events,
    DebugFaults,
    Options,
    NotFound,
}

/// The path of a request target: the text before the first `?`.
pub open spec fn target_path(target: Seq<char>) -> Seq<char> {
    match split_once(target, "?"@) {
        Some((p, _)) => p,
        None => target,
    }
}

/// The path of a request target: the text before the first `?`.
pub fn request_path(target: &str) -> (res: String)
    ensures
        res@ == target_path(target@),
{
    match split_once_str(target, "?") {
        Some((p, _)) => p,
        None => owned(target),
    }
}

/// The endpoint a method and request target go to: a `GET` of a path under
/// `/blocks/` is a block lookup, any `OPTIONS` request the CORS preflight,
/// and whatever no endpoint takes is not found.
pub open spec fn spec_route(method: Seq<char>, target: Seq<char>) -> Route {
    let p = target_path(target);
    if method == "GET"@ && p == "/ping"@ {
        Route::Ping
    } else if method == "GET"@ && p == "/status"@ {
        Route::Status
    } else if method == "GET"@ && p == "/peers"@ {
        Route::GetPeers
    } else if method == "POST"@ && p == "/peers"@ {
        Route::PostPeers
    } else if method == "GET"@ && p == "/wallet"@ {
        Route::Wallet
    } else if method == "POST"@ && p == "/transactions/create"@ {
        Route::CreateTransaction
    } else if method == "POST"@ && p == "/transactions"@ {
        Route::PostTransaction
    } else if method == "GET"@ && p == "/transactions"@ {
        Route::GetTransactions
    } else if method == "POST"@ && p == "/mine"@ {
        Route::Mine
    } else if method == "GET"@ && p == "/mining/status"@ {
        Route::MiningStatus
    } else if method == "POST"@ && p == "/blocks"@ {
        Route::PostBlock
    } else if method == "GET"@ && "/blocks/"@.is_prefix_of(p) {
        Route::GetBlock
    } else if method == "GET"@ && p == "/hashes"@ {
        Route::Hashes
    } else if method == "GET"@ && p == "/chain"@ {
        Route::Chain
    } else if method == "GET"@ && p == "/chain/status"@ {
        Route::ChainStatus
    } else if method == "GET"@ && p == "/balances"@ {
        Route::Balances
    } else if method == "GET"@ && p == "/events"@ {
        Route::Events
    } else if method == "POST"@ && p == "/debug/faults"@ {
        Route::DebugFaults
    } else if method == "OPTIONS"@ {
        Route::Options
    } else {
        Route::NotFound
    }
}

/// The endpoint a method and request target go to.
pub fn route(method: &str, target: &str) -> (res: Route)
    ensures
        res == spec_route(method@, target@),
{
    let path = request_path(target);
    let get = str_equal(method, "GET");
    let post = str_equal(method, "POST");
    if get && str_equal(&path, "/ping") {
        Route::Ping
    } else if get && str_equal(&path, "/status") {
        Route::Status
    } else if get && str_equal(&path, "/peers") {
        Route::GetPeers
    } else if post && str_equal(&path, "/peers") {
        Route::PostPeers
    } else if get && str_equal(&path, "/wallet") {
        Route::Wallet
    } else if post && str_equal(&path, "/transactions/create") {
        Route::CreateTransaction
    } else if post && str_equal(&path, "/transactions") {
        Route::PostTransaction
    } else if get && str_equal(&path, "/transactions") {
        Route::GetTransactions
    } else if post && str_equal(&path, "/mine") {
        Route::Mine
    } else if get && str_equal(&path, "/mining/status") {
        Route::MiningStatus
    } else if post && str_equal(&path, "/blocks") {
        Route::PostBlock
    } else if get && str_starts_with(&path, "/blocks/") {
        Route::GetBlock
    } else if get && str_equal(&path, "/hashes") {
        Route::Hashes
    } else if get && str_equal(&path, "/chain") {
        Route::Chain
    } else if get && str_equal(&path, "/chain/status") {
        Route::ChainStatus
    } else if get && str_equal(&path, "/balances") {
        Route::Balances
    } else if get && str_equal(&path, "/events") {
        Route::Events
    } else if post && str_equal(&path, "/debug/faults") {
        Route::DebugFaults
    } else if str_equal(method, "OPTIONS") {
        Route::Options
    } else {
        Route::NotFound
    }
}

/// The block hash a `GET /blocks/...` target asks for: its path with every
/// leading `/blocks/` removed.
pub fn requested_block_hash(target: &str) -> (res: String)
    ensures
        res@ == strip_prefix_all(target_path(target@), "/blocks/"@),
{
    let path = chars_of(&request_path(target));
    let prefix = chars_of("/blocks/");
    let end = path.len();
    let start = strip_prefix_window(&path, 0, end, &prefix);
    assert(path@.subrange(0, end as int) =~= path@);
    string_of(&path, start, end)
}

/// The header lines of a request, each ended by CRLF.
pub open spec fn header_lines(hs: Seq<Seq<char>>) -> Seq<char>
    decreases hs.len(),
{
    if hs.len() == 0 {
        Seq::empty()
    } else {
        header_lines(hs.drop_last()) + hs.last() + "\r\n"@
    }
}

/// The text of a request: the request line, the header lines, a blank line
/// and the body.
pub open spec fn request_text(r: Request) -> Seq<char> {
    r.method@ + " "@ + r.path@ + " "@ + r.version@ + "\r\n"@ + header_lines(views(r.headers@)) + "\r\n"@ + r.body@
}

impl Request {
    /// The bytes of the request on the wire: its text in UTF-8.
    pub fn to_http_bytes(&self) -> (res: Vec<u8>)
        ensures
            res@ == encode_utf8(request_text(*self)),
    {
        let mut text = String::new();
        push_str(&mut text, &self.method);
        push_str(&mut text, " ");
        push_str(&mut text, &self.path);
        push_str(&mut text, " ");
        push_str(&mut text, &self.version);
        push_str(&mut text, "\r\n");
        let ghost line = text@;
        let mut i: usize = 0;
        while i < self.headers.len()
            invariant
                i <= self.headers@.len(),
                text@ == line + header_lines(views(self.headers@).take(i as int)),
            decreases self.headers@.len() - i,
        {
            push_str(&mut text, &self.headers[i]);
            push_str(&mut text, "\r\n");
            assert(views(self.headers@).take(i + 1).drop_last() =~= views(self.headers@).take(i as int));
            assert(views(self.headers@).take(i + 1).last() == self.headers@[i as int]@);
            i = i + 1;
        }
        assert(views(self.headers@).take(self.headers@.len() as int) =~= views(self.headers@));
        push_str(&mut text, "\r\n");
        push_str(&mut text, &self.body);
        assert(text@ =~= request_text(*self));
        text.as_str().as_bytes_vec()
    }
}

/// Whether a blank line (`\r\n\r\n`) starts at byte `i`.
pub open spec fn blank_line_at(b: Seq<u8>, i: int) -> bool {
    0 <= i && i + 4 <= b.len() && b[i] == 13 && b[i + 1] == 10 && b[i + 2] == 13 && b[i + 3] == 10
}

/// The first position at or after `i` where a blank line starts, or -1.
pub open spec fn first_blank_line(b: Seq<u8>, i: int) -> int
    decreases b.len() - i,
{
    if i < 0 || i + 4 > b.len() {
        -1
    } else if blank_line_at(b, i) {
        i
    } else {
        first_blank_line(b, i + 1)
    }
}

/// Where the head of a message ends: just after its first blank line.
pub open spec fn head_end_spec(b: Seq<u8>) -> Option<int> {
    let k = first_blank_line(b, 0);
    if k < 0 {
        None
    } else {
        Some(k + 4)
    }
}

/// Where the head of a message ends: just after its first blank line.
pub fn head_end(buf: &[u8]) -> (res: Option<usize>)
    ensures
        match res {
            Some(n) => head_end_spec(buf@) == Some(n as int) && n <= buf@.len(),
            None => head_end_spec(buf@) is None,
        },
{
    let mut i: usize = 0;
    while i < buf.len() && buf.len() - i >= 4
        invariant
            first_blank_line(buf@, 0) == first_blank_line(buf@, i as int),
        decreases buf@.len() - i,
    {
        if buf[i] == 13 && buf[i + 1] == 10 && buf[i + 2] == 13 && buf[i + 3] == 10 {
            return Some(i + 4);
        }
        i = i + 1;
    }
    None
}

/// The first `n` bytes.
fn bytes_prefix(buf: &[u8], n: usize) -> (res: Vec<u8>)
    requires
        n <= buf@.len(),
    ensures
        res@ == buf@.take(n as int),
{
    let mut out: Vec<u8> = Vec::new();
    let mut i: usize = 0;
    while i < n
        invariant
            i <= n <= buf@.len(),
            out@ == buf@.take(i as int),
        decreases n - i,
    {
        out.push(buf[i]);
        assert(out@ =~= buf@.take(i + 1));
        i = i + 1;
    }
    out
}

/// Whether a header name, trimmed, is `content-length` in any ASCII case.
pub open spec fn is_length_name(name: Seq<char>) -> bool {
    name.len() == 14 && forall|i: int| 0 <= i < 14 ==> ascii_lower(#[trigger] name[i] as u32) == "content-length"@[i] as u32
}

/// The value of the first line of the form `name: value` whose trimmed name
/// is `content-length` in any ASCII case.
pub open spec fn first_length_value(lines: Seq<Seq<char>>) -> Option<Seq<char>>
    decreases lines.len(),
{
    if lines.len() == 0 {
        None
    } else if first_length_value(lines.drop_last()) is Some {
        first_length_value(lines.drop_last())
    } else {
        match split_once(lines.last(), ":"@) {
            Some((name, value)) => if is_length_name(trim_ws(name)) { Some(value) } else { None },
            None => None,
        }
    }
}

/// The body length a message head announces: the trimmed value of its first
/// `Content-Length` header read as a number, or 0 when there is no such
/// header or its value is not a number.
pub open spec fn spec_announced_length(head: Seq<char>) -> nat {
    match first_length_value(split_on(head, "\r\n"@)) {
        Some(v) => match parse_unsigned_spec(trim_ws(v), usize::MAX as nat) {
            Some(n) => n,
            None => 0,
        },
        None => 0,
    }
}

/// Whether a header name is `content-length` in any ASCII case.
fn length_name(name: &str) -> (res: bool)
    ensures
        res == is_length_name(name@),
{
    proof {
        reveal_strlit("content-length");
    }
    let v = chars_of(name);
    let target = chars_of("content-length");
    if v.len() != 14 {
        return false;
    }
    let mut i: usize = 0;
    while i < 14
        invariant
            v@ == name@,
            target@ == "content-length"@,
            target@.len() == 14,
            v@.len() == 14,
            i <= 14,
            forall|k: int| 0 <= k < i ==> ascii_lower(#[trigger] v@[k] as u32) == target@[k] as u32,
        decreases 14 - i,
    {
        let c = v[i] as u32;
        let lower = if 65 <= c && c <= 90 { c + 32 } else { c };
        if lower != target[i] as u32 {
            return false;
        }
        i = i + 1;
    }
    true
}

/// The body length a message head announces (the head read as UTF-8 text).
pub fn announced_length(head: &[u8]) -> (res: usize)
    ensures
        res == spec_announced_length(spec_utf8_lossy(head@)),
{
    proof {
        reveal_strlit("\r\n");
    }
    let text = utf8_lossy(head);
    let lines = split_all(text.as_str(), "\r\n");
    let mut i: usize = 0;
    while i < lines.len()
        invariant
            i <= lines@.len(),
            views(lines@) == split_on(text@, "\r\n"@),
            text@ == spec_utf8_lossy(head@),
            first_length_value(views(lines@).take(i as int)) is None,
        decreases lines@.len() - i,
    {
        assert(views(lines@).take(i + 1).drop_last() =~= views(lines@).take(i as int));
        assert(views(lines@).take(i + 1).last() == lines@[i as int]@);
        match split_once_str(lines[i].as_str(), ":") {
            Some((name, value)) => {
                let trimmed = trim_str(name.as_str());
                if length_name(trimmed.as_str()) {
                    assert(first_length_value(views(lines@).take(i + 1)) == Some(value@));
                    proof {
                        lemma_first_length_prefix(views(lines@), i as int);
                    }
                    assert(first_length_value(split_on(text@, "\r\n"@)) == Some(value@));
                    let v = trim_str(value.as_str());
                    let max: u64 = usize::MAX as u64;
                    assert(max as nat == usize::MAX as nat);
                    let parsed = parse_unsigned(v.as_str(), max);
                    assert(v@ == trim_ws(value@));
                    return match parsed {
                        Some(n) => n as usize,
                        None => 0,
                    };
                }
            },
            None => {},
        }
        i = i + 1;
    }
    assert(views(lines@).take(lines@.len() as int) =~= views(lines@));
    0
}

/// Once a prefix has a length header, longer prefixes keep the same one.
proof fn lemma_first_length_prefix(lines: Seq<Seq<char>>, i: int)
    requires
        0 <= i < lines.len(),
        first_length_value(lines.take(i + 1)) is Some,
    ensures
        first_length_value(lines) == first_length_value(lines.take(i + 1)),
    decreases lines.len() - i,
{
    if i + 1 < lines.len() {
        assert(lines.take(i + 2).drop_last() =~= lines.take(i + 1));
        lemma_first_length_prefix(lines, i + 1);
    } else {
        assert(lines.take(i + 1) =~= lines);
    }
}

/// How many bytes a complete message takes, once its head is in: the head
/// and the body it announces (capped at the largest size).
pub fn message_size(buf: &[u8]) -> (res: Option<usize>)
    ensures
        match head_end_spec(buf@) {
            Some(n) => res == Some(
                if n + spec_announced_length(spec_utf8_lossy(buf@.take(n))) > usize::MAX {
                    usize::MAX
                } else {
                    (n + spec_announced_length(spec_utf8_lossy(buf@.take(n)))) as usize
                },
            ),
            None => res is None,
        },
{
    match head_end(buf) {
        Some(n) => {
            let head = bytes_prefix(buf, n);
            let length = announced_length(head.as_slice());
            Some(n.saturating_add(length))
        },
        None => None,
    }
}

} // verus!
