//! The request side of the dev server: header parsing, the live-reload
//! script injection, the url of a bound server and the replies it sends.

use vstd::prelude::*;

use axum::http::header::{HeaderName, HeaderValue, InvalidHeaderName, InvalidHeaderValue};

use crate::ReloadType;
use crate::path::{path_extension, path_extension_chars};
use crate::text::{
    chars_eq, chars_of, contains_char, contains_exec, contains_seq, decimal, decimal_exec, first_index_exec,
    first_index_of, lemma_contains_concat_right, lemma_contains_self, lemma_decimal_digits, lemma_replace_present,
    occurs_at, push_all, replace_all, replace_all_exec, string_from_chars, subrange_vec, trim,
    trim_exec, is_whitespace, lemma_first_index_of, lemma_trim_unpadded,
};

verus! {

/// The live-reload client: opens the `/livereload` event stream, reloads
/// the page on `page` events and on reconnection after a restart, and
/// hot-swaps stylesheets on `css` events.
pub open spec fn livereload_script() -> Seq<char> {
    LIVERELOAD_SCRIPT@
}

/// The script tag injected into every served HTML page.
pub const LIVERELOAD_SCRIPT: &'static str = r#"<script>
        const es = new EventSource('/livereload');
        let first = true;
        es.addEventListener('open', () => {
            if (first) {
                first = false;
                console.log('[webadev] live reload connected');
            } else {
                // server restarted: reload to resync
                location.reload();
            }
        });
        es.addEventListener('page', () => location.reload());
        es.addEventListener('css', () => {
            document.querySelectorAll('link[rel="stylesheet"]').forEach(link => {
                const url = new URL(link.href, location.href);
                url.searchParams.set('t', Date.now());
                link.href = url.toString();
            });
            console.log('[webadev] css hot-reloaded');
        });
        es.addEventListener('error', () => console.warn('[webadev] live reload connection lost', es.readyState));
    </script>"#;

/// The closing tag before which the script goes first.
pub open spec fn body_close() -> Seq<char> {
    "</body>"@
}

/// The closing tag before which the script goes when there is no `</body>`.
pub open spec fn html_close() -> Seq<char> {
    "</html>"@
}

/// `html` with the live-reload script inserted: before every `</body>`,
/// else before every `</html>`, else appended after a line break.
pub open spec fn script_injected(html: Seq<char>) -> Seq<char> {
    if contains_seq(html, body_close()) {
        replace_all(html, body_close(), livereload_script() + "\n"@ + body_close())
    } else if contains_seq(html, html_close()) {
        replace_all(html, html_close(), livereload_script() + "\n"@ + html_close())
    } else {
        html + "\n"@ + livereload_script()
    }
}

/// Inserts the live-reload script into an HTML page.
pub fn js_script_inject(html: &str) -> (res: String)
    ensures
        res@ == script_injected(html@),
{
    let page = chars_of(html);
    let script = chars_of(LIVERELOAD_SCRIPT);
    let newline = chars_of("\n");
    let body = chars_of("</body>");
    let end = chars_of("</html>");
    proof {
        reveal_strlit("</body>");
        reveal_strlit("</html>");
    }
    let out = if contains_exec(&page, &body) {
        let mut rep = script.clone();
        push_all(&mut rep, &newline);
        push_all(&mut rep, &body);
        replace_all_exec(&page, &body, &rep)
    } else if contains_exec(&page, &end) {
        let mut rep = script.clone();
        push_all(&mut rep, &newline);
        push_all(&mut rep, &end);
        replace_all_exec(&page, &end, &rep)
    } else {
        let mut out = page.clone();
        push_all(&mut out, &newline);
        push_all(&mut out, &script);
        out
    };
    string_from_chars(&out)
}

/// Every injected page holds the live-reload script.
pub proof fn lemma_injected_page_has_script(html: Seq<char>)
    ensures
        contains_seq(script_injected(html), livereload_script()),
{
    reveal_strlit("</body>");
    reveal_strlit("</html>");
    let s = livereload_script();
    if contains_seq(html, body_close()) {
        let rep = s + "\n"@ + body_close();
        lemma_replace_present(html, body_close(), rep);
        let r = replace_all(html, body_close(), rep);
        let i = choose|i: int| occurs_at(r, rep, i);
        assert(r.subrange(i, i + s.len()) =~= rep.subrange(0, s.len() as int));
        assert(rep.subrange(0, s.len() as int) =~= s);
        assert(occurs_at(r, s, i));
    } else if contains_seq(html, html_close()) {
        let rep = s + "\n"@ + html_close();
        lemma_replace_present(html, html_close(), rep);
        let r = replace_all(html, html_close(), rep);
        let i = choose|i: int| occurs_at(r, rep, i);
        assert(r.subrange(i, i + s.len()) =~= rep.subrange(0, s.len() as int));
        assert(rep.subrange(0, s.len() as int) =~= s);
        assert(occurs_at(r, s, i));
    } else {
        lemma_contains_self(s);
        lemma_contains_concat_right(html + "\n"@, s, s);
    }
}

/// A page with neither closing tag keeps its text as a prefix, the script
/// following after a line break.
pub proof fn lemma_injected_page_without_tags(html: Seq<char>)
    requires
        !contains_seq(html, body_close()),
        !contains_seq(html, html_close()),
    ensures
        script_injected(html) == html + "\n"@ + livereload_script(),
{
}

#[verifier::external_type_specification]
#[verifier::external_body]
pub struct ExInvalidHeaderName(InvalidHeaderName);

#[verifier::external_type_specification]
#[verifier::external_body]
pub struct ExInvalidHeaderValue(InvalidHeaderValue);

/// An HTTP token character: a digit, a letter or one of ``!#$%&'*+-.^_`|~``.
pub open spec fn is_token_char(c: char) -> bool {
    ||| '0' <= c <= '9'
    ||| 'a' <= c <= 'z'
    ||| 'A' <= c <= 'Z'
    ||| c == '!' || c == '#' || c == '$' || c == '%' || c == '&' || c == '\''
    ||| c == '*' || c == '+' || c == '-' || c == '.' || c == '^' || c == '_'
    ||| c == '`' || c == '|' || c == '~'
}

/// The names that `HeaderName` accepts: one to 65535 token characters.
pub open spec fn header_name_valid(name: Seq<char>) -> bool {
    &&& 1 <= name.len() <= 65535
    &&& forall|i: int| 0 <= i < name.len() ==> is_token_char(#[trigger] name[i])
}

/// A character that may stand in a header value: a tab, or any character
/// from the space on but DEL (all non-ASCII characters among them).
pub open spec fn is_value_char(c: char) -> bool {
    c == '\t' || (' ' <= c && c != '\u{7f}')
}

/// The values that `HeaderValue` accepts.
pub open spec fn header_value_valid(value: Seq<char>) -> bool {
    forall|i: int| 0 <= i < value.len() ==> is_value_char(#[trigger] value[i])
}

/// A letter in lower case; any other character as it is.
pub open spec fn ascii_lower_char(c: char) -> char {
    if 'A' <= c <= 'Z' {
        ((c as u32) + 32) as char
    } else {
        c
    }
}

/// A text with its ASCII letters in lower case.
pub open spec fn ascii_lowercase(s: Seq<char>) -> Seq<char> {
    s.map_values(|c: char| ascii_lower_char(c))
}

/// Calls `FromStr::from_str` for http's `HeaderName` and hands back the
/// text of the name built (`HeaderName::as_str`). Its source maps each byte
/// through a table that keeps exactly the token characters, lower-casing
/// letters, and refuses an empty name or one longer than 65535 bytes; a
/// standard header's text is the lower-case name that it matched. The
/// contract claims that the call succeeds exactly on `header_name_valid`,
/// and that the text is the name in lower case.
#[verifier::external_body]
fn header_name_text(name: &str) -> (res: Result<String, InvalidHeaderName>)
    ensures
        res is Ok <==> header_name_valid(name@),
        res matches Ok(text) ==> text@ == ascii_lowercase(name@),
{
    match name.parse::<HeaderName>() {
        Ok(header) => Ok(header.as_str().to_owned()),
        Err(err) => Err(err),
    }
}

/// Calls http's `HeaderValue::from_str` and hands back the bytes of the
/// value built (`HeaderValue::as_bytes`). Its source accepts every byte that
/// is at least 32 and not 127, and the tab; in UTF-8 that is exactly the
/// characters of `is_value_char`, and a value built keeps a copy of the
/// bytes of its text. The contract claims that the call succeeds exactly on
/// `header_value_valid`, and that the bytes are the UTF-8 of `value`.
#[verifier::external_body]
fn header_value_bytes(value: &str) -> (res: Result<Vec<u8>, InvalidHeaderValue>)
    ensures
        res is Ok <==> header_value_valid(value@),
        res matches Ok(bytes) ==> bytes@ == vstd::utf8::encode_utf8(value@),
{
    match HeaderValue::from_str(value) {
        Ok(header) => Ok(header.as_bytes().to_vec()),
        Err(err) => Err(err),
    }
}

/// One validated `Name: value` header line, as it goes into every response.
pub struct CustomHeader {
    /// the name as http holds it: in lower case
    pub name: String,
    /// the bytes of the value as http holds them
    pub value: Vec<u8>,
}

/// The index of the `:` that separates name and value, `-1` where there is none.
pub open spec fn header_separator(item: Seq<char>) -> int {
    first_index_of(item, ':')
}

/// The trimmed name of a header line.
pub open spec fn header_line_name(item: Seq<char>) -> Seq<char> {
    trim(item.take(header_separator(item)))
}

/// The trimmed value of a header line.
pub open spec fn header_line_value(item: Seq<char>) -> Seq<char> {
    trim(item.skip(header_separator(item) + 1))
}

/// A header line that parses: it has a `:`, and the trimmed name is a valid,
/// non-empty header name and the trimmed value a valid header value.
pub open spec fn header_line_ok(item: Seq<char>) -> bool {
    &&& header_separator(item) >= 0
    &&& header_line_name(item).len() > 0
    &&& header_name_valid(header_line_name(item))
    &&& header_value_valid(header_line_value(item))
}

/// The message for a header line that does not parse, naming the first
/// check it fails.
pub open spec fn header_line_error(item: Seq<char>) -> Seq<char> {
    let quoted = item + "`"@;
    if header_separator(item) < 0 {
        "missing ':' separator in `"@ + quoted
    } else if header_line_name(item).len() == 0 {
        "empty header name in `"@ + quoted
    } else if !header_name_valid(header_line_name(item)) {
        "invalid header name in `"@ + quoted
    } else {
        "invalid header value in `"@ + quoted
    }
}

/// `prefix`, then `item`, then a backquote.
fn message_build(prefix: &str, item: &str) -> (res: String)
    ensures
        res@ == prefix@ + (item@ + "`"@),
{
    let mut msg = prefix.to_owned();
    msg.append(item);
    msg.append("`");
    assert(msg@ =~= prefix@ + (item@ + "`"@));
    msg
}

/// Parses one `Name: value` header line.
fn header_parse(item: &String) -> (res: Result<CustomHeader, String>)
    ensures
        match res {
            Ok(h) => {
                &&& header_line_ok(item@)
                &&& h.name@ == ascii_lowercase(header_line_name(item@))
                &&& h.value@ == vstd::utf8::encode_utf8(header_line_value(item@))
            },
            Err(e) => !header_line_ok(item@) && e@ == header_line_error(item@),
        },
{
    let chars = chars_of(item.as_str());
    let n = chars.len();
    let colon = match first_index_exec(&chars, ':') {
        Some(k) => k,
        None => {
            return Err(message_build("missing ':' separator in `", item.as_str()));
        },
    };
    let name_chars = trim_exec(&subrange_vec(&chars, 0, colon));
    let value_chars = trim_exec(&subrange_vec(&chars, colon + 1, n));
    assert(chars@.subrange(0, colon as int) =~= chars@.take(colon as int));
    assert(chars@.subrange(colon + 1, chars@.len() as int) =~= chars@.skip(colon + 1));
    if name_chars.len() == 0 {
        return Err(message_build("empty header name in `", item.as_str()));
    }
    let name = string_from_chars(&name_chars);
    let value = string_from_chars(&value_chars);
    let name = match header_name_text(name.as_str()) {
        Ok(text) => text,
        Err(_) => {
            return Err(message_build("invalid header name in `", item.as_str()));
        },
    };
    let value = match header_value_bytes(value.as_str()) {
        Ok(bytes) => bytes,
        Err(_) => {
            return Err(message_build("invalid header value in `", item.as_str()));
        },
    };
    Ok(CustomHeader { name, value })
}

/// Parses `Name: value` header strings; the first line that does not parse
/// makes the whole fail with its message.
pub fn headers_parse(raw: &[String]) -> (res: Result<Vec<CustomHeader>, String>)
    ensures
        match res {
            Ok(v) => {
                &&& v.len() == raw.len()
                &&& forall|i: int| 0 <= i < raw.len() ==> header_line_ok(#[trigger] raw[i]@)
                &&& forall|i: int|
                    0 <= i < raw.len() ==> (#[trigger] v[i]).name@ == ascii_lowercase(
                        header_line_name(raw[i]@),
                    ) && v[i].value@ == vstd::utf8::encode_utf8(header_line_value(raw[i]@))
            },
            Err(e) => exists|k: int|
                {
                    &&& 0 <= k < raw.len()
                    &&& !header_line_ok(#[trigger] raw[k]@)
                    &&& forall|j: int| 0 <= j < k ==> header_line_ok(#[trigger] raw[j]@)
                    &&& e@ == header_line_error(raw[k]@)
                },
        },
{
    let mut out: Vec<CustomHeader> = Vec::new();
    let mut i: usize = 0;
    while i < raw.len()
        invariant
            i <= raw@.len(),
            out@.len() == i,
            forall|j: int| 0 <= j < i ==> header_line_ok(#[trigger] raw[j]@),
            forall|j: int|
                0 <= j < i ==> (#[trigger] out[j]).name@ == ascii_lowercase(
                    header_line_name(raw[j]@),
                ) && out[j].value@ == vstd::utf8::encode_utf8(header_line_value(raw[j]@)),
        decreases raw@.len() - i,
    {
        match header_parse(&raw[i]) {
            Ok(h) => {
                out.push(h);
            },
            Err(e) => {
                assert(!header_line_ok(raw[i as int]@));
                return Err(e);
            },
        }
        i += 1;
    }
    Ok(out)
}

/// A header line that parses carries no line break in its name or value,
/// so it cannot smuggle a further header into a response.
pub proof fn lemma_parsed_header_has_no_line_break(item: Seq<char>)
    requires
        header_line_ok(item),
    ensures
        !header_line_name(item).contains('\n'),
        !header_line_name(item).contains('\r'),
        !header_line_value(item).contains('\n'),
        !header_line_value(item).contains('\r'),
{
    let name = header_line_name(item);
    let value = header_line_value(item);
    assert forall|i: int| 0 <= i < name.len() implies name[i] != '\n' && name[i] != '\r' by {
        assert(is_token_char(name[i]));
    }
    assert forall|i: int| 0 <= i < value.len() implies value[i] != '\n' && value[i] != '\r' by {
        assert(is_value_char(value[i]));
    }
}

/// The url a server bound to `host:port` is reached at: a server bound to
/// the unspecified address is reached on the loopback address.
pub open spec fn server_url(host: Seq<char>, host_unspecified: bool, port: u16) -> Seq<char> {
    "http://"@ + url_host(host, host_unspecified) + ":"@ + decimal(port as nat)
}

/// The host part of a server's url: the loopback address for a server bound
/// to every interface, an IPv6 address (one holding `:`) in brackets, and
/// any other host as it displays.
pub open spec fn url_host(host: Seq<char>, host_unspecified: bool) -> Seq<char> {
    if host_unspecified {
        "127.0.0.1"@
    } else if host.contains(':') {
        "["@ + host + "]"@
    } else {
        host
    }
}

/// Builds the url of a server bound to `host` (as the address displays)
/// and `port` (the port actually bound).
pub fn url_build(host: &str, host_unspecified: bool, port: u16) -> (res: String)
    ensures
        res@ == server_url(host@, host_unspecified, port),
{
    let mut url = "http://".to_owned();
    if host_unspecified {
        url.append("127.0.0.1");
    } else if contains_char(&chars_of(host), ':') {
        url.append("[");
        url.append(host);
        url.append("]");
    } else {
        url.append(host);
    }
    url.append(":");
    let digits = string_from_chars(&decimal_exec(port as u64));
    url.append(digits.as_str());
    url
}

/// What the live-reload stream got from the reload channel.
#[derive(Clone, Copy, PartialEq, Eq, Debug, Structural)]
pub enum ChannelRecv {
    /// a reload event of this type
    Message(ReloadType),
    /// this many events were missed because the stream fell behind
    Lagged(u64),
    /// every sender is gone
    Closed,
}

/// The reload a browser is told of after `recv`, or `None` where the stream
/// ends. Missed events could have been anything, so they call for a full
/// page reload.
pub open spec fn livereload_reload(recv: ChannelRecv) -> Option<ReloadType> {
    match recv {
        ChannelRecv::Message(t) => Some(t),
        ChannelRecv::Lagged(_) => Some(ReloadType::Page),
        ChannelRecv::Closed => None,
    }
}

/// The next event of the live-reload stream: its type names both the SSE
/// event and its `data:` line.
pub fn livereload_next(recv: ChannelRecv) -> (res: Option<ReloadType>)
    ensures
        res == livereload_reload(recv),
{
    match recv {
        ChannelRecv::Message(reload_type) => Some(reload_type),
        ChannelRecv::Lagged(_) => Some(ReloadType::Page),
        ChannelRecv::Closed => None,
    }
}

/// A request path names a `..` segment: it reaches out of the served
/// directory.
pub open spec fn has_parent_segment(path: Seq<char>) -> bool {
    exists|i: int|
        {
            &&& 0 <= i && i + 2 <= path.len()
            &&& #[trigger] path[i] == '.' && path[i + 1] == '.'
            &&& (i == 0 || path[i - 1] == '/')
            &&& (i + 2 == path.len() || path[i + 2] == '/')
        }
}

/// Whether a request path must be refused because one of its `/`-separated
/// segments is `..`.
pub fn request_path_rejected(path: &str) -> (res: bool)
    ensures
        res == has_parent_segment(path@),
{
    let p = chars_of(path);
    let n = p.len();
    let mut i: usize = 0;
    while i < n && i + 1 < n
        invariant
            n == p@.len(),
            i <= n,
            p@ == path@,
            forall|j: int|
                0 <= j < i && j + 2 <= p@.len() ==> !{
                    &&& #[trigger] p@[j] == '.' && p@[j + 1] == '.'
                    &&& (j == 0 || p@[j - 1] == '/')
                    &&& (j + 2 == p@.len() || p@[j + 2] == '/')
                },
        decreases n - i,
    {
        if p[i] == '.' && p[i + 1] == '.' && (i == 0 || p[i - 1] == '/') && (i + 2 == n || p[i
            + 2] == '/') {
            return true;
        }
        i += 1;
    }
    false
}

/// A reply to send: its status, content type and cache policy, and body.
pub struct Reply {
    /// the HTTP status code
    pub status: u16,
    /// the `Content-Type` header, if any
    pub content_type: Option<String>,
    /// the `Cache-Control` header, if any
    pub cache_control: Option<String>,
    /// the body
    pub body: Vec<u8>,
}

/// The content type of served HTML pages.
pub open spec fn html_content_type() -> Seq<char> {
    "text/html; charset=utf-8"@
}

/// Served files are never cached, so a reload always fetches them anew.
pub open spec fn no_cache() -> Seq<char> {
    "no-cache"@
}

/// A `200 OK` HTML page, never cached.
pub fn html_response_build(body: Vec<u8>) -> (res: Reply)
    ensures
        res.status == 200,
        res.content_type matches Some(t) && t@ == html_content_type(),
        res.cache_control matches Some(c) && c@ == no_cache(),
        res.body@ == body@,
{
    Reply {
        status: 200,
        content_type: Some("text/html; charset=utf-8".to_owned()),
        cache_control: Some("no-cache".to_owned()),
        body,
    }
}

/// An empty `404 Not Found`.
pub fn html_not_found_build() -> (res: Reply)
    ensures
        res.status == 404,
        res.content_type is None,
        res.cache_control is None,
        res.body@.len() == 0,
{
    Reply { status: 404, content_type: None, cache_control: None, body: Vec::new() }
}

/// A `200 OK` file of the given content type, never cached.
pub fn file_response_build(content_type: String, body: Vec<u8>) -> (res: Reply)
    ensures
        res.status == 200,
        res.content_type matches Some(t) && t@ == content_type@,
        res.cache_control matches Some(c) && c@ == no_cache(),
        res.body@ == body@,
{
    Reply {
        status: 200,
        content_type: Some(content_type),
        cache_control: Some("no-cache".to_owned()),
        body,
    }
}

/// The MIME type that `mime_guess` gives a path: that of its extension, or
/// `application/octet-stream` where it knows none.
pub uninterp spec fn guessed_mime_type(path: Seq<char>) -> Seq<char>;

/// Calls `mime_guess::from_path(path).first_or_octet_stream()` and renders
/// the `Mime`. The guess is a lookup of the path's extension in a static
/// table, so the contract names its result as a function of the path alone.
#[verifier::external_body]
fn mime_guess_from_path(path: &str) -> (res: String)
    ensures
        res@ == guessed_mime_type(path@),
{
    mime_guess::from_path(path).first_or_octet_stream().as_ref().to_owned()
}

/// Calls std's `String::from_utf8`, giving back the bytes on failure
/// (`FromUtf8Error::into_bytes`). As std documents, the call succeeds
/// exactly on valid UTF-8, the string then holding the decoded characters;
/// the contract states that with vstd's model of UTF-8.
#[verifier::external_body]
fn utf8_decode(bytes: Vec<u8>) -> (res: Result<String, Vec<u8>>)
    ensures
        res is Ok <==> vstd::utf8::valid_utf8(bytes@),
        match res {
            Ok(s) => s@ == vstd::utf8::decode_utf8(bytes@),
            Err(b) => b@ == bytes@,
        },
{
    String::from_utf8(bytes).map_err(|err| err.into_bytes())
}

/// The body served for an HTML file's bytes: decoded, injected with the
/// live-reload script and encoded again, or served raw when it is not UTF-8.
pub open spec fn html_body(bytes: Seq<u8>) -> Seq<u8> {
    if vstd::utf8::valid_utf8(bytes) {
        vstd::utf8::encode_utf8(script_injected(vstd::utf8::decode_utf8(bytes)))
    } else {
        bytes
    }
}

/// A file is served as HTML when its extension is `html`.
pub open spec fn is_html_path(file_path: Seq<char>) -> bool {
    path_extension(file_path) == Some("html"@)
}

/// The reply for the file at `file_path` whose bytes were read: HTML pages
/// get the live-reload script, other files go out as they are, typed by
/// their extension.
pub fn file_reply(file_path: &str, bytes: Vec<u8>) -> (res: Reply)
    ensures
        res.status == 200,
        res.cache_control matches Some(c) && c@ == no_cache(),
        is_html_path(file_path@) ==> {
            &&& res.content_type matches Some(t) && t@ == html_content_type()
            &&& res.body@ == html_body(bytes@)
        },
        !is_html_path(file_path@) ==> {
            &&& res.content_type matches Some(t) && t@ == guessed_mime_type(file_path@)
            &&& res.body@ == bytes@
        },
        path_extension(file_path@) == Some("html"@) ==> {
            &&& res.content_type matches Some(t) && t@ == html_content_type()
            &&& res.body@ == html_body(bytes@)
        },
        path_extension(file_path@) != Some("html"@) ==> res.body@ == bytes@,
{
    let is_html = match path_extension_chars(&chars_of(file_path)) {
        Some(ext) => chars_eq(&ext, &chars_of("html")),
        None => false,
    };
    if is_html {
        match utf8_decode(bytes) {
            Ok(html) => {
                let page = js_script_inject(html.as_str());
                let body = vstd::slice::slice_to_vec(page.as_str().as_bytes());
                html_response_build(body)
            },
            Err(raw) => html_response_build(raw),
        }
    } else {
        file_response_build(mime_guess_from_path(file_path), bytes)
    }
}

/// A page served from valid UTF-8 holds the live-reload script.
pub proof fn lemma_served_page_has_script(bytes: Seq<u8>)
    requires
        vstd::utf8::valid_utf8(bytes),
    ensures
        vstd::utf8::valid_utf8(html_body(bytes)),
        contains_seq(vstd::utf8::decode_utf8(html_body(bytes)), livereload_script()),
{
    let page = script_injected(vstd::utf8::decode_utf8(bytes));
    vstd::utf8::encode_utf8_valid_utf8(page);
    vstd::utf8::encode_utf8_decode_utf8(page);
    lemma_injected_page_has_script(vstd::utf8::decode_utf8(bytes));
}

/// The url of a server ends in `:0` only when its port is 0: the port that
/// a url reports is the one actually bound.
pub proof fn lemma_url_port_zero_only_for_zero(host: Seq<char>, host_unspecified: bool, port: u16)
    requires
        port != 0,
    ensures
        ({
            let url = server_url(host, host_unspecified, port);
            !(url.len() >= 2 && url[url.len() - 1] == '0' && url[url.len() - 2] == ':')
        }),
{
    reveal_strlit(":");
    let d = decimal(port as nat);
    lemma_decimal_digits(port as nat);
    let head = "http://"@ + url_host(host, host_unspecified) + ":"@;
    let url = server_url(host, host_unspecified, port);
    assert(url == head + d);
    if d.len() == 1 {
        assert(url[url.len() - 1] == d[0]);
    } else {
        assert(url[url.len() - 2] == d[d.len() - 2]);
    }
}

/// A line `name:value`, where `name` holds no `:`, splits at that `:`: its
/// name is `name` trimmed and its value all of `value`, further colons
/// included, trimmed.
pub proof fn lemma_header_line_split(name: Seq<char>, value: Seq<char>)
    requires
        !name.contains(':'),
    ensures
        header_separator(name + ":"@ + value) == name.len(),
        header_line_name(name + ":"@ + value) == trim(name),
        header_line_value(name + ":"@ + value) == trim(value),
{
    reveal_strlit(":");
    let item = name + ":"@ + value;
    assert forall|j: int| 0 <= j < name.len() implies item[j] != ':' by {
        assert(item[j] == name[j]);
        assert(name.contains(name[j]));
    }
    assert(item[name.len() as int] == ':');
    lemma_first_index_of(item, ':', name.len() as int);
    assert(item.take(name.len() as int) =~= name);
    assert(item.skip(name.len() + 1int) =~= value);
}

/// A line `name:value` whose parts carry no surrounding whitespace parses to
/// exactly `name` and `value`: nothing of the value is lost or added.
pub proof fn lemma_header_line_unpadded(name: Seq<char>, value: Seq<char>)
    requires
        !name.contains(':'),
        name.len() > 0 ==> !is_whitespace(name[0]) && !is_whitespace(name.last()),
        value.len() > 0 ==> !is_whitespace(value[0]) && !is_whitespace(value.last()),
    ensures
        header_line_name(name + ":"@ + value) == name,
        header_line_value(name + ":"@ + value) == value,
{
    lemma_header_line_split(name, value);
    lemma_trim_unpadded(name);
    lemma_trim_unpadded(value);
}

/// A file is served as HTML exactly when its extension (as
/// `Path::extension` gives it) is `html`.
pub proof fn lemma_is_html_path_by_extension(file_path: Seq<char>)
    ensures
        is_html_path(file_path) <==> path_extension(file_path) == Some("html"@),
{
}

/// A file `dir/stem.ext` (or `stem.ext`) is served as an HTML page, with the
/// live-reload script, exactly when `ext` is `html`, however many dots the
/// stem and the directory hold.
pub proof fn lemma_html_file_served_as_page(dir: Seq<char>, stem: Seq<char>, ext: Seq<char>)
    requires
        stem.len() > 0,
        ext.len() > 0,
        !stem.contains('/'),
        !ext.contains('/'),
        !ext.contains('.'),
    ensures
        is_html_path(dir + "/"@ + stem + "."@ + ext) <==> ext == "html"@,
        is_html_path(stem + "."@ + ext) <==> ext == "html"@,
{
    crate::path::lemma_file_extension(dir, stem, ext);
}

} // verus!
