//! The small HTTP servers: a page that lists the request's headers, and a
//! page that runs the code sent in a `code=` query parameter.
use crate::text::{
    chars_of,
    find,
    lemma_find_char_absent,
    lemma_split_join,
    lemma_trim_unchanged,
    lemma_trimmed_ends,
    push_chars,
    spec_find,
    spec_split,
    spec_trim,
    split,
    string_of,
    subvec,
    trim,
    views,
};
use vstd::prelude::*;

verus! {

/// The characters whose codes are the bytes of `b` (ISO 8859-1), as the
/// servers read a request buffer.
pub open spec fn latin1(b: Seq<u8>) -> Seq<char> {
    b.map_values(|x: u8| x as char)
}

/// The characters whose codes are the bytes of `bytes`.
pub fn latin1_chars(bytes: &[u8]) -> (r: Vec<char>)
    ensures
        r@ == latin1(bytes@),
{
    let mut v: Vec<char> = Vec::new();
    for i in 0..bytes.len()
        invariant
            v@ == latin1(bytes@.take(i as int)),
    {
        v.push(bytes[i] as char);
        assert(latin1(bytes@.take(i + 1)) == latin1(bytes@.take(i as int)).push(
            bytes@[i as int] as char,
        ));
    }
    assert(bytes@.take(bytes.len() as int) == bytes@);
    v
}

/// The status line and headers of every page the servers send.
pub open spec fn page_head() -> Seq<char> {
    "HTTP/1.1 200 OK\nContent-Type: text/html; charset=utf-8\n\n"@
}

/// The header lines of a request: the lines of the trimmed text after the
/// request line.
pub open spec fn request_headers(request: Seq<char>) -> Seq<Seq<char>> {
    spec_split(spec_trim(request), "\n"@).drop_first()
}

/// Each header as a list item, in order.
pub open spec fn header_items(headers: Seq<Seq<char>>) -> Seq<char>
    decreases headers.len(),
{
    if headers.len() == 0 {
        seq![]
    } else {
        "<li>"@ + headers[0] + "</li>"@ + header_items(headers.drop_first())
    }
}

/// The page that lists the headers of `request`.
pub open spec fn spec_headers_page(request: Seq<char>) -> Seq<char> {
    page_head() + "<html><body><h1>Welcome to this site!</h1><p>Headers:</p><ul>"@ + header_items(
        request_headers(request),
    ) + "</ul></body></html>"@
}

/// Listing one more header adds its item after the others.
proof fn lemma_header_items_push(headers: Seq<Seq<char>>, h: Seq<char>)
    ensures
        header_items(headers.push(h)) == header_items(headers) + "<li>"@ + h + "</li>"@,
    decreases headers.len(),
{
    if headers.len() == 0 {
        assert(headers.push(h).drop_first() == Seq::<Seq<char>>::empty());
        assert(header_items(headers.push(h)) == "<li>"@ + h + "</li>"@ + header_items(
            Seq::<Seq<char>>::empty(),
        ));
    } else {
        assert(headers.push(h)[0] == headers[0]);
        assert(headers.push(h).drop_first() == headers.drop_first().push(h));
        lemma_header_items_push(headers.drop_first(), h);
    }
}

/// A request of one line (the request line alone) lists no header.
pub proof fn lemma_headers_page_request_line_only(r: Seq<char>)
    requires
        !spec_trim(r).contains('\n'),
    ensures
        spec_headers_page(r) == page_head()
            + "<html><body><h1>Welcome to this site!</h1><p>Headers:</p><ul></ul></body></html>"@,
{
    reveal_strlit("\n");
    reveal_strlit("<html><body><h1>Welcome to this site!</h1><p>Headers:</p><ul>");
    reveal_strlit("</ul></body></html>");
    reveal_strlit("<html><body><h1>Welcome to this site!</h1><p>Headers:</p><ul></ul></body></html>");
    let t = spec_trim(r);
    assert("\n"@ == seq!['\n']);
    assert forall|j: int| 0 <= j < t.len() implies t[j] != '\n' by {
        if t[j] == '\n' {
            assert(t.contains('\n'));
        }
    }
    lemma_find_char_absent(t, '\n');
    assert(spec_split(t, "\n"@) == seq![t]);
    assert(request_headers(r) == Seq::<Seq<char>>::empty());
    assert(header_items(Seq::<Seq<char>>::empty()) == Seq::<char>::empty());
    assert("<html><body><h1>Welcome to this site!</h1><p>Headers:</p><ul>"@ + "</ul></body></html>"@
        =~= "<html><body><h1>Welcome to this site!</h1><p>Headers:</p><ul></ul></body></html>"@);
}

/// Every header line of a request gets its item: adding a line `h` after a
/// trimmed request `r` adds exactly the item `<li>h</li>`, after all the
/// items of `r`, and leaves the rest of the page as it is.
pub proof fn lemma_headers_page_one_more_line(r: Seq<char>, h: Seq<char>)
    requires
        spec_trim(r) == r,
        r.len() > 0,
        spec_trim(h) == h,
        h.len() > 0,
        !h.contains('\n'),
    ensures
        spec_headers_page(r).len() >= 19,
        spec_headers_page(r).skip(spec_headers_page(r).len() - 19) == "</ul></body></html>"@,
        spec_headers_page(r + "\n"@ + h) == spec_headers_page(r).take(
            spec_headers_page(r).len() - 19,
        ) + "<li>"@ + h + "</li>"@ + "</ul></body></html>"@,
{
    reveal_strlit("\n");
    reveal_strlit("</ul></body></html>");
    let nl = "\n"@;
    assert(nl == seq!['\n']);
    let tail = "</ul></body></html>"@;
    assert(tail.len() == 19);
    lemma_trimmed_ends(r);
    lemma_trimmed_ends(h);
    let big = r + nl + h;
    assert(big[0] == r[0]);
    assert(big.last() == h.last());
    lemma_trim_unchanged(big);
    assert forall|j: int| 0 <= j < h.len() implies h[j] != '\n' by {
        if h[j] == '\n' {
            assert(h.contains('\n'));
        }
    }
    lemma_find_char_absent(h, '\n');
    assert(spec_split(h, nl) == seq![h]);
    lemma_split_join(r, h, nl);
    let lines = spec_split(r, nl);
    assert(lines.len() > 0);
    assert((lines + seq![h]).drop_first() == lines.drop_first().push(h));
    assert(request_headers(big) == request_headers(r).push(h));
    lemma_header_items_push(request_headers(r), h);
    let head = page_head() + "<html><body><h1>Welcome to this site!</h1><p>Headers:</p><ul>"@;
    let items = header_items(request_headers(r));
    let p = spec_headers_page(r);
    assert(p == (head + items) + tail);
    assert(p.skip(p.len() - 19) =~= tail);
    assert(p.take(p.len() - 19) =~= head + items);
    assert(spec_headers_page(big) =~= (head + items) + "<li>"@ + h + "</li>"@ + tail);
}

/// The answer to a request read into `buffer`: a page that lists the
/// request's header lines.
pub fn headers_page(buffer: &[u8]) -> (r: String)
    ensures
        r@ == spec_headers_page(latin1(buffer@)),
{
    let text = trim(&latin1_chars(buffer));
    let newline = chars_of("\n");
    proof {
        reveal_strlit("\n");
    }
    let lines = split(&text, &newline);
    let ghost headers = request_headers(latin1(buffer@));
    assert(headers == views(lines@).drop_first());
    let mut response = String::from_str("HTTP/1.1 200 OK\nContent-Type: text/html; charset=utf-8\n\n");
    response.append("<html><body><h1>Welcome to this site!</h1><p>Headers:</p><ul>");
    let ghost start = response@;
    let open_item = chars_of("<li>");
    let close_item = chars_of("</li>");
    let mut i: usize = 1;
    assert(headers.skip(0) == headers);
    while i < lines.len()
        invariant
            1 <= i <= lines.len(),
            headers == views(lines@).drop_first(),
            open_item@ == "<li>"@,
            close_item@ == "</li>"@,
            start + header_items(headers) == response@ + header_items(headers.skip(i - 1)),
        decreases lines.len() - i,
    {
        let ghost rest = headers.skip(i - 1);
        assert(rest[0] == lines@[i as int]@);
        assert(rest.drop_first() == headers.skip(i as int));
        push_chars(&mut response, &open_item);
        push_chars(&mut response, &lines[i]);
        push_chars(&mut response, &close_item);
        i = i + 1;
    }
    assert(headers.skip(i - 1).len() == 0);
    response.append("</ul></body></html>");
    response
}

/// The value of the hexadecimal digit `b`, if it is one.
pub open spec fn hex_value(b: u8) -> Option<int> {
    if 48 <= b <= 57 {
        Some(b - 48)
    } else if 65 <= b <= 70 {
        Some(b - 55)
    } else if 97 <= b <= 102 {
        Some(b - 87)
    } else {
        None
    }
}

/// Percent-decoding of `s`: each `%` followed by two hexadecimal digits
/// stands for the byte they spell; every other byte, `+` included, stands
/// for itself.
pub open spec fn spec_percent_decode(s: Seq<u8>) -> Seq<u8>
    decreases s.len(),
{
    if s.len() == 0 {
        seq![]
    } else if s[0] == 37 && s.len() >= 3 && hex_value(s[1]) is Some && hex_value(s[2]) is Some {
        seq![(hex_value(s[1]).unwrap() * 16 + hex_value(s[2]).unwrap()) as u8]
            + spec_percent_decode(s.skip(3))
    } else {
        seq![s[0]] + spec_percent_decode(s.drop_first())
    }
}

/// The percent-decoded text of `data`, or `None` where the decoded bytes
/// are not UTF-8.
///
/// Calls `urlencoding::decode`, whose source decodes each `%` with two
/// hexadecimal digits, keeps every other byte (and `+`) as it is, and reads
/// the result as UTF-8, failing where it is not.
#[verifier::external_body]
fn url_decode(data: &str) -> (r: Option<String>)
    ensures
        r is Some <==> vstd::utf8::valid_utf8(
            spec_percent_decode(vstd::utf8::encode_utf8(data@)),
        ),
        r matches Some(d) ==> d@ == vstd::utf8::decode_utf8(
            spec_percent_decode(vstd::utf8::encode_utf8(data@)),
        ),
{
    match urlencoding::decode(data) {
        Ok(decoded) => Some(decoded.into_owned()),
        Err(_) => None,
    }
}

/// `s` with every `+` replaced by a space.
pub open spec fn plus_to_space(s: Seq<char>) -> Seq<char> {
    s.map_values(|c: char|
        if c == '+' {
            ' '
        } else {
            c
        })
}

/// Where the code of a request ends: at the first `" HTTP/"`, else at the
/// first line break, else at the end.
pub open spec fn code_end(url: Seq<char>) -> int {
    match spec_find(url, " HTTP/"@) {
        Some(e) => e,
        None => match spec_find(url, "\n"@) {
            Some(e) => e,
            None => url.len() as int,
        },
    }
}

/// The error text for a request without code.
pub open spec fn missing_code_error() -> Seq<char> {
    "Request did not contain the code attribute"@
}

/// What reading the code out of `url` gives: the text between `code=` and
/// the end of the code, percent-decoded, with `+` read as a space; or the
/// error for a request without `code=`. `None` where the server aborts: the
/// end lies before the start, or the decoded bytes are not UTF-8.
pub open spec fn spec_parse_url(url: Seq<char>) -> Option<Result<Seq<char>, Seq<char>>> {
    match spec_find(url, "code="@) {
        None => Some(Err(missing_code_error())),
        Some(p) => {
            let start = p + 5;
            let end = code_end(url);
            if start > end {
                None
            } else {
                let bytes = spec_percent_decode(
                    vstd::utf8::encode_utf8(url.subrange(start, end)),
                );
                if vstd::utf8::valid_utf8(bytes) {
                    Some(Ok(plus_to_space(vstd::utf8::decode_utf8(bytes))))
                } else {
                    None
                }
            }
        },
    }
}

/// The code read out of a request never holds a `+`: one that stood for a
/// space and one that was percent-encoded both become spaces.
pub proof fn lemma_parsed_code_has_no_plus(url: Seq<char>)
    ensures
        spec_parse_url(url) matches Some(Ok(code)) ==> !code.contains('+'),
{
    if let Some(Ok(code)) = spec_parse_url(url) {
        if code.contains('+') {
            let i = choose|i: int| 0 <= i < code.len() && code[i] == '+';
            assert(false);
        }
    }
}

/// The UTF-8 bytes of a character other than `%` hold no `%` byte.
proof fn lemma_scalar_bytes_no_percent(c: char)
    requires
        c != '%',
    ensures
        !vstd::utf8::encode_scalar(c as u32).contains(37u8),
{
    let v = c as u32;
    let e = vstd::utf8::encode_scalar(v);
    assert forall|i: int| 0 <= i < e.len() implies e[i] != 37u8 by {
        if vstd::utf8::has_width_1_encoding(v) {
            assert(v <= 0x7f ==> (v & 0x7f) as u8 == v) by (bit_vector);
            assert(v != 37);
        } else {
            assert((0xC0u8 | ((v >> 6) & 0x1F) as u8) != 37u8) by (bit_vector);
            assert((0xE0u8 | ((v >> 12) & 0x0F) as u8) != 37u8) by (bit_vector);
            assert((0xF0u8 | ((v >> 18) & 0x7) as u8) != 37u8) by (bit_vector);
            assert((0x80u8 | (v & 0x3F) as u8) != 37u8) by (bit_vector);
            assert((0x80u8 | ((v >> 6) & 0x3F) as u8) != 37u8) by (bit_vector);
            assert((0x80u8 | ((v >> 12) & 0x3F) as u8) != 37u8) by (bit_vector);
        }
    }
}

/// The UTF-8 bytes of a text without `%` hold no `%` byte.
proof fn lemma_text_bytes_no_percent(t: Seq<char>)
    requires
        !t.contains('%'),
    ensures
        !vstd::utf8::encode_utf8(t).contains(37u8),
    decreases t.len(),
{
    if t.len() > 0 {
        assert(t[0] != '%') by {
            if t[0] == '%' {
                assert(t.contains('%'));
            }
        }
        lemma_scalar_bytes_no_percent(t[0]);
        let rest = t.drop_first();
        assert(!rest.contains('%')) by {
            if rest.contains('%') {
                let k = choose|k: int| 0 <= k < rest.len() && rest[k] == '%';
                assert(t[k + 1] == '%');
            }
        }
        lemma_text_bytes_no_percent(rest);
        let a = vstd::utf8::encode_scalar(t[0] as u32);
        let b = vstd::utf8::encode_utf8(rest);
        assert(vstd::utf8::encode_utf8(t) == a + b);
        if (a + b).contains(37u8) {
            let k = choose|k: int| 0 <= k < (a + b).len() && (a + b)[k] == 37u8;
            if k < a.len() {
                assert(a[k] == 37u8);
            } else {
                assert(b[k - a.len()] == 37u8);
            }
        }
    }
}

/// Percent-decoding bytes without `%` leaves them as they are.
proof fn lemma_percent_decode_plain(s: Seq<u8>)
    requires
        !s.contains(37u8),
    ensures
        spec_percent_decode(s) == s,
    decreases s.len(),
{
    if s.len() > 0 {
        assert(s[0] != 37u8) by {
            if s[0] == 37u8 {
                assert(s.contains(37u8));
            }
        }
        let rest = s.drop_first();
        assert(!rest.contains(37u8)) by {
            if rest.contains(37u8) {
                let k = choose|k: int| 0 <= k < rest.len() && rest[k] == 37u8;
                assert(s[k + 1] == 37u8);
            }
        }
        lemma_percent_decode_plain(rest);
        assert(seq![s[0]] + rest == s);
    }
}

/// The code is read as it stands: where the text between `code=` (found at
/// `p`) and the end of the code (`e`: the first `" HTTP/"`, else the first
/// line break, else the end of the request) holds no `%`, the code has that
/// text's length and its characters, each `+` read as a space and nothing
/// else changed; where the text holds no `+` either, the code is that text.
pub proof fn lemma_plain_code_read_as_is(url: Seq<char>, p: int, e: int)
    requires
        spec_find(url, "code="@) == Some(p),
        e == match spec_find(url, " HTTP/"@) {
            Some(x) => x,
            None => match spec_find(url, "\n"@) {
                Some(y) => y,
                None => url.len() as int,
            },
        },
        p + 5 <= e,
        !url.subrange(p + 5, e).contains('%'),
    ensures
        spec_parse_url(url) matches Some(Ok(code)) && code.len() == e - (p + 5) && (forall|i: int|
            0 <= i < code.len() ==> #[trigger] code[i] == (if url[p + 5 + i] == '+' {
                ' '
            } else {
                url[p + 5 + i]
            })) && (!url.subrange(p + 5, e).contains('+') ==> code == url.subrange(p + 5, e)),
{
    let t = url.subrange(p + 5, e);
    let bytes = vstd::utf8::encode_utf8(t);
    lemma_text_bytes_no_percent(t);
    lemma_percent_decode_plain(bytes);
    vstd::utf8::encode_utf8_valid_utf8(t);
    vstd::utf8::encode_utf8_decode_utf8(t);
    crate::text::lemma_find_from_in_bounds(url, " HTTP/"@, 0);
    crate::text::lemma_find_from_in_bounds(url, "\n"@, 0);
    crate::text::lemma_find_from_in_bounds(url, "code="@, 0);
    let code = plus_to_space(t);
    assert(spec_parse_url(url) == Some(Ok::<Seq<char>, Seq<char>>(code)));
    assert(e <= url.len());
    assert(t.len() == e - (p + 5));
    assert forall|i: int| 0 <= i < code.len() implies #[trigger] code[i] == (if url[p + 5 + i]
        == '+' {
        ' '
    } else {
        url[p + 5 + i]
    }) by {
        assert(t[i] == url[p + 5 + i]);
    }
    if !t.contains('+') {
        assert forall|i: int| 0 <= i < t.len() implies code[i] == t[i] by {
            if t[i] == '+' {
                assert(t.contains('+'));
            }
        }
        assert(code =~= t);
    }
}

/// `v` with every `+` replaced by a space.
fn replace_plus(v: &Vec<char>) -> (r: Vec<char>)
    ensures
        r@ == plus_to_space(v@),
{
    let mut r: Vec<char> = Vec::new();
    for i in 0..v.len()
        invariant
            r@ == plus_to_space(v@.take(i as int)),
    {
        let c = if v[i] == '+' {
            ' '
        } else {
            v[i]
        };
        r.push(c);
        assert(plus_to_space(v@.take(i + 1)) == plus_to_space(v@.take(i as int)).push(c));
    }
    assert(v@.take(v.len() as int) == v@);
    r
}

/// Reads the code out of a request; `None` where the server aborts (see
/// `spec_parse_url`).
pub fn parse_url_checked(url: &str) -> (r: Option<Result<String, String>>)
    ensures
        match (r, spec_parse_url(url@)) {
            (None, None) => true,
            (Some(Ok(c)), Some(Ok(s))) => c@ == s,
            (Some(Err(e)), Some(Err(s))) => e@ == s,
            _ => false,
        },
{
    let text = chars_of(url);
    let key = chars_of("code=");
    proof {
        reveal_strlit("code=");
    }
    match find(&text, &key) {
        None => Some(Err(String::from_str("Request did not contain the code attribute"))),
        Some(p) => {
            proof {
                crate::text::lemma_find_from_in_bounds(text@, key@, 0);
                assert(key@.len() == 5);
            }
            let n = text.len();
            let start = p + 5;
            let end = match find(&text, &chars_of(" HTTP/")) {
                Some(e) => e,
                None => match find(&text, &chars_of("\n")) {
                    Some(e) => e,
                    None => n,
                },
            };
            proof {
                crate::text::lemma_find_from_in_bounds(text@, " HTTP/"@, 0);
                crate::text::lemma_find_from_in_bounds(text@, "\n"@, 0);
            }
            if start > end {
                return None;
            }
            let code = string_of(&subvec(&text, start, end));
            match url_decode(code.as_str()) {
                None => None,
                Some(decoded) => Some(Ok(string_of(&replace_plus(&chars_of(decoded.as_str()))))),
            }
        },
    }
}

/// Reads the code out of a request: `Ok` with the decoded code, or `Err`
/// with the error text where the request has no `code=`. Requests on which
/// the server aborts are not admitted (see `parse_url_checked`).
pub fn parse_url(url: &str) -> (r: Result<String, String>)
    requires
        spec_parse_url(url@) is Some,
    ensures
        match (r, spec_parse_url(url@)) {
            (Ok(c), Some(Ok(s))) => c@ == s,
            (Err(e), Some(Err(s))) => e@ == s,
            _ => false,
        },
{
    match parse_url_checked(url) {
        Some(r) => r,
        None => {
            assert(false);
            Err(String::new())
        },
    }
}

/// The text that `{:?}` writes for the string `s`: `s` in double quotes,
/// with special characters escaped.
pub uninterp spec fn debug_text_of(s: Seq<char>) -> Seq<char>;

/// The text that `{:?}` writes for `s`.
///
/// Calls the standard library's `Debug` formatting of `str`. The contract
/// names the result `debug_text_of(s@)`; how characters are escaped is not
/// described.
#[verifier::external_body]
fn debug_text(s: &str) -> (r: String)
    ensures
        r@ == debug_text_of(s@),
{
    format!("{:?}", s)
}

/// The report shown for a request that could not be read.
pub open spec fn spec_parse_error_report(error: Seq<char>) -> Seq<char> {
    "There was an error parsing your request "@ + debug_text_of(error)
}

/// The report shown for a request that could not be read, given the error
/// text already written with `{:?}`.
pub fn report_from_debug_text(escaped_error: &str) -> (r: String)
    ensures
        r@ == "There was an error parsing your request "@ + escaped_error@,
{
    let mut r = String::from_str("There was an error parsing your request ");
    r.append(escaped_error);
    r
}

/// The report shown for a request that could not be read, with the error
/// text `error`.
pub fn parse_error_report(error: &str) -> (r: String)
    ensures
        r@ == spec_parse_error_report(error@),
{
    report_from_debug_text(debug_text(error).as_str())
}

/// The shell command that compiles and runs `code`: it writes the code to
/// `main.rs` with `printf`, compiles it and runs the program.
pub open spec fn spec_shell_command(code: Seq<char>) -> Seq<char> {
    "printf "@ + debug_text_of(code) + " > main.rs && rustc main.rs && ./main"@
}

/// The shell command that compiles and runs a program, given its code
/// already written with `{:?}` (a quoted, escaped string for `printf`).
pub fn command_from_debug_text(escaped_code: &str) -> (r: String)
    ensures
        r@ == "printf "@ + escaped_code@ + " > main.rs && rustc main.rs && ./main"@,
{
    let mut r = String::from_str("printf ");
    r.append(escaped_code);
    r.append(" > main.rs && rustc main.rs && ./main");
    r
}

/// The shell command that compiles and runs `code`.
pub fn shell_command(code: &str) -> (r: String)
    ensures
        r@ == spec_shell_command(code@),
{
    command_from_debug_text(debug_text(code).as_str())
}

/// What the code server does with a request read into `buffer`: `Ok` with
/// the code to run, or `Err` with the report to show where the request has
/// no code. `None` where the server aborts (see `spec_parse_url`).
pub fn request_code(buffer: &[u8]) -> (r: Option<Result<String, String>>)
    ensures
        match (r, spec_parse_url(latin1(buffer@))) {
            (None, None) => true,
            (Some(Ok(c)), Some(Ok(s))) => c@ == s,
            (Some(Err(e)), Some(Err(s))) => e@ == spec_parse_error_report(s),
            _ => false,
        },
{
    let url = string_of(&latin1_chars(buffer));
    match parse_url_checked(url.as_str()) {
        None => None,
        Some(Ok(code)) => Some(Ok(code)),
        Some(Err(e)) => Some(Err(parse_error_report(e.as_str()))),
    }
}

/// What a run of the code printed: its error output where there is any,
/// else its standard output, each byte read as a character.
pub open spec fn spec_run_output(stdout: Seq<u8>, stderr: Seq<u8>) -> Seq<char> {
    if stderr.len() > 0 {
        latin1(stderr)
    } else {
        latin1(stdout)
    }
}

/// What a run of the code printed, as the page shows it.
pub fn run_output(stdout: &[u8], stderr: &[u8]) -> (r: String)
    ensures
        r@ == spec_run_output(stdout@, stderr@),
{
    if stderr.len() > 0 {
        string_of(&latin1_chars(stderr))
    } else {
        string_of(&latin1_chars(stdout))
    }
}

/// The code page: the index page followed by `result` in a `<pre>` block.
pub open spec fn spec_code_page(index_html: Seq<char>, result: Seq<char>) -> Seq<char> {
    page_head() + index_html + "<pre>"@ + result + "</pre></body></html>"@
}

/// The code page for the index page `index_html` and the text `result`.
pub fn code_page(index_html: &str, result: &str) -> (r: String)
    ensures
        r@ == spec_code_page(index_html@, result@),
{
    let mut page = String::from_str("HTTP/1.1 200 OK\nContent-Type: text/html; charset=utf-8\n\n");
    page.append(index_html);
    page.append("<pre>");
    page.append(result);
    page.append("</pre></body></html>");
    page
}

} // verus!
