use tasks_rust::http::{
    code_page, headers_page, parse_error_report, parse_url, parse_url_checked, request_code,
    run_output, shell_command,
};

#[test]
fn lists_headers() {
    let mut buf = [0u8; 200];
    let req = b"GET / HTTP/1.1\nHost: a\nAccept: */*\n";
    buf[..req.len()].copy_from_slice(req);
    let padding = "\0".repeat(200 - req.len());
    assert_eq!(
        headers_page(&buf),
        format!("HTTP/1.1 200 OK\nContent-Type: text/html; charset=utf-8\n\n<html><body><h1>Welcome to this site!</h1><p>Headers:</p><ul><li>Host: a</li><li>Accept: */*</li><li>{}</li></ul></body></html>", padding)
    );
}

#[test]
fn page_without_headers() {
    let buf = [0u8; 200];
    assert_eq!(
        headers_page(&buf),
        "HTTP/1.1 200 OK\nContent-Type: text/html; charset=utf-8\n\n<html><body><h1>Welcome to this site!</h1><p>Headers:</p><ul></ul></body></html>"
    );
}

#[test]
fn reads_code() {
    assert_eq!(
        parse_url("GET /?code=fn+main%28%29%7B%7D HTTP/1.1\nHost: x"),
        Ok("fn main(){}".to_string())
    );
    assert_eq!(parse_url("GET /?code=a%2Bb\n"), Ok("a b".to_string()));
    assert_eq!(parse_url("code=%zz%4"), Ok("%zz%4".to_string()));
    assert_eq!(parse_url("code=%C3%A9"), Ok("é".to_string()));
}

#[test]
fn missing_code() {
    assert_eq!(
        parse_url("GET / HTTP/1.1"),
        Err("Request did not contain the code attribute".to_string())
    );
}

#[test]
fn url_reading_aborts_where_the_server_panics() {
    assert_eq!(parse_url_checked("GET / HTTP/1.1\ncode=1"), None);
    assert_eq!(parse_url_checked("code=%FF"), None);
}

#[test]
fn request_buffers() {
    let mut buf = [0u8; 200];
    let req = b"GET /?code=x HTTP/1.1";
    buf[..req.len()].copy_from_slice(req);
    assert_eq!(request_code(&buf), Some(Ok("x".to_string())));
    let empty = [0u8; 200];
    assert_eq!(
        request_code(&empty),
        Some(Err("There was an error parsing your request \"Request did not contain the code attribute\"".to_string()))
    );
}

#[test]
fn reports_and_commands() {
    assert_eq!(parse_error_report("a\"b"), "There was an error parsing your request \"a\\\"b\"");
    assert_eq!(
        shell_command("println!(\"hi\")"),
        "printf \"println!(\\\"hi\\\")\" > main.rs && rustc main.rs && ./main"
    );
}

#[test]
fn run_outputs() {
    assert_eq!(run_output(b"out", b""), "out");
    assert_eq!(run_output(b"out", b"err"), "err");
}

#[test]
fn code_pages() {
    assert_eq!(
        code_page("<html><body>", "42"),
        "HTTP/1.1 200 OK\nContent-Type: text/html; charset=utf-8\n\n<html><body><pre>42</pre></body></html>"
    );
}

#[test]
fn reports_and_commands_from_escaped_text() {
    assert_eq!(
        tasks_rust::http::report_from_debug_text("\"x\""),
        "There was an error parsing your request \"x\""
    );
    assert_eq!(
        tasks_rust::http::command_from_debug_text("\"a\\nb\""),
        "printf \"a\\nb\" > main.rs && rustc main.rs && ./main"
    );
}
