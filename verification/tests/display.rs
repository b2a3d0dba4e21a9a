use ht::display::{
    formatted_response, header, json_display, request_path, response_status, select_formatter,
    status_class, unformatted_response, write_document, write_headers, write_status_line,
    Formatter,
};
use ht::error::Error;
use ht::theme::{default_theme, empty_theme, Color, Slot, Style, Theme};
use ht::value::JsonValue;

fn test_theme() -> Theme {
    Theme {
        header_name: Color::RGB(0, 0, 0).normal(),
        header_value: Color::RGB(0, 0, 1).normal(),
        bool_value: Color::RGB(0, 1, 0).normal(),
        key: Color::RGB(0, 1, 1).normal(),
        null_value: Color::RGB(0, 1, 2).normal(),
        number_value: Color::RGB(0, 1, 3).normal(),
        string_value: Color::RGB(0, 1, 4).normal(),
        status_error: Color::RGB(0, 2, 0).normal(),
        status_info: Color::RGB(0, 2, 1).normal(),
        status_message: Color::RGB(0, 2, 3).normal(),
        status_success: Color::RGB(0, 2, 4).normal(),
    }
}

fn text(buf: Vec<u8>) -> String {
    String::from_utf8(buf).unwrap()
}

fn pair(name: &str, value: &str) -> (String, String) {
    (name.to_string(), value.to_string())
}

fn sample() -> JsonValue {
    JsonValue::Object(vec![
        ("b".to_string(), JsonValue::Number("1".to_string())),
        (
            "a".to_string(),
            JsonValue::Array(vec![JsonValue::Bool(true), JsonValue::Null]),
        ),
    ])
}

#[test]
fn test_status_ok_empty() {
    let mut buf: Vec<u8> = vec![];
    response_status(&mut buf, reqwest::StatusCode::OK.as_u16(), &empty_theme());
    assert_eq!(String::from_utf8(buf).unwrap(), "200 OK\n");
}

#[test]
fn test_status_ok_color() {
    let mut buf: Vec<u8> = vec![];
    response_status(&mut buf, reqwest::StatusCode::OK.as_u16(), &test_theme());
    assert_eq!(
        String::from_utf8(buf).unwrap(),
        "\u{1b}[38;2;0;2;4m200\u{1b}[0m \u{1b}[38;2;0;2;3mOK\u{1b}[0m\n"
    );
}

#[test]
fn test_status_400_color() {
    let mut buf: Vec<u8> = vec![];
    response_status(&mut buf, reqwest::StatusCode::BAD_REQUEST.as_u16(), &test_theme());
    assert_eq!(
        String::from_utf8(buf).unwrap(),
        "\u{1b}[38;2;0;2;0m400\u{1b}[0m \u{1b}[38;2;0;2;3mBad Request\u{1b}[0m\n"
    );
}

#[test]
fn test_status_100_color() {
    let mut buf: Vec<u8> = vec![];
    response_status(&mut buf, reqwest::StatusCode::CONTINUE.as_u16(), &test_theme());
    assert_eq!(
        String::from_utf8(buf).unwrap(),
        "\u{1b}[38;2;0;2;1m100\u{1b}[0m \u{1b}[38;2;0;2;3mContinue\u{1b}[0m\n"
    );
}

#[test]
fn test_write_empty_header() {
    let mut buf: Vec<u8> = vec![];
    let headers = reqwest::header::HeaderMap::new();
    header(&mut buf, &headers, &empty_theme());
    assert_eq!(&buf, b"\n");
}

#[test]
fn test_write_ordered_headers() {
    let mut buf: Vec<u8> = vec![];
    let mut headers = reqwest::header::HeaderMap::new();
    headers.insert("x-foo", reqwest::header::HeaderValue::from_static("bar"));
    headers.insert("x-bar", reqwest::header::HeaderValue::from_static("foo"));
    header(&mut buf, &headers, &empty_theme());
    assert_eq!(
        String::from_utf8(buf).unwrap(),
        "x-bar: foo\nx-foo: bar\n\n"
    );
}

#[test]
fn test_write_colorized_header() {
    let mut buf: Vec<u8> = vec![];
    let mut headers = reqwest::header::HeaderMap::new();
    headers.insert("x-foo", reqwest::header::HeaderValue::from_static("bar"));
    header(&mut buf, &headers, &test_theme());
    assert_eq!(
        String::from_utf8(buf).unwrap(),
        "\u{1b}[38;2;0;0;0mx-foo\u{1b}[0m\u{1b}[38;2;0;0;0m:\u{1b}[0m \u{1b}[38;2;0;0;1mbar\u{1b}[0m\n\n"
    );
}

#[test]
fn status_not_found_plain() {
    let mut buf: Vec<u8> = vec![];
    response_status(&mut buf, 404, &empty_theme());
    assert_eq!(text(buf), "404 Not Found\n");
    let mut buf: Vec<u8> = vec![];
    write_status_line(&mut buf, 404, "Not Found", &empty_theme());
    assert_eq!(text(buf), "404 Not Found\n");
}

#[test]
fn status_without_reason_has_empty_phrase() {
    let mut buf: Vec<u8> = vec![];
    response_status(&mut buf, 599, &empty_theme());
    assert_eq!(text(buf), "599 \n");
    let mut buf: Vec<u8> = vec![];
    response_status(&mut buf, 42, &empty_theme());
    assert_eq!(text(buf), "42 \n");
    let mut buf: Vec<u8> = vec![];
    response_status(&mut buf, 65535, &test_theme());
    assert_eq!(
        text(buf),
        "\u{1b}[38;2;0;2;0m65535\u{1b}[0m \u{1b}[38;2;0;2;3m\u{1b}[0m\n"
    );
}

#[test]
fn status_appends_to_what_the_sink_holds() {
    let mut buf: Vec<u8> = b"before\n".to_vec();
    response_status(&mut buf, 204, &empty_theme());
    assert_eq!(text(buf), "before\n204 No Content\n");
}

#[test]
fn status_class_follows_the_hundreds() {
    for code in 100u16..=599 {
        let expected = match code / 100 {
            2 => Slot::StatusSuccess,
            1 | 3 => Slot::StatusInfo,
            _ => Slot::StatusError,
        };
        assert_eq!(status_class(code), expected);
    }
    assert_eq!(status_class(99), Slot::StatusError);
    assert_eq!(status_class(0), Slot::StatusError);
    assert_eq!(status_class(600), Slot::StatusError);
    assert_eq!(status_class(199), Slot::StatusInfo);
    assert_eq!(status_class(200), Slot::StatusSuccess);
    assert_eq!(status_class(299), Slot::StatusSuccess);
    assert_eq!(status_class(300), Slot::StatusInfo);
    assert_eq!(status_class(399), Slot::StatusInfo);
    assert_eq!(status_class(400), Slot::StatusError);
}

#[test]
fn status_in_default_colours() {
    let mut buf: Vec<u8> = vec![];
    response_status(&mut buf, 301, &default_theme());
    assert_eq!(
        text(buf),
        "\u{1b}[36m301\u{1b}[0m \u{1b}[1;30mMoved Permanently\u{1b}[0m\n"
    );
    let mut buf: Vec<u8> = vec![];
    response_status(&mut buf, 201, &default_theme());
    assert_eq!(text(buf), "\u{1b}[32m201\u{1b}[0m \u{1b}[1;30mCreated\u{1b}[0m\n");
    let mut buf: Vec<u8> = vec![];
    response_status(&mut buf, 500, &default_theme());
    assert_eq!(
        text(buf),
        "\u{1b}[31m500\u{1b}[0m \u{1b}[1;30mInternal Server Error\u{1b}[0m\n"
    );
}

#[test]
fn styles_of_every_shape() {
    let mut t = empty_theme();
    t.status_success = Color::Fixed(200).bold();
    t.status_message = Style { foreground: None, is_bold: true };
    let mut buf: Vec<u8> = vec![];
    write_status_line(&mut buf, 200, "fine", &t);
    assert_eq!(text(buf), "\u{1b}[1;38;5;200m200\u{1b}[0m \u{1b}[1mfine\u{1b}[0m\n");
    t.status_success = Color::Fixed(7).normal();
    t.status_message = Color::RGB(255, 10, 0).bold();
    let mut buf: Vec<u8> = vec![];
    write_status_line(&mut buf, 200, "", &t);
    assert_eq!(
        text(buf),
        "\u{1b}[38;5;7m200\u{1b}[0m \u{1b}[1;38;2;255;10;0m\u{1b}[0m\n"
    );
    let named = [
        (Color::Black, "30"),
        (Color::Red, "31"),
        (Color::Green, "32"),
        (Color::Yellow, "33"),
        (Color::Blue, "34"),
        (Color::Purple, "35"),
        (Color::Cyan, "36"),
        (Color::White, "37"),
    ];
    for (color, code) in named {
        let mut t = empty_theme();
        t.status_error = color.normal();
        let mut buf: Vec<u8> = vec![];
        write_status_line(&mut buf, 418, "x", &t);
        assert_eq!(text(buf), format!("\u{1b}[{}m418\u{1b}[0m x\n", code));
    }
}

#[test]
fn headers_from_pairs_are_sorted() {
    let mut buf: Vec<u8> = vec![];
    write_headers(&mut buf, &vec![pair("x-foo", "bar"), pair("x-bar", "foo")], &empty_theme());
    assert_eq!(text(buf), "x-bar: foo\nx-foo: bar\n\n");
}

#[test]
fn headers_in_any_order_give_the_same_block() {
    let orders = [
        vec![pair("b", "2"), pair("a", "1"), pair("c", "3")],
        vec![pair("a", "1"), pair("b", "2"), pair("c", "3")],
        vec![pair("c", "3"), pair("b", "2"), pair("a", "1")],
        vec![pair("c", "3"), pair("a", "1"), pair("b", "2"), pair("a", "1")],
    ];
    for pairs in orders.iter() {
        let mut buf: Vec<u8> = vec![];
        write_headers(&mut buf, pairs, &test_theme());
        let mut again: Vec<u8> = vec![];
        write_headers(&mut again, pairs, &test_theme());
        assert_eq!(buf, again);
        let mut plain: Vec<u8> = vec![];
        write_headers(&mut plain, pairs, &empty_theme());
        assert_eq!(text(plain), "a: 1\nb: 2\nc: 3\n\n");
    }
}

#[test]
fn headers_last_value_of_a_name_wins() {
    let mut buf: Vec<u8> = vec![];
    write_headers(
        &mut buf,
        &vec![pair("a", "1"), pair("b", "2"), pair("a", "3")],
        &empty_theme(),
    );
    assert_eq!(text(buf), "a: 3\nb: 2\n\n");
}

#[test]
fn headers_sort_by_bytes_and_keep_case() {
    let mut buf: Vec<u8> = vec![];
    write_headers(
        &mut buf,
        &vec![pair("b", "1"), pair("B", "2"), pair("ab", "3"), pair("a", "4"), pair("é", "5"), pair("", "6")],
        &empty_theme(),
    );
    assert_eq!(text(buf), ": 6\nB: 2\na: 4\nab: 3\nb: 1\né: 5\n\n");
}

#[test]
fn header_map_with_several_values() {
    let mut headers = reqwest::header::HeaderMap::new();
    headers.append("set-cookie", reqwest::header::HeaderValue::from_static("a=1"));
    headers.append("set-cookie", reqwest::header::HeaderValue::from_static("b=2"));
    headers.insert("accept", reqwest::header::HeaderValue::from_static("*/*"));
    let mut buf: Vec<u8> = vec![];
    header(&mut buf, &headers, &empty_theme());
    assert_eq!(text(buf), "accept: */*\nset-cookie: b=2\n\n");
}

#[test]
fn document_of_the_sample() {
    let mut buf: Vec<u8> = vec![];
    write_document(&mut buf, &sample(), &empty_theme());
    assert_eq!(
        text(buf),
        "{\n  \"b\": 1,\n  \"a\": [\n    true,\n    null\n  ]\n}\n\n"
    );
}

#[test]
fn json_body_keeps_the_order_of_its_members() {
    let mut buf: Vec<u8> = vec![];
    let r = json_display(&mut buf, b"{\"b\": 1, \"a\": [true, null]}", &empty_theme());
    assert_eq!(r, Ok(()));
    assert_eq!(
        text(buf),
        "{\n  \"b\": 1,\n  \"a\": [\n    true,\n    null\n  ]\n}\n\n"
    );
}

#[test]
fn json_scalars() {
    let cases: [(&[u8], &str); 8] = [
        (b"null", "null\n\n"),
        (b"true", "true\n\n"),
        (b"false", "false\n\n"),
        (b"12", "12\n\n"),
        (b"-7", "-7\n\n"),
        (b"1.5", "1.5\n\n"),
        (b"\"hi\"", "\"hi\"\n\n"),
        (b"\"\"", "\"\"\n\n"),
    ];
    for (body, expected) in cases {
        let mut buf: Vec<u8> = vec![];
        assert_eq!(json_display(&mut buf, body, &empty_theme()), Ok(()));
        assert_eq!(text(buf), expected);
    }
}

#[test]
fn json_in_colour() {
    let mut buf: Vec<u8> = vec![];
    let r = json_display(
        &mut buf,
        b"{\"k\": [null, false, 3, \"s\"]}",
        &test_theme(),
    );
    assert_eq!(r, Ok(()));
    assert_eq!(
        text(buf),
        "{\n  \u{1b}[38;2;0;1;1m\"k\"\u{1b}[0m: [\n    \u{1b}[38;2;0;1;2mnull\u{1b}[0m,\n    \u{1b}[38;2;0;1;0mfalse\u{1b}[0m,\n    \u{1b}[38;2;0;1;3m3\u{1b}[0m,\n    \"\u{1b}[38;2;0;1;4ms\u{1b}[0m\"\n  ]\n}\n\n"
    );
}

#[test]
fn empty_containers_never_expand() {
    let mut buf: Vec<u8> = vec![];
    assert_eq!(json_display(&mut buf, b"[]", &empty_theme()), Ok(()));
    assert_eq!(text(buf), "[]\n\n");
    let mut buf: Vec<u8> = vec![];
    assert_eq!(json_display(&mut buf, b"{}", &test_theme()), Ok(()));
    assert_eq!(text(buf), "{}\n\n");
    let mut buf: Vec<u8> = vec![];
    assert_eq!(
        json_display(&mut buf, b"[[], {}, {\"a\": {}, \"b\": [[]]}]", &empty_theme()),
        Ok(())
    );
    assert_eq!(
        text(buf),
        "[\n  [],\n  {},\n  {\n    \"a\": {},\n    \"b\": [\n      []\n    ]\n  }\n]\n\n"
    );
}

#[test]
fn indentation_grows_by_two_and_unwinds() {
    let mut v = JsonValue::Number("0".to_string());
    for _ in 0..4 {
        v = JsonValue::Array(vec![v]);
    }
    let mut buf: Vec<u8> = vec![];
    write_document(&mut buf, &v, &empty_theme());
    assert_eq!(
        text(buf),
        "[\n  [\n    [\n      [\n        0\n      ]\n    ]\n  ]\n]\n\n"
    );
    let mut deep = JsonValue::Null;
    for _ in 0..40 {
        deep = JsonValue::Object(vec![("k".to_string(), deep)]);
    }
    let mut buf: Vec<u8> = vec![];
    write_document(&mut buf, &deep, &empty_theme());
    let out = text(buf);
    let lines: Vec<&str> = out.split('\n').collect();
    assert_eq!(lines.len(), 83);
    for depth in 1..40 {
        assert_eq!(lines[depth], format!("{}\"k\": {{", " ".repeat(2 * depth)));
    }
    assert_eq!(lines[40], format!("{}\"k\": null", " ".repeat(80)));
    for depth in 0..40 {
        assert_eq!(lines[80 - depth], format!("{}}}", " ".repeat(2 * depth)));
    }
}

#[test]
fn rendered_text_parses_back() {
    let bodies: [&[u8]; 4] = [
        b"{\"b\": 1, \"a\": [true, null]}",
        b"[1, -2, 3.25, 1e100, \"text\", {\"x\": {\"y\": []}}, []]",
        b"\"plain\"",
        b"{\"z\": {}, \"a\": {\"c\": [null], \"b\": false}}",
    ];
    for body in bodies {
        let mut buf: Vec<u8> = vec![];
        assert_eq!(json_display(&mut buf, body, &empty_theme()), Ok(()));
        let before: serde_json::Value = serde_json::from_slice(body).unwrap();
        let after: serde_json::Value = serde_json::from_slice(&buf).unwrap();
        assert_eq!(before, after);
        let keys = |v: &serde_json::Value| -> Vec<String> {
            match v.as_object() {
                Some(o) => o.keys().cloned().collect(),
                None => vec![],
            }
        };
        assert_eq!(keys(&before), keys(&after));
    }
}

#[test]
fn body_that_is_not_json_is_an_error() {
    let mut buf: Vec<u8> = b"kept".to_vec();
    let r = json_display(&mut buf, b"{\"a\": ", &empty_theme());
    assert!(matches!(r, Err(Error::BodyNotJson(_))));
    assert_eq!(buf, b"kept");
    let r = json_display(&mut buf, b"", &empty_theme());
    match r {
        Err(e) => assert_eq!(e.message(), "EOF while parsing a value at line 1 column 0"),
        Ok(()) => panic!("an empty body is no JSON"),
    }
    assert_eq!(buf, b"kept");
}

#[test]
fn formatter_by_content_type() {
    let json: [&[u8]; 7] = [
        b"application/json",
        b"Application/JSON",
        b"application/json; charset=utf-8",
        b"application/json;charset=utf-8",
        b" application/json\t",
        b"application/json ;",
        b"APPLICATION/JSON;",
    ];
    for ct in json {
        assert_eq!(select_formatter(Some(ct)), Formatter::Json);
    }
    let other: [&[u8]; 9] = [
        b"",
        b"text/html",
        b"application/jsonx",
        b"application/json+ld",
        b"xapplication/json",
        b"application/jso",
        b"application /json",
        b"application/json charset=utf-8",
        b";application/json",
    ];
    for ct in other {
        assert_eq!(select_formatter(Some(ct)), Formatter::Passthrough);
    }
    assert_eq!(select_formatter(None), Formatter::Passthrough);
}

#[test]
fn formatted_response_dispatches() {
    let body = b"[1]";
    let mut buf: Vec<u8> = vec![];
    assert_eq!(
        formatted_response(&mut buf, Some(b"application/json"), body, &empty_theme()),
        Ok(())
    );
    assert_eq!(text(buf), "[\n  1\n]\n\n");
    let mut buf: Vec<u8> = vec![];
    assert_eq!(
        formatted_response(&mut buf, Some(b"text/plain"), body, &empty_theme()),
        Ok(())
    );
    assert_eq!(text(buf), "[1]");
    let mut buf: Vec<u8> = vec![];
    assert_eq!(formatted_response(&mut buf, None, body, &empty_theme()), Ok(()));
    assert_eq!(text(buf), "[1]");
    let mut buf: Vec<u8> = vec![];
    let r = formatted_response(&mut buf, Some(b"application/json"), b"<html>", &empty_theme());
    assert!(matches!(r, Err(Error::BodyNotJson(_))));
    assert!(buf.is_empty());
    let mut buf: Vec<u8> = vec![];
    assert_eq!(
        formatted_response(&mut buf, Some(b"text/html"), b"<html>", &empty_theme()),
        Ok(())
    );
    assert_eq!(text(buf), "<html>");
}

#[test]
fn unformatted_response_copies_bytes() {
    let mut buf: Vec<u8> = vec![1, 2];
    unformatted_response(&mut buf, &[0xff, 0x00, 0x0a], &default_theme());
    assert_eq!(buf, vec![1, 2, 0xff, 0x00, 0x0a]);
}

#[test]
fn request_path_frames_the_text() {
    let mut buf: Vec<u8> = vec![];
    request_path(&mut buf, "Request { method: GET }", &empty_theme());
    assert_eq!(text(buf), "Wee: Request { method: GET }\n");
}

#[test]
fn strings_are_written_raw() {
    let v = JsonValue::Array(vec![
        JsonValue::String("a\"b".to_string()),
        JsonValue::String("caf\u{e9}".to_string()),
    ]);
    let mut buf: Vec<u8> = vec![];
    write_document(&mut buf, &v, &empty_theme());
    assert_eq!(text(buf), "[\n  \"a\"b\",\n  \"caf\u{e9}\"\n]\n\n");
}
