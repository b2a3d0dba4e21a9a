use ht::error::Error;
use ht::headers::{name_lt, HeaderSet};
use ht::opt::{get_options, validate_print, validate_url, Method};
use ht::theme::{default_theme, empty_theme, Color, Slot, Style};

#[test]
fn print_selection_is_one_to_four_letters() {
    for ok in ["B", "H", "b", "h", "Hh", "hb", "BHbh", "bbbb", "hhBB"] {
        assert_eq!(validate_print(ok), Ok(()));
    }
    for bad in ["", "x", "BHbhB", "bh ", "b\n", "Bx", "hbé", "bhbhb", " b"] {
        assert_eq!(validate_print(bad), Err("valid values are: BHbh".to_string()));
    }
}

#[test]
fn url_is_judged_by_the_parser() {
    assert_eq!(validate_url("http://example.com/a?b=c"), Ok(()));
    assert_eq!(
        validate_url("example.com"),
        Err("relative URL without a base".to_string())
    );
    assert_eq!(validate_url("http://"), Err("empty host".to_string()));
}

#[test]
fn options_on_a_terminal() {
    let o = get_options("http://example.com/", None, true).unwrap();
    assert_eq!(o.url, "http://example.com/");
    assert_eq!(o.method, Method::Get);
    assert_eq!(o.theme, default_theme());
    assert!(o.format_bodies);
    assert!(o.display_res_headers);
    assert!(o.display_res_bodies);
    assert!(!o.display_req_headers);
    assert!(!o.display_req_bodies);
}

#[test]
fn options_into_a_pipe() {
    let o = get_options("http://example.com/", None, false).unwrap();
    assert_eq!(o.theme, empty_theme());
    assert!(!o.display_res_headers);
    assert!(o.display_res_bodies);
    assert!(!o.display_req_headers);
    assert!(!o.display_req_bodies);
}

#[test]
fn options_with_a_selection() {
    let o = get_options("http://example.com/", Some("Hh"), false).unwrap();
    assert!(o.display_res_headers);
    assert!(!o.display_res_bodies);
    assert!(o.display_req_headers);
    assert!(!o.display_req_bodies);
    let o = get_options("http://example.com/", Some("Bb"), true).unwrap();
    assert_eq!(o.theme, default_theme());
    assert!(!o.display_res_headers);
    assert!(o.display_res_bodies);
    assert!(!o.display_req_headers);
    assert!(o.display_req_bodies);
}

#[test]
fn options_refuse_bad_arguments() {
    assert_eq!(
        get_options("nonsense", Some("b"), true).err(),
        Some(Error::InvalidUrl("relative URL without a base".to_string()))
    );
    assert_eq!(
        get_options("nonsense", Some("zz"), true).err(),
        Some(Error::InvalidUrl("relative URL without a base".to_string()))
    );
    assert_eq!(
        get_options("http://example.com/", Some("zz"), true).err(),
        Some(Error::InvalidPrint)
    );
    assert_eq!(Error::InvalidPrint.message(), "valid values are: BHbh");
    assert_eq!(Error::InvalidUrl("why".to_string()).message(), "why");
    assert_eq!(Error::BodyNotJson("what".to_string()).message(), "what");
}

#[test]
fn themes_resolve_every_slot() {
    let d = default_theme();
    assert_eq!(d.resolve(Slot::StatusInfo), Color::Cyan.normal());
    assert_eq!(d.resolve(Slot::StatusSuccess), Color::Green.normal());
    assert_eq!(d.resolve(Slot::StatusError), Color::Red.normal());
    assert_eq!(d.resolve(Slot::StatusMessage), Color::Black.bold());
    assert_eq!(d.resolve(Slot::HeaderName), Color::Black.bold());
    assert_eq!(d.resolve(Slot::HeaderValue), Color::Cyan.normal());
    assert_eq!(d.resolve(Slot::Key), Color::Blue.normal());
    assert_eq!(d.resolve(Slot::BoolValue), Color::Red.normal());
    assert_eq!(d.resolve(Slot::NullValue), Color::Black.bold());
    assert_eq!(d.resolve(Slot::NumberValue), Color::Purple.normal());
    assert_eq!(d.resolve(Slot::StringValue), Color::Cyan.normal());
    let e = empty_theme();
    let slots = [
        Slot::StatusInfo,
        Slot::StatusSuccess,
        Slot::StatusError,
        Slot::StatusMessage,
        Slot::HeaderName,
        Slot::HeaderValue,
        Slot::Key,
        Slot::BoolValue,
        Slot::NullValue,
        Slot::NumberValue,
        Slot::StringValue,
    ];
    for slot in slots {
        assert_eq!(e.resolve(slot), Style::default());
    }
    assert_eq!(Style::default(), Style { foreground: None, is_bold: false });
    assert_eq!(
        Color::Red.bold(),
        Style { foreground: Some(Color::Red), is_bold: true }
    );
}

#[test]
fn names_are_ordered_as_strings() {
    let names = ["", "A", "B", "a", "ab", "b", "x-bar", "x-foo", "é", "日本"];
    for (i, a) in names.iter().enumerate() {
        for (j, b) in names.iter().enumerate() {
            assert_eq!(name_lt(a, b), i < j);
            assert_eq!(name_lt(a, b), a < b);
        }
    }
}

#[test]
fn header_set_keeps_names_sorted_and_unique() {
    let mut set = HeaderSet::new();
    assert_eq!(set.len(), 0);
    set.insert("m".to_string(), "1".to_string());
    set.insert("z".to_string(), "2".to_string());
    set.insert("a".to_string(), "3".to_string());
    set.insert("m".to_string(), "4".to_string());
    assert_eq!(set.len(), 3);
    let rows = set.rows();
    assert_eq!(
        rows,
        &vec![
            ("a".to_string(), "3".to_string()),
            ("m".to_string(), "4".to_string()),
            ("z".to_string(), "2".to_string()),
        ]
    );
    let filled = HeaderSet::from_pairs(&vec![
        ("z".to_string(), "2".to_string()),
        ("m".to_string(), "1".to_string()),
        ("a".to_string(), "3".to_string()),
        ("m".to_string(), "4".to_string()),
    ]);
    assert_eq!(filled.rows(), set.rows());
}
