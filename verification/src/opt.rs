//! The options of a run, from the arguments of the command line.

use vstd::prelude::*;
use vstd::string::*;

use crate::error::Error;
use crate::theme::{default_theme, empty_theme, spec_default_theme, spec_empty_theme, Theme};

verus! {

/// The method of a request.
#[derive(Clone, Copy, Debug, PartialEq, Eq)]
pub enum Method {
    Get,
}

/// What a run requests and displays.
#[derive(Debug)]
pub struct Options {
    pub theme: Theme,
    pub url: String,
    pub method: Method,
    pub format_bodies: bool,
    pub display_res_headers: bool,
    pub display_res_bodies: bool,
    pub display_req_headers: bool,
    pub display_req_bodies: bool,
}

/// The message with which `reqwest::Url::parse` refuses a text, where it
/// does.
pub uninterp spec fn url_parse_error(val: Seq<char>) -> Option<Seq<char>>;

/// Whether `c` selects a part to display.
pub open spec fn is_print_letter(c: char) -> bool {
    c == 'B' || c == 'H' || c == 'b' || c == 'h'
}

/// Whether `val` selects parts to display: one to four of the letters `B`,
/// `H`, `b` and `h`.
pub open spec fn is_print_selection(val: Seq<char>) -> bool {
    1 <= val.len() <= 4 && forall|i: int| 0 <= i < val.len() ==> is_print_letter(#[trigger] val[i])
}

/// The options for the given URL, selection of parts and kind of output.
/// The output of an interactive terminal gets the colour-bearing theme and,
/// unless parts are selected, the response headers beside the body.
pub open spec fn options_for(url: Seq<char>, print: Option<Seq<char>>, out_is_tty: bool) -> (
    Theme,
    bool,
    bool,
    bool,
    bool,
) {
    (
        if out_is_tty {
            spec_default_theme()
        } else {
            spec_empty_theme()
        },
        match print {
            Some(p) => p.contains('h'),
            None => out_is_tty,
        },
        match print {
            Some(p) => p.contains('b'),
            None => true,
        },
        match print {
            Some(p) => p.contains('H'),
            None => false,
        },
        match print {
            Some(p) => p.contains('B'),
            None => false,
        },
    )
}

/// Parses `val` as a URL and hands back the message of the refusal.
///
/// Trusted: `reqwest::Url::parse`, and the `Display` of the error that it
/// gives. The contract names the outcome and claims no more than that it is
/// a function of the text.
#[verifier::external_body]
fn url_refusal(val: &str) -> (r: Option<String>)
    ensures
        match r {
            Some(m) => url_parse_error(val@) == Some(m@),
            None => url_parse_error(val@) is None,
        },
{
    match reqwest::Url::parse(val) {
        Ok(_) => None,
        Err(e) => Some(e.to_string()),
    }
}

/// Accepts a selection of parts to display.
pub fn validate_print(val: &str) -> (r: Result<(), String>)
    ensures
        r is Ok <==> is_print_selection(val@),
        r matches Err(m) ==> m@ == crate::error::invalid_print_message(),
{
    let n = val.unicode_len();
    let mut ok = 1 <= n && n <= 4;
    let mut i: usize = 0;
    while ok && i < n
        invariant
            i <= n,
            n == val@.len(),
            ok ==> 1 <= n <= 4,
            ok ==> forall|j: int| 0 <= j < i ==> is_print_letter(#[trigger] val@[j]),
            !ok ==> !is_print_selection(val@),
        decreases (if ok { 1int } else { 0int }), n - i,
    {
        let c = val.get_char(i);
        if c == 'B' || c == 'H' || c == 'b' || c == 'h' {
            i = i + 1;
        } else {
            ok = false;
        }
    }
    if ok {
        Ok(())
    } else {
        Err(Error::InvalidPrint.message())
    }
}

/// Accepts a URL: a text that parses as one.
pub fn validate_url(val: &str) -> (r: Result<(), String>)
    ensures
        match r {
            Ok(_) => url_parse_error(val@) is None,
            Err(m) => url_parse_error(val@) == Some(m@),
        },
{
    match url_refusal(val) {
        None => Ok(()),
        Some(e) => Err(e),
    }
}

/// Whether `val` holds the character `c`.
fn has_char(val: &str, c: char) -> (r: bool)
    ensures
        r == val@.contains(c),
{
    let n = val.unicode_len();
    let mut i: usize = 0;
    while i < n
        invariant
            i <= n,
            n == val@.len(),
            forall|j: int| 0 <= j < i ==> val@[j] != c,
        decreases n - i,
    {
        if val.get_char(i) == c {
            return true;
        }
        i = i + 1;
    }
    false
}

/// The options of a run: for a URL that parses and, where parts are
/// selected, a selection that is valid. The URL is judged first.
pub fn get_options(url: &str, print: Option<&str>, out_is_tty: bool) -> (r: Result<Options, Error>)
    ensures
        match r {
            Ok(o) => {
                &&& url_parse_error(url@) is None
                &&& print matches Some(p) ==> is_print_selection(p@)
                &&& o.url@ == url@
                &&& o.method == Method::Get
                &&& o.format_bodies
                &&& (
                    o.theme,
                    o.display_res_headers,
                    o.display_res_bodies,
                    o.display_req_headers,
                    o.display_req_bodies,
                ) == options_for(
                    url@,
                    match print {
                        Some(p) => Some(p@),
                        None => None,
                    },
                    out_is_tty,
                )
            },
            Err(Error::InvalidUrl(m)) => url_parse_error(url@) == Some(m@),
            Err(Error::InvalidPrint) => url_parse_error(url@) is None && (print matches Some(p)
                && !is_print_selection(p@)),
            Err(Error::BodyNotJson(_)) => false,
        },
{
    match validate_url(url) {
        Err(m) => {
            return Err(Error::InvalidUrl(m));
        },
        Ok(_) => {},
    }
    let t = if out_is_tty {
        default_theme()
    } else {
        empty_theme()
    };
    let mut display_req_bodies = false;
    let mut display_req_headers = false;
    let mut display_res_bodies = true;
    let mut display_res_headers = out_is_tty;
    match print {
        Some(p) => {
            match validate_print(p) {
                Err(_) => {
                    return Err(Error::InvalidPrint);
                },
                Ok(_) => {},
            }
            display_req_bodies = has_char(p, 'B');
            display_req_headers = has_char(p, 'H');
            display_res_bodies = has_char(p, 'b');
            display_res_headers = has_char(p, 'h');
        },
        None => {},
    }
    Ok(
        Options {
            url: String::from_str(url),
            method: Method::Get,
            theme: t,
            format_bodies: true,
            display_res_headers,
            display_res_bodies,
            display_req_headers,
            display_req_bodies,
        },
    )
}

} // verus!
