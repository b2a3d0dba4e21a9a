//! The renderers: status line, header block and body.

use vstd::prelude::*;
use vstd::string::*;
use vstd::utf8::*;

use crate::error::Error;
use crate::headers::{header_rows, pairs_view, HeaderSet};
use crate::media::{declares_json, is_json_content_type};
use crate::text::{
    decimal, decimal_string, lemma_encode_concat, lemma_encode_len, put, put_spaces, spaces,
};
use crate::theme::{paint, painted, Slot, Theme};
use crate::value::{
    items_view, lemma_array_view, lemma_object_view, members_view, parse_json, parsed_json, Json,
    Member, JsonValue,
};

verus! {

#[verifier::external_type_specification]
#[verifier::external_body]
#[verifier::reject_recursive_types(T)]
pub struct ExHeaderMap<T>(reqwest::header::HeaderMap<T>);

#[verifier::external_type_specification]
#[verifier::external_body]
pub struct ExHeaderValue(reqwest::header::HeaderValue);

/// What a header map holds: its name/value pairs in the order in which it
/// hands them out, a name once for each of its values, a value as text.
pub uninterp spec fn header_entries(
    headers: reqwest::header::HeaderMap<reqwest::header::HeaderValue>,
) -> Seq<(Seq<char>, Seq<char>)>;

/// The canonical reason phrase of a status code, where the code has one.
pub uninterp spec fn canonical_reason(code: u16) -> Option<Seq<char>>;

/// The reason phrase that is displayed for a status code: the canonical
/// one, or nothing for a code that has none.
pub open spec fn reason_phrase(code: u16) -> Seq<char> {
    match canonical_reason(code) {
        Some(reason) => reason,
        None => Seq::empty(),
    }
}

/// The canonical reason phrase of a status code.
///
/// Trusted: `reqwest::StatusCode::from_u16` and, on the status code that it
/// gives, `canonical_reason`; a number that is no status code has no
/// phrase. The contract names the outcome and claims no more than that it
/// is a function of the code.
#[verifier::external_body]
fn lookup_reason(code: u16) -> (r: Option<&'static str>)
    ensures
        match r {
            Some(reason) => canonical_reason(code) == Some(reason@),
            None => canonical_reason(code) is None,
        },
{
    match reqwest::StatusCode::from_u16(code) {
        Ok(status) => status.canonical_reason(),
        Err(_) => None,
    }
}

/// The name/value pairs of a header map.
///
/// Trusted: `HeaderMap::iter`, each item turned into a pair of strings:
/// the name by `HeaderName::as_str`, the value by `HeaderValue::as_bytes`,
/// read as UTF-8 with a replacement character for what is none. The
/// contract names the outcome and claims no more than that it is a function
/// of the map.
#[verifier::external_body]
fn header_pairs(headers: &reqwest::header::HeaderMap) -> (pairs: Vec<(String, String)>)
    ensures
        pairs_view(pairs@) == header_entries(*headers),
{
    headers.iter().map(
        |(name, value)| {
            (name.as_str().to_string(), String::from_utf8_lossy(value.as_bytes()).into_owned())
        },
    ).collect()
}

/// The kind of token that a status code is displayed as: informational and
/// redirection codes as `StatusInfo`, success codes as `StatusSuccess`, every
/// other code as `StatusError`.
pub open spec fn status_slot(code: u16) -> Slot {
    if 100 <= code < 200 || 300 <= code < 400 {
        Slot::StatusInfo
    } else if 200 <= code < 300 {
        Slot::StatusSuccess
    } else {
        Slot::StatusError
    }
}

/// The status line: the styled code, a space, the styled reason phrase and a
/// newline.
pub open spec fn status_line(code: u16, reason: Seq<char>, t: Theme) -> Seq<char> {
    painted(t.style_of(status_slot(code)), decimal(code as nat)) + seq![' '] + painted(
        t.status_message,
        reason,
    ) + seq!['\n']
}

/// The line of one header: the styled name, a colon in the style of the
/// name, a space, the styled value and a newline.
pub open spec fn header_line(name: Seq<char>, value: Seq<char>, t: Theme) -> Seq<char> {
    painted(t.header_name, name) + painted(t.header_name, seq![':']) + seq![' '] + painted(
        t.header_value,
        value,
    ) + seq!['\n']
}

/// The lines of the first `k` rows.
pub open spec fn header_lines(rows: Seq<(Seq<char>, Seq<char>)>, t: Theme, k: nat) -> Seq<char>
    decreases k,
{
    if k == 0 || k > rows.len() {
        Seq::empty()
    } else {
        header_lines(rows, t, (k - 1) as nat) + header_line(rows[k - 1].0, rows[k - 1].1, t)
    }
}

/// The header block of the given name/value pairs: one line for each name,
/// in ascending order of the names, with the value that the last pair of
/// that name gave it; then an empty line, which is there also where there is
/// no header.
pub open spec fn header_block(pairs: Seq<(Seq<char>, Seq<char>)>, t: Theme) -> Seq<char> {
    header_lines(header_rows(pairs), t, header_rows(pairs).len()) + seq!['\n']
}

/// The separator before item `i` of a container: a comma for every item
/// after the first.
pub open spec fn separator(i: nat) -> Seq<char> {
    if i > 0 {
        seq![',']
    } else {
        Seq::empty()
    }
}

/// A JSON value as it is displayed when its first character stands at
/// indentation `indent`.
pub open spec fn render_value(v: Json, t: Theme, indent: nat) -> Seq<char>
    decreases v, 0nat,
{
    match v {
        Json::Null => painted(t.null_value, seq!['n', 'u', 'l', 'l']),
        Json::Bool(b) => painted(
            t.bool_value,
            if b {
                seq!['t', 'r', 'u', 'e']
            } else {
                seq!['f', 'a', 'l', 's', 'e']
            },
        ),
        Json::Number(n) => painted(t.number_value, n),
        Json::String(s) => seq!['"'] + painted(t.string_value, s) + seq!['"'],
        Json::Array(items) => if items.len() == 0 {
            seq!['[', ']']
        } else {
            seq!['['] + render_items(items, t, indent, items.len()) + seq!['\n'] + spaces(indent)
                + seq![']']
        },
        Json::Object(members) => if members.len() == 0 {
            seq!['{', '}']
        } else {
            seq!['{'] + render_members(members, t, indent, members.len()) + seq!['\n'] + spaces(
                indent,
            ) + seq!['}']
        },
    }
}

/// The first `k` items of an array that stands at indentation `indent`: each
/// on a line of its own, two spaces deeper than the array.
pub open spec fn render_items(items: Seq<Json>, t: Theme, indent: nat, k: nat) -> Seq<char>
    decreases items, k,
{
    if k == 0 || k > items.len() {
        Seq::empty()
    } else {
        render_items(items, t, indent, (k - 1) as nat) + separator((k - 1) as nat) + seq!['\n']
            + spaces(indent + 2) + render_value(items[k - 1], t, indent + 2)
    }
}

/// A member's key as it is displayed: in quotes, the quotes styled with it.
pub open spec fn render_key(key: Seq<char>, t: Theme) -> Seq<char> {
    painted(t.key, seq!['"'] + key + seq!['"'])
}

/// The first `k` members of an object that stands at indentation `indent`:
/// each on a line of its own, two spaces deeper than the object, in the order
/// of the sequence.
pub open spec fn render_members(
    members: Seq<Member>,
    t: Theme,
    indent: nat,
    k: nat,
) -> Seq<char>
    decreases members, k,
{
    if k == 0 || k > members.len() {
        Seq::empty()
    } else {
        render_members(members, t, indent, (k - 1) as nat) + separator((k - 1) as nat) + seq![
            '\n',
        ] + spaces(indent + 2) + render_key(members[k - 1].key, t) + seq![':', ' '] + render_value(
            members[k - 1].value,
            t,
            indent + 2,
        )
    }
}

/// Whether the machine can hold every indentation at which the walk of `v`
/// from `indent` displays a value: two more for each level of containers
/// that hold something.
pub open spec fn room(v: Json, indent: nat) -> bool
    decreases v,
{
    match v {
        Json::Array(items) => items.len() == 0 || (indent + 2 <= usize::MAX && forall|i: int|
            0 <= i < items.len() ==> room(#[trigger] items[i], indent + 2)),
        Json::Object(members) => members.len() == 0 || (indent + 2 <= usize::MAX && forall|i: int|
            0 <= i < members.len() ==> room((#[trigger] members[i]).value, indent + 2)),
        _ => true,
    }
}

/// Where there is room for an array that holds items, there is room for
/// each item, two deeper.
pub proof fn lemma_room_item(items: Seq<Json>, indent: nat, i: int)
    requires
        room(Json::Array(items), indent),
        0 <= i < items.len(),
    ensures
        indent + 2 <= usize::MAX,
        room(items[i], indent + 2),
{
}

/// Where there is room for an object that holds members, there is room for
/// the value of each member, two deeper.
pub proof fn lemma_room_member(members: Seq<Member>, indent: nat, i: int)
    requires
        room(Json::Object(members), indent),
        0 <= i < members.len(),
    ensures
        indent + 2 <= usize::MAX,
        room(members[i].value, indent + 2),
{
}

/// A JSON document as it is displayed: the value at indentation 0, then two
/// newlines.
pub open spec fn render_document(v: Json, t: Theme) -> Seq<char> {
    render_value(v, t, 0) + seq!['\n', '\n']
}

/// The kind of token that a status code is displayed as.
pub fn status_class(code: u16) -> (slot: Slot)
    ensures
        slot == status_slot(code),
{
    if (100 <= code && code < 200) || (300 <= code && code < 400) {
        Slot::StatusInfo
    } else if 200 <= code && code < 300 {
        Slot::StatusSuccess
    } else {
        Slot::StatusError
    }
}

/// Appends the status line for `code` with the given reason phrase.
pub fn write_status_line(f: &mut Vec<u8>, code: u16, reason: &str, t: &Theme)
    ensures
        final(f)@ == old(f)@ + encode_utf8(status_line(code, reason@, *t)),
{
    let ghost base = f@;
    let digits = decimal_string(code);
    let shown_code = paint(t.resolve(status_class(code)), digits.as_str());
    let shown_reason = paint(t.status_message, reason);
    proof {
        reveal_strlit(" ");
        reveal_strlit("\n");
        assert(base =~= base + encode_utf8(Seq::<char>::empty()));
    }
    put(f, shown_code.as_str(), Ghost(base), Ghost(Seq::empty()));
    put(f, " ", Ghost(base), Ghost(Seq::empty() + shown_code@));
    put(f, shown_reason.as_str(), Ghost(base), Ghost(Seq::empty() + shown_code@ + " "@));
    put(f, "\n", Ghost(base), Ghost(Seq::empty() + shown_code@ + " "@ + shown_reason@));
    assert(Seq::empty() + shown_code@ + " "@ + shown_reason@ + "\n"@ =~= status_line(
        code,
        reason@,
        *t,
    ));
}

/// Appends the status line for `code`, with its canonical reason phrase.
pub fn response_status(f: &mut Vec<u8>, code: u16, t: &Theme)
    ensures
        final(f)@ == old(f)@ + encode_utf8(status_line(code, reason_phrase(code), *t)),
{
    proof {
        reveal_strlit("");
    }
    let reason = match lookup_reason(code) {
        Some(msg) => msg,
        None => "",
    };
    assert(reason@ =~= reason_phrase(code));
    write_status_line(f, code, reason, t)
}

/// Appends the header block of a header map.
pub fn header(f: &mut Vec<u8>, headers: &reqwest::header::HeaderMap, t: &Theme)
    ensures
        final(f)@ == old(f)@ + encode_utf8(header_block(header_entries(*headers), *t)),
{
    let pairs = header_pairs(headers);
    write_headers(f, &pairs, t)
}

/// Appends the line that shows a request, given the text that describes
/// it.
pub fn request_path(f: &mut Vec<u8>, req: &str, _t: &Theme)
    ensures
        final(f)@ == old(f)@ + encode_utf8(seq!['W', 'e', 'e', ':', ' '] + req@ + seq!['\n']),
{
    let ghost base = f@;
    proof {
        reveal_strlit("Wee: ");
        reveal_strlit("\n");
        assert(base =~= base + encode_utf8(Seq::<char>::empty()));
    }
    put(f, "Wee: ", Ghost(base), Ghost(Seq::empty()));
    put(f, req, Ghost(base), Ghost(Seq::empty() + "Wee: "@));
    put(f, "\n", Ghost(base), Ghost(Seq::empty() + "Wee: "@ + req@));
    assert(Seq::empty() + "Wee: "@ + req@ + "\n"@ =~= seq!['W', 'e', 'e', ':', ' '] + req@
        + seq!['\n']);
}

/// Appends the header block of the given name/value pairs.
pub fn write_headers(f: &mut Vec<u8>, pairs: &Vec<(String, String)>, t: &Theme)
    ensures
        final(f)@ == old(f)@ + encode_utf8(header_block(pairs_view(pairs@), *t)),
{
    let ghost base = f@;
    let hmap = HeaderSet::from_pairs(pairs);
    let rows = hmap.rows();
    let ghost lines = pairs_view(rows@);
    proof {
        reveal_strlit(":");
        reveal_strlit(" ");
        reveal_strlit("\n");
        assert(base =~= base + encode_utf8(header_lines(lines, *t, 0)));
    }
    let mut i: usize = 0;
    while i < rows.len()
        invariant
            i <= rows.len(),
            lines == pairs_view(rows@),
            ":"@ == seq![':'],
            " "@ == seq![' '],
            "\n"@ == seq!['\n'],
            f@ == base + encode_utf8(header_lines(lines, *t, i as nat)),
        decreases rows.len() - i,
    {
        let ghost done = header_lines(lines, *t, i as nat);
        let name = paint(t.header_name, rows[i].0.as_str());
        let colon = paint(t.header_name, ":");
        let value = paint(t.header_value, rows[i].1.as_str());
        put(f, name.as_str(), Ghost(base), Ghost(done));
        put(f, colon.as_str(), Ghost(base), Ghost(done + name@));
        put(f, " ", Ghost(base), Ghost(done + name@ + colon@));
        put(f, value.as_str(), Ghost(base), Ghost(done + name@ + colon@ + " "@));
        put(f, "\n", Ghost(base), Ghost(done + name@ + colon@ + " "@ + value@));
        assert(done + name@ + colon@ + " "@ + value@ + "\n"@ =~= header_lines(
            lines,
            *t,
            (i + 1) as nat,
        ));
        i = i + 1;
    }
    put(f, "\n", Ghost(base), Ghost(header_lines(lines, *t, rows.len() as nat)));
}

/// Appends `v` as it is displayed at indentation `indent`: at every
/// indentation from which the walk stays within the machine's integers,
/// which is so wherever the sink already holds `indent` bytes.
fn _recursive_display(f: &mut Vec<u8>, v: &JsonValue, t: &Theme, indent: usize)
    requires
        indent <= old(f)@.len() || room(v@, indent as nat),
    ensures
        final(f)@ == old(f)@ + encode_utf8(render_value(v@, *t, indent as nat)),
    decreases v,
{
    let ghost base = f@;
    proof {
        assert(base =~= base + encode_utf8(Seq::<char>::empty()));
    }
    match v {
        JsonValue::Array(a) => {
            proof {
                lemma_array_view(*a);
            }
            _display_array(f, a, t, indent)
        },
        JsonValue::Bool(b) => {
            proof {
                reveal_strlit("true");
                reveal_strlit("false");
            }
            let word = if *b {
                "true"
            } else {
                "false"
            };
            let shown = paint(t.bool_value, word);
            put(f, shown.as_str(), Ghost(base), Ghost(Seq::empty()));
            assert(Seq::empty() + shown@ =~= render_value(v@, *t, indent as nat));
        },
        JsonValue::Null => {
            proof {
                reveal_strlit("null");
            }
            let shown = paint(t.null_value, "null");
            put(f, shown.as_str(), Ghost(base), Ghost(Seq::empty()));
            assert(Seq::empty() + shown@ =~= render_value(v@, *t, indent as nat));
        },
        JsonValue::Number(n) => {
            let shown = paint(t.number_value, n.as_str());
            put(f, shown.as_str(), Ghost(base), Ghost(Seq::empty()));
            assert(Seq::empty() + shown@ =~= render_value(v@, *t, indent as nat));
        },
        JsonValue::String(s) => {
            proof {
                reveal_strlit("\"");
            }
            let shown = paint(t.string_value, s.as_str());
            put(f, "\"", Ghost(base), Ghost(Seq::empty()));
            put(f, shown.as_str(), Ghost(base), Ghost(Seq::empty() + "\""@));
            put(f, "\"", Ghost(base), Ghost(Seq::empty() + "\""@ + shown@));
            assert(Seq::empty() + "\""@ + shown@ + "\""@ =~= render_value(v@, *t, indent as nat));
        },
        JsonValue::Object(o) => {
            proof {
                lemma_object_view(*o);
            }
            _display_map(f, o, t, indent)
        },
    }
}

/// Starts the line of item `i` of a container that stands at indentation
/// `indent`: the separator, a newline and the deeper indentation, which is
/// returned.
fn put_line_start(
    f: &mut Vec<u8>,
    i: usize,
    indent: usize,
    Ghost(base): Ghost<Seq<u8>>,
    Ghost(head): Ghost<Seq<char>>,
) -> (inner: usize)
    requires
        old(f)@ == base + encode_utf8(head),
        indent <= base.len() || indent + 2 <= usize::MAX,
        head.len() >= 1,
    ensures
        inner == indent + 2,
        indent <= base.len() ==> inner <= final(f)@.len(),
        final(f)@ == base + encode_utf8(
            head + separator(i as nat) + seq!['\n'] + spaces((indent + 2) as nat),
        ),
{
    proof {
        reveal_strlit(",");
        reveal_strlit("\n");
    }
    if i > 0 {
        put(f, ",", Ghost(base), Ghost(head));
    }
    let ghost done = head + separator(i as nat);
    assert(f@ == base + encode_utf8(done)) by {
        if i == 0 {
            assert(done =~= head);
        } else {
            assert(done =~= head + ","@);
        }
    }
    put(f, "\n", Ghost(base), Ghost(done));
    assert(done + "\n"@ =~= done + seq!['\n']);
    let ghost done = done + seq!['\n'];
    proof {
        lemma_encode_len(done);
        assert(f@.len() == f.len());
    }
    let inner = indent + 2;
    put_spaces(f, inner, Ghost(base), Ghost(done));
    proof {
        lemma_encode_len(done + spaces(inner as nat));
    }
    inner
}

/// Closes a container that stands at indentation `indent`: a newline, the
/// indentation and the closing bracket.
fn put_closing(
    f: &mut Vec<u8>,
    bracket: &str,
    indent: usize,
    Ghost(base): Ghost<Seq<u8>>,
    Ghost(done): Ghost<Seq<char>>,
)
    requires
        old(f)@ == base + encode_utf8(done),
    ensures
        final(f)@ == base + encode_utf8(done + seq!['\n'] + spaces(indent as nat) + bracket@),
{
    proof {
        reveal_strlit("\n");
    }
    put(f, "\n", Ghost(base), Ghost(done));
    assert(done + "\n"@ =~= done + seq!['\n']);
    put_spaces(f, indent, Ghost(base), Ghost(done + seq!['\n']));
    put(f, bracket, Ghost(base), Ghost(done + seq!['\n'] + spaces(indent as nat)));
}

/// Appends a member's key, in quotes and styled, then a colon and a space.
fn put_key(
    f: &mut Vec<u8>,
    key: &str,
    t: &Theme,
    Ghost(base): Ghost<Seq<u8>>,
    Ghost(done): Ghost<Seq<char>>,
)
    requires
        old(f)@ == base + encode_utf8(done),
    ensures
        final(f)@ == base + encode_utf8(done + render_key(key@, *t) + seq![':', ' ']),
{
    proof {
        reveal_strlit("\"");
        reveal_strlit(": ");
    }
    let mut quoted = String::from_str("\"");
    quoted.append(key);
    quoted.append("\"");
    assert(quoted@ =~= seq!['"'] + key@ + seq!['"']);
    let shown = paint(t.key, quoted.as_str());
    put(f, shown.as_str(), Ghost(base), Ghost(done));
    put(f, ": ", Ghost(base), Ghost(done + shown@));
    assert(done + shown@ + ": "@ =~= done + render_key(key@, *t) + seq![':', ' ']);
}

/// Appends an array as it is displayed at indentation `indent`.
fn _display_array(f: &mut Vec<u8>, a: &Vec<JsonValue>, t: &Theme, indent: usize)
    requires
        indent <= old(f)@.len() || room(Json::Array(items_view(a@)), indent as nat),
    ensures
        final(f)@ == old(f)@ + encode_utf8(
            render_value(Json::Array(items_view(a@)), *t, indent as nat),
        ),
    decreases a,
{
    let ghost base = f@;
    let ghost items = items_view(a@);
    proof {
        reveal_strlit("[]");
        reveal_strlit("[");
        reveal_strlit("]");
        assert(base =~= base + encode_utf8(Seq::<char>::empty()));
    }
    if a.len() == 0 {
        put(f, "[]", Ghost(base), Ghost(Seq::empty()));
        assert(Seq::empty() + "[]"@ =~= render_value(Json::Array(items), *t, indent as nat));
        return ;
    }
    put(f, "[", Ghost(base), Ghost(Seq::empty()));
    assert(Seq::empty() + "["@ =~= seq!['['] + render_items(items, *t, indent as nat, 0));
    let mut i: usize = 0;
    while i < a.len()
        invariant
            i <= a.len(),
            items == items_view(a@),
            indent <= base.len() || room(Json::Array(items), indent as nat),
            f@ == base + encode_utf8(seq!['['] + render_items(items, *t, indent as nat, i as nat)),
        decreases a.len() - i,
    {
        let ghost head = seq!['['] + render_items(items, *t, indent as nat, i as nat);
        proof {
            if indent > base.len() {
                lemma_room_item(items, indent as nat, i as int);
            }
            assert(items[i as int] == a[i as int]@);
        }
        let inner = put_line_start(f, i, indent, Ghost(base), Ghost(head));
        let ghost done = head + separator(i as nat) + seq!['\n'] + spaces(inner as nat);
        _recursive_display(f, &a[i], t, inner);
        proof {
            let item = render_value(items[i as int], *t, inner as nat);
            lemma_encode_concat(done, item);
            assert(done + item =~= seq!['['] + render_items(
                items,
                *t,
                indent as nat,
                (i + 1) as nat,
            ));
            assert(f@ =~= base + encode_utf8(done + item));
        }
        i = i + 1;
    }
    let ghost done = seq!['['] + render_items(items, *t, indent as nat, a.len() as nat);
    put_closing(f, "]", indent, Ghost(base), Ghost(done));
    assert(done + seq!['\n'] + spaces(indent as nat) + "]"@ =~= render_value(
        Json::Array(items),
        *t,
        indent as nat,
    ));
}

/// Appends an object as it is displayed at indentation `indent`.
fn _display_map(f: &mut Vec<u8>, m: &Vec<(String, JsonValue)>, t: &Theme, indent: usize)
    requires
        indent <= old(f)@.len() || room(Json::Object(members_view(m@)), indent as nat),
    ensures
        final(f)@ == old(f)@ + encode_utf8(
            render_value(Json::Object(members_view(m@)), *t, indent as nat),
        ),
    decreases m,
{
    let ghost base = f@;
    let ghost members = members_view(m@);
    proof {
        reveal_strlit("{}");
        reveal_strlit("{");
        reveal_strlit("}");
        assert(base =~= base + encode_utf8(Seq::<char>::empty()));
    }
    if m.len() == 0 {
        put(f, "{}", Ghost(base), Ghost(Seq::empty()));
        assert(Seq::empty() + "{}"@ =~= render_value(Json::Object(members), *t, indent as nat));
        return ;
    }
    put(f, "{", Ghost(base), Ghost(Seq::empty()));
    assert(Seq::empty() + "{"@ =~= seq!['{'] + render_members(members, *t, indent as nat, 0));
    let mut i: usize = 0;
    while i < m.len()
        invariant
            i <= m.len(),
            members == members_view(m@),
            indent <= base.len() || room(Json::Object(members), indent as nat),
            f@ == base + encode_utf8(
                seq!['{'] + render_members(members, *t, indent as nat, i as nat),
            ),
        decreases m.len() - i,
    {
        let ghost head = seq!['{'] + render_members(members, *t, indent as nat, i as nat);
        proof {
            if indent > base.len() {
                lemma_room_member(members, indent as nat, i as int);
            }
            assert(members[i as int].value == m[i as int].1@);
        }
        let inner = put_line_start(f, i, indent, Ghost(base), Ghost(head));
        let ghost line = head + separator(i as nat) + seq!['\n'] + spaces(inner as nat);
        put_key(f, m[i].0.as_str(), t, Ghost(base), Ghost(line));
        let ghost done = line + render_key(members[i as int].key, *t) + seq![':', ' '];
        proof {
            lemma_encode_len(line);
            lemma_encode_len(done);
        }
        _recursive_display(f, &m[i].1, t, inner);
        proof {
            let item = render_value(members[i as int].value, *t, inner as nat);
            lemma_encode_concat(done, item);
            assert(done + item =~= seq!['{'] + render_members(
                members,
                *t,
                indent as nat,
                (i + 1) as nat,
            ));
            assert(f@ =~= base + encode_utf8(done + item));
        }
        i = i + 1;
    }
    let ghost done = seq!['{'] + render_members(members, *t, indent as nat, m.len() as nat);
    put_closing(f, "}", indent, Ghost(base), Ghost(done));
    assert(done + seq!['\n'] + spaces(indent as nat) + "}"@ =~= render_value(
        Json::Object(members),
        *t,
        indent as nat,
    ));
}

/// Appends a JSON document: the value at indentation 0, then two newlines.
pub fn write_document(f: &mut Vec<u8>, v: &JsonValue, t: &Theme)
    ensures
        final(f)@ == old(f)@ + encode_utf8(render_document(v@, *t)),
{
    let ghost base = f@;
    proof {
        reveal_strlit("\n\n");
    }
    _recursive_display(f, v, t, 0);
    put(f, "\n\n", Ghost(base), Ghost(render_value(v@, *t, 0)));
    assert(render_value(v@, *t, 0) + "\n\n"@ =~= render_document(v@, *t));
}

/// Appends a body as it came, byte for byte.
pub fn unformatted_response(f: &mut Vec<u8>, body: &[u8], _t: &Theme)
    ensures
        final(f)@ == old(f)@ + body@,
{
    f.extend_from_slice(body);
    assert(f@ =~= old(f)@ + body@);
}

/// Appends the document of a value that was parsed, or fails with the
/// parser's message and appends nothing.
pub fn display_parsed(f: &mut Vec<u8>, parsed: Result<JsonValue, String>, t: &Theme) -> (r: Result<
    (),
    Error,
>)
    ensures
        match parsed {
            Ok(v) => r is Ok && final(f)@ == old(f)@ + encode_utf8(render_document(v@, *t)),
            Err(m) => r == Err::<(), Error>(Error::BodyNotJson(m)) && final(f)@ == old(f)@,
        },
{
    match parsed {
        Ok(v) => {
            write_document(f, &v, t);
            Ok(())
        },
        Err(m) => Err(Error::BodyNotJson(m)),
    }
}

/// Displays a body as JSON: parses it and appends the document, or fails
/// where the body is not JSON, and then appends nothing.
pub fn json_display(f: &mut Vec<u8>, body: &[u8], t: &Theme) -> (r: Result<(), Error>)
    ensures
        match parsed_json(body@) {
            Ok(v) => r is Ok && final(f)@ == old(f)@ + encode_utf8(render_document(v, *t)),
            Err(m) => r matches Err(Error::BodyNotJson(text)) && text@ == m && final(f)@ == old(
                f,
            )@,
        },
{
    display_parsed(f, parse_json(body), t)
}

/// How a body is displayed.
#[derive(Clone, Copy, Debug, PartialEq, Eq)]
pub enum Formatter {
    /// Parsed as JSON and pretty-printed.
    Json,
    /// Copied as it came.
    Passthrough,
}

/// The formatter for a body of the given content type: JSON where the
/// content type declares JSON, the copy for every other content type and
/// where there is none.
pub open spec fn formatter_for(content_type: Option<Seq<u8>>) -> Formatter {
    match content_type {
        Some(value) => if is_json_content_type(value) {
            Formatter::Json
        } else {
            Formatter::Passthrough
        },
        None => Formatter::Passthrough,
    }
}

/// The content type as the bytes of its value.
pub open spec fn content_type_view(content_type: Option<&[u8]>) -> Option<Seq<u8>> {
    match content_type {
        Some(value) => Some(value@),
        None => None,
    }
}

/// Chooses the formatter for a body from the content type of the response.
pub fn select_formatter(content_type: Option<&[u8]>) -> (fmt: Formatter)
    ensures
        fmt == formatter_for(content_type_view(content_type)),
{
    match content_type {
        Some(value) => if declares_json(value) {
            Formatter::Json
        } else {
            Formatter::Passthrough
        },
        None => Formatter::Passthrough,
    }
}

/// Displays a body as its content type asks: as JSON where the content
/// type declares JSON, else byte for byte. It fails only where a body that
/// is declared as JSON is none, and then appends nothing.
pub fn formatted_response(
    f: &mut Vec<u8>,
    content_type: Option<&[u8]>,
    body: &[u8],
    t: &Theme,
) -> (r: Result<(), Error>)
    ensures
        match formatter_for(content_type_view(content_type)) {
            Formatter::Json => match parsed_json(body@) {
                Ok(v) => r is Ok && final(f)@ == old(f)@ + encode_utf8(render_document(v, *t)),
                Err(m) => r matches Err(Error::BodyNotJson(text)) && text@ == m && final(f)@
                    == old(f)@,
            },
            Formatter::Passthrough => r is Ok && final(f)@ == old(f)@ + body@,
        },
{
    match select_formatter(content_type) {
        Formatter::Json => json_display(f, body, t),
        Formatter::Passthrough => {
            unformatted_response(f, body, t);
            Ok(())
        },
    }
}

} // verus!
