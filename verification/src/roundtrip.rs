//! A document that is displayed without styles reads back, by the grammar
//! of JSON, as the value that was displayed.

use vstd::prelude::*;

use crate::display::{
    render_document, render_items, render_key, render_members, render_value, separator,
};
use crate::grammar::{
    is_control, is_json_number, is_number_char, is_ws, number_run, parse_document, parse_items,
    parse_members, parse_string_tail, parse_value, skip_ws, starts_with,
};
use crate::text::spaces;
use crate::theme::{lemma_plain_paint, Slot, Theme};
use crate::value::{Json, Member};

verus! {

/// Whether `s` can stand between quotes as it is: it holds no quote, no
/// backslash and no control character.
pub open spec fn needs_no_escape(s: Seq<char>) -> bool {
    forall|i: int|
        0 <= i < s.len() ==> (#[trigger] s[i]) != '"' && s[i] != '\\' && !is_control(s[i])
}

/// Whether `v` is written as valid JSON when it is displayed: its numbers
/// are JSON numbers, and its strings and keys need no escape, since the
/// renderer writes none.
pub open spec fn is_plain(v: Json) -> bool
    decreases v,
{
    match v {
        Json::Null => true,
        Json::Bool(_) => true,
        Json::Number(n) => is_json_number(n),
        Json::String(s) => needs_no_escape(s),
        Json::Array(items) => forall|i: int| 0 <= i < items.len() ==> is_plain(#[trigger] items[i]),
        Json::Object(members) => forall|i: int|
            0 <= i < members.len() ==> needs_no_escape((#[trigger] members[i]).key) && is_plain(
                members[i].value,
            ),
    }
}

/// Whether `s` is whitespace only.
pub open spec fn all_ws(s: Seq<char>) -> bool {
    forall|i: int| 0 <= i < s.len() ==> is_ws(#[trigger] s[i])
}

/// Whether a number could not go on into `s`.
pub open spec fn ends_number(s: Seq<char>) -> bool {
    s.len() == 0 || !is_number_char(s[0])
}

/// The line end before the bracket that closes a container at `indent`.
pub open spec fn closing(indent: nat, bracket: char) -> Seq<char> {
    seq!['\n'] + spaces(indent) + seq![bracket]
}

/// The start of the line of an item of a container at `indent`.
pub open spec fn line_start(indent: nat) -> Seq<char> {
    seq!['\n'] + spaces(indent + 2)
}

/// The items of an array from item `i` on, as they are displayed: the text
/// of the array from the first character of item `i` up to the end of its
/// last item.
pub open spec fn items_tail(items: Seq<Json>, t: Theme, indent: nat, i: int) -> Seq<char>
    decreases items.len() - i,
{
    if i < 0 || i >= items.len() {
        Seq::empty()
    } else if i + 1 == items.len() {
        render_value(items[i], t, indent + 2)
    } else {
        render_value(items[i], t, indent + 2) + seq![','] + line_start(indent) + items_tail(
            items,
            t,
            indent,
            i + 1,
        )
    }
}

/// A member as it is displayed: the key, a colon, a space and the value.
#[verifier::opaque]
pub open spec fn member_text(m: Member, t: Theme, indent: nat) -> Seq<char> {
    render_key(m.key, t) + seq![':', ' '] + render_value(m.value, t, indent + 2)
}

/// The members of an object from member `i` on, as they are displayed.
pub open spec fn members_tail(members: Seq<Member>, t: Theme, indent: nat, i: int) -> Seq<char>
    decreases members.len() - i,
{
    if i < 0 || i >= members.len() {
        Seq::empty()
    } else if i + 1 == members.len() {
        member_text(members[i], t, indent)
    } else {
        member_text(members[i], t, indent) + seq![','] + line_start(indent) + members_tail(
            members,
            t,
            indent,
            i + 1,
        )
    }
}

/// What follows the first `k` items of an array in its text, up to the end
/// of its last item.
pub open spec fn items_rest(items: Seq<Json>, t: Theme, indent: nat, k: int) -> Seq<char> {
    if k >= items.len() {
        Seq::empty()
    } else {
        seq![','] + line_start(indent) + items_tail(items, t, indent, k)
    }
}

/// What follows the first `k` members of an object in its text, up to the
/// end of its last member.
pub open spec fn members_rest(members: Seq<Member>, t: Theme, indent: nat, k: int) -> Seq<char> {
    if k >= members.len() {
        Seq::empty()
    } else {
        seq![','] + line_start(indent) + members_tail(members, t, indent, k)
    }
}

/// The text of the items of an array is the text of its first `k` items
/// and of those that follow.
proof fn lemma_items_split(items: Seq<Json>, t: Theme, indent: nat, k: int)
    requires
        1 <= k <= items.len(),
    ensures
        render_items(items, t, indent, items.len()) == render_items(items, t, indent, k as nat)
            + items_rest(items, t, indent, k),
    decreases items.len() - k,
{
    if k == items.len() {
        assert(render_items(items, t, indent, items.len()) =~= render_items(
            items,
            t,
            indent,
            k as nat,
        ) + items_rest(items, t, indent, k));
    } else {
        lemma_items_split(items, t, indent, k + 1);
        let head = render_items(items, t, indent, k as nat);
        let item = render_value(items[k], t, indent + 2);
        assert(separator(k as nat) == seq![',']);
        assert(render_items(items, t, indent, (k + 1) as nat) == head + separator(k as nat) + seq![
            '\n',
        ] + spaces(indent + 2) + item);
        assert(head + seq![','] + seq!['\n'] + spaces(indent + 2) + item + items_rest(
            items,
            t,
            indent,
            k + 1,
        ) =~= head + items_rest(items, t, indent, k));
    }
}

/// The text of the members of an object is the text of its first `k`
/// members and of those that follow.
proof fn lemma_members_split(members: Seq<Member>, t: Theme, indent: nat, k: int)
    requires
        1 <= k <= members.len(),
    ensures
        render_members(members, t, indent, members.len()) == render_members(
            members,
            t,
            indent,
            k as nat,
        ) + members_rest(members, t, indent, k),
    decreases members.len() - k,
{
    if k == members.len() {
        assert(render_members(members, t, indent, members.len()) =~= render_members(
            members,
            t,
            indent,
            k as nat,
        ) + members_rest(members, t, indent, k));
    } else {
        lemma_members_split(members, t, indent, k + 1);
        reveal(member_text);
        let head = render_members(members, t, indent, k as nat);
        let item = member_text(members[k], t, indent);
        assert(separator(k as nat) == seq![',']);
        assert(render_members(members, t, indent, (k + 1) as nat) =~= head + seq![','] + seq![
            '\n',
        ] + spaces(indent + 2) + item);
        assert(head + seq![','] + seq!['\n'] + spaces(indent + 2) + item + members_rest(
            members,
            t,
            indent,
            k + 1,
        ) =~= head + members_rest(members, t, indent, k));
    }
}

/// An array that holds items is displayed as its bracket, the line of each
/// item and the closing bracket on a line of its own.
pub proof fn lemma_array_text(items: Seq<Json>, t: Theme, indent: nat)
    requires
        items.len() > 0,
    ensures
        render_value(Json::Array(items), t, indent) == seq!['['] + line_start(indent)
            + items_tail(items, t, indent, 0) + closing(indent, ']'),
{
    lemma_items_split(items, t, indent, 1);
    assert(render_items(items, t, indent, 0) =~= Seq::<char>::empty());
    assert(separator(0) =~= Seq::<char>::empty());
    assert(render_items(items, t, indent, 1) =~= line_start(indent) + render_value(
        items[0],
        t,
        indent + 2,
    ));
    assert(render_value(Json::Array(items), t, indent) =~= seq!['['] + line_start(indent)
        + items_tail(items, t, indent, 0) + closing(indent, ']'));
}

/// An object that holds members is displayed as its brace, the line of each
/// member and the closing brace on a line of its own.
pub proof fn lemma_object_text(members: Seq<Member>, t: Theme, indent: nat)
    requires
        members.len() > 0,
    ensures
        render_value(Json::Object(members), t, indent) == seq!['{'] + line_start(indent)
            + members_tail(members, t, indent, 0) + closing(indent, '}'),
{
    lemma_members_split(members, t, indent, 1);
    reveal(member_text);
    assert(render_members(members, t, indent, 0) =~= Seq::<char>::empty());
    assert(separator(0) =~= Seq::<char>::empty());
    assert(render_members(members, t, indent, 1) =~= line_start(indent) + member_text(
        members[0],
        t,
        indent,
    ));
    assert(render_value(Json::Object(members), t, indent) =~= seq!['{'] + line_start(indent)
        + members_tail(members, t, indent, 0) + closing(indent, '}'));
}

/// Skipping whitespace removes a prefix of whitespace before a text that
/// starts with none.
proof fn lemma_skip_pad(pad: Seq<char>, x: Seq<char>)
    requires
        all_ws(pad),
        x.len() == 0 || !is_ws(x[0]),
    ensures
        skip_ws(pad + x) == x,
    decreases pad.len(),
{
    if pad.len() == 0 {
        assert(pad + x =~= x);
    } else {
        assert(is_ws(pad[0]));
        assert((pad + x).drop_first() =~= pad.drop_first() + x);
        assert forall|i: int| 0 <= i < pad.drop_first().len() implies is_ws(
            #[trigger] pad.drop_first()[i],
        ) by {
            assert(pad.drop_first()[i] == pad[i + 1]);
        }
        lemma_skip_pad(pad.drop_first(), x);
    }
}

/// The start of a line and the line end before a closing bracket are
/// whitespace.
proof fn lemma_layout_is_ws(indent: nat)
    ensures
        all_ws(line_start(indent)),
        all_ws(seq!['\n'] + spaces(indent)),
        all_ws(seq![' ']),
        all_ws(Seq::<char>::empty()),
{
}

/// A text that needs no escape is read as it stands, up to the closing
/// quote.
proof fn lemma_string_tail(text: Seq<char>, rest: Seq<char>)
    requires
        needs_no_escape(text),
    ensures
        parse_string_tail(text + seq!['"'] + rest) == Some((text, rest)),
    decreases text.len(),
{
    let s = text + seq!['"'] + rest;
    if text.len() == 0 {
        assert(s.drop_first() =~= rest);
        assert(text =~= Seq::<char>::empty());
    } else {
        let tail = text.drop_first();
        assert(s[0] == text[0]);
        assert forall|i: int| 0 <= i < tail.len() implies (#[trigger] tail[i]) != '"' && tail[i]
            != '\\' && !is_control(tail[i]) by {
            assert(tail[i] == text[i + 1]);
        }
        lemma_string_tail(tail, rest);
        assert(s.drop_first() =~= tail + seq!['"'] + rest);
        assert(seq![text[0]] + tail =~= text);
    }
}

/// A run of number characters ends where the text that follows cannot go
/// on a number.
proof fn lemma_number_run(n: Seq<char>, rest: Seq<char>)
    requires
        forall|i: int| 0 <= i < n.len() ==> is_number_char(#[trigger] n[i]),
        ends_number(rest),
    ensures
        number_run(n + rest) == n.len(),
    decreases n.len(),
{
    if n.len() == 0 {
        assert(n + rest =~= rest);
    } else {
        assert((n + rest)[0] == n[0]);
        assert((n + rest).drop_first() =~= n.drop_first() + rest);
        assert forall|i: int| 0 <= i < n.drop_first().len() implies is_number_char(
            #[trigger] n.drop_first()[i],
        ) by {
            assert(n.drop_first()[i] == n[i + 1]);
        }
        lemma_number_run(n.drop_first(), rest);
    }
}

/// A text that starts with none of `n`, `t` and `f` starts with none of
/// the three words.
proof fn lemma_no_word(r: Seq<char>)
    requires
        r.len() > 0,
        r[0] != 'n',
        r[0] != 't',
        r[0] != 'f',
    ensures
        !starts_with(r, seq!['n', 'u', 'l', 'l']),
        !starts_with(r, seq!['t', 'r', 'u', 'e']),
        !starts_with(r, seq!['f', 'a', 'l', 's', 'e']),
{
    if r.len() >= 4 {
        assert(r.take(4)[0] == r[0]);
    }
    if r.len() >= 5 {
        assert(r.take(5)[0] == r[0]);
    }
}

/// In the theme that styles nothing every style is plain.
proof fn lemma_empty_theme(t: Theme)
    requires
        t.is_empty(),
    ensures
        t.null_value.is_plain(),
        t.bool_value.is_plain(),
        t.number_value.is_plain(),
        t.string_value.is_plain(),
        t.key.is_plain(),
{
    assert(t.style_of(Slot::NullValue).is_plain());
    assert(t.style_of(Slot::BoolValue).is_plain());
    assert(t.style_of(Slot::NumberValue).is_plain());
    assert(t.style_of(Slot::StringValue).is_plain());
    assert(t.style_of(Slot::Key).is_plain());
}

/// Whether `c` can start the text of a value: it is no whitespace and none
/// of the marks that separate or close.
pub open spec fn starts_value(c: char) -> bool {
    !is_ws(c) && c != ']' && c != '}' && c != ','
}

/// The text of a value starts with a character that can start a value.
proof fn lemma_first_char(v: Json, t: Theme, indent: nat)
    requires
        t.is_empty(),
        is_plain(v),
    ensures
        render_value(v, t, indent).len() > 0,
        starts_value(render_value(v, t, indent)[0]),
{
    lemma_empty_theme(t);
    match v {
        Json::Null => {
            lemma_plain_paint(t.null_value, seq!['n', 'u', 'l', 'l']);
        },
        Json::Bool(b) => {
            lemma_plain_paint(t.bool_value, seq!['t', 'r', 'u', 'e']);
            lemma_plain_paint(t.bool_value, seq!['f', 'a', 'l', 's', 'e']);
        },
        Json::Number(n) => {
            lemma_plain_paint(t.number_value, n);
            assert(is_number_char(n[0]));
            if n[0] != '-' {
                assert(n[0] == (if n.len() > 0 && n[0] == '-' {
                    n.drop_first()
                } else {
                    n
                })[0]);
            }
        },
        Json::String(s) => {},
        Json::Array(items) => {},
        Json::Object(members) => {},
    }
}

/// What `parse_value` makes of a text that, after whitespace, opens an
/// array that holds items.
proof fn lemma_unfold_array(s: Seq<char>, r: Seq<char>, inner: Seq<char>)
    requires
        skip_ws(s) == r,
        0 < r.len() <= s.len(),
        r[0] == '[',
        skip_ws(r.drop_first()) == inner,
        inner.len() > 0,
        inner[0] != ']',
        inner.len() < r.len(),
    ensures
        parse_value(s) == match parse_items(inner) {
            Some((items, rest)) => Some((Json::Array(items), rest)),
            None => None,
        },
{
    lemma_no_word(r);
}

/// What `parse_value` makes of a text that, after whitespace, opens an
/// object that holds members.
proof fn lemma_unfold_object(s: Seq<char>, r: Seq<char>, inner: Seq<char>)
    requires
        skip_ws(s) == r,
        0 < r.len() <= s.len(),
        r[0] == '{',
        skip_ws(r.drop_first()) == inner,
        inner.len() > 0,
        inner[0] != '}',
        inner.len() < r.len(),
    ensures
        parse_value(s) == match parse_members(inner) {
            Some((members, rest)) => Some((Json::Object(members), rest)),
            None => None,
        },
{
    lemma_no_word(r);
}

/// What `parse_value` makes of a text that, after whitespace, is an empty
/// container.
proof fn lemma_unfold_empty(s: Seq<char>, r: Seq<char>, rest: Seq<char>)
    requires
        skip_ws(s) == r,
        0 < r.len() <= s.len(),
        r == seq!['[', ']'] + rest || r == seq!['{', '}'] + rest,
    ensures
        r[0] == '[' ==> parse_value(s) == Some((Json::Array(Seq::empty()), rest)),
        r[0] == '{' ==> parse_value(s) == Some((Json::Object(Seq::empty()), rest)),
{
    lemma_no_word(r);
    assert(skip_ws(r.drop_first()) == r.drop_first());
    assert(r.drop_first().drop_first() =~= rest);
}

/// What `parse_value` makes of a text that, after whitespace, is a quoted
/// string.
proof fn lemma_unfold_string(s: Seq<char>, r: Seq<char>, text: Seq<char>, rest: Seq<char>)
    requires
        skip_ws(s) == r,
        0 < r.len() <= s.len(),
        r[0] == '"',
        parse_string_tail(r.drop_first()) == Some((text, rest)),
    ensures
        parse_value(s) == Some((Json::String(text), rest)),
{
    lemma_no_word(r);
}

/// What `parse_value` makes of a text that, after whitespace, is a number
/// and what cannot go on a number.
proof fn lemma_unfold_number(s: Seq<char>, n: Seq<char>, rest: Seq<char>)
    requires
        skip_ws(s) == n + rest,
        (n + rest).len() <= s.len(),
        is_json_number(n),
        ends_number(rest),
    ensures
        parse_value(s) == Some((Json::Number(n), rest)),
{
    let r = n + rest;
    assert(is_number_char(n[0]));
    assert(r[0] == n[0]);
    if n[0] != '-' {
        assert(n[0] == (if n.len() > 0 && n[0] == '-' {
            n.drop_first()
        } else {
            n
        })[0]);
    }
    lemma_no_word(r);
    lemma_number_run(n, rest);
    assert(r.take(n.len() as int) =~= n);
    assert(r.skip(n.len() as int) =~= rest);
}

/// What `parse_value` makes of a text that, after whitespace, is one of the
/// words `null`, `true` and `false`.
proof fn lemma_unfold_word(s: Seq<char>, r: Seq<char>, rest: Seq<char>)
    requires
        skip_ws(s) == r,
        0 < r.len() <= s.len(),
    ensures
        r == seq!['n', 'u', 'l', 'l'] + rest ==> parse_value(s) == Some((Json::Null, rest)),
        r == seq!['t', 'r', 'u', 'e'] + rest ==> parse_value(s) == Some((Json::Bool(true), rest)),
        r == seq!['f', 'a', 'l', 's', 'e'] + rest ==> parse_value(s) == Some(
            (Json::Bool(false), rest),
        ),
{
    if r == seq!['n', 'u', 'l', 'l'] + rest {
        assert(r.take(4) =~= seq!['n', 'u', 'l', 'l']);
        assert(r.skip(4) =~= rest);
    }
    if r == seq!['t', 'r', 'u', 'e'] + rest {
        assert(r.take(4) =~= seq!['t', 'r', 'u', 'e']);
        assert(r.skip(4) =~= rest);
    }
    if r == seq!['f', 'a', 'l', 's', 'e'] + rest {
        assert(r.take(4)[0] == 'f');
        assert(r.take(5) =~= seq!['f', 'a', 'l', 's', 'e']);
        assert(r.skip(5) =~= rest);
    }
}

/// The word `null`, without styles and with whitespace before it, is read
/// as the null value.
proof fn lemma_parse_null(t: Theme, indent: nat, pad: Seq<char>, rest: Seq<char>)
    requires
        t.is_empty(),
        all_ws(pad),
    ensures
        parse_value(pad + render_value(Json::Null, t, indent) + rest) == Some((Json::Null, rest)),
{
    let word = seq!['n', 'u', 'l', 'l'];
    let r = word + rest;
    lemma_empty_theme(t);
    lemma_plain_paint(t.null_value, word);
    assert(r[0] == 'n');
    lemma_skip_pad(pad, r);
    assert(pad + render_value(Json::Null, t, indent) + rest =~= pad + r);
    lemma_unfold_word(pad + r, r, rest);
}

/// The words `true` and `false`, without styles and with whitespace before
/// them, are read as the truth values.
proof fn lemma_parse_bool(b: bool, t: Theme, indent: nat, pad: Seq<char>, rest: Seq<char>)
    requires
        t.is_empty(),
        all_ws(pad),
    ensures
        parse_value(pad + render_value(Json::Bool(b), t, indent) + rest) == Some(
            (Json::Bool(b), rest),
        ),
{
    let word = if b {
        seq!['t', 'r', 'u', 'e']
    } else {
        seq!['f', 'a', 'l', 's', 'e']
    };
    let r = word + rest;
    lemma_empty_theme(t);
    lemma_plain_paint(t.bool_value, word);
    assert(r[0] == word[0]);
    lemma_skip_pad(pad, r);
    assert(pad + render_value(Json::Bool(b), t, indent) + rest =~= pad + r);
    lemma_unfold_word(pad + r, r, rest);
}

/// A JSON number, without styles and with whitespace before it, is read as
/// that number, where what follows cannot go on a number.
proof fn lemma_parse_number(n: Seq<char>, t: Theme, indent: nat, pad: Seq<char>, rest: Seq<char>)
    requires
        t.is_empty(),
        is_json_number(n),
        all_ws(pad),
        ends_number(rest),
    ensures
        parse_value(pad + render_value(Json::Number(n), t, indent) + rest) == Some(
            (Json::Number(n), rest),
        ),
{
    let r = n + rest;
    lemma_first_char(Json::Number(n), t, indent);
    lemma_empty_theme(t);
    lemma_plain_paint(t.number_value, n);
    assert(r[0] == n[0]);
    lemma_skip_pad(pad, r);
    assert(pad + render_value(Json::Number(n), t, indent) + rest =~= pad + r);
    lemma_unfold_number(pad + r, n, rest);
}

/// A string that needs no escape, in quotes, without styles and with
/// whitespace before it, is read as that string.
proof fn lemma_parse_string(
    text: Seq<char>,
    t: Theme,
    indent: nat,
    pad: Seq<char>,
    rest: Seq<char>,
)
    requires
        t.is_empty(),
        needs_no_escape(text),
        all_ws(pad),
    ensures
        parse_value(pad + render_value(Json::String(text), t, indent) + rest) == Some(
            (Json::String(text), rest),
        ),
{
    let r = seq!['"'] + (text + seq!['"'] + rest);
    lemma_empty_theme(t);
    lemma_plain_paint(t.string_value, text);
    assert(r[0] == '"');
    lemma_skip_pad(pad, r);
    assert(pad + render_value(Json::String(text), t, indent) + rest =~= pad + r);
    assert(r.drop_first() =~= text + seq!['"'] + rest);
    lemma_string_tail(text, rest);
    lemma_unfold_string(pad + r, r, text, rest);
}

/// The text of a value without styles, with whitespace before it, is read
/// as the value, up to where the text ends.
proof fn lemma_parse_rendered(v: Json, t: Theme, indent: nat, pad: Seq<char>, rest: Seq<char>)
    requires
        t.is_empty(),
        is_plain(v),
        all_ws(pad),
        ends_number(rest),
    ensures
        parse_value(pad + render_value(v, t, indent) + rest) == Some((v, rest)),
    decreases v, 0nat,
{
    match v {
        Json::Null => {
            lemma_parse_null(t, indent, pad, rest);
        },
        Json::Bool(b) => {
            lemma_parse_bool(b, t, indent, pad, rest);
        },
        Json::Number(n) => {
            lemma_parse_number(n, t, indent, pad, rest);
        },
        Json::String(text) => {
            lemma_parse_string(text, t, indent, pad, rest);
        },
        Json::Array(items) => {
            lemma_parse_array_value(items, t, indent, pad, rest);
        },
        Json::Object(members) => {
            lemma_parse_object_value(members, t, indent, pad, rest);
        },
    }
}

/// The layout of an array that holds items, with whitespace before it, is
/// read as the array.
proof fn lemma_parse_array_layout(
    items: Seq<Json>,
    t: Theme,
    indent: nat,
    pad: Seq<char>,
    rest: Seq<char>,
)
    requires
        t.is_empty(),
        forall|j: int| 0 <= j < items.len() ==> is_plain(#[trigger] items[j]),
        items.len() > 0,
        all_ws(pad),
    ensures
        parse_value(
            pad + (seq!['['] + line_start(indent) + items_tail(items, t, indent, 0) + closing(
                indent,
                ']',
            )) + rest,
        ) == Some((Json::Array(items), rest)),
    decreases items, items.len() + 2,
{
    let inner = line_start(indent) + (items_tail(items, t, indent, 0) + closing(indent, ']')
        + rest);
    let r = seq!['['] + inner;
    let s = pad + (seq!['['] + line_start(indent) + items_tail(items, t, indent, 0) + closing(
        indent,
        ']',
    )) + rest;
    assert(r[0] == '[');
    lemma_skip_pad(pad, r);
    assert(s =~= pad + r);
    lemma_parse_array(items, t, indent, s, r, rest);
}

/// Two brackets with nothing between them, with whitespace before them,
/// are read as the empty container of their kind.
proof fn lemma_parse_empty(pad: Seq<char>, rest: Seq<char>)
    requires
        all_ws(pad),
    ensures
        parse_value(pad + seq!['[', ']'] + rest) == Some((Json::Array(Seq::empty()), rest)),
        parse_value(pad + seq!['{', '}'] + rest) == Some((Json::Object(Seq::empty()), rest)),
{
    let a = seq!['[', ']'] + rest;
    let o = seq!['{', '}'] + rest;
    assert(a[0] == '[' && o[0] == '{');
    lemma_skip_pad(pad, a);
    lemma_skip_pad(pad, o);
    assert(pad + seq!['[', ']'] + rest =~= pad + a);
    assert(pad + seq!['{', '}'] + rest =~= pad + o);
    lemma_unfold_empty(pad + a, a, rest);
    lemma_unfold_empty(pad + o, o, rest);
}

/// The text of an array, with whitespace before it, is read as the array.
proof fn lemma_parse_array_value(
    items: Seq<Json>,
    t: Theme,
    indent: nat,
    pad: Seq<char>,
    rest: Seq<char>,
)
    requires
        t.is_empty(),
        forall|j: int| 0 <= j < items.len() ==> is_plain(#[trigger] items[j]),
        all_ws(pad),
    ensures
        parse_value(pad + render_value(Json::Array(items), t, indent) + rest) == Some(
            (Json::Array(items), rest),
        ),
    decreases items, items.len() + 3,
{
    if items.len() == 0 {
        lemma_parse_empty(pad, rest);
        assert(items =~= Seq::<Json>::empty());
    } else {
        lemma_array_text(items, t, indent);
        lemma_parse_array_layout(items, t, indent, pad, rest);
    }
}

/// The layout of an object that holds members, with whitespace before it,
/// is read as the object.
proof fn lemma_parse_object_layout(
    members: Seq<Member>,
    t: Theme,
    indent: nat,
    pad: Seq<char>,
    rest: Seq<char>,
)
    requires
        t.is_empty(),
        forall|j: int|
            0 <= j < members.len() ==> needs_no_escape((#[trigger] members[j]).key) && is_plain(
                members[j].value,
            ),
        members.len() > 0,
        all_ws(pad),
    ensures
        parse_value(
            pad + (seq!['{'] + line_start(indent) + members_tail(members, t, indent, 0) + closing(
                indent,
                '}',
            )) + rest,
        ) == Some((Json::Object(members), rest)),
    decreases members, members.len() + 2,
{
    let inner = line_start(indent) + (members_tail(members, t, indent, 0) + closing(indent, '}')
        + rest);
    let r = seq!['{'] + inner;
    let s = pad + (seq!['{'] + line_start(indent) + members_tail(members, t, indent, 0) + closing(
        indent,
        '}',
    )) + rest;
    assert(r[0] == '{');
    lemma_skip_pad(pad, r);
    assert(s =~= pad + r);
    lemma_parse_object(members, t, indent, s, r, rest);
}

/// The text of an object, with whitespace before it, is read as the
/// object.
proof fn lemma_parse_object_value(
    members: Seq<Member>,
    t: Theme,
    indent: nat,
    pad: Seq<char>,
    rest: Seq<char>,
)
    requires
        t.is_empty(),
        forall|j: int|
            0 <= j < members.len() ==> needs_no_escape((#[trigger] members[j]).key) && is_plain(
                members[j].value,
            ),
        all_ws(pad),
    ensures
        parse_value(pad + render_value(Json::Object(members), t, indent) + rest) == Some(
            (Json::Object(members), rest),
        ),
    decreases members, members.len() + 3,
{
    if members.len() == 0 {
        lemma_parse_empty(pad, rest);
        assert(members =~= Seq::<Member>::empty());
    } else {
        lemma_object_text(members, t, indent);
        lemma_parse_object_layout(members, t, indent, pad, rest);
    }
}

/// The text of an array that holds items is read as the array.
proof fn lemma_parse_array(
    items: Seq<Json>,
    t: Theme,
    indent: nat,
    s: Seq<char>,
    r: Seq<char>,
    rest: Seq<char>,
)
    requires
        t.is_empty(),
        forall|j: int| 0 <= j < items.len() ==> is_plain(#[trigger] items[j]),
        items.len() > 0,
        skip_ws(s) == r,
        r.len() <= s.len(),
        r == seq!['['] + (line_start(indent) + (items_tail(items, t, indent, 0) + closing(
            indent,
            ']',
        ) + rest)),
    ensures
        parse_value(s) == Some((Json::Array(items), rest)),
    decreases items, items.len() + 1,
{
    let x = items_tail(items, t, indent, 0) + closing(indent, ']') + rest;
    lemma_layout_is_ws(indent);
    lemma_first_char(items[0], t, indent + 2);
    assert(x[0] == render_value(items[0], t, indent + 2)[0]);
    assert(r.drop_first() =~= line_start(indent) + x);
    lemma_skip_pad(line_start(indent), x);
    lemma_parse_items(items, t, indent, 0, Seq::empty(), rest);
    assert(Seq::<char>::empty() + items_tail(items, t, indent, 0) + closing(indent, ']') + rest
        =~= x);
    assert(items.skip(0) =~= items);
    lemma_unfold_array(s, r, x);
}

/// The text of an object that holds members is read as the object.
proof fn lemma_parse_object(
    members: Seq<Member>,
    t: Theme,
    indent: nat,
    s: Seq<char>,
    r: Seq<char>,
    rest: Seq<char>,
)
    requires
        t.is_empty(),
        forall|j: int|
            0 <= j < members.len() ==> needs_no_escape((#[trigger] members[j]).key) && is_plain(
                members[j].value,
            ),
        members.len() > 0,
        skip_ws(s) == r,
        r.len() <= s.len(),
        r == seq!['{'] + (line_start(indent) + (members_tail(members, t, indent, 0) + closing(
            indent,
            '}',
        ) + rest)),
    ensures
        parse_value(s) == Some((Json::Object(members), rest)),
    decreases members, members.len() + 1,
{
    let x = members_tail(members, t, indent, 0) + closing(indent, '}') + rest;
    lemma_layout_is_ws(indent);
    lemma_members_tail_first(members, t, indent, 0);
    assert(x[0] == members_tail(members, t, indent, 0)[0]);
    assert(r.drop_first() =~= line_start(indent) + x);
    lemma_skip_pad(line_start(indent), x);
    lemma_parse_members(members, t, indent, 0, Seq::empty(), rest);
    assert(Seq::<char>::empty() + members_tail(members, t, indent, 0) + closing(indent, '}')
        + rest =~= x);
    assert(members.skip(0) =~= members);
    lemma_unfold_object(s, r, x);
}

/// What `parse_items` makes of a text whose first item reads as `item` and
/// is followed, after whitespace, by `r`.
proof fn lemma_unfold_items(s: Seq<char>, item: Json, after: Seq<char>, r: Seq<char>)
    requires
        parse_value(s) == Some((item, after)),
        skip_ws(after) == r,
        0 < r.len() <= s.len(),
        r[0] == ']' || r[0] == ',',
    ensures
        r[0] == ']' ==> parse_items(s) == Some((seq![item], r.drop_first())),
        r[0] == ',' ==> parse_items(s) == match parse_items(r.drop_first()) {
            Some((items, rest)) => Some((seq![item] + items, rest)),
            None => None,
        },
{
}

/// The last item of an array, with the closing bracket, is read as that
/// item.
proof fn lemma_last_item(s: Seq<char>, item: Json, indent: nat, rest: Seq<char>)
    requires
        parse_value(s) == Some((item, closing(indent, ']') + rest)),
        (closing(indent, ']') + rest).len() <= s.len(),
    ensures
        parse_items(s) == Some((seq![item], rest)),
{
    let end = seq!['\n'] + spaces(indent);
    let last = seq![']'] + rest;
    let after = closing(indent, ']') + rest;
    lemma_layout_is_ws(indent);
    assert(after =~= end + last);
    lemma_skip_pad(end, last);
    lemma_unfold_items(s, item, after, last);
    assert(last.drop_first() =~= rest);
}

/// An item of an array that others follow is read as that item, before
/// those that follow.
proof fn lemma_inner_item(
    s: Seq<char>,
    item: Json,
    next: Seq<char>,
    others: Seq<Json>,
    rest: Seq<char>,
)
    requires
        parse_value(s) == Some((item, seq![','] + next)),
        (seq![','] + next).len() <= s.len(),
        parse_items(next) == Some((others, rest)),
    ensures
        parse_items(s) == Some((seq![item] + others, rest)),
{
    let after = seq![','] + next;
    assert(skip_ws(after) == after);
    assert(after.drop_first() =~= next);
    lemma_unfold_items(s, item, after, after);
}

/// The text of an array from item `i` on is read as the items from `i` on,
/// up to the closing bracket.
proof fn lemma_parse_items(
    items: Seq<Json>,
    t: Theme,
    indent: nat,
    i: int,
    pad: Seq<char>,
    rest: Seq<char>,
)
    requires
        t.is_empty(),
        forall|j: int| 0 <= j < items.len() ==> is_plain(#[trigger] items[j]),
        0 <= i < items.len(),
        all_ws(pad),
    ensures
        parse_items(pad + items_tail(items, t, indent, i) + closing(indent, ']') + rest) == Some(
            (items.skip(i), rest),
        ),
    decreases items, items.len() - i,
{
    let s = pad + items_tail(items, t, indent, i) + closing(indent, ']') + rest;
    let item = render_value(items[i], t, indent + 2);
    if i + 1 == items.len() {
        let after = closing(indent, ']') + rest;
        assert(s =~= pad + item + after);
        lemma_parse_rendered(items[i], t, indent + 2, pad, after);
        lemma_last_item(s, items[i], indent, rest);
        assert(items.skip(i) =~= seq![items[i]]);
    } else {
        let next = line_start(indent) + items_tail(items, t, indent, i + 1) + closing(indent, ']')
            + rest;
        let after = seq![','] + next;
        assert(s =~= pad + item + after);
        lemma_parse_rendered(items[i], t, indent + 2, pad, after);
        lemma_layout_is_ws(indent);
        lemma_parse_items(items, t, indent, i + 1, line_start(indent), rest);
        lemma_inner_item(s, items[i], next, items.skip(i + 1), rest);
        assert(seq![items[i]] + items.skip(i + 1) =~= items.skip(i));
    }
}

/// What `parse_members` makes of a text whose first member reads as `key`
/// and `value` and is followed, after whitespace, by `r`.
proof fn lemma_unfold_members(
    s: Seq<char>,
    k: Seq<char>,
    key: Seq<char>,
    after_key: Seq<char>,
    value: Json,
    after: Seq<char>,
    r: Seq<char>,
)
    requires
        skip_ws(s) == k,
        0 < k.len() <= s.len(),
        k[0] == '"',
        parse_string_tail(k.drop_first()) == Some((key, after_key)),
        skip_ws(after_key) == after_key,
        0 < after_key.len() <= s.len(),
        after_key[0] == ':',
        parse_value(after_key.drop_first()) == Some((value, after)),
        skip_ws(after) == r,
        0 < r.len() <= s.len(),
        r[0] == '}' || r[0] == ',',
    ensures
        r[0] == '}' ==> parse_members(s) == Some((seq![Member { key, value }], r.drop_first())),
        r[0] == ',' ==> parse_members(s) == match parse_members(r.drop_first()) {
            Some((members, rest)) => Some((seq![Member { key, value }] + members, rest)),
            None => None,
        },
{
}

/// The text of a member, with whitespace before it, starts with the key in
/// quotes, which reads as the key, then a colon and, after a space, the
/// text of the value.
proof fn lemma_member_head(m: Member, t: Theme, indent: nat, pad: Seq<char>, after: Seq<char>)
    requires
        t.is_empty(),
        needs_no_escape(m.key),
        all_ws(pad),
    ensures
        ({
            let value = render_value(m.value, t, indent + 2);
            let after_key = seq![':'] + (seq![' '] + value + after);
            let k = seq!['"'] + (m.key + seq!['"'] + after_key);
            &&& pad + member_text(m, t, indent) + after == pad + k
            &&& skip_ws(pad + k) == k
            &&& parse_string_tail(k.drop_first()) == Some((m.key, after_key))
            &&& skip_ws(after_key) == after_key
            &&& after_key.drop_first() == seq![' '] + value + after
        }),
{
    let value = render_value(m.value, t, indent + 2);
    let after_key = seq![':'] + (seq![' '] + value + after);
    let k = seq!['"'] + (m.key + seq!['"'] + after_key);
    reveal(member_text);
    lemma_empty_theme(t);
    lemma_plain_paint(t.key, seq!['"'] + m.key + seq!['"']);
    assert(pad + member_text(m, t, indent) + after =~= pad + k);
    lemma_skip_pad(pad, k);
    assert(k.drop_first() =~= m.key + seq!['"'] + after_key);
    lemma_string_tail(m.key, after_key);
    assert(after_key.drop_first() =~= seq![' '] + value + after);
}

/// The text of the members of an object starts with the quote of a key.
proof fn lemma_members_tail_first(members: Seq<Member>, t: Theme, indent: nat, i: int)
    requires
        t.is_empty(),
        0 <= i < members.len(),
    ensures
        members_tail(members, t, indent, i).len() > 0,
        members_tail(members, t, indent, i)[0] == '"',
{
    reveal(member_text);
    lemma_empty_theme(t);
    lemma_plain_paint(t.key, seq!['"'] + members[i].key + seq!['"']);
    assert(member_text(members[i], t, indent)[0] == '"');
}

/// The last member of an object, with the closing brace, is read as that
/// member.
proof fn lemma_last_member(
    s: Seq<char>,
    m: Member,
    t: Theme,
    indent: nat,
    pad: Seq<char>,
    rest: Seq<char>,
)
    requires
        t.is_empty(),
        needs_no_escape(m.key),
        all_ws(pad),
        s == pad + member_text(m, t, indent) + (closing(indent, '}') + rest),
        parse_value(
            seq![' '] + render_value(m.value, t, indent + 2) + (closing(indent, '}') + rest),
        ) == Some((m.value, closing(indent, '}') + rest)),
    ensures
        parse_members(s) == Some((seq![m], rest)),
{
    let value = render_value(m.value, t, indent + 2);
    let end = seq!['\n'] + spaces(indent);
    let last = seq!['}'] + rest;
    let after = closing(indent, '}') + rest;
    let after_key = seq![':'] + (seq![' '] + value + after);
    let k = seq!['"'] + (m.key + seq!['"'] + after_key);
    lemma_layout_is_ws(indent);
    lemma_member_head(m, t, indent, pad, after);
    assert(after =~= end + last);
    lemma_skip_pad(end, last);
    lemma_unfold_members(s, k, m.key, after_key, m.value, after, last);
    assert(last.drop_first() =~= rest);
}

/// A member of an object that others follow is read as that member,
/// before those that follow.
proof fn lemma_inner_member(
    s: Seq<char>,
    m: Member,
    t: Theme,
    indent: nat,
    pad: Seq<char>,
    next: Seq<char>,
    others: Seq<Member>,
    rest: Seq<char>,
)
    requires
        t.is_empty(),
        needs_no_escape(m.key),
        all_ws(pad),
        s == pad + member_text(m, t, indent) + (seq![','] + next),
        parse_value(seq![' '] + render_value(m.value, t, indent + 2) + (seq![','] + next)) == Some(
            (m.value, seq![','] + next),
        ),
        parse_members(next) == Some((others, rest)),
    ensures
        parse_members(s) == Some((seq![m] + others, rest)),
{
    let value = render_value(m.value, t, indent + 2);
    let after = seq![','] + next;
    let after_key = seq![':'] + (seq![' '] + value + after);
    let k = seq!['"'] + (m.key + seq!['"'] + after_key);
    lemma_member_head(m, t, indent, pad, after);
    assert(skip_ws(after) == after);
    assert(after.drop_first() =~= next);
    lemma_unfold_members(s, k, m.key, after_key, m.value, after, after);
}

/// The text of an object from member `i` on is read as the members from
/// `i` on, up to the closing brace.
proof fn lemma_parse_members(
    members: Seq<Member>,
    t: Theme,
    indent: nat,
    i: int,
    pad: Seq<char>,
    rest: Seq<char>,
)
    requires
        t.is_empty(),
        forall|j: int|
            0 <= j < members.len() ==> needs_no_escape((#[trigger] members[j]).key) && is_plain(
                members[j].value,
            ),
        0 <= i < members.len(),
        all_ws(pad),
    ensures
        parse_members(pad + members_tail(members, t, indent, i) + closing(indent, '}') + rest)
            == Some((members.skip(i), rest)),
    decreases members, members.len() - i,
{
    let s = pad + members_tail(members, t, indent, i) + closing(indent, '}') + rest;
    let m = members[i];
    lemma_layout_is_ws(indent);
    if i + 1 == members.len() {
        let after = closing(indent, '}') + rest;
        assert(s =~= pad + member_text(m, t, indent) + after);
        lemma_parse_rendered(m.value, t, indent + 2, seq![' '], after);
        lemma_last_member(s, m, t, indent, pad, rest);
        assert(members.skip(i) =~= seq![m]);
    } else {
        let next = line_start(indent) + members_tail(members, t, indent, i + 1) + closing(
            indent,
            '}',
        ) + rest;
        let after = seq![','] + next;
        assert(s =~= pad + member_text(m, t, indent) + after);
        lemma_parse_rendered(m.value, t, indent + 2, seq![' '], after);
        lemma_parse_members(members, t, indent, i + 1, line_start(indent), rest);
        lemma_inner_member(s, m, t, indent, pad, next, members.skip(i + 1), rest);
        assert(seq![m] + members.skip(i + 1) =~= members.skip(i));
    }
}

/// A document that is displayed without styles is read back as the value
/// that was displayed, the order of items and members included, wherever
/// the value is written as valid JSON: its numbers are JSON numbers and its
/// strings and keys need no escape.
pub proof fn lemma_render_parse_round_trip(v: Json, t: Theme)
    requires
        t.is_empty(),
        is_plain(v),
    ensures
        parse_document(render_document(v, t)) == Some(v),
{
    let rest = seq!['\n', '\n'];
    lemma_parse_rendered(v, t, 0, Seq::empty(), rest);
    assert(Seq::<char>::empty() + render_value(v, t, 0) + rest =~= render_document(v, t));
    assert(all_ws(rest));
    lemma_skip_pad(rest, Seq::empty());
    assert(rest + Seq::<char>::empty() =~= rest);
}

} // verus!
