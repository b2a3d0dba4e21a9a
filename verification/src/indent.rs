//! Indentation: a value that is displayed deeper is the same text, every
//! line but the first moved to the right.

use vstd::prelude::*;

use crate::display::{render_items, render_key, render_members, render_value, separator};
use crate::text::{decimal, digit_char, spaces};
use crate::theme::{color_code, painted, style_prefix, style_suffix, Color, Style, Theme};
use crate::value::{Json, Member};

verus! {

/// `s` with `k` spaces put in after each of its newlines: the text moved
/// `k` columns to the right, but for its first line.
pub open spec fn shift(s: Seq<char>, k: nat) -> Seq<char>
    decreases s.len(),
{
    if s.len() == 0 {
        Seq::empty()
    } else if s[0] == '\n' {
        seq!['\n'] + spaces(k) + shift(s.drop_first(), k)
    } else {
        seq![s[0]] + shift(s.drop_first(), k)
    }
}

/// Whether `s` holds no newline.
pub open spec fn line_free(s: Seq<char>) -> bool {
    forall|i: int| 0 <= i < s.len() ==> (#[trigger] s[i]) != '\n'
}

/// Whether no number, string or key of `v` holds a newline, so that the
/// newlines of its text are those of the layout.
pub open spec fn holds_no_newline(v: Json) -> bool
    decreases v,
{
    match v {
        Json::Null => true,
        Json::Bool(_) => true,
        Json::Number(n) => line_free(n),
        Json::String(s) => line_free(s),
        Json::Array(items) => forall|i: int|
            0 <= i < items.len() ==> holds_no_newline(#[trigger] items[i]),
        Json::Object(members) => forall|i: int|
            0 <= i < members.len() ==> line_free((#[trigger] members[i]).key) && holds_no_newline(
                members[i].value,
            ),
    }
}

/// Shifting goes through a concatenation.
pub proof fn lemma_shift_concat(a: Seq<char>, b: Seq<char>, k: nat)
    ensures
        shift(a + b, k) == shift(a, k) + shift(b, k),
    decreases a.len(),
{
    if a.len() == 0 {
        assert(a + b =~= b);
        assert(shift(a, k) + shift(b, k) =~= shift(b, k));
    } else {
        lemma_shift_concat(a.drop_first(), b, k);
        assert((a + b).drop_first() =~= a.drop_first() + b);
        assert((a + b)[0] == a[0]);
        assert(shift(a + b, k) =~= shift(a, k) + shift(b, k));
    }
}

/// Shifting leaves a text without newlines as it is.
pub proof fn lemma_shift_line_free(s: Seq<char>, k: nat)
    requires
        line_free(s),
    ensures
        shift(s, k) == s,
    decreases s.len(),
{
    if s.len() > 0 {
        assert(s[0] != '\n');
        assert forall|i: int| 0 <= i < s.drop_first().len() implies (#[trigger] s.drop_first()[i])
            != '\n' by {
            assert(s.drop_first()[i] == s[i + 1]);
        }
        lemma_shift_line_free(s.drop_first(), k);
        assert(seq![s[0]] + s.drop_first() =~= s);
    }
}

/// A text made of two texts without newlines holds none.
pub proof fn lemma_line_free_concat(a: Seq<char>, b: Seq<char>)
    requires
        line_free(a),
        line_free(b),
    ensures
        line_free(a + b),
{
    assert forall|i: int| 0 <= i < (a + b).len() implies (#[trigger] (a + b)[i]) != '\n' by {
        if i < a.len() {
            assert((a + b)[i] == a[i]);
        } else {
            assert((a + b)[i] == b[i - a.len()]);
        }
    }
}

/// A decimal numeral holds no newline.
pub proof fn lemma_decimal_line_free(n: nat)
    ensures
        line_free(decimal(n)),
    decreases n,
{
    if n >= 10 {
        lemma_decimal_line_free(n / 10);
        lemma_line_free_concat(decimal(n / 10), seq![digit_char(n % 10)]);
        assert(decimal(n / 10).push(digit_char(n % 10)) =~= decimal(n / 10) + seq![
            digit_char(n % 10),
        ]);
    }
}

/// The code of a colour holds no newline.
proof fn lemma_color_code_line_free(c: Color)
    ensures
        line_free(color_code(c)),
{
    match c {
        Color::Fixed(n) => {
            lemma_decimal_line_free(n as nat);
            lemma_line_free_concat(seq!['3', '8', ';', '5', ';'], decimal(n as nat));
        },
        Color::RGB(r, g, b) => {
            lemma_decimal_line_free(r as nat);
            lemma_decimal_line_free(g as nat);
            lemma_decimal_line_free(b as nat);
            let a = seq!['3', '8', ';', '2', ';'] + decimal(r as nat);
            lemma_line_free_concat(seq!['3', '8', ';', '2', ';'], decimal(r as nat));
            lemma_line_free_concat(a, seq![';']);
            lemma_line_free_concat(a + seq![';'], decimal(g as nat));
            lemma_line_free_concat(a + seq![';'] + decimal(g as nat), seq![';']);
            lemma_line_free_concat(
                a + seq![';'] + decimal(g as nat) + seq![';'],
                decimal(b as nat),
            );
        },
        _ => {},
    }
}

/// Styling a text without newlines adds none.
pub proof fn lemma_painted_line_free(s: Style, text: Seq<char>)
    requires
        line_free(text),
    ensures
        line_free(painted(s, text)),
{
    if s.is_plain() {
        assert(painted(s, text) =~= text);
    } else {
        let bold: Seq<char> = if s.is_bold {
            seq!['1']
        } else {
            Seq::empty()
        };
        let color: Seq<char> = match s.foreground {
            Some(c) => (if s.is_bold {
                seq![';']
            } else {
                Seq::empty()
            }) + color_code(c),
            None => Seq::empty(),
        };
        match s.foreground {
            Some(c) => {
                lemma_color_code_line_free(c);
                lemma_line_free_concat(
                    if s.is_bold {
                        seq![';']
                    } else {
                        Seq::empty()
                    },
                    color_code(c),
                );
            },
            None => {},
        }
        lemma_line_free_concat(seq!['\u{1b}', '['], bold);
        lemma_line_free_concat(seq!['\u{1b}', '['] + bold, color);
        lemma_line_free_concat(seq!['\u{1b}', '['] + bold + color, seq!['m']);
        assert(style_prefix(s) == seq!['\u{1b}', '['] + bold + color + seq!['m']);
        lemma_line_free_concat(style_prefix(s), text);
        lemma_line_free_concat(style_prefix(s) + text, style_suffix(s));
    }
}

/// A line end and the indentation that follows it, shifted, are the line
/// end and the deeper indentation.
proof fn lemma_shift_line_end(n: nat, k: nat)
    ensures
        shift(seq!['\n'] + spaces(n), k) == seq!['\n'] + spaces(n + k),
{
    let s = seq!['\n'] + spaces(n);
    assert(s.drop_first() =~= spaces(n));
    lemma_shift_line_free(spaces(n), k);
    assert(seq!['\n'] + spaces(k) + spaces(n) =~= seq!['\n'] + spaces(n + k));
}

/// A text without newlines, shifted after a shifted text.
proof fn lemma_shift_push(a: Seq<char>, b: Seq<char>, k: nat)
    requires
        line_free(b),
    ensures
        shift(a + b, k) == shift(a, k) + b,
{
    lemma_shift_concat(a, b, k);
    lemma_shift_line_free(b, k);
}

/// A value that is displayed `k` columns deeper is the same text with
/// every line but the first moved `k` columns to the right: nesting adds to
/// the indentation of all that a container holds, and of its closing
/// bracket, and changes nothing else.
pub proof fn lemma_render_shift(v: Json, t: Theme, indent: nat, k: nat)
    requires
        holds_no_newline(v),
    ensures
        render_value(v, t, indent + k) == shift(render_value(v, t, indent), k),
    decreases v, 0nat,
{
    match v {
        Json::Null => {
            lemma_painted_line_free(t.null_value, seq!['n', 'u', 'l', 'l']);
            lemma_shift_line_free(render_value(v, t, indent), k);
        },
        Json::Bool(b) => {
            lemma_painted_line_free(t.bool_value, seq!['t', 'r', 'u', 'e']);
            lemma_painted_line_free(t.bool_value, seq!['f', 'a', 'l', 's', 'e']);
            lemma_shift_line_free(render_value(v, t, indent), k);
        },
        Json::Number(n) => {
            lemma_painted_line_free(t.number_value, n);
            lemma_shift_line_free(render_value(v, t, indent), k);
        },
        Json::String(s) => {
            lemma_painted_line_free(t.string_value, s);
            lemma_line_free_concat(seq!['"'], painted(t.string_value, s));
            lemma_line_free_concat(seq!['"'] + painted(t.string_value, s), seq!['"']);
            lemma_shift_line_free(render_value(v, t, indent), k);
        },
        Json::Array(items) => {
            if items.len() == 0 {
                lemma_shift_line_free(render_value(v, t, indent), k);
            } else {
                lemma_items_shift(items, t, indent, k, items.len());
                lemma_container_shift(
                    '[',
                    render_items(items, t, indent, items.len()),
                    ']',
                    indent,
                    k,
                );
            }
        },
        Json::Object(members) => {
            if members.len() == 0 {
                lemma_shift_line_free(render_value(v, t, indent), k);
            } else {
                lemma_members_shift(members, t, indent, k, members.len());
                lemma_container_shift(
                    '{',
                    render_members(members, t, indent, members.len()),
                    '}',
                    indent,
                    k,
                );
            }
        },
    }
}

/// A container's brackets round its shifted lines, the closing one on a
/// line of its own at the deeper indentation, are the shifted container.
proof fn lemma_container_shift(open: char, lines: Seq<char>, close: char, indent: nat, k: nat)
    requires
        open != '\n',
        close != '\n',
    ensures
        shift(seq![open] + lines + seq!['\n'] + spaces(indent) + seq![close], k) == seq![open]
            + shift(lines, k) + seq!['\n'] + spaces(indent + k) + seq![close],
{
    let end = seq!['\n'] + spaces(indent);
    lemma_shift_line_free(seq![open], k);
    lemma_shift_concat(seq![open], lines, k);
    lemma_shift_concat(seq![open] + lines, end, k);
    lemma_shift_line_end(indent, k);
    lemma_shift_push(seq![open] + lines + end, seq![close], k);
    assert(seq![open] + lines + seq!['\n'] + spaces(indent) + seq![close] =~= seq![open] + lines
        + end + seq![close]);
    assert(seq![open] + shift(lines, k) + (seq!['\n'] + spaces(indent + k)) + seq![close]
        =~= seq![open] + shift(lines, k) + seq!['\n'] + spaces(indent + k) + seq![close]);
}

/// The line of an item, shifted.
proof fn lemma_line_shift(
    head: Seq<char>,
    i: nat,
    indent: nat,
    label: Seq<char>,
    item: Seq<char>,
    k: nat,
)
    requires
        line_free(label),
    ensures
        shift(head + separator(i) + seq!['\n'] + spaces(indent + 2) + label + item, k) == shift(
            head,
            k,
        ) + separator(i) + seq!['\n'] + spaces(indent + k + 2) + label + shift(item, k),
{
    let start = seq!['\n'] + spaces(indent + 2);
    lemma_shift_push(head, separator(i), k);
    lemma_shift_concat(head + separator(i), start, k);
    lemma_shift_line_end(indent + 2, k);
    lemma_shift_push(head + separator(i) + start, label, k);
    lemma_shift_concat(head + separator(i) + start + label, item, k);
    assert(head + separator(i) + seq!['\n'] + spaces(indent + 2) + label + item =~= head
        + separator(i) + start + label + item);
    assert(shift(head, k) + separator(i) + (seq!['\n'] + spaces(indent + 2 + k)) + label + shift(
        item,
        k,
    ) =~= shift(head, k) + separator(i) + seq!['\n'] + spaces(indent + k + 2) + label + shift(
        item,
        k,
    ));
}

/// The lines of the first `j` items of an array that is displayed `k`
/// columns deeper are the lines of those items, shifted.
proof fn lemma_items_shift(items: Seq<Json>, t: Theme, indent: nat, k: nat, j: nat)
    requires
        forall|i: int| 0 <= i < items.len() ==> holds_no_newline(#[trigger] items[i]),
        j <= items.len(),
    ensures
        render_items(items, t, indent + k, j) == shift(render_items(items, t, indent, j), k),
    decreases items, j,
{
    if j > 0 {
        let i = (j - 1) as nat;
        lemma_items_shift(items, t, indent, k, i);
        lemma_render_shift(items[i as int], t, indent + 2, k);
        lemma_line_shift(
            render_items(items, t, indent, i),
            i,
            indent,
            Seq::empty(),
            render_value(items[i as int], t, indent + 2),
            k,
        );
        assert(render_items(items, t, indent, j) =~= render_items(items, t, indent, i)
            + separator(i) + seq!['\n'] + spaces(indent + 2) + Seq::<char>::empty() + render_value(
            items[i as int],
            t,
            indent + 2,
        ));
        assert(render_items(items, t, indent + k, j) =~= render_items(items, t, indent + k, i)
            + separator(i) + seq!['\n'] + spaces(indent + k + 2) + Seq::<char>::empty()
            + render_value(items[i as int], t, indent + 2 + k));
    }
}

/// The lines of the first `j` members of an object that is displayed `k`
/// columns deeper are the lines of those members, shifted.
proof fn lemma_members_shift(members: Seq<Member>, t: Theme, indent: nat, k: nat, j: nat)
    requires
        forall|i: int|
            0 <= i < members.len() ==> line_free((#[trigger] members[i]).key) && holds_no_newline(
                members[i].value,
            ),
        j <= members.len(),
    ensures
        render_members(members, t, indent + k, j) == shift(
            render_members(members, t, indent, j),
            k,
        ),
    decreases members, j,
{
    if j > 0 {
        let i = (j - 1) as nat;
        let m = members[i as int];
        let label = render_key(m.key, t) + seq![':', ' '];
        lemma_members_shift(members, t, indent, k, i);
        lemma_render_shift(m.value, t, indent + 2, k);
        lemma_line_free_concat(seq!['"'], m.key);
        lemma_line_free_concat(seq!['"'] + m.key, seq!['"']);
        lemma_painted_line_free(t.key, seq!['"'] + m.key + seq!['"']);
        lemma_line_free_concat(render_key(m.key, t), seq![':', ' ']);
        lemma_line_shift(
            render_members(members, t, indent, i),
            i,
            indent,
            label,
            render_value(m.value, t, indent + 2),
            k,
        );
        assert(render_members(members, t, indent, j) =~= render_members(members, t, indent, i)
            + separator(i) + seq!['\n'] + spaces(indent + 2) + label + render_value(
            m.value,
            t,
            indent + 2,
        ));
        assert(render_members(members, t, indent + k, j) =~= render_members(
            members,
            t,
            indent + k,
            i,
        ) + separator(i) + seq!['\n'] + spaces(indent + k + 2) + label + render_value(
            m.value,
            t,
            indent + 2 + k,
        ));
    }
}

} // verus!
