//! What holds of the renderers whatever their input.

use vstd::prelude::*;

use crate::display::{header_block, render_items, render_members, render_value, status_slot};
use crate::headers::{
    bindings, conflict_free, lemma_header_rows_by_bindings, lemma_header_rows_idempotent,
    lemma_header_rows_order_independent,
};
use crate::text::spaces;
use crate::theme::{Slot, Theme};
use crate::value::{Json, Member};

verus! {

/// The style of a status code depends on the code only through its
/// hundreds: success codes are displayed as `StatusSuccess`, informational
/// and redirection codes as `StatusInfo`, all others as `StatusError`.
pub proof fn lemma_status_slot_by_band(code: u16)
    requires
        100 <= code <= 599,
    ensures
        code / 100 == 2 ==> status_slot(code) == Slot::StatusSuccess,
        code / 100 == 1 || code / 100 == 3 ==> status_slot(code) == Slot::StatusInfo,
        code / 100 == 4 || code / 100 == 5 ==> status_slot(code) == Slot::StatusError,
{
}

/// Two status codes with the same hundreds are displayed in the same style.
pub proof fn lemma_status_slot_same_band(a: u16, b: u16)
    requires
        100 <= a <= 599,
        100 <= b <= 599,
        a / 100 == b / 100,
    ensures
        status_slot(a) == status_slot(b),
{
}

/// The header block depends on the pairs only through the value that each
/// name is bound to last.
pub proof fn lemma_header_block_by_bindings(
    a: Seq<(Seq<char>, Seq<char>)>,
    b: Seq<(Seq<char>, Seq<char>)>,
    t: Theme,
)
    requires
        bindings(a) == bindings(b),
    ensures
        header_block(a, t) == header_block(b, t),
{
    lemma_header_rows_by_bindings(a, b);
}

/// The header block does not depend on the order in which the pairs come:
/// two sequences that hold the same pairs, no name with two different
/// values, give the same block.
pub proof fn lemma_header_block_order_independent(
    a: Seq<(Seq<char>, Seq<char>)>,
    b: Seq<(Seq<char>, Seq<char>)>,
    t: Theme,
)
    requires
        conflict_free(a),
        forall|x: (Seq<char>, Seq<char>)| a.contains(x) <==> b.contains(x),
    ensures
        header_block(a, t) == header_block(b, t),
{
    lemma_header_rows_order_independent(a, b);
}

/// Feeding the same pairs a second time gives the same header block.
pub proof fn lemma_header_block_idempotent(a: Seq<(Seq<char>, Seq<char>)>, t: Theme)
    ensures
        header_block(a + a, t) == header_block(a, t),
{
    lemma_header_rows_idempotent(a);
}

/// An empty array is displayed as `[]` and an empty object as `{}`, whatever
/// the theme and the indentation: an empty container holds no newline.
pub proof fn lemma_empty_containers(t: Theme, indent: nat)
    ensures
        render_value(Json::Array(Seq::empty()), t, indent) == seq!['[', ']'],
        render_value(Json::Object(Seq::empty()), t, indent) == seq!['{', '}'],
{
}

/// The text `a` ends with the text `b`.
pub open spec fn ends_with(a: Seq<char>, b: Seq<char>) -> bool {
    a.len() >= b.len() && a.subrange(a.len() - b.len(), a.len() as int) == b
}

/// An array that holds items opens with its bracket and closes on a line
/// of its own, the closing bracket at the indentation at which the array
/// stands; each item stands on a line of its own, two spaces deeper, and is
/// itself displayed at that indentation.
pub proof fn lemma_array_layout(items: Seq<Json>, t: Theme, indent: nat, i: int)
    requires
        0 <= i < items.len(),
    ensures
        render_value(Json::Array(items), t, indent) == seq!['['] + render_items(
            items,
            t,
            indent,
            items.len(),
        ) + seq!['\n'] + spaces(indent) + seq![']'],
        ends_with(render_value(Json::Array(items), t, indent), seq!['\n'] + spaces(indent) + seq![']']),
        ends_with(
            render_items(items, t, indent, (i + 1) as nat),
            seq!['\n'] + spaces(indent + 2) + render_value(items[i], t, indent + 2),
        ),
{
    let text = render_value(Json::Array(items), t, indent);
    let tail = seq!['\n'] + spaces(indent) + seq![']'];
    assert(text.subrange(text.len() - tail.len(), text.len() as int) =~= tail);
    let line = render_items(items, t, indent, (i + 1) as nat);
    let item = seq!['\n'] + spaces(indent + 2) + render_value(items[i], t, indent + 2);
    assert(line.subrange(line.len() - item.len(), line.len() as int) =~= item);
}

/// An object that holds members opens with its brace and closes on a line
/// of its own, the closing brace at the indentation at which the object
/// stands; each member's value is displayed two spaces deeper.
pub proof fn lemma_object_layout(members: Seq<Member>, t: Theme, indent: nat, i: int)
    requires
        0 <= i < members.len(),
    ensures
        render_value(Json::Object(members), t, indent) == seq!['{'] + render_members(
            members,
            t,
            indent,
            members.len(),
        ) + seq!['\n'] + spaces(indent) + seq!['}'],
        ends_with(
            render_value(Json::Object(members), t, indent),
            seq!['\n'] + spaces(indent) + seq!['}'],
        ),
        ends_with(
            render_members(members, t, indent, (i + 1) as nat),
            render_value(members[i].value, t, indent + 2),
        ),
{
    let text = render_value(Json::Object(members), t, indent);
    let tail = seq!['\n'] + spaces(indent) + seq!['}'];
    assert(text.subrange(text.len() - tail.len(), text.len() as int) =~= tail);
    let line = render_members(members, t, indent, (i + 1) as nat);
    let item = render_value(members[i].value, t, indent + 2);
    assert(line.subrange(line.len() - item.len(), line.len() as int) =~= item);
}

} // verus!
