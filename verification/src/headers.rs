//! The header set: header names mapped to values, kept in ascending order of
//! the names, one value per name.

use vstd::prelude::*;
use vstd::utf8::*;

verus! {

/// Whether `a` sorts before `b`: lexicographic order on bytes, a proper
/// prefix before its extensions.
pub open spec fn bytes_less(a: Seq<u8>, b: Seq<u8>) -> bool
    decreases a.len(),
{
    if b.len() == 0 {
        false
    } else if a.len() == 0 {
        true
    } else if a[0] != b[0] {
        a[0] < b[0]
    } else {
        bytes_less(a.drop_first(), b.drop_first())
    }
}

/// Whether the name `a` sorts before the name `b`: the order of strings, by
/// the bytes of their UTF-8 encodings.
pub open spec fn name_less(a: Seq<char>, b: Seq<char>) -> bool {
    bytes_less(encode_utf8(a), encode_utf8(b))
}

/// Whether the names of `rows` strictly ascend.
pub open spec fn strictly_sorted(rows: Seq<(Seq<char>, Seq<char>)>) -> bool {
    forall|i: int, j: int| 0 <= i < j < rows.len() ==> name_less(#[trigger] rows[i].0, #[trigger] rows[j].0)
}

/// The number of leading rows whose names sort before `name`: in a sorted
/// sequence, the place of `name`.
pub open spec fn rank(rows: Seq<(Seq<char>, Seq<char>)>, name: Seq<char>) -> nat
    decreases rows.len(),
{
    if rows.len() > 0 && name_less(rows[0].0, name) {
        1 + rank(rows.drop_first(), name)
    } else {
        0
    }
}

/// `rows` after `name` is bound to `value`: the row of that name is replaced
/// if there is one, else the new row enters at the place of its name.
pub open spec fn insert_row(
    rows: Seq<(Seq<char>, Seq<char>)>,
    name: Seq<char>,
    value: Seq<char>,
) -> Seq<(Seq<char>, Seq<char>)> {
    let p = rank(rows, name) as int;
    if p < rows.len() && rows[p].0 == name {
        rows.update(p, (name, value))
    } else {
        rows.insert(p, (name, value))
    }
}

/// The rows of the header set that is filled with `pairs` in their order.
pub open spec fn header_rows(pairs: Seq<(Seq<char>, Seq<char>)>) -> Seq<(Seq<char>, Seq<char>)>
    decreases pairs.len(),
{
    if pairs.len() == 0 {
        Seq::empty()
    } else {
        insert_row(header_rows(pairs.drop_last()), pairs.last().0, pairs.last().1)
    }
}

/// The value that each name is bound to after `pairs` are written in their
/// order: of two pairs with one name, the later wins.
pub open spec fn bindings(pairs: Seq<(Seq<char>, Seq<char>)>) -> Map<Seq<char>, Seq<char>>
    decreases pairs.len(),
{
    if pairs.len() == 0 {
        Map::empty()
    } else {
        bindings(pairs.drop_last()).insert(pairs.last().0, pairs.last().1)
    }
}

/// The pairs of strings as pairs of texts.
pub open spec fn pairs_view(pairs: Seq<(String, String)>) -> Seq<(Seq<char>, Seq<char>)> {
    Seq::new(pairs.len(), |i: int| (pairs[i].0@, pairs[i].1@))
}

/// No sequence sorts before itself.
pub proof fn lemma_bytes_less_irreflexive(a: Seq<u8>)
    ensures
        !bytes_less(a, a),
    decreases a.len(),
{
    if a.len() > 0 {
        lemma_bytes_less_irreflexive(a.drop_first());
    }
}

/// The order on bytes is transitive.
pub proof fn lemma_bytes_less_transitive(a: Seq<u8>, b: Seq<u8>, c: Seq<u8>)
    requires
        bytes_less(a, b),
        bytes_less(b, c),
    ensures
        bytes_less(a, c),
    decreases a.len(),
{
    if a.len() > 0 && a[0] == b[0] && b[0] == c[0] {
        lemma_bytes_less_transitive(a.drop_first(), b.drop_first(), c.drop_first());
    }
}

/// Of two different sequences one sorts before the other.
pub proof fn lemma_bytes_less_total(a: Seq<u8>, b: Seq<u8>)
    requires
        a != b,
    ensures
        bytes_less(a, b) || bytes_less(b, a),
    decreases a.len(),
{
    if a.len() > 0 && b.len() > 0 && a[0] == b[0] {
        if a.drop_first() == b.drop_first() {
            assert(a =~= seq![a[0]] + a.drop_first());
            assert(b =~= seq![b[0]] + b.drop_first());
        }
        lemma_bytes_less_total(a.drop_first(), b.drop_first());
    } else if a.len() == 0 && b.len() == 0 {
        assert(a =~= b);
    }
}

/// No name sorts before itself.
pub proof fn lemma_name_less_irreflexive(a: Seq<char>)
    ensures
        !name_less(a, a),
{
    lemma_bytes_less_irreflexive(encode_utf8(a));
}

/// The order on names is transitive.
pub proof fn lemma_name_less_transitive(a: Seq<char>, b: Seq<char>, c: Seq<char>)
    requires
        name_less(a, b),
        name_less(b, c),
    ensures
        name_less(a, c),
{
    lemma_bytes_less_transitive(encode_utf8(a), encode_utf8(b), encode_utf8(c));
}

/// Of two names that sort in one order the other order fails.
pub proof fn lemma_name_less_asymmetric(a: Seq<char>, b: Seq<char>)
    requires
        name_less(a, b),
    ensures
        !name_less(b, a),
{
    if name_less(b, a) {
        lemma_name_less_transitive(a, b, a);
        lemma_name_less_irreflexive(a);
    }
}

/// Of two different names one sorts before the other.
pub proof fn lemma_name_less_total(a: Seq<char>, b: Seq<char>)
    requires
        a != b,
    ensures
        name_less(a, b) || name_less(b, a),
{
    encode_utf8_decode_utf8(a);
    encode_utf8_decode_utf8(b);
    lemma_bytes_less_total(encode_utf8(a), encode_utf8(b));
}

/// The place of a name in sorted rows: the rows before it sort before the
/// name, and the row at it, if there is one, does not.
pub proof fn lemma_rank(rows: Seq<(Seq<char>, Seq<char>)>, name: Seq<char>)
    ensures
        rank(rows, name) <= rows.len(),
        forall|j: int| 0 <= j < rank(rows, name) ==> name_less(#[trigger] rows[j].0, name),
        rank(rows, name) < rows.len() ==> !name_less(rows[rank(rows, name) as int].0, name),
    decreases rows.len(),
{
    if rows.len() > 0 && name_less(rows[0].0, name) {
        let tail = rows.drop_first();
        lemma_rank(tail, name);
        assert forall|j: int| 0 <= j < rank(rows, name) implies name_less(
            #[trigger] rows[j].0,
            name,
        ) by {
            if j > 0 {
                assert(rows[j] == tail[j - 1]);
            }
        }
        if rank(rows, name) < rows.len() {
            assert(rows[rank(rows, name) as int] == tail[rank(tail, name) as int]);
        }
    }
}

/// The index up to which every row sorts before a name, and at which the row
/// does not, is the place of the name.
pub proof fn lemma_rank_is(rows: Seq<(Seq<char>, Seq<char>)>, name: Seq<char>, p: int)
    requires
        0 <= p <= rows.len(),
        forall|j: int| 0 <= j < p ==> name_less(#[trigger] rows[j].0, name),
        p < rows.len() ==> !name_less(rows[p].0, name),
    ensures
        rank(rows, name) == p,
    decreases rows.len(),
{
    if p > 0 {
        let tail = rows.drop_first();
        assert(name_less(rows[0].0, name));
        assert forall|j: int| 0 <= j < p - 1 implies name_less(#[trigger] tail[j].0, name) by {
            assert(tail[j] == rows[j + 1]);
        }
        if p - 1 < tail.len() {
            assert(tail[p - 1] == rows[p]);
        }
        lemma_rank_is(tail, name, p - 1);
    }
}

/// Binding a name keeps sorted rows sorted.
pub proof fn lemma_insert_row_sorted(
    rows: Seq<(Seq<char>, Seq<char>)>,
    name: Seq<char>,
    value: Seq<char>,
)
    requires
        strictly_sorted(rows),
    ensures
        strictly_sorted(insert_row(rows, name, value)),
{
    let p = rank(rows, name) as int;
    let out = insert_row(rows, name, value);
    lemma_rank(rows, name);
    if p < rows.len() && rows[p].0 == name {
        assert forall|i: int, j: int| 0 <= i < j < out.len() implies name_less(
            #[trigger] out[i].0,
            #[trigger] out[j].0,
        ) by {
            assert(out[i].0 == rows[i].0);
            assert(out[j].0 == rows[j].0);
        }
    } else {
        if p < rows.len() {
            lemma_name_less_total(name, rows[p].0);
        }
        assert forall|i: int, j: int| 0 <= i < j < out.len() implies name_less(
            #[trigger] out[i].0,
            #[trigger] out[j].0,
        ) by {
            if j < p {
                assert(out[i] == rows[i] && out[j] == rows[j]);
            } else if j == p {
                assert(out[i] == rows[i]);
            } else if i < p {
                assert(out[i] == rows[i] && out[j] == rows[j - 1]);
            } else if i == p {
                assert(out[j] == rows[j - 1]);
                if j - 1 > p {
                    assert(name_less(rows[p].0, rows[j - 1].0));
                    lemma_name_less_transitive(name, rows[p].0, rows[j - 1].0);
                }
            } else {
                assert(out[i] == rows[i - 1] && out[j] == rows[j - 1]);
            }
        }
    }
}

/// Whether `m` binds exactly the names of `rows`, each to the value of its
/// row.
pub open spec fn represents(
    rows: Seq<(Seq<char>, Seq<char>)>,
    m: Map<Seq<char>, Seq<char>>,
) -> bool {
    &&& forall|i: int|
        0 <= i < rows.len() ==> m.dom().contains(#[trigger] rows[i].0) && m[rows[i].0]
            == rows[i].1
    &&& forall|n: Seq<char>| #[trigger]
        m.dom().contains(n) ==> exists|i: int| 0 <= i < rows.len() && #[trigger] rows[i].0 == n
}

/// In sorted rows no name occurs twice.
pub proof fn lemma_sorted_distinct(rows: Seq<(Seq<char>, Seq<char>)>, i: int, j: int)
    requires
        strictly_sorted(rows),
        0 <= i < rows.len(),
        0 <= j < rows.len(),
        rows[i].0 == rows[j].0,
    ensures
        i == j,
{
    lemma_name_less_irreflexive(rows[i].0);
    if i < j {
        assert(name_less(rows[i].0, rows[j].0));
    } else if j < i {
        assert(name_less(rows[j].0, rows[i].0));
    }
}

/// What sorted rows bind is what their rows say.
pub proof fn lemma_bindings_of_sorted(rows: Seq<(Seq<char>, Seq<char>)>)
    requires
        strictly_sorted(rows),
    ensures
        represents(rows, bindings(rows)),
    decreases rows.len(),
{
    if rows.len() > 0 {
        let front = rows.drop_last();
        let last = rows.last();
        assert forall|i: int, j: int| 0 <= i < j < front.len() implies name_less(
            #[trigger] front[i].0,
            #[trigger] front[j].0,
        ) by {
            assert(front[i] == rows[i] && front[j] == rows[j]);
        }
        lemma_bindings_of_sorted(front);
        let m = bindings(rows);
        assert forall|i: int| 0 <= i < rows.len() implies m.dom().contains(#[trigger] rows[i].0)
            && m[rows[i].0] == rows[i].1 by {
            if i < rows.len() - 1 {
                assert(front[i] == rows[i]);
                if rows[i].0 == last.0 {
                    lemma_sorted_distinct(rows, i, rows.len() - 1);
                }
            }
        }
        assert forall|n: Seq<char>| #[trigger] m.dom().contains(n) implies exists|i: int|
            0 <= i < rows.len() && #[trigger] rows[i].0 == n by {
            if n == last.0 {
                assert(rows[rows.len() - 1].0 == n);
            } else {
                assert(bindings(front).dom().contains(n));
                let i = choose|i: int| 0 <= i < front.len() && #[trigger] front[i].0 == n;
                assert(rows[i].0 == n);
            }
        }
    }
}

/// Sorted rows are determined by what they bind.
pub proof fn lemma_sorted_rows_unique(
    r1: Seq<(Seq<char>, Seq<char>)>,
    r2: Seq<(Seq<char>, Seq<char>)>,
    m: Map<Seq<char>, Seq<char>>,
)
    requires
        strictly_sorted(r1),
        strictly_sorted(r2),
        represents(r1, m),
        represents(r2, m),
    ensures
        r1 == r2,
    decreases r1.len(),
{
    if r1.len() == 0 {
        if r2.len() > 0 {
            assert(m.dom().contains(r2[0].0));
        }
        assert(r1 =~= r2);
    } else {
        assert(m.dom().contains(r1[0].0));
        let j = choose|j: int| 0 <= j < r2.len() && #[trigger] r2[j].0 == r1[0].0;
        assert(m.dom().contains(r2[0].0));
        let i = choose|i: int| 0 <= i < r1.len() && #[trigger] r1[i].0 == r2[0].0;
        if j > 0 {
            assert(name_less(r2[0].0, r2[j].0));
            if i > 0 {
                assert(name_less(r1[0].0, r1[i].0));
                lemma_name_less_asymmetric(r1[0].0, r1[i].0);
            } else {
                lemma_name_less_irreflexive(r1[0].0);
            }
        }
        assert(r1[0] == r2[0]);
        let t1 = r1.drop_first();
        let t2 = r2.drop_first();
        let rest = m.remove(r1[0].0);
        lemma_tail_represents(r1, m);
        lemma_tail_represents(r2, m);
        assert forall|a: int, b: int| 0 <= a < b < t1.len() implies name_less(
            #[trigger] t1[a].0,
            #[trigger] t1[b].0,
        ) by {
            assert(t1[a] == r1[a + 1] && t1[b] == r1[b + 1]);
        }
        assert forall|a: int, b: int| 0 <= a < b < t2.len() implies name_less(
            #[trigger] t2[a].0,
            #[trigger] t2[b].0,
        ) by {
            assert(t2[a] == r2[a + 1] && t2[b] == r2[b + 1]);
        }
        lemma_sorted_rows_unique(t1, t2, rest);
        assert(r1 =~= seq![r1[0]] + t1);
        assert(r2 =~= seq![r2[0]] + t2);
    }
}

/// Without their first row, sorted rows bind what they bound before but for
/// the first name.
pub proof fn lemma_tail_represents(
    rows: Seq<(Seq<char>, Seq<char>)>,
    m: Map<Seq<char>, Seq<char>>,
)
    requires
        strictly_sorted(rows),
        represents(rows, m),
        rows.len() > 0,
    ensures
        represents(rows.drop_first(), m.remove(rows[0].0)),
{
    let tail = rows.drop_first();
    let rest = m.remove(rows[0].0);
    assert forall|i: int| 0 <= i < tail.len() implies rest.dom().contains(#[trigger] tail[i].0)
        && rest[tail[i].0] == tail[i].1 by {
        assert(tail[i] == rows[i + 1]);
        if rows[i + 1].0 == rows[0].0 {
            lemma_sorted_distinct(rows, i + 1, 0);
        }
    }
    assert forall|n: Seq<char>| #[trigger] rest.dom().contains(n) implies exists|i: int|
        0 <= i < tail.len() && #[trigger] tail[i].0 == n by {
        assert(m.dom().contains(n));
        let i = choose|i: int| 0 <= i < rows.len() && #[trigger] rows[i].0 == n;
        assert(tail[i - 1].0 == n);
    }
}

/// Binding a name in sorted rows binds it in what they bind.
pub proof fn lemma_insert_row_bindings(
    rows: Seq<(Seq<char>, Seq<char>)>,
    name: Seq<char>,
    value: Seq<char>,
)
    requires
        strictly_sorted(rows),
    ensures
        represents(insert_row(rows, name, value), bindings(rows).insert(name, value)),
{
    let p = rank(rows, name) as int;
    let out = insert_row(rows, name, value);
    let m = bindings(rows).insert(name, value);
    lemma_rank(rows, name);
    lemma_bindings_of_sorted(rows);
    if p < rows.len() && rows[p].0 == name {
        assert forall|i: int| 0 <= i < out.len() implies m.dom().contains(#[trigger] out[i].0)
            && m[out[i].0] == out[i].1 by {
            if i != p {
                assert(out[i] == rows[i]);
                if rows[i].0 == name {
                    lemma_sorted_distinct(rows, i, p);
                }
            }
        }
        assert forall|n: Seq<char>| #[trigger] m.dom().contains(n) implies exists|i: int|
            0 <= i < out.len() && #[trigger] out[i].0 == n by {
            if n == name {
                assert(out[p].0 == n);
            } else {
                let i = choose|i: int| 0 <= i < rows.len() && #[trigger] rows[i].0 == n;
                assert(out[i].0 == n);
            }
        }
    } else {
        assert forall|i: int| 0 <= i < out.len() implies m.dom().contains(#[trigger] out[i].0)
            && m[out[i].0] == out[i].1 by {
            if i < p {
                assert(out[i] == rows[i]);
                if rows[i].0 == name {
                    lemma_name_less_irreflexive(name);
                }
            } else if i > p {
                assert(out[i] == rows[i - 1]);
                if rows[i - 1].0 == name {
                    if i - 1 > p {
                        assert(name_less(rows[p].0, rows[i - 1].0));
                    }
                }
            }
        }
        assert forall|n: Seq<char>| #[trigger] m.dom().contains(n) implies exists|i: int|
            0 <= i < out.len() && #[trigger] out[i].0 == n by {
            if n == name {
                assert(out[p].0 == n);
            } else {
                let i = choose|i: int| 0 <= i < rows.len() && #[trigger] rows[i].0 == n;
                if i < p {
                    assert(out[i].0 == n);
                } else {
                    assert(out[i + 1].0 == n);
                }
            }
        }
    }
}

/// The rows of a header set are sorted by name, hold each name once, and
/// bind each name to the value that the last pair of that name gave it.
pub proof fn lemma_header_rows(pairs: Seq<(Seq<char>, Seq<char>)>)
    ensures
        strictly_sorted(header_rows(pairs)),
        represents(header_rows(pairs), bindings(pairs)),
    decreases pairs.len(),
{
    if pairs.len() > 0 {
        let front = pairs.drop_last();
        lemma_header_rows(front);
        let rows = header_rows(front);
        lemma_insert_row_sorted(rows, pairs.last().0, pairs.last().1);
        lemma_insert_row_bindings(rows, pairs.last().0, pairs.last().1);
        lemma_bindings_of_sorted(rows);
        lemma_represents_unique(rows, bindings(rows), bindings(front));
    }
}

/// Two maps that the same rows represent are one map.
pub proof fn lemma_represents_unique(
    rows: Seq<(Seq<char>, Seq<char>)>,
    m1: Map<Seq<char>, Seq<char>>,
    m2: Map<Seq<char>, Seq<char>>,
)
    requires
        represents(rows, m1),
        represents(rows, m2),
    ensures
        m1 == m2,
{
    assert forall|n: Seq<char>| m1.dom().contains(n) <==> m2.dom().contains(n) by {
        if m1.dom().contains(n) {
            let i = choose|i: int| 0 <= i < rows.len() && #[trigger] rows[i].0 == n;
            assert(m2.dom().contains(rows[i].0));
        }
        if m2.dom().contains(n) {
            let i = choose|i: int| 0 <= i < rows.len() && #[trigger] rows[i].0 == n;
            assert(m1.dom().contains(rows[i].0));
        }
    }
    assert forall|n: Seq<char>| m1.dom().contains(n) implies m1[n] == m2[n] by {
        let i = choose|i: int| 0 <= i < rows.len() && #[trigger] rows[i].0 == n;
        assert(m1[rows[i].0] == rows[i].1);
        assert(m2[rows[i].0] == rows[i].1);
    }
    assert(m1 =~= m2);
}

/// The rows of a header set depend on the pairs only through the value that
/// each name is bound to last.
pub proof fn lemma_header_rows_by_bindings(
    a: Seq<(Seq<char>, Seq<char>)>,
    b: Seq<(Seq<char>, Seq<char>)>,
)
    requires
        bindings(a) == bindings(b),
    ensures
        header_rows(a) == header_rows(b),
{
    lemma_header_rows(a);
    lemma_header_rows(b);
    lemma_sorted_rows_unique(header_rows(a), header_rows(b), bindings(a));
}

/// Whether no name of `pairs` comes with two different values.
pub open spec fn conflict_free(pairs: Seq<(Seq<char>, Seq<char>)>) -> bool {
    forall|i: int, j: int|
        0 <= i < pairs.len() && 0 <= j < pairs.len() && #[trigger] pairs[i].0 == #[trigger] pairs[j].0
            ==> pairs[i].1 == pairs[j].1
}

/// The names that pairs bind are the names that occur in them.
pub proof fn lemma_bindings_dom(pairs: Seq<(Seq<char>, Seq<char>)>, n: Seq<char>)
    ensures
        bindings(pairs).dom().contains(n) <==> exists|i: int|
            0 <= i < pairs.len() && #[trigger] pairs[i].0 == n,
    decreases pairs.len(),
{
    if pairs.len() > 0 {
        let front = pairs.drop_last();
        let last = pairs.last();
        lemma_bindings_dom(front, n);
        if bindings(pairs).dom().contains(n) {
            if n == last.0 {
                assert(pairs[pairs.len() - 1].0 == n);
            } else {
                let i = choose|i: int| 0 <= i < front.len() && #[trigger] front[i].0 == n;
                assert(pairs[i].0 == n);
            }
        }
        if exists|i: int| 0 <= i < pairs.len() && #[trigger] pairs[i].0 == n {
            let i = choose|i: int| 0 <= i < pairs.len() && #[trigger] pairs[i].0 == n;
            if i < pairs.len() - 1 {
                assert(front[i].0 == n);
            }
        }
    }
}

/// A name is bound to the value of the last pair that holds it.
pub proof fn lemma_bindings_last(pairs: Seq<(Seq<char>, Seq<char>)>, i: int)
    requires
        0 <= i < pairs.len(),
        forall|j: int| i < j < pairs.len() ==> #[trigger] pairs[j].0 != pairs[i].0,
    ensures
        bindings(pairs).dom().contains(pairs[i].0),
        bindings(pairs)[pairs[i].0] == pairs[i].1,
    decreases pairs.len(),
{
    if i < pairs.len() - 1 {
        let front = pairs.drop_last();
        assert(pairs[pairs.len() - 1].0 != pairs[i].0);
        assert(front[i] == pairs[i]);
        assert forall|j: int| i < j < front.len() implies #[trigger] front[j].0 != front[i].0 by {
            assert(front[j] == pairs[j]);
        }
        lemma_bindings_last(front, i);
    }
}

/// Where no name comes with two values, each name is bound to the value of
/// every pair that holds it.
pub proof fn lemma_bindings_conflict_free(pairs: Seq<(Seq<char>, Seq<char>)>, i: int)
    requires
        conflict_free(pairs),
        0 <= i < pairs.len(),
    ensures
        bindings(pairs).dom().contains(pairs[i].0),
        bindings(pairs)[pairs[i].0] == pairs[i].1,
    decreases pairs.len() - i,
{
    if exists|j: int| i < j < pairs.len() && #[trigger] pairs[j].0 == pairs[i].0 {
        let j = choose|j: int| i < j < pairs.len() && #[trigger] pairs[j].0 == pairs[i].0;
        lemma_bindings_conflict_free(pairs, j);
    } else {
        lemma_bindings_last(pairs, i);
    }
}

/// Header rows do not depend on the order of the pairs, nor on how often a
/// pair occurs: two sequences that hold the same pairs, no name with two
/// different values, fill the same header set.
pub proof fn lemma_header_rows_order_independent(
    a: Seq<(Seq<char>, Seq<char>)>,
    b: Seq<(Seq<char>, Seq<char>)>,
)
    requires
        conflict_free(a),
        forall|x: (Seq<char>, Seq<char>)| a.contains(x) <==> b.contains(x),
    ensures
        header_rows(a) == header_rows(b),
{
    let ma = bindings(a);
    let mb = bindings(b);
    assert forall|i: int, j: int|
        0 <= i < b.len() && 0 <= j < b.len() && #[trigger] b[i].0 == #[trigger] b[j].0 implies b[i].1
        == b[j].1 by {
        assert(b.contains(b[i]) && b.contains(b[j]));
        assert(a.contains(b[i]) && a.contains(b[j]));
        let x = choose|x: int| 0 <= x < a.len() && a[x] == b[i];
        let y = choose|y: int| 0 <= y < a.len() && a[y] == b[j];
        assert(a[x].0 == a[y].0);
    }
    assert forall|n: Seq<char>| ma.dom().contains(n) <==> mb.dom().contains(n) by {
        lemma_bindings_dom(a, n);
        lemma_bindings_dom(b, n);
        if ma.dom().contains(n) {
            let i = choose|i: int| 0 <= i < a.len() && #[trigger] a[i].0 == n;
            assert(a.contains(a[i]));
            assert(b.contains(a[i]));
            let j = choose|j: int| 0 <= j < b.len() && b[j] == a[i];
            assert(b[j].0 == n);
        }
        if mb.dom().contains(n) {
            let i = choose|i: int| 0 <= i < b.len() && #[trigger] b[i].0 == n;
            assert(b.contains(b[i]));
            assert(a.contains(b[i]));
            let j = choose|j: int| 0 <= j < a.len() && a[j] == b[i];
            assert(a[j].0 == n);
        }
    }
    assert forall|n: Seq<char>| ma.dom().contains(n) implies ma[n] == mb[n] by {
        lemma_bindings_dom(a, n);
        let i = choose|i: int| 0 <= i < a.len() && #[trigger] a[i].0 == n;
        lemma_bindings_conflict_free(a, i);
        assert(a.contains(a[i]));
        assert(b.contains(a[i]));
        let j = choose|j: int| 0 <= j < b.len() && b[j] == a[i];
        lemma_bindings_conflict_free(b, j);
    }
    assert(ma =~= mb);
    lemma_header_rows_by_bindings(a, b);
}

/// Feeding the pairs a second time changes nothing.
pub proof fn lemma_header_rows_idempotent(a: Seq<(Seq<char>, Seq<char>)>)
    ensures
        header_rows(a + a) == header_rows(a),
{
    lemma_bindings_repeat(a, a.len() as int);
    assert(a.take(a.len() as int) =~= a);
    lemma_header_rows_by_bindings(a + a, a);
}

/// Writing a prefix of the pairs again after all of them binds what the
/// pairs bind, but that the names of the prefix get its values.
proof fn lemma_bindings_repeat(a: Seq<(Seq<char>, Seq<char>)>, k: int)
    requires
        0 <= k <= a.len(),
    ensures
        bindings(a + a.take(k)) == bindings(a).union_prefer_right(bindings(a.take(k))),
        k == a.len() ==> bindings(a + a.take(k)) == bindings(a),
    decreases k,
{
    if k == 0 {
        assert(a + a.take(0) =~= a);
        assert(bindings(a.take(0)) =~= Map::empty());
        assert(bindings(a) =~= bindings(a).union_prefer_right(bindings(a.take(0))));
    } else {
        lemma_bindings_repeat(a, k - 1);
        assert((a + a.take(k)).drop_last() =~= a + a.take(k - 1));
        assert(a.take(k).drop_last() =~= a.take(k - 1));
        assert((a + a.take(k)).last() == a[k - 1]);
        assert(a.take(k).last() == a[k - 1]);
        assert(bindings(a + a.take(k)) =~= bindings(a).union_prefer_right(bindings(a.take(k))));
    }
    if k == a.len() {
        assert(a.take(k) =~= a);
        assert(bindings(a).union_prefer_right(bindings(a)) =~= bindings(a));
    }
}

/// Whether `a` sorts before `b` as strings are ordered.
pub fn name_lt(a: &str, b: &str) -> (r: bool)
    ensures
        r == name_less(a@, b@),
{
    let x = a.as_bytes();
    let y = b.as_bytes();
    let mut i: usize = 0;
    assert(x@.skip(0) =~= x@ && y@.skip(0) =~= y@);
    while i < x.len() && i < y.len()
        invariant
            i <= x.len(),
            i <= y.len(),
            x@ == encode_utf8(a@),
            y@ == encode_utf8(b@),
            bytes_less(x@, y@) == bytes_less(x@.skip(i as int), y@.skip(i as int)),
        decreases x.len() - i,
    {
        proof {
            assert(x@.skip(i as int).drop_first() =~= x@.skip(i + 1));
            assert(y@.skip(i as int).drop_first() =~= y@.skip(i + 1));
        }
        if x[i] != y[i] {
            return x[i] < y[i];
        }
        i = i + 1;
    }
    i < y.len()
}

/// Header names mapped to values: one value per name, the names in ascending
/// order.
#[derive(Debug)]
pub struct HeaderSet {
    entries: Vec<(String, String)>,
}

impl View for HeaderSet {
    type V = Seq<(Seq<char>, Seq<char>)>;

    /// The rows of the set, in the order in which they are displayed.
    closed spec fn view(&self) -> Seq<(Seq<char>, Seq<char>)> {
        pairs_view(self.entries@)
    }
}

impl HeaderSet {
    /// The invariant of the set: the names of its rows strictly ascend, so
    /// that no name occurs twice. Every function that returns a set
    /// establishes it and `insert` keeps it.
    pub open spec fn wf(&self) -> bool {
        strictly_sorted(self@)
    }

    /// The empty set.
    pub fn new() -> (s: HeaderSet)
        ensures
            s@ == Seq::<(Seq<char>, Seq<char>)>::empty(),
            s.wf(),
    {
        let s = HeaderSet { entries: Vec::new() };
        assert(s@ =~= Seq::<(Seq<char>, Seq<char>)>::empty());
        s
    }

    /// The number of names.
    pub fn len(&self) -> (n: usize)
        ensures
            n == self@.len(),
    {
        self.entries.len()
    }

    /// The rows in ascending order of their names.
    pub fn rows(&self) -> (r: &Vec<(String, String)>)
        ensures
            pairs_view(r@) == self@,
    {
        &self.entries
    }

    /// Binds `name` to `value`: the value of a name that the set holds is
    /// replaced, a new name enters at its place in the order.
    pub fn insert(&mut self, name: String, value: String)
        requires
            old(self).wf(),
        ensures
            final(self)@ == insert_row(old(self)@, name@, value@),
            final(self).wf(),
    {
        let ghost rows = self@;
        let mut i: usize = 0;
        while i < self.entries.len() && name_lt(self.entries[i].0.as_str(), name.as_str())
            invariant
                i <= self.entries.len(),
                rows == pairs_view(self.entries@),
                self.entries == old(self).entries,
                forall|j: int| 0 <= j < i ==> name_less(#[trigger] rows[j].0, name@),
            decreases self.entries.len() - i,
        {
            i = i + 1;
        }
        proof {
            lemma_rank_is(rows, name@, i as int);
            lemma_insert_row_sorted(rows, name@, value@);
        }
        if i < self.entries.len() && self.entries[i].0 == name {
            self.entries[i] = (name, value);
            assert(pairs_view(self.entries@) =~= insert_row(rows, name@, value@));
        } else {
            self.entries.insert(i, (name, value));
            assert(pairs_view(self.entries@) =~= insert_row(rows, name@, value@));
        }
    }

    /// The set filled with `pairs` in their order: of two pairs with one
    /// name the later wins.
    pub fn from_pairs(pairs: &Vec<(String, String)>) -> (s: HeaderSet)
        ensures
            s@ == header_rows(pairs_view(pairs@)),
            s.wf(),
    {
        let mut s = HeaderSet::new();
        let ghost all = pairs_view(pairs@);
        let mut i: usize = 0;
        assert(all.take(0) =~= Seq::empty());
        while i < pairs.len()
            invariant
                i <= pairs.len(),
                all == pairs_view(pairs@),
                s@ == header_rows(all.take(i as int)),
                s.wf(),
            decreases pairs.len() - i,
        {
            let name = pairs[i].0.clone();
            let value = pairs[i].1.clone();
            proof {
                assert(all.take(i + 1).drop_last() =~= all.take(i as int));
                assert(all.take(i + 1).last() == all[i as int]);
            }
            s.insert(name, value);
            i = i + 1;
        }
        assert(all.take(pairs.len() as int) =~= all);
        s
    }
}

} // verus!
