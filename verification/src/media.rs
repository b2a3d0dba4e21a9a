//! The content type of a body, as far as the choice of a formatter needs it.

use vstd::prelude::*;

verus! {

/// Whether `b` is a space or a tab.
pub open spec fn is_blank(b: u8) -> bool {
    b == 0x20 || b == 0x09
}

/// `b` with an ASCII capital letter turned into the small one.
pub open spec fn to_lower(b: u8) -> u8 {
    if 0x41 <= b <= 0x5a {
        (b + 0x20) as u8
    } else {
        b
    }
}

/// The bytes of `application/json`.
pub open spec fn json_media_type() -> Seq<u8> {
    seq![
        0x61, 0x70, 0x70, 0x6c, 0x69, 0x63, 0x61, 0x74, 0x69, 0x6f, 0x6e, 0x2f, 0x6a, 0x73, 0x6f,
        0x6e,
    ]
}

/// Whether every byte of `v` from `from` up to `to` is a space or a tab.
pub open spec fn blank_run(v: Seq<u8>, from: int, to: int) -> bool {
    forall|i: int| from <= i < to ==> is_blank(#[trigger] v[i])
}

/// Whether `v` reads `application/json` from `start` on, in letters of
/// either case.
pub open spec fn reads_json_at(v: Seq<u8>, start: int) -> bool {
    &&& 0 <= start
    &&& start + 16 <= v.len()
    &&& forall|k: int| 0 <= k < 16 ==> to_lower(#[trigger] v[start + k]) == json_media_type()[k]
}

/// Whether a content type declares JSON: its media type, which ends at the
/// first `;` if there is one and may stand between spaces and tabs, is
/// `application/json` in letters of either case. Parameters are not read.
pub open spec fn is_json_content_type(v: Seq<u8>) -> bool {
    exists|start: int, end: int|
        #![trigger blank_run(v, 0, start), blank_run(v, start + 16, end)]
        {
            &&& blank_run(v, 0, start)
            &&& reads_json_at(v, start)
            &&& start + 16 <= end <= v.len()
            &&& blank_run(v, start + 16, end)
            &&& (end == v.len() || v[end] == 0x3b)
        }
}

/// Whether `b` is a space or a tab.
fn blank(b: u8) -> (r: bool)
    ensures
        r == is_blank(b),
{
    b == 0x20 || b == 0x09
}

/// `b` with an ASCII capital letter turned into the small one.
fn lower(b: u8) -> (r: u8)
    ensures
        r == to_lower(b),
{
    if 0x41 <= b && b <= 0x5a {
        b + 0x20
    } else {
        b
    }
}

/// The first index from `from` on at which `v` holds no space or tab.
fn skip_blanks(v: &[u8], from: usize) -> (to: usize)
    requires
        from <= v@.len(),
    ensures
        from <= to <= v@.len(),
        blank_run(v@, from as int, to as int),
        to < v@.len() ==> !is_blank(v@[to as int]),
{
    let mut to: usize = from;
    while to < v.len() && blank(v[to])
        invariant
            from <= to <= v@.len(),
            blank_run(v@, from as int, to as int),
        decreases v@.len() - to,
    {
        to = to + 1;
    }
    to
}

/// Whether a content type declares JSON.
pub fn declares_json(v: &[u8]) -> (r: bool)
    ensures
        r == is_json_content_type(v@),
{
    let name: [u8; 16] = [
        0x61, 0x70, 0x70, 0x6c, 0x69, 0x63, 0x61, 0x74, 0x69, 0x6f, 0x6e, 0x2f, 0x6a, 0x73, 0x6f,
        0x6e,
    ];
    assert(name@ =~= json_media_type());
    let start = skip_blanks(v, 0);
    proof {
        lemma_start_is_unique(v@, start as int);
    }
    if v.len() - start < 16 {
        assert(!reads_json_at(v@, start as int));
        return false;
    }
    let mut k: usize = 0;
    while k < 16
        invariant
            k <= 16,
            start + 16 <= v@.len(),
            name@ == json_media_type(),
            forall|j: int| 0 <= j < k ==> to_lower(#[trigger] v@[start + j]) == json_media_type()[j],
            v@.len() <= usize::MAX,
            forall|s: int| blank_run(v@, 0, s) && #[trigger] reads_json_at(v@, s) ==> s == start,
        decreases 16 - k,
    {
        if lower(v[start + k]) != name[k] {
            assert(!reads_json_at(v@, start as int)) by {
                if reads_json_at(v@, start as int) {
                    assert(to_lower(v@[start + k]) == json_media_type()[k as int]);
                }
            }
            return false;
        }
        k = k + 1;
    }
    assert(reads_json_at(v@, start as int));
    let end = skip_blanks(v, start + 16);
    let r = end == v.len() || v[end] == 0x3b;
    proof {
        if r {
            assert(blank_run(v@, 0, start as int) && blank_run(v@, start + 16, end as int));
        } else {
            assert forall|s: int, e: int|
                #![trigger blank_run(v@, 0, s), blank_run(v@, s + 16, e)]
                !(blank_run(v@, 0, s) && reads_json_at(v@, s) && s + 16 <= e <= v@.len()
                    && blank_run(v@, s + 16, e) && (e == v@.len() || v@[e] == 0x3b)) by {
                if blank_run(v@, 0, s) && reads_json_at(v@, s) && s + 16 <= e <= v@.len()
                    && blank_run(v@, s + 16, e) && (e == v@.len() || v@[e] == 0x3b) {
                    assert(s == start);
                    if e < end {
                        assert(is_blank(v@[e]));
                    } else if e > end {
                        assert(is_blank(v@[end as int]));
                    }
                }
            }
        }
    }
    r
}

/// The media type can only start where the leading spaces and tabs end.
proof fn lemma_start_is_unique(v: Seq<u8>, start: int)
    requires
        0 <= start <= v.len(),
        blank_run(v, 0, start),
        start < v.len() ==> !is_blank(v[start]),
    ensures
        forall|s: int| blank_run(v, 0, s) && #[trigger] reads_json_at(v, s) ==> s == start,
{
    assert forall|s: int| blank_run(v, 0, s) && #[trigger] reads_json_at(v, s) implies s
        == start by {
        assert(to_lower(v[s + 0]) == json_media_type()[0]);
        if s < start {
            assert(is_blank(v[s]));
        } else if s > start {
            assert(is_blank(v[start]));
        }
    }
}

} // verus!
