//! Text building blocks shared by the renderers: the byte sink, runs of
//! spaces and decimal numerals.

use vstd::prelude::*;
use vstd::string::*;
use vstd::utf8::*;

verus! {

/// A run of `n` spaces.
pub open spec fn spaces(n: nat) -> Seq<char> {
    Seq::new(n, |i: int| ' ')
}

/// The character that writes the decimal digit `d`.
pub open spec fn digit_char(d: nat) -> char
    recommends
        d < 10,
{
    if d == 0 {
        '0'
    } else if d == 1 {
        '1'
    } else if d == 2 {
        '2'
    } else if d == 3 {
        '3'
    } else if d == 4 {
        '4'
    } else if d == 5 {
        '5'
    } else if d == 6 {
        '6'
    } else if d == 7 {
        '7'
    } else if d == 8 {
        '8'
    } else {
        '9'
    }
}

/// The decimal numeral of `n`, without sign or leading zeros.
pub open spec fn decimal(n: nat) -> Seq<char>
    decreases n,
{
    if n < 10 {
        seq![digit_char(n)]
    } else {
        decimal(n / 10).push(digit_char(n % 10))
    }
}

/// The UTF-8 encoding of a concatenation is the concatenation of the
/// encodings.
pub proof fn lemma_encode_concat(a: Seq<char>, b: Seq<char>)
    ensures
        encode_utf8(a + b) == encode_utf8(a) + encode_utf8(b),
    decreases a.len(),
{
    if a.len() == 0 {
        assert(a + b =~= b);
        assert(encode_utf8(a) + encode_utf8(b) =~= encode_utf8(b));
    } else {
        lemma_encode_concat(a.drop_first(), b);
        assert((a + b).drop_first() =~= a.drop_first() + b);
        assert(encode_utf8(a + b) =~= encode_utf8(a) + encode_utf8(b));
    }
}

/// An encoding has at least as many bytes as the text has characters.
pub proof fn lemma_encode_len(a: Seq<char>)
    ensures
        encode_utf8(a).len() >= a.len(),
    decreases a.len(),
{
    if a.len() > 0 {
        lemma_encode_len(a.drop_first());
    }
}

/// Appends the UTF-8 bytes of `s` to the sink.
pub fn emit(f: &mut Vec<u8>, s: &str)
    ensures
        final(f)@ == old(f)@ + encode_utf8(s@),
{
    f.extend_from_slice(s.as_bytes());
    assert(f@ =~= old(f)@ + encode_utf8(s@));
}

/// The one-character string that writes the digit `d`.
fn digit_str(d: u8) -> (s: &'static str)
    requires
        d < 10,
    ensures
        s@ == seq![digit_char(d as nat)],
{
    proof {
        reveal_strlit("0");
        reveal_strlit("1");
        reveal_strlit("2");
        reveal_strlit("3");
        reveal_strlit("4");
        reveal_strlit("5");
        reveal_strlit("6");
        reveal_strlit("7");
        reveal_strlit("8");
        reveal_strlit("9");
    }
    let s = match d {
        0 => "0",
        1 => "1",
        2 => "2",
        3 => "3",
        4 => "4",
        5 => "5",
        6 => "6",
        7 => "7",
        8 => "8",
        _ => "9",
    };
    assert(s@ =~= seq![digit_char(d as nat)]);
    s
}

/// Writes `n` in decimal.
pub fn decimal_string(n: u16) -> (s: String)
    ensures
        s@ == decimal(n as nat),
    decreases n,
{
    if n < 10 {
        String::from_str(digit_str(n as u8))
    } else {
        let mut s = decimal_string(n / 10);
        s.append(digit_str((n % 10) as u8));
        assert(s@ =~= decimal(n as nat));
        s
    }
}

/// Appends `n` spaces to the sink.
pub fn emit_spaces(f: &mut Vec<u8>, n: usize)
    ensures
        final(f)@ == old(f)@ + encode_utf8(spaces(n as nat)),
{
    let mut i: usize = 0;
    assert(spaces(0) =~= Seq::<char>::empty());
    assert(f@ =~= old(f)@ + encode_utf8(spaces(0)));
    while i < n
        invariant
            i <= n,
            f@ == old(f)@ + encode_utf8(spaces(i as nat)),
        decreases n - i,
    {
        proof {
            reveal_strlit(" ");
            assert(spaces((i + 1) as nat) =~= spaces(i as nat) + " "@);
            lemma_encode_concat(spaces(i as nat), " "@);
        }
        emit(f, " ");
        i = i + 1;
    }
}

/// Appends `s` to a sink that holds `base` and then the text `done`.
pub(crate) fn put(f: &mut Vec<u8>, s: &str, Ghost(base): Ghost<Seq<u8>>, Ghost(done): Ghost<Seq<char>>)
    requires
        old(f)@ == base + encode_utf8(done),
    ensures
        final(f)@ == base + encode_utf8(done + s@),
{
    emit(f, s);
    proof {
        lemma_encode_concat(done, s@);
        assert(f@ =~= base + encode_utf8(done + s@));
    }
}

/// Appends `n` spaces to a sink that holds `base` and then the text `done`.
pub(crate) fn put_spaces(
    f: &mut Vec<u8>,
    n: usize,
    Ghost(base): Ghost<Seq<u8>>,
    Ghost(done): Ghost<Seq<char>>,
)
    requires
        old(f)@ == base + encode_utf8(done),
    ensures
        final(f)@ == base + encode_utf8(done + spaces(n as nat)),
{
    emit_spaces(f, n);
    proof {
        lemma_encode_concat(done, spaces(n as nat));
        assert(f@ =~= base + encode_utf8(done + spaces(n as nat)));
    }
}

} // verus!
