//! Symbols as characters.
use vstd::prelude::*;

verus! {

/// The character of symbol `s`: `N` for the blank, then `A`, `C`, `G`, `T`.
pub open spec fn symbol_char_spec(s: u8) -> char {
    if s == 0 {
        'N'
    } else if s == 1 {
        'A'
    } else if s == 2 {
        'C'
    } else if s == 3 {
        'G'
    } else {
        'T'
    }
}

/// The characters of a sequence of symbols.
pub open spec fn symbols_text(s: Seq<u8>) -> Seq<char> {
    s.map_values(|x: u8| symbol_char_spec(x))
}

/// The character of symbol `s`.
pub fn symbol_char(s: u8) -> (r: char)
    requires
        s <= 4,
    ensures
        r == symbol_char_spec(s),
{
    if s == 0 {
        'N'
    } else if s == 1 {
        'A'
    } else if s == 2 {
        'C'
    } else if s == 3 {
        'G'
    } else {
        'T'
    }
}

/// Relies on `String::push`: appends one character.
#[verifier::external_body]
pub(crate) fn push_char(s: &mut String, c: char)
    ensures
        final(s)@ == old(s)@.push(c),
{
    s.push(c)
}

/// The text of a sequence of symbols.
pub fn symbols_to_string(symbols: &Vec<u8>) -> (r: String)
    requires
        forall|i: int| 0 <= i < symbols@.len() ==> #[trigger] symbols@[i] <= 4,
    ensures
        r@ == symbols_text(symbols@),
        r@.len() == symbols@.len(),
{
    let mut r = String::new();
    let mut i: usize = 0;
    while i < symbols.len()
        invariant
            i <= symbols@.len(),
            forall|j: int| 0 <= j < symbols@.len() ==> #[trigger] symbols@[j] <= 4,
            r@ == symbols_text(symbols@.subrange(0, i as int)),
        decreases symbols@.len() - i,
    {
        let c = symbol_char(symbols[i]);
        push_char(&mut r, c);
        assert(symbols@.subrange(0, i + 1) =~= symbols@.subrange(0, i as int).push(symbols@[i as int]));
        assert(symbols_text(symbols@.subrange(0, i + 1)) =~= symbols_text(symbols@.subrange(0, i as int)).push(c));
        i = i + 1;
    }
    assert(symbols@.subrange(0, symbols@.len() as int) =~= symbols@);
    r
}

/// Largest quality score that still maps to printable ASCII (`~`).
pub const MAX_QUALITY: u32 = 93;

/// The character of a quality score: code `33 + q`, with `q` capped at
/// `MAX_QUALITY`.
pub open spec fn quality_char_spec(q: u32) -> char {
    (33 + if q > MAX_QUALITY {
        MAX_QUALITY
    } else {
        q
    }) as u8 as char
}

/// The characters of a sequence of quality scores.
pub open spec fn quality_text(q: Seq<u32>) -> Seq<char> {
    q.map_values(|x: u32| quality_char_spec(x))
}

/// The character of quality score `q`.
pub fn quality_char(q: u32) -> (r: char)
    ensures
        r == quality_char_spec(q),
{
    let capped: u8 = if q > MAX_QUALITY {
        MAX_QUALITY as u8
    } else {
        q as u8
    };
    (33 + capped) as char
}

/// The text of a sequence of quality scores.
pub fn quality_to_string(q: &Vec<u32>) -> (r: String)
    ensures
        r@ == quality_text(q@),
        r@.len() == q@.len(),
{
    let mut r = String::new();
    let mut i: usize = 0;
    while i < q.len()
        invariant
            i <= q@.len(),
            r@ == quality_text(q@.subrange(0, i as int)),
        decreases q@.len() - i,
    {
        let c = quality_char(q[i]);
        push_char(&mut r, c);
        assert(q@.subrange(0, i + 1) =~= q@.subrange(0, i as int).push(q@[i as int]));
        assert(quality_text(q@.subrange(0, i + 1)) =~= quality_text(q@.subrange(0, i as int)).push(
            c,
        ));
        i = i + 1;
    }
    assert(q@.subrange(0, q@.len() as int) =~= q@);
    r
}

} // verus!
