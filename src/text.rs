//! Text rules of the store: key normalization, the order of keys in listings
//! and the display window of values.
use vstd::prelude::*;

verus! {

/// ASCII upper case of one character; every other character is kept.
pub open spec fn upper_char(c: char) -> char {
    let u = c as u32;
    if 97 <= u && u <= 122 {
        ((u - 32) as u32) as char
    } else {
        c
    }
}

/// The normalized form of a key: each ASCII lower-case letter made upper case.
pub open spec fn upper(s: Seq<char>) -> Seq<char> {
    s.map_values(|c: char| upper_char(c))
}

/// Relies on `str::to_ascii_uppercase`: maps `a`..=`z` to `A`..=`Z` and keeps
/// every other character.
#[verifier::external_body]
fn ascii_uppercase(s: &str) -> (r: String)
    ensures
        r@ == upper(s@),
{
    s.to_ascii_uppercase()
}

/// Normalizes a key to the form in which the store keeps it.
pub fn normalize_key(key: &str) -> (r: String)
    ensures
        r@ == upper(key@),
{
    ascii_uppercase(key)
}

/// Lexicographic order by code point from position `i` on (the byte order of
/// UTF-8 text).
pub open spec fn lex_lt_from(a: Seq<char>, b: Seq<char>, i: int) -> bool
    decreases a.len() - i,
{
    if i < 0 || i >= b.len() {
        false
    } else if i >= a.len() {
        true
    } else if a[i] != b[i] {
        (a[i] as u32) < (b[i] as u32)
    } else {
        lex_lt_from(a, b, i + 1)
    }
}

/// `a` sorts strictly before `b`.
pub open spec fn key_lt(a: Seq<char>, b: Seq<char>) -> bool {
    lex_lt_from(a, b, 0)
}

proof fn lemma_lex_irreflexive(a: Seq<char>, i: int)
    requires
        0 <= i,
    ensures
        !lex_lt_from(a, a, i),
    decreases a.len() - i,
{
    if i < a.len() {
        lemma_lex_irreflexive(a, i + 1);
    }
}

proof fn lemma_lex_transitive(a: Seq<char>, b: Seq<char>, c: Seq<char>, i: int)
    requires
        0 <= i,
        lex_lt_from(a, b, i),
        lex_lt_from(b, c, i),
    ensures
        lex_lt_from(a, c, i),
    decreases a.len() - i,
{
    if i < a.len() && a[i] == b[i] && b[i] == c[i] {
        lemma_lex_transitive(a, b, c, i + 1);
    }
}

proof fn lemma_lex_total(a: Seq<char>, b: Seq<char>, i: int)
    requires
        0 <= i <= a.len(),
        i <= b.len(),
    ensures
        lex_lt_from(a, b, i) || lex_lt_from(b, a, i) || a.subrange(i, a.len() as int)
            =~= b.subrange(i, b.len() as int),
    decreases a.len() - i,
{
    if i == a.len() && i == b.len() {
        assert(a.subrange(i, a.len() as int) =~= b.subrange(i, b.len() as int));
    } else if i < a.len() && i < b.len() && a[i] != b[i] {
        vstd::utf8::char_u32_cast(a[i], a[i] as u32);
        vstd::utf8::char_u32_cast(b[i], b[i] as u32);
    } else if i < a.len() && i < b.len() && a[i] == b[i] {
        lemma_lex_total(a, b, i + 1);
        if a.subrange(i + 1, a.len() as int) =~= b.subrange(i + 1, b.len() as int) {
            assert(a.subrange(i, a.len() as int) =~= b.subrange(i, b.len() as int)) by {
                assert forall|k: int| 0 <= k < a.len() - i implies a.subrange(i, a.len() as int)[k]
                    == b.subrange(i, b.len() as int)[k] by {
                    if k > 0 {
                        assert(a.subrange(i + 1, a.len() as int)[k - 1] == b.subrange(
                            i + 1,
                            b.len() as int,
                        )[k - 1]);
                    }
                }
            }
        }
    }
}

/// The key order is a strict total order.
pub proof fn lemma_key_order()
    ensures
        forall|a: Seq<char>| !key_lt(a, a),
        forall|a: Seq<char>, b: Seq<char>, c: Seq<char>|
            #[trigger] key_lt(a, b) && #[trigger] key_lt(b, c) ==> key_lt(a, c),
        forall|a: Seq<char>, b: Seq<char>|
            a != b ==> #[trigger] key_lt(a, b) || key_lt(b, a),
{
    assert forall|a: Seq<char>| !key_lt(a, a) by {
        lemma_lex_irreflexive(a, 0);
    }
    assert forall|a: Seq<char>, b: Seq<char>, c: Seq<char>|
        #[trigger] key_lt(a, b) && #[trigger] key_lt(b, c) implies key_lt(a, c) by {
        lemma_lex_transitive(a, b, c, 0);
    }
    assert forall|a: Seq<char>, b: Seq<char>| a != b implies #[trigger] key_lt(a, b) || key_lt(
        b,
        a,
    ) by {
        lemma_lex_total(a, b, 0);
        assert(a.subrange(0, a.len() as int) =~= a);
        assert(b.subrange(0, b.len() as int) =~= b);
    }
}

/// Compares two keys in the listing order.
pub fn key_less(a: &String, b: &String) -> (r: bool)
    ensures
        r == key_lt(a@, b@),
{
    let sa = a.as_str();
    let sb = b.as_str();
    let alen = sa.unicode_len();
    let blen = sb.unicode_len();
    let mut i: usize = 0;
    while i < alen && i < blen
        invariant
            sa@ == a@,
            sb@ == b@,
            alen == a@.len(),
            blen == b@.len(),
            i <= alen,
            i <= blen,
            key_lt(a@, b@) == lex_lt_from(a@, b@, i as int),
        decreases alen - i,
    {
        let x = sa.get_char(i);
        let y = sb.get_char(i);
        if x != y {
            return (x as u32) < (y as u32);
        }
        i = i + 1;
    }
    i < blen
}

/// The part of `v` that a display window shows: the characters at the 1-based
/// positions `start .. start + length`, cut to the value's own bounds (a start
/// of 0 stands one position before the first character).
pub open spec fn window(v: Seq<char>, start: u32, length: u32) -> Seq<char> {
    let lo = if start == 0 { 0 } else { start - 1 };
    let end = start + length;
    let hi = if end == 0 { 0 } else { end - 1 };
    let lo = if lo > v.len() { v.len() as int } else { lo };
    let hi = if hi > v.len() { v.len() as int } else { hi };
    v.subrange(lo, hi)
}

/// Cuts `v` to the window of `length` characters from the 1-based position
/// `start`.
pub fn substr(v: &String, start: u32, length: u32) -> (r: String)
    ensures
        r@ == window(v@, start, length),
{
    let s = v.as_str();
    let n = s.unicode_len();
    let lo: u64 = if start == 0 { 0 } else { start as u64 - 1 };
    let end: u64 = start as u64 + length as u64;
    let hi: u64 = if end == 0 { 0 } else { end - 1 };
    let lo: usize = if lo > n as u64 { n } else { lo as usize };
    let hi: usize = if hi > n as u64 { n } else { hi as usize };
    String::from_str(s.substring_char(lo, hi))
}

} // verus!
