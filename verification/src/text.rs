//! Small text utilities over `String` and `&str`.
use vstd::prelude::*;

verus! {

/// Appends one character to a string.
///
/// Trusted: calls `String::push`, which the standard library documents as
/// appending the given `char` to the end of the string.
#[verifier::external_body]
pub fn push_char(s: &mut String, c: char)
    ensures
        final(s)@ == old(s)@.push(c),
{
    s.push(c);
}

/// ASCII lowercase of a character (other characters are unchanged).
pub open spec fn spec_lower(c: char) -> char {
    if 'A' <= c <= 'Z' {
        ((c as u32) + 32) as char
    } else {
        c
    }
}

pub fn to_lower(c: char) -> (r: char)
    ensures
        r == spec_lower(c),
{
    if 'A' <= c && c <= 'Z' {
        ((c as u8) + 32) as char
    } else {
        c
    }
}

} // verus!

verus! {

/// The decimal digit character of `d`.
pub open spec fn digit_char(d: nat) -> char {
    (48 + d) as char
}

/// Decimal representation of a natural number.
pub open spec fn decimal(n: nat) -> Seq<char>
    decreases n,
{
    if n < 10 {
        seq![digit_char(n)]
    } else {
        decimal(n / 10).push(digit_char(n % 10))
    }
}

/// Appends the decimal representation of `n`.
pub fn push_decimal(s: &mut String, n: usize)
    ensures
        final(s)@ == old(s)@ + decimal(n as nat),
    decreases n,
{
    if n >= 10 {
        push_decimal(s, n / 10);
    }
    let d = (n % 10) as u8;
    push_char(s, (48u8 + d) as char);
    proof {
        assert(s@ =~= old(s)@ + decimal(n as nat));
    }
}

} // verus!

verus! {

/// Bytes of `c` in UTF-8: 1 below U+0080, 2 below U+0800, 3 below
/// U+10000, else 4.
pub open spec fn char_utf8_len(c: char) -> nat {
    if (c as u32) < 0x80 {
        1
    } else if (c as u32) < 0x800 {
        2
    } else if (c as u32) < 0x10000 {
        3
    } else {
        4
    }
}

/// Bytes of the text in UTF-8.
pub open spec fn utf8_len(t: Seq<char>) -> nat
    decreases t.len(),
{
    if t.len() == 0 {
        0
    } else {
        utf8_len(t.drop_last()) + char_utf8_len(t.last())
    }
}

/// Every character of the text is ASCII.
pub open spec fn ascii_text(t: Seq<char>) -> bool {
    forall|i: int| 0 <= i < t.len() ==> (#[trigger] t[i] as u32) < 0x80
}

/// The length of a text in bytes.
///
/// Trusted: calls `str::len`, which the standard library documents as the
/// length of the string in bytes; a `str` is UTF-8, whose encoding of each
/// `char` takes the bytes `char_utf8_len` gives (as `char::len_utf8`
/// documents).
#[verifier::external_body]
pub fn byte_len(s: &str) -> (r: usize)
    ensures
        r == utf8_len(s@),
{
    s.len()
}

/// A text has at least as many bytes as characters, and exactly as many
/// when it is ASCII.
pub proof fn lemma_utf8_len(t: Seq<char>)
    ensures
        utf8_len(t) >= t.len(),
        (utf8_len(t) == t.len()) == ascii_text(t),
    decreases t.len(),
{
    if t.len() > 0 {
        lemma_utf8_len(t.drop_last());
        if ascii_text(t) {
            assert forall|i: int| 0 <= i < t.drop_last().len() implies (#[trigger] t.drop_last()[i] as u32)
                < 0x80 by {
                assert(t.drop_last()[i] == t[i]);
            }
            assert((t[t.len() - 1] as u32) < 0x80);
        } else {
            if ascii_text(t.drop_last()) && (t.last() as u32) < 0x80 {
                assert forall|i: int| 0 <= i < t.len() implies (#[trigger] t[i] as u32) < 0x80 by {
                    if i < t.len() - 1 {
                        assert(t.drop_last()[i] == t[i]);
                    }
                }
            }
        }
    }
}

/// Whether every character of the text is ASCII.
pub fn is_ascii_text(s: &str) -> (r: bool)
    ensures
        r == ascii_text(s@),
{
    let n = s.unicode_len();
    let mut i: usize = 0;
    while i < n
        invariant
            n == s@.len(),
            i <= n,
            forall|j: int| 0 <= j < i ==> (#[trigger] s@[j] as u32) < 0x80,
        decreases n - i,
    {
        if (s.get_char(i) as u32) >= 0x80 {
            return false;
        }
        i += 1;
    }
    true
}

} // verus!
