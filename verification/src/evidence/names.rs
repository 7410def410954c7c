//! Reading names by convention, and writing numbered ones.
use crate::text::same_text;
use vstd::prelude::*;

verus! {

/// What `str::to_lowercase` of the standard library makes of a text.
pub uninterp spec fn lowered(text: Seq<char>) -> Seq<char>;

/// What `str::to_uppercase` of the standard library makes of a text.
pub uninterp spec fn raised(text: Seq<char>) -> Seq<char>;

/// `str::to_lowercase`: the same text always gives the same result. Which
/// character maps to which is Unicode's and is not stated.
#[verifier::external_body]
pub(crate) fn lowercase(text: &str) -> (r: String)
    ensures
        r@ == lowered(text@),
{
    text.to_lowercase()
}

/// `str::to_uppercase`: the same text always gives the same result. Which
/// character maps to which is Unicode's and is not stated.
#[verifier::external_body]
pub(crate) fn uppercase(text: &str) -> (r: String)
    ensures
        r@ == raised(text@),
{
    text.to_uppercase()
}

/// Whether a text stands at a place in another.
pub open spec fn stands_at(text: Seq<char>, part: Seq<char>, i: int) -> bool {
    0 <= i <= text.len() - part.len() && text.subrange(i, i + part.len()) == part
}

/// Whether a text holds another anywhere.
pub open spec fn holds(text: Seq<char>, part: Seq<char>) -> bool {
    exists|i: int| #[trigger] stands_at(text, part, i)
}

/// Whether a text begins with another.
pub open spec fn begins(text: Seq<char>, part: Seq<char>) -> bool {
    stands_at(text, part, 0)
}

/// Whether a text holds another anywhere.
pub fn contains(text: &str, part: &str) -> (r: bool)
    ensures
        r == holds(text@, part@),
{
    let n: usize = text.unicode_len();
    let m: usize = part.unicode_len();
    if n < m {
        return false;
    }
    let last: usize = n - m;
    let mut i: usize = 0;
    while i < last
        invariant
            n == text@.len(),
            m == part@.len(),
            last == n - m,
            i <= last,
            forall|j: int| 0 <= j < i ==> !(#[trigger] stands_at(text@, part@, j)),
        decreases last - i,
    {
        if same_text(text.substring_char(i, i + m), part) {
            assert(stands_at(text@, part@, i as int));
            return true;
        }
        i = i + 1;
    }
    if same_text(text.substring_char(i, n), part) {
        assert(stands_at(text@, part@, i as int));
        return true;
    }
    assert forall|j: int| !(#[trigger] stands_at(text@, part@, j)) by {
        if stands_at(text@, part@, j) && j >= i {
            assert(j == i);
        }
    }
    false
}

/// Whether a text begins with another.
pub fn starts_with(text: &str, part: &str) -> (r: bool)
    ensures
        r == begins(text@, part@),
{
    let n: usize = text.unicode_len();
    let m: usize = part.unicode_len();
    if n < m {
        return false;
    }
    same_text(text.substring_char(0, m), part)
}

/// The character of a decimal digit.
pub open spec fn digit(d: int) -> Seq<char> {
    if d == 0 {
        "0"@
    } else if d == 1 {
        "1"@
    } else if d == 2 {
        "2"@
    } else if d == 3 {
        "3"@
    } else if d == 4 {
        "4"@
    } else if d == 5 {
        "5"@
    } else if d == 6 {
        "6"@
    } else if d == 7 {
        "7"@
    } else if d == 8 {
        "8"@
    } else {
        "9"@
    }
}

/// A number in decimal.
pub open spec fn decimal(n: nat) -> Seq<char>
    decreases n,
{
    if n < 10 {
        digit(n as int)
    } else {
        decimal(n / 10) + digit((n % 10) as int)
    }
}

/// A number in decimal, with a minus sign where it is below zero.
pub open spec fn signed(n: int) -> Seq<char> {
    if n < 0 { "-"@ + decimal((-n) as nat) } else { decimal(n as nat) }
}

fn append_decimal(r: &mut String, n: u64)
    ensures
        final(r)@ == old(r)@ + decimal(n as nat),
    decreases n,
{
    let ghost before = r@;
    if n >= 10 {
        append_decimal(r, n / 10);
        assert(r@ =~= before + decimal((n / 10) as nat));
    }
    let d: u64 = n % 10;
    let last: &str = if d == 0 {
        "0"
    } else if d == 1 {
        "1"
    } else if d == 2 {
        "2"
    } else if d == 3 {
        "3"
    } else if d == 4 {
        "4"
    } else if d == 5 {
        "5"
    } else if d == 6 {
        "6"
    } else if d == 7 {
        "7"
    } else if d == 8 {
        "8"
    } else {
        "9"
    };
    assert(last@ == digit(d as int));
    r.append(last);
    assert(r@ =~= before + decimal(n as nat));
}

/// A text followed by a number in decimal.
pub fn numbered(prefix: &str, n: u64) -> (r: String)
    ensures
        r@ == prefix@ + decimal(n as nat),
{
    let mut r = prefix.to_owned();
    append_decimal(&mut r, n);
    r
}

} // verus!
