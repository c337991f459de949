//! Deterministic textual renderings used as storage keys.
//!
//! A node's durable key is the decimal rendering of its 64-bit identifier;
//! an edge's durable key is `"<from>:<to>"`. Both renderings are injective,
//! which is what makes them usable as keys: distinct identifiers (or
//! ordered identifier pairs) never collide.

use vstd::prelude::*;
use vstd::string::StringExecFns;

verus! {

/// The decimal digit character for a value below ten.
pub open spec fn dec_digit(d: int) -> char {
    if d == 0 {
        '0'
    } else if d == 1 {
        '1'
    } else if d == 2 {
        '2'
    } else if d == 3 {
        '3'
    } else if d == 4 {
        '4'
    } else if d == 5 {
        '5'
    } else if d == 6 {
        '6'
    } else if d == 7 {
        '7'
    } else if d == 8 {
        '8'
    } else {
        '9'
    }
}

/// The decimal rendering of a nonnegative integer, without leading zeros
/// (except for the value zero itself, rendered `"0"`).
pub open spec fn dec_of(n: int) -> Seq<char>
    decreases n,
{
    if n < 10 {
        seq![dec_digit(n)]
    } else {
        dec_of(n / 10).push(dec_digit(n % 10))
    }
}

/// Every character of a decimal rendering is a digit.
pub proof fn lemma_dec_of_digits(n: int)
    requires
        0 <= n,
    ensures
        dec_of(n).len() >= 1,
        forall|i: int| 0 <= i < dec_of(n).len() ==> '0' <= #[trigger] dec_of(n)[i] <= '9',
    decreases n,
{
    if n >= 10 {
        lemma_dec_of_digits(n / 10);
    }
}

/// Digit characters are injective on values below ten.
pub proof fn lemma_dec_digit_injective(a: int, b: int)
    requires
        0 <= a < 10,
        0 <= b < 10,
        dec_digit(a) == dec_digit(b),
    ensures
        a == b,
{
}

/// Decimal renderings are injective: distinct values render distinctly.
pub proof fn lemma_dec_of_injective(a: int, b: int)
    requires
        0 <= a,
        0 <= b,
        dec_of(a) == dec_of(b),
    ensures
        a == b,
    decreases a,
{
    if a < 10 && b < 10 {
        assert(seq![dec_digit(a)][0] == dec_digit(a));
        assert(seq![dec_digit(b)][0] == dec_digit(b));
        assert(dec_of(a)[0] == dec_of(b)[0]);
        lemma_dec_digit_injective(a, b);
    } else if a >= 10 && b >= 10 {
        assert(dec_of(a).last() == dec_of(a / 10).push(dec_digit(a % 10)).last());
        assert(dec_of(a / 10).push(dec_digit(a % 10)).last() == dec_digit(a % 10));
        assert(dec_of(b / 10).push(dec_digit(b % 10)).last() == dec_digit(b % 10));
        assert(dec_digit(a % 10) == dec_digit(b % 10));
        lemma_dec_digit_injective(a % 10, b % 10);
        assert(dec_of(a).drop_last() =~= dec_of(a / 10));
        assert(dec_of(b).drop_last() =~= dec_of(b / 10));
        assert(dec_of(a / 10) == dec_of(b / 10));
        lemma_dec_of_injective(a / 10, b / 10);
        assert(a == 10 * (a / 10) + a % 10);
        assert(b == 10 * (b / 10) + b % 10);
    } else if a < 10 {
        lemma_dec_of_digits(b / 10);
        assert(dec_of(b).len() >= 2);
    } else {
        lemma_dec_of_digits(a / 10);
        assert(dec_of(a).len() >= 2);
    }
}

/// Append the digit character for `d` to a string.
fn append_digit(s: &mut String, d: u64)
    requires
        d < 10,
    ensures
        final(s)@ == old(s)@ + seq![dec_digit(d as int)],
{
    proof {
        reveal_strlit("0");
        reveal_strlit("1");
        reveal_strlit("2");
        reveal_strlit("3");
        reveal_strlit("4");
        reveal_strlit("5");
        reveal_strlit("6");
        reveal_strlit("7");
        reveal_strlit("8");
        reveal_strlit("9");
    }
    if d == 0 {
        s.append("0");
    } else if d == 1 {
        s.append("1");
    } else if d == 2 {
        s.append("2");
    } else if d == 3 {
        s.append("3");
    } else if d == 4 {
        s.append("4");
    } else if d == 5 {
        s.append("5");
    } else if d == 6 {
        s.append("6");
    } else if d == 7 {
        s.append("7");
    } else if d == 8 {
        s.append("8");
    } else {
        s.append("9");
    }
    assert(final(s)@ =~= old(s)@ + seq![dec_digit(d as int)]);
}

/// Append the decimal rendering of `n` to a string.
fn append_dec(s: &mut String, n: u64)
    ensures
        final(s)@ == old(s)@ + dec_of(n as int),
    decreases n,
{
    if n >= 10 {
        append_dec(s, n / 10);
        append_digit(s, n % 10);
        assert(final(s)@ =~= old(s)@ + dec_of(n as int));
    } else {
        append_digit(s, n);
    }
}

/// The decimal rendering of a 64-bit value, as a string.
pub fn u64_to_dec(n: u64) -> (s: String)
    ensures
        s@ == dec_of(n as int),
{
    let mut s = String::new();
    append_dec(&mut s, n);
    assert(s@ =~= dec_of(n as int));
    s
}

/// Compare two byte slices by contents.
pub fn slices_eq(a: &[u8], b: &[u8]) -> (r: bool)
    ensures
        r == (a@ == b@),
{
    if a.len() != b.len() {
        assert(a@ != b@) by {
            assert(a@.len() != b@.len());
        }
        return false;
    }
    let n = a.len();
    let mut i: usize = 0;
    while i < n
        invariant
            n == a@.len() == b@.len(),
            0 <= i <= n,
            forall|k: int| 0 <= k < i ==> a@[k] == b@[k],
        decreases n - i,
    {
        if a[i] != b[i] {
            return false;
        }
        i = i + 1;
    }
    assert(a@ =~= b@);
    true
}

/// Compare two strings by contents.
pub fn str_eq(a: &str, b: &str) -> (r: bool)
    ensures
        r == (a@ == b@),
{
    let r = slices_eq(a.as_bytes(), b.as_bytes());
    proof {
        vstd::utf8::encode_utf8_decode_utf8(a@);
        vstd::utf8::encode_utf8_decode_utf8(b@);
    }
    r
}

/// The namespace prefix put before an entity's type name.
pub open spec fn entity_prefix() -> Seq<char> {
    seq!['e', 'n', 't', 'i', 't', 'y', ':', ':']
}

/// The namespaced rendering of an entity type name: `"entity::<name>"`.
pub fn format_entity(name: &str) -> (r: String)
    ensures
        r@ == entity_prefix() + name@,
{
    proof {
        reveal_strlit("entity::");
    }
    let mut s = String::from_str("entity::");
    assert(s@ =~= entity_prefix());
    s.append(name);
    s
}

} // verus!
