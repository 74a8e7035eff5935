//! Process-unique identifier minting.
//!
//! An identifier is the decimal rendering of a clock reading, a dash, and the
//! decimal rendering of a counter value.  Two identifiers minted with
//! distinct counter values are distinct strings whatever the clock read,
//! because the digits after the final dash recover the counter exactly.

use vstd::prelude::*;

verus! {

/// The decimal digit character for `d`.
pub open spec fn digit_char(d: nat) -> char {
    if d == 0 {
        '0'
    } else if d == 1 {
        '1'
    } else if d == 2 {
        '2'
    } else if d == 3 {
        '3'
    } else if d == 4 {
        '4'
    } else if d == 5 {
        '5'
    } else if d == 6 {
        '6'
    } else if d == 7 {
        '7'
    } else if d == 8 {
        '8'
    } else {
        '9'
    }
}

/// Whether `c` is a decimal digit character.
pub open spec fn is_digit(c: char) -> bool {
    c == '0' || c == '1' || c == '2' || c == '3' || c == '4' || c == '5' || c == '6' || c == '7'
        || c == '8' || c == '9'
}

/// The decimal rendering of `n`, most significant digit first, no leading
/// zeros (a single `'0'` for zero).
pub open spec fn dec_rep(n: nat) -> Seq<char>
    decreases n,
{
    if n < 10 {
        seq![digit_char(n)]
    } else {
        dec_rep(n / 10).push(digit_char(n % 10))
    }
}

/// The identifier string minted from clock reading `t` and counter value `c`.
pub open spec fn id_view(t: nat, c: nat) -> Seq<char> {
    dec_rep(t) + seq!['-'] + dec_rep(c)
}

/// A decimal rendering is nonempty and consists of digit characters only.
pub proof fn lemma_dec_rep_digits(n: nat)
    ensures
        dec_rep(n).len() >= 1,
        forall|i: int| 0 <= i < dec_rep(n).len() ==> is_digit(#[trigger] dec_rep(n)[i]),
    decreases n,
{
    if n < 10 {
    } else {
        lemma_dec_rep_digits(n / 10);
    }
}

/// Whether `s` is an identifier that was minted with some counter value
/// below `bound`.  A ledger whose counter stands at `bound` carries only
/// such identifiers, so the next one minted is fresh.
pub open spec fn is_minted(s: Seq<char>, bound: nat) -> bool {
    exists|t: nat, c: nat| c < bound && s == id_view(t, c)
}

/// The ten digit characters stand for ten distinct values.
pub proof fn lemma_digit_char_injective(x: nat, y: nat)
    requires
        x < 10,
        y < 10,
        digit_char(x) == digit_char(y),
    ensures
        x == y,
{
}

/// Distinct numbers have distinct decimal renderings.
pub proof fn lemma_dec_rep_injective(a: nat, b: nat)
    requires
        dec_rep(a) == dec_rep(b),
    ensures
        a == b,
    decreases a,
{
    lemma_dec_rep_digits(a);
    lemma_dec_rep_digits(b);
    if a < 10 && b < 10 {
        assert(dec_rep(a)[0] == digit_char(a));
        assert(dec_rep(b)[0] == digit_char(b));
        lemma_digit_char_injective(a, b);
    } else if a < 10 {
        lemma_dec_rep_digits(b / 10);
        assert(dec_rep(b).len() >= 2);
    } else if b < 10 {
        lemma_dec_rep_digits(a / 10);
        assert(dec_rep(a).len() >= 2);
    } else {
        assert(dec_rep(a).last() == digit_char(a % 10));
        assert(dec_rep(b).last() == digit_char(b % 10));
        lemma_digit_char_injective(a % 10, b % 10);
        assert(a % 10 == b % 10);
        assert(dec_rep(a).drop_last() =~= dec_rep(a / 10));
        assert(dec_rep(b).drop_last() =~= dec_rep(b / 10));
        lemma_dec_rep_injective(a / 10, b / 10);
        assert(a == 10 * (a / 10) + a % 10);
        assert(b == 10 * (b / 10) + b % 10);
    }
}

/// An identifier determines the clock reading and the counter value that
/// minted it: the digits after the final dash are exactly the counter's
/// rendering, so equal identifiers force equal components.
pub proof fn lemma_id_view_injective(t1: nat, c1: nat, t2: nat, c2: nat)
    requires
        id_view(t1, c1) == id_view(t2, c2),
    ensures
        t1 == t2,
        c1 == c2,
{
    let s = id_view(t1, c1);
    let a1 = dec_rep(t1);
    let b1 = dec_rep(c1);
    let a2 = dec_rep(t2);
    let b2 = dec_rep(c2);
    lemma_dec_rep_digits(t1);
    lemma_dec_rep_digits(c1);
    lemma_dec_rep_digits(t2);
    lemma_dec_rep_digits(c2);
    assert(s.len() == a1.len() + 1 + b1.len());
    assert(s.len() == a2.len() + 1 + b2.len());
    assert(s[a1.len() as int] == '-');
    assert(s[a2.len() as int] == '-');
    if a1.len() < a2.len() {
        assert(s[a2.len() as int] == b1[a2.len() - a1.len() - 1]);
        assert(is_digit(b1[a2.len() - a1.len() - 1]));
        assert(false);
    } else if a2.len() < a1.len() {
        assert(s[a1.len() as int] == b2[a1.len() - a2.len() - 1]);
        assert(is_digit(b2[a1.len() - a2.len() - 1]));
        assert(false);
    }
    assert(a1.len() == a2.len());
    assert(b1.len() == b2.len());
    assert forall|i: int| 0 <= i < b1.len() implies b1[i] == b2[i] by {
        assert(s[a1.len() + 1 + i] == b1[i]);
        assert(s[a2.len() + 1 + i] == b2[i]);
    }
    assert(b1 =~= b2);
    assert forall|i: int| 0 <= i < a1.len() implies a1[i] == a2[i] by {
        assert(s[i] == a1[i]);
        assert(s[i] == a2[i]);
    }
    assert(a1 =~= a2);
    lemma_dec_rep_injective(t1, t2);
    lemma_dec_rep_injective(c1, c2);
}

/// Identifiers minted with distinct counter values are distinct, whatever
/// the clock read on either occasion.
pub proof fn lemma_distinct_counters_distinct_ids(t1: nat, c1: nat, t2: nat, c2: nat)
    requires
        c1 != c2,
    ensures
        id_view(t1, c1) != id_view(t2, c2),
{
    if id_view(t1, c1) == id_view(t2, c2) {
        lemma_id_view_injective(t1, c1, t2, c2);
    }
}

fn digit_to_char(d: u128) -> (c: char)
    requires
        d < 10,
    ensures
        c == digit_char(d as nat),
{
    if d == 0 {
        '0'
    } else if d == 1 {
        '1'
    } else if d == 2 {
        '2'
    } else if d == 3 {
        '3'
    } else if d == 4 {
        '4'
    } else if d == 5 {
        '5'
    } else if d == 6 {
        '6'
    } else if d == 7 {
        '7'
    } else if d == 8 {
        '8'
    } else {
        '9'
    }
}

/// Relies on std's `String::push`: appends the character to the string.
#[verifier::external_body]
fn push_char(s: &mut String, c: char)
    ensures
        final(s)@ == old(s)@.push(c),
{
    s.push(c);
}

/// Appends the decimal rendering of `n` to `s`.
fn push_dec(s: &mut String, n: u128)
    ensures
        final(s)@ == old(s)@ + dec_rep(n as nat),
    decreases n,
{
    if n < 10 {
        push_char(s, digit_to_char(n));
        assert(final(s)@ =~= old(s)@ + dec_rep(n as nat));
    } else {
        push_dec(s, n / 10);
        push_char(s, digit_to_char(n % 10));
        assert(final(s)@ =~= old(s)@ + dec_rep(n as nat));
    }
}

/// Relies on std's `SystemTime`: nanoseconds since the Unix epoch, or `None`
/// when the clock reads earlier than the epoch.  Nothing is assumed of the
/// value returned.
#[verifier::external_body]
fn epoch_nanos() -> (r: Option<u128>)
{
    match std::time::SystemTime::now().duration_since(std::time::UNIX_EPOCH) {
        Ok(d) => Some(d.as_nanos()),
        Err(_) => None,
    }
}

/// Mints an identifier from the current clock reading and the given counter
/// value.  Identifiers minted with distinct counter values never collide
/// (`lemma_distinct_counters_distinct_ids`), so a caller that never reuses a
/// counter value gets pairwise-distinct identifiers, even when the clock
/// does not advance between calls or runs backwards.
pub fn generate_unique_id(counter: u64) -> (r: String)
    ensures
        exists|t: nat| r@ == id_view(t, counter as nat),
{
    let t: u128 = match epoch_nanos() {
        Some(n) => n,
        None => 0,
    };
    let mut s = String::new();
    push_dec(&mut s, t);
    push_char(&mut s, '-');
    push_dec(&mut s, counter as u128);
    proof {
        assert(s@ =~= id_view(t as nat, counter as nat));
    }
    s
}

} // verus!
