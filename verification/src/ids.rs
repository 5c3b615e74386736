//! Identifiers: 128-bit numbers, written as 26 digits of base 32.
use vstd::prelude::*;
use vstd::string::*;

use crate::text;

verus! {

/// An entry, block, chunk, link, event, session or affinity identifier.
pub type Id = u128;

/// The base-32 digits in ascending order: no I, L, O or U.
pub open spec fn alphabet() -> Seq<char> {
    seq![
        '0', '1', '2', '3', '4', '5', '6', '7', '8', '9', 'A', 'B', 'C', 'D', 'E', 'F', 'G', 'H',
        'J', 'K', 'M', 'N', 'P', 'Q', 'R', 'S', 'T', 'V', 'W', 'X', 'Y', 'Z',
    ]
}

/// `c` is the digit of value `d`; a letter may be written in lower case.
pub open spec fn is_digit_of(c: char, d: int) -> bool {
    0 <= d < 32 && (c == alphabet()[d] || (d >= 10 && c as int == alphabet()[d] as int + 32))
}

/// `c` is a base-32 digit.
pub open spec fn is_digit(c: char) -> bool {
    exists|d: int| is_digit_of(c, d)
}

/// The value of a base-32 digit.
pub open spec fn digit_value(c: char) -> int {
    choose|d: int| is_digit_of(c, d)
}

/// The number that `digits` write down, most significant digit first.
pub open spec fn number(digits: Seq<char>) -> int
    decreases digits.len(),
{
    if digits.len() == 0 {
        0
    } else {
        number(digits.drop_last()) * 32 + digit_value(digits.last())
    }
}

/// The identifier that `s` writes down: 26 base-32 digits, of whose number the
/// low 128 bits count.
pub open spec fn id_of_text(s: Seq<char>) -> Option<Id> {
    if s.len() == 26 && forall|i: int| 0 <= i < 26 ==> is_digit(#[trigger] s[i]) {
        Some((number(s) % (u128::MAX + 1)) as Id)
    } else {
        None
    }
}

/// The last `n` base-32 digits of `v`.
pub open spec fn digits_of(v: nat, n: nat) -> Seq<char>
    decreases n,
{
    if n == 0 {
        Seq::empty()
    } else {
        digits_of(v / 32, (n - 1) as nat).push(alphabet()[(v % 32) as int])
    }
}

/// How an identifier is written.
pub open spec fn text_of_id(id: Id) -> Seq<char> {
    digits_of(id as nat, 26)
}

/// `ulid::Ulid::from_string`: it reads exactly the texts of 26 base-32 digits,
/// in either case, and gives the low 128 bits of the number they write down.
#[verifier::external_body]
fn ulid_from_string(s: &str) -> (id: Option<Id>)
    ensures
        id == id_of_text(s@),
{
    ulid::Ulid::from_string(s).ok().map(|id| id.0)
}

/// `ulid::Ulid::to_string`: the identifier as 26 base-32 digits in upper case.
#[verifier::external_body]
fn ulid_to_string(id: Id) -> (s: String)
    ensures
        s@ == text_of_id(id),
{
    ulid::Ulid(id).to_string()
}

/// Read an identifier.
pub fn parse_id(s: &str) -> (id: Option<Id>)
    ensures
        id == id_of_text(s@),
{
    ulid_from_string(s)
}

/// Write an identifier; what is written reads back.
pub fn id_text(id: Id) -> (s: String)
    ensures
        s@ == text_of_id(id),
        id_of_text(s@) == Some(id),
{
    proof {
        law_id_text_round_trip(id);
    }
    ulid_to_string(id)
}

pub open spec fn pow32(n: nat) -> nat
    decreases n,
{
    if n == 0 {
        1
    } else {
        32 * pow32((n - 1) as nat)
    }
}

proof fn lemma_digit(d: int)
    requires
        0 <= d < 32,
    ensures
        is_digit(alphabet()[d]),
        digit_value(alphabet()[d]) == d,
{
    let c = alphabet()[d];
    assert(is_digit_of(c, d));
    let e = digit_value(c);
    assert(is_digit_of(c, e));
}

proof fn lemma_digits(v: nat, n: nat)
    ensures
        digits_of(v, n).len() == n,
        forall|i: int| 0 <= i < n ==> is_digit(#[trigger] digits_of(v, n)[i]),
        v < pow32(n) ==> number(digits_of(v, n)) == v,
    decreases n,
{
    if n > 0 {
        lemma_digits(v / 32, (n - 1) as nat);
        lemma_digit((v % 32) as int);
        let digits = digits_of(v, n);
        assert(digits.drop_last() =~= digits_of(v / 32, (n - 1) as nat));
        if v < pow32(n) {
            assert(v / 32 < pow32((n - 1) as nat));
        }
    }
}

/// What an identifier is written as reads back as that identifier, so two
/// identifiers with one text are equal.
pub proof fn law_id_text_round_trip(id: Id)
    ensures
        id_of_text(text_of_id(id)) == Some(id),
        text_of_id(id).len() == 26,
{
    lemma_digits(id as nat, 26);
    assert(pow32(26) > u128::MAX) by {
        reveal_with_fuel(pow32, 27);
    }
}

} // verus!
