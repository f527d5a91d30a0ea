//! Identifiers of records, datasets and users, and the texts they are stored under.

use vstd::arithmetic::div_mod::*;
use vstd::arithmetic::power::*;
use vstd::prelude::*;

verus! {

/// A UUID as the number that its sixteen bytes spell, most significant byte first.
#[derive(Clone, Copy, Debug, PartialEq, Eq, Structural)]
pub struct Uuid {
    pub value: u128,
}

/// The namespace for object identifiers, `6ba7b812-9dad-11d1-80b4-00c04fd430c8`.
pub const NAMESPACE_OID: u128 = 0x6ba7_b812_9dad_11d1_80b4_00c0_4fd4_30c8;

/// The lower-case hexadecimal digit for a number below sixteen.
pub open spec fn hex_digit(n: nat) -> char {
    if n < 10 {
        (48 + n) as char
    } else {
        (87 + n) as char
    }
}

/// The last `digits` hexadecimal digits of `n`, most significant first.
pub open spec fn hex_digits(n: nat, digits: nat) -> Seq<char>
    decreases digits,
{
    if digits == 0 {
        Seq::empty()
    } else {
        hex_digits(n / 16, (digits - 1) as nat).push(hex_digit(n % 16))
    }
}

/// The thirty-two hexadecimal digits of an identifier.
pub open spec fn hex_key(id: Uuid) -> Seq<char> {
    hex_digits(id.value as nat, 32)
}

/// The digits of an identifier in the groups of eight, four, four, four and twelve that
/// hyphens set apart.
pub open spec fn hyphenated(id: Uuid) -> Seq<char> {
    let d = hex_key(id);
    d.subrange(0, 8) + seq!['-'] + d.subrange(8, 12) + seq!['-'] + d.subrange(12, 16) + seq!['-']
        + d.subrange(16, 20) + seq!['-'] + d.subrange(20, 32)
}

/// The identifier that `uuid::Uuid::new_v5` derives by SHA-1 from a namespace and a name.
pub uninterp spec fn uuid_v5(namespace: u128, name: Seq<u8>) -> u128;

/// `uuid::Uuid::simple`, printed: the thirty-two lower-case hexadecimal digits, without
/// hyphens.
#[verifier::external_body]
fn print_simple(value: u128) -> (text: String)
    ensures
        text@ == hex_digits(value as nat, 32),
{
    uuid::Uuid::from_u128(value).simple().to_string()
}

/// `uuid::Uuid`, printed: the digits of the simple form with a hyphen after the eighth,
/// twelfth, sixteenth and twentieth.
#[verifier::external_body]
fn print_hyphenated(value: u128) -> (text: String)
    ensures
        text@ == hyphenated(Uuid { value }),
{
    uuid::Uuid::from_u128(value).to_string()
}

/// `uuid::Uuid::new_v5`: which identifier a name gets is named, not stated; it is a matter
/// of the namespace and the name's bytes alone.
#[verifier::external_body]
fn derive_v5(namespace: u128, name: &[u8]) -> (value: u128)
    ensures
        value == uuid_v5(namespace, name@),
{
    uuid::Uuid::new_v5(&uuid::Uuid::from_u128(namespace), name).as_u128()
}

/// The text under which an identifier is stored: its hexadecimal digits, without hyphens.
pub fn to_hex(id: Uuid) -> (key: String)
    ensures
        key@ == hex_key(id),
{
    print_simple(id.value)
}

/// The text in which an identifier is shown to people, with hyphens.
pub fn to_hyphenated(id: Uuid) -> (shown: String)
    ensures
        shown@ == hyphenated(id),
{
    print_hyphenated(id.value)
}

/// The identifier of a name in a namespace.
pub fn new_v5(namespace: u128, name: &[u8]) -> (id: Uuid)
    ensures
        id.value == uuid_v5(namespace, name@),
{
    Uuid { value: derive_v5(namespace, name) }
}

/// Sixteen to the power of `n`.
spec fn pow16(n: nat) -> nat
    decreases n,
{
    if n == 0 {
        1
    } else {
        16 * pow16((n - 1) as nat)
    }
}

proof fn lemma_hex_digits_len(n: nat, digits: nat)
    ensures
        hex_digits(n, digits).len() == digits,
    decreases digits,
{
    if digits > 0 {
        lemma_hex_digits_len(n / 16, (digits - 1) as nat);
    }
}

proof fn lemma_hex_digits_distinct(a: nat, b: nat, digits: nat)
    requires
        a < pow16(digits),
        b < pow16(digits),
        hex_digits(a, digits) == hex_digits(b, digits),
    ensures
        a == b,
    decreases digits,
{
    if digits > 0 {
        let rest = (digits - 1) as nat;
        let da = hex_digits(a / 16, rest);
        let db = hex_digits(b / 16, rest);
        assert(da.push(hex_digit(a % 16)).drop_last() == da);
        assert(db.push(hex_digit(b % 16)).drop_last() == db);
        assert(da.push(hex_digit(a % 16)).last() == hex_digit(a % 16));
        assert(db.push(hex_digit(b % 16)).last() == hex_digit(b % 16));
        assert(a % 16 == b % 16);
        lemma_hex_digits_distinct(a / 16, b / 16, rest);
    }
}

/// Two identifiers are stored under the same text only if they are the same: an entry kept
/// for one dataset is never taken for another's.
pub proof fn lemma_hex_key_distinct(a: Uuid, b: Uuid)
    ensures
        hex_key(a).len() == 32,
        hex_key(a) == hex_key(b) ==> a == b,
{
    lemma_hex_digits_len(a.value as nat, 32);
    if hex_key(a) == hex_key(b) {
        assert(pow16(32) == 0x1_0000_0000_0000_0000_0000_0000_0000_0000) by {
            reveal_with_fuel(pow16, 33);
        }
        lemma_hex_digits_distinct(a.value as nat, b.value as nat, 32);
    }
}

/// The digit at a place is the one for what the number has there in base sixteen.
proof fn lemma_hex_digit_at(n: nat, digits: nat, i: int)
    requires
        0 <= i < digits,
    ensures
        hex_digits(n, digits).len() == digits,
        hex_digits(n, digits)[i] == hex_digit(
            ((n as int / pow(16, (digits - 1 - i) as nat)) % 16) as nat,
        ),
    decreases digits,
{
    let rest = (digits - 1) as nat;
    lemma_hex_digits_len(n, digits);
    lemma_hex_digits_len(n / 16, rest);
    if i < rest {
        let e = (rest - 1 - i) as nat;
        lemma_hex_digit_at(n / 16, rest, i);
        lemma_pow_positive(16, e);
        reveal(pow);
        assert(pow(16, e + 1) == 16 * pow(16, e));
        lemma_div_denominator(n as int, 16, pow(16, e));
        assert((n / 16) as int / pow(16, e) == n as int / pow(16, e + 1));
        assert(e + 1 == (digits - 1 - i) as nat);
    } else {
        reveal(pow);
        assert(pow(16, 0) == 1);
        assert(n as int / 1 == n);
    }
}

/// The key of an identifier spells its number in base sixteen, most significant digit first,
/// in thirty-two lower-case digits; shown to people it has the same digits, with hyphens after
/// the eighth, twelfth, sixteenth and twentieth.
pub proof fn lemma_key_spells_the_number(id: Uuid)
    ensures
        hex_key(id).len() == 32,
        forall|i: int|
            0 <= i < 32 ==> #[trigger] hex_key(id)[i] == "0123456789abcdef"@[(id.value as int / pow(
                16,
                (31 - i) as nat,
            )) % 16],
        hyphenated(id).len() == 36,
        hyphenated(id).subrange(0, 8) == hex_key(id).subrange(0, 8),
        hyphenated(id).subrange(9, 13) == hex_key(id).subrange(8, 12),
        hyphenated(id).subrange(14, 18) == hex_key(id).subrange(12, 16),
        hyphenated(id).subrange(19, 23) == hex_key(id).subrange(16, 20),
        hyphenated(id).subrange(24, 36) == hex_key(id).subrange(20, 32),
        hyphenated(id)[8] == '-' && hyphenated(id)[13] == '-' && hyphenated(id)[18] == '-'
            && hyphenated(id)[23] == '-',
{
    reveal_strlit("0123456789abcdef");
    lemma_hex_digits_len(id.value as nat, 32);
    assert forall|i: int| 0 <= i < 32 implies #[trigger] hex_key(id)[i]
        == "0123456789abcdef"@[(id.value as int / pow(16, (31 - i) as nat)) % 16] by {
        lemma_hex_digit_at(id.value as nat, 32, i);
    }
    let d = hex_key(id);
    let h = hyphenated(id);
    assert(h.subrange(0, 8) == d.subrange(0, 8));
    assert(h.subrange(9, 13) == d.subrange(8, 12));
    assert(h.subrange(14, 18) == d.subrange(12, 16));
    assert(h.subrange(19, 23) == d.subrange(16, 20));
    assert(h.subrange(24, 36) == d.subrange(20, 32));
}

}
