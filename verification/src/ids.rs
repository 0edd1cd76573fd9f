use vstd::prelude::*;
use vstd::string::*;
use crate::text::{hex_char, hex_digits, text};

verus! {

/// Sixteen to the power `n`.
pub open spec fn pow16(n: nat) -> nat
    decreases n,
{
    if n == 0 { 1 } else { 16 * pow16((n - 1) as nat) }
}

/// The value of a hexadecimal digit of either case.
pub open spec fn hex_value(c: char) -> Option<nat> {
    if '0' <= c && c <= '9' {
        Some((c as int - '0' as int) as nat)
    } else if 'a' <= c && c <= 'f' {
        Some((c as int - 'a' as int + 10) as nat)
    } else if 'A' <= c && c <= 'F' {
        Some((c as int - 'A' as int + 10) as nat)
    } else {
        None
    }
}

/// Every character is a hexadecimal digit.
pub open spec fn all_hex(s: Seq<char>) -> bool {
    forall|i: int| 0 <= i < s.len() ==> (#[trigger] hex_value(s[i])) is Some
}

/// The number that hexadecimal digits spell, most significant first.
pub open spec fn hex_number(s: Seq<char>) -> nat
    decreases s.len(),
{
    if s.len() == 0 {
        0
    } else {
        hex_number(s.drop_last()) * 16 + hex_value(s.last()).unwrap()
    }
}

/// The 32 digits of a hyphenated form: 8-4-4-4-12 digits parted by hyphens.
pub open spec fn unhyphenate(s: Seq<char>) -> Option<Seq<char>> {
    if s.len() == 36 && s[8] == '-' && s[13] == '-' && s[18] == '-' && s[23] == '-' {
        Some(s.subrange(0, 8) + s.subrange(9, 13) + s.subrange(14, 18) + s.subrange(19, 23)
            + s.subrange(24, 36))
    } else {
        None
    }
}

/// The 32 digits of the text forms of a UUID: simple (32 digits),
/// hyphenated, and URN (`urn:uuid:` before the hyphenated form).
pub open spec fn uuid_digit_text(s: Seq<char>) -> Option<Seq<char>> {
    if s.len() == 32 {
        Some(s)
    } else if s.len() == 36 {
        unhyphenate(s)
    } else if s.len() == 45 && s.take(9) == "urn:uuid:"@ {
        unhyphenate(s.skip(9))
    } else {
        None
    }
}

/// The UUID that a text form spells, if it is one.
pub open spec fn uuid_text_value(s: Seq<char>) -> Option<u128> {
    match uuid_digit_text(s) {
        Some(d) => if all_hex(d) { Some(hex_number(d) as u128) } else { None },
        None => None,
    }
}

/// The hyphenated lower-case form of a UUID, as `Display` writes it.
pub open spec fn uuid_hyphenated(u: u128) -> Seq<char> {
    let d = hex_digits(u as nat, 32);
    d.subrange(0, 8) + seq!['-'] + d.subrange(8, 12) + seq!['-'] + d.subrange(12, 16) + seq!['-']
        + d.subrange(16, 20) + seq!['-'] + d.subrange(20, 32)
}

proof fn lemma_hex_char_value(d: nat)
    requires
        d < 16,
    ensures
        hex_value(hex_char(d)) == Some(d),
{
}

proof fn lemma_hex_digits(v: nat, n: nat)
    ensures
        hex_digits(v, n).len() == n,
        all_hex(hex_digits(v, n)),
        hex_number(hex_digits(v, n)) == v % pow16(n),
    decreases n,
{
    if n > 0 {
        lemma_hex_digits(v / 16, (n - 1) as nat);
        let d = hex_digits(v, n);
        let prev = hex_digits(v / 16, (n - 1) as nat);
        lemma_hex_char_value(v % 16);
        assert(d.drop_last() =~= prev);
        assert forall|i: int| 0 <= i < d.len() implies (#[trigger] hex_value(d[i])) is Some by {
            if i < n - 1 {
                assert(d[i] == prev[i]);
            }
        }
        lemma_pow16_positive((n - 1) as nat);
        vstd::arithmetic::div_mod::lemma_mod_breakdown(v as int, 16, pow16((n - 1) as nat) as int);
    }
}

proof fn lemma_pow16_positive(n: nat)
    ensures
        pow16(n) > 0,
    decreases n,
{
    if n > 0 {
        lemma_pow16_positive((n - 1) as nat);
    }
}

/// The text the library writes for a UUID reads back as that UUID: the
/// identifiers in its messages, topics and queries name what they came from.
pub proof fn lemma_uuid_text_roundtrip(u: u128)
    ensures
        uuid_text_value(uuid_hyphenated(u)) == Some(u),
        id_from_text(uuid_hyphenated(u)) == Ok::<u128, (Seq<char>, usize)>(u),
{
    let d = hex_digits(u as nat, 32);
    lemma_hex_digits(u as nat, 32);
    let h = uuid_hyphenated(u);
    assert(h.len() == 36);
    assert(h[8] == '-' && h[13] == '-' && h[18] == '-' && h[23] == '-');
    assert(h.subrange(0, 8) + h.subrange(9, 13) + h.subrange(14, 18) + h.subrange(19, 23)
        + h.subrange(24, 36) =~= d);
    assert(uuid_digit_text(h) == Some(d));
    reveal_with_fuel(pow16, 33);
    assert(pow16(32) == 0x1_0000_0000_0000_0000_0000_0000_0000_0000nat);
    assert((u as nat) % pow16(32) == u as nat);
}

/// Reads a UUID with `uuid::Uuid::parse_str`.  The contract states the
/// formats the crate accepts (simple, hyphenated, URN; hexadecimal digits
/// of either case) and that the value is the number the 32 digits spell,
/// most significant first (`Uuid::as_u128`).
#[verifier::external_body]
fn parse_uuid(s: &str) -> (r: Option<u128>)
    ensures
        r == uuid_text_value(s@),
{
    match uuid::Uuid::parse_str(s) {
        Ok(u) => Some(u.as_u128()),
        Err(_) => None,
    }
}

/// What `blob_uuid::to_uuid` decodes from a text: the UUID whose 16 bytes
/// the URL-safe, unpadded base64 text encodes, if it encodes 16 bytes.
pub uninterp spec fn blob_uuid_value(s: Seq<char>) -> Option<u128>;

/// Reads a UUID written as a base64 blob with `blob_uuid::to_uuid`.  The
/// contract names the result and ties it to the text; the base64 rules of
/// the crate are not restated.
#[verifier::external_body]
fn parse_blob_uuid(s: &str) -> (r: Option<u128>)
    ensures
        r == blob_uuid_value(s@),
{
    match blob_uuid::to_uuid(s) {
        Ok(u) => Some(u.as_u128()),
        Err(_) => None,
    }
}

/// Writes a UUID with its `Display` impl in `uuid`: the hyphenated form in
/// lower case.
#[verifier::external_body]
pub(crate) fn uuid_text(u: u128) -> (r: String)
    ensures
        r@ == uuid_hyphenated(u),
{
    uuid::Uuid::from_u128(u).to_string()
}

/// Whether a UUID has the version (4, random) and variant (RFC 4122) bits
/// of a random UUID.
pub open spec fn is_random_uuid(u: u128) -> bool {
    (u >> 76u128) & 0xfu128 == 4 && (u >> 62u128) & 0x3u128 == 2
}

/// A fresh random UUID of version 4 from `uuid::Uuid::new_v4`.  Of the
/// value only the version and variant bits are fixed.
#[verifier::external_body]
pub(crate) fn new_uuid() -> (r: u128)
    ensures
        is_random_uuid(r),
{
    uuid::Uuid::new_v4().as_u128()
}

/// The answer for an identifier in a request: the UUID its text form
/// spells, else the UUID its base64 blob encodes, else a bad request.
pub open spec fn id_from_text(s: Seq<char>) -> Result<u128, (Seq<char>, usize)> {
    match uuid_text_value(s) {
        Some(u) => Ok(u),
        None => match blob_uuid_value(s) {
            Some(u) => Ok(u),
            None => Err(("Invalid input."@, 400)),
        },
    }
}

/// The view of an error answer: its message and its status.
pub open spec fn err_view(e: (String, usize)) -> (Seq<char>, usize) {
    (e.0@, e.1)
}

pub open spec fn id_result_view(r: Result<u128, (String, usize)>) -> Result<u128, (Seq<char>, usize)> {
    match r {
        Ok(u) => Ok(u),
        Err(e) => Err(err_view(e)),
    }
}

/// Chooses between the two readings of an identifier: the UUID text
/// reading first, then the blob reading, else a bad request.
pub fn choose_id(parsed: Option<u128>, blob: Option<u128>) -> (r: Result<u128, (String, usize)>)
    ensures
        match parsed {
            Some(u) => r == Ok::<u128, (String, usize)>(u),
            None => match blob {
                Some(u) => r == Ok::<u128, (String, usize)>(u),
                None => r matches Err(e) && e.0@ == "Invalid input."@ && e.1 == 400,
            },
        },
{
    match parsed {
        Some(u) => Ok(u),
        None => match blob {
            Some(u) => Ok(u),
            None => Err((text("Invalid input."), 400)),
        },
    }
}

/// Reads the identifier of an item from request text: a UUID in one of its
/// text forms, or else a base64 blob of one; anything else is a bad request
/// ("Invalid input.", 400).
pub fn str_to_uuid(item_id: String) -> (r: Result<u128, (String, usize)>)
    ensures
        id_result_view(r) == id_from_text(item_id@),
{
    let parsed = parse_uuid(item_id.as_str());
    match parsed {
        Some(_) => choose_id(parsed, None),
        None => {
            let blob = parse_blob_uuid(item_id.as_str());
            choose_id(None, blob)
        },
    }
}

} // verus!
