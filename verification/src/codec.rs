//! Identifier normalization.
//!
//! The store nests record identifiers inside an envelope (a table
//! name plus a variant-tagged key), while the rest of the system
//! wants one flat, sortable, wire-safe token: the canonical
//! 26-character base-32 text of a 128-bit value. Decoding accepts the
//! store's nested shape as well as a bare text; encoding always emits
//! the canonical flat form and never needs the envelope back, so the
//! codec is deliberately asymmetric.

use vstd::prelude::*;

use crate::errors::SearchError;

verus! {

/// The canonical base-32 digit alphabet: `0-9` then the consonant
/// letters, skipping `I`, `L`, `O` and `U`.
pub open spec fn b32_alphabet() -> Seq<char> {
    seq![
        '0', '1', '2', '3', '4', '5', '6', '7', '8', '9', 'A', 'B', 'C', 'D', 'E', 'F', 'G', 'H',
        'J', 'K', 'M', 'N', 'P', 'Q', 'R', 'S', 'T', 'V', 'W', 'X', 'Y', 'Z',
    ]
}

/// Canonical character of digit `d` (meaningful for `0 <= d < 32`).
pub open spec fn b32_char(d: int) -> char {
    b32_alphabet()[d]
}

/// Digit value of a character, or `-1` if the character is no base-32
/// digit. Lower-case letters carry the same value as upper-case ones;
/// `i`, `l`, `o` and `u` are invalid in either case.
pub open spec fn b32_val(c: char) -> int {
    let u = c as u32;
    let v: int = if 97 <= u && u <= 122 {
        u - 32
    } else {
        u as int
    };
    if 48 <= v && v <= 57 {
        v - 48
    } else if 65 <= v && v <= 72 {
        v - 55
    } else if 74 <= v && v <= 75 {
        v - 56
    } else if 77 <= v && v <= 78 {
        v - 57
    } else if 80 <= v && v <= 84 {
        v - 58
    } else if 86 <= v && v <= 90 {
        v - 59
    } else {
        -1
    }
}

/// Whether a character is a base-32 digit.
pub open spec fn is_b32(c: char) -> bool {
    b32_val(c) >= 0
}

/// `32^k`.
pub open spec fn pow32(k: nat) -> nat
    decreases k,
{
    if k == 0 {
        1
    } else {
        32 * pow32((k - 1) as nat)
    }
}

/// The `k`-th base-32 digit of `u`, counted from the least
/// significant digit.
pub open spec fn digit_at(u: u128, k: nat) -> int {
    (((u as nat) / pow32(k)) % 32) as int
}

/// The canonical 26-character text of a 128-bit value, most
/// significant digit first.
pub open spec fn canonical_text(u: u128) -> Seq<char> {
    Seq::new(26, |i: int| b32_char(digit_at(u, (25 - i) as nat)))
}

/// The value a digit string denotes, most significant digit first.
pub open spec fn text_value(s: Seq<char>) -> int
    decreases s.len(),
{
    if s.len() == 0 {
        0
    } else {
        text_value(s.drop_last()) * 32 + b32_val(s.last())
    }
}

/// A well-formed identifier text: exactly 26 base-32 digits whose
/// leading digit is at most 7, so that the value fits in 128 bits.
pub open spec fn valid_ulid_text(s: Seq<char>) -> bool {
    &&& s.len() == 26
    &&& forall|i: int| 0 <= i < 26 ==> is_b32(#[trigger] s[i])
    &&& b32_val(s[0]) <= 7
}

/// Encoding then reading back a digit is the identity.
proof fn lemma_b32_char_val(d: int)
    requires
        0 <= d < 32,
    ensures
        b32_val(b32_char(d)) == d,
{
}

proof fn lemma_pow32_pos(k: nat)
    ensures
        pow32(k) >= 1,
    decreases k,
{
    if k > 0 {
        lemma_pow32_pos((k - 1) as nat);
    }
}

proof fn lemma_pow32_mono(j: nat, k: nat)
    requires
        j <= k,
    ensures
        pow32(j) <= pow32(k),
    decreases k - j,
{
    if j < k {
        lemma_pow32_mono(j, (k - 1) as nat);
        lemma_pow32_pos((k - 1) as nat);
    }
}

/// The two powers the 128-bit bound turns on: `32^25 == 2^125` and
/// `32^26 == 2^130`.
proof fn lemma_pow32_values()
    ensures
        pow32(25) == 0x20000000000000000000000000000000,
        pow32(26) == 0x400000000000000000000000000000000,
{
    assert(pow32(0) == 1);
    assert(pow32(1) == 32);
    assert(pow32(2) == 0x400);
    assert(pow32(3) == 0x8000);
    assert(pow32(4) == 0x100000);
    assert(pow32(5) == 0x2000000);
    assert(pow32(6) == 0x40000000);
    assert(pow32(7) == 0x800000000);
    assert(pow32(8) == 0x10000000000);
    assert(pow32(9) == 0x200000000000);
    assert(pow32(10) == 0x4000000000000);
    assert(pow32(11) == 0x80000000000000);
    assert(pow32(12) == 0x1000000000000000);
    assert(pow32(13) == 0x20000000000000000);
    assert(pow32(14) == 0x400000000000000000);
    assert(pow32(15) == 0x8000000000000000000);
    assert(pow32(16) == 0x100000000000000000000);
    assert(pow32(17) == 0x2000000000000000000000);
    assert(pow32(18) == 0x40000000000000000000000);
    assert(pow32(19) == 0x800000000000000000000000);
    assert(pow32(20) == 0x10000000000000000000000000);
    assert(pow32(21) == 0x200000000000000000000000000);
    assert(pow32(22) == 0x4000000000000000000000000000);
    assert(pow32(23) == 0x80000000000000000000000000000);
    assert(pow32(24) == 0x1000000000000000000000000000000);
    assert(pow32(25) == 0x20000000000000000000000000000000);
    assert(pow32(26) == 0x400000000000000000000000000000000);
}

/// Reading the first `m` canonical digits of `u` back as a value
/// yields `u` shifted down by the digits not yet read.
proof fn lemma_prefix_value(u: u128, m: int)
    requires
        0 <= m <= 26,
    ensures
        text_value(canonical_text(u).take(m)) == (u as nat) / pow32((26 - m) as nat),
    decreases m,
{
    let s = canonical_text(u);
    if m == 0 {
        lemma_pow32_values();
        assert(s.take(0) =~= Seq::<char>::empty());
        vstd::arithmetic::div_mod::lemma_basic_div(u as int, pow32(26) as int);
    } else {
        lemma_prefix_value(u, m - 1);
        assert(s.take(m).drop_last() =~= s.take(m - 1));
        assert(s.take(m).last() == s[m - 1]);
        let k = (26 - m) as nat;
        lemma_pow32_pos(k);
        let x = ((u as nat) / pow32(k)) as int;
        vstd::arithmetic::div_mod::lemma_mod_division_less_than_divisor(x, 32);
        lemma_b32_char_val(digit_at(u, k));
        vstd::arithmetic::div_mod::lemma_div_denominator(u as int, pow32(k) as int, 32);
        assert(pow32((k + 1) as nat) == 32 * pow32(k));
        vstd::arithmetic::div_mod::lemma_fundamental_div_mod(x, 32);
    }
}

/// The canonical text of any 128-bit value is well-formed and denotes
/// exactly that value.
pub proof fn lemma_canonical_text_value(u: u128)
    ensures
        valid_ulid_text(canonical_text(u)),
        text_value(canonical_text(u)) == u as int,
{
    let s = canonical_text(u);
    lemma_pow32_values();
    assert forall|i: int| 0 <= i < 26 implies is_b32(#[trigger] s[i]) by {
        let k = (25 - i) as nat;
        lemma_pow32_pos(k);
        vstd::arithmetic::div_mod::lemma_mod_division_less_than_divisor(
            ((u as nat) / pow32(k)) as int,
            32,
        );
        lemma_b32_char_val(digit_at(u, k));
    }
    assert(b32_val(s[0]) <= 7) by {
        vstd::arithmetic::div_mod::lemma_multiply_divide_lt(u as int, pow32(25) as int, 8);
        vstd::arithmetic::div_mod::lemma_small_mod((u as nat) / pow32(25), 32);
        vstd::arithmetic::div_mod::lemma_mod_division_less_than_divisor(
            ((u as nat) / pow32(25)) as int,
            32,
        );
        lemma_b32_char_val(digit_at(u, 25));
    }
    lemma_prefix_value(u, 26);
    assert(s.take(26) =~= s);
    assert((u as nat) / pow32(0) == u as nat) by {
        assert(pow32(0) == 1);
        assert((u as nat) / 1 == u as nat);
    }
}

/// Codec round trip: a store value whose identifier text is the
/// canonical text of `u` — whatever envelope surrounds it — decodes
/// successfully to exactly `u`, so re-encoding reproduces the
/// canonical 26-character form. Two store values carrying the same
/// value therefore encode identically, regardless of envelope shape.
pub proof fn lemma_codec_round_trip(sv: StoreValue, u: u128)
    requires
        key_text(sv) == canonical_text(u),
    ensures
        valid_ulid_text(key_text(sv)),
        text_value(key_text(sv)) == u as int,
{
    lemma_canonical_text_value(u);
}

/// A record identifier as the store hands it back: either nested in
/// the store's envelope (table name plus variant-tagged key text) or
/// as a bare identifier text.
#[derive(Debug)]
pub enum StoreValue {
    /// The store's record envelope.
    Record { table: String, key: String },
    /// A bare identifier text with no envelope.
    Plain(String),
}

/// The identifier text a store value carries, with every envelope
/// stripped.
pub open spec fn key_text(sv: StoreValue) -> Seq<char> {
    match sv {
        StoreValue::Record { table: _, key } => key@,
        StoreValue::Plain(s) => s@,
    }
}

/// A normalized 128-bit identifier. Any store envelope has been
/// stripped on the way in; the flat canonical text is the only way
/// out.
#[derive(Debug, Clone, Copy, PartialEq, Eq, Structural)]
pub struct Identifier {
    pub bits: u128,
}

impl View for Identifier {
    type V = u128;

    open spec fn view(&self) -> u128 {
        self.bits
    }
}

/// Runtime mirror of [`b32_val`]: the digit value of a character, or
/// `None` if it is no base-32 digit.
fn char_digit(c: char) -> (r: Option<u8>)
    ensures
        r is Some <==> is_b32(c),
        r matches Some(d) ==> d as int == b32_val(c) && d < 32,
{
    let u = c as u32;
    let v: u32 = if 97 <= u && u <= 122 {
        u - 32
    } else {
        u
    };
    if 48 <= v && v <= 57 {
        Some((v - 48) as u8)
    } else if 65 <= v && v <= 72 {
        Some((v - 55) as u8)
    } else if 74 <= v && v <= 75 {
        Some((v - 56) as u8)
    } else if 77 <= v && v <= 78 {
        Some((v - 57) as u8)
    } else if 80 <= v && v <= 84 {
        Some((v - 58) as u8)
    } else if 86 <= v && v <= 90 {
        Some((v - 59) as u8)
    } else {
        None
    }
}

/// The one-character text of digit `d`, drawn from the canonical
/// alphabet.
fn digit_str(d: u8) -> (r: &'static str)
    requires
        d < 32,
    ensures
        r@ =~= seq![b32_char(d as int)],
{
    let alpha = "0123456789ABCDEFGHJKMNPQRSTVWXYZ";
    proof {
        reveal_strlit("0123456789ABCDEFGHJKMNPQRSTVWXYZ");
        assert(alpha@ =~= b32_alphabet());
        assert(vstd::string::is_ascii(alpha));
    }
    let r = alpha.substring_ascii(d as usize, d as usize + 1);
    proof {
        assert(r@ =~= seq![b32_char(d as int)]);
    }
    r
}

/// Parse a 26-character base-32 identifier text into its 128-bit
/// value. Returns `None` exactly on texts that are not well-formed.
fn parse_ulid_text(s: &str) -> (r: Option<u128>)
    ensures
        r is Some <==> valid_ulid_text(s@),
        r matches Some(u) ==> u as int == text_value(s@),
{
    let n = s.unicode_len();
    if n != 26 {
        return None;
    }
    let mut acc: u128 = 0;
    let mut i: usize = 0;
    while i < 26
        invariant
            i <= 26,
            s@.len() == 26,
            forall|j: int| 0 <= j < i ==> is_b32(#[trigger] s@[j]),
            i > 0 ==> b32_val(s@[0]) <= 7,
            acc as int == text_value(s@.take(i as int)),
            i > 0 ==> (acc as int) < 8 * pow32((i - 1) as nat),
        decreases 26 - i,
    {
        let c = s.get_char(i);
        match char_digit(c) {
            None => {
                return None;
            },
            Some(d) => {
                if i == 0 && d > 7 {
                    return None;
                }
                proof {
                    lemma_pow32_values();
                    if i > 0 {
                        lemma_pow32_mono((i - 1) as nat, 24);
                        assert(pow32(i as nat) == 32 * pow32((i - 1) as nat));
                    }
                    assert(s@.take(i + 1).drop_last() =~= s@.take(i as int));
                    assert(s@.take(i + 1).last() == s@[i as int]);
                }
                acc = acc * 32 + (d as u128);
            },
        }
        i += 1;
    }
    proof {
        assert(s@.take(26) =~= s@);
    }
    Some(acc)
}

impl Identifier {
    /// An identifier holding the given 128-bit value.
    pub fn new(bits: u128) -> (r: Identifier)
        ensures
            r@ == bits,
    {
        Identifier { bits }
    }

    /// The underlying 128-bit value.
    pub fn value(&self) -> (r: u128)
        ensures
            r == self@,
    {
        self.bits
    }

    /// The canonical, flat, 26-character text of the identifier. No
    /// trace of the store envelope remains.
    pub fn encode(&self) -> (r: String)
        ensures
            r@ == canonical_text(self@),
    {
        let u = self.bits;
        let mut digits: Vec<u8> = Vec::new();
        let mut v: u128 = u;
        let mut k: usize = 0;
        proof {
            assert(pow32(0) == 1);
            assert((u as nat) / 1 == u as nat);
        }
        while k < 26
            invariant
                k <= 26,
                digits@.len() == k,
                v as nat == (u as nat) / pow32(k as nat),
                forall|j: int|
                    0 <= j < k ==> digits@[j] as int == digit_at(u, j as nat) && digits@[j] < 32,
            decreases 26 - k,
        {
            let d = (v % 32) as u8;
            proof {
                lemma_pow32_pos(k as nat);
                vstd::arithmetic::div_mod::lemma_div_denominator(
                    u as int,
                    pow32(k as nat) as int,
                    32,
                );
                assert(pow32((k + 1) as nat) == 32 * pow32(k as nat));
            }
            digits.push(d);
            v = v / 32;
            k += 1;
        }
        let mut s = String::new();
        let mut i: usize = 26;
        while i > 0
            invariant
                i <= 26,
                digits@.len() == 26,
                forall|j: int|
                    0 <= j < 26 ==> digits@[j] as int == digit_at(u, j as nat) && digits@[j] < 32,
                s@ =~= canonical_text(u).take(26 - i),
            decreases i,
        {
            i -= 1;
            let piece = digit_str(digits[i]);
            s.append(piece);
            proof {
                assert(s@ =~= canonical_text(u).take(26 - i));
            }
        }
        proof {
            assert(canonical_text(u).take(26) =~= canonical_text(u));
        }
        s
    }
}

/// Decode a store-shaped identifier value. Succeeds if and only if
/// the text inside the envelope is a well-formed 26-character
/// identifier; the envelope itself (table name, variant tag, or its
/// absence) never influences the result. Failure is the server-side
/// data-integrity condition.
pub fn decode(sv: &StoreValue) -> (r: Result<Identifier, SearchError>)
    ensures
        r is Ok <==> valid_ulid_text(key_text(*sv)),
        r matches Ok(id) ==> id@ as int == text_value(key_text(*sv)),
        r matches Err(e) ==> e == SearchError::MalformedIdentifier,
{
    let text: &str = match sv {
        StoreValue::Record { table: _, key } => key.as_str(),
        StoreValue::Plain(s) => s.as_str(),
    };
    match parse_ulid_text(text) {
        Some(u) => Ok(Identifier { bits: u }),
        None => Err(SearchError::MalformedIdentifier),
    }
}

} // verus!
