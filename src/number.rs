//! 256-bit unsigned numbers and hex byte strings, as the literals of the language hold them.
//!
//! Conversions between text and numbers or bytes are done by `bigint` and
//! `rustc_serialize`; this module states what they compute.
use vstd::prelude::*;
use rustc_serialize::hex::{FromHex, ToHex};

verus! {

pub open spec fn pow2_64() -> nat {
    0x1_0000_0000_0000_0000nat
}

/// 2 to the 256th power: the first value that a 256-bit number cannot hold.
pub open spec fn pow2_256() -> nat {
    pow2_64() * pow2_64() * pow2_64() * pow2_64()
}

/// A 256-bit unsigned integer in four little-endian 64-bit limbs.
#[derive(Debug, Clone, Copy)]
pub struct U256 {
    pub limbs: [u64; 4],
}

impl U256 {
    pub open spec fn value(&self) -> nat {
        self.limbs@[0] as nat + pow2_64() * (self.limbs@[1] as nat + pow2_64() * (
        self.limbs@[2] as nat + pow2_64() * (self.limbs@[3] as nat)))
    }

    /// The number `n`.
    pub fn from_u64(n: u64) -> (r: U256)
        ensures
            r.value() == n,
    {
        U256 { limbs: [n, 0, 0, 0] }
    }

    pub fn is_zero(&self) -> (r: bool)
        ensures
            r == (self.value() == 0),
    {
        let r = self.limbs[0] == 0 && self.limbs[1] == 0 && self.limbs[2] == 0 && self.limbs[3] == 0;
        proof {
            let a = self.limbs@[0] as nat;
            let b = self.limbs@[1] as nat;
            let c = self.limbs@[2] as nat;
            let d = self.limbs@[3] as nat;
            let p = pow2_64();
            assert(p > 0);
            assert(p * d >= 0) by (nonlinear_arith)
                requires p > 0;
            assert(p * (c + p * d) >= 0 && (c + p * d == 0 ==> c == 0 && d == 0)) by (nonlinear_arith)
                requires p > 0, c >= 0, d >= 0;
            assert(p * (b + p * (c + p * d)) >= 0 && (b + p * (c + p * d) == 0 ==> b == 0 && c + p * d == 0))
                by (nonlinear_arith)
                requires p > 0, b >= 0, c + p * d >= 0;
            assert(a + p * (b + p * (c + p * d)) == 0 ==> a == 0 && b + p * (c + p * d) == 0)
                by (nonlinear_arith)
                requires p > 0, a >= 0, b + p * (c + p * d) >= 0;
        }
        r
    }
}

pub open spec fn is_dec_digit(c: char) -> bool {
    '0' <= c && c <= '9'
}

pub open spec fn is_hex_digit(c: char) -> bool {
    ('0' <= c && c <= '9') || ('a' <= c && c <= 'f') || ('A' <= c && c <= 'F')
}

pub open spec fn all_dec_digits(s: Seq<char>) -> bool {
    forall|i: int| 0 <= i < s.len() ==> is_dec_digit(#[trigger] s[i])
}

pub open spec fn all_hex_digits(s: Seq<char>) -> bool {
    forall|i: int| 0 <= i < s.len() ==> is_hex_digit(#[trigger] s[i])
}

pub open spec fn hex_digit_value(c: char) -> nat {
    if '0' <= c && c <= '9' {
        (c as nat - '0' as nat) as nat
    } else if 'a' <= c && c <= 'f' {
        (c as nat - 'a' as nat + 10) as nat
    } else {
        (c as nat - 'A' as nat + 10) as nat
    }
}

/// The number that a string of decimal digits denotes.
pub open spec fn dec_value(s: Seq<char>) -> nat
    decreases s.len(),
{
    if s.len() == 0 {
        0
    } else {
        10 * dec_value(s.drop_last()) + hex_digit_value(s.last())
    }
}

/// The number that a string of hex digits denotes.
pub open spec fn hex_value(s: Seq<char>) -> nat
    decreases s.len(),
{
    if s.len() == 0 {
        0
    } else {
        16 * hex_value(s.drop_last()) + hex_digit_value(s.last())
    }
}

pub open spec fn digit_char(d: nat) -> char {
    if d < 10 {
        (d + '0' as nat) as char
    } else {
        (d - 10 + 'a' as nat) as char
    }
}

/// The decimal digits of `n`, without leading zeros.
pub open spec fn dec_text(n: nat) -> Seq<char>
    decreases n,
{
    if n < 10 {
        seq![digit_char(n)]
    } else {
        dec_text(n / 10).push(digit_char(n % 10))
    }
}

/// The lowercase hex digits of `n`, without leading zeros.
pub open spec fn hex_text(n: nat) -> Seq<char>
    decreases n,
{
    if n < 16 {
        seq![digit_char(n)]
    } else {
        hex_text(n / 16).push(digit_char(n % 16))
    }
}

/// The bytes that a string of hex digit pairs denotes.
pub open spec fn hex_bytes(s: Seq<char>) -> Seq<u8>
    decreases s.len(),
{
    if s.len() < 2 {
        seq![]
    } else {
        seq![(16 * hex_digit_value(s[0]) + hex_digit_value(s[1])) as u8] + hex_bytes(s.subrange(2, s.len() as int))
    }
}

/// Each byte as two lowercase hex digits.
pub open spec fn hex_pairs(b: Seq<u8>) -> Seq<char>
    decreases b.len(),
{
    if b.len() == 0 {
        seq![]
    } else {
        seq![digit_char(b[0] as nat / 16), digit_char(b[0] as nat % 16)] + hex_pairs(b.subrange(1, b.len() as int))
    }
}

/// Whether every character of `s` satisfies the digit test of `hex` (hex digits) or not (decimal).
fn all_digits(s: &str, hex: bool) -> (r: bool)
    ensures
        r == if hex { all_hex_digits(s@) } else { all_dec_digits(s@) },
{
    let n = s.unicode_len();
    let mut i: usize = 0;
    while i < n
        invariant
            n == s@.len(),
            i <= n,
            forall|j: int| 0 <= j < i ==> if hex { is_hex_digit(#[trigger] s@[j]) } else { is_dec_digit(s@[j]) },
        decreases n - i,
    {
        let c = s.get_char(i);
        let ok = if hex {
            ('0' <= c && c <= '9') || ('a' <= c && c <= 'f') || ('A' <= c && c <= 'F')
        } else {
            '0' <= c && c <= '9'
        };
        if !ok {
            return false;
        }
        i = i + 1;
    }
    true
}

impl U256 {
    /// The number that a non-empty string of decimal digits denotes, if it is below 2^256.
    pub fn from_dec_digits(s: &str) -> (r: Option<U256>)
        ensures
            (r is Some) == (s@.len() > 0 && all_dec_digits(s@) && dec_value(s@) < pow2_256()),
            (r is Some) ==> r->0.value() == dec_value(s@),
    {
        if s.unicode_len() == 0 {
            return None;
        }
        bigint_from_dec_str(s)
    }

    /// The number that a non-empty string of hex digits denotes, if it is below 2^256.
    pub fn from_hex_digits(s: &str) -> (r: Option<U256>)
        ensures
            (r is Some) == (s@.len() > 0 && all_hex_digits(s@) && hex_value(s@) < pow2_256()),
            (r is Some) ==> r->0.value() == hex_value(s@),
    {
        let n = s.unicode_len();
        if n == 0 || !all_digits(s, true) {
            return None;
        }
        let mut z: usize = 0;
        while z < n && s.get_char(z) == '0'
            invariant
                n == s@.len(),
                z <= n,
                forall|i: int| 0 <= i < z ==> s@[i] == '0',
            decreases n - z,
        {
            z = z + 1;
        }
        let ghost sig = s@.subrange(z as int, n as int);
        proof {
            lemma_hex_leading_zeros(s@, z as int);
            if z < n {
                assert(all_hex_digits(sig)) by {
                    assert forall|i: int| 0 <= i < sig.len() implies is_hex_digit(#[trigger] sig[i]) by {
                        assert(sig[i] == s@[z + i]);
                    }
                }
                assert(sig[0] == s@[z as int]);
                lemma_hex_digits_fit(sig);
            } else {
                assert(sig.len() == 0);
            }
        }
        if n - z > 64 {
            return None;
        }
        let digits = s.substring_char(z, n);
        proof {
            assert forall|i: int| 0 <= i < digits@.len() implies is_hex_digit(#[trigger] digits@[i]) by {
                assert(digits@[i] == s@[z + i]);
            }
        }
        bigint_from_hex_str(digits)
    }
}

/// The bytes that a string of hex digit pairs denotes; `None` on an odd count or another character.
pub fn bytes_from_hex(s: &str) -> (r: Option<Vec<u8>>)
    ensures
        (r is Some) == (all_hex_digits(s@) && s@.len() % 2 == 0),
        (r is Some) ==> r->0@ == hex_bytes(s@),
{
    if !all_digits(s, true) {
        return None;
    }
    serialize_from_hex(s)
}

proof fn lemma_digit_char(d: nat)
    requires
        d < 16,
    ensures
        is_hex_digit(digit_char(d)),
        d < 10 ==> is_dec_digit(digit_char(d)),
        hex_digit_value(digit_char(d)) == d,
{
    let c = digit_char(d);
    if d < 10 {
        assert(c as nat == d + 48);
    } else {
        assert(c as nat == d - 10 + 97);
    }
}

/// The decimal digits of a number read back as that number.
pub proof fn lemma_dec_text_round_trip(n: nat)
    ensures
        all_dec_digits(dec_text(n)),
        dec_value(dec_text(n)) == n,
    decreases n,
{
    lemma_digit_char(n % 10);
    if n < 10 {
        let t = dec_text(n);
        assert(t.drop_last() =~= Seq::<char>::empty());
        assert(n % 10 == n);
        assert(dec_value(t) == 10 * dec_value(t.drop_last()) + hex_digit_value(t.last()));
    } else {
        lemma_dec_text_round_trip(n / 10);
        let t = dec_text(n);
        assert(t.drop_last() =~= dec_text(n / 10));
        assert(t.last() == digit_char(n % 10));
        assert(dec_value(t) == 10 * dec_value(t.drop_last()) + hex_digit_value(t.last()));
        assert(n == 10 * (n / 10) + n % 10);
        assert forall|i: int| 0 <= i < t.len() implies is_dec_digit(#[trigger] t[i]) by {
            if i < t.len() - 1 {
                assert(t[i] == dec_text(n / 10)[i]);
            }
        }
    }
}

/// The lowercase hex digits of a number read back as that number.
pub proof fn lemma_hex_text_round_trip(n: nat)
    ensures
        all_hex_digits(hex_text(n)),
        hex_value(hex_text(n)) == n,
    decreases n,
{
    lemma_digit_char(n % 16);
    if n < 16 {
        let t = hex_text(n);
        assert(t.drop_last() =~= Seq::<char>::empty());
        assert(n % 16 == n);
        assert(hex_value(t) == 16 * hex_value(t.drop_last()) + hex_digit_value(t.last()));
    } else {
        lemma_hex_text_round_trip(n / 16);
        let t = hex_text(n);
        assert(t.drop_last() =~= hex_text(n / 16));
        assert(t.last() == digit_char(n % 16));
        assert(hex_value(t) == 16 * hex_value(t.drop_last()) + hex_digit_value(t.last()));
        assert(n == 16 * (n / 16) + n % 16);
        assert forall|i: int| 0 <= i < t.len() implies is_hex_digit(#[trigger] t[i]) by {
            if i < t.len() - 1 {
                assert(t[i] == hex_text(n / 16)[i]);
            }
        }
    }
}

/// Bytes written as hex digit pairs read back as the same bytes.
pub proof fn lemma_hex_pairs_round_trip(b: Seq<u8>)
    ensures
        all_hex_digits(hex_pairs(b)),
        hex_pairs(b).len() == 2 * b.len(),
        hex_bytes(hex_pairs(b)) == b,
    decreases b.len(),
{
    if b.len() > 0 {
        let rest = b.subrange(1, b.len() as int);
        lemma_hex_pairs_round_trip(rest);
        let t = hex_pairs(b);
        let hi = b[0] as nat / 16;
        let lo = b[0] as nat % 16;
        assert(t == seq![digit_char(hi), digit_char(lo)] + hex_pairs(rest));
        assert(t.subrange(2, t.len() as int) =~= hex_pairs(rest));
        assert(16 * hi + lo == b[0] as nat);
        assert(hex_bytes(t) == seq![b[0]] + rest);
        assert(seq![b[0]] + rest =~= b);
        assert forall|i: int| 0 <= i < t.len() implies is_hex_digit(#[trigger] t[i]) by {
            if i >= 2 {
                assert(t[i] == hex_pairs(rest)[i - 2]);
            }
        }
    } else {
        assert(hex_pairs(b) =~= Seq::<char>::empty());
        assert(b =~= Seq::<u8>::empty());
    }
}

pub open spec fn pow16(n: nat) -> nat
    decreases n,
{
    if n == 0 { 1 } else { 16 * pow16((n - 1) as nat) }
}

proof fn lemma_pow16_add(a: nat, b: nat)
    ensures
        pow16(a + b) == pow16(a) * pow16(b),
    decreases b,
{
    if b > 0 {
        lemma_pow16_add(a, (b - 1) as nat);
        assert(pow16(a + b) == 16 * pow16((a + b - 1) as nat));
        assert((a + b - 1) as nat == a + (b - 1) as nat);
        let x = pow16(a);
        let y = pow16((b - 1) as nat);
        assert(pow16(b) == 16 * y);
        assert(16 * (x * y) == x * (16 * y)) by (nonlinear_arith);
    } else {
        assert(pow16(0) == 1);
        assert(a + b == a);
    }
}

proof fn lemma_pow16_positive(n: nat)
    ensures
        pow16(n) >= 1,
    decreases n,
{
    if n > 0 {
        lemma_pow16_positive((n - 1) as nat);
    }
}

proof fn lemma_pow16_monotone(a: nat, b: nat)
    requires
        a <= b,
    ensures
        pow16(a) <= pow16(b),
        pow16(a) >= 1,
    decreases b,
{
    lemma_pow16_positive(a);
    if b > a {
        lemma_pow16_monotone(a, (b - 1) as nat);
        lemma_pow16_positive((b - 1) as nat);
    }
}

proof fn lemma_pow16_64()
    ensures
        pow16(64) == pow2_256(),
{
    reveal_with_fuel(pow16, 17);
    assert(pow16(16) == pow2_64());
    lemma_pow16_add(16, 16);
    lemma_pow16_add(32, 32);
    let p = pow2_64();
    assert((p * p) * (p * p) == p * p * p * p) by (nonlinear_arith);
}

/// Bounds on the number that hex digits denote: below 16 to the number of
/// digits, and, when the first digit is not zero, at least 16 to one less.
proof fn lemma_hex_value_bounds(s: Seq<char>)
    requires
        all_hex_digits(s),
    ensures
        hex_value(s) < pow16(s.len()),
        s.len() > 0 && s[0] != '0' ==> hex_value(s) >= pow16((s.len() - 1) as nat),
    decreases s.len(),
{
    if s.len() > 0 {
        let t = s.drop_last();
        assert(all_hex_digits(t)) by {
            assert forall|i: int| 0 <= i < t.len() implies is_hex_digit(#[trigger] t[i]) by {
                assert(t[i] == s[i]);
            }
        }
        lemma_hex_value_bounds(t);
        let c = s.last();
        assert(is_hex_digit(s[s.len() - 1]));
        let d = hex_digit_value(c);
        assert(d < 16);
        let h = hex_value(t);
        let pt = pow16(t.len());
        assert(hex_value(s) == 16 * h + d);
        assert(16 * h + d < 16 * pt) by (nonlinear_arith)
            requires h < pt, d < 16;
        if s[0] != '0' {
            if s.len() == 1 {
                assert(h == 0);
                assert(c == s[0]);
                assert(d >= 1);
            } else {
                assert(t[0] == s[0]);
                let q = pow16((t.len() - 1) as nat);
                assert(16 * h + d >= 16 * q) by (nonlinear_arith)
                    requires h >= q, d >= 0;
                assert(pow16((s.len() - 1) as nat) == 16 * q);
            }
        }
    }
}

/// Hex digits that do not start with `0` denote a number below 2^256
/// exactly when there are at most 64 of them.
pub proof fn lemma_hex_digits_fit(s: Seq<char>)
    requires
        all_hex_digits(s),
        s.len() > 0,
        s[0] != '0',
    ensures
        (hex_value(s) < pow2_256()) == (s.len() <= 64),
{
    lemma_hex_value_bounds(s);
    lemma_pow16_64();
    if s.len() <= 64 {
        lemma_pow16_monotone(s.len(), 64);
    } else {
        lemma_pow16_monotone(64, (s.len() - 1) as nat);
    }
}

proof fn lemma_hex_zeros(s: Seq<char>)
    requires
        forall|i: int| 0 <= i < s.len() ==> s[i] == '0',
    ensures
        hex_value(s) == 0,
    decreases s.len(),
{
    if s.len() > 0 {
        lemma_hex_zeros(s.drop_last());
    }
}

/// Leading zeros do not change the number that hex digits denote.
pub proof fn lemma_hex_leading_zeros(s: Seq<char>, z: int)
    requires
        0 <= z <= s.len(),
        forall|i: int| 0 <= i < z ==> s[i] == '0',
    ensures
        hex_value(s) == hex_value(s.subrange(z, s.len() as int)),
    decreases s.len(),
{
    if s.len() == z {
        lemma_hex_zeros(s);
        assert(s.subrange(z, z) =~= Seq::<char>::empty());
    } else {
        let t = s.drop_last();
        lemma_hex_leading_zeros(t, z);
        let u = s.subrange(z, s.len() as int);
        assert(u.drop_last() =~= t.subrange(z, t.len() as int));
        assert(u.last() == s.last());
    }
}

/// Relies on bigint's `U256::from_dec_str`: it accepts digits only, multiplies
/// by ten and adds each digit, and fails on overflow past 256 bits.
#[verifier::external_body]
pub(crate) fn bigint_from_dec_str(s: &str) -> (r: Option<U256>)
    ensures
        (r is Some) == (all_dec_digits(s@) && dec_value(s@) < pow2_256()),
        (r is Some) ==> r->0.value() == dec_value(s@),
{
    match bigint::U256::from_dec_str(s) {
        Ok(u) => Some(U256 { limbs: u.0 }),
        Err(_) => None,
    }
}

/// Relies on bigint's `FromStr` for `U256`: hex digits (an odd count is padded
/// with a leading zero) are decoded to big-endian bytes, at most 32 of them,
/// and laid into the little-endian limbs (on the little-endian machines this
/// library is built for).
#[verifier::external_body]
pub(crate) fn bigint_from_hex_str(s: &str) -> (r: Option<U256>)
    requires
        all_hex_digits(s@),
        s@.len() <= 64,
    ensures
        (r is Some),
        r->0.value() == hex_value(s@),
{
    match s.parse::<bigint::U256>() {
        Ok(u) => Some(U256 { limbs: u.0 }),
        Err(_) => None,
    }
}

/// Relies on bigint's `Display` for `U256`: the decimal digits, without leading zeros.
#[verifier::external_body]
pub(crate) fn bigint_dec_string(u: &U256) -> (r: String)
    ensures
        r@ == dec_text(u.value()),
{
    format!("{}", bigint::U256(u.limbs))
}

/// Relies on bigint's `LowerHex` for `U256`: `0x`, then the lowercase hex
/// digits from the first nonzero one (none at all for zero).
#[verifier::external_body]
pub(crate) fn bigint_lower_hex_string(u: &U256) -> (r: String)
    ensures
        r@ == seq!['0', 'x'] + if u.value() == 0 { Seq::<char>::empty() } else { hex_text(u.value()) },
{
    format!("{:x}", bigint::U256(u.limbs))
}

/// Relies on rustc_serialize's `FromHex` for `str`: on hex digits alone, it
/// decodes each pair to a byte and fails on an odd count.
#[verifier::external_body]
pub(crate) fn serialize_from_hex(s: &str) -> (r: Option<Vec<u8>>)
    requires
        all_hex_digits(s@),
    ensures
        (r is Some) == (s@.len() % 2 == 0),
        (r is Some) ==> r->0@ == hex_bytes(s@),
{
    match s.from_hex() {
        Ok(b) => Some(b),
        Err(_) => None,
    }
}

/// Relies on rustc_serialize's `ToHex` for `[u8]`: two lowercase hex digits per byte.
#[verifier::external_body]
pub(crate) fn serialize_to_hex(b: &Vec<u8>) -> (r: String)
    ensures
        r@ == hex_pairs(b@),
{
    b.as_slice().to_hex()
}

} // verus!
