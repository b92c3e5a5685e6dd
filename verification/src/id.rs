//! Identifiers of 128 bits, written as 32 hexadecimal digits.

use crate::strings::push_char;
use vstd::arithmetic::power2::{lemma_pow2_adds, pow2};
use vstd::prelude::*;
use vstd::string::{StringExecFns, StringSliceAdditionalSpecFns};

verus! {

/// The value of a hexadecimal digit in ASCII, of either case.
pub open spec fn hex_digit_value(byte: u8) -> Option<nat> {
    if 0x30 <= byte <= 0x39 {
        Some((byte - 0x30) as nat)
    } else if 0x61 <= byte <= 0x66 {
        Some((byte - 0x61 + 10) as nat)
    } else if 0x41 <= byte <= 0x46 {
        Some((byte - 0x41 + 10) as nat)
    } else {
        None
    }
}

/// Whether every byte is a hexadecimal digit.
pub open spec fn is_hex(bytes: Seq<u8>) -> bool {
    forall|i: int| 0 <= i < bytes.len() ==> hex_digit_value(#[trigger] bytes[i]) is Some
}

/// The number that hexadecimal digits write, most significant digit first.
pub open spec fn hex_value(bytes: Seq<u8>) -> nat
    decreases bytes.len(),
{
    if bytes.len() == 0 {
        0
    } else {
        hex_value(bytes.drop_last()) * 16 + hex_digit_value(bytes.last()).unwrap_or(0)
    }
}

/// The digits of an identifier: 32 bytes, all of them hexadecimal digits, the
/// first of which may be a plus sign instead.
pub open spec fn id_digits(bytes: Seq<u8>) -> Option<Seq<u8>> {
    if bytes.len() != 32 {
        None
    } else if bytes[0] == 0x2b && is_hex(bytes.subrange(1, 32)) {
        Some(bytes.subrange(1, 32))
    } else if is_hex(bytes) {
        Some(bytes)
    } else {
        None
    }
}

/// The lowercase hexadecimal digit of a value below 16.
pub open spec fn hex_char(nibble: u128) -> char {
    if nibble < 10 {
        ((0x30 + nibble) as u8) as char
    } else {
        ((0x61 + nibble - 10) as u8) as char
    }
}

/// The 32 lowercase hexadecimal digits of a value, most significant first.
pub open spec fn hex_string(value: u128) -> Seq<char> {
    Seq::new(32, |k: int| hex_char(nibble(value, k)))
}

proof fn lemma_hex_value_bounded(bytes: Seq<u8>)
    ensures
        hex_value(bytes) < pow2(4 * bytes.len()),
    decreases bytes.len(),
{
    vstd::arithmetic::power2::lemma2_to64();
    if bytes.len() > 0 {
        lemma_hex_value_bounded(bytes.drop_last());
        lemma_pow2_adds(4, (4 * (bytes.len() - 1)) as nat);
        let front = hex_value(bytes.drop_last());
        let limit = pow2((4 * (bytes.len() - 1)) as nat);
        assert(front * 16 + 15 < 16 * limit) by (nonlinear_arith)
            requires
                front < limit,
        ;
    }
}

/// The nibble of a value that its `k`-th hexadecimal digit writes, the most
/// significant first.
pub open spec fn nibble(value: u128, k: int) -> u128 {
    (value >> ((4 * (31 - k)) as u128)) & 0xf
}

proof fn lemma_nibble(value: u128, k: int)
    ensures
        nibble(value, k) < 16,
{
    let shift = (4 * (31 - k)) as u128;
    let digit = (value >> shift) & 0xf;
    assert(digit < 16) by (bit_vector)
        requires
            digit == (value >> shift) & 0xf,
    ;
}

proof fn lemma_hex_char(n: u128)
    requires
        n < 16,
    ensures
        hex_char(n) as u32 <= 0x7f,
        hex_digit_value(hex_char(n) as u8) == Some(n as nat),
        hex_char(n) as u8 != 0x2b,
{
    if n < 10 {
        let byte = (0x30 + n) as u8;
        assert(byte as char as u8 == byte);
    } else {
        let byte = (0x61 + n - 10) as u8;
        assert(byte as char as u8 == byte);
    }
}

/// The first `k` digits of a value write the value without its other bits.
proof fn lemma_hex_prefix(value: u128, bytes: Seq<u8>, k: int)
    requires
        bytes.len() == 32,
        forall|i: int| 0 <= i < 32 ==> hex_digit_value(#[trigger] bytes[i]) == Some(
            nibble(value, i) as nat,
        ),
        1 <= k <= 32,
    ensures
        hex_value(bytes.take(k)) == value >> ((4 * (32 - k)) as u128),
    decreases k,
{
    let taken = bytes.take(k);
    assert(taken.drop_last() =~= bytes.take(k - 1));
    assert(taken.last() == bytes[k - 1]);
    let shift = (4 * (32 - k)) as u128;
    let digit = nibble(value, k - 1);
    assert(digit == (value >> shift) & 0xf);
    if k == 1 {
        assert(bytes.take(0).len() == 0);
        assert(hex_value(bytes.take(0)) == 0);
        assert((value >> 124u128) & 0xf == value >> 124u128) by (bit_vector);
    } else {
        lemma_hex_prefix(value, bytes, k - 1);
        let front = value >> ((shift + 4) as u128);
        assert(front == hex_value(bytes.take(k - 1)));
        assert(front * 16 + ((value >> shift) & 0xf) == value >> shift) by (bit_vector)
            requires
                shift <= 120,
                front == value >> ((shift + 4) as u128),
        ;
    }
}

/// `parse` reads back what `to_string` writes: the 32 digits of a value are
/// the digits of an identifier, and the number they write is the value.
pub proof fn lemma_parse_reads_what_to_string_writes(text: &str, value: u128)
    requires
        text@ == hex_string(value),
    ensures
        id_digits(text.spec_bytes()) == Some(text.spec_bytes()),
        hex_value(text.spec_bytes()) == value,
{
    let chars = text@;
    let bytes = text.spec_bytes();
    assert forall|i: int| 0 <= i < chars.len() implies '\0' <= #[trigger] chars[i]
        <= '\u{7f}' by {
        lemma_nibble(value, i);
        lemma_hex_char(nibble(value, i));
    }
    vstd::utf8::is_ascii_chars_encode_utf8(chars);
    assert forall|i: int| 0 <= i < 32 implies hex_digit_value(#[trigger] bytes[i]) == Some(
        nibble(value, i) as nat,
    ) && bytes[i] != 0x2b by {
        lemma_nibble(value, i);
        lemma_hex_char(nibble(value, i));
        assert(bytes[i] == chars[i] as u8);
    }
    assert(is_hex(bytes));
    assert(bytes[0] != 0x2b);
    lemma_hex_prefix(value, bytes, 32);
    assert(bytes.take(32) =~= bytes);
    assert(value >> 0u128 == value) by (bit_vector);
}

/// The error of parsing an identifier.
#[derive(Debug)]
pub struct ParseIdError;

impl ParseIdError {
    /// What went wrong, in words.
    pub fn to_string(&self) -> (r: String)
        ensures
            r@ == "parse id error"@,
    {
        String::from_str("parse id error")
    }
}

#[derive(Debug, Copy, Clone, Eq, PartialEq, Ord, PartialOrd, Hash)]
pub struct Id(u128);

/// `rand::random` for `u128`: a value drawn by the thread's generator, of
/// which nothing is known in advance.
#[verifier::external_body]
fn random_u128() -> u128 {
    rand::random()
}

impl Id {
    /// The 128 bits of the identifier.
    pub closed spec fn value(self) -> u128 {
        self.0
    }

    /// An identifier drawn at random.
    #[must_use]
    pub fn generate() -> Id {
        Id(random_u128())
    }

    /// The identifier with the given bits.
    pub fn from_u128(value: u128) -> (r: Id)
        ensures
            r.value() == value,
    {
        Id(value)
    }

    /// The bits of the identifier.
    pub fn to_u128(&self) -> (r: u128)
        ensures
            r == self.value(),
    {
        self.0
    }

    /// Reads an identifier from 32 hexadecimal digits.
    #[verifier::rlimit(40)]
    pub fn parse(s: &str) -> (r: Result<Id, ParseIdError>)
        ensures
            r is Ok <==> id_digits(s.spec_bytes()) is Some,
            r is Ok ==> r->Ok_0.value() == hex_value(id_digits(s.spec_bytes())->0),
    {
        let bytes: &[u8] = s.as_bytes();
        if bytes.len() != 32 {
            return Err(ParseIdError);
        }
        let start: usize = if bytes[0] == 0x2b {
            1
        } else {
            0
        };
        let ghost digits = bytes@.subrange(start as int, 32);
        let mut value: u128 = 0;
        let mut i: usize = start;
        while i < 32
            invariant
                start <= i <= 32,
                start <= 1,
                start == 1 <==> bytes@[0] == 0x2bu8,
                bytes@ == s.spec_bytes(),
                bytes@.len() == 32,
                digits == bytes@.subrange(start as int, 32),
                is_hex(digits.take(i - start)),
                value == hex_value(digits.take(i - start)),
            decreases 32 - i,
        {
            let byte: u8 = bytes[i];
            let digit: u8 = if 0x30 <= byte && byte <= 0x39 {
                byte - 0x30
            } else if 0x61 <= byte && byte <= 0x66 {
                byte - 0x61 + 10
            } else if 0x41 <= byte && byte <= 0x46 {
                byte - 0x41 + 10
            } else {
                proof {
                    assert(digits[i - start] == byte);
                    assert(hex_digit_value(digits[i - start]) is None);
                    assert(!is_hex(digits));
                    assert(bytes@[i as int] == byte);
                    assert(hex_digit_value(bytes@[i as int]) is None);
                    assert(!is_hex(bytes@));
                    assert(start == 0 ==> digits =~= bytes@);
                    assert(id_digits(bytes@) is None);
                }
                return Err(ParseIdError);
            };
            proof {
                let seen = digits.take(i - start);
                let next = digits.take(i - start + 1);
                assert(next.drop_last() =~= seen);
                assert(next.last() == byte);
                lemma_hex_value_bounded(seen);
                vstd::arithmetic::power2::lemma2_to64();
                vstd::arithmetic::power2::lemma2_to64_rest();
                lemma_pow2_adds(64, 60);
                if seen.len() < 31 {
                    vstd::arithmetic::power2::lemma_pow2_strictly_increases(4 * seen.len(), 124);
                }
                assert(pow2(124) == 0x1000_0000_0000_0000_0000_0000_0000_0000);
                assert forall|k: int| 0 <= k < next.len() implies hex_digit_value(
                    #[trigger] next[k],
                ) is Some by {
                    if k < seen.len() {
                        assert(next[k] == seen[k]);
                    }
                }
            }
            value = value * 16 + digit as u128;
            i += 1;
        }
        proof {
            assert(digits.take(32 - start) =~= digits);
            if start == 0 {
                assert(digits =~= bytes@);
                assert(hex_digit_value(bytes@[0]) is Some);
            }
        }
        Ok(Id(value))
    }

    /// Writes the identifier as 32 lowercase hexadecimal digits.
    pub fn to_string(&self) -> (r: String)
        ensures
            r@ == hex_string(self.value()),
    {
        let value: u128 = self.0;
        let mut text: String = String::new();
        let mut k: u32 = 0;
        while k < 32
            invariant
                k <= 32,
                value == self.0,
                text@ == hex_string(value).take(k as int),
            decreases 32 - k,
        {
            let shift: u32 = 4 * (31 - k);
            let nibble: u128 = (value >> (shift as u128)) & 0xf;
            assert(nibble < 16) by (bit_vector)
                requires
                    nibble == (value >> (shift as u128)) & 0xf,
            ;
            let digit: u8 = if nibble < 10 {
                0x30 + nibble as u8
            } else {
                0x61 + (nibble - 10) as u8
            };
            push_char(&mut text, digit as char);
            proof {
                assert(hex_string(value)[k as int] == hex_char(nibble));
                assert(text@ =~= hex_string(value).take(k as int + 1));
            }
            k += 1;
        }
        proof {
            assert(hex_string(value).take(32) =~= hex_string(value));
        }
        text
    }
}

impl std::str::FromStr for Id {
    type Err = ParseIdError;

    fn from_str(s: &str) -> (r: Result<Id, ParseIdError>)
        ensures
            r is Ok <==> id_digits(s.spec_bytes()) is Some,
            r is Ok ==> r->Ok_0.value() == hex_value(id_digits(s.spec_bytes())->0),
    {
        Id::parse(s)
    }
}

} // verus!
