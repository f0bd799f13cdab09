//! Addresses: SHA-1 digests, their hexadecimal text, and the storage key.

use crate::error::ObjectError;
use sha1::{Digest, Sha1};
use vstd::prelude::*;
use vstd::string::*;

verus! {

/// The number of bytes of an address.
pub const ADDRESS_LEN: usize = 20;

/// The number of hexadecimal digits of an address written as text.
pub const HEX_LEN: usize = 40;

/// The number of digits of the text that form the first part of the key.
pub const PREFIX_LEN: usize = 2;

/// The longest input that can be hashed: SHA-1 counts the bits of its input
/// in 64 bits.
pub const MAX_HASHED_LEN: u64 = 0x1fff_ffff_ffff_ffff;

/// The address of an object: the 20 bytes of a SHA-1 digest.
#[derive(Clone, Copy, Debug, PartialEq, Eq, Hash)]
pub struct Address {
    pub bytes: [u8; 20],
}

impl View for Address {
    type V = Seq<u8>;

    open spec fn view(&self) -> Seq<u8> {
        self.bytes@
    }
}

/// The SHA-1 digest of `data`: the result of `sha1::Sha1::digest`.
pub uninterp spec fn sha1_of(data: Seq<u8>) -> Seq<u8>;

/// The lowercase hexadecimal digit of a value below 16.
pub open spec fn hex_digit(n: int) -> char {
    if n < 10 {
        ('0' as int + n) as char
    } else {
        ('a' as int + n - 10) as char
    }
}

/// The text of `bytes`: two lowercase hexadecimal digits for each byte, the
/// high half first.
pub open spec fn hex_chars(bytes: Seq<u8>) -> Seq<char> {
    Seq::new(
        2 * bytes.len(),
        |i: int|
            if i % 2 == 0 {
                hex_digit(bytes[i / 2] as int / 16)
            } else {
                hex_digit(bytes[i / 2] as int % 16)
            },
    )
}

/// Whether `c` is a hexadecimal digit, in either case.
pub open spec fn is_hex_char(c: char) -> bool {
    ('0' <= c <= '9') || ('a' <= c <= 'f') || ('A' <= c <= 'F')
}

/// The value of the hexadecimal digit `c`.
pub open spec fn hex_value(c: char) -> int {
    if '0' <= c <= '9' {
        c as int - '0' as int
    } else if 'a' <= c <= 'f' {
        c as int - 'a' as int + 10
    } else {
        c as int - 'A' as int + 10
    }
}

/// Whether `text` is an address written as text: exactly 40 hexadecimal
/// digits.
pub open spec fn is_hex_address(text: Seq<char>) -> bool {
    text.len() == HEX_LEN && forall|i: int| 0 <= i < text.len() ==> is_hex_char(#[trigger] text[i])
}

/// The bytes that the hexadecimal digits of `text` stand for, two digits to a
/// byte.
pub open spec fn unhex(text: Seq<char>) -> Seq<u8> {
    Seq::new(
        text.len() / 2,
        |i: int| (hex_value(text[2 * i]) * 16 + hex_value(text[2 * i + 1])) as u8,
    )
}

/// The storage key of an address written as text: its first two digits and
/// the remaining 38.
pub open spec fn key_of_text(text: Seq<char>) -> (Seq<char>, Seq<char>) {
    (text.subrange(0, PREFIX_LEN as int), text.subrange(PREFIX_LEN as int, text.len() as int))
}

/// The storage key of a binary address.
pub open spec fn key_of(address: Seq<u8>) -> (Seq<char>, Seq<char>) {
    key_of_text(hex_chars(address))
}

/// Calls `sha1::Sha1::digest` (the `Digest::digest` of the `sha1` crate) on
/// `data`. Trusted: the 20 bytes that come back are named `sha1_of(data)`.
/// Inputs of 2^61 bytes or more are left out, since the bit count of the
/// hasher would overflow on them.
#[verifier::external_body]
fn sha1_digest(data: &[u8]) -> (out: [u8; 20])
    requires
        data@.len() <= MAX_HASHED_LEN,
    ensures
        out@ == sha1_of(data@),
{
    Sha1::digest(data).into()
}

/// Calls `hex::encode` on `data`. Trusted: the result has two lowercase
/// hexadecimal digits for each byte, high half first, which is `hex_chars`.
#[verifier::external_body]
fn hex_encode(data: &[u8]) -> (text: String)
    ensures
        text@ == hex_chars(data@),
{
    hex::encode(data)
}

/// Computes the address of `data`: its SHA-1 digest, over exactly the bytes
/// given.
pub fn digest(data: &[u8]) -> (address: Address)
    requires
        data@.len() <= MAX_HASHED_LEN,
    ensures
        address@ == sha1_of(data@),
{
    Address { bytes: sha1_digest(data) }
}

/// The value of the ASCII hexadecimal digit `b`, if it is one.
fn nibble(b: u8) -> (value: Option<u8>)
    ensures
        match value {
            Some(v) => is_hex_char(b as char) && v == hex_value(b as char),
            None => !is_hex_char(b as char),
        },
{
    if b >= '0' as u8 && b <= '9' as u8 {
        Some(b - '0' as u8)
    } else if b >= 'a' as u8 && b <= 'f' as u8 {
        Some(b - 'a' as u8 + 10)
    } else if b >= 'A' as u8 && b <= 'F' as u8 {
        Some(b - 'A' as u8 + 10)
    } else {
        None
    }
}

/// The bytes of `text` where they stand one for one for its characters, which
/// is so exactly when `text` is ASCII and 40 characters long.
fn ascii_address_bytes(text: &str) -> (raw: Option<&[u8]>)
    ensures
        match raw {
            Some(r) => r@.len() == HEX_LEN && text@.len() == HEX_LEN && text.is_ascii()
                && forall|i: int| 0 <= i < HEX_LEN ==> r@[i] as char == #[trigger] text@[i],
            None => !is_hex_address(text@),
        },
{
    if !text.is_ascii() {
        return None;
    }
    let raw = text.as_bytes();
    if raw.len() != HEX_LEN {
        return None;
    }
    Some(raw)
}

impl Address {
    /// Builds an address from its 20 bytes.
    ///
    /// Fails with `MalformedAddress` exactly when `bytes` is not 20 bytes
    /// long.
    pub fn from_bytes(bytes: &[u8]) -> (made: Result<Address, ObjectError>)
        ensures
            match made {
                Ok(a) => bytes@.len() == ADDRESS_LEN && a@ == bytes@,
                Err(e) => bytes@.len() != ADDRESS_LEN && e == ObjectError::MalformedAddress,
            },
    {
        if bytes.len() != ADDRESS_LEN {
            return Err(ObjectError::MalformedAddress);
        }
        Ok(Address::copy_from(bytes, 0))
    }

    /// Copies the 20 bytes of `data` that start at `at`.
    pub(crate) fn copy_from(data: &[u8], at: usize) -> (made: Address)
        requires
            at + ADDRESS_LEN <= data@.len(),
        ensures
            made@ == data@.subrange(at as int, at + ADDRESS_LEN),
    {
        let mut bytes = [0u8; 20];
        let mut k: usize = 0;
        while k < ADDRESS_LEN
            invariant
                k <= ADDRESS_LEN,
                at + ADDRESS_LEN <= data.len(),
                forall|j: int| 0 <= j < k ==> bytes@[j] == data@[at + j],
            decreases ADDRESS_LEN - k,
        {
            bytes[k] = data[at + k];
            k += 1;
        }
        Address { bytes }
    }

    /// The 20 bytes of the address.
    pub fn as_bytes(&self) -> (bytes: &[u8])
        ensures
            bytes@ == self@,
    {
        self.bytes.as_slice()
    }

    /// Renders the address as 40 lowercase hexadecimal digits, two for each
    /// byte.
    pub fn to_hex(&self) -> (text: String)
        ensures
            text@ == hex_chars(self@),
    {
        hex_encode(self.bytes.as_slice())
    }

    /// Reads an address written as 40 hexadecimal digits of either case.
    ///
    /// Fails with `MalformedAddress` exactly when `text` is not made of 40
    /// hexadecimal digits.
    pub fn from_hex(text: &str) -> (made: Result<Address, ObjectError>)
        ensures
            match made {
                Ok(a) => is_hex_address(text@) && a@ == unhex(text@),
                Err(e) => !is_hex_address(text@) && e == ObjectError::MalformedAddress,
            },
    {
        let raw = match ascii_address_bytes(text) {
            Some(raw) => raw,
            None => { return Err(ObjectError::MalformedAddress); },
        };
        let mut bytes = [0u8; 20];
        let mut k: usize = 0;
        while k < ADDRESS_LEN
            invariant
                k <= ADDRESS_LEN,
                raw@.len() == HEX_LEN,
                text@.len() == HEX_LEN,
                forall|i: int| 0 <= i < HEX_LEN ==> raw@[i] as char == #[trigger] text@[i],
                forall|i: int| 0 <= i < 2 * k ==> is_hex_char(#[trigger] text@[i]),
                forall|j: int| 0 <= j < k ==> bytes@[j] == #[trigger] unhex(text@)[j],
            decreases ADDRESS_LEN - k,
        {
            let high = nibble(raw[2 * k]);
            let low = nibble(raw[2 * k + 1]);
            match (high, low) {
                (Some(h), Some(l)) => {
                    bytes[k] = h * 16 + l;
                },
                _ => {
                    assert(!is_hex_char(text@[2 * k as int]) || !is_hex_char(
                        text@[2 * k + 1],
                    ));
                    return Err(ObjectError::MalformedAddress);
                },
            }
            k += 1;
        }
        Ok(Address { bytes })
    }

    /// The storage key of the address: the first two digits of its text and
    /// the remaining 38.
    pub fn key(&self) -> (key: (String, String))
        ensures
            (key.0@, key.1@) == key_of(self@),
    {
        let text = self.to_hex();
        proof {
            lemma_hex_chars_is_hex(self@);
        }
        cut_key(text.as_str())
    }
}

/// Cuts an address written as text into its storage key.
fn cut_key(text: &str) -> (key: (String, String))
    requires
        is_hex_address(text@),
    ensures
        (key.0@, key.1@) == key_of_text(text@),
{
    let prefix = text.substring_ascii(0, PREFIX_LEN);
    let suffix = text.substring_ascii(PREFIX_LEN, HEX_LEN);
    (prefix.to_owned(), suffix.to_owned())
}

/// Splits an address written as text into its storage key: the first 2
/// digits and the remaining 38.
///
/// Fails with `MalformedAddress` exactly when `text` is not made of 40
/// hexadecimal digits.
pub fn split_key(text: &str) -> (key: Result<(String, String), ObjectError>)
    ensures
        match key {
            Ok(k) => is_hex_address(text@) && (k.0@, k.1@) == key_of_text(text@),
            Err(e) => !is_hex_address(text@) && e == ObjectError::MalformedAddress,
        },
{
    let raw = match ascii_address_bytes(text) {
        Some(raw) => raw,
        None => { return Err(ObjectError::MalformedAddress); },
    };
    let mut i: usize = 0;
    while i < HEX_LEN
        invariant
            i <= HEX_LEN,
            raw@.len() == HEX_LEN,
            text@.len() == HEX_LEN,
            forall|j: int| 0 <= j < HEX_LEN ==> raw@[j] as char == #[trigger] text@[j],
            forall|j: int| 0 <= j < i ==> is_hex_char(#[trigger] text@[j]),
        decreases HEX_LEN - i,
    {
        if nibble(raw[i]).is_none() {
            assert(!is_hex_char(text@[i as int]));
            return Err(ObjectError::MalformedAddress);
        }
        i += 1;
    }
    Ok(cut_key(text))
}

/// The text of any 20 bytes is an address written as text.
pub proof fn lemma_hex_chars_is_hex(bytes: Seq<u8>)
    requires
        bytes.len() == ADDRESS_LEN,
    ensures
        is_hex_address(hex_chars(bytes)),
{
}

/// Reading the text of an address gives the address back.
pub proof fn lemma_unhex_hex_chars(bytes: Seq<u8>)
    ensures
        unhex(hex_chars(bytes)) == bytes,
{
}

} // verus!
