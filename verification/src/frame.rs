//! The canonical bytes of an object: `<tag> <length>\0<payload>`.
//!
//! The tag is the lowercase name of the object's type, the length is the
//! number of payload bytes in decimal without leading zeros, and the payload
//! follows the NUL unchanged. These are the bytes that are hashed and, once
//! compressed, stored.

use crate::error::ObjectError;
use crate::scan::{find_from, first_at, lemma_first_at, lemma_first_at_is, same_bytes, NUL};
use vstd::prelude::*;
use vstd::slice::*;

verus! {

/// The byte between the tag and the length: an ASCII space.
pub const SPACE: u8 = 32;

/// The ASCII digit `0`; the other digits follow it in order.
pub const DIGIT_0: u8 = 48;

/// The ASCII digit `9`.
pub const DIGIT_9: u8 = 57;

/// The type of an object.
#[derive(Clone, Copy, Debug, PartialEq, Eq, Structural)]
pub enum ObjectType {
    /// Opaque bytes.
    Blob,
    /// A directory listing.
    Tree,
}

impl ObjectType {
    /// The tag of the type as text: `blob` or `tree`.
    pub open spec fn tag_text(self) -> Seq<char> {
        match self {
            ObjectType::Blob => seq!['b', 'l', 'o', 'b'],
            ObjectType::Tree => seq!['t', 'r', 'e', 'e'],
        }
    }

    /// The tag of the type as bytes: the ASCII codes of its text.
    pub open spec fn tag_bytes(self) -> Seq<u8> {
        match self {
            ObjectType::Blob => seq!['b' as u8, 'l' as u8, 'o' as u8, 'b' as u8],
            ObjectType::Tree => seq!['t' as u8, 'r' as u8, 'e' as u8, 'e' as u8],
        }
    }

    /// The canonical lowercase name of the type.
    pub fn name(&self) -> (name: &'static str)
        ensures
            name@ == self.tag_text(),
    {
        match self {
            ObjectType::Blob => {
                proof {
                    reveal_strlit("blob");
                }
                "blob"
            },
            ObjectType::Tree => {
                proof {
                    reveal_strlit("tree");
                }
                "tree"
            },
        }
    }

    /// The tag of the type as it stands in a framed object.
    pub fn tag(&self) -> (tag: [u8; 4])
        ensures
            tag@ == self.tag_bytes(),
    {
        let tag: [u8; 4] = match self {
            ObjectType::Blob => ['b' as u8, 'l' as u8, 'o' as u8, 'b' as u8],
            ObjectType::Tree => ['t' as u8, 'r' as u8, 'e' as u8, 'e' as u8],
        };
        assert(tag@ =~= self.tag_bytes());
        tag
    }

    /// Recognizes the tag of a framed object.
    ///
    /// Fails with `UnknownObjectType` exactly when `tag` is the tag of no
    /// type.
    pub fn from_tag(tag: &[u8]) -> (kind: Result<ObjectType, ObjectError>)
        ensures
            match kind {
                Ok(k) => type_of_tag(tag@) == Some(k),
                Err(e) => type_of_tag(tag@) is None && e == ObjectError::UnknownObjectType,
            },
    {
        if same_bytes(tag, ObjectType::Blob.tag().as_slice()) {
            Ok(ObjectType::Blob)
        } else if same_bytes(tag, ObjectType::Tree.tag().as_slice()) {
            Ok(ObjectType::Tree)
        } else {
            Err(ObjectError::UnknownObjectType)
        }
    }
}

/// The type whose tag `tag` is, if it is the tag of one.
pub open spec fn type_of_tag(tag: Seq<u8>) -> Option<ObjectType> {
    if tag == ObjectType::Blob.tag_bytes() {
        Some(ObjectType::Blob)
    } else if tag == ObjectType::Tree.tag_bytes() {
        Some(ObjectType::Tree)
    } else {
        None
    }
}

/// The decimal digits of `n` in ASCII, without leading zeros; `0` for zero.
pub open spec fn decimal(n: nat) -> Seq<u8>
    decreases n,
{
    if n < 10 {
        seq![(DIGIT_0 + n) as u8]
    } else {
        decimal(n / 10).push((DIGIT_0 + n % 10) as u8)
    }
}

/// Whether every byte of `field` is an ASCII decimal digit.
pub open spec fn all_digits(field: Seq<u8>) -> bool {
    forall|i: int| 0 <= i < field.len() ==> DIGIT_0 <= #[trigger] field[i] <= DIGIT_9
}

/// The number that the decimal digits of `field` stand for.
pub open spec fn decimal_value(field: Seq<u8>) -> nat
    decreases field.len(),
{
    if field.len() == 0 {
        0
    } else {
        decimal_value(field.drop_last()) * 10 + (field.last() - DIGIT_0) as nat
    }
}

/// The canonical bytes of an object of type `kind` with the given payload.
pub open spec fn frame_spec(kind: ObjectType, payload: Seq<u8>) -> Seq<u8> {
    kind.tag_bytes() + seq![SPACE] + decimal(payload.len()) + seq![NUL] + payload
}

/// What framed bytes hold: the type, the declared length and the payload.
///
/// The tag runs up to the first space, the length field from there up to the
/// next NUL, and the payload from there to the end. Without the space the
/// result is `MalformedHeader` at offset 0; without the NUL, with an empty
/// length field, with one that holds anything but digits, or with one that
/// exceeds 64 bits, it is `MalformedHeader` at the offset of the length
/// field. A tag of no known type gives `UnknownObjectType`, and a declared
/// length other than the number of payload bytes gives `LengthMismatch`.
pub open spec fn parse_spec(bytes: Seq<u8>) -> Result<(ObjectType, u64, Seq<u8>), ObjectError> {
    match first_at(bytes, SPACE, 0) {
        None => Err(ObjectError::MalformedHeader { offset: 0 }),
        Some(space) => match first_at(bytes, NUL, space + 1) {
            None => Err(ObjectError::MalformedHeader { offset: (space + 1) as usize }),
            Some(nul) => {
                let field = bytes.subrange(space + 1, nul);
                let payload = bytes.subrange(nul + 1, bytes.len() as int);
                match type_of_tag(bytes.subrange(0, space)) {
                    None => Err(ObjectError::UnknownObjectType),
                    Some(kind) => if field.len() == 0 || !all_digits(field) || decimal_value(field)
                        > u64::MAX {
                        Err(ObjectError::MalformedHeader { offset: (space + 1) as usize })
                    } else if decimal_value(field) != payload.len() {
                        Err(
                            ObjectError::LengthMismatch {
                                declared: decimal_value(field) as u64,
                                actual: payload.len() as u64,
                            },
                        )
                    } else {
                        Ok((kind, decimal_value(field) as u64, payload))
                    },
                }
            },
        }
    }
}

/// Appends the decimal digits of `n` to `out`.
fn push_decimal(out: &mut Vec<u8>, n: u64)
    ensures
        final(out)@ == old(out)@ + decimal(n as nat),
    decreases n,
{
    if n >= 10 {
        push_decimal(out, n / 10);
    }
    let digit: u8 = (n % 10) as u8;
    out.push(DIGIT_0 + digit);
}

/// Builds the canonical bytes of an object: the tag of `kind`, a space, the
/// length of `payload` in decimal, a NUL, and `payload`.
pub fn frame(kind: ObjectType, payload: &[u8]) -> (framed: Vec<u8>)
    ensures
        framed@ == frame_spec(kind, payload@),
{
    let mut framed: Vec<u8> = Vec::new();
    framed.extend_from_slice(kind.tag().as_slice());
    framed.push(SPACE);
    push_decimal(&mut framed, payload.len() as u64);
    framed.push(NUL);
    framed.extend_from_slice(payload);
    framed
}

/// The value of a prefix of a decimal field is at most that of the field.
proof fn lemma_decimal_value_grows(field: Seq<u8>, k: int)
    requires
        all_digits(field),
        0 <= k <= field.len(),
    ensures
        decimal_value(field.take(k)) <= decimal_value(field),
    decreases field.len() - k,
{
    if k == field.len() {
        assert(field.take(k) =~= field);
    } else {
        lemma_decimal_value_grows(field, k + 1);
        assert(field.take(k + 1).drop_last() =~= field.take(k));
    }
}

/// Reads an unsigned decimal number of at most 64 bits from the length field
/// `bytes[from..to]`.
fn parse_decimal(bytes: &[u8], from: usize, to: usize) -> (value: Option<u64>)
    requires
        from <= to <= bytes.len(),
    ensures
        ({
            let field = bytes@.subrange(from as int, to as int);
            match value {
                Some(v) => field.len() > 0 && all_digits(field) && decimal_value(field) == v,
                None => field.len() == 0 || !all_digits(field) || decimal_value(field) > u64::MAX,
            }
        }),
{
    let ghost field = bytes@.subrange(from as int, to as int);
    if from == to {
        return None;
    }
    let mut value: u64 = 0;
    let mut i: usize = from;
    while i < to
        invariant
            from <= i <= to <= bytes.len(),
            field == bytes@.subrange(from as int, to as int),
            all_digits(field.take(i - from)),
            decimal_value(field.take(i - from)) == value,
        decreases to - i,
    {
        let b = bytes[i];
        if b < DIGIT_0 || b > DIGIT_9 {
            assert(field[i - from] == b);
            return None;
        }
        let digit: u64 = (b - DIGIT_0) as u64;
        proof {
            assert(field.take(i - from + 1).drop_last() =~= field.take(i - from));
        }
        if value > (u64::MAX - digit) / 10 {
            proof {
                if all_digits(field) {
                    lemma_decimal_value_grows(field, i - from + 1);
                }
            }
            return None;
        }
        value = value * 10 + digit;
        i += 1;
    }
    assert(field.take(to - from) =~= field);
    Some(value)
}

/// Parses framed bytes into the type, the declared length and the payload.
///
/// Fails with `MalformedHeader` when the space or the NUL is missing or the
/// length field is not an unsigned decimal number, with `UnknownObjectType`
/// when the tag is that of no type, and with `LengthMismatch` when the
/// declared length is not the length of the payload; `parse_spec` says which
/// of them comes first.
pub fn parse(bytes: &[u8]) -> (parsed: Result<(ObjectType, u64, Vec<u8>), ObjectError>)
    ensures
        match parsed {
            Ok((kind, length, payload)) => parse_spec(bytes@) == Ok::<_, ObjectError>(
                (kind, length, payload@),
            ),
            Err(e) => parse_spec(bytes@) == Err::<(ObjectType, u64, Seq<u8>), _>(e),
        },
{
    let end = bytes.len();
    let space = match find_from(bytes, SPACE, 0) {
        Some(j) => j,
        None => { return Err(ObjectError::MalformedHeader { offset: 0 }); },
    };
    proof {
        lemma_first_at(bytes@, SPACE, 0);
    }
    let nul = match find_from(bytes, NUL, space + 1) {
        Some(j) => j,
        None => { return Err(ObjectError::MalformedHeader { offset: space + 1 }); },
    };
    proof {
        lemma_first_at(bytes@, NUL, space + 1);
    }
    let kind = match ObjectType::from_tag(slice_subrange(bytes, 0, space)) {
        Ok(kind) => kind,
        Err(e) => { return Err(e); },
    };
    let declared = match parse_decimal(bytes, space + 1, nul) {
        Some(v) => v,
        None => { return Err(ObjectError::MalformedHeader { offset: space + 1 }); },
    };
    let payload = slice_to_vec(slice_subrange(bytes, nul + 1, end));
    let actual = payload.len() as u64;
    if declared != actual {
        return Err(ObjectError::LengthMismatch { declared, actual });
    }
    Ok((kind, declared, payload))
}

/// The decimal text of a number is made of digits, at least one, and stands
/// for that number.
pub proof fn lemma_decimal(n: nat)
    ensures
        decimal(n).len() > 0,
        all_digits(decimal(n)),
        decimal_value(decimal(n)) == n,
    decreases n,
{
    if n < 10 {
        assert(decimal_value(decimal(n).drop_last()) == 0);
    } else {
        lemma_decimal(n / 10);
        assert(decimal(n).drop_last() =~= decimal(n / 10));
    }
}

/// The tag of a type is the ASCII text of its name, holds neither the space
/// nor the NUL that end the header fields, and is the tag of that type alone.
pub proof fn lemma_tag(kind: ObjectType)
    ensures
        kind.tag_bytes() == Seq::new(4, |i: int| kind.tag_text()[i] as u8),
        forall|i: int|
            0 <= i < 4 ==> (#[trigger] kind.tag_bytes()[i]) != SPACE && kind.tag_bytes()[i] != NUL,
        type_of_tag(kind.tag_bytes()) == Some(kind),
{
    assert(kind.tag_bytes() =~= Seq::new(4, |i: int| kind.tag_text()[i] as u8));
    assert(ObjectType::Blob.tag_bytes()[0] != ObjectType::Tree.tag_bytes()[0]);
}

/// Parsing the canonical bytes of an object gives back its type, the length
/// of its payload and the payload.
pub proof fn lemma_parse_frame_round_trip(kind: ObjectType, payload: Seq<u8>)
    requires
        payload.len() <= u64::MAX,
    ensures
        parse_spec(frame_spec(kind, payload)) == Ok::<_, ObjectError>(
            (kind, payload.len() as u64, payload),
        ),
{
    let tag = kind.tag_bytes();
    let field = decimal(payload.len());
    let framed = frame_spec(kind, payload);
    lemma_decimal(payload.len());
    let space: int = 4;
    let nul: int = 5 + field.len() as int;
    lemma_first_at_is(framed, SPACE, 0, space);
    lemma_first_at_is(framed, NUL, space + 1, nul);
    assert(framed.subrange(0, space) =~= tag);
    assert(framed.subrange(space + 1, nul) =~= field);
    assert(framed.subrange(nul + 1, framed.len() as int) =~= payload);
}

/// Objects that differ in type or payload differ in their canonical bytes:
/// two objects have the same address only if they are the same object or
/// SHA-1 gives two different inputs the same digest.
pub proof fn lemma_frame_is_injective(
    kind: ObjectType,
    payload: Seq<u8>,
    other_kind: ObjectType,
    other_payload: Seq<u8>,
)
    requires
        payload.len() <= u64::MAX,
        other_payload.len() <= u64::MAX,
        frame_spec(kind, payload) == frame_spec(other_kind, other_payload),
    ensures
        kind == other_kind,
        payload == other_payload,
{
    lemma_parse_frame_round_trip(kind, payload);
    lemma_parse_frame_round_trip(other_kind, other_payload);
}

} // verus!
