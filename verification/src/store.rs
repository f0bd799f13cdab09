//! The object store: what to write for an object, and what a stored object
//! is.
//!
//! The store does no I/O of its own. `store` frames an object, computes its
//! address and compresses it, and hands back what has to be written under
//! which key; the caller writes it and reports with `PendingWrite::finish`.
//! To load, the caller reads what is kept under `Address::key` and hands it
//! to `load` or `load_tree`.

use crate::address::{
    digest, hex_chars, key_of, lemma_unhex_hex_chars, sha1_of, Address, ADDRESS_LEN,
    MAX_HASHED_LEN,
};
use crate::error::ObjectError;
use crate::frame::{
    decimal, frame, frame_spec, lemma_frame_is_injective, lemma_parse_frame_round_trip, parse,
    parse_spec, ObjectType,
};
use crate::tree::{
    all_wf, decode_entries, decode_entries_spec, encode_entries_spec,
    lemma_decode_encode_round_trip, models, EntryModel, TreeEntry,
};
use crate::zlib::{compress, decompress, zlib_deflate, zlib_inflate};
use vstd::prelude::*;

verus! {

/// The longest header of a framed object: a tag of 4 bytes, a space, a
/// length of at most 20 digits, and a NUL.
pub const MAX_HEADER_LEN: u64 = 26;

/// The longest payload that can be stored: with its header it is the longest
/// input that can be hashed.
pub const MAX_PAYLOAD_LEN: u64 = MAX_HASHED_LEN - MAX_HEADER_LEN;

/// The address of an object: the SHA-1 digest of its canonical bytes.
pub open spec fn object_address(kind: ObjectType, payload: Seq<u8>) -> Seq<u8> {
    sha1_of(frame_spec(kind, payload))
}

/// An object made ready for the storage: its address, the key under which
/// it is kept, and the compressed bytes to keep there.
#[derive(Debug)]
pub struct PendingWrite {
    pub address: Address,
    pub prefix: String,
    pub suffix: String,
    pub bytes: Vec<u8>,
}

impl PendingWrite {
    /// Whether this is what storing an object of type `kind` with the given
    /// payload writes: the address is the digest of the canonical bytes, the
    /// key is that of the address, and the bytes are the canonical bytes
    /// compressed, which decompress to the canonical bytes.
    pub open spec fn holds(self, kind: ObjectType, payload: Seq<u8>) -> bool {
        &&& self.address@ == object_address(kind, payload)
        &&& (self.prefix@, self.suffix@) == key_of(self.address@)
        &&& zlib_deflate(frame_spec(kind, payload)) == Some(self.bytes@)
        &&& zlib_inflate(self.bytes@) == Some(frame_spec(kind, payload))
    }

    /// Ends a store once the storage has answered: the address of the object
    /// when it was written, `IoError` when it was not.
    pub fn finish(self, written: bool) -> (stored: Result<Address, ObjectError>)
        ensures
            stored == if written {
                Ok::<_, ObjectError>(self.address)
            } else {
                Err(ObjectError::IoError)
            },
    {
        if written {
            Ok(self.address)
        } else {
            Err(ObjectError::IoError)
        }
    }
}

/// Whether `outcome` is what storing an object of type `kind` with the given
/// payload gives: where the compressor has a stream for the canonical bytes,
/// the write that holds the object; where it has none, `IoError`.
pub open spec fn store_gives(
    kind: ObjectType,
    payload: Seq<u8>,
    outcome: Result<PendingWrite, ObjectError>,
) -> bool {
    match outcome {
        Ok(write) => write.holds(kind, payload),
        Err(e) => e == ObjectError::IoError && zlib_deflate(frame_spec(kind, payload)) is None,
    }
}

/// The type and payload of the object whose canonical bytes are `framed`.
pub open spec fn unframe_spec(framed: Seq<u8>) -> Result<(ObjectType, Seq<u8>), ObjectError> {
    match parse_spec(framed) {
        Ok((kind, _, payload)) => Ok((kind, payload)),
        Err(e) => Err(e),
    }
}

/// The entries of an object taken as a tree: those of its payload where it
/// is a tree, `TypeMismatch` where it is not.
pub open spec fn tree_entries_spec(kind: ObjectType, payload: Seq<u8>) -> Result<
    Seq<EntryModel>,
    ObjectError,
> {
    if kind == ObjectType::Tree {
        decode_entries_spec(payload)
    } else {
        Err(ObjectError::TypeMismatch)
    }
}

/// What loading gives for what the storage holds under an address: the type
/// and payload of the object stored there.
pub open spec fn load_spec(found: Option<Seq<u8>>) -> Result<(ObjectType, Seq<u8>), ObjectError> {
    match found {
        None => Err(ObjectError::ObjectNotFound),
        Some(stream) => match zlib_inflate(stream) {
            None => Err(ObjectError::CorruptStream),
            Some(framed) => unframe_spec(framed),
        },
    }
}

/// What loading a tree gives for what the storage holds under an address.
pub open spec fn load_tree_spec(found: Option<Seq<u8>>) -> Result<Seq<EntryModel>, ObjectError> {
    match load_spec(found) {
        Ok((kind, payload)) => tree_entries_spec(kind, payload),
        Err(e) => Err(e),
    }
}

/// The decimal text of a number below `10^digits` has at most `digits`
/// digits.
proof fn lemma_decimal_len(n: nat, digits: nat)
    requires
        digits > 0,
        n < vstd::arithmetic::power::pow(10, digits),
    ensures
        decimal(n).len() <= digits,
    decreases n,
{
    vstd::arithmetic::power::lemma_pow1(10);
    if n >= 10 && digits > 1 {
        vstd::arithmetic::power::lemma_pow_adds(10, 1, (digits - 1) as nat);
        lemma_decimal_len(n / 10, (digits - 1) as nat);
    }
}

/// Prepares an object for the storage: frames it, computes its address over
/// the framed bytes, and compresses the framed bytes.
///
/// The same type and payload always give the same outcome: the same address,
/// key and bytes, or the same failure. Writing the bytes over an object
/// already kept under the key changes nothing. Fails with `IoError` exactly
/// when the compressor reports a failure for the framed bytes.
pub fn store(kind: ObjectType, payload: &[u8]) -> (prepared: Result<PendingWrite, ObjectError>)
    requires
        payload@.len() <= MAX_PAYLOAD_LEN,
    ensures
        store_gives(kind, payload@, prepared),
{
    let framed = frame(kind, payload);
    proof {
        assert(vstd::arithmetic::power::pow(10, 20) == 100000000000000000000nat) by {
            reveal_with_fuel(vstd::arithmetic::power::pow, 21);
        }
        lemma_decimal_len(payload@.len(), 20);
    }
    let address = digest(framed.as_slice());
    let (prefix, suffix) = address.key();
    let bytes = match compress(framed.as_slice()) {
        Ok(bytes) => bytes,
        Err(e) => { return Err(e); },
    };
    Ok(PendingWrite { address, prefix, suffix, bytes })
}

/// Reads the canonical bytes of an object into its type and payload.
///
/// Fails as `parse` does, with `MalformedHeader`, `UnknownObjectType` or
/// `LengthMismatch`.
pub fn unframe(framed: &[u8]) -> (object: Result<(ObjectType, Vec<u8>), ObjectError>)
    ensures
        match object {
            Ok((kind, payload)) => unframe_spec(framed@) == Ok::<_, ObjectError>(
                (kind, payload@),
            ),
            Err(e) => unframe_spec(framed@) == Err::<(ObjectType, Seq<u8>), _>(e),
        },
{
    match parse(framed) {
        Ok((kind, _, payload)) => Ok((kind, payload)),
        Err(e) => Err(e),
    }
}

/// Reads an object as a tree: the entries of its payload.
///
/// Fails with `TypeMismatch` exactly when `kind` is not `Tree`, and with
/// `TruncatedTree` when the payload of a tree ends inside an entry.
pub fn tree_entries(kind: ObjectType, payload: &[u8]) -> (entries: Result<
    Vec<TreeEntry>,
    ObjectError,
>)
    ensures
        match entries {
            Ok(list) => tree_entries_spec(kind, payload@) == Ok::<_, ObjectError>(models(list@))
                && all_wf(models(list@)),
            Err(e) => tree_entries_spec(kind, payload@) == Err::<Seq<EntryModel>, _>(e),
        },
{
    match kind {
        ObjectType::Tree => decode_entries(payload),
        ObjectType::Blob => Err(ObjectError::TypeMismatch),
    }
}

/// Loads an object from what the storage holds under its address.
///
/// Fails with `ObjectNotFound` when the storage holds nothing there, with
/// `CorruptStream` when what it holds is not a zlib stream, and as `unframe`
/// does when the stream does not hold the canonical bytes of an object.
pub fn load(found: Option<&[u8]>) -> (object: Result<(ObjectType, Vec<u8>), ObjectError>)
    ensures
        match object {
            Ok((kind, payload)) => load_spec(found_view(found)) == Ok::<_, ObjectError>(
                (kind, payload@),
            ),
            Err(e) => load_spec(found_view(found)) == Err::<(ObjectType, Seq<u8>), _>(e),
        },
{
    let stream = match found {
        Some(stream) => stream,
        None => { return Err(ObjectError::ObjectNotFound); },
    };
    let framed = match decompress(stream) {
        Ok(framed) => framed,
        Err(e) => { return Err(e); },
    };
    unframe(framed.as_slice())
}

/// Loads a tree from what the storage holds under its address: loads the
/// object, and reads it as a tree.
///
/// Fails as `load` does, with `TypeMismatch` when the object is not a tree,
/// and with `TruncatedTree` when its payload ends inside an entry.
pub fn load_tree(found: Option<&[u8]>) -> (entries: Result<Vec<TreeEntry>, ObjectError>)
    ensures
        match entries {
            Ok(list) => load_tree_spec(found_view(found)) == Ok::<_, ObjectError>(
                models(list@),
            ) && all_wf(models(list@)),
            Err(e) => load_tree_spec(found_view(found)) == Err::<Seq<EntryModel>, _>(e),
        },
{
    match load(found) {
        Ok((kind, payload)) => tree_entries(kind, payload.as_slice()),
        Err(e) => Err(e),
    }
}

/// What the storage answered, as a value of specifications.
pub open spec fn found_view(found: Option<&[u8]>) -> Option<Seq<u8>> {
    match found {
        Some(stream) => Some(stream@),
        None => None,
    }
}

/// What the storage holds after it has written `write`: a model of the
/// storage as a map from keys to the bytes kept under them.
pub open spec fn after_write(
    storage: Map<(Seq<char>, Seq<char>), Seq<u8>>,
    write: PendingWrite,
) -> Map<(Seq<char>, Seq<char>), Seq<u8>> {
    storage.insert((write.prefix@, write.suffix@), write.bytes@)
}

/// What the storage answers when asked for the object at `address`.
pub open spec fn read_at(
    storage: Map<(Seq<char>, Seq<char>), Seq<u8>>,
    address: Seq<u8>,
) -> Option<Seq<u8>> {
    if storage.contains_key(key_of(address)) {
        Some(storage[key_of(address)])
    } else {
        None
    }
}

/// Different addresses have different keys.
pub proof fn lemma_key_is_injective(address: Seq<u8>, other: Seq<u8>)
    requires
        address.len() == ADDRESS_LEN,
        other.len() == ADDRESS_LEN,
        key_of(address) == key_of(other),
    ensures
        address == other,
{
    let text = hex_chars(address);
    assert(text =~= text.subrange(0, 2) + text.subrange(2, text.len() as int));
    lemma_unhex_hex_chars(address);
    lemma_unhex_hex_chars(other);
}

/// Storing an object and loading what the storage then holds under its
/// address gives the object back, whatever the storage held before.
pub proof fn lemma_load_after_store(
    storage: Map<(Seq<char>, Seq<char>), Seq<u8>>,
    kind: ObjectType,
    payload: Seq<u8>,
    write: PendingWrite,
)
    requires
        payload.len() <= u64::MAX,
        write.holds(kind, payload),
    ensures
        load_spec(read_at(after_write(storage, write), write.address@)) == Ok::<_, ObjectError>(
            (kind, payload),
        ),
{
    lemma_parse_frame_round_trip(kind, payload);
}

/// Storing an object leaves what is loaded from every other address as it
/// was.
pub proof fn lemma_store_keeps_other_objects(
    storage: Map<(Seq<char>, Seq<char>), Seq<u8>>,
    kind: ObjectType,
    payload: Seq<u8>,
    write: PendingWrite,
    other: Seq<u8>,
)
    requires
        write.holds(kind, payload),
        other.len() == ADDRESS_LEN,
        other != write.address@,
    ensures
        read_at(after_write(storage, write), other) == read_at(storage, other),
{
    if key_of(other) == key_of(write.address@) {
        lemma_key_is_injective(write.address@, other);
    }
}

/// Storing the same type and payload twice gives the same outcome both
/// times: both stores succeed or both fail; where they succeed, with the same
/// address, key and bytes; where they fail, with the same error.
pub proof fn lemma_store_is_deterministic(
    kind: ObjectType,
    payload: Seq<u8>,
    first: Result<PendingWrite, ObjectError>,
    second: Result<PendingWrite, ObjectError>,
)
    requires
        store_gives(kind, payload, first),
        store_gives(kind, payload, second),
    ensures
        match (first, second) {
            (Ok(one), Ok(other)) => {
                &&& one.address == other.address
                &&& one.prefix@ == other.prefix@
                &&& one.suffix@ == other.suffix@
                &&& one.bytes@ == other.bytes@
            },
            (Err(one), Err(other)) => one == other,
            _ => false,
        },
{
    if let (Ok(one), Ok(other)) = (first, second) {
        assert(one.address.bytes =~= other.address.bytes);
    }
}

/// Equal payloads of one type are stored under equal addresses; and where two
/// objects are stored under one address, they are the same object, or else
/// SHA-1 gives their different canonical bytes the same digest.
pub proof fn lemma_content_addressing(
    kind: ObjectType,
    payload: Seq<u8>,
    other_kind: ObjectType,
    other_payload: Seq<u8>,
)
    requires
        payload.len() <= u64::MAX,
        other_payload.len() <= u64::MAX,
    ensures
        kind == other_kind && payload == other_payload ==> object_address(kind, payload)
            == object_address(other_kind, other_payload),
        object_address(kind, payload) == object_address(other_kind, other_payload) ==> (kind
            == other_kind && payload == other_payload) || (frame_spec(kind, payload) != frame_spec(
            other_kind,
            other_payload,
        ) && sha1_of(frame_spec(kind, payload)) == sha1_of(
            frame_spec(other_kind, other_payload),
        )),
{
    if frame_spec(kind, payload) == frame_spec(other_kind, other_payload) {
        lemma_frame_is_injective(kind, payload, other_kind, other_payload);
    }
}

/// Storing the encoding of entries as a tree and loading the tree back gives
/// the same entries in the same order.
pub proof fn lemma_load_tree_after_store(entries: Seq<EntryModel>, write: PendingWrite)
    requires
        all_wf(entries),
        encode_entries_spec(entries).len() <= u64::MAX,
        write.holds(ObjectType::Tree, encode_entries_spec(entries)),
    ensures
        load_tree_spec(Some(write.bytes@)) == Ok::<_, ObjectError>(entries),
{
    lemma_parse_frame_round_trip(ObjectType::Tree, encode_entries_spec(entries));
    lemma_decode_encode_round_trip(entries);
}

} // verus!
