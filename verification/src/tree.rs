//! Tree objects: the entries of a directory listing and their binary layout.
//!
//! A tree payload is its entries laid end to end. An entry is its mode, a
//! NUL, its name, a NUL, and the 20 raw bytes of an address. Nothing
//! separates one entry from the next and nothing counts them: the payload
//! ends where the last entry ends.

use crate::address::{Address, ADDRESS_LEN};
use crate::error::ObjectError;
use crate::scan::{find_from, first_at, lemma_first_at, lemma_first_at_is, NUL};
use vstd::prelude::*;
use vstd::slice::*;
use vstd::string::*;
use vstd::utf8::*;

verus! {

/// What an entry of a tree is: a mode, a name and the address of an object.
pub struct EntryModel {
    pub mode: Seq<u8>,
    pub name: Seq<u8>,
    pub address: Seq<u8>,
}

/// Whether `field` can stand before a NUL terminator: it holds no NUL itself.
pub open spec fn nul_free(field: Seq<u8>) -> bool {
    forall|i: int| 0 <= i < field.len() ==> field[i] != NUL
}

impl EntryModel {
    /// Whether the entry can be laid out: mode and name hold no NUL, and the
    /// address is 20 bytes.
    pub open spec fn wf(self) -> bool {
        nul_free(self.mode) && nul_free(self.name) && self.address.len() == ADDRESS_LEN
    }

    /// The layout of the entry.
    pub open spec fn encoding(self) -> Seq<u8> {
        self.mode + seq![NUL] + self.name + seq![NUL] + self.address
    }
}

/// Whether every entry of `entries` can be laid out.
pub open spec fn all_wf(entries: Seq<EntryModel>) -> bool {
    forall|i: int| 0 <= i < entries.len() ==> (#[trigger] entries[i]).wf()
}

/// The payload of a tree with the given entries, in their order.
pub open spec fn encode_entries_spec(entries: Seq<EntryModel>) -> Seq<u8>
    decreases entries.len(),
{
    if entries.len() == 0 {
        Seq::empty()
    } else {
        encode_entries_spec(entries.drop_last()) + entries.last().encoding()
    }
}

/// Puts `head` before what decoding the rest gave.
pub open spec fn prepend(
    head: Seq<EntryModel>,
    rest: Result<Seq<EntryModel>, ObjectError>,
) -> Result<Seq<EntryModel>, ObjectError> {
    match rest {
        Ok(entries) => Ok(head + entries),
        Err(e) => Err(e),
    }
}

/// The entry whose mode starts at `at` and ends before `mode_end`, and whose
/// name ends before `name_end`.
pub open spec fn entry_at(payload: Seq<u8>, at: int, mode_end: int, name_end: int) -> EntryModel {
    EntryModel {
        mode: payload.subrange(at, mode_end),
        name: payload.subrange(mode_end + 1, name_end),
        address: payload.subrange(name_end + 1, name_end + 1 + ADDRESS_LEN),
    }
}

/// The entries of `payload` from offset `at` on.
///
/// At the end of the payload there are none. Before it, an entry is read: up
/// to the next NUL its mode, up to the NUL after that its name, then 20 bytes
/// of address. Where a NUL is missing or fewer than 20 bytes are left, the
/// result is `TruncatedTree` with the offset at which the field that is cut
/// short begins.
pub open spec fn decode_from(payload: Seq<u8>, at: int) -> Result<Seq<EntryModel>, ObjectError>
    decreases payload.len() - at,
    via decode_from_decreases
{
    if at < 0 || at >= payload.len() {
        Ok(Seq::empty())
    } else {
        match first_at(payload, NUL, at) {
            None => Err(ObjectError::TruncatedTree { offset: at as usize }),
            Some(mode_end) => match first_at(payload, NUL, mode_end + 1) {
                None => Err(ObjectError::TruncatedTree { offset: (mode_end + 1) as usize }),
                Some(name_end) => if name_end + 1 + ADDRESS_LEN <= payload.len() {
                    prepend(
                        seq![entry_at(payload, at, mode_end, name_end)],
                        decode_from(payload, name_end + 1 + ADDRESS_LEN),
                    )
                } else {
                    Err(ObjectError::TruncatedTree { offset: (name_end + 1) as usize })
                },
            },
        }
    }
}

#[via_fn]
proof fn decode_from_decreases(payload: Seq<u8>, at: int) {
    if 0 <= at < payload.len() {
        lemma_first_at(payload, NUL, at);
        if let Some(mode_end) = first_at(payload, NUL, at) {
            lemma_first_at(payload, NUL, mode_end + 1);
        }
    }
}

/// The entries of a tree payload, or `TruncatedTree` where it ends inside an
/// entry.
pub open spec fn decode_entries_spec(payload: Seq<u8>) -> Result<Seq<EntryModel>, ObjectError> {
    decode_from(payload, 0)
}

/// One entry of a tree: a mode, the name of a path segment, and the address
/// of the object listed under that name. Mode and name hold no NUL byte.
#[derive(Debug, PartialEq, Eq)]
pub struct TreeEntry {
    mode: Vec<u8>,
    name: Vec<u8>,
    address: Address,
}

impl View for TreeEntry {
    type V = EntryModel;

    closed spec fn view(&self) -> EntryModel {
        EntryModel { mode: self.mode@, name: self.name@, address: self.address@ }
    }
}

impl Clone for TreeEntry {
    fn clone(&self) -> (copy: Self)
        ensures
            copy@ == self@,
    {
        proof {
            use_type_invariant(self);
        }
        let mode = self.mode.clone();
        let name = self.name.clone();
        TreeEntry { mode, name, address: self.address }
    }
}

/// What a sequence of entries is.
pub open spec fn models(entries: Seq<TreeEntry>) -> Seq<EntryModel> {
    Seq::new(entries.len(), |i: int| entries[i]@)
}

/// Calls `std::str::from_utf8` on `bytes`. Trusted: it gives the text whose
/// UTF-8 encoding `bytes` is, and nothing exactly where `bytes` is not valid
/// UTF-8.
#[verifier::external_body]
fn utf8_text(bytes: &[u8]) -> (text: Option<&str>)
    ensures
        match text {
            Some(t) => valid_utf8(bytes@) && t.spec_bytes() == bytes@,
            None => !valid_utf8(bytes@),
        },
{
    std::str::from_utf8(bytes).ok()
}

/// Reads `bytes` as text, if they are valid UTF-8.
fn text_of(bytes: &[u8]) -> (text: Option<String>)
    ensures
        match text {
            Some(t) => valid_utf8(bytes@) && t@ == decode_utf8(bytes@),
            None => !valid_utf8(bytes@),
        },
{
    match utf8_text(bytes) {
        Some(t) => {
            proof {
                encode_utf8_decode_utf8(t@);
            }
            Some(t.to_owned())
        },
        None => None,
    }
}

/// Whether `field` holds no NUL byte.
fn has_no_nul(field: &[u8]) -> (free: bool)
    ensures
        free == nul_free(field@),
{
    let found = find_from(field, NUL, 0);
    proof {
        lemma_first_at(field@, NUL, 0);
    }
    found.is_none()
}

impl TreeEntry {
    #[verifier::type_invariant]
    spec fn inv(self) -> bool {
        nul_free(self.mode@) && nul_free(self.name@)
    }

    /// Makes an entry, if `mode` and `name` hold no NUL byte.
    pub fn new(mode: Vec<u8>, name: Vec<u8>, address: Address) -> (made: Option<TreeEntry>)
        ensures
            match made {
                Some(entry) => entry@ == (EntryModel {
                    mode: mode@,
                    name: name@,
                    address: address@,
                }) && entry@.wf(),
                None => !nul_free(mode@) || !nul_free(name@),
            },
    {
        if has_no_nul(mode.as_slice()) && has_no_nul(name.as_slice()) {
            Some(TreeEntry { mode, name, address })
        } else {
            None
        }
    }

    /// The mode of the entry, as its bytes.
    pub fn mode(&self) -> (mode: &[u8])
        ensures
            mode@ == self@.mode,
            self@.wf(),
    {
        proof {
            use_type_invariant(self);
        }
        self.mode.as_slice()
    }

    /// The name of the entry, as its bytes.
    pub fn name(&self) -> (name: &[u8])
        ensures
            name@ == self@.name,
            self@.wf(),
    {
        proof {
            use_type_invariant(self);
        }
        self.name.as_slice()
    }

    /// The mode of the entry as text, if its bytes are valid UTF-8.
    pub fn mode_text(&self) -> (text: Option<String>)
        ensures
            match text {
                Some(t) => valid_utf8(self@.mode) && t@ == decode_utf8(self@.mode),
                None => !valid_utf8(self@.mode),
            },
    {
        text_of(self.mode.as_slice())
    }

    /// The name of the entry as text, if its bytes are valid UTF-8.
    pub fn name_text(&self) -> (text: Option<String>)
        ensures
            match text {
                Some(t) => valid_utf8(self@.name) && t@ == decode_utf8(self@.name),
                None => !valid_utf8(self@.name),
            },
    {
        text_of(self.name.as_slice())
    }

    /// The address that the entry lists.
    pub fn address(&self) -> (address: Address)
        ensures
            address@ == self@.address,
            self@.wf(),
    {
        proof {
            use_type_invariant(self);
        }
        self.address
    }
}

/// Decodes the payload of a tree into its entries, in the order of the
/// payload.
///
/// An empty payload has no entries. Fails with `TruncatedTree` exactly when
/// the payload ends inside an entry: a mode or a name without its NUL, or an
/// address of fewer than 20 bytes. The entries that come out are those whose
/// encoding the payload is.
pub fn decode_entries(payload: &[u8]) -> (decoded: Result<Vec<TreeEntry>, ObjectError>)
    ensures
        match decoded {
            Ok(entries) => decode_entries_spec(payload@) == Ok::<_, ObjectError>(
                models(entries@),
            ) && all_wf(models(entries@)) && encode_entries_spec(models(entries@)) == payload@,
            Err(e) => decode_entries_spec(payload@) == Err::<Seq<EntryModel>, _>(e),
        },
{
    let mut entries: Vec<TreeEntry> = Vec::new();
    let mut at: usize = 0;
    while at < payload.len()
        invariant
            at <= payload.len(),
            decode_entries_spec(payload@) == prepend(
                models(entries@),
                decode_from(payload@, at as int),
            ),
            all_wf(models(entries@)),
        decreases payload.len() - at,
    {
        let mode_end = match find_from(payload, NUL, at) {
            Some(j) => j,
            None => { return Err(ObjectError::TruncatedTree { offset: at }); },
        };
        proof {
            lemma_first_at(payload@, NUL, at as int);
        }
        let name_end = match find_from(payload, NUL, mode_end + 1) {
            Some(j) => j,
            None => { return Err(ObjectError::TruncatedTree { offset: mode_end + 1 }); },
        };
        proof {
            lemma_first_at(payload@, NUL, mode_end + 1);
        }
        if payload.len() - name_end - 1 < ADDRESS_LEN {
            return Err(ObjectError::TruncatedTree { offset: name_end + 1 });
        }
        let mode = slice_to_vec(slice_subrange(payload, at, mode_end));
        let name = slice_to_vec(slice_subrange(payload, mode_end + 1, name_end));
        let address = Address::copy_from(payload, name_end + 1);
        let entry = TreeEntry { mode, name, address };
        let ghost before = models(entries@);
        entries.push(entry);
        proof {
            assert(models(entries@) =~= before + seq![entry@]);
            if let Ok(more) = decode_from(payload@, name_end + 1 + ADDRESS_LEN) {
                assert(before + (seq![entry@] + more) =~= (before + seq![entry@]) + more);
            }
        }
        at = name_end + 1 + ADDRESS_LEN;
    }
    proof {
        lemma_encode_decode_round_trip(payload@, models(entries@));
    }
    Ok(entries)
}

/// Encodes entries into the payload of a tree, in their order.
pub fn encode_entries(entries: &[TreeEntry]) -> (payload: Vec<u8>)
    ensures
        payload@ == encode_entries_spec(models(entries@)),
        all_wf(models(entries@)),
{
    let mut payload: Vec<u8> = Vec::new();
    let mut i: usize = 0;
    while i < entries.len()
        invariant
            i <= entries.len(),
            payload@ == encode_entries_spec(models(entries@).take(i as int)),
            all_wf(models(entries@).take(i as int)),
        decreases entries.len() - i,
    {
        let entry = &entries[i];
        proof {
            use_type_invariant(entry);
        }
        payload.extend_from_slice(entry.mode.as_slice());
        payload.push(NUL);
        payload.extend_from_slice(entry.name.as_slice());
        payload.push(NUL);
        payload.extend_from_slice(entry.address.as_bytes());
        proof {
            let listed = models(entries@);
            assert(listed.take(i + 1).drop_last() =~= listed.take(i as int));
        }
        i += 1;
    }
    proof {
        assert(models(entries@).take(entries@.len() as int) =~= models(entries@));
    }
    payload
}

/// The payload of a first entry followed by more is the layout of the first
/// followed by the payload of the others.
pub proof fn lemma_encode_first(first: EntryModel, rest: Seq<EntryModel>)
    ensures
        encode_entries_spec(seq![first] + rest) == first.encoding() + encode_entries_spec(rest),
    decreases rest.len(),
{
    let all = seq![first] + rest;
    if rest.len() == 0 {
        assert(all.drop_last() =~= rest);
    } else {
        assert(all.drop_last() =~= seq![first] + rest.drop_last());
        lemma_encode_first(first, rest.drop_last());
    }
}

/// Where the payload holds the layout of `entry` at `at`, decoding from `at`
/// reads that entry and goes on behind it.
proof fn lemma_decode_one(payload: Seq<u8>, at: int, entry: EntryModel)
    requires
        entry.wf(),
        0 <= at,
        at + entry.encoding().len() <= payload.len(),
        payload.subrange(at, at + entry.encoding().len()) == entry.encoding(),
    ensures
        decode_from(payload, at) == prepend(
            seq![entry],
            decode_from(payload, at + entry.encoding().len()),
        ),
{
    let layout = entry.encoding();
    let mode_end = at + entry.mode.len();
    let name_end = mode_end + 1 + entry.name.len();
    assert(payload[mode_end] == 0) by {
        assert(layout[entry.mode.len() as int] == 0);
    }
    assert forall|k: int| at <= k < mode_end implies payload[k] != 0 by {
        assert(layout[k - at] == entry.mode[k - at]);
    }
    lemma_first_at_is(payload, NUL, at, mode_end);
    assert(payload[name_end] == 0) by {
        assert(layout[name_end - at] == 0);
    }
    assert forall|k: int| mode_end + 1 <= k < name_end implies payload[k] != 0 by {
        assert(layout[k - at] == entry.name[k - mode_end - 1]);
    }
    lemma_first_at_is(payload, NUL, mode_end + 1, name_end);
    let read = entry_at(payload, at, mode_end, name_end);
    assert(read.mode =~= entry.mode);
    assert(read.name =~= entry.name) by {
        assert forall|k: int| 0 <= k < entry.name.len() implies read.name[k] == entry.name[k] by {
            assert(layout[entry.mode.len() + 1 + k] == entry.name[k]);
        }
    }
    assert(read.address =~= entry.address) by {
        assert forall|k: int| 0 <= k < entry.address.len() implies read.address[k]
            == entry.address[k] by {
            assert(layout[entry.mode.len() + 1 + entry.name.len() + 1 + k] == entry.address[k]);
        }
    }
}

/// Decoding a payload that holds the layout of `entries` from `at` on reads
/// those entries and goes on behind them.
pub proof fn lemma_decode_encoded(payload: Seq<u8>, at: int, entries: Seq<EntryModel>)
    requires
        all_wf(entries),
        0 <= at,
        at + encode_entries_spec(entries).len() <= payload.len(),
        payload.subrange(at, at + encode_entries_spec(entries).len()) == encode_entries_spec(
            entries,
        ),
    ensures
        decode_from(payload, at) == prepend(
            entries,
            decode_from(payload, at + encode_entries_spec(entries).len()),
        ),
    decreases entries.len(),
{
    if entries.len() > 0 {
        let first = entries.first();
        let rest = entries.drop_first();
        assert(entries =~= seq![first] + rest);
        lemma_encode_first(first, rest);
        let whole = encode_entries_spec(entries);
        let head = first.encoding();
        let tail = encode_entries_spec(rest);
        assert(payload.subrange(at, at + head.len()) =~= head);
        assert(payload.subrange(at + head.len(), at + head.len() + tail.len()) =~= tail) by {
            assert forall|k: int| 0 <= k < tail.len() implies payload[at + head.len() + k]
                == tail[k] by {
                assert(payload.subrange(at, at + whole.len())[head.len() + k] == whole[head.len()
                    + k]);
            }
        }
        lemma_decode_one(payload, at, first);
        lemma_decode_encoded(payload, at + head.len(), rest);
        if let Ok(more) = decode_from(payload, at + whole.len()) {
            assert(seq![first] + (rest + more) =~= entries + more);
        }
    }
}

/// Encoding entries and decoding the payload gives the same entries back, in
/// the same order.
pub proof fn lemma_decode_encode_round_trip(entries: Seq<EntryModel>)
    requires
        all_wf(entries),
    ensures
        decode_entries_spec(encode_entries_spec(entries)) == Ok::<_, ObjectError>(entries),
{
    let payload = encode_entries_spec(entries);
    assert(payload.subrange(0, payload.len() as int) =~= payload);
    lemma_decode_encoded(payload, 0, entries);
}

/// A payload cut off inside the address of an entry is refused as
/// `TruncatedTree`, at the offset where that address begins, however many
/// whole entries stand before it.
pub proof fn lemma_cut_address_is_truncated(
    entries: Seq<EntryModel>,
    last: EntryModel,
    kept: int,
)
    requires
        all_wf(entries),
        last.wf(),
        0 <= kept < ADDRESS_LEN,
        encode_entries_spec(entries).len() + last.mode.len() + last.name.len() + 2 <= usize::MAX,
    ensures
        decode_entries_spec(
            encode_entries_spec(entries) + last.mode + seq![NUL] + last.name + seq![NUL]
                + last.address.take(kept),
        ) == Err::<Seq<EntryModel>, _>(
            ObjectError::TruncatedTree {
                offset: (encode_entries_spec(entries).len() + last.mode.len() + last.name.len()
                    + 2) as usize,
            },
        ),
{
    let whole = encode_entries_spec(entries);
    let cut = last.mode + seq![NUL] + last.name + seq![NUL] + last.address.take(kept);
    let payload = whole + cut;
    assert(payload =~= whole + last.mode + seq![NUL] + last.name + seq![NUL] + last.address.take(
        kept,
    ));
    assert(payload.subrange(0, whole.len() as int) =~= whole);
    lemma_decode_encoded(payload, 0, entries);
    let at = whole.len() as int;
    let mode_end = at + last.mode.len();
    let name_end = mode_end + 1 + last.name.len();
    lemma_first_at_is(payload, NUL, at, mode_end);
    lemma_first_at_is(payload, NUL, mode_end + 1, name_end);
}

/// What decodes from `at` on is laid out there: the entries found can all be
/// laid out, and their payload is the rest of `payload`.
pub proof fn lemma_decoded_is_encoded(payload: Seq<u8>, at: int, entries: Seq<EntryModel>)
    requires
        0 <= at <= payload.len(),
        decode_from(payload, at) == Ok::<_, ObjectError>(entries),
    ensures
        all_wf(entries),
        encode_entries_spec(entries) == payload.subrange(at, payload.len() as int),
    decreases payload.len() - at,
{
    if at < payload.len() {
        lemma_first_at(payload, NUL, at);
        let mode_end = first_at(payload, NUL, at).unwrap();
        lemma_first_at(payload, NUL, mode_end + 1);
        let name_end = first_at(payload, NUL, mode_end + 1).unwrap();
        let next = name_end + 1 + ADDRESS_LEN;
        let first = entry_at(payload, at, mode_end, name_end);
        let more = decode_from(payload, next).unwrap();
        lemma_decoded_is_encoded(payload, next, more);
        lemma_encode_first(first, more);
    }
}

/// A payload decodes to entries exactly when it is their encoding: whatever
/// decodes can be encoded, and that gives the payload back.
pub proof fn lemma_encode_decode_round_trip(payload: Seq<u8>, entries: Seq<EntryModel>)
    requires
        decode_entries_spec(payload) == Ok::<_, ObjectError>(entries),
    ensures
        all_wf(entries),
        encode_entries_spec(entries) == payload,
{
    lemma_decoded_is_encoded(payload, 0, entries);
}

} // verus!
