use objstore::address::{digest, Address};
use objstore::error::ObjectError;
use objstore::frame::{frame, ObjectType};
use objstore::store::{
    load, load_tree, store, tree_entries, unframe, PendingWrite, MAX_PAYLOAD_LEN,
};
use objstore::tree::{encode_entries, TreeEntry};
use objstore::zlib::{compress, decompress};
use std::collections::HashMap;

const HELLO_ADDRESS: &str = "ce013625030ba8dba906f756967f9e9ca394464a";
const EMPTY_BLOB_ADDRESS: &str = "e69de29bb2d1d6434b8b29ae775ad8c2e48c5391";
const EMPTY_TREE_ADDRESS: &str = "4b825dc642cb6eb9a060e54bf8d69288fbee4904";

/// A storage kept in memory: what a caller of the store supplies.
struct Memory {
    objects: HashMap<(String, String), Vec<u8>>,
    fails: bool,
}

impl Memory {
    fn new() -> Memory {
        Memory { objects: HashMap::new(), fails: false }
    }

    fn write(&mut self, write: &PendingWrite) -> bool {
        if self.fails {
            return false;
        }
        self.objects
            .insert((write.prefix.clone(), write.suffix.clone()), write.bytes.clone());
        true
    }

    fn read(&self, address: &Address) -> Option<&[u8]> {
        self.objects.get(&address.key()).map(|bytes| bytes.as_slice())
    }

    fn put(&mut self, kind: ObjectType, payload: &[u8]) -> Result<Address, ObjectError> {
        assert!((payload.len() as u64) <= MAX_PAYLOAD_LEN);
        let write = store(kind, payload)?;
        let written = self.write(&write);
        write.finish(written)
    }
}

fn sample_entries() -> Vec<TreeEntry> {
    vec![
        TreeEntry::new(b"100644".to_vec(), b"hello.txt".to_vec(), digest(b"blob 6\0hello\n"))
            .unwrap(),
        TreeEntry::new(b"40000".to_vec(), b"src".to_vec(), digest(b"tree 0\0")).unwrap(),
    ]
}

#[test]
fn store_hello_blob() {
    let write = store(ObjectType::Blob, b"hello\n").unwrap();
    assert_eq!(write.address.to_hex(), HELLO_ADDRESS);
    assert_eq!(write.address, digest(b"blob 6\0hello\n"));
    assert_eq!(write.prefix, "ce");
    assert_eq!(write.suffix, "013625030ba8dba906f756967f9e9ca394464a");
    assert_eq!(decompress(&write.bytes), Ok(b"blob 6\0hello\n".to_vec()));
}

#[test]
fn store_then_load_hello_blob() {
    let mut storage = Memory::new();
    let address = storage.put(ObjectType::Blob, b"hello\n").unwrap();
    assert_eq!(address.to_hex(), HELLO_ADDRESS);
    assert_eq!(
        load(storage.read(&address)),
        Ok((ObjectType::Blob, b"hello\n".to_vec()))
    );
}

#[test]
fn store_empty_blob() {
    let write = store(ObjectType::Blob, b"").unwrap();
    assert_eq!(write.address, digest(b"blob 0\0"));
    assert_eq!(write.address.to_hex(), EMPTY_BLOB_ADDRESS);
    assert_eq!(load(Some(&write.bytes)), Ok((ObjectType::Blob, vec![])));
}

#[test]
fn store_empty_tree() {
    let write = store(ObjectType::Tree, b"").unwrap();
    assert_eq!(write.address.to_hex(), EMPTY_TREE_ADDRESS);
    assert_eq!(load_tree(Some(&write.bytes)), Ok(vec![]));
}

#[test]
fn store_hashes_the_framed_bytes_not_the_payload_or_the_stream() {
    let write = store(ObjectType::Blob, b"hello\n").unwrap();
    assert_ne!(write.address, digest(b"hello\n"));
    assert_ne!(write.address, digest(&write.bytes));
    assert_eq!(write.address, digest(&frame(ObjectType::Blob, b"hello\n")));
}

#[test]
fn store_key_is_the_key_of_the_address() {
    let write = store(ObjectType::Tree, b"").unwrap();
    assert_eq!((write.prefix.clone(), write.suffix.clone()), write.address.key());
    assert_eq!(write.prefix.len(), 2);
    assert_eq!(write.suffix.len(), 38);
}

#[test]
fn store_round_trip_for_many_payloads() {
    let mut storage = Memory::new();
    let payloads: Vec<Vec<u8>> = vec![
        Vec::new(),
        vec![0],
        b"blob 6\0hello\n".to_vec(),
        b" \0 \0".to_vec(),
        (0..=255u8).collect(),
        vec![b'x'; 50_000],
    ];
    let mut stored = Vec::new();
    for payload in &payloads {
        for kind in [ObjectType::Blob, ObjectType::Tree] {
            let address = storage.put(kind, payload).unwrap();
            stored.push((address, kind, payload.clone()));
        }
    }
    for (address, kind, payload) in stored {
        assert_eq!(load(storage.read(&address)), Ok((kind, payload)));
    }
}

#[test]
fn store_is_deterministic() {
    let first = store(ObjectType::Blob, b"same bytes").unwrap();
    let second = store(ObjectType::Blob, b"same bytes").unwrap();
    assert_eq!(first.address, second.address);
    assert_eq!(first.prefix, second.prefix);
    assert_eq!(first.suffix, second.suffix);
}

#[test]
fn store_gives_the_same_bytes_every_time() {
    for payload in [&b""[..], b"hello\n", &[0u8; 70_000]] {
        let first = store(ObjectType::Tree, payload).unwrap();
        let second = store(ObjectType::Tree, payload).unwrap();
        assert_eq!(first.bytes, second.bytes);
        assert_eq!(first.bytes, compress(&frame(ObjectType::Tree, payload)).unwrap());
    }
}

#[test]
fn store_addresses_by_content() {
    let one = b"content".to_vec();
    let other = one.clone();
    assert_eq!(
        store(ObjectType::Blob, &one).unwrap().address,
        store(ObjectType::Blob, &other).unwrap().address
    );
    assert_ne!(
        store(ObjectType::Blob, b"content").unwrap().address,
        store(ObjectType::Blob, b"content\n").unwrap().address
    );
}

#[test]
fn store_address_depends_on_the_type() {
    assert_ne!(
        store(ObjectType::Blob, b"").unwrap().address,
        store(ObjectType::Tree, b"").unwrap().address
    );
}

#[test]
fn store_twice_is_idempotent() {
    let mut storage = Memory::new();
    let first = storage.put(ObjectType::Blob, b"twice").unwrap();
    let second = storage.put(ObjectType::Blob, b"twice").unwrap();
    assert_eq!(first, second);
    assert_eq!(storage.objects.len(), 1);
    assert_eq!(load(storage.read(&first)), Ok((ObjectType::Blob, b"twice".to_vec())));
}

#[test]
fn store_leaves_other_objects_alone() {
    let mut storage = Memory::new();
    let first = storage.put(ObjectType::Blob, b"first").unwrap();
    let second = storage.put(ObjectType::Blob, b"second").unwrap();
    assert_ne!(first, second);
    assert_eq!(load(storage.read(&first)), Ok((ObjectType::Blob, b"first".to_vec())));
    assert_eq!(load(storage.read(&second)), Ok((ObjectType::Blob, b"second".to_vec())));
}

#[test]
fn finish_gives_the_address_when_written() {
    let write = store(ObjectType::Blob, b"hello\n").unwrap();
    let address = write.address;
    assert_eq!(write.finish(true), Ok(address));
}

#[test]
fn finish_gives_io_error_when_not_written() {
    let write = store(ObjectType::Blob, b"hello\n").unwrap();
    assert_eq!(write.finish(false), Err(ObjectError::IoError));
    let mut storage = Memory::new();
    storage.fails = true;
    assert_eq!(storage.put(ObjectType::Blob, b"hello\n"), Err(ObjectError::IoError));
}

#[test]
fn load_of_nothing_is_object_not_found() {
    assert_eq!(load(None), Err(ObjectError::ObjectNotFound));
    let storage = Memory::new();
    let address = Address::from_hex(HELLO_ADDRESS).unwrap();
    assert_eq!(load(storage.read(&address)), Err(ObjectError::ObjectNotFound));
    assert_eq!(load_tree(storage.read(&address)), Err(ObjectError::ObjectNotFound));
}

#[test]
fn load_of_garbage_is_corrupt_stream() {
    assert_eq!(load(Some(b"")), Err(ObjectError::CorruptStream));
    assert_eq!(load(Some(b"blob 6\0hello\n")), Err(ObjectError::CorruptStream));
    assert_eq!(load_tree(Some(b"not a stream")), Err(ObjectError::CorruptStream));
}

#[test]
fn load_of_truncated_stream_is_corrupt_stream() {
    let write = store(ObjectType::Blob, b"hello\n").unwrap();
    let cut = &write.bytes[..write.bytes.len() - 1];
    assert_eq!(load(Some(cut)), Err(ObjectError::CorruptStream));
}

#[test]
fn load_passes_on_malformed_header() {
    let stream = compress(b"blob 6 hello").unwrap();
    assert_eq!(
        load(Some(&stream)),
        Err(ObjectError::MalformedHeader { offset: 5 })
    );
    let stream = compress(b"").unwrap();
    assert_eq!(
        load(Some(&stream)),
        Err(ObjectError::MalformedHeader { offset: 0 })
    );
}

#[test]
fn load_passes_on_unknown_type() {
    let stream = compress(b"commit 0\0").unwrap();
    assert_eq!(load(Some(&stream)), Err(ObjectError::UnknownObjectType));
}

#[test]
fn load_passes_on_length_mismatch() {
    let stream = compress(b"blob 5\0hello\n").unwrap();
    assert_eq!(
        load(Some(&stream)),
        Err(ObjectError::LengthMismatch { declared: 5, actual: 6 })
    );
}

#[test]
fn load_tree_gives_the_entries() {
    let mut storage = Memory::new();
    let entries = sample_entries();
    let address = storage.put(ObjectType::Tree, &encode_entries(&entries)).unwrap();
    assert_eq!(address.to_hex(), "46687af587b33538321299dc6134e279f2d1078b");
    assert_eq!(load_tree(storage.read(&address)), Ok(entries));
}

#[test]
fn load_tree_of_a_blob_is_type_mismatch() {
    let mut storage = Memory::new();
    let address = storage.put(ObjectType::Blob, b"hello\n").unwrap();
    assert_eq!(load_tree(storage.read(&address)), Err(ObjectError::TypeMismatch));
    // Also where the payload of the blob would decode as a tree.
    let address = storage.put(ObjectType::Blob, &encode_entries(&sample_entries())).unwrap();
    assert_eq!(load_tree(storage.read(&address)), Err(ObjectError::TypeMismatch));
}

#[test]
fn load_tree_of_a_truncated_tree() {
    let mut storage = Memory::new();
    let mut payload = encode_entries(&sample_entries());
    payload.truncate(payload.len() - 5);
    let address = storage.put(ObjectType::Tree, &payload).unwrap();
    // The second entry starts at 37: "40000", NUL, "src", NUL, then the address.
    assert_eq!(
        load_tree(storage.read(&address)),
        Err(ObjectError::TruncatedTree { offset: 47 })
    );
    // As a plain object it still loads.
    assert_eq!(load(storage.read(&address)), Ok((ObjectType::Tree, payload)));
}

#[test]
fn load_tree_passes_on_header_errors() {
    let stream = compress(b"tree 1\0").unwrap();
    assert_eq!(
        load_tree(Some(&stream)),
        Err(ObjectError::LengthMismatch { declared: 1, actual: 0 })
    );
    let stream = compress(b"tree\0").unwrap();
    assert_eq!(
        load_tree(Some(&stream)),
        Err(ObjectError::MalformedHeader { offset: 0 })
    );
}

#[test]
fn unframe_gives_type_and_payload() {
    assert_eq!(unframe(b"blob 6\0hello\n"), Ok((ObjectType::Blob, b"hello\n".to_vec())));
    assert_eq!(unframe(b"tree 0\0"), Ok((ObjectType::Tree, vec![])));
    assert_eq!(unframe(b"blob 6 hello"), Err(ObjectError::MalformedHeader { offset: 5 }));
    assert_eq!(unframe(b"note 0\0"), Err(ObjectError::UnknownObjectType));
    assert_eq!(
        unframe(b"tree 2\0a"),
        Err(ObjectError::LengthMismatch { declared: 2, actual: 1 })
    );
}

#[test]
fn tree_entries_of_a_tree() {
    let entries = sample_entries();
    let payload = encode_entries(&entries);
    assert_eq!(tree_entries(ObjectType::Tree, &payload), Ok(entries));
    assert_eq!(tree_entries(ObjectType::Tree, b""), Ok(vec![]));
    assert_eq!(
        tree_entries(ObjectType::Tree, b"a\0b"),
        Err(ObjectError::TruncatedTree { offset: 2 })
    );
}

#[test]
fn tree_entries_of_a_blob_is_type_mismatch() {
    assert_eq!(tree_entries(ObjectType::Blob, b""), Err(ObjectError::TypeMismatch));
    let payload = encode_entries(&sample_entries());
    assert_eq!(tree_entries(ObjectType::Blob, &payload), Err(ObjectError::TypeMismatch));
    // The type is looked at before the payload.
    assert_eq!(tree_entries(ObjectType::Blob, b"a\0b"), Err(ObjectError::TypeMismatch));
}

#[test]
fn unframe_then_tree_entries() {
    let entries = sample_entries();
    let framed = frame(ObjectType::Tree, &encode_entries(&entries));
    let (kind, payload) = unframe(&framed).unwrap();
    assert_eq!(tree_entries(kind, &payload), Ok(entries));
}
