use std::rc::Rc;

use kaitai::{
    decode_string, downcast, modulo, read_into, read_into_with_init, reverse_string, BytesReader,
    KError, KResult, KStruct, KStructUnit, OptRc, SharedType,
};

#[test]
fn decode_utf8() {
    let b = vec![0x68, 0x65, 0x6C, 0x6C, 0x6F];
    assert_eq!(decode_string(&b, "utf-8").unwrap(), "hello");
}

#[test]
fn decode_utf16le() {
    let b = vec![0x68, 0x00, 0x69, 0x00];
    assert_eq!(decode_string(&b, "utf-16le").unwrap(), "hi");
}

#[test]
fn decode_label_case_insensitive() {
    let b = vec![0x41];
    assert_eq!(decode_string(&b, "UTF-8").unwrap(), "A");
}

#[test]
fn decode_replaces_malformed() {
    let b = vec![0x61, 0xFF, 0x62];
    assert_eq!(decode_string(&b, "utf-8").unwrap(), "a\u{FFFD}b");
}

#[test]
fn decode_cp437_table() {
    let b = vec![0xE6];
    assert_eq!(decode_string(&b, "cp437").unwrap(), "\u{00B5}");
    assert_eq!(decode_string(&b, "IBM437").unwrap(), "\u{00B5}");
}

#[test]
fn decode_cp437_low_bytes_become_replacement() {
    let b = vec![0x01];
    assert_eq!(decode_string(&b, "cp437").unwrap(), "\u{FFFD}");

    let mixed = vec![0xE6, 0x00, 0xE6];
    assert_eq!(
        decode_string(&mixed, "cp437").unwrap(),
        "\u{00B5}\u{FFFD}\u{00B5}"
    );
}

#[test]
fn decode_unknown_label_fails() {
    let b = vec![0x41];
    assert!(matches!(
        decode_string(&b, "no-such-encoding"),
        Err(KError::Encoding { .. })
    ));
}

#[test]
fn reverse_simple() {
    assert_eq!(reverse_string("ab").unwrap(), "ba");
    assert_eq!(reverse_string("").unwrap(), "");
}

#[test]
fn reverse_keeps_grapheme_clusters() {
    // the combining accent stays attached to its base letter
    assert_eq!(reverse_string("he\u{0301}y").unwrap(), "ye\u{0301}h");
}

#[test]
fn modulo_least_nonnegative() {
    assert_eq!(modulo(7, 3), 1);
    assert_eq!(modulo(-7, 3), 2);
    assert_eq!(modulo(-6, 3), 0);
    assert_eq!(modulo(0, 5), 0);
    assert_eq!(modulo(i64::MIN, 2), 0);
}

#[test]
fn opt_rc_basics() {
    let rc = Rc::new(42u32);
    let some = OptRc::new(&Some(rc));
    assert!(!some.is_none());
    assert_eq!(*some.get(), 42);
    assert!(some.get_value().is_some());

    let none: OptRc<u32> = OptRc::new(&None);
    assert!(none.is_none());
    assert!(none.get_value().is_none());
}

#[test]
fn opt_rc_get_mut() {
    let mut some = OptRc::from(Rc::new(1u32));
    *Rc::get_mut(some.get_mut()).unwrap() = 9;
    assert_eq!(*some.get(), 9);
}

#[test]
fn shared_type_upgrade_follows_owner() {
    let rc = Rc::new(5u32);
    let st = SharedType::new(rc.clone());
    assert!(!st.is_empty());
    assert_eq!(*st.get().unwrap().get(), 5);
    assert_eq!(*st.get_value().unwrap(), 5);

    drop(rc);
    assert!(st.is_empty());
    assert_eq!(st.get().unwrap_err(), KError::MissingParent);
    assert!(st.get_value().is_none());
}

#[test]
fn shared_type_empty_and_set() {
    let st: SharedType<u32> = SharedType::empty();
    assert!(st.is_empty());
    assert_eq!(st.get().unwrap_err(), KError::MissingParent);

    let rc = Rc::new(3u32);
    st.set(Ok(OptRc::from(rc.clone())));
    assert!(!st.is_empty());
    assert_eq!(*st.get().unwrap().get(), 3);

    st.set(Err(KError::MissingParent));
    assert!(st.is_empty());
}

#[derive(Default, Debug)]
struct ByteNode {
    value: std::cell::Cell<u8>,
}

impl KStruct for ByteNode {
    type Root = ByteNode;
    type Parent = KStructUnit;

    fn read(
        self_rc: &OptRc<Self>,
        io: &mut BytesReader,
        _root: SharedType<Self::Root>,
        _parent: SharedType<Self::Parent>,
    ) -> KResult<()> {
        let b = io.read_u1()?;
        self_rc.get().value.set(b);
        Ok(())
    }
}

#[derive(Default, Debug)]
struct OrphanNode;

impl KStruct for OrphanNode {
    type Root = ByteNode;
    type Parent = KStructUnit;

    fn read(
        _self_rc: &OptRc<Self>,
        _io: &mut BytesReader,
        _root: SharedType<Self::Root>,
        _parent: SharedType<Self::Parent>,
    ) -> KResult<()> {
        Ok(())
    }
}

#[test]
fn read_into_self_root() {
    let mut reader = BytesReader::from(vec![0x7Fu8]);
    let node: OptRc<ByteNode> = read_into(&mut reader, None, None).unwrap();
    assert_eq!(node.get().value.get(), 0x7F);
    assert_eq!(reader.pos(), 1);
}

#[test]
fn read_into_foreign_root_fails() {
    // the node is not of its declared root type, and none was supplied
    let mut reader = BytesReader::from(vec![0u8]);
    let r: Result<OptRc<OrphanNode>, KError> = read_into(&mut reader, None, None);
    assert_eq!(r.unwrap_err(), KError::CastError);
}

#[test]
fn read_into_supplied_root() {
    let mut root_reader = BytesReader::from(vec![1u8]);
    let root: OptRc<ByteNode> = read_into(&mut root_reader, None, None).unwrap();
    let mut reader = BytesReader::from(vec![0u8]);
    let r: Result<OptRc<OrphanNode>, KError> =
        read_into(&mut reader, Some(SharedType::new(root.get())), None);
    assert!(r.is_ok());
}

#[test]
fn read_into_with_init_runs_initializer() {
    let mut reader = BytesReader::from(vec![0x10u8]);
    let node: OptRc<ByteNode> = read_into_with_init(&mut reader, None, None, |n: ByteNode| {
        n.value.set(0xEE);
        Ok(n)
    })
    .unwrap();
    // read overwrote the initialized value from the stream
    assert_eq!(node.get().value.get(), 0x10);

    let mut reader = BytesReader::from(vec![]);
    let r: Result<OptRc<ByteNode>, KError> =
        read_into_with_init(&mut reader, None, None, |_n: ByteNode| {
            Err(KError::MissingInstanceValue)
        });
    assert_eq!(r.unwrap_err(), KError::MissingInstanceValue);
}

#[derive(Default, Debug)]
struct SelfParentNode {
    parent_was_empty: std::cell::Cell<bool>,
}

impl KStruct for SelfParentNode {
    type Root = SelfParentNode;
    type Parent = SelfParentNode;

    fn read(
        self_rc: &OptRc<Self>,
        _io: &mut BytesReader,
        _root: SharedType<Self::Root>,
        parent: SharedType<Self::Parent>,
    ) -> KResult<()> {
        self_rc.get().parent_was_empty.set(parent.is_empty());
        Ok(())
    }
}

#[test]
fn orphan_parent_stays_empty() {
    // the self-reference fallback applies to the root alone: a node of
    // its own parent type, built with no parent, still gets an empty cell
    let mut reader = BytesReader::from(vec![]);
    let node: OptRc<SelfParentNode> = read_into(&mut reader, None, None).unwrap();
    assert!(node.get().parent_was_empty.get());
}

#[test]
fn downcast_returns_supplied_reference() {
    let rc = Rc::new(8u32);
    let supplied = SharedType::new(rc.clone());
    let fresh = OptRc::from(0u32);
    let out = downcast::<u32, u32>(Some(supplied), &fresh, true).unwrap();
    assert_eq!(*out.get().unwrap().get(), 8);
}
