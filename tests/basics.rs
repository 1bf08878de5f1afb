use alisa::codec::{rmpv_decode, rmpv_encode};
use alisa::datum::{rmpv_get, Datum};
use alisa::keychain::KeyChain;
use alisa::keyset::KeySet;
use alisa::local::{root_fields, LocalClient};
use alisa::message::{parse_message, Message};
use alisa::object::{ObjList, ObjPtr};

fn st(x: &str) -> Datum {
    Datum::Str(x.to_string())
}

fn map(entries: Vec<(Datum, Datum)>) -> Datum {
    Datum::Dict(entries)
}

#[test]
fn encode_known_bytes() {
    assert_eq!(rmpv_encode(&Datum::UInt(1)), Some(vec![0x01]));
    assert_eq!(rmpv_encode(&Datum::NegInt(-1)), Some(vec![0xff]));
    assert_eq!(rmpv_encode(&st("a")), Some(vec![0xa1, b'a']));
    assert_eq!(rmpv_encode(&Datum::Nil), Some(vec![0xc0]));
    assert_eq!(rmpv_encode(&Datum::Ext(123, vec![])), Some(vec![0xc7, 0x00, 123]));
    assert_eq!(
        rmpv_encode(&map(vec![(st("k"), Datum::Boolean(true))])),
        Some(vec![0x81, 0xa1, b'k', 0xc3])
    );
    assert_eq!(rmpv_encode(&Datum::Array(vec![Datum::UInt(300)])), Some(vec![0x91, 0xcd, 0x01, 0x2c]));
}

#[test]
fn decode_round_trip_and_errors() {
    let v = map(vec![
        (st("type"), st("key_grant")),
        (st("first"), Datum::UInt(1000)),
        (st("blob"), Datum::Binary(vec![1, 2, 3])),
        (st("neg"), Datum::NegInt(-70000)),
        (st("list"), Datum::Array(vec![Datum::Nil, Datum::Boolean(false)])),
    ]);
    let bytes = rmpv_encode(&v).unwrap();
    assert_eq!(rmpv_decode(&bytes), Some(v));
    assert_eq!(rmpv_decode(&[]), None);
    assert_eq!(rmpv_decode(&[0x92, 0x01]), None);
    assert_eq!(rmpv_decode(&[0xca, 0x3f, 0x80, 0x00, 0x00]), Some(Datum::Nil));
    assert_eq!(rmpv_decode(&[0x01, 0x02]), Some(Datum::UInt(1)));
}

#[test]
fn field_lookup_first_entry_wins() {
    let v = map(vec![(st("a"), Datum::UInt(1)), (Datum::UInt(7), st("x")), (st("a"), Datum::UInt(2))]);
    assert_eq!(rmpv_get(&v, &"a".to_string()), Some(&Datum::UInt(1)));
    assert_eq!(rmpv_get(&v, &"b".to_string()), None);
    assert_eq!(rmpv_get(&Datum::Array(vec![]), &"a".to_string()), None);
    assert_eq!(rmpv_get(&map(vec![]), &"a".to_string()), None);
}

#[test]
fn parse_well_formed_messages() {
    assert_eq!(parse_message(&map(vec![(st("type"), st("confirm"))])), Some(Message::Confirm));
    assert_eq!(parse_message(&map(vec![(st("type"), st("key_request"))])), Some(Message::KeyRequest));
    assert_eq!(
        parse_message(&map(vec![(st("last"), Datum::UInt(9)), (st("type"), st("key_grant")), (st("first"), Datum::UInt(3))])),
        Some(Message::KeyGrant { first: 3, last: 9 })
    );
    assert_eq!(
        parse_message(&map(vec![(st("type"), st("key_grant"))])),
        Some(Message::KeyGrant { first: 0, last: 0 })
    );
    assert_eq!(
        parse_message(&map(vec![
            (st("type"), st("operation")),
            (st("operation"), st("Op")),
            (st("data"), Datum::UInt(5)),
            (st("extra"), Datum::Nil),
        ])),
        Some(Message::Operation { name: "Op".to_string(), data: Datum::UInt(5) })
    );
    assert_eq!(
        parse_message(&map(vec![(st("type"), st("confirm")), (st("type"), st("key_request"))])),
        Some(Message::KeyRequest)
    );
    assert_eq!(parse_message(&map(vec![(st("type"), st("operation"))])), Some(Message::Ignored));
    assert_eq!(parse_message(&map(vec![(st("type"), st("hello"))])), Some(Message::Ignored));
    assert_eq!(parse_message(&map(vec![])), Some(Message::Ignored));
}

#[test]
fn parse_malformed_messages() {
    assert_eq!(parse_message(&Datum::UInt(1)), None);
    assert_eq!(parse_message(&map(vec![(Datum::UInt(1), st("confirm"))])), None);
    assert_eq!(parse_message(&map(vec![(st("type"), Datum::UInt(2))])), None);
    assert_eq!(parse_message(&map(vec![(st("type"), st("operation")), (st("operation"), Datum::Nil)])), None);
    assert_eq!(parse_message(&map(vec![(st("type"), st("key_grant")), (st("first"), st("1"))])), None);
    assert_eq!(parse_message(&map(vec![(st("type"), st("key_grant")), (st("last"), Datum::NegInt(-1))])), None);
}

#[test]
fn message_wire_form_round_trips() {
    let msgs = vec![
        Message::Confirm,
        Message::KeyRequest,
        Message::KeyGrant { first: 1000, last: 1511 },
        Message::Operation { name: "SetN".to_string(), data: map(vec![(st("n"), Datum::UInt(4))]) },
    ];
    for m in msgs {
        let d = m.to_datum();
        assert_eq!(parse_message(&rmpv_decode(&rmpv_encode(&d).unwrap()).unwrap()), Some(m));
    }
}

#[test]
fn key_chain_hands_out_in_order() {
    let mut k = KeyChain::new();
    assert!(k.wants_keys());
    assert_eq!(k.next_key(), None);
    assert!(!k.accept_keys(5, 4));
    assert!(k.accept_keys(10, 11));
    assert!(k.accept_keys(20, 20));
    assert!(k.accept_keys(u64::MAX, u64::MAX));
    assert!(!k.accept_keys(30, 40));
    assert!(!k.wants_keys());
    let got: Vec<Option<u64>> = (0..5).map(|_| k.next_key()).collect();
    assert_eq!(got, vec![Some(10), Some(11), Some(20), Some(u64::MAX), None]);
    assert!(k.wants_keys());
    assert!(k.accept_keys(1, 2));
}

#[test]
fn key_set_behaves_as_a_set() {
    let mut s = KeySet::new();
    s.insert(3);
    s.insert(3);
    s.insert(4);
    assert!(s.contains(3));
    s.remove(3);
    assert!(!s.contains(3));
    s.remove(9);
    let mut keys = s.take();
    keys.sort();
    assert_eq!(keys, vec![4]);
    assert!(s.take().is_empty());
}

#[test]
fn object_list_bookkeeping() {
    let mut list: ObjList<String> = ObjList::new();
    let p = ObjPtr::from_key(42);
    assert!(list.insert(p, "a".to_string()));
    assert!(!list.insert(p, "b".to_string()));
    assert_eq!(list.get(p), Some(&"a".to_string()));
    assert_eq!(list.replace(p, "c".to_string()), Some("a".to_string()));
    assert_eq!(list.replace(ObjPtr::from_key(1), "x".to_string()), None);
    assert_eq!(list.take_modified(), vec![42]);
    assert_eq!(list.delete(p), Some("c".to_string()));
    assert_eq!(list.delete(p), None);
    assert!(!list.contains(p));
    assert!(list.take_modified().is_empty());
    assert_eq!(list.take_to_delete(), vec![42]);
    list.delete(ObjPtr::null());
    assert!(list.take_to_delete().is_empty());
    assert!(list.insert(p, "d".to_string()));
    list.delete(p);
    assert!(list.insert(p, "e".to_string()));
    assert!(list.take_to_delete().is_empty());
    assert_eq!(ObjPtr::null().key, 0);
}

#[test]
fn local_key_counter() {
    let mut c = LocalClient::<u64, u64>::create(0, None, 3);
    assert_eq!(c.next_key(), Some(1));
    assert_eq!(c.next_key(), Some(2));
    assert_eq!(c.next_key_range(512), Some((3, 514)));
    assert_eq!(c.next_key_range(0), None);
    assert_eq!(c.next_key(), Some(515));
    let mut full = LocalClient::<u64, u64>::open(0, ObjList::new(), u64::MAX - 1, 3);
    assert_eq!(full.next_key_range(2), None);
    assert_eq!(full.next_key_range(1), Some((u64::MAX - 1, u64::MAX - 1)));
    assert_eq!(full.next_key(), None);
    let resumed = LocalClient::<u64, u64>::create(0, Some(77), 3);
    assert_eq!(root_fields(&resumed.root_record()), (Some(77), Some(3)));
}

#[test]
fn root_record_fields() {
    let root = map(vec![(st("proj_ptr"), Datum::UInt(8)), (st("curr_key"), Datum::UInt(12))]);
    assert_eq!(root_fields(&root), (Some(12), Some(8)));
    assert_eq!(root_fields(&map(vec![(st("curr_key"), st("x"))])), (None, None));
    assert_eq!(root_fields(&Datum::Nil), (None, None));
    let c = LocalClient::<u64, u64>::open(5, ObjList::new(), 9, 4);
    assert_eq!(root_fields(&c.root_record()), (Some(9), Some(4)));
    assert_eq!(*c.project(), 5);
}

use alisa::serialization::{load_inline, shallow, LoadMode, LoadingContext, ObjBox, Serializable};
use alisa::server::ClientId;

fn stored<T: Serializable>(x: &T) -> Datum {
    shallow(&x.store())
}

#[test]
fn small_integers_round_trip_and_reject_overflow() {
    let mut l = LoadingContext::new(LoadMode::Data);
    assert_eq!(stored(&-5i8), Datum::NegInt(-5));
    assert_eq!(i8::load(&stored(&-5i8), &mut l), Some(-5));
    assert_eq!(i8::load(&Datum::UInt(200), &mut l), None);
    assert_eq!(i8::load(&Datum::NegInt(-200), &mut l), None);
    assert_eq!(i16::load(&stored(&300i16), &mut l), Some(300));
    assert_eq!(i32::load(&Datum::NegInt(-70000), &mut l), Some(-70000));
    assert_eq!(i64::load(&Datum::UInt(u64::MAX), &mut l), None);
    assert_eq!(u8::load(&stored(&255u8), &mut l), Some(255));
    assert_eq!(u8::load(&Datum::UInt(256), &mut l), None);
    assert_eq!(u16::load(&Datum::UInt(65535), &mut l), Some(65535));
    assert_eq!(u32::load(&Datum::NegInt(-1), &mut l), None);
    assert_eq!(stored(&ClientId(9)), Datum::UInt(9));
    assert_eq!(ClientId::load(&Datum::UInt(9), &mut l), Some(ClientId(9)));
    assert_eq!(bool::load(&stored(&true), &mut l), Some(true));
    let v: Vec<u16> = vec![1, 2];
    assert_eq!(Vec::<u16>::load(&stored(&v), &mut l), Some(v));
    assert_eq!(Vec::<u16>::load(&Datum::Array(vec![Datum::UInt(1), st("x"), Datum::UInt(3)]), &mut l), Some(vec![1, 3]));
    assert_eq!(Vec::<u16>::load(&Datum::Nil, &mut l), Some(vec![]));
}

fn owned(key: u64, value: Datum) -> Datum {
    Datum::Array(vec![Datum::UInt(key), value])
}

#[test]
fn deep_loading_decodes_nested_inline_objects() {
    let mut l = LoadingContext::new(LoadMode::Deep);
    let doc = Datum::Array(vec![
        owned(1, Datum::Array(vec![owned(2, Datum::Array(vec![])), owned(1, Datum::Ext(123, vec![]))])),
        owned(2, Datum::Ext(123, vec![])),
    ]);
    let top = Vec::<ObjBox>::load(&doc, &mut l).unwrap();
    assert_eq!(top, vec![ObjBox::new(ObjPtr::from_key(1)), ObjBox::new(ObjPtr::from_key(2))]);
    let mut objects: ObjList<Vec<ObjBox>> = ObjList::new();
    assert!(load_inline(&mut l, &mut objects));
    assert_eq!(objects.get(ObjPtr::from_key(1)), Some(&vec![ObjBox::new(ObjPtr::from_key(2)), ObjBox::new(ObjPtr::from_key(1))]));
    assert_eq!(objects.get(ObjPtr::from_key(2)), Some(&vec![]));
    assert!(!objects.contains(ObjPtr::from_key(3)));
    assert_eq!(ObjBox::load(&Datum::Array(vec![Datum::UInt(4)]), &mut l), None);
}

#[test]
fn shallow_loading_reads_records_under_their_key() {
    let mut c = LocalClient::<u64, Vec<ObjBox>>::create(0, None, 3);
    let mut l = LoadingContext::new(LoadMode::Shallow);
    let record = Datum::Array(vec![Datum::UInt(6), Datum::UInt(6)]);
    assert!(c.load_record(5, &record, &mut l));
    assert_eq!(c.objects().get(ObjPtr::from_key(5)), Some(&vec![ObjBox::new(ObjPtr::from_key(6)); 2]));
    assert_eq!(l.take_wanted(), vec![6]);
    assert!(c.load_record(5, &Datum::Array(vec![]), &mut l));
    assert_eq!(c.objects().get(ObjPtr::from_key(5)).unwrap().len(), 2);
    let mut c2 = LocalClient::<u64, u64>::create(0, None, 3);
    assert!(!c2.load_record(7, &st("no"), &mut l));
    assert!(!c2.objects().contains(ObjPtr::from_key(7)));
}
