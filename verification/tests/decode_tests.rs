use matter_codec::decode::{
    decode_sequential, decode_struct, decode_unordered, decode_variant, find_variant,
    member_anywhere, FromTLV, MemberCursor,
};
use matter_codec::element::{ElementValue, TLVElement, TagType};
use matter_codec::encode::{conclude, encode_struct, encode_variant, ToTLV};
use matter_codec::error::{Error, ErrorCode};
use matter_codec::tags::{ContainerKind, OrderingMode, TagPolicy};
use matter_codec::writer::TLVWriter;

fn unsigned(tag: u8, v: u64) -> TLVElement {
    TLVElement { tag: TagType::Context(tag), value: ElementValue::Unsigned(v) }
}

fn structure(children: Vec<TLVElement>) -> TLVElement {
    TLVElement {
        tag: TagType::Anonymous,
        value: ElementValue::Container(ContainerKind::Struct, children),
    }
}

fn invalid<T>() -> Result<T, Error> {
    Err(Error { code: ErrorCode::Invalid })
}

#[test]
fn round_trip_sequential() {
    let members = vec![Some(10u32), None, Some(30u32)];
    let tags = vec![0u8, 1, 2];
    let policy = TagPolicy::default();
    let mut tw = TLVWriter::new(16);
    assert_eq!(encode_struct(&members, &tags, TagType::Anonymous, &policy, &mut tw), Ok(()));
    let decoded: Result<Vec<Option<u32>>, Error> = decode_struct(&tw.elements()[0], &policy, &tags);
    assert_eq!(decoded, Ok(members));
}

#[test]
fn round_trip_unordered_list() {
    let members = vec![1u8, 2, 3];
    let tags = vec![5u8, 22, 6];
    let policy = TagPolicy {
        start: 5,
        container_kind: ContainerKind::List,
        ordering_mode: OrderingMode::Unordered,
    };
    let mut tw = TLVWriter::new(16);
    assert_eq!(encode_struct(&members, &tags, TagType::Context(1), &policy, &mut tw), Ok(()));
    let decoded: Result<Vec<u8>, Error> = decode_struct(&tw.elements()[0], &policy, &tags);
    assert_eq!(decoded, Ok(members));
}

#[test]
fn sequential_rejects_reordering() {
    let reordered = structure(vec![unsigned(1, 11), unsigned(0, 10)]);
    let r: Result<Vec<u8>, Error> = decode_sequential(&reordered, ContainerKind::Struct, &vec![0, 1]);
    assert_eq!(r, invalid());
}

#[test]
fn sequential_reordering_with_defaults() {
    let reordered = structure(vec![unsigned(1, 11), unsigned(0, 10)]);
    let r: Result<Vec<Option<u8>>, Error> =
        decode_sequential(&reordered, ContainerKind::Struct, &vec![0, 1]);
    assert_eq!(r, Ok(vec![None, Some(11)]));
}

#[test]
fn unordered_tolerates_reordering() {
    let reordered = structure(vec![unsigned(1, 11), unsigned(0, 10)]);
    let r: Result<Vec<u8>, Error> = decode_unordered(&reordered, &vec![0, 1]);
    assert_eq!(r, Ok(vec![10, 11]));
    let policy = TagPolicy { ordering_mode: OrderingMode::Unordered, ..TagPolicy::default() };
    let r: Result<Vec<u8>, Error> = decode_struct(&reordered, &policy, &vec![0, 1]);
    assert_eq!(r, Ok(vec![10, 11]));
}

#[test]
fn unordered_takes_the_first_match() {
    let e = structure(vec![unsigned(3, 1), unsigned(3, 2)]);
    let r: Result<Vec<u8>, Error> = decode_unordered(&e, &vec![3]);
    assert_eq!(r, Ok(vec![1]));
    assert_eq!(e.find_tag(3), Some(&unsigned(3, 1)));
    assert_eq!(e.find_tag(4), None);
    assert_eq!(unsigned(3, 1).find_tag(3), None);
}

#[test]
fn sequential_cursor_does_not_rewind() {
    let e = structure(vec![unsigned(1, 11), unsigned(0, 10), unsigned(2, 12)]);
    let r: Result<Vec<Option<u8>>, Error> =
        decode_sequential(&e, ContainerKind::Struct, &vec![1, 2, 0]);
    assert_eq!(r, Ok(vec![Some(11), None, Some(10)]));
}

#[test]
fn mandatory_absent_fails() {
    let e = structure(vec![unsigned(0, 10)]);
    let r: Result<Vec<u8>, Error> = decode_sequential(&e, ContainerKind::Struct, &vec![0, 1]);
    assert_eq!(r, invalid());
    let r: Result<Vec<u8>, Error> = decode_unordered(&e, &vec![0, 1]);
    assert_eq!(r, invalid());
    let r: Result<Vec<u8>, Error> = decode_sequential(&structure(vec![]), ContainerKind::Struct, &vec![0]);
    assert_eq!(r, invalid());
}

#[test]
fn sequential_checks_the_container_kind() {
    let e = structure(vec![unsigned(0, 10)]);
    let r: Result<Vec<u8>, Error> = decode_sequential(&e, ContainerKind::List, &vec![0]);
    assert_eq!(r, invalid());
    let r: Result<Vec<Option<u8>>, Error> =
        decode_sequential(&unsigned(0, 10), ContainerKind::Struct, &vec![0]);
    assert_eq!(r, invalid());
    let r: Result<Vec<u8>, Error> = decode_sequential(&e, ContainerKind::Struct, &vec![0]);
    assert_eq!(r, Ok(vec![10]));
    assert!(e.confirm_struct().is_ok());
    assert_eq!(e.confirm_list(), invalid());
}

#[test]
fn unordered_does_not_check_the_container_kind() {
    let e = structure(vec![unsigned(0, 10)]);
    let policy = TagPolicy {
        start: 0,
        container_kind: ContainerKind::List,
        ordering_mode: OrderingMode::Unordered,
    };
    let r: Result<Vec<u8>, Error> = decode_struct(&e, &policy, &vec![0]);
    assert_eq!(r, Ok(vec![10]));
    let r: Result<Vec<Option<u8>>, Error> = decode_unordered(&unsigned(0, 10), &vec![0]);
    assert_eq!(r, Ok(vec![None]));
}

#[test]
fn member_errors_propagate() {
    let e = structure(vec![unsigned(0, 10), unsigned(1, 300)]);
    let r: Result<Vec<u8>, Error> = decode_sequential(&e, ContainerKind::Struct, &vec![0, 1]);
    assert_eq!(r, Err(Error { code: ErrorCode::TLVTypeMismatch }));
    let r: Result<Vec<Option<u8>>, Error> = decode_unordered(&e, &vec![1, 7]);
    assert_eq!(r, Err(Error { code: ErrorCode::TLVTypeMismatch }));
    let r: Result<Vec<u16>, Error> = decode_sequential(&e, ContainerKind::Struct, &vec![0, 1]);
    assert_eq!(r, Ok(vec![10, 300]));
}

#[test]
fn variant_codec() {
    let tags = vec![0u8, 1];
    let mut tw = TLVWriter::new(16);
    assert_eq!(encode_variant(&7u32, 1, &tags, TagType::Anonymous, &mut tw), Ok(()));
    assert_eq!(tw.elements(), &vec![structure(vec![unsigned(1, 7)])]);
    let r: Result<(usize, u32), Error> = decode_variant(&tw.elements()[0], &tags);
    assert_eq!(r, Ok((1, 7)));
    let r: Result<(usize, u32), Error> = decode_variant(&structure(vec![unsigned(2, 7)]), &tags);
    assert_eq!(r, invalid());
}

#[test]
fn variant_decoder_edges() {
    let tags = vec![0u8, 1];
    let r: Result<(usize, u32), Error> = decode_variant(&structure(vec![]), &tags);
    assert_eq!(r, invalid());
    let r: Result<(usize, u32), Error> = decode_variant(&unsigned(0, 1), &tags);
    assert_eq!(r, invalid());
    let list = TLVElement {
        tag: TagType::Anonymous,
        value: ElementValue::Container(ContainerKind::List, vec![unsigned(0, 1)]),
    };
    let r: Result<(usize, u32), Error> = decode_variant(&list, &tags);
    assert_eq!(r, invalid());
    let untagged = TLVElement { tag: TagType::Anonymous, value: ElementValue::Unsigned(1) };
    let r: Result<(usize, u32), Error> = decode_variant(&structure(vec![untagged]), &tags);
    assert_eq!(r, Err(Error { code: ErrorCode::TLVTypeMismatch }));
    let r: Result<(usize, u32), Error> =
        decode_variant(&structure(vec![unsigned(0, 5), unsigned(9, 6)]), &tags);
    assert_eq!(r, Ok((0, 5)));
    let r: Result<(usize, bool), Error> = decode_variant(&structure(vec![unsigned(0, 5)]), &tags);
    assert_eq!(r, Err(Error { code: ErrorCode::TLVTypeMismatch }));
    assert_eq!(find_variant(&vec![4, 5, 4], 4), Some(0));
    assert_eq!(find_variant(&vec![4, 5, 4], 6), None);
}

#[test]
fn scalar_decoding() {
    assert_eq!(u8::from_tlv(&unsigned(0, 255)), Ok(255));
    assert_eq!(u8::from_tlv(&unsigned(0, 256)), Err(Error { code: ErrorCode::TLVTypeMismatch }));
    assert_eq!(u16::from_tlv(&unsigned(0, 65535)), Ok(65535));
    assert_eq!(u32::from_tlv(&unsigned(0, 1 << 32)), Err(Error { code: ErrorCode::TLVTypeMismatch }));
    assert_eq!(u64::from_tlv(&unsigned(0, u64::MAX)), Ok(u64::MAX));
    assert_eq!(bool::from_tlv(&unsigned(0, 1)), Err(Error { code: ErrorCode::TLVTypeMismatch }));
    let t = TLVElement { tag: TagType::Context(3), value: ElementValue::Bool(true) };
    assert_eq!(bool::from_tlv(&t), Ok(true));
    assert_eq!(Option::<bool>::from_tlv(&t), Ok(Some(true)));
    assert_eq!(u8::tlv_not_found(), invalid());
    assert_eq!(bool::tlv_not_found(), invalid());
    assert_eq!(Option::<u8>::tlv_not_found(), Ok(None));
    assert!(t.check_ctx_tag(3));
    assert!(!t.check_ctx_tag(4));
    assert_eq!(t.get_tag(), TagType::Context(3));
    assert_eq!(unsigned(0, 9).unsigned(8), Err(Error { code: ErrorCode::TLVTypeMismatch }));
}

#[test]
fn cursor_decodes_members_of_different_types() {
    let e = structure(vec![unsigned(0, 10), unsigned(2, 70000)]);
    let mut cursor = MemberCursor::enter(&e, ContainerKind::Struct).unwrap();
    let field1: Result<u8, Error> = cursor.member(0);
    let field2: Result<Option<bool>, Error> = cursor.member(1);
    let field3: Result<u32, Error> = cursor.member(2);
    let field4: Result<Option<u8>, Error> = cursor.member(3);
    assert_eq!(field1, Ok(10));
    assert_eq!(field2, Ok(None));
    assert_eq!(field3, Ok(70000));
    assert_eq!(field4, Ok(None));
    let field5: Result<u8, Error> = cursor.member(0);
    assert_eq!(field5, invalid());
}

#[test]
fn cursor_needs_the_right_container() {
    let e = structure(vec![unsigned(0, 10)]);
    assert!(MemberCursor::enter(&e, ContainerKind::Struct).is_ok());
    assert_eq!(MemberCursor::enter(&e, ContainerKind::List).err(), Some(Error::new(ErrorCode::Invalid)));
    assert_eq!(
        MemberCursor::enter(&unsigned(0, 1), ContainerKind::Struct).err(),
        Some(Error::new(ErrorCode::Invalid))
    );
}

#[test]
fn cursor_moves_on_even_when_the_child_does_not_decode() {
    let e = structure(vec![unsigned(0, 300), unsigned(1, 5)]);
    let mut cursor = MemberCursor::enter(&e, ContainerKind::Struct).unwrap();
    let first: Result<u8, Error> = cursor.member(0);
    assert_eq!(first, Err(Error { code: ErrorCode::TLVTypeMismatch }));
    let second: Result<u8, Error> = cursor.member(1);
    assert_eq!(second, Ok(5));
}

#[test]
fn members_are_found_anywhere() {
    let e = structure(vec![unsigned(2, 70000), unsigned(0, 10)]);
    let a: Result<u8, Error> = member_anywhere(&e, 0);
    let b: Result<u32, Error> = member_anywhere(&e, 2);
    let c: Result<Option<u8>, Error> = member_anywhere(&e, 1);
    let d: Result<u8, Error> = member_anywhere(&e, 1);
    assert_eq!(a, Ok(10));
    assert_eq!(b, Ok(70000));
    assert_eq!(c, Ok(None));
    assert_eq!(d, invalid());
}

fn write_mixed(a: u8, b: Option<bool>, c: u32, tags: &[u8], tw: &mut TLVWriter) -> Result<(), Error> {
    tw.start_struct(TagType::Anonymous)?;
    a.to_tlv(tw, TagType::Context(tags[0]))?;
    b.to_tlv(tw, TagType::Context(tags[1]))?;
    c.to_tlv(tw, TagType::Context(tags[2]))
}

#[test]
fn round_trip_of_members_of_different_types() {
    let tags = [0u8, 22, 1];
    for b in [None, Some(true)] {
        let mut tw = TLVWriter::new(16);
        let anchor = tw.get_tail();
        let body = write_mixed(7, b, 70000, &tags, &mut tw);
        assert_eq!(conclude(&mut tw, anchor, body), Ok(()));
        let e = &tw.elements()[0];

        let mut cursor = MemberCursor::enter(e, ContainerKind::Struct).unwrap();
        let a1: Result<u8, Error> = cursor.member(tags[0]);
        let b1: Result<Option<bool>, Error> = cursor.member(tags[1]);
        let c1: Result<u32, Error> = cursor.member(tags[2]);
        assert_eq!((a1, b1, c1), (Ok(7), Ok(b), Ok(70000)));

        let a2: Result<u8, Error> = member_anywhere(e, tags[0]);
        let b2: Result<Option<bool>, Error> = member_anywhere(e, tags[1]);
        let c2: Result<u32, Error> = member_anywhere(e, tags[2]);
        assert_eq!((a2, b2, c2), (Ok(7), Ok(b), Ok(70000)));
    }
}

#[test]
fn unordered_result_does_not_depend_on_order() {
    let one = structure(vec![unsigned(4, 1), unsigned(9, 2), unsigned(6, 300)]);
    let other = structure(vec![unsigned(6, 300), unsigned(4, 1), unsigned(9, 2)]);
    for tags in [vec![4u8, 9], vec![9, 4, 5], vec![6], vec![]] {
        let r1: Result<Vec<u8>, Error> = decode_unordered(&one, &tags);
        let r2: Result<Vec<u8>, Error> = decode_unordered(&other, &tags);
        assert_eq!(r1, r2);
        let r1: Result<Vec<Option<u16>>, Error> = decode_unordered(&one, &tags);
        let r2: Result<Vec<Option<u16>>, Error> = decode_unordered(&other, &tags);
        assert_eq!(r1, r2);
    }
    let r: Result<Vec<Option<u16>>, Error> = decode_unordered(&other, &vec![9, 4, 5]);
    assert_eq!(r, Ok(vec![Some(2), Some(1), None]));
}
