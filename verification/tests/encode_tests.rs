use matter_codec::element::{ElementValue, TLVElement, TagType};
use matter_codec::encode::{conclude, encode_struct, encode_variant, Record, ToTLV};
use matter_codec::error::{Error, ErrorCode};
use matter_codec::tags::{resolve, ContainerKind, Member, TagPolicy};
use matter_codec::writer::{Anchor, TLVWriter};

fn unsigned(tag: u8, v: u64) -> TLVElement {
    TLVElement { tag: TagType::Context(tag), value: ElementValue::Unsigned(v) }
}

fn container(tag: TagType, kind: ContainerKind, children: Vec<TLVElement>) -> TLVElement {
    TLVElement { tag, value: ElementValue::Container(kind, children) }
}

fn write_fields(field1: u8, field2: u32, tags: &[u8], tw: &mut TLVWriter) -> Result<(), Error> {
    tw.start_struct(TagType::Anonymous)?;
    field1.to_tlv(tw, TagType::Context(tags[0]))?;
    field2.to_tlv(tw, TagType::Context(tags[1]))
}

#[test]
fn struct_members_are_written_under_their_resolved_tags() {
    let members = vec![Member { explicit_tag: None }, Member { explicit_tag: None }];
    let policy = TagPolicy::default();
    let tags = resolve(&policy, &members);
    assert_eq!(tags, vec![0u8, 1u8]);
    let mut tw = TLVWriter::new(16);
    let anchor = tw.get_tail();
    let body = write_fields(10, 20, &tags, &mut tw);
    assert_eq!(conclude(&mut tw, anchor, body), Ok(()));
    let expected =
        container(TagType::Anonymous, ContainerKind::Struct, vec![unsigned(0, 10), unsigned(1, 20)]);
    assert_eq!(tw.elements(), &vec![expected]);
    assert_eq!(tw.open_containers(), 0);

    let mut same = TLVWriter::new(16);
    let r = encode_struct(&vec![10u32, 20u32], &tags, TagType::Anonymous, &policy, &mut same);
    assert_eq!(r, Ok(()));
    assert_eq!(same.elements(), tw.elements());
}

#[test]
fn conclude_rewinds_a_failed_body() {
    let mut tw = TLVWriter::new(2);
    assert_eq!(tw.put_bool(TagType::Anonymous, false), Ok(()));
    let anchor = tw.get_tail();
    let body = write_fields(10, 20, &[0, 1], &mut tw);
    assert_eq!(body, Err(Error { code: ErrorCode::NoSpace }));
    assert_eq!(tw.open_containers(), 1);
    assert_eq!(conclude(&mut tw, anchor, body), Err(Error { code: ErrorCode::NoSpace }));
    assert_eq!(tw.get_tail(), anchor);
    assert_eq!(tw.open_containers(), 0);
}

#[test]
fn conclude_without_open_container_is_invalid() {
    let mut tw = TLVWriter::new(4);
    let anchor = tw.get_tail();
    assert_eq!(tw.put_bool(TagType::Anonymous, false), Ok(()));
    assert_eq!(conclude(&mut tw, anchor, Ok(())), Err(Error { code: ErrorCode::Invalid }));
    assert_eq!(tw.get_tail(), anchor);
    assert_eq!(tw.elements(), &Vec::<TLVElement>::new());
}

#[test]
fn active_variant_is_written_under_its_resolved_tag() {
    let tags = vec![0u8, 1u8];
    let mut tw = TLVWriter::new(16);
    let r = encode_variant(&7u32, 1, &tags, TagType::Anonymous, &mut tw);
    assert_eq!(r, Ok(()));
    assert_eq!(
        tw.elements(),
        &vec![container(TagType::Anonymous, ContainerKind::Struct, vec![unsigned(1, 7)])]
    );
}

#[test]
fn encode_list_kind_and_explicit_tags() {
    let policy = TagPolicy { container_kind: ContainerKind::List, ..TagPolicy::default() };
    let mut tw = TLVWriter::new(16);
    let r = encode_struct(&vec![1u8, 2u8, 3u8], &vec![0, 22, 1], TagType::Context(4), &policy, &mut tw);
    assert_eq!(r, Ok(()));
    assert_eq!(
        tw.elements(),
        &vec![container(
            TagType::Context(4),
            ContainerKind::List,
            vec![unsigned(0, 1), unsigned(22, 2), unsigned(1, 3)]
        )]
    );
}

#[test]
fn encode_fails_atomically_on_second_member() {
    let mut tw = TLVWriter::new(2);
    let before = tw.get_tail();
    let r = encode_struct(
        &vec![1u8, 2u8, 3u8],
        &vec![0, 1, 2],
        TagType::Anonymous,
        &TagPolicy::default(),
        &mut tw,
    );
    assert_eq!(r, Err(Error { code: ErrorCode::NoSpace }));
    assert_eq!(tw.get_tail(), before);
    assert_eq!(tw.elements(), &Vec::<TLVElement>::new());
    assert_eq!(tw.open_containers(), 0);
    assert_eq!(1u8.to_tlv(&mut tw, TagType::Context(0)), Ok(()));
    assert_eq!(2u8.to_tlv(&mut tw, TagType::Context(1)), Ok(()));
}

#[test]
fn encode_failure_keeps_earlier_output() {
    let mut tw = TLVWriter::new(4);
    assert_eq!(tw.put_unsigned(TagType::Context(9), 99), Ok(()));
    assert_eq!(tw.start_list(TagType::Context(8)), Ok(()));
    assert_eq!(tw.put_bool(TagType::Anonymous, true), Ok(()));
    let before = tw.get_tail();
    let r = encode_struct(
        &vec![1u8, 2u8],
        &vec![0, 1],
        TagType::Anonymous,
        &TagPolicy::default(),
        &mut tw,
    );
    assert_eq!(r, Err(Error { code: ErrorCode::NoSpace }));
    assert_eq!(tw.get_tail(), before);
    assert_eq!(tw.open_containers(), 1);
    assert_eq!(tw.end_container(), Ok(()));
    assert_eq!(
        tw.elements(),
        &vec![
            unsigned(9, 99),
            container(
                TagType::Context(8),
                ContainerKind::List,
                vec![TLVElement { tag: TagType::Anonymous, value: ElementValue::Bool(true) }]
            )
        ]
    );
}

#[test]
fn encode_fails_when_container_cannot_open() {
    let mut tw = TLVWriter::new(0);
    let before = tw.get_tail();
    let r = encode_struct(&Vec::<u8>::new(), &vec![], TagType::Anonymous, &TagPolicy::default(), &mut tw);
    assert_eq!(r, Err(Error { code: ErrorCode::NoSpace }));
    assert_eq!(tw.get_tail(), before);
}

#[test]
fn encode_variant_fails_atomically() {
    let mut tw = TLVWriter::new(1);
    let before = tw.get_tail();
    let r = encode_variant(&7u32, 0, &vec![0, 1], TagType::Anonymous, &mut tw);
    assert_eq!(r, Err(Error { code: ErrorCode::NoSpace }));
    assert_eq!(tw.get_tail(), before);
    assert_eq!(tw.elements(), &Vec::<TLVElement>::new());
    assert_eq!(tw.open_containers(), 0);
}

#[test]
fn absent_optional_writes_nothing() {
    let mut tw = TLVWriter::new(16);
    let r = encode_struct(
        &vec![None, Some(5u8), None],
        &vec![0, 1, 2],
        TagType::Anonymous,
        &TagPolicy::default(),
        &mut tw,
    );
    assert_eq!(r, Ok(()));
    assert_eq!(
        tw.elements(),
        &vec![container(TagType::Anonymous, ContainerKind::Struct, vec![unsigned(1, 5)])]
    );
}

#[test]
fn empty_struct_is_an_empty_container() {
    let mut tw = TLVWriter::new(1);
    let r = encode_struct(&Vec::<u64>::new(), &vec![], TagType::Context(3), &TagPolicy::default(), &mut tw);
    assert_eq!(r, Ok(()));
    assert_eq!(tw.elements(), &vec![container(TagType::Context(3), ContainerKind::Struct, vec![])]);
}

#[test]
fn rewind_discards_open_containers() {
    let mut tw = TLVWriter::new(16);
    assert_eq!(tw.put_unsigned(TagType::Context(0), 1), Ok(()));
    let anchor = tw.get_tail();
    assert_eq!(anchor, Anchor { depth: 1, count: 1, used: 1 });
    assert_eq!(tw.start_struct(TagType::Context(1)), Ok(()));
    assert_eq!(tw.start_list(TagType::Context(2)), Ok(()));
    assert_eq!(tw.put_unsigned(TagType::Context(3), 4), Ok(()));
    tw.rewind_to(anchor);
    assert_eq!(tw.get_tail(), anchor);
    assert_eq!(tw.open_containers(), 0);
    assert_eq!(tw.elements(), &vec![unsigned(0, 1)]);
}

#[test]
fn rewind_to_unreached_anchor_changes_nothing() {
    let mut tw = TLVWriter::new(16);
    assert_eq!(tw.put_unsigned(TagType::Context(0), 1), Ok(()));
    let here = tw.get_tail();
    tw.rewind_to(Anchor { depth: 3, count: 0, used: 0 });
    assert_eq!(tw.get_tail(), here);
    tw.rewind_to(Anchor { depth: 1, count: 5, used: 0 });
    assert_eq!(tw.get_tail(), here);
    tw.rewind_to(Anchor { depth: 0, count: 0, used: 0 });
    assert_eq!(tw.get_tail(), here);
    assert_eq!(tw.elements(), &vec![unsigned(0, 1)]);
}

#[test]
fn end_without_open_container_is_invalid() {
    let mut tw = TLVWriter::new(16);
    assert_eq!(tw.end_container(), Err(Error::new(ErrorCode::Invalid)));
    assert_eq!(Error::new(ErrorCode::Invalid).code(), ErrorCode::Invalid);
}

#[test]
fn scalars_write_their_value() {
    let mut tw = TLVWriter::new(16);
    assert_eq!(200u8.to_tlv(&mut tw, TagType::Context(0)), Ok(()));
    assert_eq!(60000u16.to_tlv(&mut tw, TagType::Context(1)), Ok(()));
    assert_eq!(4000000000u32.to_tlv(&mut tw, TagType::Context(2)), Ok(()));
    assert_eq!(u64::MAX.to_tlv(&mut tw, TagType::Context(3)), Ok(()));
    assert_eq!(true.to_tlv(&mut tw, TagType::Anonymous), Ok(()));
    assert_eq!(
        tw.elements(),
        &vec![
            unsigned(0, 200),
            unsigned(1, 60000),
            unsigned(2, 4000000000),
            unsigned(3, u64::MAX),
            TLVElement { tag: TagType::Anonymous, value: ElementValue::Bool(true) },
        ]
    );
}

#[test]
fn records_nest() {
    let inner = Record { members: vec![1u8, 2u8], tags: vec![0, 1], policy: TagPolicy::default() };
    let list = TagPolicy { container_kind: ContainerKind::List, ..TagPolicy::default() };
    let mut tw = TLVWriter::new(16);
    assert_eq!(encode_struct(&vec![inner], &vec![5], TagType::Anonymous, &list, &mut tw), Ok(()));
    assert_eq!(
        tw.elements(),
        &vec![container(
            TagType::Anonymous,
            ContainerKind::List,
            vec![container(
                TagType::Context(5),
                ContainerKind::Struct,
                vec![unsigned(0, 1), unsigned(1, 2)]
            )]
        )]
    );
}

#[test]
fn nested_failure_rewinds_everything() {
    let first = Record { members: vec![1u8], tags: vec![0], policy: TagPolicy::default() };
    let second = Record { members: vec![1u8, 2u8], tags: vec![0, 1], policy: TagPolicy::default() };
    let mut tw = TLVWriter::new(5);
    let before = tw.get_tail();
    let r = encode_struct(
        &vec![first, second],
        &vec![0, 1],
        TagType::Anonymous,
        &TagPolicy::default(),
        &mut tw,
    );
    assert_eq!(r, Err(Error { code: ErrorCode::NoSpace }));
    assert_eq!(tw.get_tail(), before);
    assert_eq!(tw.elements(), &Vec::<TLVElement>::new());
}

#[test]
fn record_with_mismatched_tags_is_invalid() {
    let record = Record { members: vec![1u8, 2u8], tags: vec![0], policy: TagPolicy::default() };
    let mut tw = TLVWriter::new(16);
    let before = tw.get_tail();
    assert_eq!(record.to_tlv(&mut tw, TagType::Anonymous), Err(Error::new(ErrorCode::Invalid)));
    assert_eq!(tw.get_tail(), before);
}
