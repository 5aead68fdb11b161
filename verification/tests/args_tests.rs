use matter_codec::args::{member_from, parse_tag_val, parse_tlvargs, ArgError, ArgItem, TlvArgs};
use matter_codec::tags::{ContainerKind, Member, OrderingMode, TagPolicy};

fn item(key: &str, value: Option<&str>) -> ArgItem {
    ArgItem { key: key.to_string(), value: value.map(|v| v.to_string()) }
}

#[test]
fn tlvargs_parse() {
    assert_eq!(
        parse_tlvargs(&vec![item("datatype", Some("\"list\""))], "test".to_string()),
        Ok(TlvArgs {
            rs_matter_crate: "test".to_string(),
            datatype: "list".to_string(),
            ..Default::default()
        })
    );

    assert_eq!(
        parse_tlvargs(&vec![item("unordered", None)], "crate".to_string()),
        Ok(TlvArgs {
            rs_matter_crate: "crate".to_string(),
            unordered: true,
            ..Default::default()
        })
    );

    assert_eq!(
        parse_tlvargs(&vec![item("start", Some("123"))], "crate".to_string()),
        Ok(TlvArgs {
            rs_matter_crate: "crate".to_string(),
            start: 123,
            ..Default::default()
        })
    );

    assert_eq!(
        parse_tlvargs(&vec![item("lifetime", Some("\"'foo\""))], "abc".to_string())
            .unwrap()
            .lifetime,
        "'foo"
    );
}

#[test]
fn tlvargs_defaults() {
    let args = TlvArgs::default();
    assert_eq!(args.start, 0);
    assert_eq!(args.rs_matter_crate, "");
    assert_eq!(args.datatype, "struct");
    assert!(!args.unordered);
    assert_eq!(args.lifetime, "'_");
    assert_eq!(parse_tlvargs(&vec![], "".to_string()), Ok(TlvArgs::default()));
}

#[test]
fn tlvargs_later_item_wins() {
    let args = parse_tlvargs(
        &vec![
            item("start", Some("1")),
            item("datatype", Some("\"list\"")),
            item("unordered", None),
            item("start", Some("0x10")),
        ],
        "k".to_string(),
    )
    .unwrap();
    assert_eq!(args.start, 16);
    assert_eq!(args.datatype, "list");
    assert!(args.unordered);
    assert_eq!(
        args.policy(),
        Some(TagPolicy {
            start: 16,
            container_kind: ContainerKind::List,
            ordering_mode: OrderingMode::Unordered,
        })
    );
}

#[test]
fn tlvargs_refusals() {
    let k = || "k".to_string();
    assert_eq!(parse_tlvargs(&vec![item("other", None)], k()), Err(ArgError::Unsupported));
    assert_eq!(parse_tlvargs(&vec![item("start", None)], k()), Err(ArgError::Malformed));
    assert_eq!(parse_tlvargs(&vec![item("start", Some("\"12\""))], k()), Err(ArgError::Malformed));
    assert_eq!(parse_tlvargs(&vec![item("start", Some("256"))], k()), Err(ArgError::Malformed));
    assert_eq!(parse_tlvargs(&vec![item("start", Some("abc"))], k()), Err(ArgError::Malformed));
    assert_eq!(parse_tlvargs(&vec![item("datatype", Some("list"))], k()), Err(ArgError::Malformed));
    assert_eq!(parse_tlvargs(&vec![item("datatype", None)], k()), Err(ArgError::Malformed));
    assert_eq!(parse_tlvargs(&vec![item("lifetime", Some("7"))], k()), Err(ArgError::Malformed));
    assert_eq!(parse_tlvargs(&vec![item("unordered", Some("1"))], k()), Err(ArgError::Malformed));
    assert_eq!(
        parse_tlvargs(&vec![item("start", Some("5")), item("bogus", None), item("start", None)], k()),
        Err(ArgError::Unsupported)
    );
}

#[test]
fn refused_item_leaves_arguments() {
    let mut args = TlvArgs::default();
    assert_eq!(args.parse(&item("start", Some("9"))), Ok(()));
    assert_eq!(args.parse(&item("start", Some("nine"))), Err(ArgError::Malformed));
    assert_eq!(args.parse(&item("unknown", Some("1"))), Err(ArgError::Unsupported));
    assert_eq!(args.start, 9);
    assert_eq!(args.set_start(None), Err(ArgError::Malformed));
    assert_eq!(args.set_start(Some(4)), Ok(()));
    assert_eq!(args.set_datatype(Some("list".to_string())), Ok(()));
    assert_eq!(args.set_datatype(None), Err(ArgError::Malformed));
    assert_eq!(args.set_lifetime(Some("'a".to_string())), Ok(()));
    assert_eq!(args.set_lifetime(None), Err(ArgError::Malformed));
    assert_eq!(
        args,
        TlvArgs {
            rs_matter_crate: "".to_string(),
            start: 4,
            datatype: "list".to_string(),
            unordered: false,
            lifetime: "'a".to_string(),
        }
    );
}

#[test]
fn policy_needs_a_known_datatype() {
    assert_eq!(TlvArgs::default().policy(), Some(TagPolicy::default()));
    let args = parse_tlvargs(&vec![item("datatype", Some("\"array\""))], "k".to_string()).unwrap();
    assert_eq!(args.datatype, "array");
    assert_eq!(args.policy(), None);
}

#[test]
fn first_explicit_tag_counts() {
    assert_eq!(parse_tag_val(&vec![]), Ok(Member { explicit_tag: None }));
    assert_eq!(parse_tag_val(&vec!["22".to_string()]), Ok(Member { explicit_tag: Some(22) }));
    assert_eq!(
        parse_tag_val(&vec!["22".to_string(), "oops".to_string()]),
        Ok(Member { explicit_tag: Some(22) })
    );
    assert_eq!(parse_tag_val(&vec!["22u8".to_string()]), Ok(Member { explicit_tag: Some(22) }));
    assert_eq!(parse_tag_val(&vec!["300".to_string()]), Err(ArgError::Malformed));
    assert_eq!(parse_tag_val(&vec!["x".to_string()]), Err(ArgError::Malformed));
    assert_eq!(member_from(Some(None)), Err(ArgError::Malformed));
    assert_eq!(member_from(Some(Some(3))), Ok(Member { explicit_tag: Some(3) }));
    assert_eq!(member_from(None), Ok(Member { explicit_tag: None }));
}
