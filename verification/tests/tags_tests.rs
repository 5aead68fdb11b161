use matter_codec::tags::{
    auto_members, fits_tag_space, resolve, ContainerKind, Member, OrderingMode, TagPolicy,
};

fn auto() -> Member {
    Member { explicit_tag: None }
}

fn tagged(t: u8) -> Member {
    Member { explicit_tag: Some(t) }
}

#[test]
fn policy_defaults() {
    let p = TagPolicy::default();
    assert_eq!(p.start, 0);
    assert_eq!(p.container_kind, ContainerKind::Struct);
    assert_eq!(p.ordering_mode, OrderingMode::Sequential);
}

#[test]
fn resolve_sequential_from_zero() {
    let tags = resolve(&TagPolicy::default(), &vec![auto(), auto(), auto()]);
    assert_eq!(tags, vec![0u8, 1, 2]);
}

#[test]
fn resolve_override_does_not_perturb_sequence() {
    let tags = resolve(&TagPolicy::default(), &vec![auto(), tagged(22), auto()]);
    assert_eq!(tags, vec![0u8, 22, 1]);
}

#[test]
fn resolve_uses_start() {
    let policy = TagPolicy { start: 5, ..TagPolicy::default() };
    assert_eq!(resolve(&policy, &vec![auto(), auto()]), vec![5u8, 6]);
    assert_eq!(resolve(&policy, &vec![]), Vec::<u8>::new());
}

#[test]
fn resolve_does_not_detect_collisions() {
    let tags = resolve(&TagPolicy::default(), &vec![tagged(1), auto(), auto()]);
    assert_eq!(tags, vec![1u8, 0, 1]);
}

#[test]
fn resolve_is_repeatable() {
    let members = vec![auto(), tagged(7), auto(), tagged(7)];
    let policy = TagPolicy { start: 3, ..TagPolicy::default() };
    assert_eq!(resolve(&policy, &members), resolve(&policy, &members));
    assert_eq!(resolve(&policy, &members), vec![3u8, 7, 4, 7]);
}

#[test]
fn resolve_reaches_the_last_tag() {
    let policy = TagPolicy { start: 255, ..TagPolicy::default() };
    let members = vec![tagged(0), auto(), tagged(1)];
    assert!(fits_tag_space(&policy, &members));
    assert_eq!(resolve(&policy, &members), vec![0u8, 255, 1]);
}

#[test]
fn tag_space_is_bounded() {
    let policy = TagPolicy { start: 255, ..TagPolicy::default() };
    assert!(!fits_tag_space(&policy, &vec![auto(), auto()]));
    assert!(fits_tag_space(&policy, &vec![tagged(3), tagged(4)]));
    assert_eq!(auto_members(&vec![auto(), tagged(3), auto()]), 2);
}

#[test]
fn variants_resolve_as_fields_do() {
    let variants = vec![auto(), tagged(22), auto()];
    assert_eq!(resolve(&TagPolicy::default(), &variants), vec![0u8, 22, 1]);
    assert_eq!(resolve(&TagPolicy::default(), &vec![auto(), auto()]), vec![0u8, 1]);
    let policy = TagPolicy { start: 254, ..TagPolicy::default() };
    assert_eq!(resolve(&policy, &vec![auto(), auto()]), vec![254u8, 255]);
}
