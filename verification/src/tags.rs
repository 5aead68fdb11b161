//! Tag assignment: from a type's tag policy and its ordered members to the
//! context tag of each member.

use vstd::prelude::*;

verus! {

/// The wire container a type is framed in.
#[derive(Clone, Copy, Debug, PartialEq, Eq, Structural)]
pub enum ContainerKind {
    Struct,
    List,
}

/// How a container's children are matched to members when decoding.
#[derive(Clone, Copy, Debug, PartialEq, Eq, Structural)]
pub enum OrderingMode {
    Sequential,
    Unordered,
}

/// Per-type configuration of tag assignment and decode strategy.
#[derive(Clone, Copy, Debug, PartialEq, Eq, Structural)]
pub struct TagPolicy {
    /// The first automatically assigned tag.
    pub start: u8,
    pub container_kind: ContainerKind,
    pub ordering_mode: OrderingMode,
}

/// One field of a product type, or one variant of a sum type.
#[derive(Clone, Copy, Debug, PartialEq, Eq, Structural)]
pub struct Member {
    /// The tag this member asks for, if it overrides automatic assignment.
    pub explicit_tag: Option<u8>,
}

impl Default for TagPolicy {
    /// Tags start at 0, the container is a struct, decoding is sequential.
    fn default() -> (p: TagPolicy)
        ensures
            p.start == 0,
            p.container_kind == ContainerKind::Struct,
            p.ordering_mode == OrderingMode::Sequential,
    {
        TagPolicy {
            start: 0,
            container_kind: ContainerKind::Struct,
            ordering_mode: OrderingMode::Sequential,
        }
    }
}

/// The number of members that carry no explicit tag.
pub open spec fn auto_count(members: Seq<Member>) -> nat
    decreases members.len(),
{
    if members.len() == 0 {
        0
    } else {
        auto_count(members.drop_last()) + if members.last().explicit_tag is None {
            1nat
        } else {
            0nat
        }
    }
}

/// The tag of member `i`: its explicit tag where it has one, else `start`
/// plus the number of members before it that have none.
pub open spec fn resolved_tag(start: int, members: Seq<Member>, i: int) -> int {
    match members[i].explicit_tag {
        Some(t) => t as int,
        None => start + auto_count(members.take(i)),
    }
}

/// Whether every automatically assigned tag fits in the tag space.
pub open spec fn tags_fit(policy: TagPolicy, members: Seq<Member>) -> bool {
    policy.start + auto_count(members) <= 256
}

/// Counting is monotone along prefixes.
pub proof fn lemma_auto_count_prefix(members: Seq<Member>, i: int)
    requires
        0 <= i <= members.len(),
    ensures
        auto_count(members.take(i)) <= auto_count(members),
        i < members.len() ==> auto_count(members.take(i + 1)) == auto_count(members.take(i)) + (
        if members[i].explicit_tag is None {
            1nat
        } else {
            0nat
        }),
        i < members.len() && members[i].explicit_tag is None ==> auto_count(members.take(i))
            < auto_count(members),
    decreases members.len() - i,
{
    if i < members.len() {
        assert(members.take(i + 1).drop_last() =~= members.take(i));
        assert(members.take(i + 1).last() == members[i]);
        lemma_auto_count_prefix(members, i + 1);
    } else {
        assert(members.take(i) =~= members);
    }
}

/// The number of members without an explicit tag.
pub fn auto_members(members: &Vec<Member>) -> (n: usize)
    ensures
        n == auto_count(members@),
{
    let mut n: usize = 0;
    let mut i: usize = 0;
    while i < members.len()
        invariant
            i <= members.len(),
            n == auto_count(members@.take(i as int)),
            n <= i,
        decreases members.len() - i,
    {
        proof {
            lemma_auto_count_prefix(members@, i as int);
        }
        if members[i].explicit_tag.is_none() {
            n += 1;
        }
        i += 1;
    }
    proof {
        assert(members@.take(i as int) =~= members@);
    }
    n
}

/// Whether `resolve` can assign every tag within the tag space.
pub fn fits_tag_space(policy: &TagPolicy, members: &Vec<Member>) -> (b: bool)
    ensures
        b == tags_fit(*policy, members@),
{
    let n: usize = auto_members(members);
    n <= 256 && policy.start as usize + n <= 256
}

/// Assigns each member its tag, be the members the fields of a product
/// type or the variants of a sum type. A running counter starts at the
/// policy's `start`; a member with an explicit tag gets that tag and
/// leaves the counter alone, any other member gets the counter's value and
/// advances it. Collisions between explicit and assigned tags are not
/// detected.
pub fn resolve(policy: &TagPolicy, members: &Vec<Member>) -> (tags: Vec<u8>)
    requires
        tags_fit(*policy, members@),
    ensures
        tags@.len() == members@.len(),
        forall|i: int|
            0 <= i < members@.len() ==> #[trigger] tags@[i] as int == resolved_tag(
                policy.start as int,
                members@,
                i,
            ),
{
    let mut tags: Vec<u8> = Vec::new();
    let mut next: u16 = policy.start as u16;
    let mut i: usize = 0;
    while i < members.len()
        invariant
            i <= members.len(),
            tags@.len() == i,
            tags_fit(*policy, members@),
            next == policy.start + auto_count(members@.take(i as int)),
            forall|j: int|
                0 <= j < i ==> #[trigger] tags@[j] as int == resolved_tag(
                    policy.start as int,
                    members@,
                    j,
                ),
        decreases members.len() - i,
    {
        proof {
            lemma_auto_count_prefix(members@, i as int);
        }
        match members[i].explicit_tag {
            Some(t) => {
                tags.push(t);
            },
            None => {
                tags.push(next as u8);
                next = next + 1;
            },
        }
        i += 1;
    }
    tags
}

/// Members without explicit tags receive consecutive tags from `start`.
pub proof fn lemma_all_auto_consecutive(start: int, members: Seq<Member>, i: int)
    requires
        0 <= i < members.len(),
        forall|j: int| 0 <= j < members.len() ==> (#[trigger] members[j]).explicit_tag is None,
    ensures
        resolved_tag(start, members, i) == start + i,
    decreases i,
{
    lemma_auto_count_prefix(members, i);
    if i > 0 {
        lemma_all_auto_consecutive(start, members, i - 1);
        lemma_auto_count_prefix(members, i - 1);
    } else {
        assert(members.take(0).len() == 0);
    }
}

/// An explicit tag is the member's resolved tag, whatever the policy and
/// whatever the other members.
pub proof fn lemma_explicit_tag_verbatim(start: int, members: Seq<Member>, i: int, t: u8)
    requires
        0 <= i < members.len(),
        members[i].explicit_tag == Some(t),
    ensures
        resolved_tag(start, members, i) == t,
{
}

/// A member with an explicit tag does not advance the counter: the member
/// after it resolves as if the explicit one were not there.
pub proof fn lemma_override_does_not_advance(start: int, members: Seq<Member>, i: int)
    requires
        0 <= i,
        i + 1 < members.len(),
        members[i].explicit_tag is Some,
        members[i + 1].explicit_tag is None,
    ensures
        resolved_tag(start, members, i + 1) == resolved_tag(start, members.remove(i), i),
{
    lemma_auto_count_prefix(members, i);
    assert(members.remove(i).take(i) =~= members.take(i));
    assert(members.remove(i)[i] == members[i + 1]);
}

} // verus!
