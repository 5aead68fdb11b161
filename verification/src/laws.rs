//! Laws that relate encoding and decoding.

use vstd::prelude::*;
use crate::decode::{
    children_of, collect, collected, cursor_at, first_with_tag, hit, is_container_of,
    lemma_collected_stable, lemma_first_in_meaning, member_sequential, member_unordered,
    policy_decoded, sequential_decoded, unordered_decoded, variant_decoded, variant_in, FromTLV,
};
use crate::element::{ElementView, TagType, ValueView};
use crate::encode::{member_elements, present, struct_element, variant_element, ToTLV};
use crate::error::Error;
use crate::tags::{ContainerKind, OrderingMode, TagPolicy};

verus! {

/// Whether decoding gives `m` back from what `m` writes under `tag`: the
/// element carries the tag and decodes to `m`, or, where `m` writes
/// nothing, `m` is the absent default.
pub open spec fn faithful<M: ToTLV + FromTLV>(m: M, tag: TagType) -> bool {
    match m.tlv(tag) {
        Some(e) => e.tag == tag && M::decoded(e) == Ok::<M, Error>(m),
        None => M::absent() == Ok::<M, Error>(m),
    }
}

/// Whether every member is faithful under its tag.
pub open spec fn all_faithful<M: ToTLV + FromTLV>(members: Seq<M>, tags: Seq<u8>) -> bool {
    forall|i: int|
        0 <= i < members.len() ==> faithful(#[trigger] members[i], TagType::Context(tags[i]))
}

/// Whether no tag occurs twice.
pub open spec fn distinct(tags: Seq<u8>) -> bool {
    forall|i: int, j: int| 0 <= i < j < tags.len() ==> tags[i] != tags[j]
}

/// Whether what each member wrote carries that member's tag.
pub open spec fn carry_tags(written: Seq<Option<ElementView>>, tags: Seq<u8>) -> bool {
    forall|i: int|
        0 <= i < written.len() && (#[trigger] written[i]) is Some ==> written[i]->Some_0.tag
            == TagType::Context(tags[i])
}

/// What each of the members writes under its tag.
pub open spec fn writes_of<M: ToTLV>(members: Seq<M>, tags: Seq<u8>) -> Seq<Option<ElementView>> {
    Seq::new(members.len(), |j: int| members[j].tlv(TagType::Context(tags[j])))
}

/// The elements of members of one type are what those members write.
pub proof fn lemma_member_elements_present<M: ToTLV>(members: Seq<M>, tags: Seq<u8>, i: int)
    requires
        0 <= i <= members.len(),
    ensures
        member_elements(members, tags, i) == present(writes_of(members, tags), i),
    decreases i,
{
    if i > 0 {
        lemma_member_elements_present(members, tags, i - 1);
    }
}

/// The member among the first `k` whose element stands at position `p` of
/// what they wrote.
pub open spec fn owner_of(written: Seq<Option<ElementView>>, k: int, p: int) -> int
    decreases k,
{
    if k <= 0 {
        -1
    } else if p < present(written, k - 1).len() {
        owner_of(written, k - 1, p)
    } else {
        k - 1
    }
}

/// What the first `i` members wrote is the start of what the first `k`
/// wrote.
pub proof fn lemma_present_prefix(written: Seq<Option<ElementView>>, i: int, k: int)
    requires
        0 <= i <= k,
    ensures
        present(written, i).len() <= present(written, k).len(),
        forall|p: int|
            0 <= p < present(written, i).len() ==> present(written, k)[p] == present(
                written,
                i,
            )[p],
    decreases k - i,
{
    if i < k {
        lemma_present_prefix(written, i, k - 1);
    }
}

/// Every element written belongs to the member that `owner_of` names: that
/// member wrote it, at the position where the members before it ended.
pub proof fn lemma_owner(written: Seq<Option<ElementView>>, k: int, p: int)
    requires
        0 <= k,
        0 <= p < present(written, k).len(),
    ensures
        0 <= owner_of(written, k, p) < k,
        written[owner_of(written, k, p)] == Some(present(written, k)[p]),
        present(written, owner_of(written, k, p)).len() == p,
    decreases k,
{
    if k > 0 {
        if p < present(written, k - 1).len() {
            lemma_owner(written, k - 1, p);
        }
    }
}

/// A member that wrote an element wrote it where the members before it
/// ended.
pub proof fn lemma_own_position(written: Seq<Option<ElementView>>, i: int, e: ElementView)
    requires
        0 <= i < written.len(),
        written[i] == Some(e),
    ensures
        present(written, i).len() < present(written, written.len() as int).len(),
        present(written, written.len() as int)[present(written, i).len() as int] == e,
{
    lemma_present_prefix(written, i + 1, written.len() as int);
}

/// Results that are all values collect to those values.
pub proof fn lemma_collected_values<M>(results: Seq<Result<M, Error>>, values: Seq<M>, k: int)
    requires
        0 <= k <= results.len(),
        k <= values.len(),
        forall|i: int| 0 <= i < k ==> results[i] == Ok::<M, Error>(values[i]),
    ensures
        collected(results, k) == Ok::<Seq<M>, Error>(values.take(k)),
    decreases k,
{
    if k > 0 {
        lemma_collected_values(results, values, k - 1);
        assert(values.take(k - 1).push(values[k - 1]) =~= values.take(k));
    } else {
        assert(values.take(0) =~= Seq::<M>::empty());
    }
}

/// A result that is an error makes the collection an error; it is that
/// very error where every result before it is a value.
pub proof fn lemma_collected_error<M>(results: Seq<Result<M, Error>>, i: int)
    requires
        0 <= i < results.len(),
        results[i] is Err,
    ensures
        collect(results) is Err,
        (forall|j: int| 0 <= j < i ==> (#[trigger] results[j]) is Ok) ==> collect(results)
            == Err::<Seq<M>, Error>(results[i]->Err_0),
{
    lemma_collected_stable(results, i + 1, results.len() as int);
    if forall|j: int| 0 <= j < i ==> (#[trigger] results[j]) is Ok {
        lemma_collected_all_ok(results, i);
    }
}

/// Results that are all values collect to a value.
pub proof fn lemma_collected_all_ok<M>(results: Seq<Result<M, Error>>, k: int)
    requires
        0 <= k <= results.len(),
        forall|j: int| 0 <= j < k ==> (#[trigger] results[j]) is Ok,
    ensures
        collected(results, k) is Ok,
    decreases k,
{
    if k > 0 {
        lemma_collected_all_ok(results, k - 1);
    }
}

/// One step of the cursor over what the members wrote: a member that
/// wrote an element finds it at the cursor, and a member that wrote none
/// finds another member's tag there, or nothing.
pub proof fn lemma_sequential_step(written: Seq<Option<ElementView>>, tags: Seq<u8>, i: int)
    requires
        tags.len() == written.len(),
        carry_tags(written, tags),
        distinct(tags),
        0 <= i < written.len(),
    ensures
        ({
            let children = present(written, written.len() as int);
            let c = present(written, i).len() as int;
            match written[i] {
                Some(e) => hit(children, c, tags[i]) && children[c] == e,
                None => !hit(children, c, tags[i]),
            }
        }),
{
    let n = written.len() as int;
    let children = present(written, n);
    let c = present(written, i).len() as int;
    match written[i] {
        Some(e) => {
            lemma_own_position(written, i, e);
        },
        None => {
            if c < children.len() {
                lemma_owner(written, n, c);
                let j = owner_of(written, n, c);
                assert(written[j] is Some);
                assert(j != i);
                if j < i {
                    assert(tags[j] != tags[i]);
                } else {
                    assert(tags[i] != tags[j]);
                }
            }
        },
    }
}

/// Where the cursor of a sequential decode stands in the container that
/// the members wrote: after the elements of the members before.
pub proof fn lemma_sequential_cursor(written: Seq<Option<ElementView>>, tags: Seq<u8>, i: int)
    requires
        tags.len() == written.len(),
        carry_tags(written, tags),
        distinct(tags),
        0 <= i <= written.len(),
    ensures
        cursor_at(present(written, written.len() as int), tags, i) == present(written, i).len(),
    decreases i,
{
    if i > 0 {
        lemma_sequential_cursor(written, tags, i - 1);
        lemma_sequential_step(written, tags, i - 1);
    }
}

/// Sequential decoding gives each member what it wrote: member `i`, of
/// whatever type, is decoded from the element it wrote, and takes its
/// absent default where it wrote none.
pub proof fn lemma_sequential_member<A: FromTLV>(
    written: Seq<Option<ElementView>>,
    tags: Seq<u8>,
    i: int,
)
    requires
        tags.len() == written.len(),
        carry_tags(written, tags),
        distinct(tags),
        0 <= i < written.len(),
    ensures
        member_sequential::<A>(present(written, written.len() as int), tags, i) == (
        match written[i] {
            Some(e) => A::decoded(e),
            None => A::absent(),
        }),
{
    lemma_sequential_cursor(written, tags, i);
    lemma_sequential_step(written, tags, i);
}

/// Unordered decoding gives each member what it wrote: member `i`, of
/// whatever type, is decoded from the element it wrote, and takes its
/// absent default where it wrote none.
pub proof fn lemma_unordered_member<A: FromTLV>(
    written: Seq<Option<ElementView>>,
    tags: Seq<u8>,
    i: int,
)
    requires
        tags.len() == written.len(),
        carry_tags(written, tags),
        distinct(tags),
        0 <= i < written.len(),
    ensures
        member_unordered::<A>(present(written, written.len() as int), tags[i]) == (
        match written[i] {
            Some(e) => A::decoded(e),
            None => A::absent(),
        }),
{
    let n = written.len() as int;
    let children = present(written, n);
    lemma_first_in_meaning(children, tags[i], children.len() as int);
    match first_with_tag(children, tags[i]) {
        Some(q) => {
            lemma_owner(written, n, q);
            let j = owner_of(written, n, q);
            assert(written[j] is Some);
            if j < i {
                assert(tags[j] != tags[i]);
            } else if i < j {
                assert(tags[i] != tags[j]);
            }
            assert(j == i);
        },
        None => {
            if written[i] is Some {
                lemma_own_position(written, i, written[i]->Some_0);
                let c = present(written, i).len() as int;
                assert(children[c].tag == TagType::Context(tags[i]));
            }
        },
    }
}

/// Round trip of one member of a product, whatever the types of the
/// others: where the members wrote under distinct tags and member `i` is
/// the faithful value `m`, both strategies decode member `i` to `m`.
pub proof fn lemma_member_round_trip<A: ToTLV + FromTLV>(
    written: Seq<Option<ElementView>>,
    tags: Seq<u8>,
    i: int,
    m: A,
)
    requires
        tags.len() == written.len(),
        carry_tags(written, tags),
        distinct(tags),
        0 <= i < written.len(),
        written[i] == m.tlv(TagType::Context(tags[i])),
        faithful(m, TagType::Context(tags[i])),
    ensures
        member_sequential::<A>(present(written, written.len() as int), tags, i) == Ok::<
            A,
            Error,
        >(m),
        member_unordered::<A>(present(written, written.len() as int), tags[i]) == Ok::<A, Error>(
            m,
        ),
{
    lemma_sequential_member::<A>(written, tags, i);
    lemma_unordered_member::<A>(written, tags, i);
}

/// Faithful members carry their tags.
pub proof fn lemma_faithful_carry_tags<M: ToTLV + FromTLV>(members: Seq<M>, tags: Seq<u8>)
    requires
        tags.len() == members.len(),
        all_faithful(members, tags),
    ensures
        carry_tags(writes_of(members, tags), tags),
{
    let written = writes_of(members, tags);
    assert forall|i: int| 0 <= i < written.len() && (#[trigger] written[i]) is Some implies written[i]->Some_0.tag
        == TagType::Context(tags[i]) by {
        assert(faithful(members[i], TagType::Context(tags[i])));
    }
}

/// Round trip, sequential: what a product value is encoded as decodes to
/// that value, under the same kind and tags, where no tag occurs twice and
/// each member is faithful.
pub proof fn lemma_round_trip_sequential<M: ToTLV + FromTLV>(
    members: Seq<M>,
    tags: Seq<u8>,
    tag: TagType,
    kind: ContainerKind,
)
    requires
        tags.len() == members.len(),
        all_faithful(members, tags),
        distinct(tags),
    ensures
        sequential_decoded::<M>(struct_element(tag, kind, members, tags), kind, tags) == Ok::<
            Seq<M>,
            Error,
        >(members),
{
    let n = members.len() as int;
    let written = writes_of(members, tags);
    let children = member_elements(members, tags, n);
    lemma_member_elements_present(members, tags, n);
    lemma_faithful_carry_tags(members, tags);
    let results = Seq::new(tags.len(), |i: int| member_sequential::<M>(children, tags, i));
    assert forall|i: int| 0 <= i < n implies results[i] == Ok::<M, Error>(members[i]) by {
        assert(faithful(members[i], TagType::Context(tags[i])));
        lemma_sequential_member::<M>(written, tags, i);
    }
    lemma_collected_values(results, members, n);
    assert(members.take(n) =~= members);
}

/// Whether `children` holds what the members write, in any order: each
/// element that a member writes is among the children, and each child is
/// what some member writes.
pub open spec fn arrangement_of<M: ToTLV>(
    children: Seq<ElementView>,
    members: Seq<M>,
    tags: Seq<u8>,
) -> bool {
    &&& forall|i: int|
        0 <= i < members.len() && (#[trigger] members[i]).tlv(TagType::Context(tags[i])) is Some
            ==> children.contains(members[i].tlv(TagType::Context(tags[i]))->Some_0)
    &&& forall|p: int|
        0 <= p < children.len() ==> 0 <= writer_of(members, tags, #[trigger] children[p])
            < members.len() && members[writer_of(members, tags, children[p])].tlv(
            TagType::Context(tags[writer_of(members, tags, children[p])]),
        ) == Some(children[p])
}

/// A member that writes `e`, where there is one.
pub open spec fn writer_of<M: ToTLV>(members: Seq<M>, tags: Seq<u8>, e: ElementView) -> int {
    choose|i: int|
        0 <= i < members.len() && (#[trigger] members[i]).tlv(TagType::Context(tags[i])) == Some(e)
}

/// Unordered decoding tolerates reordering: from a container that holds
/// what the members write, in whatever order, it recovers the members,
/// where no tag occurs twice and each member is faithful.
pub proof fn lemma_unordered_any_order<M: ToTLV + FromTLV>(
    members: Seq<M>,
    tags: Seq<u8>,
    tag: TagType,
    kind: ContainerKind,
    children: Seq<ElementView>,
)
    requires
        tags.len() == members.len(),
        all_faithful(members, tags),
        distinct(tags),
        arrangement_of(children, members, tags),
    ensures
        unordered_decoded::<M>(
            ElementView { tag, value: ValueView::Container(kind, children) },
            tags,
        ) == Ok::<Seq<M>, Error>(members),
{
    let n = members.len() as int;
    let e = ElementView { tag, value: ValueView::Container(kind, children) };
    let results = Seq::new(tags.len(), |i: int| member_unordered::<M>(children, tags[i]));
    assert forall|i: int| 0 <= i < n implies results[i] == Ok::<M, Error>(members[i]) by {
        assert(faithful(members[i], TagType::Context(tags[i])));
        lemma_first_in_meaning(children, tags[i], children.len() as int);
        match first_with_tag(children, tags[i]) {
            Some(q) => {
                let j = writer_of(members, tags, children[q]);
                assert(faithful(members[j], TagType::Context(tags[j])));
                assert(tags[j] == tags[i]);
                if j < i {
                    assert(tags[j] != tags[i]);
                } else if i < j {
                    assert(tags[i] != tags[j]);
                }
                assert(j == i);
            },
            None => {
                if members[i].tlv(TagType::Context(tags[i])) is Some {
                    let own = members[i].tlv(TagType::Context(tags[i]))->Some_0;
                    assert(children.contains(own));
                    let p = choose|p: int| 0 <= p < children.len() && children[p] == own;
                    assert(children[p].tag == TagType::Context(tags[i]));
                }
            },
        }
    }
    lemma_collected_values(results, members, n);
    assert(members.take(n) =~= members);
}

/// What the members write, in the order written, is an arrangement of it.
pub proof fn lemma_written_order_is_arrangement<M: ToTLV>(members: Seq<M>, tags: Seq<u8>)
    requires
        tags.len() == members.len(),
    ensures
        arrangement_of(member_elements(members, tags, members.len() as int), members, tags),
{
    let n = members.len() as int;
    let written = writes_of(members, tags);
    let children = member_elements(members, tags, n);
    lemma_member_elements_present(members, tags, n);
    assert forall|i: int|
        0 <= i < members.len() && (#[trigger] members[i]).tlv(
            TagType::Context(tags[i]),
        ) is Some implies children.contains(
        members[i].tlv(TagType::Context(tags[i]))->Some_0,
    ) by {
        let e = members[i].tlv(TagType::Context(tags[i]))->Some_0;
        lemma_own_position(written, i, e);
        assert(children[present(written, i).len() as int] == e);
    }
    assert forall|p: int| 0 <= p < children.len() implies 0 <= writer_of(
        members,
        tags,
        #[trigger] children[p],
    ) < members.len() && members[writer_of(members, tags, children[p])].tlv(
        TagType::Context(tags[writer_of(members, tags, children[p])]),
    ) == Some(children[p]) by {
        lemma_owner(written, n, p);
        let j = owner_of(written, n, p);
        assert(0 <= j < members.len() && members[j].tlv(TagType::Context(tags[j])) == Some(
            children[p],
        ));
    }
}

/// Whether two runs of children hold the same elements, in whatever
/// order.
pub open spec fn same_children(a: Seq<ElementView>, b: Seq<ElementView>) -> bool {
    &&& forall|p: int| 0 <= p < a.len() ==> b.contains(#[trigger] a[p])
    &&& forall|q: int| 0 <= q < b.len() ==> a.contains(#[trigger] b[q])
}

/// Whether no two of the children carry the same tag.
pub open spec fn distinct_child_tags(children: Seq<ElementView>) -> bool {
    forall|i: int, j: int| 0 <= i < j < children.len() ==> children[i].tag != children[j].tag
}

/// What a member gets in an unordered decode does not depend on the order
/// of the children, where no two of them carry the same tag.
pub proof fn lemma_unordered_member_any_order<M: FromTLV>(
    a: Seq<ElementView>,
    b: Seq<ElementView>,
    tag: u8,
)
    requires
        same_children(a, b),
        distinct_child_tags(a),
    ensures
        member_unordered::<M>(a, tag) == member_unordered::<M>(b, tag),
{
    lemma_first_in_meaning(a, tag, a.len() as int);
    lemma_first_in_meaning(b, tag, b.len() as int);
    match first_with_tag(b, tag) {
        Some(q) => {
            assert(a.contains(b[q]));
            let p = choose|p: int| 0 <= p < a.len() && a[p] == b[q];
            assert(a[p].tag == TagType::Context(tag));
            let j = first_with_tag(a, tag)->Some_0;
            assert(first_with_tag(a, tag) is Some);
            if j < p {
                assert(a[j].tag != a[p].tag);
            } else if p < j {
                assert(a[p].tag != a[j].tag);
            }
        },
        None => {
            if first_with_tag(a, tag) is Some {
                let j = first_with_tag(a, tag)->Some_0;
                assert(b.contains(a[j]));
                let q = choose|q: int| 0 <= q < b.len() && b[q] == a[j];
                assert(b[q].tag == TagType::Context(tag));
            }
        },
    }
}

/// Unordered decoding does not depend on the order of the children: two
/// elements that hold the same children, no two of them under the same
/// tag, decode alike.
pub proof fn lemma_unordered_order_independent<M: FromTLV>(
    e1: ElementView,
    e2: ElementView,
    tags: Seq<u8>,
)
    requires
        same_children(children_of(e1), children_of(e2)),
        distinct_child_tags(children_of(e1)),
    ensures
        unordered_decoded::<M>(e1, tags) == unordered_decoded::<M>(e2, tags),
{
    let r1 = Seq::new(tags.len(), |i: int| member_unordered::<M>(children_of(e1), tags[i]));
    let r2 = Seq::new(tags.len(), |i: int| member_unordered::<M>(children_of(e2), tags[i]));
    assert forall|i: int| 0 <= i < tags.len() implies r1[i] == r2[i] by {
        lemma_unordered_member_any_order::<M>(children_of(e1), children_of(e2), tags[i]);
    }
    assert(r1 =~= r2);
}

/// Round trip: what a product value is encoded as decodes to that value
/// under the same policy and tags, whichever strategy the policy selects,
/// where no tag occurs twice and each member is faithful.
pub proof fn lemma_round_trip<M: ToTLV + FromTLV>(
    members: Seq<M>,
    tags: Seq<u8>,
    tag: TagType,
    policy: TagPolicy,
)
    requires
        tags.len() == members.len(),
        all_faithful(members, tags),
        distinct(tags),
    ensures
        policy_decoded::<M>(
            struct_element(tag, policy.container_kind, members, tags),
            policy,
            tags,
        ) == Ok::<Seq<M>, Error>(members),
{
    match policy.ordering_mode {
        OrderingMode::Sequential => {
            lemma_round_trip_sequential(members, tags, tag, policy.container_kind);
        },
        OrderingMode::Unordered => {
            lemma_written_order_is_arrangement(members, tags);
            lemma_unordered_any_order(
                members,
                tags,
                tag,
                policy.container_kind,
                member_elements(members, tags, members.len() as int),
            );
        },
    }
}

/// Sequential decoding does not look past a child whose tag it does not
/// expect: where the first child does not carry the first member's tag,
/// that member takes its absent default, the decode fails with that
/// default's error if it is one, and the cursor stays on the first child
/// for the second member.
pub proof fn lemma_sequential_first_mismatch<M: FromTLV>(
    e: ElementView,
    kind: ContainerKind,
    tags: Seq<u8>,
)
    requires
        is_container_of(e, kind),
        tags.len() >= 1,
        !hit(children_of(e), 0, tags[0]),
    ensures
        member_sequential::<M>(children_of(e), tags, 0) == M::absent(),
        cursor_at(children_of(e), tags, 1) == 0,
        M::absent() is Err ==> sequential_decoded::<M>(e, kind, tags) == Err::<Seq<M>, Error>(
            M::absent()->Err_0,
        ),
{
    let results = Seq::new(tags.len(), |i: int| member_sequential::<M>(children_of(e), tags, i));
    assert(cursor_at(children_of(e), tags, 0) == 0);
    if M::absent() is Err {
        assert(results[0] == M::absent());
        lemma_collected_error(results, 0);
    }
}

/// The cursor never passes the children, and stands on a child only after
/// as many members as children before it.
pub proof fn lemma_cursor_bounds(children: Seq<ElementView>, tags: Seq<u8>, i: int)
    requires
        0 <= i,
    ensures
        0 <= cursor_at(children, tags, i) <= i,
        cursor_at(children, tags, i) <= children.len(),
    decreases i,
{
    if i > 0 {
        lemma_cursor_bounds(children, tags, i - 1);
    }
}

/// A mandatory member that is missing fails the decode: where no child
/// carries member `i`'s tag and the member's type has no absent default,
/// both strategies fail, and with that type's absent error where every
/// member before `i` got a value.
pub proof fn lemma_missing_mandatory_fails<M: FromTLV>(
    e: ElementView,
    kind: ContainerKind,
    tags: Seq<u8>,
    i: int,
)
    requires
        0 <= i < tags.len(),
        M::absent() is Err,
        forall|p: int|
            0 <= p < children_of(e).len() ==> (#[trigger] children_of(e)[p]).tag
                != TagType::Context(tags[i]),
    ensures
        sequential_decoded::<M>(e, kind, tags) is Err,
        unordered_decoded::<M>(e, tags) is Err,
        is_container_of(e, kind) && (forall|j: int|
            0 <= j < i ==> (#[trigger] member_sequential::<M>(children_of(e), tags, j)) is Ok)
            ==> sequential_decoded::<M>(e, kind, tags) == Err::<Seq<M>, Error>(
            M::absent()->Err_0,
        ),
        (forall|j: int|
            0 <= j < i ==> (#[trigger] member_unordered::<M>(children_of(e), tags[j])) is Ok)
            ==> unordered_decoded::<M>(e, tags) == Err::<Seq<M>, Error>(M::absent()->Err_0),
{
    let children = children_of(e);
    let seq_results = Seq::new(tags.len(), |k: int| member_sequential::<M>(children, tags, k));
    let un_results = Seq::new(tags.len(), |k: int| member_unordered::<M>(children, tags[k]));
    lemma_cursor_bounds(children, tags, i);
    assert(seq_results[i] == M::absent());
    lemma_first_in_meaning(children, tags[i], children.len() as int);
    assert(un_results[i] == M::absent());
    lemma_collected_error(seq_results, i);
    lemma_collected_error(un_results, i);
    if forall|j: int|
        0 <= j < i ==> (#[trigger] member_sequential::<M>(children, tags, j)) is Ok {
        assert forall|j: int| 0 <= j < i implies (#[trigger] seq_results[j]) is Ok by {
            assert(member_sequential::<M>(children, tags, j) is Ok);
        }
    }
    if forall|j: int| 0 <= j < i ==> (#[trigger] member_unordered::<M>(children, tags[j])) is Ok {
        assert forall|j: int| 0 <= j < i implies (#[trigger] un_results[j]) is Ok by {
            assert(member_unordered::<M>(children, tags[j]) is Ok);
        }
    }
}

/// Round trip of a sum value: what the active variant is encoded as
/// decodes to its payload, with the position of the first variant that has
/// the active variant's tag, where the payload is faithful and writes an
/// element.
pub proof fn lemma_variant_round_trip<M: ToTLV + FromTLV>(
    payload: M,
    active: int,
    tags: Seq<u8>,
    tag: TagType,
)
    requires
        0 <= active < tags.len(),
        tags.len() <= usize::MAX,
        faithful(payload, TagType::Context(tags[active])),
        payload.tlv(TagType::Context(tags[active])) is Some,
    ensures
        variant_in(tags, tags[active], tags.len() as int) is Some,
        variant_decoded::<M>(variant_element(tag, payload, tags[active]), tags) == Ok::<
            (usize, M),
            Error,
        >((variant_in(tags, tags[active], tags.len() as int)->Some_0 as usize, payload)),
        distinct(tags) ==> variant_in(tags, tags[active], tags.len() as int) == Some(active),
{
    lemma_variant_in_meaning(tags, tags[active], tags.len() as int);
    let found = variant_in(tags, tags[active], tags.len() as int);
    if distinct(tags) {
        let j = found->Some_0;
        if j < active {
            assert(tags[j] != tags[active]);
        }
    }
}

/// What `variant_in` finds: the first of the first `n` tags that equals
/// `tag`; and it finds none only where none of them does.
pub proof fn lemma_variant_in_meaning(tags: Seq<u8>, tag: u8, n: int)
    requires
        0 <= n <= tags.len(),
    ensures
        match variant_in(tags, tag, n) {
            Some(j) => 0 <= j < n && tags[j] == tag && forall|q: int|
                0 <= q < j ==> tags[q] != tag,
            None => forall|q: int| 0 <= q < n ==> tags[q] != tag,
        },
    decreases n,
{
    if n > 0 {
        lemma_variant_in_meaning(tags, tag, n - 1);
    }
}

/// The unsigned scalars and the booleans are faithful.
pub proof fn lemma_scalars_faithful(a: u8, b: u16, c: u32, d: u64, f: bool, tag: TagType)
    ensures
        faithful(a, tag),
        faithful(b, tag),
        faithful(c, tag),
        faithful(d, tag),
        faithful(f, tag),
{
}

/// An optional value is faithful where what it holds is.
pub proof fn lemma_option_faithful<T: ToTLV + FromTLV>(m: Option<T>, tag: TagType)
    requires
        m is Some ==> faithful(m->Some_0, tag) && m->Some_0.tlv(tag) is Some,
    ensures
        faithful(m, tag),
{
}

} // verus!
