//! Transactional encoding of product and sum types: a container is written
//! whole, or the writer is left as it was.

use vstd::prelude::*;
use crate::element::{ElementView, TagType, ValueView};
use crate::error::{Error, ErrorCode};
use crate::tags::{ContainerKind, TagPolicy};
use crate::writer::{
    lemma_extends_self, lemma_extends_step, lemma_extends_trans, lemma_rewind_restores, Anchor,
    TLVWriter, WriterView,
};

verus! {

/// `Ok` where there is no error, else the error.
pub open spec fn outcome(error: Option<Error>) -> Result<(), Error> {
    match error {
        Some(e) => Err(e),
        None => Ok(()),
    }
}

/// A value that can write itself to a writer under a tag.
pub trait ToTLV {
    /// The element this value is written as under `tag`; `None` where it
    /// writes nothing at all.
    spec fn tlv(&self, tag: TagType) -> Option<ElementView>;

    /// The units of the writer's budget that writing this value takes.
    spec fn cost(&self) -> nat;

    /// The error with which writing this value to `w` fails; `None` where
    /// it succeeds.
    spec fn encode_error(&self, w: WriterView, tag: TagType) -> Option<Error>;

    /// Writes the value under `tag`. On failure the writer may hold part
    /// of the value, but nothing that was there before is lost or changed,
    /// so that a rewind to an earlier checkpoint undoes the attempt.
    fn to_tlv(&self, tw: &mut TLVWriter, tag: TagType) -> (r: Result<(), Error>)
        requires
            old(tw).wf(),
        ensures
            final(tw).wf(),
            r == outcome(self.encode_error(old(tw)@, tag)),
            r is Ok ==> final(tw)@ == old(tw)@.wrote(self.tlv(tag), self.cost()),
            r is Err ==> final(tw)@.extends(old(tw)@),
    ;
}

/// The error of a value that is written as one scalar element.
pub open spec fn scalar_error(w: WriterView) -> Option<Error> {
    if w.used >= w.capacity {
        Some(Error { code: ErrorCode::NoSpace })
    } else {
        None
    }
}

/// An unsigned scalar under `tag`.
pub open spec fn unsigned_element(tag: TagType, value: u64) -> ElementView {
    ElementView { tag, value: ValueView::Unsigned(value) }
}

impl ToTLV for u8 {
    open spec fn tlv(&self, tag: TagType) -> Option<ElementView> {
        Some(unsigned_element(tag, *self as u64))
    }

    open spec fn cost(&self) -> nat {
        1
    }

    open spec fn encode_error(&self, w: WriterView, tag: TagType) -> Option<Error> {
        scalar_error(w)
    }

    fn to_tlv(&self, tw: &mut TLVWriter, tag: TagType) -> (r: Result<(), Error>) {
        proof {
            lemma_extends_self(tw@);
        }
        tw.put_unsigned(tag, *self as u64)
    }
}

impl ToTLV for u16 {
    open spec fn tlv(&self, tag: TagType) -> Option<ElementView> {
        Some(unsigned_element(tag, *self as u64))
    }

    open spec fn cost(&self) -> nat {
        1
    }

    open spec fn encode_error(&self, w: WriterView, tag: TagType) -> Option<Error> {
        scalar_error(w)
    }

    fn to_tlv(&self, tw: &mut TLVWriter, tag: TagType) -> (r: Result<(), Error>) {
        proof {
            lemma_extends_self(tw@);
        }
        tw.put_unsigned(tag, *self as u64)
    }
}

impl ToTLV for u32 {
    open spec fn tlv(&self, tag: TagType) -> Option<ElementView> {
        Some(unsigned_element(tag, *self as u64))
    }

    open spec fn cost(&self) -> nat {
        1
    }

    open spec fn encode_error(&self, w: WriterView, tag: TagType) -> Option<Error> {
        scalar_error(w)
    }

    fn to_tlv(&self, tw: &mut TLVWriter, tag: TagType) -> (r: Result<(), Error>) {
        proof {
            lemma_extends_self(tw@);
        }
        tw.put_unsigned(tag, *self as u64)
    }
}

impl ToTLV for u64 {
    open spec fn tlv(&self, tag: TagType) -> Option<ElementView> {
        Some(unsigned_element(tag, *self))
    }

    open spec fn cost(&self) -> nat {
        1
    }

    open spec fn encode_error(&self, w: WriterView, tag: TagType) -> Option<Error> {
        scalar_error(w)
    }

    fn to_tlv(&self, tw: &mut TLVWriter, tag: TagType) -> (r: Result<(), Error>) {
        proof {
            lemma_extends_self(tw@);
        }
        tw.put_unsigned(tag, *self)
    }
}

impl ToTLV for bool {
    open spec fn tlv(&self, tag: TagType) -> Option<ElementView> {
        Some(ElementView { tag, value: ValueView::Bool(*self) })
    }

    open spec fn cost(&self) -> nat {
        1
    }

    open spec fn encode_error(&self, w: WriterView, tag: TagType) -> Option<Error> {
        scalar_error(w)
    }

    fn to_tlv(&self, tw: &mut TLVWriter, tag: TagType) -> (r: Result<(), Error>) {
        proof {
            lemma_extends_self(tw@);
        }
        tw.put_bool(tag, *self)
    }
}

/// An optional value writes what it holds, and nothing where it holds none.
impl<T: ToTLV> ToTLV for Option<T> {
    open spec fn tlv(&self, tag: TagType) -> Option<ElementView> {
        match self {
            Some(v) => v.tlv(tag),
            None => None,
        }
    }

    open spec fn cost(&self) -> nat {
        match self {
            Some(v) => v.cost(),
            None => 0,
        }
    }

    open spec fn encode_error(&self, w: WriterView, tag: TagType) -> Option<Error> {
        match self {
            Some(v) => v.encode_error(w, tag),
            None => None,
        }
    }

    fn to_tlv(&self, tw: &mut TLVWriter, tag: TagType) -> (r: Result<(), Error>) {
        match self {
            Some(v) => v.to_tlv(tw, tag),
            None => Ok(()),
        }
    }
}

/// The writer after the first `i` members were written to `w`, each under
/// its context tag.
pub open spec fn after_members<M: ToTLV>(
    w: WriterView,
    members: Seq<M>,
    tags: Seq<u8>,
    i: int,
) -> WriterView
    decreases i,
{
    if i <= 0 {
        w
    } else {
        after_members(w, members, tags, i - 1).wrote(
            members[i - 1].tlv(TagType::Context(tags[i - 1])),
            members[i - 1].cost(),
        )
    }
}

/// The error of the first of the first `i` members that fails when they
/// are written in order to `w`; `None` where all of them succeed.
pub open spec fn members_error<M: ToTLV>(
    w: WriterView,
    members: Seq<M>,
    tags: Seq<u8>,
    i: int,
) -> Option<Error>
    decreases i,
{
    if i <= 0 {
        None
    } else {
        match members_error(w, members, tags, i - 1) {
            Some(e) => Some(e),
            None => members[i - 1].encode_error(
                after_members(w, members, tags, i - 1),
                TagType::Context(tags[i - 1]),
            ),
        }
    }
}

/// The elements that the first `i` members are written as, in order.
pub open spec fn member_elements<M: ToTLV>(members: Seq<M>, tags: Seq<u8>, i: int) -> Seq<
    ElementView,
>
    decreases i,
{
    if i <= 0 {
        Seq::empty()
    } else {
        match members[i - 1].tlv(TagType::Context(tags[i - 1])) {
            Some(e) => member_elements(members, tags, i - 1).push(e),
            None => member_elements(members, tags, i - 1),
        }
    }
}

/// The budget that the first `i` members take together.
pub open spec fn members_cost<M: ToTLV>(members: Seq<M>, i: int) -> nat
    decreases i,
{
    if i <= 0 {
        0
    } else {
        members_cost(members, i - 1) + members[i - 1].cost()
    }
}

/// The container that a product value is written as.
pub open spec fn struct_element<M: ToTLV>(
    tag: TagType,
    kind: ContainerKind,
    members: Seq<M>,
    tags: Seq<u8>,
) -> ElementView {
    ElementView {
        tag,
        value: ValueView::Container(kind, member_elements(members, tags, members.len() as int)),
    }
}

/// The error with which encoding a product value to `w` fails: that of
/// opening the container, else that of the first member that fails.
pub open spec fn struct_encode_error<M: ToTLV>(
    w: WriterView,
    members: Seq<M>,
    tags: Seq<u8>,
    tag: TagType,
    kind: ContainerKind,
) -> Option<Error> {
    if w.used >= w.capacity {
        Some(Error { code: ErrorCode::NoSpace })
    } else {
        members_error(w.started(tag, kind), members, tags, members.len() as int)
    }
}

/// The writer with `elements` appended to the innermost frame at `cost`.
pub open spec fn wrote_all(w: WriterView, elements: Seq<ElementView>, cost: nat) -> WriterView {
    let top = w.frames.last();
    WriterView {
        frames: w.frames.update(
            w.frames.len() - 1,
            crate::writer::FrameView { children: top.children + elements, ..top },
        ),
        used: w.used + cost,
        capacity: w.capacity,
    }
}

/// Writing members one by one appends their elements and adds their costs.
pub proof fn lemma_after_members<M: ToTLV>(w: WriterView, members: Seq<M>, tags: Seq<u8>, i: int)
    requires
        w.frames.len() >= 1,
        0 <= i,
    ensures
        after_members(w, members, tags, i) == wrote_all(
            w,
            member_elements(members, tags, i),
            members_cost(members, i),
        ),
    decreases i,
{
    let top = w.frames.last();
    if i > 0 {
        lemma_after_members(w, members, tags, i - 1);
        let prev = after_members(w, members, tags, i - 1);
        let next = after_members(w, members, tags, i);
        let target = wrote_all(w, member_elements(members, tags, i), members_cost(members, i));
        assert(next.frames =~= target.frames) by {
            match members[i - 1].tlv(TagType::Context(tags[i - 1])) {
                Some(e) => {
                    assert((top.children + member_elements(members, tags, i - 1)).push(e)
                        =~= top.children + member_elements(members, tags, i));
                },
                None => {},
            }
        }
    } else {
        assert(top.children + Seq::<ElementView>::empty() =~= top.children);
        assert(wrote_all(w, Seq::empty(), 0).frames =~= w.frames);
    }
}

/// Opening a container, appending to it and closing it amounts to writing
/// one container element.
pub proof fn lemma_container_closed(
    w: WriterView,
    tag: TagType,
    kind: ContainerKind,
    elements: Seq<ElementView>,
    cost: nat,
)
    requires
        w.frames.len() >= 1,
    ensures
        wrote_all(w.started(tag, kind), elements, cost).ended() == w.wrote(
            Some(ElementView { tag, value: ValueView::Container(kind, elements) }),
            1 + cost,
        ),
{
    let inner = wrote_all(w.started(tag, kind), elements, cost);
    assert(Seq::<ElementView>::empty() + elements =~= elements);
    assert(inner.frames.drop_last() =~= w.frames);
    assert(inner.ended().frames =~= w.wrote(
        Some(ElementView { tag, value: ValueView::Container(kind, elements) }),
        1 + cost,
    ).frames);
}

/// The elements that the first `i` of a product's members wrote, given
/// what each member wrote: an element, or nothing. The members may be of
/// different types.
pub open spec fn present(written: Seq<Option<ElementView>>, i: int) -> Seq<ElementView>
    decreases i,
{
    if i <= 0 {
        Seq::empty()
    } else {
        match written[i - 1] {
            Some(e) => present(written, i - 1).push(e),
            None => present(written, i - 1),
        }
    }
}

/// The budget that the first `i` members took together.
pub open spec fn total_cost(costs: Seq<nat>, i: int) -> nat
    decreases i,
{
    if i <= 0 {
        0
    } else {
        total_cost(costs, i - 1) + costs[i - 1]
    }
}

/// The writer after the first `i` members wrote what `written` says, each
/// at its cost.
pub open spec fn after_writes(
    w: WriterView,
    written: Seq<Option<ElementView>>,
    costs: Seq<nat>,
    i: int,
) -> WriterView
    decreases i,
{
    if i <= 0 {
        w
    } else {
        after_writes(w, written, costs, i - 1).wrote(written[i - 1], costs[i - 1])
    }
}

/// Members that write one after the other append what they wrote and add
/// their costs, whatever their types.
pub proof fn lemma_after_writes(
    w: WriterView,
    written: Seq<Option<ElementView>>,
    costs: Seq<nat>,
    i: int,
)
    requires
        w.frames.len() >= 1,
        0 <= i,
    ensures
        after_writes(w, written, costs, i) == wrote_all(
            w,
            present(written, i),
            total_cost(costs, i),
        ),
    decreases i,
{
    let top = w.frames.last();
    if i > 0 {
        lemma_after_writes(w, written, costs, i - 1);
        let next = after_writes(w, written, costs, i);
        let target = wrote_all(w, present(written, i), total_cost(costs, i));
        assert(next.frames =~= target.frames) by {
            match written[i - 1] {
                Some(e) => {
                    assert((top.children + present(written, i - 1)).push(e) =~= top.children
                        + present(written, i));
                },
                None => {},
            }
        }
    } else {
        assert(top.children + Seq::<ElementView>::empty() =~= top.children);
        assert(wrote_all(w, Seq::empty(), 0).frames =~= w.frames);
    }
}

/// What the steps of a product's encoding leave in the writer where all
/// of them succeed: opening the container, the members' writes in order
/// and the close amount to one container element holding what the members
/// wrote, whatever their types.
pub proof fn lemma_product_written(
    w: WriterView,
    tag: TagType,
    kind: ContainerKind,
    written: Seq<Option<ElementView>>,
    costs: Seq<nat>,
)
    requires
        w.frames.len() >= 1,
    ensures
        after_writes(w.started(tag, kind), written, costs, written.len() as int).ended()
            == w.wrote(
            Some(
                ElementView {
                    tag,
                    value: ValueView::Container(kind, present(written, written.len() as int)),
                },
            ),
            1 + total_cost(costs, written.len() as int),
        ),
{
    let n = written.len() as int;
    lemma_after_writes(w.started(tag, kind), written, costs, n);
    lemma_container_closed(w, tag, kind, present(written, n), total_cost(costs, n));
}

/// Where a step of a product's encoding fails, the rewind to the
/// checkpoint taken before the container was opened leaves the writer as
/// it was then, whatever the members' types: `mid` is the writer before
/// the failing step, which the steps before it extended from `base`, and
/// `w` is what the failing step left.
pub proof fn lemma_failed_product_undone(
    base: WriterView,
    w: WriterView,
    mid: WriterView,
    anchor: Anchor,
)
    requires
        anchor.depth == base.frames.len(),
        anchor.count == base.frames.last().children.len(),
        anchor.used == base.used,
        mid.extends(base),
        w.extends(mid),
    ensures
        w.rewound(anchor) == base,
{
    lemma_extends_trans(w, mid, base);
    lemma_rewind_restores(w, base, anchor);
}

/// Once a member has failed, the error stays that member's error however
/// many members follow.
pub proof fn lemma_members_error_stable<M: ToTLV>(
    w: WriterView,
    members: Seq<M>,
    tags: Seq<u8>,
    k: int,
    n: int,
    e: Error,
)
    requires
        0 <= k <= n,
        members_error(w, members, tags, k) == Some(e),
    ensures
        members_error(w, members, tags, n) == Some(e),
    decreases n - k,
{
    if k < n {
        lemma_members_error_stable(w, members, tags, k, n - 1, e);
    }
}

/// Opens the container and writes the members in order, stopping at the
/// first failure with whatever was written by then. The container is left
/// open.
fn write_container<M: ToTLV>(
    members: &Vec<M>,
    tags: &Vec<u8>,
    tag: TagType,
    kind: ContainerKind,
    tw: &mut TLVWriter,
) -> (r: Result<(), Error>)
    requires
        old(tw).wf(),
        tags@.len() == members@.len(),
    ensures
        final(tw).wf(),
        final(tw)@.extends(old(tw)@),
        r == outcome(struct_encode_error(old(tw)@, members@, tags@, tag, kind)),
        r is Ok ==> final(tw)@ == wrote_all(
            old(tw)@.started(tag, kind),
            member_elements(members@, tags@, members@.len() as int),
            members_cost(members@, members@.len() as int),
        ),
{
    let ghost w0 = tw@;
    proof {
        lemma_extends_self(w0);
        lemma_extends_step(w0, w0, tag, kind, None, 0);
    }
    match tw.start_container(tag, kind) {
        Err(e) => {
            return Err(e);
        },
        Ok(()) => {},
    }
    let ghost w1 = tw@;
    let mut i: usize = 0;
    while i < members.len()
        invariant
            i <= members.len(),
            tags@.len() == members@.len(),
            tw.wf(),
            w0 == old(tw)@,
            w1 == w0.started(tag, kind),
            w0.frames.len() >= 1,
            w0.used < w0.capacity,
            tw@ == after_members(w1, members@, tags@, i as int),
            members_error(w1, members@, tags@, i as int) is None,
            tw@.extends(w0),
            tw@.frames.len() == w0.frames.len() + 1,
        decreases members.len() - i,
    {
        let ghost wi = tw@;
        proof {
            lemma_extends_step(
                wi,
                w0,
                tag,
                kind,
                members@[i as int].tlv(TagType::Context(tags@[i as int])),
                members@[i as int].cost(),
            );
        }
        match members[i].to_tlv(tw, TagType::Context(tags[i])) {
            Err(e) => {
                proof {
                    lemma_members_error_stable(
                        w1,
                        members@,
                        tags@,
                        i + 1,
                        members@.len() as int,
                        e,
                    );
                    lemma_extends_trans(tw@, wi, w0);
                }
                return Err(e);
            },
            Ok(()) => {},
        }
        i += 1;
    }
    proof {
        lemma_after_members(w1, members@, tags@, members@.len() as int);
    }
    Ok(())
}

/// Ends a container's transaction. Where the body succeeded, the innermost
/// open container is closed. Where the body failed, or nothing is open to
/// close, the writer is rewound to the checkpoint, and the error returned
/// is the body's, or `Invalid` for the close.
pub fn conclude(tw: &mut TLVWriter, anchor: Anchor, body: Result<(), Error>) -> (r: Result<
    (),
    Error,
>)
    requires
        old(tw).wf(),
    ensures
        final(tw).wf(),
        r == (match body {
            Err(e) => Err::<(), Error>(e),
            Ok(()) => if old(tw)@.frames.len() >= 2 {
                Ok::<(), Error>(())
            } else {
                Err(Error { code: ErrorCode::Invalid })
            },
        }),
        r is Ok ==> final(tw)@ == old(tw)@.ended(),
        r is Err ==> final(tw)@ == old(tw)@.rewound(anchor),
{
    let closed = match body {
        Ok(()) => tw.end_container(),
        Err(e) => Err(e),
    };
    match closed {
        Ok(()) => Ok(()),
        Err(e) => {
            tw.rewind_to(anchor);
            Err(e)
        },
    }
}

/// Encodes a product value: a container of the policy's kind under `tag`,
/// holding the members in declaration order, each under its context tag.
///
/// The write is atomic. If opening the container or any member fails, the
/// writer is rewound to where it stood before the call, and the error
/// returned is the one that the failing step gave.
pub fn encode_struct<M: ToTLV>(
    members: &Vec<M>,
    tags: &Vec<u8>,
    tag: TagType,
    policy: &TagPolicy,
    tw: &mut TLVWriter,
) -> (r: Result<(), Error>)
    requires
        old(tw).wf(),
        tags@.len() == members@.len(),
    ensures
        final(tw).wf(),
        r == outcome(
            struct_encode_error(old(tw)@, members@, tags@, tag, policy.container_kind),
        ),
        r is Ok ==> final(tw)@ == old(tw)@.wrote(
            Some(struct_element(tag, policy.container_kind, members@, tags@)),
            1 + members_cost(members@, members@.len() as int),
        ),
        r is Err ==> final(tw)@ == old(tw)@,
{
    let anchor = tw.get_tail();
    let body = write_container(members, tags, tag, policy.container_kind, tw);
    proof {
        lemma_rewind_restores(tw@, old(tw)@, anchor);
        lemma_container_closed(
            old(tw)@,
            tag,
            policy.container_kind,
            member_elements(members@, tags@, members@.len() as int),
            members_cost(members@, members@.len() as int),
        );
    }
    conclude(tw, anchor, body)
}

/// A product value together with the tags and the policy it is written
/// under, so that it can stand as a member of another value.
pub struct Record<M> {
    pub members: Vec<M>,
    pub tags: Vec<u8>,
    pub policy: TagPolicy,
}

/// A record writes itself as the container of its members. One whose tags
/// do not match its members in number is refused as `Invalid`.
impl<M: ToTLV> ToTLV for Record<M> {
    open spec fn tlv(&self, tag: TagType) -> Option<ElementView> {
        Some(struct_element(tag, self.policy.container_kind, self.members@, self.tags@))
    }

    open spec fn cost(&self) -> nat {
        1 + members_cost(self.members@, self.members@.len() as int)
    }

    open spec fn encode_error(&self, w: WriterView, tag: TagType) -> Option<Error> {
        if self.tags@.len() != self.members@.len() {
            Some(Error { code: ErrorCode::Invalid })
        } else {
            struct_encode_error(w, self.members@, self.tags@, tag, self.policy.container_kind)
        }
    }

    fn to_tlv(&self, tw: &mut TLVWriter, tag: TagType) -> (r: Result<(), Error>) {
        proof {
            lemma_extends_self(tw@);
        }
        if self.tags.len() != self.members.len() {
            return Err(Error::new(ErrorCode::Invalid));
        }
        encode_struct(&self.members, &self.tags, tag, &self.policy, tw)
    }
}

/// The container that a sum value is written as: a struct with the active
/// variant's payload as its one child, under the variant's tag.
pub open spec fn variant_element<M: ToTLV>(tag: TagType, payload: M, variant_tag: u8) -> ElementView {
    ElementView {
        tag,
        value: ValueView::Container(
            ContainerKind::Struct,
            variant_children(payload, variant_tag),
        ),
    }
}

/// The error with which encoding a sum value to `w` fails: that of opening
/// the container, else that of the payload.
pub open spec fn variant_encode_error<M: ToTLV>(
    w: WriterView,
    payload: M,
    variant_tag: u8,
    tag: TagType,
) -> Option<Error> {
    if w.used >= w.capacity {
        Some(Error { code: ErrorCode::NoSpace })
    } else {
        payload.encode_error(w.started(tag, ContainerKind::Struct), TagType::Context(variant_tag))
    }
}

/// The children of the container that a sum value is written as.
pub open spec fn variant_children<M: ToTLV>(payload: M, variant_tag: u8) -> Seq<ElementView> {
    match payload.tlv(TagType::Context(variant_tag)) {
        Some(e) => seq![e],
        None => Seq::empty(),
    }
}

/// Opens the struct and writes the payload, stopping at the first failure.
/// The struct is left open.
fn write_variant<M: ToTLV>(payload: &M, variant_tag: u8, tag: TagType, tw: &mut TLVWriter) -> (r:
    Result<(), Error>)
    requires
        old(tw).wf(),
    ensures
        final(tw).wf(),
        final(tw)@.extends(old(tw)@),
        r == outcome(variant_encode_error(old(tw)@, *payload, variant_tag, tag)),
        r is Ok ==> final(tw)@ == wrote_all(
            old(tw)@.started(tag, ContainerKind::Struct),
            variant_children(*payload, variant_tag),
            payload.cost(),
        ),
{
    let ghost w0 = tw@;
    let ghost written = payload.tlv(TagType::Context(variant_tag));
    proof {
        lemma_extends_self(w0);
        lemma_extends_step(w0, w0, tag, ContainerKind::Struct, None, 0);
    }
    match tw.start_struct(tag) {
        Err(e) => {
            return Err(e);
        },
        Ok(()) => {},
    }
    let ghost w1 = tw@;
    proof {
        lemma_extends_step(w1, w0, tag, ContainerKind::Struct, written, payload.cost());
    }
    match payload.to_tlv(tw, TagType::Context(variant_tag)) {
        Err(e) => {
            proof {
                lemma_extends_trans(tw@, w1, w0);
            }
            return Err(e);
        },
        Ok(()) => {},
    }
    proof {
        let elements = variant_children(*payload, variant_tag);
        assert(tw@.frames =~= wrote_all(w1, elements, payload.cost()).frames) by {
            let top = w1.frames.last();
            assert(top.children + elements =~= (match written {
                Some(e) => top.children.push(e),
                None => top.children,
            }));
        }
    }
    Ok(())
}

/// Encodes a sum value: a struct container under `tag` whose one child is
/// the active variant's payload under that variant's tag, `tags[active]`.
/// The write is atomic, as for a product value.
pub fn encode_variant<M: ToTLV>(
    payload: &M,
    active: usize,
    tags: &Vec<u8>,
    tag: TagType,
    tw: &mut TLVWriter,
) -> (r: Result<(), Error>)
    requires
        old(tw).wf(),
        active < tags@.len(),
    ensures
        final(tw).wf(),
        r == outcome(variant_encode_error(old(tw)@, *payload, tags@[active as int], tag)),
        r is Ok ==> final(tw)@ == old(tw)@.wrote(
            Some(variant_element(tag, *payload, tags@[active as int])),
            1 + payload.cost(),
        ),
        r is Err ==> final(tw)@ == old(tw)@,
{
    let anchor = tw.get_tail();
    let body = write_variant(payload, tags[active], tag, tw);
    proof {
        lemma_rewind_restores(tw@, old(tw)@, anchor);
        lemma_container_closed(
            old(tw)@,
            tag,
            ContainerKind::Struct,
            variant_children(*payload, tags@[active as int]),
            payload.cost(),
        );
    }
    conclude(tw, anchor, body)
}

/// Where the container opens and the members before `k` succeed, an error
/// of member `k` is the error of the whole encoding.
pub proof fn lemma_member_failure_propagates<M: ToTLV>(
    w: WriterView,
    members: Seq<M>,
    tags: Seq<u8>,
    tag: TagType,
    kind: ContainerKind,
    k: int,
    e: Error,
)
    requires
        0 <= k < members.len(),
        w.used < w.capacity,
        members_error(w.started(tag, kind), members, tags, k) is None,
        members[k].encode_error(
            after_members(w.started(tag, kind), members, tags, k),
            TagType::Context(tags[k]),
        ) == Some(e),
    ensures
        struct_encode_error(w, members, tags, tag, kind) == Some(e),
{
    lemma_members_error_stable(
        w.started(tag, kind),
        members,
        tags,
        k + 1,
        members.len() as int,
        e,
    );
}

} // verus!
