//! Decoding of product and sum types from an element: the sequential and
//! the unordered strategy, and the variant decoder.

use vstd::prelude::*;
use crate::element::{ElementValue, ElementView, TLVElement, TagType, ValueView, views};
use crate::error::{Error, ErrorCode};
use crate::tags::{ContainerKind, OrderingMode, TagPolicy};

verus! {

/// A value that can be built from an element, or from its absence.
pub trait FromTLV: Sized {
    /// What an element decodes to.
    spec fn decoded(e: ElementView) -> Result<Self, Error>;

    /// The value of a member for which no element was found; an error for
    /// a type that has no such default.
    spec fn absent() -> Result<Self, Error>;

    /// Builds the value from an element.
    fn from_tlv(t: &TLVElement) -> (r: Result<Self, Error>)
        ensures
            r == Self::decoded(t@),
    ;

    /// The value to use where no element carries the member's tag.
    fn tlv_not_found() -> (r: Result<Self, Error>)
        ensures
            r == Self::absent(),
    ;
}

/// The unsigned scalar that an element holds, if it holds one no greater
/// than `max`.
pub open spec fn unsigned_within(e: ElementView, max: u64) -> Result<u64, Error> {
    match e.value {
        ValueView::Unsigned(v) => if v <= max {
            Ok(v)
        } else {
            Err(Error { code: ErrorCode::TLVTypeMismatch })
        },
        _ => Err(Error { code: ErrorCode::TLVTypeMismatch }),
    }
}

impl TLVElement {
    /// The tag of this element.
    pub fn get_tag(&self) -> (tag: TagType)
        ensures
            tag == self@.tag,
    {
        self.tag
    }

    /// Whether this element carries the context tag `tag`.
    pub fn check_ctx_tag(&self, tag: u8) -> (b: bool)
        ensures
            b == (self@.tag == TagType::Context(tag)),
    {
        match self.tag {
            TagType::Context(t) => t == tag,
            TagType::Anonymous => false,
        }
    }

    /// The unsigned scalar this element holds, if it holds one no greater
    /// than `max`; `TLVTypeMismatch` otherwise.
    pub fn unsigned(&self, max: u64) -> (r: Result<u64, Error>)
        ensures
            r == unsigned_within(self@, max),
    {
        match &self.value {
            ElementValue::Unsigned(v) => {
                if *v <= max {
                    Ok(*v)
                } else {
                    Err(Error::new(ErrorCode::TLVTypeMismatch))
                }
            },
            _ => Err(Error::new(ErrorCode::TLVTypeMismatch)),
        }
    }

    /// The children of this element if it is a container of the given
    /// kind; `Invalid` otherwise.
    pub fn confirm(&self, kind: ContainerKind) -> (r: Result<&Vec<TLVElement>, Error>)
        ensures
            match r {
                Ok(children) => self@.value == ValueView::Container(kind, views(children@)),
                Err(e) => e.code == ErrorCode::Invalid && !is_container_of(self@, kind),
            },
    {
        match &self.value {
            ElementValue::Container(k, children) => {
                let same = match (k, kind) {
                    (ContainerKind::Struct, ContainerKind::Struct) => true,
                    (ContainerKind::List, ContainerKind::List) => true,
                    _ => false,
                };
                if same {
                    Ok(children)
                } else {
                    Err(Error::new(ErrorCode::Invalid))
                }
            },
            _ => Err(Error::new(ErrorCode::Invalid)),
        }
    }

    /// The children of this element if it is a struct.
    pub fn confirm_struct(&self) -> (r: Result<&Vec<TLVElement>, Error>)
        ensures
            match r {
                Ok(children) => self@.value == ValueView::Container(
                    ContainerKind::Struct,
                    views(children@),
                ),
                Err(e) => e.code == ErrorCode::Invalid && !is_container_of(
                    self@,
                    ContainerKind::Struct,
                ),
            },
    {
        self.confirm(ContainerKind::Struct)
    }

    /// The children of this element if it is a list.
    pub fn confirm_list(&self) -> (r: Result<&Vec<TLVElement>, Error>)
        ensures
            match r {
                Ok(children) => self@.value == ValueView::Container(
                    ContainerKind::List,
                    views(children@),
                ),
                Err(e) => e.code == ErrorCode::Invalid && !is_container_of(
                    self@,
                    ContainerKind::List,
                ),
            },
    {
        self.confirm(ContainerKind::List)
    }

    /// The first child that carries the context tag `tag`, if this element
    /// is a container and has such a child.
    pub fn find_tag(&self, tag: u8) -> (r: Option<&TLVElement>)
        ensures
            match r {
                Some(child) => first_with_tag(children_of(self@), tag) is Some && child@
                    == children_of(self@)[first_with_tag(children_of(self@), tag).unwrap()],
                None => first_with_tag(children_of(self@), tag) is None,
            },
    {
        match &self.value {
            ElementValue::Container(_, children) => {
                let mut i: usize = 0;
                while i < children.len()
                    invariant
                        i <= children.len(),
                        children_of(self@) == views(children@),
                        first_in(views(children@), tag, i as int) is None,
                    decreases children.len() - i,
                {
                    if children[i].check_ctx_tag(tag) {
                        proof {
                            lemma_first_in_stable(
                                views(children@),
                                tag,
                                i + 1,
                                children@.len() as int,
                            );
                        }
                        return Some(&children[i]);
                    }
                    i += 1;
                }
                None
            },
            _ => None,
        }
    }
}

/// Whether an element is a container of the given kind.
pub open spec fn is_container_of(e: ElementView, kind: ContainerKind) -> bool {
    match e.value {
        ValueView::Container(k, _) => k == kind,
        _ => false,
    }
}

/// The children of a container; none for any other element.
pub open spec fn children_of(e: ElementView) -> Seq<ElementView> {
    match e.value {
        ValueView::Container(_, children) => children,
        _ => Seq::empty(),
    }
}

/// The position of the first of the first `n` children that carries the
/// context tag `tag`.
pub open spec fn first_in(children: Seq<ElementView>, tag: u8, n: int) -> Option<int>
    decreases n,
{
    if n <= 0 {
        None
    } else {
        match first_in(children, tag, n - 1) {
            Some(j) => Some(j),
            None => if children[n - 1].tag == TagType::Context(tag) {
                Some(n - 1)
            } else {
                None
            },
        }
    }
}

/// The position of the first child that carries the context tag `tag`.
pub open spec fn first_with_tag(children: Seq<ElementView>, tag: u8) -> Option<int> {
    first_in(children, tag, children.len() as int)
}

/// A first position, once found, stays the first however far one looks.
pub proof fn lemma_first_in_stable(children: Seq<ElementView>, tag: u8, k: int, n: int)
    requires
        0 <= k <= n,
        first_in(children, tag, k) is Some,
    ensures
        first_in(children, tag, n) == first_in(children, tag, k),
    decreases n - k,
{
    if k < n {
        lemma_first_in_stable(children, tag, k, n - 1);
    }
}

/// What `first_in` finds: a child with the tag, before which none has it;
/// and it finds none only where none of the children has it.
pub proof fn lemma_first_in_meaning(children: Seq<ElementView>, tag: u8, n: int)
    requires
        0 <= n <= children.len(),
    ensures
        match first_in(children, tag, n) {
            Some(j) => 0 <= j < n && children[j].tag == TagType::Context(tag) && forall|q: int|
                0 <= q < j ==> (#[trigger] children[q]).tag != TagType::Context(tag),
            None => forall|q: int|
                0 <= q < n ==> (#[trigger] children[q]).tag != TagType::Context(tag),
        },
    decreases n,
{
    if n > 0 {
        lemma_first_in_meaning(children, tag, n - 1);
    }
}

/// The values of the first `n` results, or the first error among them.
pub open spec fn collected<M>(results: Seq<Result<M, Error>>, n: int) -> Result<Seq<M>, Error>
    decreases n,
{
    if n <= 0 {
        Ok(Seq::empty())
    } else {
        match collected(results, n - 1) {
            Err(e) => Err(e),
            Ok(values) => match results[n - 1] {
                Ok(m) => Ok(values.push(m)),
                Err(e) => Err(e),
            },
        }
    }
}

/// The values of all results, or the first error among them.
pub open spec fn collect<M>(results: Seq<Result<M, Error>>) -> Result<Seq<M>, Error> {
    collected(results, results.len() as int)
}

/// The first error stays the first error however many results follow.
pub proof fn lemma_collected_stable<M>(results: Seq<Result<M, Error>>, k: int, n: int)
    requires
        0 <= k <= n,
        collected(results, k) is Err,
    ensures
        collected(results, n) == collected(results, k),
    decreases n - k,
{
    if k < n {
        lemma_collected_stable(results, k, n - 1);
    }
}

/// Whether the child at `cursor` exists and carries the context tag `tag`.
pub open spec fn hit(children: Seq<ElementView>, cursor: int, tag: u8) -> bool {
    0 <= cursor < children.len() && children[cursor].tag == TagType::Context(tag)
}

/// Where the cursor stands after a member with tag `tag` looked at the
/// child at `cursor`: one further where that child carries the tag, else
/// where it stood.
pub open spec fn next_position(children: Seq<ElementView>, cursor: int, tag: u8) -> int {
    if hit(children, cursor, tag) {
        cursor + 1
    } else {
        cursor
    }
}

/// What a member with tag `tag` gets with the cursor at `cursor`: the
/// child there decoded, where that child carries the tag; else the absent
/// default.
pub open spec fn member_at<M: FromTLV>(children: Seq<ElementView>, cursor: int, tag: u8) -> Result<
    M,
    Error,
> {
    if hit(children, cursor, tag) {
        M::decoded(children[cursor])
    } else {
        M::absent()
    }
}

/// Where the cursor of a sequential decode stands before member `i`: it
/// starts at the first child and moves on by one for each member that
/// found its tag at the cursor.
pub open spec fn cursor_at(children: Seq<ElementView>, tags: Seq<u8>, i: int) -> int
    decreases i,
{
    if i <= 0 {
        0
    } else {
        next_position(children, cursor_at(children, tags, i - 1), tags[i - 1])
    }
}

/// What member `i` gets in a sequential decode.
pub open spec fn member_sequential<M: FromTLV>(
    children: Seq<ElementView>,
    tags: Seq<u8>,
    i: int,
) -> Result<M, Error> {
    member_at::<M>(children, cursor_at(children, tags, i), tags[i])
}

/// A cursor over the children of a container, for decoding its members
/// one after the other.
pub struct MemberCursor<'a> {
    children: &'a Vec<TLVElement>,
    position: usize,
}

impl<'a> MemberCursor<'a> {
    /// The children walked.
    pub closed spec fn children(&self) -> Seq<ElementView> {
        views(self.children@)
    }

    /// The child the cursor stands on; the number of children where it
    /// has passed them all.
    pub closed spec fn position(&self) -> int {
        self.position as int
    }

    /// The cursor has not passed the end.
    pub closed spec fn wf(&self) -> bool {
        self.position <= self.children@.len()
    }

    /// A cursor on the first child of `t`, which must be a container of
    /// the given kind; `Invalid` otherwise.
    pub fn enter(t: &'a TLVElement, kind: ContainerKind) -> (r: Result<MemberCursor<'a>, Error>)
        ensures
            match r {
                Ok(cursor) => is_container_of(t@, kind) && cursor.wf() && cursor.children()
                    == children_of(t@) && cursor.position() == 0,
                Err(e) => e == (Error { code: ErrorCode::Invalid }) && !is_container_of(t@, kind),
            },
    {
        match t.confirm(kind) {
            Ok(children) => Ok(MemberCursor { children, position: 0 }),
            Err(_) => Err(Error::new(ErrorCode::Invalid)),
        }
    }

    /// Decodes the next member. Where the child at the cursor carries the
    /// member's tag, the member is decoded from it and the cursor moves
    /// on; otherwise the cursor stays and the member takes its absent
    /// default.
    pub fn member<M: FromTLV>(&mut self, tag: u8) -> (r: Result<M, Error>)
        requires
            old(self).wf(),
        ensures
            final(self).wf(),
            final(self).children() == old(self).children(),
            final(self).position() == next_position(
                old(self).children(),
                old(self).position(),
                tag,
            ),
            r == member_at::<M>(old(self).children(), old(self).position(), tag),
    {
        if self.position < self.children.len() && self.children[self.position].check_ctx_tag(tag) {
            let child = &self.children[self.position];
            self.position = self.position + 1;
            M::from_tlv(child)
        } else {
            M::tlv_not_found()
        }
    }
}

/// Decodes the member with tag `tag` from the children of `t`, wherever
/// among them it stands: from the first child that carries the tag, else
/// as the absent default.
pub fn member_anywhere<M: FromTLV>(t: &TLVElement, tag: u8) -> (r: Result<M, Error>)
    ensures
        r == member_unordered::<M>(children_of(t@), tag),
{
    match t.find_tag(tag) {
        Some(child) => M::from_tlv(child),
        None => M::tlv_not_found(),
    }
}

/// What a member with tag `tag` gets in an unordered decode: the first
/// child that carries the tag decoded, else the absent default.
pub open spec fn member_unordered<M: FromTLV>(children: Seq<ElementView>, tag: u8) -> Result<
    M,
    Error,
> {
    match first_with_tag(children, tag) {
        Some(j) => M::decoded(children[j]),
        None => M::absent(),
    }
}

/// What a sequential decode of `e` returns.
pub open spec fn sequential_decoded<M: FromTLV>(
    e: ElementView,
    kind: ContainerKind,
    tags: Seq<u8>,
) -> Result<Seq<M>, Error> {
    if is_container_of(e, kind) {
        collect(
            Seq::new(tags.len(), |i: int| member_sequential::<M>(children_of(e), tags, i)),
        )
    } else {
        Err(Error { code: ErrorCode::Invalid })
    }
}

/// What an unordered decode of `e` returns. The container's kind is not
/// looked at, and an element that is no container has no children.
pub open spec fn unordered_decoded<M: FromTLV>(e: ElementView, tags: Seq<u8>) -> Result<
    Seq<M>,
    Error,
> {
    collect(Seq::new(tags.len(), |i: int| member_unordered::<M>(children_of(e), tags[i])))
}

/// What a decode under `policy` returns.
pub open spec fn policy_decoded<M: FromTLV>(e: ElementView, policy: TagPolicy, tags: Seq<u8>) -> Result<
    Seq<M>,
    Error,
> {
    match policy.ordering_mode {
        OrderingMode::Sequential => sequential_decoded::<M>(e, policy.container_kind, tags),
        OrderingMode::Unordered => unordered_decoded::<M>(e, tags),
    }
}

/// A decode result with the values as a sequence.
pub open spec fn values_of<M>(r: Result<Vec<M>, Error>) -> Result<Seq<M>, Error> {
    match r {
        Ok(v) => Ok(v@),
        Err(e) => Err(e),
    }
}

/// Decodes a product value with the sequential strategy.
///
/// The element must be a container of the given kind, else the result is
/// `Invalid`. Its children are walked once. A member whose tag is on the
/// child at the cursor is decoded from that child, and the cursor moves on;
/// any other member leaves the cursor where it is and takes its absent
/// default. The first member that fails ends the decode with its error.
pub fn decode_sequential<M: FromTLV>(t: &TLVElement, kind: ContainerKind, tags: &Vec<u8>) -> (r:
    Result<Vec<M>, Error>)
    ensures
        values_of(r) == sequential_decoded::<M>(t@, kind, tags@),
{
    let mut cursor = match MemberCursor::enter(t, kind) {
        Ok(cursor) => cursor,
        Err(e) => {
            return Err(e);
        },
    };
    let ghost cs = children_of(t@);
    let ghost results = Seq::new(tags@.len(), |i: int| member_sequential::<M>(cs, tags@, i));
    let mut out: Vec<M> = Vec::new();
    let mut i: usize = 0;
    while i < tags.len()
        invariant
            i <= tags.len(),
            cs == children_of(t@),
            is_container_of(t@, kind),
            results == Seq::new(tags@.len(), |i: int| member_sequential::<M>(cs, tags@, i)),
            cursor.wf(),
            cursor.children() == cs,
            cursor.position() == cursor_at(cs, tags@, i as int),
            collected(results, i as int) == Ok::<Seq<M>, Error>(out@),
        decreases tags.len() - i,
    {
        let value = cursor.member::<M>(tags[i]);
        assert(value == results[i as int]);
        match value {
            Ok(m) => {
                out.push(m);
            },
            Err(e) => {
                proof {
                    lemma_collected_stable(results, i + 1, tags@.len() as int);
                }
                return Err(e);
            },
        }
        i += 1;
    }
    Ok(out)
}

/// Decodes a product value with the unordered strategy.
///
/// Each member is looked up on its own among all the children: it is
/// decoded from the first child that carries its tag, and takes its absent
/// default where there is none. The first member that fails ends the
/// decode with its error.
pub fn decode_unordered<M: FromTLV>(t: &TLVElement, tags: &Vec<u8>) -> (r: Result<Vec<M>, Error>)
    ensures
        values_of(r) == unordered_decoded::<M>(t@, tags@),
{
    let ghost cs = children_of(t@);
    let ghost results = Seq::new(tags@.len(), |i: int| member_unordered::<M>(cs, tags@[i]));
    let mut out: Vec<M> = Vec::new();
    let mut i: usize = 0;
    while i < tags.len()
        invariant
            i <= tags.len(),
            cs == children_of(t@),
            results == Seq::new(tags@.len(), |i: int| member_unordered::<M>(cs, tags@[i])),
            collected(results, i as int) == Ok::<Seq<M>, Error>(out@),
        decreases tags.len() - i,
    {
        let value = member_anywhere::<M>(t, tags[i]);
        assert(value == results[i as int]);
        match value {
            Ok(m) => {
                out.push(m);
            },
            Err(e) => {
                proof {
                    lemma_collected_stable(results, i + 1, tags@.len() as int);
                }
                return Err(e);
            },
        }
        i += 1;
    }
    Ok(out)
}

/// Decodes a product value with the strategy that the policy selects.
pub fn decode_struct<M: FromTLV>(t: &TLVElement, policy: &TagPolicy, tags: &Vec<u8>) -> (r: Result<
    Vec<M>,
    Error,
>)
    ensures
        values_of(r) == policy_decoded::<M>(t@, *policy, tags@),
{
    match policy.ordering_mode {
        OrderingMode::Sequential => decode_sequential(t, policy.container_kind, tags),
        OrderingMode::Unordered => decode_unordered(t, tags),
    }
}

/// The position of the first of the first `n` tags that equals `tag`.
pub open spec fn variant_in(tags: Seq<u8>, tag: u8, n: int) -> Option<int>
    decreases n,
{
    if n <= 0 {
        None
    } else {
        match variant_in(tags, tag, n - 1) {
            Some(j) => Some(j),
            None => if tags[n - 1] == tag {
                Some(n - 1)
            } else {
                None
            },
        }
    }
}

/// A variant, once found, stays the one found however far one looks.
pub proof fn lemma_variant_in_stable(tags: Seq<u8>, tag: u8, k: int, n: int)
    requires
        0 <= k <= n,
        variant_in(tags, tag, k) is Some,
    ensures
        variant_in(tags, tag, n) == variant_in(tags, tag, k),
    decreases n - k,
{
    if k < n {
        lemma_variant_in_stable(tags, tag, k, n - 1);
    }
}

/// What decoding a sum value from `e` returns: the position of the variant
/// that the first child's tag names, with the payload decoded from that
/// child.
pub open spec fn variant_decoded<M: FromTLV>(e: ElementView, tags: Seq<u8>) -> Result<
    (usize, M),
    Error,
> {
    if !is_container_of(e, ContainerKind::Struct) || children_of(e).len() == 0 {
        Err(Error { code: ErrorCode::Invalid })
    } else {
        let child = children_of(e)[0];
        match child.tag {
            TagType::Context(tag) => match variant_in(tags, tag, tags.len() as int) {
                Some(j) => match M::decoded(child) {
                    Ok(m) => Ok((j as usize, m)),
                    Err(err) => Err(err),
                },
                None => Err(Error { code: ErrorCode::Invalid }),
            },
            _ => Err(Error { code: ErrorCode::TLVTypeMismatch }),
        }
    }
}

/// The position of the first tag that equals `tag`.
pub fn find_variant(tags: &Vec<u8>, tag: u8) -> (r: Option<usize>)
    ensures
        match r {
            Some(j) => variant_in(tags@, tag, tags@.len() as int) == Some(j as int),
            None => variant_in(tags@, tag, tags@.len() as int) is None,
        },
{
    let mut i: usize = 0;
    while i < tags.len()
        invariant
            i <= tags.len(),
            variant_in(tags@, tag, i as int) is None,
        decreases tags.len() - i,
    {
        if tags[i] == tag {
            proof {
                lemma_variant_in_stable(tags@, tag, i + 1, tags@.len() as int);
            }
            return Some(i);
        }
        i += 1;
    }
    None
}

/// Decodes a sum value.
///
/// The element must be a struct with at least one child, else the result
/// is `Invalid`. Only the first child is looked at. If its tag is no
/// context tag the result is `TLVTypeMismatch`; if it names none of the
/// variants, `Invalid`. Otherwise the payload is decoded from the child and
/// returned with the variant's position.
pub fn decode_variant<M: FromTLV>(t: &TLVElement, tags: &Vec<u8>) -> (r: Result<(usize, M), Error>)
    ensures
        r == variant_decoded::<M>(t@, tags@),
{
    let children = match t.confirm_struct() {
        Ok(children) => children,
        Err(_) => {
            return Err(Error::new(ErrorCode::Invalid));
        },
    };
    if children.len() == 0 {
        return Err(Error::new(ErrorCode::Invalid));
    }
    let child = &children[0];
    match child.get_tag() {
        TagType::Context(tag) => match find_variant(tags, tag) {
            Some(j) => match M::from_tlv(child) {
                Ok(m) => Ok((j, m)),
                Err(e) => Err(e),
            },
            None => Err(Error::new(ErrorCode::Invalid)),
        },
        TagType::Anonymous => Err(Error::new(ErrorCode::TLVTypeMismatch)),
    }
}

impl FromTLV for u8 {
    open spec fn decoded(e: ElementView) -> Result<u8, Error> {
        match unsigned_within(e, 0xff) {
            Ok(v) => Ok(v as u8),
            Err(err) => Err(err),
        }
    }

    open spec fn absent() -> Result<u8, Error> {
        Err(Error { code: ErrorCode::Invalid })
    }

    fn from_tlv(t: &TLVElement) -> (r: Result<u8, Error>) {
        match t.unsigned(0xff) {
            Ok(v) => Ok(v as u8),
            Err(e) => Err(e),
        }
    }

    fn tlv_not_found() -> (r: Result<u8, Error>) {
        Err(Error::new(ErrorCode::Invalid))
    }
}

impl FromTLV for u16 {
    open spec fn decoded(e: ElementView) -> Result<u16, Error> {
        match unsigned_within(e, 0xffff) {
            Ok(v) => Ok(v as u16),
            Err(err) => Err(err),
        }
    }

    open spec fn absent() -> Result<u16, Error> {
        Err(Error { code: ErrorCode::Invalid })
    }

    fn from_tlv(t: &TLVElement) -> (r: Result<u16, Error>) {
        match t.unsigned(0xffff) {
            Ok(v) => Ok(v as u16),
            Err(e) => Err(e),
        }
    }

    fn tlv_not_found() -> (r: Result<u16, Error>) {
        Err(Error::new(ErrorCode::Invalid))
    }
}

impl FromTLV for u32 {
    open spec fn decoded(e: ElementView) -> Result<u32, Error> {
        match unsigned_within(e, 0xffff_ffff) {
            Ok(v) => Ok(v as u32),
            Err(err) => Err(err),
        }
    }

    open spec fn absent() -> Result<u32, Error> {
        Err(Error { code: ErrorCode::Invalid })
    }

    fn from_tlv(t: &TLVElement) -> (r: Result<u32, Error>) {
        match t.unsigned(0xffff_ffff) {
            Ok(v) => Ok(v as u32),
            Err(e) => Err(e),
        }
    }

    fn tlv_not_found() -> (r: Result<u32, Error>) {
        Err(Error::new(ErrorCode::Invalid))
    }
}

impl FromTLV for u64 {
    open spec fn decoded(e: ElementView) -> Result<u64, Error> {
        unsigned_within(e, 0xffff_ffff_ffff_ffff)
    }

    open spec fn absent() -> Result<u64, Error> {
        Err(Error { code: ErrorCode::Invalid })
    }

    fn from_tlv(t: &TLVElement) -> (r: Result<u64, Error>) {
        t.unsigned(0xffff_ffff_ffff_ffff)
    }

    fn tlv_not_found() -> (r: Result<u64, Error>) {
        Err(Error::new(ErrorCode::Invalid))
    }
}

impl FromTLV for bool {
    open spec fn decoded(e: ElementView) -> Result<bool, Error> {
        match e.value {
            ValueView::Bool(b) => Ok(b),
            _ => Err(Error { code: ErrorCode::TLVTypeMismatch }),
        }
    }

    open spec fn absent() -> Result<bool, Error> {
        Err(Error { code: ErrorCode::Invalid })
    }

    fn from_tlv(t: &TLVElement) -> (r: Result<bool, Error>) {
        match &t.value {
            ElementValue::Bool(b) => Ok(*b),
            _ => Err(Error::new(ErrorCode::TLVTypeMismatch)),
        }
    }

    fn tlv_not_found() -> (r: Result<bool, Error>) {
        Err(Error::new(ErrorCode::Invalid))
    }
}

/// An optional value decodes what is there, and is none where nothing is.
impl<T: FromTLV> FromTLV for Option<T> {
    open spec fn decoded(e: ElementView) -> Result<Option<T>, Error> {
        match T::decoded(e) {
            Ok(v) => Ok(Some(v)),
            Err(err) => Err(err),
        }
    }

    open spec fn absent() -> Result<Option<T>, Error> {
        Ok(None)
    }

    fn from_tlv(t: &TLVElement) -> (r: Result<Option<T>, Error>) {
        match T::from_tlv(t) {
            Ok(v) => Ok(Some(v)),
            Err(e) => Err(e),
        }
    }

    fn tlv_not_found() -> (r: Result<Option<T>, Error>) {
        Ok(None)
    }
}

} // verus!
