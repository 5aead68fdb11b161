//! The writer that encoding appends to: a stack of open containers over a
//! bounded budget of elements, with checkpoints to rewind to.

use vstd::prelude::*;
use crate::element::{element_view, views, ElementValue, ElementView, TLVElement, TagType, ValueView};
use crate::error::{Error, ErrorCode};
use crate::tags::ContainerKind;

verus! {

/// A container that has been opened and not yet closed.
#[derive(Debug)]
pub struct Frame {
    pub tag: TagType,
    pub kind: ContainerKind,
    pub children: Vec<TLVElement>,
}

/// An open container as a mathematical value.
pub ghost struct FrameView {
    pub tag: TagType,
    pub kind: ContainerKind,
    pub children: Seq<ElementView>,
}

impl View for Frame {
    type V = FrameView;

    open spec fn view(&self) -> FrameView {
        FrameView { tag: self.tag, kind: self.kind, children: views(self.children@) }
    }
}

/// A checkpoint: a position in the writer's output.
#[derive(Clone, Copy, Debug, PartialEq, Eq, Structural)]
pub struct Anchor {
    pub depth: usize,
    pub count: usize,
    pub used: usize,
}

/// The writer as a mathematical value. `frames[0]` collects the finished
/// top-level elements; each further frame is a container still open, the
/// innermost last. Every element and every opened container takes one unit
/// of the budget `capacity`.
pub ghost struct WriterView {
    pub frames: Seq<FrameView>,
    pub used: nat,
    pub capacity: nat,
}

impl WriterView {
    /// At least the root frame exists and the budget is respected.
    pub open spec fn wf(self) -> bool {
        self.frames.len() >= 1 && self.used <= self.capacity
    }

    /// The writer with `e` appended to the innermost frame.
    pub open spec fn push_child(self, e: ElementView) -> WriterView {
        let top = self.frames.last();
        WriterView {
            frames: self.frames.update(
                self.frames.len() - 1,
                FrameView { children: top.children.push(e), ..top },
            ),
            ..self
        }
    }

    /// The writer after a value wrote `written` (nothing, or one element)
    /// and took `cost` units of the budget.
    pub open spec fn wrote(self, written: Option<ElementView>, cost: nat) -> WriterView {
        let w = WriterView { used: self.used + cost, ..self };
        match written {
            Some(e) => w.push_child(e),
            None => w,
        }
    }

    /// The writer after a container was opened.
    pub open spec fn started(self, tag: TagType, kind: ContainerKind) -> WriterView {
        WriterView {
            frames: self.frames.push(FrameView { tag, kind, children: Seq::empty() }),
            used: self.used + 1,
            ..self
        }
    }

    /// The writer after the innermost open container was closed.
    pub open spec fn ended(self) -> WriterView {
        let top = self.frames.last();
        (WriterView { frames: self.frames.drop_last(), ..self }).push_child(
            ElementView { tag: top.tag, value: ValueView::Container(top.kind, top.children) },
        )
    }

    /// The checkpoint at the writer's current position.
    pub open spec fn anchor(self) -> Anchor {
        Anchor {
            depth: self.frames.len() as usize,
            count: self.frames.last().children.len() as usize,
            used: self.used as usize,
        }
    }

    /// Whether `a` marks a position that this writer has reached and not
    /// rewound past.
    pub open spec fn reaches(self, a: Anchor) -> bool {
        1 <= a.depth <= self.frames.len() && a.count <= self.frames[a.depth - 1].children.len()
            && a.used <= self.used
    }

    /// The writer rewound to `a`: frames opened since are dropped, and so is
    /// what was appended since to the frame that was innermost then. A
    /// checkpoint that the writer does not reach changes nothing.
    pub open spec fn rewound(self, a: Anchor) -> WriterView {
        if self.reaches(a) {
            let top = self.frames[a.depth - 1];
            WriterView {
                frames: self.frames.take(a.depth as int).update(
                    a.depth - 1,
                    FrameView { children: top.children.take(a.count as int), ..top },
                ),
                used: a.used as nat,
                capacity: self.capacity,
            }
        } else {
            self
        }
    }

    /// Whether `self` is `base` with more written: the frames of `base` are
    /// still there, and its innermost frame has kept what it held.
    pub open spec fn extends(self, base: WriterView) -> bool {
        let d = base.frames.len() as int;
        &&& self.capacity == base.capacity
        &&& self.used >= base.used
        &&& self.frames.len() >= d
        &&& d >= 1
        &&& self.frames.take(d - 1) == base.frames.take(d - 1)
        &&& self.frames[d - 1].tag == base.frames[d - 1].tag
        &&& self.frames[d - 1].kind == base.frames[d - 1].kind
        &&& self.frames[d - 1].children.len() >= base.frames[d - 1].children.len()
        &&& self.frames[d - 1].children.take(base.frames[d - 1].children.len() as int)
            == base.frames[d - 1].children
    }
}

/// Rewinding to a checkpoint taken earlier undoes everything written since.
pub proof fn lemma_rewind_restores(w: WriterView, base: WriterView, a: Anchor)
    requires
        w.extends(base),
        a.depth == base.frames.len(),
        a.count == base.frames.last().children.len(),
        a.used == base.used,
    ensures
        w.reaches(a),
        w.rewound(a) == base,
{
    let d = base.frames.len() as int;
    let r = w.rewound(a);
    assert(r.frames =~= base.frames) by {
        assert forall|i: int| 0 <= i < d implies r.frames[i] == base.frames[i] by {
            if i < d - 1 {
                assert(w.frames.take(d - 1)[i] == base.frames.take(d - 1)[i]);
            }
        }
    }
}

/// A writer extends itself.
pub proof fn lemma_extends_self(w: WriterView)
    requires
        w.wf(),
    ensures
        w.extends(w),
{
    assert(w.frames.last().children.take(w.frames.last().children.len() as int)
        =~= w.frames.last().children);
}

/// Extending is transitive.
pub proof fn lemma_extends_trans(w: WriterView, mid: WriterView, base: WriterView)
    requires
        w.extends(mid),
        mid.extends(base),
    ensures
        w.extends(base),
{
    let d = base.frames.len() as int;
    let m = mid.frames.len() as int;
    let c = base.frames[d - 1].children.len() as int;
    assert(w.frames.take(d - 1) =~= base.frames.take(d - 1)) by {
        assert forall|i: int| 0 <= i < d - 1 implies w.frames[i] == base.frames[i] by {
            assert(w.frames.take(m - 1)[i] == mid.frames.take(m - 1)[i]);
            assert(mid.frames.take(d - 1)[i] == base.frames.take(d - 1)[i]);
        }
    }
    if d < m {
        assert(w.frames.take(m - 1)[d - 1] == mid.frames.take(m - 1)[d - 1]);
    } else {
        let k = mid.frames[d - 1].children.len() as int;
        assert(w.frames[d - 1].children.take(c) =~= w.frames[d - 1].children.take(k).take(c));
    }
}

/// Opening a container extends the writer, and so does writing inside a
/// container opened since the base.
pub proof fn lemma_extends_step(
    w: WriterView,
    base: WriterView,
    tag: TagType,
    kind: ContainerKind,
    written: Option<ElementView>,
    cost: nat,
)
    requires
        w.extends(base),
    ensures
        w.started(tag, kind).extends(base),
        w.wrote(written, cost).extends(base),
        w.frames.len() > base.frames.len() + 1 ==> w.ended().extends(base),
{
    let d = base.frames.len() as int;
    let c = base.frames[d - 1].children.len() as int;
    assert(w.started(tag, kind).frames.take(d - 1) =~= w.frames.take(d - 1));
    assert(w.wrote(written, cost).frames.take(d - 1) =~= w.frames.take(d - 1));
    assert(w.wrote(written, cost).frames[d - 1].children.take(c) =~= w.frames[d
        - 1].children.take(c));
    if w.frames.len() > d + 1 {
        assert(w.ended().frames.take(d - 1) =~= w.frames.take(d - 1));
    }
}

/// Appending an element appends its view.
pub proof fn lemma_views_push(elements: Seq<TLVElement>, e: TLVElement)
    ensures
        views(elements.push(e)) == views(elements).push(element_view(e)),
{
    assert(views(elements.push(e)) =~= views(elements).push(element_view(e)));
}

/// The writer.
#[derive(Debug)]
pub struct TLVWriter {
    frames: Vec<Frame>,
    used: usize,
    capacity: usize,
}

impl View for TLVWriter {
    type V = WriterView;

    closed spec fn view(&self) -> WriterView {
        WriterView {
            frames: Seq::new(self.frames@.len(), |i: int| self.frames@[i]@),
            used: self.used as nat,
            capacity: self.capacity as nat,
        }
    }
}

impl TLVWriter {
    /// The writer's invariant: see `WriterView::wf`.
    pub open spec fn wf(&self) -> bool {
        self@.wf() && self@.capacity <= usize::MAX
    }

    /// An empty writer with room for `capacity` elements.
    pub fn new(capacity: usize) -> (w: TLVWriter)
        ensures
            w.wf(),
            w@.frames == seq![
                FrameView {
                    tag: TagType::Anonymous,
                    kind: ContainerKind::Struct,
                    children: Seq::<ElementView>::empty(),
                },
            ],
            w@.used == 0,
            w@.capacity == capacity,
    {
        let mut frames: Vec<Frame> = Vec::new();
        frames.push(
            Frame { tag: TagType::Anonymous, kind: ContainerKind::Struct, children: Vec::new() },
        );
        let w = TLVWriter { frames, used: 0, capacity };
        proof {
            assert(views(Seq::<TLVElement>::empty()) =~= Seq::<ElementView>::empty());
            assert(w@.frames =~= seq![
                FrameView {
                    tag: TagType::Anonymous,
                    kind: ContainerKind::Struct,
                    children: Seq::<ElementView>::empty(),
                },
            ]);
        }
        w
    }

    /// The finished top-level elements, in the order written.
    pub fn elements(&self) -> (es: &Vec<TLVElement>)
        requires
            self.wf(),
        ensures
            views(es@) == self@.frames[0].children,
            es@.len() == self@.frames[0].children.len(),
            forall|i: int| 0 <= i < es@.len() ==> (#[trigger] es@[i])@ == self@.frames[0].children[i],
    {
        proof {
            assert forall|i: int| 0 <= i < self.frames@[0].children@.len() implies (
            #[trigger] self.frames@[0].children@[i])@ == views(self.frames@[0].children@)[i] by {}
        }
        &self.frames[0].children
    }

    /// The number of containers that are open.
    pub fn open_containers(&self) -> (n: usize)
        requires
            self.wf(),
        ensures
            n == self@.frames.len() - 1,
    {
        self.frames.len() - 1
    }

    /// The checkpoint at the current position.
    pub fn get_tail(&self) -> (a: Anchor)
        requires
            self.wf(),
        ensures
            a == self@.anchor(),
            a.depth == self@.frames.len(),
            a.count == self@.frames.last().children.len(),
            a.used == self@.used,
    {
        let depth: usize = self.frames.len();
        Anchor { depth, count: self.frames[depth - 1].children.len(), used: self.used }
    }

    /// Rewinds to a checkpoint, discarding what was written since.
    pub fn rewind_to(&mut self, anchor: Anchor)
        requires
            old(self).wf(),
        ensures
            final(self).wf(),
            final(self)@ == old(self)@.rewound(anchor),
    {
        if anchor.depth >= 1 && anchor.depth <= self.frames.len() && anchor.used <= self.used {
            if anchor.count <= self.frames[anchor.depth - 1].children.len() {
                self.frames.truncate(anchor.depth);
                let mut top = self.frames.pop().unwrap();
                let ghost before = top.children@;
                top.children.truncate(anchor.count);
                proof {
                    assert(views(top.children@) =~= views(before).take(anchor.count as int));
                }
                self.frames.push(top);
                self.used = anchor.used;
                proof {
                    assert(self@.frames =~= old(self)@.rewound(anchor).frames);
                }
            }
        }
    }

    /// Appends one element to the innermost frame.
    fn append(&mut self, e: TLVElement)
        requires
            old(self).wf(),
            old(self)@.used < old(self)@.capacity,
        ensures
            final(self).wf(),
            final(self)@ == old(self)@.wrote(Some(e@), 1),
    {
        let mut top = self.frames.pop().unwrap();
        proof {
            lemma_views_push(top.children@, e);
        }
        top.children.push(e);
        self.frames.push(top);
        self.used = self.used + 1;
        proof {
            assert(self@.frames =~= old(self)@.wrote(Some(e@), 1).frames);
        }
    }

    /// Writes an unsigned integer under `tag`. Fails with `NoSpace`, writing
    /// nothing, exactly when the budget is used up.
    pub fn put_unsigned(&mut self, tag: TagType, value: u64) -> (r: Result<(), Error>)
        requires
            old(self).wf(),
        ensures
            final(self).wf(),
            r == scalar_outcome(old(self)@),
            r is Ok ==> final(self)@ == old(self)@.wrote(
                Some(ElementView { tag, value: ValueView::Unsigned(value) }),
                1,
            ),
            r is Err ==> final(self)@ == old(self)@,
    {
        if self.used >= self.capacity {
            return Err(Error::new(ErrorCode::NoSpace));
        }
        self.append(TLVElement { tag, value: ElementValue::Unsigned(value) });
        Ok(())
    }

    /// Writes a boolean under `tag`. Fails with `NoSpace`, writing nothing,
    /// exactly when the budget is used up.
    pub fn put_bool(&mut self, tag: TagType, value: bool) -> (r: Result<(), Error>)
        requires
            old(self).wf(),
        ensures
            final(self).wf(),
            r == scalar_outcome(old(self)@),
            r is Ok ==> final(self)@ == old(self)@.wrote(
                Some(ElementView { tag, value: ValueView::Bool(value) }),
                1,
            ),
            r is Err ==> final(self)@ == old(self)@,
    {
        if self.used >= self.capacity {
            return Err(Error::new(ErrorCode::NoSpace));
        }
        self.append(TLVElement { tag, value: ElementValue::Bool(value) });
        Ok(())
    }

    /// Opens a container of the given kind under `tag`. Fails with
    /// `NoSpace`, changing nothing, exactly when the budget is used up.
    pub fn start_container(&mut self, tag: TagType, kind: ContainerKind) -> (r: Result<(), Error>)
        requires
            old(self).wf(),
        ensures
            final(self).wf(),
            r == scalar_outcome(old(self)@),
            r is Ok ==> final(self)@ == old(self)@.started(tag, kind),
            r is Err ==> final(self)@ == old(self)@,
    {
        if self.used >= self.capacity {
            return Err(Error::new(ErrorCode::NoSpace));
        }
        self.frames.push(Frame { tag, kind, children: Vec::new() });
        self.used = self.used + 1;
        proof {
            assert(views(Seq::<TLVElement>::empty()) =~= Seq::<ElementView>::empty());
            assert(self@.frames =~= old(self)@.started(tag, kind).frames);
        }
        Ok(())
    }

    /// Opens a struct container under `tag`.
    pub fn start_struct(&mut self, tag: TagType) -> (r: Result<(), Error>)
        requires
            old(self).wf(),
        ensures
            final(self).wf(),
            r == scalar_outcome(old(self)@),
            r is Ok ==> final(self)@ == old(self)@.started(tag, ContainerKind::Struct),
            r is Err ==> final(self)@ == old(self)@,
    {
        self.start_container(tag, ContainerKind::Struct)
    }

    /// Opens a list container under `tag`.
    pub fn start_list(&mut self, tag: TagType) -> (r: Result<(), Error>)
        requires
            old(self).wf(),
        ensures
            final(self).wf(),
            r == scalar_outcome(old(self)@),
            r is Ok ==> final(self)@ == old(self)@.started(tag, ContainerKind::List),
            r is Err ==> final(self)@ == old(self)@,
    {
        self.start_container(tag, ContainerKind::List)
    }

    /// Closes the innermost open container, which becomes one element of
    /// the frame around it. Fails with `Invalid`, changing nothing, exactly
    /// when no container is open.
    pub fn end_container(&mut self) -> (r: Result<(), Error>)
        requires
            old(self).wf(),
        ensures
            final(self).wf(),
            r == (if old(self)@.frames.len() >= 2 {
                Ok::<(), Error>(())
            } else {
                Err(Error { code: ErrorCode::Invalid })
            }),
            r is Ok ==> final(self)@ == old(self)@.ended(),
            r is Err ==> final(self)@ == old(self)@,
    {
        if self.frames.len() < 2 {
            return Err(Error::new(ErrorCode::Invalid));
        }
        let closed = self.frames.pop().unwrap();
        let mut top = self.frames.pop().unwrap();
        let e = TLVElement {
            tag: closed.tag,
            value: ElementValue::Container(closed.kind, closed.children),
        };
        proof {
            lemma_views_push(top.children@, e);
        }
        top.children.push(e);
        self.frames.push(top);
        proof {
            assert(self@.frames =~= old(self)@.ended().frames);
        }
        Ok(())
    }
}

/// What a write of one element or the opening of a container returns:
/// `NoSpace` exactly when the budget is used up.
pub open spec fn scalar_outcome(w: WriterView) -> Result<(), Error> {
    if w.used >= w.capacity {
        Err(Error { code: ErrorCode::NoSpace })
    } else {
        Ok(())
    }
}

} // verus!
