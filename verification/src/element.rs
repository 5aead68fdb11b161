//! The element tree that encoding produces and decoding reads.

use vstd::prelude::*;
use crate::tags::ContainerKind;

verus! {

/// The tag an element is written under.
#[derive(Clone, Copy, Debug, PartialEq, Eq, Structural)]
pub enum TagType {
    Anonymous,
    Context(u8),
}

/// What an element holds, as a mathematical value.
pub ghost enum ValueView {
    Unsigned(u64),
    Bool(bool),
    Container(ContainerKind, Seq<ElementView>),
}

/// An element as a mathematical value: its tag and what it holds.
pub ghost struct ElementView {
    pub tag: TagType,
    pub value: ValueView,
}

/// What an element holds.
#[derive(Debug, PartialEq, Eq)]
pub enum ElementValue {
    Unsigned(u64),
    Bool(bool),
    Container(ContainerKind, Vec<TLVElement>),
}

/// One element: a tag and a value, which may be a container of elements.
#[derive(Debug, PartialEq, Eq)]
pub struct TLVElement {
    pub tag: TagType,
    pub value: ElementValue,
}

/// The mathematical values of a run of elements.
pub open spec fn views(elements: Seq<TLVElement>) -> Seq<ElementView>
    decreases elements,
{
    Seq::new(elements.len(), |i: int| if 0 <= i < elements.len() { element_view(elements[i]) } else { arbitrary() })
}

/// The mathematical value of an element.
pub open spec fn element_view(e: TLVElement) -> ElementView
    decreases e,
{
    ElementView {
        tag: e.tag,
        value: match e.value {
            ElementValue::Unsigned(v) => ValueView::Unsigned(v),
            ElementValue::Bool(b) => ValueView::Bool(b),
            ElementValue::Container(k, children) => ValueView::Container(k, views(children@)),
        },
    }
}

impl View for TLVElement {
    type V = ElementView;

    open spec fn view(&self) -> ElementView {
        element_view(*self)
    }
}

} // verus!
