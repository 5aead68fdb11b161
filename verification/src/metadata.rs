//! Device metadata: the node a device exposes, and access to it through a
//! guard.

use vstd::prelude::*;

verus! {

/// One endpoint of a node.
#[derive(Clone, Copy, Debug, PartialEq, Eq, Structural)]
pub struct Endpoint {
    pub id: u16,
    pub device_type: u16,
}

/// A node: its identifier and its endpoints.
#[derive(Clone, Copy, Debug)]
pub struct Node<'a> {
    pub id: u16,
    pub endpoints: &'a [Endpoint],
}

/// A handler wrapped for use where another flavour of handler is expected.
pub struct HandlerCompat<T>(pub T);

/// Access to a node's metadata for as long as the guard is held.
pub trait MetadataGuard {
    /// The identifier of the guarded node.
    spec fn guarded_id(&self) -> u16;

    /// The endpoints of the guarded node.
    spec fn guarded_endpoints(&self) -> Seq<Endpoint>;

    /// The guarded node.
    fn node(&self) -> (n: Node<'_>)
        ensures
            n.id == self.guarded_id(),
            n.endpoints@ == self.guarded_endpoints(),
    ;
}

impl<T: MetadataGuard> MetadataGuard for &T {
    open spec fn guarded_id(&self) -> u16 {
        (**self).guarded_id()
    }

    open spec fn guarded_endpoints(&self) -> Seq<Endpoint> {
        (**self).guarded_endpoints()
    }

    fn node(&self) -> (n: Node<'_>) {
        (**self).node()
    }
}

impl<T: MetadataGuard> MetadataGuard for &mut T {
    open spec fn guarded_id(&self) -> u16 {
        (**self).guarded_id()
    }

    open spec fn guarded_endpoints(&self) -> Seq<Endpoint> {
        (**self).guarded_endpoints()
    }

    fn node(&self) -> (n: Node<'_>) {
        (**self).node()
    }
}

/// Something that holds a node's metadata and hands out guards to it.
pub trait Metadata {
    type MetadataGuard: MetadataGuard;

    /// The identifier of the node described.
    spec fn node_id(&self) -> u16;

    /// The endpoints of the node described.
    spec fn node_endpoints(&self) -> Seq<Endpoint>;

    /// A guard through which the node described can be read.
    fn lock(&self) -> (g: Self::MetadataGuard)
        ensures
            g.guarded_id() == self.node_id(),
            g.guarded_endpoints() == self.node_endpoints(),
    ;
}

impl<T: Metadata> Metadata for &T {
    type MetadataGuard = T::MetadataGuard;

    open spec fn node_id(&self) -> u16 {
        (**self).node_id()
    }

    open spec fn node_endpoints(&self) -> Seq<Endpoint> {
        (**self).node_endpoints()
    }

    fn lock(&self) -> (g: Self::MetadataGuard) {
        (**self).lock()
    }
}

impl<T: Metadata> Metadata for &mut T {
    type MetadataGuard = T::MetadataGuard;

    open spec fn node_id(&self) -> u16 {
        (**self).node_id()
    }

    open spec fn node_endpoints(&self) -> Seq<Endpoint> {
        (**self).node_endpoints()
    }

    fn lock(&self) -> (g: Self::MetadataGuard) {
        (**self).lock()
    }
}

/// A node guards itself.
impl<'a> MetadataGuard for Node<'a> {
    open spec fn guarded_id(&self) -> u16 {
        self.id
    }

    open spec fn guarded_endpoints(&self) -> Seq<Endpoint> {
        self.endpoints@
    }

    fn node(&self) -> (n: Node<'_>) {
        Node { id: self.id, endpoints: self.endpoints }
    }
}

/// A node is its own metadata: locking it gives the node again.
impl<'a> Metadata for Node<'a> {
    type MetadataGuard = Node<'a>;

    open spec fn node_id(&self) -> u16 {
        self.id
    }

    open spec fn node_endpoints(&self) -> Seq<Endpoint> {
        self.endpoints@
    }

    fn lock(&self) -> (g: Node<'a>) {
        Node { id: self.id, endpoints: self.endpoints }
    }
}

/// A pair of metadata and a handler has the metadata of its first part.
impl<M: Metadata, H> Metadata for (M, H) {
    type MetadataGuard = M::MetadataGuard;

    open spec fn node_id(&self) -> u16 {
        self.0.node_id()
    }

    open spec fn node_endpoints(&self) -> Seq<Endpoint> {
        self.0.node_endpoints()
    }

    fn lock(&self) -> (g: Self::MetadataGuard) {
        self.0.lock()
    }
}

/// A wrapped handler has the metadata of what it wraps.
impl<T: Metadata> Metadata for HandlerCompat<T> {
    type MetadataGuard = T::MetadataGuard;

    open spec fn node_id(&self) -> u16 {
        self.0.node_id()
    }

    open spec fn node_endpoints(&self) -> Seq<Endpoint> {
        self.0.node_endpoints()
    }

    fn lock(&self) -> (g: Self::MetadataGuard) {
        self.0.lock()
    }
}

} // verus!
