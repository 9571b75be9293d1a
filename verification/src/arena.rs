//! An index-arena octree representation.
//!
//! Instead of owning its children directly, every node ("proxy") lives in
//! one flat arena and names its parent and children by index; leaf payloads
//! live in a second arena. A cursor navigates the arena: down into a chosen
//! octant, up to the parent, or across all eight children, and reports the
//! reason whenever a move is impossible.

use vstd::prelude::*;

verus! {

/// Why a cursor move was refused.
#[derive(Clone, Copy, PartialEq, Eq, Structural, Debug)]
pub enum Error {
    /// The root has no parent.
    ParentOfRoot,
    /// A child index beyond the eight octants.
    OutOfRange(u8),
    /// The node is not a branch, so it has no children.
    NoChildren,
}

/// What one arena slot holds: nothing, a leaf payload (by index into the
/// payload arena), or eight children (by index into the node arena).
#[derive(Clone, Copy, Debug)]
pub enum ProxyData {
    Void,
    Leaf(u32),
    Branch([u32; 8]),
}

/// One arena node: its parent's index (the root names itself) and its
/// contents.
#[derive(Clone, Copy, Debug)]
pub struct Proxy {
    parent: u32,
    data: ProxyData,
}

impl Proxy {
    /// The index of this node's parent; the root names itself.
    pub closed spec fn parent_spec(self) -> u32 {
        self.parent
    }

    /// This node's contents.
    pub closed spec fn data_spec(self) -> ProxyData {
        self.data
    }

    /// The index of this node's parent; the root names itself.
    pub fn parent_index(&self) -> (r: u32)
        ensures
            r == self.parent_spec(),
    {
        self.parent
    }

    /// This node's contents.
    pub fn data(&self) -> (r: ProxyData)
        ensures
            r == self.data_spec(),
    {
        self.data
    }
}

/// An octree held in index arenas: one for nodes, one for leaf payloads.
pub struct Octree<T> {
    proxies: Vec<Proxy>,
    leaf_data: Vec<T>,
}

impl<T> Octree<T> {
    /// The node arena.
    pub closed spec fn proxies_spec(self) -> Seq<Proxy> {
        self.proxies@
    }

    /// The leaf payload arena.
    pub closed spec fn leaf_data_spec(self) -> Seq<T> {
        self.leaf_data@
    }

    /// Well-formedness: a root exists, and every index any node names
    /// points into its arena.
    pub open spec fn wf(self) -> bool {
        &&& self.proxies_spec().len() >= 1
        &&& forall|i: int|
            0 <= i < self.proxies_spec().len() ==> (#[trigger] self.proxies_spec()[i]).parent_spec()
                < self.proxies_spec().len()
        &&& forall|i: int|
            0 <= i < self.proxies_spec().len() ==> match (
            #[trigger] self.proxies_spec()[i]).data_spec() {
                ProxyData::Void => true,
                ProxyData::Leaf(l) => l < self.leaf_data_spec().len(),
                ProxyData::Branch(cs) => forall|j: int| 0 <= j < 8 ==> cs[j] < self.proxies_spec().len(),
            }
        }

    /// A fresh arena holding a single void root that names itself as its
    /// parent.
    pub fn new() -> (r: Self)
        ensures
            r.wf(),
            r.proxies_spec().len() == 1,
            r.leaf_data_spec().len() == 0,
            r.proxies_spec()[0].parent_spec() == 0,
            r.proxies_spec()[0].data_spec() == ProxyData::Void,
    {
        let mut proxies: Vec<Proxy> = Vec::new();
        proxies.push(Proxy { parent: 0, data: ProxyData::Void });
        Octree { proxies, leaf_data: Vec::new() }
    }

    /// A cursor standing on the root.
    pub fn cursor(&self) -> (r: Cursor<T>)
        requires
            self.wf(),
        ensures
            r.wf(),
            r.tree_spec() == *self,
            r.target_spec() == 0,
    {
        Cursor { tree: self, target: 0 }
    }
}

/// A position within an arena octree.
#[derive(Clone, Copy)]
pub struct Cursor<'tree, T> {
    tree: &'tree Octree<T>,
    target: u32,
}

impl<'tree, T> Cursor<'tree, T> {
    /// The arena this cursor walks.
    pub closed spec fn tree_spec(self) -> Octree<T> {
        *self.tree
    }

    /// The index of the node the cursor stands on.
    pub closed spec fn target_spec(self) -> u32 {
        self.target
    }

    /// A cursor is usable while it stands on an arena slot of a
    /// well-formed tree.
    pub open spec fn wf(self) -> bool {
        &&& self.tree_spec().wf()
        &&& self.target_spec() < self.tree_spec().proxies_spec().len()
    }

    /// The node the cursor stands on.
    pub open spec fn proxy_spec(self) -> Proxy {
        self.tree_spec().proxies_spec()[self.target_spec() as int]
    }

    /// The node the cursor stands on.
    pub fn proxy(&self) -> (r: &Proxy)
        requires
            self.wf(),
        ensures
            *r == self.proxy_spec(),
    {
        &self.tree.proxies[self.target as usize]
    }

    /// Moves up: a cursor on the parent node, or `ParentOfRoot` exactly
    /// when the cursor stands on the root (which names itself).
    pub fn parent(&self) -> (r: Result<Self, Error>)
        requires
            self.wf(),
        ensures
            match r {
                Ok(c) => {
                    &&& self.proxy_spec().parent_spec() != self.target_spec()
                    &&& c.wf()
                    &&& c.tree_spec() == self.tree_spec()
                    &&& c.target_spec() == self.proxy_spec().parent_spec()
                },
                Err(e) => {
                    &&& e == Error::ParentOfRoot
                    &&& self.proxy_spec().parent_spec() == self.target_spec()
                },
            },
    {
        let pid = self.proxy().parent_index();
        if pid == self.target {
            return Err(Error::ParentOfRoot);
        }
        Ok(Cursor { tree: self.tree, target: pid })
    }

    /// Moves down into octant `index`: a cursor on that child, or
    /// `NoChildren` when the node is not a branch, or `OutOfRange` when
    /// the index names no octant.
    pub fn child(&self, index: u8) -> (r: Result<Self, Error>)
        requires
            self.wf(),
        ensures
            match r {
                Ok(c) => {
                    &&& self.proxy_spec().data_spec() matches ProxyData::Branch(cs)
                        && index < 8 && c.target_spec() == cs[index as int]
                    &&& c.wf()
                    &&& c.tree_spec() == self.tree_spec()
                },
                Err(e) => match e {
                    Error::OutOfRange(i) => {
                        &&& i == index
                        &&& index >= 8
                        &&& self.proxy_spec().data_spec() matches ProxyData::Branch(_)
                    },
                    Error::NoChildren => !(self.proxy_spec().data_spec() matches
                        ProxyData::Branch(_)),
                    _ => false,
                },
            },
    {
        match self.proxy().data() {
            ProxyData::Branch(c) => {
                if index < 8 {
                    Ok(Cursor { tree: self.tree, target: c[index as usize] })
                } else {
                    Err(Error::OutOfRange(index))
                }
            },
            _ => Err(Error::NoChildren),
        }
    }

    /// All eight children of a branch, in octant order; empty for any
    /// other node.
    pub fn children(&self) -> (r: Vec<Self>)
        requires
            self.wf(),
        ensures
            match self.proxy_spec().data_spec() {
                ProxyData::Branch(cs) => {
                    &&& r@.len() == 8
                    &&& forall|j: int|
                        0 <= j < 8 ==> (#[trigger] r@[j]).wf() && r@[j].tree_spec()
                            == self.tree_spec() && r@[j].target_spec() == cs[j]
                },
                _ => r@.len() == 0,
            },
    {
        let mut out: Vec<Self> = Vec::new();
        match self.proxy().data() {
            ProxyData::Branch(c) => {
                let mut j: usize = 0;
                while j < 8
                    invariant
                        j <= 8,
                        self.wf(),
                        self.proxy_spec().data_spec() == ProxyData::Branch(c),
                        forall|l: int| 0 <= l < 8 ==> #[trigger] c[l] < self.tree_spec().proxies_spec().len(),
                        out@.len() == j,
                        forall|l: int|
                            0 <= l < j as int ==> (#[trigger] out@[l]).wf() && out@[l].tree_spec()
                                == self.tree_spec() && out@[l].target_spec() == c[l],
                    decreases 8 - j,
                {
                    out.push(Cursor { tree: self.tree, target: c[j] });
                    j = j + 1;
                }
            },
            _ => {},
        }
        out
    }

    /// The payload of a leaf node; `None` for any other node.
    pub fn data(&self) -> (r: Option<&T>)
        requires
            self.wf(),
        ensures
            match r {
                Some(t) => self.proxy_spec().data_spec() matches ProxyData::Leaf(l) && *t
                    == self.tree_spec().leaf_data_spec()[l as int],
                None => !(self.proxy_spec().data_spec() matches ProxyData::Leaf(_)),
            },
    {
        match self.proxy().data() {
            ProxyData::Leaf(lid) => Some(&self.tree.leaf_data[lid as usize]),
            _ => None,
        }
    }

    /// Moves the cursor up in place; `ParentOfRoot` exactly when it stands
    /// on the root.
    pub fn parent_mut(&mut self) -> (r: Result<(), Error>)
        requires
            old(self).wf(),
        ensures
            final(self).tree_spec() == old(self).tree_spec(),
            final(self).wf(),
            match r {
                Ok(()) => {
                    &&& old(self).proxy_spec().parent_spec() != old(self).target_spec()
                    &&& final(self).target_spec() == old(self).proxy_spec().parent_spec()
                },
                Err(e) => {
                    &&& e == Error::ParentOfRoot
                    &&& old(self).proxy_spec().parent_spec() == old(self).target_spec()
                    &&& final(self).target_spec() == old(self).target_spec()
                },
            },
    {
        let pid = self.proxy().parent_index();
        if pid == self.target {
            return Err(Error::ParentOfRoot);
        }
        self.target = pid;
        Ok(())
    }

    /// Moves the cursor down into octant `index` in place; errors as
    /// `child` does, leaving the cursor where it stood.
    pub fn child_mut(&mut self, index: u8) -> (r: Result<(), Error>)
        requires
            old(self).wf(),
        ensures
            final(self).tree_spec() == old(self).tree_spec(),
            final(self).wf(),
            match r {
                Ok(()) => {
                    &&& old(self).proxy_spec().data_spec() matches ProxyData::Branch(cs)
                        && index < 8 && final(self).target_spec() == cs[index as int]
                },
                Err(e) => {
                    &&& final(self).target_spec() == old(self).target_spec()
                    &&& match e {
                        Error::OutOfRange(i) => {
                            &&& i == index
                            &&& index >= 8
                            &&& old(self).proxy_spec().data_spec() matches ProxyData::Branch(_)
                        },
                        Error::NoChildren => !(old(self).proxy_spec().data_spec() matches
                            ProxyData::Branch(_)),
                        _ => false,
                    }
                },
            },
    {
        match self.proxy().data() {
            ProxyData::Branch(c) => {
                if index < 8 {
                    self.target = c[index as usize];
                    Ok(())
                } else {
                    Err(Error::OutOfRange(index))
                }
            },
            _ => Err(Error::NoChildren),
        }
    }
}

} // verus!
