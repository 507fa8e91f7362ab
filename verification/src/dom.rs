//! The render-target capability surface.
//!
//! The engine needs a handful of operations from a live rendered tree:
//! create a node, set an attribute or a text payload, and insert, move or
//! remove a child. [`LiveDom`] provides them over an in-memory arena of
//! [`LiveNode`]s addressed by [`NodeId`]. Every mutating call is counted in
//! [`OpCounts`], so a caller can observe exactly how many mutations a patch
//! pass issued.
//!
//! All operations are total: invalid arguments yield a [`DomError`] and
//! leave the arena untouched, mirroring a rendering platform that rejects an
//! operation.

use vstd::prelude::*;

verus! {

use crate::bump;
use vstd::pervasive::VecAdditionalExecFns;

/// The first index of `id` in `children`, with a guarantee of minimality;
/// `None` when `id` does not occur.
fn find_child(children: &Vec<NodeId>, id: NodeId) -> (r: Option<usize>)
    ensures
        r matches Some(i) ==> 0 <= i < children@.len() && children@[i as int] == id && (forall|
            j: int,
        | 0 <= j < i ==> children@[j] != id),
        r is None ==> forall|j: int| 0 <= j < children@.len() ==> children@[j] != id,
{
    let mut i: usize = 0;
    while i < children.len()
        invariant
            0 <= i <= children@.len(),
            forall|j: int| 0 <= j < i ==> children@[j] != id,
        decreases children@.len() - i,
    {
        if children[i] == id {
            return Some(i);
        }
        i = i + 1;
    }
    None
}

/// The first index among `attrs` whose name is `name`, with a guarantee of
/// minimality; `None` when the name does not occur.
fn find_attr(attrs: &Vec<(String, String)>, name: &String) -> (r: Option<usize>)
    ensures
        r matches Some(i) ==> 0 <= i < attrs@.len() && attrs@[i as int].0@ == name@ && (forall|
            j: int,
        | 0 <= j < i ==> attrs@[j].0@ != name@),
        r is None ==> forall|j: int| 0 <= j < attrs@.len() ==> attrs@[j].0@ != name@,
{
    let mut i: usize = 0;
    while i < attrs.len()
        invariant
            0 <= i <= attrs@.len(),
            forall|j: int| 0 <= j < i ==> attrs@[j].0@ != name@,
        decreases attrs@.len() - i,
    {
        if attrs[i].0 == *name {
            return Some(i);
        }
        i = i + 1;
    }
    None
}

/// A placeholder node used while a live node is temporarily taken out of
/// the arena for mutation.
fn blank_node() -> (n: LiveNode)
    ensures
        n.children@.len() == 0,
{
    LiveNode { kind: LiveKind::Text { content: String::new() }, attrs: Vec::new(), children: Vec::new() }
}

/// The handle of a live node: its index in the arena.
pub type NodeId = usize;

/// A rejection reported by the render target.
#[derive(Clone, Copy, PartialEq, Eq, Structural, Debug)]
pub enum DomError {
    /// The node handle does not name a live node.
    NoSuchNode,
    /// The operation needs an element node.
    NotAnElement,
    /// The operation needs a text node.
    NotAText,
    /// The given child is not a child of the given parent.
    NotAChild,
    /// The node to insert is already a child of the parent.
    AlreadyPresent,
    /// A node cannot be inserted into itself.
    SelfChild,
}

/// What a live node is: a text payload, or an element with a tag.
pub enum LiveKind {
    /// A text node.
    Text {
        /// The text payload.
        content: String,
    },
    /// An element node.
    Element {
        /// The tag name.
        tag: String,
    },
}

/// One live node of the rendered tree.
pub struct LiveNode {
    /// Text payload or element tag.
    pub kind: LiveKind,
    /// Attribute pairs, meaningful for elements only.
    pub attrs: Vec<(String, String)>,
    /// The ordered child handles.
    pub children: Vec<NodeId>,
}

/// How many calls of each mutating kind were issued, saturating.
#[derive(Clone, Copy, PartialEq, Eq, Structural, Debug)]
pub struct OpCounts {
    /// Node creations.
    pub creates: u64,
    /// Insertions of fresh nodes.
    pub inserts: u64,
    /// Repositionings of nodes already in place.
    pub moves: u64,
    /// Child removals.
    pub removes: u64,
    /// Text payload writes.
    pub text_sets: u64,
    /// Attribute writes.
    pub attr_sets: u64,
    /// Attribute removals.
    pub attr_removes: u64,
}

impl OpCounts {
    /// All counts zero.
    pub open spec fn spec_zero() -> OpCounts {
        OpCounts {
            creates: 0,
            inserts: 0,
            moves: 0,
            removes: 0,
            text_sets: 0,
            attr_sets: 0,
            attr_removes: 0,
        }
    }

    /// All counts zero.
    pub fn zero() -> (c: OpCounts)
        ensures
            c == OpCounts::spec_zero(),
    {
        OpCounts {
            creates: 0,
            inserts: 0,
            moves: 0,
            removes: 0,
            text_sets: 0,
            attr_sets: 0,
            attr_removes: 0,
        }
    }

    /// No node was created and none was removed between the two counts:
    /// the live tree kept exactly its nodes.
    pub open spec fn same_nodes(self, later: OpCounts) -> bool {
        self.creates == later.creates && self.removes == later.removes
    }
}

/// True when the attribute sequence holds a pair with the given name.
pub open spec fn has_attr(attrs: Seq<(String, String)>, name: Seq<char>) -> bool {
    exists|i: int| 0 <= i < attrs.len() && attrs[i].0@ == name
}

/// The live rendered tree: an arena of nodes plus the tally of mutating
/// calls issued against it.
pub struct LiveDom {
    /// The arena; a [`NodeId`] indexes into it.
    pub nodes: Vec<LiveNode>,
    /// The tally of mutating calls.
    pub ops: OpCounts,
}

impl LiveDom {
    /// The handle names a node of the arena.
    pub open spec fn spec_valid(self, id: NodeId) -> bool {
        id < self.nodes.len()
    }

    /// The handle names an element node.
    pub open spec fn is_element(self, id: NodeId) -> bool {
        self.spec_valid(id) && self.nodes[id as int].kind is Element
    }

    /// The handle names a text node.
    pub open spec fn is_text(self, id: NodeId) -> bool {
        self.spec_valid(id) && self.nodes[id as int].kind is Text
    }

    /// The children of a node.
    pub open spec fn children_of(self, id: NodeId) -> Seq<NodeId> {
        self.nodes[id as int].children@
    }

    /// Well-formedness of the arena: every child handle is valid, no node
    /// lists the same child twice, and no node is its own child.
    pub open spec fn wf(self) -> bool {
        &&& forall|p: int, i: int|
            0 <= p < self.nodes.len() && 0 <= i < self.nodes[p].children.len()
                ==> (#[trigger] self.nodes[p].children[i]) < self.nodes.len()
        &&& forall|p: int, i: int, j: int|
            0 <= p < self.nodes.len() && 0 <= i < self.nodes[p].children.len() && 0 <= j
                < self.nodes[p].children.len() && #[trigger] self.nodes[p].children[i]
                == #[trigger] self.nodes[p].children[j] ==> i == j
        &&& forall|p: int, i: int|
            0 <= p < self.nodes.len() && 0 <= i < self.nodes[p].children.len() ==> (
            #[trigger] self.nodes[p].children[i]) != p
    }

    /// An empty live tree.
    pub fn new() -> (d: LiveDom)
        ensures
            d.nodes@.len() == 0,
            d.ops == OpCounts::spec_zero(),
            d.wf(),
    {
        LiveDom { nodes: Vec::new(), ops: OpCounts::zero() }
    }

    /// The arena after pushing one fresh node: the old nodes unchanged, the
    /// new one empty of attributes and children.
    pub open spec fn spec_created(self, later: LiveDom, kind: LiveKind) -> bool {
        let id = self.nodes@.len() as int;
        &&& later.nodes@.len() == self.nodes@.len() + 1
        &&& (forall|k: int| 0 <= k < self.nodes@.len() ==> later.nodes@[k] == self.nodes@[k])
        &&& later.nodes@[id].kind == kind
        &&& later.nodes@[id].attrs@ == Seq::<(String, String)>::empty()
        &&& later.nodes@[id].children@ == Seq::<NodeId>::empty()
        &&& later.ops == (OpCounts { creates: bump(self.ops.creates), ..self.ops })
    }

    /// Creates a detached element node with the given tag and no attributes
    /// or children, and returns its fresh handle.
    pub fn create_element(&mut self, tag: String) -> (id: NodeId)
        ensures
            id == old(self).nodes@.len(),
            old(self).spec_created(*final(self), LiveKind::Element { tag }),
            old(self).wf() ==> final(self).wf(),
    {
        let id = self.nodes.len();
        self.nodes.push(
            LiveNode { kind: LiveKind::Element { tag }, attrs: Vec::new(), children: Vec::new() },
        );
        if self.ops.creates < u64::MAX {
            self.ops.creates = self.ops.creates + 1;
        }
        id
    }

    /// Creates a detached text node with the given payload and returns its
    /// fresh handle.
    pub fn create_text(&mut self, content: String) -> (id: NodeId)
        ensures
            id == old(self).nodes@.len(),
            old(self).spec_created(*final(self), LiveKind::Text { content }),
            old(self).wf() ==> final(self).wf(),
    {
        let id = self.nodes.len();
        self.nodes.push(
            LiveNode { kind: LiveKind::Text { content }, attrs: Vec::new(), children: Vec::new() },
        );
        if self.ops.creates < u64::MAX {
            self.ops.creates = self.ops.creates + 1;
        }
        id
    }

    /// The arena after a call that changed only the node `id`, leaving its
    /// children untouched, and only the given counter tally.
    pub open spec fn spec_same_but(self, later: LiveDom, id: NodeId, ops: OpCounts) -> bool {
        &&& later.nodes@.len() == self.nodes@.len()
        &&& (forall|k: int| 0 <= k < self.nodes@.len() && k != id ==> later.nodes@[k]
            == self.nodes@[k])
        &&& later.nodes@[id as int].children@ == self.nodes@[id as int].children@
        &&& later.ops == ops
    }

    /// Overwrites the payload of a text node.
    pub fn set_text(&mut self, id: NodeId, content: String) -> (r: Result<(), DomError>)
        ensures
            r is Ok <==> old(self).is_text(id),
            !old(self).spec_valid(id) ==> r == Err::<(), DomError>(DomError::NoSuchNode),
            old(self).spec_valid(id) && !old(self).is_text(id) ==> r == Err::<(), DomError>(DomError::NotAText),
            r is Err ==> *final(self) == *old(self),
            r is Ok ==> old(self).spec_same_but(
                *final(self),
                id,
                (OpCounts { text_sets: bump(old(self).ops.text_sets), ..old(self).ops }),
            ),
            r is Ok ==> final(self).nodes@[id as int].kind == (LiveKind::Text { content }),
            r is Ok ==> final(self).nodes@[id as int].attrs@ == old(self).nodes@[id as int].attrs@,
            old(self).wf() ==> final(self).wf(),
    {
        if id >= self.nodes.len() {
            return Err(DomError::NoSuchNode);
        }
        match &self.nodes[id].kind {
            LiveKind::Element { .. } => {
                return Err(DomError::NotAText);
            },
            LiveKind::Text { .. } => {},
        }
        let mut tmp = blank_node();
        self.nodes.set_and_swap(id, &mut tmp);
        tmp.kind = LiveKind::Text { content };
        self.nodes.set_and_swap(id, &mut tmp);
        if self.ops.text_sets < u64::MAX {
            self.ops.text_sets = self.ops.text_sets + 1;
        }
        Ok(())
    }

    /// Sets an attribute on an element node: the pair with that name is
    /// overwritten in place, or appended when the name is new.
    pub fn set_attribute(&mut self, id: NodeId, name: String, value: String) -> (r: Result<
        (),
        DomError,
    >)
        ensures
            r is Ok <==> old(self).is_element(id),
            !old(self).spec_valid(id) ==> r == Err::<(), DomError>(DomError::NoSuchNode),
            old(self).spec_valid(id) && !old(self).is_element(id) ==> r == Err::<(), DomError>(
                DomError::NotAnElement,
            ),
            r is Err ==> *final(self) == *old(self),
            r is Ok ==> old(self).spec_same_but(
                *final(self),
                id,
                (OpCounts { attr_sets: bump(old(self).ops.attr_sets), ..old(self).ops }),
            ),
            r is Ok ==> final(self).nodes@[id as int].kind == old(self).nodes@[id as int].kind,
            r is Ok ==> ({
                let prior = old(self).nodes@[id as int].attrs@;
                let after = final(self).nodes@[id as int].attrs@;
                if has_attr(prior, name@) {
                    exists|i: int|
                        0 <= i < prior.len() && prior[i].0@ == name@ && (forall|j: int|
                            0 <= j < i ==> prior[j].0@ != name@) && after == prior.update(
                            i,
                            (name, value),
                        )
                } else {
                    after == prior.push((name, value))
                }
            }),
            old(self).wf() ==> final(self).wf(),
    {
        if id >= self.nodes.len() {
            return Err(DomError::NoSuchNode);
        }
        match &self.nodes[id].kind {
            LiveKind::Text { .. } => {
                return Err(DomError::NotAnElement);
            },
            LiveKind::Element { .. } => {},
        }
        let mut tmp = blank_node();
        self.nodes.set_and_swap(id, &mut tmp);
        match find_attr(&tmp.attrs, &name) {
            Some(i) => {
                tmp.attrs.set(i, (name, value));
            },
            None => {
                tmp.attrs.push((name, value));
            },
        }
        self.nodes.set_and_swap(id, &mut tmp);
        if self.ops.attr_sets < u64::MAX {
            self.ops.attr_sets = self.ops.attr_sets + 1;
        }
        Ok(())
    }

    /// Removes an attribute from an element node; removing an absent name
    /// is accepted and leaves the attributes unchanged, though the call is
    /// still counted as issued.
    pub fn remove_attribute(&mut self, id: NodeId, name: &String) -> (r: Result<(), DomError>)
        ensures
            r is Ok <==> old(self).is_element(id),
            !old(self).spec_valid(id) ==> r == Err::<(), DomError>(DomError::NoSuchNode),
            old(self).spec_valid(id) && !old(self).is_element(id) ==> r == Err::<(), DomError>(
                DomError::NotAnElement,
            ),
            r is Err ==> *final(self) == *old(self),
            r is Ok ==> old(self).spec_same_but(
                *final(self),
                id,
                (OpCounts { attr_removes: bump(old(self).ops.attr_removes), ..old(self).ops }),
            ),
            r is Ok ==> final(self).nodes@[id as int].kind == old(self).nodes@[id as int].kind,
            r is Ok ==> ({
                let prior = old(self).nodes@[id as int].attrs@;
                let after = final(self).nodes@[id as int].attrs@;
                if has_attr(prior, name@) {
                    exists|i: int|
                        0 <= i < prior.len() && prior[i].0@ == name@ && (forall|j: int|
                            0 <= j < i ==> prior[j].0@ != name@) && after == prior.remove(i)
                } else {
                    after == prior
                }
            }),
            old(self).wf() ==> final(self).wf(),
    {
        if id >= self.nodes.len() {
            return Err(DomError::NoSuchNode);
        }
        match &self.nodes[id].kind {
            LiveKind::Text { .. } => {
                return Err(DomError::NotAnElement);
            },
            LiveKind::Element { .. } => {},
        }
        let mut tmp = blank_node();
        self.nodes.set_and_swap(id, &mut tmp);
        match find_attr(&tmp.attrs, name) {
            Some(i) => {
                let _ = tmp.attrs.remove(i);
            },
            None => {},
        }
        self.nodes.set_and_swap(id, &mut tmp);
        if self.ops.attr_removes < u64::MAX {
            self.ops.attr_removes = self.ops.attr_removes + 1;
        }
        Ok(())
    }

    /// The arena after a call that changed only the child list of `parent`,
    /// and only the given counter tally.
    pub open spec fn spec_same_but_children(self, later: LiveDom, parent: NodeId, ops: OpCounts) -> bool {
        &&& later.nodes@.len() == self.nodes@.len()
        &&& (forall|k: int| 0 <= k < self.nodes@.len() && k != parent ==> later.nodes@[k]
            == self.nodes@[k])
        &&& later.nodes@[parent as int].kind == self.nodes@[parent as int].kind
        &&& later.nodes@[parent as int].attrs@ == self.nodes@[parent as int].attrs@
        &&& later.ops == ops
    }

    /// Whether `insert_before` accepts these arguments.
    pub open spec fn can_insert(self, parent: NodeId, node: NodeId, next: Option<NodeId>) -> bool {
        &&& self.is_element(parent)
        &&& self.spec_valid(node)
        &&& node != parent
        &&& !self.children_of(parent).contains(node)
        &&& (next matches Some(r) ==> self.children_of(parent).contains(r))
    }

    /// Inserts a detached node into `parent`'s children, immediately before
    /// `next`, or at the end when `next` is absent.
    pub fn insert_before(&mut self, parent: NodeId, node: NodeId, next: Option<NodeId>) -> (r:
        Result<(), DomError>)
        ensures
            r is Ok <==> old(self).can_insert(parent, node, next),
            r is Err ==> *final(self) == *old(self),
            r is Ok ==> old(self).spec_same_but_children(
                *final(self),
                parent,
                (OpCounts { inserts: bump(old(self).ops.inserts), ..old(self).ops }),
            ),
            r is Ok ==> ({
                let prior = old(self).children_of(parent);
                let after = final(self).children_of(parent);
                exists|i: int|
                    0 <= i <= prior.len() && after == prior.insert(i, node) && (next is None ==> i
                        == prior.len()) && (next matches Some(rf) ==> i < prior.len() && prior[i]
                        == rf && (forall|j: int| 0 <= j < i ==> prior[j] != rf))
            }),
            r is Ok ==> final(self).children_of(parent).contains(node),
            old(self).wf() ==> final(self).wf(),
    {
        if parent >= self.nodes.len() || node >= self.nodes.len() {
            return Err(DomError::NoSuchNode);
        }
        match &self.nodes[parent].kind {
            LiveKind::Text { .. } => {
                return Err(DomError::NotAnElement);
            },
            LiveKind::Element { .. } => {},
        }
        if node == parent {
            return Err(DomError::SelfChild);
        }
        if find_child(&self.nodes[parent].children, node).is_some() {
            return Err(DomError::AlreadyPresent);
        }
        let pos: usize = match next {
            Some(rf) => {
                match find_child(&self.nodes[parent].children, rf) {
                    Some(i) => i,
                    None => {
                        return Err(DomError::NotAChild);
                    },
                }
            },
            None => self.nodes[parent].children.len(),
        };
        let mut tmp = blank_node();
        self.nodes.set_and_swap(parent, &mut tmp);
        tmp.children.insert(pos, node);
        self.nodes.set_and_swap(parent, &mut tmp);
        if self.ops.inserts < u64::MAX {
            self.ops.inserts = self.ops.inserts + 1;
        }
        proof {
            let prior = old(self).children_of(parent);
            let after = self.children_of(parent);
            assert(after == prior.insert(pos as int, node));
            assert(after.contains(node)) by {
                assert(after[pos as int] == node);
            }
        }
        Ok(())
    }

    /// Whether `move_before` accepts these arguments.
    pub open spec fn can_move(self, parent: NodeId, node: NodeId, next: Option<NodeId>) -> bool {
        &&& self.is_element(parent)
        &&& self.children_of(parent).contains(node)
        &&& (next matches Some(r) ==> self.children_of(parent).contains(r))
    }

    /// Repositions a node that is already a child of `parent` so that it
    /// stands immediately before `next`, or at the end when `next` is
    /// absent. Repositioning a node before itself is accepted and changes
    /// nothing, though the call is still counted as issued.
    pub fn move_before(&mut self, parent: NodeId, node: NodeId, next: Option<NodeId>) -> (r: Result<
        (),
        DomError,
    >)
        ensures
            r is Ok <==> old(self).can_move(parent, node, next),
            r is Err ==> *final(self) == *old(self),
            r is Ok ==> old(self).spec_same_but_children(
                *final(self),
                parent,
                (OpCounts { moves: bump(old(self).ops.moves), ..old(self).ops }),
            ),
            r is Ok ==> ({
                let prior = old(self).children_of(parent);
                let after = final(self).children_of(parent);
                if next == Some(node) {
                    after == prior
                } else {
                    exists|i: int, k: int|
                        {
                            &&& 0 <= i < prior.len()
                            &&& prior[i] == node
                            &&& (forall|j: int| 0 <= j < i ==> prior[j] != node)
                            &&& 0 <= k <= prior.remove(i).len()
                            &&& after == #[trigger] prior.remove(i).insert(k, node)
                            &&& (next is None ==> k == prior.remove(i).len())
                            &&& (next matches Some(rf) ==> k < prior.remove(i).len()
                                && prior.remove(i)[k] == rf && (forall|j: int|
                                0 <= j < k ==> prior.remove(i)[j] != rf))
                        }
                }
            }),
            r is Ok ==> final(self).children_of(parent).contains(node),
            old(self).wf() ==> final(self).wf(),
    {
        if parent >= self.nodes.len() {
            return Err(DomError::NoSuchNode);
        }
        match &self.nodes[parent].kind {
            LiveKind::Text { .. } => {
                return Err(DomError::NotAnElement);
            },
            LiveKind::Element { .. } => {},
        }
        let i: usize = match find_child(&self.nodes[parent].children, node) {
            Some(i) => i,
            None => {
                return Err(DomError::NotAChild);
            },
        };
        match next {
            Some(rf) => {
                if find_child(&self.nodes[parent].children, rf).is_none() {
                    return Err(DomError::NotAChild);
                }
                if rf == node {
                    if self.ops.moves < u64::MAX {
                        self.ops.moves = self.ops.moves + 1;
                    }
                    return Ok(());
                }
            },
            None => {},
        }
        let mut tmp = blank_node();
        self.nodes.set_and_swap(parent, &mut tmp);
        let _ = tmp.children.remove(i);
        let pos: usize = match next {
            Some(rf) => {
                match find_child(&tmp.children, rf) {
                    Some(k) => k,
                    None => {
                        proof {
                            let prior = old(self).children_of(parent);
                            let mid = prior.remove(i as int);
                            let kr = choose|kr: int|
                                0 <= kr < prior.len() && prior[kr] == rf;
                            if kr < i {
                                assert(mid[kr] == rf);
                            } else {
                                assert(mid[kr - 1] == rf);
                            }
                            assert(false);
                        }
                        tmp.children.len()
                    },
                }
            },
            None => tmp.children.len(),
        };
        tmp.children.insert(pos, node);
        self.nodes.set_and_swap(parent, &mut tmp);
        if self.ops.moves < u64::MAX {
            self.ops.moves = self.ops.moves + 1;
        }
        proof {
            let prior = old(self).children_of(parent);
            let after = self.children_of(parent);
            let mid = prior.remove(i as int);
            assert(after == mid.insert(pos as int, node));
            assert(after.contains(node)) by {
                assert(after[pos as int] == node);
            }
        }
        Ok(())
    }

    /// Whether `remove_child` accepts these arguments.
    pub open spec fn can_remove(self, parent: NodeId, node: NodeId) -> bool {
        &&& self.is_element(parent)
        &&& self.children_of(parent).contains(node)
    }

    /// Detaches a child from `parent`. The detached node and its own
    /// subtree stay in the arena but are no longer reachable from `parent`.
    pub fn remove_child(&mut self, parent: NodeId, node: NodeId) -> (r: Result<(), DomError>)
        ensures
            r is Ok <==> old(self).can_remove(parent, node),
            r is Err ==> *final(self) == *old(self),
            r is Ok ==> old(self).spec_same_but_children(
                *final(self),
                parent,
                (OpCounts { removes: bump(old(self).ops.removes), ..old(self).ops }),
            ),
            r is Ok ==> ({
                let prior = old(self).children_of(parent);
                let after = final(self).children_of(parent);
                exists|i: int|
                    0 <= i < prior.len() && prior[i] == node && (forall|j: int|
                        0 <= j < i ==> prior[j] != node) && after == prior.remove(i)
            }),
            r is Ok && old(self).wf() ==> !final(self).children_of(parent).contains(node),
            old(self).wf() ==> final(self).wf(),
    {
        if parent >= self.nodes.len() {
            return Err(DomError::NoSuchNode);
        }
        match &self.nodes[parent].kind {
            LiveKind::Text { .. } => {
                return Err(DomError::NotAnElement);
            },
            LiveKind::Element { .. } => {},
        }
        let i: usize = match find_child(&self.nodes[parent].children, node) {
            Some(i) => i,
            None => {
                return Err(DomError::NotAChild);
            },
        };
        let mut tmp = blank_node();
        self.nodes.set_and_swap(parent, &mut tmp);
        let _ = tmp.children.remove(i);
        self.nodes.set_and_swap(parent, &mut tmp);
        if self.ops.removes < u64::MAX {
            self.ops.removes = self.ops.removes + 1;
        }
        proof {
            let prior = old(self).children_of(parent);
            let after = self.children_of(parent);
            if old(self).wf() {
                assert forall|j: int| 0 <= j < after.len() implies after[j] != node by {
                    if j < i {
                        assert(prior[j] == old(self).nodes@[parent as int].children@[j]);
                        assert(prior[i as int] == node);
                    } else {
                        assert(prior[j + 1] == old(self).nodes@[parent as int].children@[j + 1]);
                    }
                }
                assert(!after.contains(node));
            }
        }
        Ok(())
    }
}

} // verus!
