//! The text node kind.

use vstd::prelude::*;

verus! {

use crate::dom::{DomError, LiveDom, LiveKind, NodeId};
use vstd::string::StringExecFns;

/// A text virtual node: a string payload and, once mounted, the handle of
/// the live text node backing it.
pub struct VText {
    /// The text payload.
    pub text: String,
    /// The backing-node link: absent before first mount, present thereafter
    /// until removal.
    pub node: Option<NodeId>,
}

impl VText {
    /// Constructor for a text vnode, not yet mounted.
    pub fn text(content: &str) -> (t: VText)
        ensures
            t.text@ == content@,
            t.node is None,
    {
        VText { text: <String as StringExecFns>::from_str(content), node: None }
    }

    /// Same payload: the content of the two text nodes agrees.
    pub open spec fn skel_eq(self, other: VText) -> bool {
        self.text@ == other.text@
    }

    /// Not yet mounted: no backing-node link.
    pub open spec fn is_fresh(self) -> bool {
        self.node is None
    }

    /// The live nodes this subtree owns.
    pub open spec fn owned(self) -> Set<NodeId> {
        match self.node {
            Some(id) => Set::empty().insert(id),
            None => Set::empty(),
        }
    }

    /// The root live node this subtree occupies in its parent.
    pub open spec fn slots(self) -> Set<NodeId> {
        match self.node {
            Some(id) => Set::empty().insert(id),
            None => Set::empty(),
        }
    }

    /// The backing node, once mounted.
    pub open spec fn spec_node(self) -> Option<NodeId> {
        self.node
    }

    /// The backing node, once mounted.
    pub fn node(&self) -> (r: Option<NodeId>)
        ensures
            r == self.spec_node(),
    {
        self.node
    }

    /// Mounted under `parent` and in sync: the backing link names a live
    /// text node that is a child of `parent` and carries this payload.
    pub open spec fn mounted_in(self, dom: LiveDom, parent: NodeId) -> bool {
        match self.node {
            Some(id) => {
                &&& dom.spec_valid(id)
                &&& (dom.nodes@[id as int].kind matches LiveKind::Text { content } && content@
                    == self.text@)
                &&& dom.children_of(parent).contains(id)
            },
            None => false,
        }
    }

    /// Patches the live tree to show this text: against a previous text
    /// node, the payload is overwritten in place when it differs and
    /// nothing at all is issued when it is the same; against nothing, a
    /// fresh text node is created and inserted before `next`.
    pub fn patch(
        self,
        old_tree: Option<VText>,
        dom: &mut LiveDom,
        parent: NodeId,
        next: Option<NodeId>,
    ) -> (r: Result<VText, DomError>)
        requires
            old(dom).wf(),
            old(dom).is_element(parent),
            old_tree matches Some(o) ==> o.mounted_in(*old(dom), parent) && !o.owned().contains(
                parent,
            ),
            next matches Some(rf) ==> old(dom).children_of(parent).contains(rf) && (
            old_tree matches Some(o) ==> !o.owned().contains(rf)),
        ensures
            r is Ok,
            crate::patch_frame(
                *old(dom),
                *final(dom),
                parent,
                (match old_tree {
                    Some(o) => o.owned(),
                    None => Set::empty(),
                }),
            ),
            r matches Ok(m) ==> m.skel_eq(self) && m.mounted_in(*final(dom), parent) && (forall|
                k: NodeId,
            |
                #[trigger] m.owned().contains(k) ==> (old_tree matches Some(o) && o.owned()
                    .contains(k)) || old(dom).nodes@.len() <= k < final(dom).nodes@.len()),
            old_tree matches Some(o) && self.skel_eq(o) ==> *final(dom) == *old(dom),
            old_tree is None ==> crate::ops_mount_only(old(dom).ops, final(dom).ops),
            old_tree is None ==> (r matches Ok(m) && m.spec_node() matches Some(id) ==> id
                >= old(dom).nodes@.len()),
            old_tree matches Some(o) ==> (r matches Ok(m) ==> m.spec_node() == o.spec_node()),
            old_tree matches Some(o) ==> old(dom).ops.same_nodes(final(dom).ops) && final(dom).ops
                == (crate::dom::OpCounts {
                text_sets: if self.text@ == o.text@ {
                    old(dom).ops.text_sets
                } else {
                    crate::bump(old(dom).ops.text_sets)
                },
                ..old(dom).ops
            }),
            old_tree is None ==> (r matches Ok(m) ==> ({
                let prior = old(dom).children_of(parent);
                let after = final(dom).children_of(parent);
                exists|i: int|
                    0 <= i <= prior.len() && after == prior.insert(i, m.spec_node()->Some_0) && (
                    next is None ==> i == prior.len()) && (next matches Some(rf) ==> i
                        < prior.len() && prior[i] == rf)
            })),
    {
        let VText { text, node: _ } = self;
        match old_tree {
            Some(o) => {
                let id = match o.node {
                    Some(i) => i,
                    None => {
                        proof {
                            assert(false);
                        }
                        return Err(DomError::NoSuchNode);
                    },
                };
                if !(text == o.text) {
                    let res = dom.set_text(id, text.clone());
                    proof {
                        assert(res is Ok);
                        assert(id != parent);
                    }
                }
                Ok(VText { text, node: Some(id) })
            },
            None => {
                let id = dom.create_text(text.clone());
                proof {
                    assert(dom.children_of(parent) == old(dom).children_of(parent));
                }
                let res = dom.insert_before(parent, id, next);
                proof {
                    assert(res is Ok);
                    let prior = old(dom).children_of(parent);
                    let i = choose|i: int|
                        0 <= i <= prior.len() && dom.children_of(parent) == prior.insert(i, id);
                    crate::lemma_seq_insert_membership(prior, i, id);
                }
                Ok(VText { text, node: Some(id) })
            },
        }
    }

    /// The debug markup of the node: its text payload.
    pub fn markup_string(&self) -> (r: String)
        ensures
            r@ == self.text@,
    {
        self.text.clone()
    }

    /// Detaches the backing text node from `parent`.
    pub fn remove(self, dom: &mut LiveDom, parent: NodeId) -> (r: Result<(), DomError>)
        requires
            old(dom).wf(),
            old(dom).is_element(parent),
            self.mounted_in(*old(dom), parent),
            !self.owned().contains(parent),
        ensures
            r is Ok,
            crate::removed_ensures(*old(dom), *final(dom), parent, self.owned(), self.slots()),
    {
        let id = match self.node {
            Some(i) => i,
            None => {
                proof {
                    assert(false);
                }
                return Err(DomError::NoSuchNode);
            },
        };
        let r = dom.remove_child(parent, id);
        proof {
            let prior = old(dom).children_of(parent);
            let i = choose|i: int|
                0 <= i < prior.len() && prior[i] == id && (forall|j: int|
                    0 <= j < i ==> prior[j] != id) && dom.children_of(parent) == prior.remove(i);
            crate::lemma_seq_remove_membership(prior, i);
        }
        r
    }
}

} // verus!
