//! The element node kind.

use vstd::prelude::*;

verus! {

use crate::dom::{DomError, LiveDom, LiveKind, NodeId};
use crate::KeyedVNodes;
use vstd::string::StringExecFns;

/// One attribute of an element: a name and a value.
pub struct Attribute {
    /// The attribute name.
    pub name: String,
    /// The attribute value.
    pub value: String,
}

/// Pairwise equality of two attribute sequences, name and value.
pub open spec fn attrs_eq(a: Seq<Attribute>, b: Seq<Attribute>) -> bool {
    a.len() == b.len() && forall|i: int|
        0 <= i < a.len() ==> (#[trigger] a[i]).name@ == b[i].name@ && a[i].value@ == b[i].value@
}

/// No two attributes share a name.
pub open spec fn attrs_distinct(a: Seq<Attribute>) -> bool {
    forall|i: int, j: int|
        0 <= i < a.len() && 0 <= j < a.len() && (#[trigger] a[i]).name@ == (#[trigger] a[j]).name@
            ==> i == j
}

/// Some live pair carries this name with this value.
pub open spec fn attr_present(live: Seq<(String, String)>, name: Seq<char>, value: Seq<
    char,
>) -> bool {
    exists|j: int| 0 <= j < live.len() && (#[trigger] live[j]).0@ == name && live[j].1@ == value
}

/// Some vnode attribute carries this name with this value.
pub open spec fn attr_wanted(want: Seq<Attribute>, name: Seq<char>, value: Seq<char>) -> bool {
    exists|i: int|
        0 <= i < want.len() && (#[trigger] want[i]).name@ == name && want[i].value@ == value
}

/// Some live pair carries this name.
pub open spec fn name_present(live: Seq<(String, String)>, name: Seq<char>) -> bool {
    exists|j: int| 0 <= j < live.len() && (#[trigger] live[j]).0@ == name
}

/// Some vnode attribute carries this name.
pub open spec fn name_wanted(want: Seq<Attribute>, name: Seq<char>) -> bool {
    exists|i: int| 0 <= i < want.len() && (#[trigger] want[i]).name@ == name
}

/// Removing one pair keeps every pair with another name, and adds none.
pub proof fn lemma_attr_remove(prior: Seq<(String, String)>, u: int)
    requires
        0 <= u < prior.len(),
    ensures
        forall|n: Seq<char>, v: Seq<char>|
            #[trigger] attr_present(prior, n, v) && prior[u].0@ != n ==> attr_present(
                prior.remove(u),
                n,
                v,
            ),
        forall|n: Seq<char>, v: Seq<char>|
            #[trigger] attr_present(prior.remove(u), n, v) ==> attr_present(prior, n, v),
{
    let after = prior.remove(u);
    assert forall|n: Seq<char>, v: Seq<char>|
        #[trigger] attr_present(prior, n, v) && prior[u].0@ != n implies attr_present(
        after,
        n,
        v,
    ) by {
        let j = choose|j: int| 0 <= j < prior.len() && (#[trigger] prior[j]).0@ == n && prior[j].1@ == v;
        if j < u {
            assert(after[j] == prior[j]);
        } else {
            assert(after[j - 1] == prior[j]);
        }
    }
    assert forall|n: Seq<char>, v: Seq<char>| #[trigger] attr_present(after, n, v)
        implies attr_present(prior, n, v) by {
        let j = choose|j: int| 0 <= j < after.len() && (#[trigger] after[j]).0@ == n && after[j].1@ == v;
        if j < u {
            assert(prior[j] == after[j]);
        } else {
            assert(prior[j + 1] == after[j]);
        }
    }
}

/// The live attribute pairs carry exactly the attributes of the vnode:
/// every vnode attribute appears with its value, and every live pair is
/// one of the vnode's.
pub open spec fn attrs_synced(want: Seq<Attribute>, live: Seq<(String, String)>) -> bool {
    &&& (forall|i: int|
        0 <= i < want.len() ==> attr_present(live, (#[trigger] want[i]).name@, want[i].value@))
    &&& (forall|j: int|
        0 <= j < live.len() ==> attr_wanted(want, (#[trigger] live[j]).0@, live[j].1@))
}

/// No two live attribute pairs share a name.
pub open spec fn live_attrs_distinct(live: Seq<(String, String)>) -> bool {
    forall|i: int, j: int|
        0 <= i < live.len() && 0 <= j < live.len() && (#[trigger] live[i]).0@ == (
        #[trigger] live[j]).0@ ==> i == j
}

/// The first index among `attrs` whose name is `name`, with a guarantee
/// of minimality; `None` when the name does not occur.
fn find_attr_named(attrs: &Vec<Attribute>, name: &String) -> (r: Option<usize>)
    ensures
        r matches Some(i) ==> 0 <= i < attrs@.len() && attrs@[i as int].name@ == name@ && (forall|
            j: int,
        | 0 <= j < i ==> attrs@[j].name@ != name@),
        r is None ==> forall|j: int| 0 <= j < attrs@.len() ==> attrs@[j].name@ != name@,
{
    let mut i: usize = 0;
    while i < attrs.len()
        invariant
            0 <= i <= attrs@.len(),
            forall|j: int| 0 <= j < i ==> attrs@[j].name@ != name@,
        decreases attrs@.len() - i,
    {
        if attrs[i].name == *name {
            return Some(i);
        }
        i = i + 1;
    }
    None
}

/// An element virtual node: a tag, an ordered attribute sequence, an
/// optional child subtree, and, once mounted, the handle of the live
/// element backing it.
pub struct VElement {
    /// The tag name.
    pub tag: String,
    /// The attributes, ordered as written.
    pub attributes: Vec<Attribute>,
    /// The child subtree, typically a list.
    pub child: Option<Box<KeyedVNodes>>,
    /// The backing-node link: absent before first mount, present thereafter
    /// until removal.
    pub node: Option<NodeId>,
}

impl VElement {
    /// Same shape: same tag, pairwise equal attributes, and children of
    /// the same shape.
    pub open spec fn skel_eq(self, other: VElement) -> bool
        decreases self,
    {
        &&& self.tag@ == other.tag@
        &&& attrs_eq(self.attributes@, other.attributes@)
        &&& match (self.child, other.child) {
            (None, None) => true,
            (Some(a), Some(b)) => a.skel_eq(*b),
            _ => false,
        }
    }

    /// Not yet mounted, throughout the subtree.
    pub open spec fn is_fresh(self) -> bool
        decreases self,
    {
        &&& self.node is None
        &&& match self.child {
            Some(c) => c.is_fresh(),
            None => true,
        }
    }

    /// Structurally well formed: attribute names are distinct, and the
    /// child subtree is well formed.
    pub open spec fn tree_wf(self) -> bool
        decreases self,
    {
        &&& attrs_distinct(self.attributes@)
        &&& match self.child {
            Some(c) => c.tree_wf(),
            None => true,
        }
    }

    /// The live nodes this subtree owns.
    pub open spec fn owned(self) -> Set<NodeId>
        decreases self,
    {
        let own: Set<NodeId> = match self.node {
            Some(id) => Set::empty().insert(id),
            None => Set::empty(),
        };
        match self.child {
            Some(c) => own.union(c.owned()),
            None => own,
        }
    }

    /// The root live node this subtree occupies in its parent.
    pub open spec fn slots(self) -> Set<NodeId> {
        match self.node {
            Some(id) => Set::empty().insert(id),
            None => Set::empty(),
        }
    }

    /// The backing node, once mounted.
    pub open spec fn spec_node(self) -> Option<NodeId> {
        self.node
    }

    /// The backing node, once mounted.
    pub fn node(&self) -> (r: Option<NodeId>)
        ensures
            r == self.spec_node(),
    {
        self.node
    }

    /// Mounted under `parent` and in sync: the backing link names a live
    /// element that is a child of `parent` and carries this tag, and the
    /// child subtree is mounted under that element.
    pub open spec fn mounted_in(self, dom: LiveDom, parent: NodeId) -> bool
        decreases self,
    {
        match self.node {
            Some(id) => {
                &&& dom.spec_valid(id)
                &&& (dom.nodes@[id as int].kind matches LiveKind::Element { tag } && tag@
                    == self.tag@)
                &&& dom.children_of(parent).contains(id)
                &&& attrs_synced(self.attributes@, dom.nodes@[id as int].attrs@)
                &&& live_attrs_distinct(dom.nodes@[id as int].attrs@)
                &&& match self.child {
                    Some(c) => c.mounted_in(dom, id) && !c.owned().contains(id),
                    None => true,
                }
            },
            None => false,
        }
    }

    /// The debug markup of the subtree: the tag in angle brackets around
    /// the child's markup.
    pub open spec fn spec_markup(self) -> Seq<char>
        decreases self,
    {
        let inner: Seq<char> = match self.child {
            Some(c) => c.spec_markup(),
            None => Seq::empty(),
        };
        "<"@ + self.tag@ + ">"@ + inner + "</"@ + self.tag@ + ">"@
    }

    /// The debug markup of the subtree, as a string.
    pub fn markup_string(&self) -> (r: String)
        ensures
            r@ == self.spec_markup(),
        decreases self,
    {
        let mut out = <String as StringExecFns>::from_str("<");
        out.append(self.tag.as_str());
        out.append(">");
        match &self.child {
            Some(c) => {
                let inner = c.markup_string();
                out.append(inner.as_str());
            },
            None => {},
        }
        out.append("</");
        out.append(self.tag.as_str());
        out.append(">");
        out
    }

    /// First mount: creates the backing element, sets its attributes,
    /// mounts the child subtree into it, then inserts it before `next`.
    pub(crate) fn mount(self, dom: &mut LiveDom, parent: NodeId, next: Option<NodeId>) -> (r:
        Result<VElement, DomError>)
        requires
            old(dom).wf(),
            old(dom).is_element(parent),
            self.is_fresh(),
            self.tree_wf(),
            next matches Some(rf) ==> old(dom).children_of(parent).contains(rf),
        ensures
            r is Ok,
            crate::patch_frame(*old(dom), *final(dom), parent, Set::empty()),
            r matches Ok(m) ==> m.skel_eq(self) && m.tree_wf() && m.mounted_in(
                *final(dom),
                parent,
            ) && (forall|k: NodeId|
                #[trigger] m.owned().contains(k) ==> old(dom).nodes@.len() <= k
                    < final(dom).nodes@.len()) && (m.spec_node() matches Some(id) && id >= old(
                dom,
            ).nodes@.len()),
            crate::ops_mount_only(old(dom).ops, final(dom).ops),
            r matches Ok(m) ==> ({
                let prior = old(dom).children_of(parent);
                let after = final(dom).children_of(parent);
                exists|i: int|
                    0 <= i <= prior.len() && after == prior.insert(i, m.spec_node()->Some_0) && (
                    next is None ==> i == prior.len()) && (next matches Some(rf) ==> i
                        < prior.len() && prior[i] == rf)
            }),
        decreases self, 0int,
    {
        let ghost d0 = *old(dom);
        let VElement { tag, attributes, child, node: _ } = self;
        let id = dom.create_element(tag.clone());
        let ghost d1 = *dom;
        let mut ai: usize = 0;
        while ai < attributes.len()
            invariant
                dom.wf(),
                id < d1.nodes@.len(),
                dom.nodes@.len() == d1.nodes@.len(),
                forall|k: int|
                    0 <= k < d1.nodes@.len() && k != id ==> dom.nodes@[k] == d1.nodes@[k],
                dom.nodes@[id as int].kind == d1.nodes@[id as int].kind,
                dom.nodes@[id as int].children@ == d1.nodes@[id as int].children@,
                dom.is_element(id),
                dom.ops == (crate::dom::OpCounts { attr_sets: dom.ops.attr_sets, ..d1.ops }),
                attrs_distinct(attributes@),
                0 <= ai <= attributes@.len(),
                dom.nodes@[id as int].attrs@.len() == ai,
                forall|j: int|
                    0 <= j < ai ==> (#[trigger] dom.nodes@[id as int].attrs@[j]).0@
                        == attributes@[j].name@ && dom.nodes@[id as int].attrs@[j].1@
                        == attributes@[j].value@,
            decreases attributes@.len() - ai,
        {
            let a = &attributes[ai];
            let ghost prior = dom.nodes@[id as int].attrs@;
            proof {
                assert forall|j: int| 0 <= j < prior.len() implies (#[trigger] prior[j]).0@
                    != a.name@ by {
                    assert(prior[j].0@ == attributes@[j].name@);
                }
                assert(!crate::dom::has_attr(prior, a.name@));
            }
            let res = dom.set_attribute(id, a.name.clone(), a.value.clone());
            proof {
                assert(res is Ok);
            }
            ai = ai + 1;
        }
        proof {
            let live = dom.nodes@[id as int].attrs@;
            assert(attrs_synced(attributes@, live)) by {
                assert forall|i: int| 0 <= i < attributes@.len() implies attr_present(
                    live,
                    (#[trigger] attributes@[i]).name@,
                    attributes@[i].value@,
                ) by {
                    assert(live[i].0@ == attributes@[i].name@ && live[i].1@
                        == attributes@[i].value@);
                }
                assert forall|j: int| 0 <= j < live.len() implies attr_wanted(
                    attributes@,
                    (#[trigger] live[j]).0@,
                    live[j].1@,
                ) by {
                    assert(attributes@[j].name@ == live[j].0@ && attributes@[j].value@
                        == live[j].1@);
                }
            }
            assert(live_attrs_distinct(live));
        }
        let ghost d2 = *dom;
        let child_m: Option<Box<KeyedVNodes>> = match child {
            Some(c) => {
                proof {
                    assert(decreases_to!(self => *c));
                }
                let cm = (*c).patch(None, dom, id, None);
                match cm {
                    Ok(cm) => Some(Box::new(cm)),
                    Err(e) => {
                        proof {
                            assert(false);
                        }
                        return Err(e);
                    },
                }
            },
            None => None,
        };
        let ghost d3 = *dom;
        proof {
            assert(dom.nodes@[parent as int] == d0.nodes@[parent as int]);
            assert(dom.children_of(parent) == d0.children_of(parent));
            assert forall|c: NodeId| #[trigger] dom.children_of(parent).contains(c) implies c
                != id by {
                let j = choose|j: int|
                    0 <= j < d0.children_of(parent).len() && d0.children_of(parent)[j] == c;
            }
        }
        let res = dom.insert_before(parent, id, next);
        proof {
            assert(res is Ok);
            let prior = old(dom).children_of(parent);
            let i = choose|i: int|
                0 <= i <= prior.len() && dom.children_of(parent) == prior.insert(i, id);
            crate::lemma_seq_insert_membership(prior, i, id);
            match &child_m {
                Some(cm) => {
                    assert forall|k: NodeId| #[trigger] cm.owned().contains(k) implies dom.nodes@[k as int]
                        == d3.nodes@[k as int] by {
                        assert(k != parent);
                    }
                    crate::lemma_mounted_frame(**cm, d3, *dom, id);
                },
                None => {},
            }
        }
        let m = VElement { tag, attributes, child: child_m, node: Some(id) };
        proof {
            assert(m.tag@ == self.tag@);
            assert(attrs_eq(m.attributes@, self.attributes@));
            assert(m.skel_eq(self));
            assert(m.tree_wf());
            assert(dom.children_of(parent).contains(id));
            match &m.child {
                Some(c) => {
                    assert(c.mounted_in(*dom, id));
                    assert forall|k: NodeId| #[trigger] c.owned().contains(k) implies k != id by {
                        assert(d3.nodes@.len() >= d2.nodes@.len());
                    }
                    assert(!c.owned().contains(id));
                },
                None => {},
            }
            assert(m.mounted_in(*dom, parent));
            assert forall|k: NodeId| #[trigger] m.owned().contains(k) implies d0.nodes@.len() <= k
                < dom.nodes@.len() by {
                if k != id {
                    match &m.child {
                        Some(c) => {
                            assert(c.owned().contains(k));
                            assert(d2.nodes@.len() <= k < d3.nodes@.len());
                        },
                        None => {},
                    }
                }
            }
        }
        Ok(m)
    }

    /// Patches the live tree to show this element. Against a previous
    /// element with the same tag, the attributes are diffed name by name
    /// (only differing values are written, stale names are removed) and the
    /// child subtree is patched in place; a different tag is a kind
    /// mismatch, tearing the old subtree down and mounting this one fresh.
    /// Against nothing, this is a first mount. Patching against a
    /// same-shape element issues no call at all.
    pub fn patch(
        self,
        old_tree: Option<VElement>,
        dom: &mut LiveDom,
        parent: NodeId,
        next: Option<NodeId>,
    ) -> (r: Result<VElement, DomError>)
        requires
            old(dom).wf(),
            old(dom).is_element(parent),
            self.is_fresh(),
            self.tree_wf(),
            old_tree matches Some(o) ==> o.mounted_in(*old(dom), parent) && o.tree_wf()
                && !o.owned().contains(parent),
            next matches Some(rf) ==> old(dom).children_of(parent).contains(rf) && (
            old_tree matches Some(o) ==> !o.owned().contains(rf)),
        ensures
            r is Ok,
            crate::patch_frame(
                *old(dom),
                *final(dom),
                parent,
                (match old_tree {
                    Some(o) => o.owned(),
                    None => Set::empty(),
                }),
            ),
            r matches Ok(m) ==> m.skel_eq(self) && m.tree_wf() && m.mounted_in(
                *final(dom),
                parent,
            ) && (forall|k: NodeId|
                #[trigger] m.owned().contains(k) ==> (old_tree matches Some(o) && o.owned()
                    .contains(k)) || old(dom).nodes@.len() <= k < final(dom).nodes@.len()),
            old_tree matches Some(o) && self.skel_eq(o) ==> *final(dom) == *old(dom),
            old_tree is None ==> crate::ops_mount_only(old(dom).ops, final(dom).ops),
            old_tree is None ==> (r matches Ok(m) ==> (m.spec_node() matches Some(id) && id
                >= old(dom).nodes@.len())),
            old_tree matches Some(o) ==> (self.tag@ != o.tag@ ==> ((r matches Ok(m) ==> (
            m.spec_node() matches Some(id) && id >= old(dom).nodes@.len())) && (forall|s: NodeId|
                #[trigger] o.slots().contains(s) ==> !final(dom).children_of(parent).contains(
                    s,
                )))),
            old_tree matches Some(o) ==> (self.tag@ == o.tag@ ==> (r matches Ok(m) ==> m.spec_node()
                == o.spec_node())),
            old_tree is None ==> (r matches Ok(m) ==> ({
                let prior = old(dom).children_of(parent);
                let after = final(dom).children_of(parent);
                exists|i: int|
                    0 <= i <= prior.len() && after == prior.insert(i, m.spec_node()->Some_0) && (
                    next is None ==> i == prior.len()) && (next matches Some(rf) ==> i
                        < prior.len() && prior[i] == rf)
            })),
        decreases self, 1int,
    {
        let ghost d0 = *old(dom);
        let o = match old_tree {
            None => {
                return self.mount(dom, parent, next);
            },
            Some(o) => o,
        };
        if !(self.tag == o.tag) {
            let ghost oghost = o;
            let res = o.remove(dom, parent);
            proof {
                assert(res is Ok);
            }
            let r = self.mount(dom, parent, next);
            proof {
                match &r {
                    Ok(_) => {
                        crate::lemma_mounted_owned_valid(
                            crate::KeyedVNodes { key: None, vnode: crate::VNode::Element(oghost) },
                            d0,
                            parent,
                        );
                        assert forall|s: NodeId| #[trigger] oghost.slots().contains(s)
                            implies !dom.children_of(parent).contains(s) by {
                            crate::lemma_slots_sub_owned(
                                crate::KeyedVNodes {
                                    key: None,
                                    vnode: crate::VNode::Element(oghost),
                                },
                            );
                            assert(crate::KeyedVNodes {
                                key: None,
                                vnode: crate::VNode::Element(oghost),
                            }.owned().contains(s));
                        }
                    },
                    Err(_) => {},
                }
            }
            return r;
        }
        let ghost sg = self;
        let ghost og2 = o;
        let VElement { tag, attributes, child, node: _ } = self;
        let VElement { tag: _, attributes: oattrs, child: ochild, node: onode } = o;
        let id = match onode {
            Some(i) => i,
            None => {
                proof {
                    assert(false);
                }
                return Err(DomError::NoSuchNode);
            },
        };
        proof {
            assert(id != parent || !o.mounted_in(d0, parent));
            assert(o.owned().contains(id));
            assert(id != parent);
        }
        proof {
            assert(attrs_synced(oattrs@, d0.nodes@[id as int].attrs@));
            assert forall|j2: int| 0 <= j2 < oattrs@.len() implies name_present(
                d0.nodes@[id as int].attrs@,
                (#[trigger] oattrs@[j2]).name@,
            ) by {
                assert(attr_present(
                    d0.nodes@[id as int].attrs@,
                    oattrs@[j2].name@,
                    oattrs@[j2].value@,
                ));
                let jw = choose|jw: int|
                    0 <= jw < d0.nodes@[id as int].attrs@.len() && (#[trigger] d0.nodes@[id as int]
                        .attrs@[jw]).0@ == oattrs@[j2].name@ && d0.nodes@[id as int].attrs@[jw].1@
                        == oattrs@[j2].value@;
            }
            assert forall|j: int| 0 <= j < d0.nodes@[id as int].attrs@.len() implies name_wanted(
                oattrs@,
                (#[trigger] d0.nodes@[id as int].attrs@[j]).0@,
            ) by {
                assert(attr_wanted(
                    oattrs@,
                    d0.nodes@[id as int].attrs@[j].0@,
                    d0.nodes@[id as int].attrs@[j].1@,
                ));
                let iw = choose|iw: int|
                    0 <= iw < oattrs@.len() && (#[trigger] oattrs@[iw]).name@ == d0.nodes@[id as int]
                        .attrs@[j].0@ && oattrs@[iw].value@ == d0.nodes@[id as int].attrs@[j].1@;
            }
        }
        let mut ai: usize = 0;
        while ai < attributes.len()
            invariant
                dom.wf(),
                id < d0.nodes@.len(),
                id != parent,
                dom.nodes@.len() == d0.nodes@.len(),
                forall|k: int|
                    0 <= k < d0.nodes@.len() && k != id ==> dom.nodes@[k] == d0.nodes@[k],
                dom.nodes@[id as int].kind == d0.nodes@[id as int].kind,
                dom.nodes@[id as int].children@ == d0.nodes@[id as int].children@,
                dom.is_element(id),
                dom.ops == (crate::dom::OpCounts { attr_sets: dom.ops.attr_sets, ..d0.ops }),
                attrs_distinct(oattrs@),
                attrs_distinct(attributes@),
                0 <= ai <= attributes@.len(),
                attrs_eq(attributes@, oattrs@) ==> *dom == d0,
                live_attrs_distinct(dom.nodes@[id as int].attrs@),
                forall|i: int|
                    0 <= i < ai ==> attr_present(
                        dom.nodes@[id as int].attrs@,
                        (#[trigger] attributes@[i]).name@,
                        attributes@[i].value@,
                    ),
                forall|j: int|
                    0 <= j < dom.nodes@[id as int].attrs@.len() ==> (attr_wanted(
                        attributes@,
                        (#[trigger] dom.nodes@[id as int].attrs@[j]).0@,
                        dom.nodes@[id as int].attrs@[j].1@,
                    ) || (attr_wanted(
                        oattrs@,
                        dom.nodes@[id as int].attrs@[j].0@,
                        dom.nodes@[id as int].attrs@[j].1@,
                    ) && (forall|i: int|
                        0 <= i < ai ==> (#[trigger] attributes@[i]).name@ != dom.nodes@[id as int]
                            .attrs@[j].0@))),
                forall|j2: int|
                    0 <= j2 < oattrs@.len() ==> name_present(
                        dom.nodes@[id as int].attrs@,
                        (#[trigger] oattrs@[j2]).name@,
                    ),
                forall|j: int|
                    0 <= j < dom.nodes@[id as int].attrs@.len() ==> (name_wanted(
                        oattrs@,
                        (#[trigger] dom.nodes@[id as int].attrs@[j]).0@,
                    ) || name_wanted(attributes@, dom.nodes@[id as int].attrs@[j].0@)),
            decreases attributes@.len() - ai,
        {
            let a = &attributes[ai];
            let ghost lpre = dom.nodes@[id as int].attrs@;
            let mut write = true;
            match find_attr_named(&oattrs, &a.name) {
                Some(j) => {
                    if oattrs[j].value == a.value {
                        write = false;
                        proof {
                            assert(name_present(lpre, a.name@));
                            let jx = choose|jx: int|
                                0 <= jx < lpre.len() && (#[trigger] lpre[jx]).0@ == a.name@;
                            if attr_wanted(attributes@, lpre[jx].0@, lpre[jx].1@) {
                                let i2 = choose|i2: int|
                                    0 <= i2 < attributes@.len() && (#[trigger] attributes@[i2]).name@
                                        == lpre[jx].0@ && attributes@[i2].value@ == lpre[jx].1@;
                                assert(i2 == ai);
                            } else {
                                let j2 = choose|j2: int|
                                    0 <= j2 < oattrs@.len() && (#[trigger] oattrs@[j2]).name@
                                        == lpre[jx].0@ && oattrs@[j2].value@ == lpre[jx].1@;
                                assert(j2 == j);
                            }
                            assert(lpre[jx].1@ == a.value@);
                            assert(attr_present(lpre, a.name@, a.value@));
                            assert forall|j3: int|
                                0 <= j3 < lpre.len() implies (attr_wanted(
                                attributes@,
                                (#[trigger] lpre[j3]).0@,
                                lpre[j3].1@,
                            ) || (attr_wanted(oattrs@, lpre[j3].0@, lpre[j3].1@) && (forall|i: int|
                                0 <= i < ai + 1 ==> (#[trigger] attributes@[i]).name@
                                    != lpre[j3].0@))) by {
                                if lpre[j3].0@ == a.name@ {
                                    assert(j3 == jx);
                                    assert(attr_wanted(attributes@, lpre[j3].0@, lpre[j3].1@));
                                }
                            }
                        }
                    }
                },
                None => {},
            }
            if write {
                let res = dom.set_attribute(id, a.name.clone(), a.value.clone());
                proof {
                    assert(res is Ok);
                    let lnow = dom.nodes@[id as int].attrs@;
                    if crate::dom::has_attr(lpre, a.name@) {
                        let u = choose|u: int|
                            0 <= u < lpre.len() && lpre[u].0@ == a.name@ && (forall|jj: int|
                                0 <= jj < u ==> lpre[jj].0@ != a.name@) && lnow == lpre.update(
                                u,
                                (a.name, a.value),
                            );
                        assert(lnow[u].0@ == a.name@ && lnow[u].1@ == a.value@);
                        assert forall|j3: int| 0 <= j3 < lnow.len() && j3 != u implies lnow[j3]
                            == lpre[j3] by {}
                        assert(live_attrs_distinct(lnow)) by {
                            assert forall|x: int, y: int|
                                0 <= x < lnow.len() && 0 <= y < lnow.len() && (
                                #[trigger] lnow[x]).0@ == (#[trigger] lnow[y]).0@ implies x
                                == y by {
                                assert(lnow[x].0@ == lpre[x].0@);
                                assert(lnow[y].0@ == lpre[y].0@);
                            }
                        }
                        assert forall|i: int|
                            0 <= i < ai + 1 implies attr_present(
                            lnow,
                            (#[trigger] attributes@[i]).name@,
                            attributes@[i].value@,
                        ) by {
                            if i < ai {
                                let jw = choose|jw: int|
                                    0 <= jw < lpre.len() && (#[trigger] lpre[jw]).0@
                                        == attributes@[i].name@ && lpre[jw].1@
                                        == attributes@[i].value@;
                                assert(jw != u);
                                assert(lnow[jw] == lpre[jw]);
                            } else {
                                assert(lnow[u].0@ == attributes@[i].name@);
                            }
                        }
                        assert forall|j2: int|
                            0 <= j2 < oattrs@.len() implies name_present(
                            lnow,
                            (#[trigger] oattrs@[j2]).name@,
                        ) by {
                            let jw = choose|jw: int|
                                0 <= jw < lpre.len() && (#[trigger] lpre[jw]).0@
                                    == oattrs@[j2].name@;
                            assert(lnow[jw].0@ == lpre[jw].0@);
                        }
                    } else {
                        assert(lnow == lpre.push((a.name, a.value)));
                        assert(live_attrs_distinct(lnow)) by {
                            assert forall|x: int, y: int|
                                0 <= x < lnow.len() && 0 <= y < lnow.len() && (
                                #[trigger] lnow[x]).0@ == (#[trigger] lnow[y]).0@ implies x
                                == y by {
                                if x < lpre.len() && y == lpre.len() as int {
                                    assert(lpre[x].0@ == a.name@);
                                } else if y < lpre.len() && x == lpre.len() as int {
                                    assert(lpre[y].0@ == a.name@);
                                }
                            }
                        }
                        assert forall|i: int|
                            0 <= i < ai + 1 implies attr_present(
                            lnow,
                            (#[trigger] attributes@[i]).name@,
                            attributes@[i].value@,
                        ) by {
                            if i < ai {
                                let jw = choose|jw: int|
                                    0 <= jw < lpre.len() && (#[trigger] lpre[jw]).0@
                                        == attributes@[i].name@ && lpre[jw].1@
                                        == attributes@[i].value@;
                                assert(lnow[jw] == lpre[jw]);
                            } else {
                                assert(lnow[lpre.len() as int].0@ == attributes@[i].name@);
                            }
                        }
                        assert forall|j2: int|
                            0 <= j2 < oattrs@.len() implies name_present(
                            lnow,
                            (#[trigger] oattrs@[j2]).name@,
                        ) by {
                            let jw = choose|jw: int|
                                0 <= jw < lpre.len() && (#[trigger] lpre[jw]).0@
                                    == oattrs@[j2].name@;
                            assert(lnow[jw] == lpre[jw]);
                        }
                    }
                    assert forall|j3: int|
                        0 <= j3 < lnow.len() implies (attr_wanted(
                        attributes@,
                        (#[trigger] lnow[j3]).0@,
                        lnow[j3].1@,
                    ) || (attr_wanted(oattrs@, lnow[j3].0@, lnow[j3].1@) && (forall|i: int|
                        0 <= i < ai + 1 ==> (#[trigger] attributes@[i]).name@ != lnow[j3].0@)))
                        by {
                        if lnow[j3].0@ == a.name@ {
                            assert(lnow[j3].1@ == a.value@) by {
                                if j3 < lpre.len() && lnow[j3] == lpre[j3] {
                                    assert(live_attrs_distinct(lnow));
                                }
                            }
                            assert(attr_wanted(attributes@, lnow[j3].0@, lnow[j3].1@));
                        } else {
                            assert(j3 < lpre.len() && lnow[j3] == lpre[j3]);
                        }
                    }
                    assert forall|j3: int|
                        0 <= j3 < lnow.len() implies (name_wanted(
                        oattrs@,
                        (#[trigger] lnow[j3]).0@,
                    ) || name_wanted(attributes@, lnow[j3].0@)) by {
                        if lnow[j3].0@ == a.name@ {
                            assert(name_wanted(attributes@, lnow[j3].0@));
                        } else {
                            assert(j3 < lpre.len() && lnow[j3] == lpre[j3]);
                        }
                    }
                }
            }
            ai = ai + 1;
        }
        proof {
            let lmid = dom.nodes@[id as int].attrs@;
            assert forall|j: int|
                0 <= j < lmid.len() implies (attr_wanted(
                attributes@,
                (#[trigger] lmid[j]).0@,
                lmid[j].1@,
            ) || (!name_wanted(attributes@, lmid[j].0@) && (exists|j2: int|
                0 <= j2 < oattrs@.len() && (#[trigger] oattrs@[j2]).name@ == lmid[j].0@))) by {
                if !attr_wanted(attributes@, lmid[j].0@, lmid[j].1@) {
                    if name_wanted(attributes@, lmid[j].0@) {
                        let iw = choose|iw: int|
                            0 <= iw < attributes@.len() && (#[trigger] attributes@[iw]).name@
                                == lmid[j].0@;
                        assert(false);
                    }
                    let j2 = choose|j2: int|
                        0 <= j2 < oattrs@.len() && (#[trigger] oattrs@[j2]).name@ == lmid[j].0@;
                }
            }
        }
        let mut bi: usize = 0;
        while bi < oattrs.len()
            invariant
                dom.wf(),
                id < d0.nodes@.len(),
                id != parent,
                dom.nodes@.len() == d0.nodes@.len(),
                forall|k: int|
                    0 <= k < d0.nodes@.len() && k != id ==> dom.nodes@[k] == d0.nodes@[k],
                dom.nodes@[id as int].kind == d0.nodes@[id as int].kind,
                dom.nodes@[id as int].children@ == d0.nodes@[id as int].children@,
                dom.is_element(id),
                dom.ops == (crate::dom::OpCounts {
                    attr_sets: dom.ops.attr_sets,
                    attr_removes: dom.ops.attr_removes,
                    ..d0.ops
                }),
                attrs_distinct(oattrs@),
                attrs_distinct(attributes@),
                0 <= bi <= oattrs@.len(),
                attrs_eq(attributes@, oattrs@) ==> *dom == d0,
                live_attrs_distinct(dom.nodes@[id as int].attrs@),
                forall|i: int|
                    0 <= i < attributes@.len() ==> attr_present(
                        dom.nodes@[id as int].attrs@,
                        (#[trigger] attributes@[i]).name@,
                        attributes@[i].value@,
                    ),
                forall|j: int|
                    0 <= j < dom.nodes@[id as int].attrs@.len() ==> (attr_wanted(
                        attributes@,
                        (#[trigger] dom.nodes@[id as int].attrs@[j]).0@,
                        dom.nodes@[id as int].attrs@[j].1@,
                    ) || (!name_wanted(attributes@, dom.nodes@[id as int].attrs@[j].0@) && (exists|
                        j2: int,
                    |
                        bi <= j2 < oattrs@.len() && (#[trigger] oattrs@[j2]).name@
                            == dom.nodes@[id as int].attrs@[j].0@))),
            decreases oattrs@.len() - bi,
        {
            let a = &oattrs[bi];
            let ghost lpre = dom.nodes@[id as int].attrs@;
            match find_attr_named(&attributes, &a.name) {
                None => {
                    let res = dom.remove_attribute(id, &a.name);
                    proof {
                        assert(res is Ok);
                        if attrs_eq(attributes@, oattrs@) {
                            assert(attributes@[bi as int].name@ == a.name@);
                            assert(false);
                        }
                        let lnow = dom.nodes@[id as int].attrs@;
                        if crate::dom::has_attr(lpre, a.name@) {
                            let u = choose|u: int|
                                0 <= u < lpre.len() && lpre[u].0@ == a.name@ && (forall|jj: int|
                                    0 <= jj < u ==> lpre[jj].0@ != a.name@) && lnow == lpre.remove(
                                    u,
                                );
                            lemma_attr_remove(lpre, u);
                            assert forall|j3: int| 0 <= j3 < lnow.len() implies (#[trigger] lnow[j3])
                                == (if j3 < u {
                                lpre[j3]
                            } else {
                                lpre[j3 + 1]
                            }) by {}
                            assert(live_attrs_distinct(lnow));
                            assert forall|i: int|
                                0 <= i < attributes@.len() implies attr_present(
                                lnow,
                                (#[trigger] attributes@[i]).name@,
                                attributes@[i].value@,
                            ) by {
                                assert(attributes@[i].name@ != a.name@);
                                assert(attr_present(lpre, attributes@[i].name@, attributes@[i].value@));
                            }
                            assert forall|j3: int|
                                0 <= j3 < lnow.len() implies (attr_wanted(
                                attributes@,
                                (#[trigger] lnow[j3]).0@,
                                lnow[j3].1@,
                            ) || (!name_wanted(attributes@, lnow[j3].0@) && (exists|j2: int|
                                bi + 1 <= j2 < oattrs@.len() && (#[trigger] oattrs@[j2]).name@
                                    == lnow[j3].0@))) by {
                                let jo: int = if j3 < u { j3 } else { j3 + 1 };
                                assert(lnow[j3] == lpre[jo]);
                                assert(lnow[j3].0@ != a.name@);
                                if !attr_wanted(attributes@, lpre[jo].0@, lpre[jo].1@) {
                                    let j2 = choose|j2: int|
                                        bi <= j2 < oattrs@.len() && (#[trigger] oattrs@[j2]).name@
                                            == lpre[jo].0@;
                                    assert(j2 != bi);
                                }
                            }
                        } else {
                            assert(lnow == lpre);
                            assert forall|j3: int|
                                0 <= j3 < lnow.len() implies (attr_wanted(
                                attributes@,
                                (#[trigger] lnow[j3]).0@,
                                lnow[j3].1@,
                            ) || (!name_wanted(attributes@, lnow[j3].0@) && (exists|j2: int|
                                bi + 1 <= j2 < oattrs@.len() && (#[trigger] oattrs@[j2]).name@
                                    == lnow[j3].0@))) by {
                                if !attr_wanted(attributes@, lnow[j3].0@, lnow[j3].1@) {
                                    assert(lnow[j3].0@ != a.name@);
                                    let j2 = choose|j2: int|
                                        bi <= j2 < oattrs@.len() && (#[trigger] oattrs@[j2]).name@
                                            == lnow[j3].0@;
                                    assert(j2 != bi);
                                }
                            }
                        }
                    }
                },
                Some(i2) => {
                    proof {
                        assert forall|j3: int|
                            0 <= j3 < lpre.len() implies (attr_wanted(
                            attributes@,
                            (#[trigger] lpre[j3]).0@,
                            lpre[j3].1@,
                        ) || (!name_wanted(attributes@, lpre[j3].0@) && (exists|j2: int|
                            bi + 1 <= j2 < oattrs@.len() && (#[trigger] oattrs@[j2]).name@
                                == lpre[j3].0@))) by {
                            if !attr_wanted(attributes@, lpre[j3].0@, lpre[j3].1@) {
                                if lpre[j3].0@ == a.name@ {
                                    assert(name_wanted(attributes@, lpre[j3].0@));
                                    assert(false);
                                }
                                let j2 = choose|j2: int|
                                    bi <= j2 < oattrs@.len() && (#[trigger] oattrs@[j2]).name@
                                        == lpre[j3].0@;
                                assert(j2 != bi);
                            }
                        }
                    }
                },
            }
            bi = bi + 1;
        }
        proof {
            let lfin = dom.nodes@[id as int].attrs@;
            assert(attrs_synced(attributes@, lfin)) by {
                assert forall|j: int| 0 <= j < lfin.len() implies attr_wanted(
                    attributes@,
                    (#[trigger] lfin[j]).0@,
                    lfin[j].1@,
                ) by {
                    if !attr_wanted(attributes@, lfin[j].0@, lfin[j].1@) {
                        let j2 = choose|j2: int|
                            oattrs@.len() <= j2 < oattrs@.len() && (#[trigger] oattrs@[j2]).name@
                                == lfin[j].0@;
                        assert(false);
                    }
                }
            }
        }
        let ghost d2 = *dom;
        let child_m: Option<Box<KeyedVNodes>> = match (child, ochild) {
            (Some(nc), Some(oc)) => {
                proof {
                    assert(decreases_to!(self => *nc));
                    crate::lemma_mounted_owned_valid(
                        crate::KeyedVNodes { key: None, vnode: crate::VNode::Element(o) },
                        d0,
                        parent,
                    );
                    assert forall|k: NodeId| #[trigger] (*oc).owned().contains(k)
                        implies d2.nodes@[k as int] == d0.nodes@[k as int] by {
                        let wrap = (crate::KeyedVNodes {
                            key: None,
                            vnode: crate::VNode::Element(o),
                        });
                        assert(o.owned().contains(k));
                        assert(wrap.owned().contains(k));
                        assert(k < d0.nodes@.len());
                        assert(k != id);
                    }
                    crate::lemma_mounted_frame(*oc, d0, d2, id);
                }
                let cm = (*nc).patch(Some(*oc), dom, id, None);
                match cm {
                    Ok(cm) => Some(Box::new(cm)),
                    Err(e) => {
                        proof {
                            assert(false);
                        }
                        return Err(e);
                    },
                }
            },
            (Some(nc), None) => {
                proof {
                    assert(decreases_to!(self => *nc));
                }
                let cm = (*nc).patch(None, dom, id, None);
                match cm {
                    Ok(cm) => Some(Box::new(cm)),
                    Err(e) => {
                        proof {
                            assert(false);
                        }
                        return Err(e);
                    },
                }
            },
            (None, Some(oc)) => {
                proof {
                    crate::lemma_mounted_owned_valid(
                        crate::KeyedVNodes { key: None, vnode: crate::VNode::Element(o) },
                        d0,
                        parent,
                    );
                    assert forall|k: NodeId| #[trigger] (*oc).owned().contains(k)
                        implies d2.nodes@[k as int] == d0.nodes@[k as int] by {
                        let wrap = (crate::KeyedVNodes {
                            key: None,
                            vnode: crate::VNode::Element(o),
                        });
                        assert(o.owned().contains(k));
                        assert(wrap.owned().contains(k));
                        assert(k < d0.nodes@.len());
                        assert(k != id);
                    }
                    crate::lemma_mounted_frame(*oc, d0, d2, id);
                }
                let res = (*oc).remove(dom, id);
                proof {
                    assert(res is Ok);
                }
                None
            },
            (None, None) => None,
        };
        let m = VElement { tag, attributes, child: child_m, node: Some(id) };
        proof {
            assert(dom.nodes@[parent as int] == d0.nodes@[parent as int]);
            assert(m.tag@ == self.tag@);
            assert(attrs_eq(m.attributes@, self.attributes@));
            assert(m.skel_eq(self)) by {
                if m.child is Some {
                    assert((*m.child->Some_0).skel_eq(*sg.child->Some_0));
                }
            }
            assert(m.tree_wf());
            assert(dom.children_of(parent).contains(id));
            assert(dom.nodes@[id as int].kind == d0.nodes@[id as int].kind);
            match &m.child {
                Some(c) => {
                    assert(c.mounted_in(*dom, id));
                    assert forall|k: NodeId| #[trigger] c.owned().contains(k) implies k != id by {
                        if og2.child is Some {
                            if (*og2.child->Some_0).owned().contains(k) {
                                assert(o.owned().contains(k));
                            }
                        }
                    }
                    assert(!c.owned().contains(id));
                },
                None => {},
            }
            assert(m.mounted_in(*dom, parent));
            assert forall|k: NodeId| #[trigger] m.owned().contains(k) implies (o.owned().contains(
                k,
            ) || d0.nodes@.len() <= k < dom.nodes@.len()) by {
                if k != id {
                    if m.child is Some {
                        assert((*m.child->Some_0).owned().contains(k));
                        if og2.child is Some && (*og2.child->Some_0).owned().contains(k) {
                            assert(o.owned().contains(k));
                        }
                    }
                } else {
                    assert(o.owned().contains(k));
                }
            }
            if self.skel_eq(o) {
                if sg.child is Some {
                    assert((*sg.child->Some_0).skel_eq(*og2.child->Some_0));
                }
                assert(*dom == d0);
            }
        }
        Ok(m)
    }

    /// Bottom-up teardown: removes the child subtree from the element,
    /// then detaches the element itself from `parent`.
    pub fn remove(self, dom: &mut LiveDom, parent: NodeId) -> (r: Result<(), DomError>)
        requires
            old(dom).wf(),
            old(dom).is_element(parent),
            self.mounted_in(*old(dom), parent),
            !self.owned().contains(parent),
        ensures
            r is Ok,
            crate::removed_ensures(*old(dom), *final(dom), parent, self.owned(), self.slots()),
        decreases self,
    {
        let ghost d0 = *old(dom);
        let VElement { tag: _, attributes: _, child, node } = self;
        let id = match node {
            Some(i) => i,
            None => {
                proof {
                    assert(false);
                }
                return Err(DomError::NoSuchNode);
            },
        };
        proof {
            assert(id != parent);
        }
        match child {
            Some(c) => {
                let res = (*c).remove(dom, id);
                proof {
                    assert(res is Ok);
                }
            },
            None => {},
        }
        proof {
            assert(dom.nodes@[parent as int] == d0.nodes@[parent as int]);
            assert(dom.children_of(parent).contains(id));
        }
        let r = dom.remove_child(parent, id);
        proof {
            let prior = old(dom).children_of(parent);
            let i = choose|i: int|
                0 <= i < prior.len() && prior[i] == id && (forall|j: int|
                    0 <= j < i ==> prior[j] != id) && dom.children_of(parent) == prior.remove(i);
            crate::lemma_seq_remove_membership(prior, i);
        }
        r
    }
}

} // verus!
