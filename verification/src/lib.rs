//! A virtual-tree reconciliation engine.
//!
//! The crate maintains an in-memory representation of a rendered UI tree,
//! compares successive versions of that tree, and issues the mutations needed
//! to bring the live rendered tree in sync with the new version. The live
//! tree itself is the arena of [`dom::LiveDom`]; the node model is
//! [`KeyedVNodes`] over [`VNode`]; the component dirty-flag protocol lives in
//! [`component`].
//!
//! Two scope notes. [`VNode`] has no component variant: a component node
//! holds a type-erased instance behind dynamic dispatch, which the verifier
//! does not support; the decision logic a component node needs — the dirty
//! flags, the props comparison, and the re-render-iff-dirty rule — is
//! verified in [`component`], and a host drives the render step itself,
//! calling [`KeyedVNodes::patch`] with each render's output. And the patch
//! contracts pin membership, ownership, shape, text, tag and attribute
//! synchronization, reuse of matched backing nodes, the exact cost of a
//! text update, and the silence of a same-shape re-patch; the relative
//! *order* of siblings after a keyed reorder, and the bound that a pure
//! keyed reorder creates and destroys nothing, are exercised by the test
//! suite but are not carried in the contracts.

pub mod component;
pub mod dom;
pub mod velement;
pub mod vlist;
pub mod vtext;

use vstd::prelude::*;

verus! {

use crate::dom::{DomError, LiveDom, NodeId};
use crate::velement::VElement;
use crate::vlist::VList;
use crate::vtext::VText;

/// Saturating increment: the abstraction of "one more call was issued".
/// Operation counts saturate instead of overflowing; no contract of this
/// crate distinguishes a saturated count from a larger one.
pub open spec fn bump(x: u64) -> u64 {
    if x < u64::MAX {
        (x + 1) as u64
    } else {
        x
    }
}

/// Keys to identify a VNode in VDOM.
/// Only the basic types are supported.
pub enum Key {
    /// An `i64` key
    I64(i64),
    /// An `u64` key
    U64(u64),
    /// A `String` key
    String(String),
}

impl PartialEq for Key {
    /// Keys are equal only within the same variant and for the same value.
    fn eq(&self, other: &Key) -> (r: bool) {
        match (self, other) {
            (Key::I64(a), Key::I64(b)) => a == b,
            (Key::U64(a), Key::U64(b)) => a == b,
            (Key::String(a), Key::String(b)) => *a == *b,
            _ => false,
        }
    }
}

impl vstd::std_specs::cmp::PartialEqSpecImpl for Key {
    open spec fn obeys_eq_spec() -> bool {
        true
    }

    open spec fn eq_spec(&self, other: &Key) -> bool {
        key_eq(*self, *other)
    }
}

/// Structural key equality: same variant, same value. String keys compare
/// by their character sequences.
pub open spec fn key_eq(a: Key, b: Key) -> bool {
    match (a, b) {
        (Key::I64(x), Key::I64(y)) => x == y,
        (Key::U64(x), Key::U64(y)) => x == y,
        (Key::String(x), Key::String(y)) => x@ == y@,
        _ => false,
    }
}

/// Equality of the optional keys of two slots: both absent, or both present
/// and equal.
pub open spec fn opt_key_eq(a: Option<Key>, b: Option<Key>) -> bool {
    match (a, b) {
        (None, None) => true,
        (Some(x), Some(y)) => key_eq(x, y),
        _ => false,
    }
}

impl Key {
    /// Compares two optional keys: two `None` keys match (positional slot),
    /// two present keys match iff they are equal.
    pub fn opt_eq(a: &Option<Key>, b: &Option<Key>) -> (r: bool)
        ensures
            r == opt_key_eq(*a, *b),
    {
        match (a, b) {
            (None, None) => true,
            (Some(x), Some(y)) => x == y,
            _ => false,
        }
    }
}

impl From<i8> for Key {
    fn from(num: i8) -> Key {
        Key::I64(num as i64)
    }
}

impl vstd::std_specs::convert::FromSpecImpl<i8> for Key {
    open spec fn obeys_from_spec() -> bool {
        true
    }

    open spec fn from_spec(num: i8) -> Key {
        Key::I64(num as i64)
    }
}

impl From<i16> for Key {
    fn from(num: i16) -> Key {
        Key::I64(num as i64)
    }
}

impl vstd::std_specs::convert::FromSpecImpl<i16> for Key {
    open spec fn obeys_from_spec() -> bool {
        true
    }

    open spec fn from_spec(num: i16) -> Key {
        Key::I64(num as i64)
    }
}

impl From<i32> for Key {
    fn from(num: i32) -> Key {
        Key::I64(num as i64)
    }
}

impl vstd::std_specs::convert::FromSpecImpl<i32> for Key {
    open spec fn obeys_from_spec() -> bool {
        true
    }

    open spec fn from_spec(num: i32) -> Key {
        Key::I64(num as i64)
    }
}

impl From<i64> for Key {
    fn from(num: i64) -> Key {
        Key::I64(num)
    }
}

impl vstd::std_specs::convert::FromSpecImpl<i64> for Key {
    open spec fn obeys_from_spec() -> bool {
        true
    }

    open spec fn from_spec(num: i64) -> Key {
        Key::I64(num)
    }
}

impl From<u8> for Key {
    fn from(num: u8) -> Key {
        Key::U64(num as u64)
    }
}

impl vstd::std_specs::convert::FromSpecImpl<u8> for Key {
    open spec fn obeys_from_spec() -> bool {
        true
    }

    open spec fn from_spec(num: u8) -> Key {
        Key::U64(num as u64)
    }
}

impl From<u16> for Key {
    fn from(num: u16) -> Key {
        Key::U64(num as u64)
    }
}

impl vstd::std_specs::convert::FromSpecImpl<u16> for Key {
    open spec fn obeys_from_spec() -> bool {
        true
    }

    open spec fn from_spec(num: u16) -> Key {
        Key::U64(num as u64)
    }
}

impl From<u32> for Key {
    fn from(num: u32) -> Key {
        Key::U64(num as u64)
    }
}

impl vstd::std_specs::convert::FromSpecImpl<u32> for Key {
    open spec fn obeys_from_spec() -> bool {
        true
    }

    open spec fn from_spec(num: u32) -> Key {
        Key::U64(num as u64)
    }
}

impl From<u64> for Key {
    fn from(num: u64) -> Key {
        Key::U64(num)
    }
}

impl vstd::std_specs::convert::FromSpecImpl<u64> for Key {
    open spec fn obeys_from_spec() -> bool {
        true
    }

    open spec fn from_spec(num: u64) -> Key {
        Key::U64(num)
    }
}

impl Key {
    /// Builds a string key from a borrowed string, with its contents
    /// stated: unlike `From<&str>`, whose trait-level specification cannot
    /// denote the built `String`, this constructor pins the result.
    pub fn from_text(string: &str) -> (k: Key)
        ensures
            k matches Key::String(s) && s@ == string@,
    {
        Key::String(<String as vstd::string::StringExecFns>::from_str(string))
    }
}

impl<'a> From<&'a str> for Key {
    fn from(string: &'a str) -> Key {
        Key::from_text(string)
    }
}

/// What this conversion returns cannot be written down: no specification
/// expression builds a `String` value from a character sequence, so
/// `obeys_from_spec` is false and nothing is claimed of `Key::from(&str)`.
/// Where the contract matters, build the key with `Key::String` or
/// `From<String>` instead.
impl<'a> vstd::std_specs::convert::FromSpecImpl<&'a str> for Key {
    open spec fn obeys_from_spec() -> bool {
        false
    }

    open spec fn from_spec(string: &'a str) -> Key {
        vstd::pervasive::arbitrary()
    }
}

impl From<String> for Key {
    fn from(string: String) -> Key {
        Key::String(string)
    }
}

impl vstd::std_specs::convert::FromSpecImpl<String> for Key {
    open spec fn obeys_from_spec() -> bool {
        true
    }

    open spec fn from_spec(string: String) -> Key {
        Key::String(string)
    }
}

/// A keyed virtual node in a virtual DOM tree.
pub struct KeyedVNodes {
    /// A uniquely identifying key in the list of vnodes.
    pub key: Option<Key>,
    /// A virtual node.
    pub vnode: VNode,
}

/// A virtual node in a virtual DOM tree.
pub enum VNode {
    /// A text vnode.
    Text(VText),
    /// An element vnode.
    Element(VElement),
    /// A list vnode.
    List(VList),
}

impl KeyedVNodes {
    /// Constructor for a keyed VNode.
    pub fn keyed(key: Key, vnode: VNode) -> (r: KeyedVNodes)
        ensures
            r.key == Some(key),
            r.vnode == vnode,
    {
        KeyedVNodes { key: Some(key), vnode }
    }

    /// Constructor for an unkeyed VNode.
    pub fn unkeyed(vnode: VNode) -> (r: KeyedVNodes)
        ensures
            r.key is None,
            r.vnode == vnode,
    {
        KeyedVNodes { key: None, vnode }
    }

    /// Same logical slot and same shape: the keys match and the nodes have
    /// the same shape.
    pub open spec fn skel_eq(self, other: KeyedVNodes) -> bool
        decreases self,
    {
        opt_key_eq(self.key, other.key) && self.vnode.skel_eq(other.vnode)
    }

    /// Not yet mounted, throughout the subtree.
    pub open spec fn is_fresh(self) -> bool
        decreases self,
    {
        self.vnode.is_fresh()
    }

    /// Structurally well formed.
    pub open spec fn tree_wf(self) -> bool
        decreases self,
    {
        self.vnode.tree_wf()
    }

    /// The live nodes this subtree owns.
    pub open spec fn owned(self) -> Set<NodeId>
        decreases self,
    {
        self.vnode.owned()
    }

    /// The root live nodes this subtree occupies in its parent.
    pub open spec fn slots(self) -> Set<NodeId>
        decreases self,
    {
        self.vnode.slots()
    }

    /// The backing node, once mounted.
    pub open spec fn spec_node(self) -> Option<NodeId>
        decreases self,
    {
        self.vnode.spec_node()
    }

    /// Mounted under `parent` and in sync with the live tree.
    pub open spec fn mounted_in(self, dom: LiveDom, parent: NodeId) -> bool
        decreases self,
    {
        self.vnode.mounted_in(dom, parent)
    }

    /// The backing node of the subtree, once mounted.
    pub fn node(&self) -> (r: Option<NodeId>)
        ensures
            r == self.spec_node(),
        decreases self,
    {
        self.vnode.node()
    }

    /// The debug markup of the subtree.
    pub open spec fn spec_markup(self) -> Seq<char>
        decreases self,
    {
        self.vnode.spec_markup()
    }

    /// The debug markup of the subtree, as a string: text payloads and
    /// tags, in document order.
    pub fn markup_string(&self) -> (r: String)
        ensures
            r@ == self.spec_markup(),
        decreases self,
    {
        self.vnode.markup_string()
    }

    /// The leading live node of the subtree in document order: its backing
    /// node, except for a list, whose leading node is its first child's
    /// (the list's own anchor trails its children).
    pub fn lead_node(&self) -> (r: Option<NodeId>)
        ensures
            r matches Some(id) ==> self.slots().contains(id),
        decreases self,
    {
        match &self.vnode {
            VNode::Text(t) => t.node(),
            VNode::Element(e) => e.node(),
            VNode::List(l) => {
                let mut k: usize = 0;
                while k < l.children.len()
                    invariant
                        self.vnode matches VNode::List(l2) && l2 == l,
                        0 <= k <= l.children@.len(),
                    decreases l.children@.len() - k,
                {
                    match l.children[k].lead_node() {
                        Some(id) => {
                            proof {
                                crate::vlist::lemma_list_slots_elem(l.children@, k as int);
                                assert(l.children@[k as int].slots().contains(id));
                                assert(crate::vlist::list_slots(l.children@).contains(id));
                            }
                            return Some(id);
                        },
                        None => {},
                    }
                    k = k + 1;
                }
                match l.node {
                    Some(aid) => {
                        proof {
                            assert(l.slots().contains(aid));
                        }
                        Some(aid)
                    },
                    None => None,
                }
            },
        }
    }

    /// Appends to `ids` the root live nodes this subtree occupies in its
    /// parent, in document order: every appended handle is a slot of the
    /// subtree, and every slot of the subtree is appended.
    pub fn collect_slots(&self, ids: &mut Vec<NodeId>)
        ensures
            final(ids)@.len() >= old(ids)@.len(),
            forall|i: int| 0 <= i < old(ids)@.len() ==> final(ids)@[i] == old(ids)@[i],
            forall|i: int|
                old(ids)@.len() <= i < final(ids)@.len() ==> self.slots().contains(
                    #[trigger] final(ids)@[i],
                ),
            forall|s: NodeId|
                #[trigger] self.slots().contains(s) ==> exists|i: int|
                    old(ids)@.len() <= i < final(ids)@.len() && final(ids)@[i] == s,
        decreases self,
    {
        match &self.vnode {
            VNode::Text(t) => {
                match t.node {
                    Some(id) => {
                        ids.push(id);
                        proof {
                            assert forall|s: NodeId| #[trigger] self.slots().contains(s)
                                implies exists|i: int|
                                old(ids)@.len() <= i < ids@.len() && ids@[i] == s by {
                                assert(s == id);
                                assert(ids@[old(ids)@.len() as int] == id);
                            }
                        }
                    },
                    None => (),
                }
            },
            VNode::Element(e) => {
                match e.node {
                    Some(id) => {
                        ids.push(id);
                        proof {
                            assert forall|s: NodeId| #[trigger] self.slots().contains(s)
                                implies exists|i: int|
                                old(ids)@.len() <= i < ids@.len() && ids@[i] == s by {
                                assert(s == id);
                                assert(ids@[old(ids)@.len() as int] == id);
                            }
                        }
                    },
                    None => (),
                }
            },
            VNode::List(l) => {
                let mut k: usize = 0;
                while k < l.children.len()
                    invariant
                        self.vnode matches VNode::List(l2) && l2 == l,
                        0 <= k <= l.children@.len(),
                        ids@.len() >= old(ids)@.len(),
                        forall|i: int| 0 <= i < old(ids)@.len() ==> ids@[i] == old(ids)@[i],
                        forall|i: int|
                            old(ids)@.len() <= i < ids@.len() ==> self.slots().contains(
                                #[trigger] ids@[i],
                            ),
                        forall|x: int, s: NodeId|
                            0 <= x < k && (#[trigger] l.children@[x].slots().contains(s))
                                ==> exists|i: int|
                                old(ids)@.len() <= i < ids@.len() && ids@[i] == s,
                    decreases l.children@.len() - k,
                {
                    let ghost pre = ids@;
                    l.children[k].collect_slots(ids);
                    proof {
                        crate::vlist::lemma_list_slots_elem(l.children@, k as int);
                        assert forall|i: int|
                            old(ids)@.len() <= i < ids@.len() implies self.slots().contains(
                            #[trigger] ids@[i],
                        ) by {
                            if i >= pre.len() {
                                assert(l.children@[k as int].slots().contains(ids@[i]));
                                assert(crate::vlist::list_slots(l.children@).contains(ids@[i]));
                            }
                        }
                        assert forall|x: int, s: NodeId|
                            0 <= x < k + 1 && (#[trigger] l.children@[x].slots().contains(s))
                                implies exists|i: int|
                            old(ids)@.len() <= i < ids@.len() && ids@[i] == s by {
                            if x < k {
                                let i = choose|i: int|
                                    old(ids)@.len() <= i < pre.len() && pre[i] == s;
                                assert(ids@[i] == s);
                            } else {
                                let i = choose|i: int|
                                    pre.len() <= i < ids@.len() && ids@[i] == s;
                            }
                        }
                    }
                    k = k + 1;
                }
                let ghost mid = ids@;
                match l.node {
                    Some(aid) => {
                        proof {
                            assert(l.slots().contains(aid));
                        }
                        ids.push(aid);
                    },
                    None => {},
                }
                proof {
                    assert forall|s: NodeId| #[trigger] self.slots().contains(s)
                        implies exists|i: int|
                        old(ids)@.len() <= i < ids@.len() && ids@[i] == s by {
                        if crate::vlist::list_slots(l.children@).contains(s) {
                            let x = choose|x: int|
                                0 <= x < l.children@.len() && (#[trigger] l.children@[x]).slots()
                                    .contains(s);
                            let i = choose|i: int|
                                old(ids)@.len() <= i < mid.len() && mid[i] == s;
                            assert(ids@[i] == s);
                        } else {
                            assert(s == l.node->Some_0);
                            assert(ids@[mid.len() as int] == s);
                        }
                    }
                }
            },
        }
    }

    /// Tears the subtree down: detaches its backing nodes from `parent`,
    /// children first.
    pub fn remove(self, dom: &mut LiveDom, parent: NodeId) -> (r: Result<(), DomError>)
        requires
            old(dom).wf(),
            old(dom).is_element(parent),
            self.mounted_in(*old(dom), parent),
            !self.owned().contains(parent),
        ensures
            r is Ok,
            removed_ensures(*old(dom), *final(dom), parent, self.owned(), self.slots()),
        decreases self,
    {
        let KeyedVNodes { key: _, vnode } = self;
        vnode.remove(dom, parent)
    }

    /// Patches the live tree to show this subtree. A previous subtree in
    /// the same logical slot (matching key, or both unkeyed) is updated in
    /// place; a mismatched key tears the old subtree down and mounts this
    /// one fresh in its place; no previous subtree is a first mount.
    /// Patching a subtree against a same-shape one issues no call at all.
    pub fn patch(
        self,
        old_tree: Option<KeyedVNodes>,
        dom: &mut LiveDom,
        parent: NodeId,
        next: Option<NodeId>,
    ) -> (r: Result<KeyedVNodes, DomError>)
        requires
            old(dom).wf(),
            old(dom).is_element(parent),
            self.is_fresh(),
            self.tree_wf(),
            old_tree matches Some(o) ==> o.mounted_in(*old(dom), parent) && o.tree_wf()
                && !o.owned().contains(parent),
            next matches Some(rf) ==> old(dom).children_of(parent).contains(rf) && (
            old_tree matches Some(o) ==> !o.owned().contains(rf)),
        ensures
            r is Ok,
            patch_frame(
                *old(dom),
                *final(dom),
                parent,
                (match old_tree {
                    Some(o) => o.owned(),
                    None => Set::empty(),
                }),
            ),
            r matches Ok(m) ==> m.key == self.key && m.skel_eq(self) && m.tree_wf()
                && m.mounted_in(*final(dom), parent) && (forall|k: NodeId|
                #[trigger] m.owned().contains(k) ==> (old_tree matches Some(o) && o.owned()
                    .contains(k)) || old(dom).nodes@.len() <= k < final(dom).nodes@.len()),
            old_tree matches Some(o) && self.skel_eq(o) ==> *final(dom) == *old(dom),
            old_tree is None ==> ops_mount_only(old(dom).ops, final(dom).ops),
            old_tree matches Some(o) ==> (!opt_key_eq(self.key, o.key) ==> ((r matches Ok(m) ==> (
            m.spec_node() matches Some(id) ==> id >= old(dom).nodes@.len())) && (forall|s: NodeId|
                #[trigger] o.slots().contains(s) ==> !final(dom).children_of(parent).contains(
                    s,
                )))),
            old_tree matches Some(o) ==> (opt_key_eq(self.key, o.key) ==> (self.vnode
                matches VNode::Text(t) ==> (o.vnode matches VNode::Text(ot) ==> ((r matches Ok(m)
                ==> m.spec_node() == o.spec_node()) && final(dom).ops == (crate::dom::OpCounts {
                text_sets: if t.text@ == ot.text@ {
                    old(dom).ops.text_sets
                } else {
                    bump(old(dom).ops.text_sets)
                },
                ..old(dom).ops
            }))))),
            old_tree matches Some(o) ==> (opt_key_eq(self.key, o.key) ==> (self.vnode
                matches VNode::Element(e) ==> (o.vnode matches VNode::Element(oe) ==> (e.tag@
                == oe.tag@ ==> (r matches Ok(m) ==> m.spec_node() == o.spec_node()))))),
            old_tree matches Some(o) ==> (opt_key_eq(self.key, o.key) ==> (self.vnode
                matches VNode::List(_) ==> (o.vnode matches VNode::List(_) ==> (r matches Ok(m)
                ==> m.spec_node() == o.spec_node())))),
            old_tree is None && !(self.vnode matches VNode::List(_)) ==> (r matches Ok(m) ==> ({
                let prior = old(dom).children_of(parent);
                let after = final(dom).children_of(parent);
                exists|i: int|
                    0 <= i <= prior.len() && after == prior.insert(i, m.spec_node()->Some_0) && (
                    next is None ==> i == prior.len()) && (next matches Some(rf) ==> i
                        < prior.len() && prior[i] == rf)
            })),
            old_tree matches Some(o) ==> (opt_key_eq(self.key, o.key) ==> (!self.vnode.same_kind(
                o.vnode,
            ) ==> ((r matches Ok(m) ==> (m.spec_node() matches Some(id) ==> id >= old(
                dom,
            ).nodes@.len())) && (forall|s: NodeId|
                #[trigger] o.slots().contains(s) ==> !final(dom).children_of(parent).contains(
                    s,
                ))))),
        decreases self, 3int,
    {
        let ghost d0 = *old(dom);
        let KeyedVNodes { key, vnode } = self;
        match old_tree {
            Some(o) => {
                if Key::opt_eq(&key, &o.key) {
                    let ghost og = o;
                    let KeyedVNodes { key: _, vnode: ovnode } = o;
                    let m = match vnode.patch(Some(ovnode), dom, parent, next) {
                        Ok(m) => m,
                        Err(e) => {
                            proof {
                                assert(false);
                            }
                            return Err(e);
                        },
                    };
                    let rm = KeyedVNodes { key, vnode: m };
                    proof {
                        lemma_opt_key_eq_refl(key);
                        assert(rm.skel_eq(self));
                        assert(rm.tree_wf());
                        assert(rm.mounted_in(*dom, parent));
                        assert forall|k: NodeId| #[trigger] rm.owned().contains(k) implies (
                        og.owned().contains(k) || d0.nodes@.len() <= k < dom.nodes@.len()) by {
                            assert(m.owned().contains(k));
                        }
                        if self.skel_eq(og) {
                            assert(vnode.skel_eq(og.vnode));
                            assert(*dom == d0);
                        }
                        if !vnode.same_kind(og.vnode) {
                            assert forall|s: NodeId| #[trigger] og.slots().contains(s)
                                implies !dom.children_of(parent).contains(s) by {
                                assert(og.vnode.slots().contains(s));
                            }
                            assert(rm.spec_node() == m.spec_node());
                        }
                    }
                    Ok(rm)
                } else {
                    let ghost og = o;
                    let res = o.remove(dom, parent);
                    proof {
                        assert(res is Ok);
                    }
                    let ghost dmid = *dom;
                    let m = match vnode.patch(None, dom, parent, next) {
                        Ok(m) => m,
                        Err(e) => {
                            proof {
                                assert(false);
                            }
                            return Err(e);
                        },
                    };
                    let rm = KeyedVNodes { key, vnode: m };
                    proof {
                        lemma_mounted_owned_valid(og, d0, parent);
                        lemma_slots_sub_owned(og);
                        assert forall|s: NodeId| #[trigger] og.slots().contains(s)
                            implies !dom.children_of(parent).contains(s) by {
                            assert(og.owned().contains(s));
                            assert(s < d0.nodes@.len());
                            assert(!dmid.children_of(parent).contains(s));
                        }
                        lemma_frame_trans(d0, dmid, *dom, parent, og.owned(), og.slots());
                        lemma_opt_key_eq_refl(key);
                        assert(rm.skel_eq(self));
                        assert(rm.tree_wf());
                        assert(rm.mounted_in(*dom, parent));
                        assert forall|k: NodeId| #[trigger] rm.owned().contains(k) implies (
                        og.owned().contains(k) || d0.nodes@.len() <= k < dom.nodes@.len()) by {
                            assert(m.owned().contains(k));
                            assert(dmid.nodes@.len() == d0.nodes@.len());
                        }
                        assert(!self.skel_eq(og));
                    }
                    Ok(rm)
                }
            },
            None => {
                let m = match vnode.patch(None, dom, parent, next) {
                    Ok(m) => m,
                    Err(e) => {
                        proof {
                            assert(false);
                        }
                        return Err(e);
                    },
                };
                let rm = KeyedVNodes { key, vnode: m };
                proof {
                    lemma_opt_key_eq_refl(key);
                    assert(rm.skel_eq(self));
                    assert(rm.tree_wf());
                    assert(rm.mounted_in(*dom, parent));
                    assert forall|k: NodeId| #[trigger] rm.owned().contains(k)
                        implies d0.nodes@.len() <= k < dom.nodes@.len() by {
                        assert(m.owned().contains(k));
                    }
                }
                Ok(rm)
            },
        }
    }

    /// First mount: walks the tree top-down, creating and inserting the
    /// backing nodes before `next` under `parent`.
    pub fn mount(self, dom: &mut LiveDom, parent: NodeId, next: Option<NodeId>) -> (r: Result<
        KeyedVNodes,
        DomError,
    >)
        requires
            old(dom).wf(),
            old(dom).is_element(parent),
            self.is_fresh(),
            self.tree_wf(),
            next matches Some(rf) ==> old(dom).children_of(parent).contains(rf),
        ensures
            r is Ok,
            patch_frame(*old(dom), *final(dom), parent, Set::empty()),
            r matches Ok(m) ==> m.key == self.key && m.skel_eq(self) && m.tree_wf()
                && m.mounted_in(*final(dom), parent) && (forall|k: NodeId|
                #[trigger] m.owned().contains(k) ==> old(dom).nodes@.len() <= k
                    < final(dom).nodes@.len()),
            ops_mount_only(old(dom).ops, final(dom).ops),
            !(self.vnode matches VNode::List(_)) ==> (r matches Ok(m) ==> ({
                let prior = old(dom).children_of(parent);
                let after = final(dom).children_of(parent);
                exists|i: int|
                    0 <= i <= prior.len() && after == prior.insert(i, m.spec_node()->Some_0) && (
                    next is None ==> i == prior.len()) && (next matches Some(rf) ==> i
                        < prior.len() && prior[i] == rf)
            })),
    {
        self.patch(None, dom, parent, next)
    }
}

impl VNode {
    /// Same shape: same node kind with the same content throughout; text
    /// payloads, tags and attributes all agree.
    pub open spec fn skel_eq(self, other: VNode) -> bool
        decreases self,
    {
        match (self, other) {
            (VNode::Text(a), VNode::Text(b)) => a.skel_eq(b),
            (VNode::Element(a), VNode::Element(b)) => a.skel_eq(b),
            (VNode::List(a), VNode::List(b)) => a.skel_eq(b),
            _ => false,
        }
    }

    /// Same kind of node: both texts, both elements, or both lists.
    pub open spec fn same_kind(self, other: VNode) -> bool {
        match (self, other) {
            (VNode::Text(_), VNode::Text(_)) => true,
            (VNode::Element(_), VNode::Element(_)) => true,
            (VNode::List(_), VNode::List(_)) => true,
            _ => false,
        }
    }

    /// Not yet mounted, throughout the subtree.
    pub open spec fn is_fresh(self) -> bool
        decreases self,
    {
        match self {
            VNode::Text(t) => t.is_fresh(),
            VNode::Element(e) => e.is_fresh(),
            VNode::List(l) => l.is_fresh(),
        }
    }

    /// Structurally well formed.
    pub open spec fn tree_wf(self) -> bool
        decreases self,
    {
        match self {
            VNode::Text(_) => true,
            VNode::Element(e) => e.tree_wf(),
            VNode::List(l) => l.tree_wf(),
        }
    }

    /// The live nodes this subtree owns.
    pub open spec fn owned(self) -> Set<NodeId>
        decreases self,
    {
        match self {
            VNode::Text(t) => t.owned(),
            VNode::Element(e) => e.owned(),
            VNode::List(l) => l.owned(),
        }
    }

    /// The root live nodes this subtree occupies in its parent.
    pub open spec fn slots(self) -> Set<NodeId>
        decreases self,
    {
        match self {
            VNode::Text(t) => t.slots(),
            VNode::Element(e) => e.slots(),
            VNode::List(l) => l.slots(),
        }
    }

    /// The backing node, once mounted: for a list, its anchor node.
    pub open spec fn spec_node(self) -> Option<NodeId>
        decreases self,
    {
        match self {
            VNode::Text(t) => t.spec_node(),
            VNode::Element(e) => e.spec_node(),
            VNode::List(l) => l.spec_node(),
        }
    }

    /// Mounted under `parent` and in sync with the live tree.
    pub open spec fn mounted_in(self, dom: LiveDom, parent: NodeId) -> bool
        decreases self,
    {
        match self {
            VNode::Text(t) => t.mounted_in(dom, parent),
            VNode::Element(e) => e.mounted_in(dom, parent),
            VNode::List(l) => l.mounted_in(dom, parent),
        }
    }

    /// The backing node, once mounted: for a list, its anchor node.
    pub fn node(&self) -> (r: Option<NodeId>)
        ensures
            r == self.spec_node(),
        decreases self,
    {
        match self {
            VNode::Text(t) => t.node(),
            VNode::Element(e) => e.node(),
            VNode::List(l) => l.node(),
        }
    }

    /// The debug markup of the node.
    pub open spec fn spec_markup(self) -> Seq<char>
        decreases self,
    {
        match self {
            VNode::Text(t) => t.text@,
            VNode::Element(e) => e.spec_markup(),
            VNode::List(l) => l.spec_markup(),
        }
    }

    /// The debug markup of the node, as a string.
    pub fn markup_string(&self) -> (r: String)
        ensures
            r@ == self.spec_markup(),
        decreases self,
    {
        match self {
            VNode::Text(t) => t.markup_string(),
            VNode::Element(e) => e.markup_string(),
            VNode::List(l) => l.markup_string(),
        }
    }

    /// Tears the subtree down: detaches its backing nodes from `parent`,
    /// children first.
    pub fn remove(self, dom: &mut LiveDom, parent: NodeId) -> (r: Result<(), DomError>)
        requires
            old(dom).wf(),
            old(dom).is_element(parent),
            self.mounted_in(*old(dom), parent),
            !self.owned().contains(parent),
        ensures
            r is Ok,
            removed_ensures(*old(dom), *final(dom), parent, self.owned(), self.slots()),
        decreases self,
    {
        match self {
            VNode::Text(t) => t.remove(dom, parent),
            VNode::Element(e) => e.remove(dom, parent),
            VNode::List(l) => l.remove(dom, parent),
        }
    }

    /// Patches the live tree to show this node. A previous node of the
    /// same kind is updated in place; a different kind is torn down and
    /// this node mounted fresh in its place; no previous node is a first
    /// mount. Patching against a same-shape node issues no call at all.
    pub fn patch(
        self,
        old_tree: Option<VNode>,
        dom: &mut LiveDom,
        parent: NodeId,
        next: Option<NodeId>,
    ) -> (r: Result<VNode, DomError>)
        requires
            old(dom).wf(),
            old(dom).is_element(parent),
            self.is_fresh(),
            self.tree_wf(),
            old_tree matches Some(o) ==> o.mounted_in(*old(dom), parent) && o.tree_wf()
                && !o.owned().contains(parent),
            next matches Some(rf) ==> old(dom).children_of(parent).contains(rf) && (
            old_tree matches Some(o) ==> !o.owned().contains(rf)),
        ensures
            r is Ok,
            patch_frame(
                *old(dom),
                *final(dom),
                parent,
                (match old_tree {
                    Some(o) => o.owned(),
                    None => Set::empty(),
                }),
            ),
            r matches Ok(m) ==> m.skel_eq(self) && m.tree_wf() && m.mounted_in(
                *final(dom),
                parent,
            ) && (forall|k: NodeId|
                #[trigger] m.owned().contains(k) ==> (old_tree matches Some(o) && o.owned()
                    .contains(k)) || old(dom).nodes@.len() <= k < final(dom).nodes@.len()),
            old_tree matches Some(o) && self.skel_eq(o) ==> *final(dom) == *old(dom),
            old_tree is None ==> ops_mount_only(old(dom).ops, final(dom).ops),
            old_tree is None ==> (r matches Ok(m) ==> (m.spec_node() matches Some(id) ==> id
                >= old(dom).nodes@.len())),
            old_tree matches Some(o) ==> (!self.same_kind(o) ==> ((r matches Ok(m) ==> (
            m.spec_node() matches Some(id) ==> id >= old(dom).nodes@.len())) && (forall|s: NodeId|
                #[trigger] o.slots().contains(s) ==> !final(dom).children_of(parent).contains(
                    s,
                )))),
            old_tree matches Some(o) ==> (self matches VNode::Text(t) ==> (o matches VNode::Text(
                ot,
            ) ==> ((r matches Ok(m) ==> m.spec_node() == o.spec_node()) && final(dom).ops == (
            crate::dom::OpCounts {
                text_sets: if t.text@ == ot.text@ {
                    old(dom).ops.text_sets
                } else {
                    bump(old(dom).ops.text_sets)
                },
                ..old(dom).ops
            })))),
            old_tree matches Some(o) ==> (self matches VNode::Element(e) ==> (o
                matches VNode::Element(oe) ==> ((e.tag@ == oe.tag@ ==> (r matches Ok(m)
                ==> m.spec_node() == o.spec_node())) && (e.tag@ != oe.tag@ ==> ((r matches Ok(m)
                ==> (m.spec_node() matches Some(id) && id >= old(dom).nodes@.len())) && (forall|
                s: NodeId,
            |
                #[trigger] o.slots().contains(s) ==> !final(dom).children_of(parent).contains(
                    s,
                ))))))),
            old_tree matches Some(o) ==> (self matches VNode::List(_) ==> (o matches VNode::List(
                _,
            ) ==> (r matches Ok(m) ==> m.spec_node() == o.spec_node()))),
            old_tree is None && !(self matches VNode::List(_)) ==> (r matches Ok(m) ==> ({
                let prior = old(dom).children_of(parent);
                let after = final(dom).children_of(parent);
                exists|i: int|
                    0 <= i <= prior.len() && after == prior.insert(i, m.spec_node()->Some_0) && (
                    next is None ==> i == prior.len()) && (next matches Some(rf) ==> i
                        < prior.len() && prior[i] == rf)
            })),
        decreases self, 2int,
    {
        let ghost d0 = *old(dom);
        let ghost otg = old_tree;
        let ghost removed: bool = match (&self, &old_tree) {
            (VNode::Text(_), Some(VNode::Text(_))) => false,
            (VNode::Element(_), Some(VNode::Element(_))) => false,
            (VNode::List(_), Some(VNode::List(_))) => false,
            (_, Some(_)) => true,
            (_, None) => false,
        };
        match self {
            VNode::Text(t) => {
                let old_t: Option<VText> = match old_tree {
                    Some(VNode::Text(ot)) => Some(ot),
                    Some(other) => {
                        let res = other.remove(dom, parent);
                        proof {
                            assert(res is Ok);
                        }
                        None
                    },
                    None => None,
                };
                let ghost dmid = *dom;
                let m = match t.patch(old_t, dom, parent, next) {
                    Ok(m) => m,
                    Err(e) => {
                        proof {
                            assert(false);
                        }
                        return Err(e);
                    },
                };
                let rmv = VNode::Text(m);
                proof {
                    if removed {
                        let og = otg->Some_0;
                        let wrap = KeyedVNodes { key: None, vnode: og };
                        lemma_mounted_owned_valid(wrap, d0, parent);
                        lemma_slots_sub_owned(wrap);
                        assert forall|s: NodeId| #[trigger] og.slots().contains(s)
                            implies !dom.children_of(parent).contains(s) by {
                            assert(wrap.slots().contains(s));
                            assert(wrap.owned().contains(s));
                            assert(s < d0.nodes@.len());
                            assert(!dmid.children_of(parent).contains(s));
                        }
                        lemma_frame_trans(d0, dmid, *dom, parent, og.owned(), og.slots());
                        assert(dmid.nodes@.len() == d0.nodes@.len());
                    }
                    assert(rmv.skel_eq(self));
                    assert(rmv.tree_wf());
                    assert(rmv.mounted_in(*dom, parent));
                    assert forall|k: NodeId| #[trigger] rmv.owned().contains(k) implies ((
                    otg matches Some(o2) && o2.owned().contains(k)) || d0.nodes@.len() <= k
                        < dom.nodes@.len()) by {
                        assert(m.owned().contains(k));
                        if !removed {
                            match otg {
                                Some(o2) => {
                                    assert(o2 == VNode::Text(old_t->Some_0));
                                },
                                None => {},
                            }
                        }
                    }
                }
                Ok(rmv)
            },
            VNode::Element(e) => {
                let old_e: Option<VElement> = match old_tree {
                    Some(VNode::Element(oe)) => Some(oe),
                    Some(other) => {
                        let res = other.remove(dom, parent);
                        proof {
                            assert(res is Ok);
                        }
                        None
                    },
                    None => None,
                };
                let ghost dmid = *dom;
                proof {
                    assert(decreases_to!(self => e));
                }
                let m = match e.patch(old_e, dom, parent, next) {
                    Ok(m) => m,
                    Err(e2) => {
                        proof {
                            assert(false);
                        }
                        return Err(e2);
                    },
                };
                let rmv = VNode::Element(m);
                proof {
                    if removed {
                        let og = otg->Some_0;
                        let wrap = KeyedVNodes { key: None, vnode: og };
                        lemma_mounted_owned_valid(wrap, d0, parent);
                        lemma_slots_sub_owned(wrap);
                        assert forall|s: NodeId| #[trigger] og.slots().contains(s)
                            implies !dom.children_of(parent).contains(s) by {
                            assert(wrap.slots().contains(s));
                            assert(wrap.owned().contains(s));
                            assert(s < d0.nodes@.len());
                            assert(!dmid.children_of(parent).contains(s));
                        }
                        lemma_frame_trans(d0, dmid, *dom, parent, og.owned(), og.slots());
                        assert(dmid.nodes@.len() == d0.nodes@.len());
                    }
                    assert(rmv.skel_eq(self));
                    assert(rmv.tree_wf());
                    assert(rmv.mounted_in(*dom, parent));
                    assert forall|k: NodeId| #[trigger] rmv.owned().contains(k) implies ((
                    otg matches Some(o2) && o2.owned().contains(k)) || d0.nodes@.len() <= k
                        < dom.nodes@.len()) by {
                        assert(m.owned().contains(k));
                        if !removed {
                            match otg {
                                Some(o2) => {
                                    assert(o2 == VNode::Element(old_e->Some_0));
                                },
                                None => {},
                            }
                        }
                    }
                }
                Ok(rmv)
            },
            VNode::List(l) => {
                let old_l: Option<VList> = match old_tree {
                    Some(VNode::List(ol)) => Some(ol),
                    Some(other) => {
                        let res = other.remove(dom, parent);
                        proof {
                            assert(res is Ok);
                        }
                        None
                    },
                    None => None,
                };
                let ghost dmid = *dom;
                proof {
                    assert(decreases_to!(self => l));
                }
                let m = match l.patch(old_l, dom, parent, next) {
                    Ok(m) => m,
                    Err(e2) => {
                        proof {
                            assert(false);
                        }
                        return Err(e2);
                    },
                };
                let rmv = VNode::List(m);
                proof {
                    if removed {
                        let og = otg->Some_0;
                        let wrap = KeyedVNodes { key: None, vnode: og };
                        lemma_mounted_owned_valid(wrap, d0, parent);
                        lemma_slots_sub_owned(wrap);
                        assert forall|s: NodeId| #[trigger] og.slots().contains(s)
                            implies !dom.children_of(parent).contains(s) by {
                            assert(wrap.slots().contains(s));
                            assert(wrap.owned().contains(s));
                            assert(s < d0.nodes@.len());
                            assert(!dmid.children_of(parent).contains(s));
                        }
                        lemma_frame_trans(d0, dmid, *dom, parent, og.owned(), og.slots());
                        assert(dmid.nodes@.len() == d0.nodes@.len());
                    }
                    assert(rmv.skel_eq(self));
                    assert(rmv.tree_wf());
                    assert(rmv.mounted_in(*dom, parent));
                    assert forall|k: NodeId| #[trigger] rmv.owned().contains(k) implies ((
                    otg matches Some(o2) && o2.owned().contains(k)) || d0.nodes@.len() <= k
                        < dom.nodes@.len()) by {
                        assert(m.owned().contains(k));
                        if !removed {
                            match otg {
                                Some(o2) => {
                                    assert(o2 == VNode::List(old_l->Some_0));
                                },
                                None => {},
                            }
                        }
                    }
                }
                Ok(rmv)
            },
        }
    }

}

/// The live tree changed only at `parent` and at nodes of the set `touched`;
/// every other pre-existing node is untouched. New nodes may have been
/// appended to the arena.
pub open spec fn untouched_except(d1: LiveDom, d2: LiveDom, parent: NodeId, touched: Set<
    NodeId,
>) -> bool {
    &&& d2.nodes@.len() >= d1.nodes@.len()
    &&& forall|k: int|
        0 <= k < d1.nodes@.len() && k != parent && !touched.contains(k as NodeId)
            ==> d2.nodes@[k] == d1.nodes@[k]
}

/// Every child of `parent` outside `removed` is still a child of `parent`.
pub open spec fn keeps_children(d1: LiveDom, d2: LiveDom, parent: NodeId, removed: Set<
    NodeId,
>) -> bool {
    forall|c: NodeId|
        #[trigger] d1.children_of(parent).contains(c) && !removed.contains(c)
            ==> d2.children_of(parent).contains(c)
}

/// Every child of `parent` afterwards was a child before, or is a node
/// freshly created since.
pub open spec fn new_children_fresh(d1: LiveDom, d2: LiveDom, parent: NodeId) -> bool {
    forall|c: NodeId|
        #[trigger] d2.children_of(parent).contains(c) ==> d1.children_of(parent).contains(c) || c
            >= d1.nodes@.len()
}

/// Between the two counts, only child removals were issued.
pub open spec fn ops_only_removes(o1: crate::dom::OpCounts, o2: crate::dom::OpCounts) -> bool {
    o2 == (crate::dom::OpCounts { removes: o2.removes, ..o1 })
}

/// Between the two counts, no removal, no repositioning, no text write and
/// no attribute removal was issued: only creations, insertions and
/// attribute writes, as on a first mount.
pub open spec fn ops_mount_only(o1: crate::dom::OpCounts, o2: crate::dom::OpCounts) -> bool {
    o2 == (crate::dom::OpCounts {
        creates: o2.creates,
        inserts: o2.inserts,
        attr_sets: o2.attr_sets,
        ..o1
    })
}

/// What every removal guarantees: the arena keeps its size and its other
/// nodes, the parent keeps its shape, children outside the removed subtree
/// stay, nothing new appears, the subtree's slots are detached, and only
/// removal calls were issued.
pub open spec fn removed_ensures(
    d1: LiveDom,
    d2: LiveDom,
    parent: NodeId,
    owned: Set<NodeId>,
    slots: Set<NodeId>,
) -> bool {
    &&& d2.wf()
    &&& d2.nodes@.len() == d1.nodes@.len()
    &&& untouched_except(d1, d2, parent, owned)
    &&& d2.nodes@[parent as int].kind == d1.nodes@[parent as int].kind
    &&& d2.nodes@[parent as int].attrs@ == d1.nodes@[parent as int].attrs@
    &&& keeps_children(d1, d2, parent, owned)
    &&& (forall|c: NodeId|
        #[trigger] d2.children_of(parent).contains(c) ==> d1.children_of(parent).contains(c))
    &&& (forall|s: NodeId| #[trigger] slots.contains(s) ==> !d2.children_of(parent).contains(s))
    &&& ops_only_removes(d1.ops, d2.ops)
}

/// What every patch and mount guarantees of the live tree: well-formedness
/// is kept, nodes outside the given set and the parent are untouched, the
/// parent keeps its shape, children outside the set stay, and any new child
/// is a freshly created node.
pub open spec fn patch_frame(d1: LiveDom, d2: LiveDom, parent: NodeId, touched: Set<
    NodeId,
>) -> bool {
    &&& d2.wf()
    &&& d2.nodes@.len() >= d1.nodes@.len()
    &&& untouched_except(d1, d2, parent, touched)
    &&& d2.nodes@[parent as int].kind == d1.nodes@[parent as int].kind
    &&& d2.nodes@[parent as int].attrs@ == d1.nodes@[parent as int].attrs@
    &&& keeps_children(d1, d2, parent, touched)
    &&& new_children_fresh(d1, d2, parent)
}

/// Inserting keeps every membership and adds exactly the inserted value.
pub proof fn lemma_seq_insert_membership(prior: Seq<NodeId>, i: int, x: NodeId)
    requires
        0 <= i <= prior.len(),
    ensures
        forall|c: NodeId|
            #[trigger] prior.insert(i, x).contains(c) <==> (prior.contains(c) || c == x),
{
    let after = prior.insert(i, x);
    assert forall|c: NodeId| #[trigger] after.contains(c) implies (prior.contains(c) || c
        == x) by {
        let j = choose|j: int| 0 <= j < after.len() && after[j] == c;
        if j < i {
            assert(prior[j] == c);
        } else if j > i {
            assert(prior[j - 1] == c);
        }
    }
    assert forall|c: NodeId| (prior.contains(c) || c == x) implies #[trigger] after.contains(
        c,
    ) by {
        if c == x {
            assert(after[i] == c);
        } else {
            let j = choose|j: int| 0 <= j < prior.len() && prior[j] == c;
            if j < i {
                assert(after[j] == c);
            } else {
                assert(after[j + 1] == c);
            }
        }
    }
}

/// Key equality is symmetric.
pub proof fn lemma_key_eq_sym(a: Key, b: Key)
    ensures
        key_eq(a, b) == key_eq(b, a),
{
}

/// Key equality is reflexive, variant by variant.
pub proof fn lemma_opt_key_eq_refl(k: Option<Key>)
    ensures
        opt_key_eq(k, k),
{
}

/// A teardown followed by a fresh mount amounts to one patch step whose
/// touched set is the torn-down subtree.
pub proof fn lemma_frame_trans(
    d0: LiveDom,
    d1: LiveDom,
    d2: LiveDom,
    parent: NodeId,
    owned: Set<NodeId>,
    slots: Set<NodeId>,
)
    requires
        removed_ensures(d0, d1, parent, owned, slots),
        patch_frame(d1, d2, parent, Set::empty()),
    ensures
        patch_frame(d0, d2, parent, owned),
{
    assert forall|k: int|
        0 <= k < d0.nodes@.len() && k != parent && !owned.contains(k as NodeId)
            implies d2.nodes@[k] == d0.nodes@[k] by {
        assert(d1.nodes@[k] == d0.nodes@[k]);
    }
    assert forall|c: NodeId|
        #[trigger] d0.children_of(parent).contains(c) && !owned.contains(c)
            implies d2.children_of(parent).contains(c) by {
        assert(d1.children_of(parent).contains(c));
    }
    assert forall|c: NodeId|
        #[trigger] d2.children_of(parent).contains(c) implies (d0.children_of(parent).contains(c)
            || c >= d0.nodes@.len()) by {
        if c < d0.nodes@.len() {
            assert(d1.children_of(parent).contains(c) || c >= d1.nodes@.len());
            assert(d1.children_of(parent).contains(c));
            assert(d0.children_of(parent).contains(c));
        }
    }
}

/// Moving one element keeps exactly the memberships.
pub proof fn lemma_seq_move_membership(prior: Seq<NodeId>, i: int, k: int)
    requires
        0 <= i < prior.len(),
        0 <= k <= prior.remove(i).len(),
    ensures
        forall|c: NodeId|
            #[trigger] prior.remove(i).insert(k, prior[i]).contains(c) <==> prior.contains(c),
{
    lemma_seq_remove_membership(prior, i);
    lemma_seq_insert_membership(prior.remove(i), k, prior[i]);
}

/// Removing one occurrence keeps every other value's membership, and adds
/// none.
pub proof fn lemma_seq_remove_membership(prior: Seq<NodeId>, i: int)
    requires
        0 <= i < prior.len(),
    ensures
        forall|c: NodeId|
            #[trigger] prior.contains(c) && c != prior[i] ==> prior.remove(i).contains(c),
        forall|c: NodeId| #[trigger] prior.remove(i).contains(c) ==> prior.contains(c),
{
    let after = prior.remove(i);
    assert forall|c: NodeId| #[trigger] prior.contains(c) && c != prior[i] implies after.contains(
        c,
    ) by {
        let j = choose|j: int| 0 <= j < prior.len() && prior[j] == c;
        if j < i {
            assert(after[j] == c);
        } else {
            assert(after[j - 1] == c);
        }
    }
    assert forall|c: NodeId| #[trigger] after.contains(c) implies prior.contains(c) by {
        let j = choose|j: int| 0 <= j < after.len() && after[j] == c;
        if j < i {
            assert(prior[j] == c);
        } else {
            assert(prior[j + 1] == c);
        }
    }
}

/// Every live node a mounted subtree owns is a valid handle.
pub proof fn lemma_mounted_owned_valid(t: KeyedVNodes, d: LiveDom, parent: NodeId)
    requires
        t.mounted_in(d, parent),
    ensures
        forall|k: NodeId| #[trigger] t.owned().contains(k) ==> k < d.nodes@.len(),
    decreases t,
{
    match t.vnode {
        VNode::Text(_) => {},
        VNode::Element(e) => {
            match e.child {
                Some(c) => {
                    lemma_mounted_owned_valid(*c, d, e.node->Some_0);
                },
                None => {},
            }
        },
        VNode::List(l) => {
            assert forall|k: NodeId| #[trigger] t.owned().contains(k) implies k < d.nodes@.len() by {
                if crate::vlist::list_owned(l.children@).contains(k) {
                    let j = choose|j: int|
                        0 <= j < l.children@.len() && (#[trigger] l.children@[j]).owned().contains(
                            k,
                        );
                    assert(crate::vlist::list_mounted(l.children@, d, parent));
                    assert(l.children@[j].mounted_in(d, parent));
                    lemma_mounted_owned_valid(l.children@[j], d, parent);
                    assert(l.children@[j].owned().contains(k));
                } else {
                    assert(k == l.node->Some_0);
                }
            }
        },
    }
}

/// The slots of a subtree are among the nodes it owns.
pub proof fn lemma_slots_sub_owned(t: KeyedVNodes)
    ensures
        forall|s: NodeId| #[trigger] t.slots().contains(s) ==> t.owned().contains(s),
    decreases t,
{
    match t.vnode {
        VNode::Text(_) => {},
        VNode::Element(_) => {},
        VNode::List(l) => {
            assert forall|s: NodeId| #[trigger] t.slots().contains(s) implies t.owned().contains(
                s,
            ) by {
                if crate::vlist::list_slots(l.children@).contains(s) {
                    let j = choose|j: int|
                        0 <= j < l.children@.len() && (#[trigger] l.children@[j]).slots().contains(
                            s,
                        );
                    lemma_slots_sub_owned(l.children@[j]);
                    assert(l.children@[j].owned().contains(s));
                    assert(crate::vlist::list_owned(l.children@).contains(s));
                } else {
                    assert(s == l.node->Some_0);
                }
            }
        },
    }
}

/// The slots of a mounted subtree stand among the children of its parent.
pub proof fn lemma_slots_in_children(t: KeyedVNodes, d: LiveDom, parent: NodeId)
    requires
        t.mounted_in(d, parent),
    ensures
        forall|s: NodeId| #[trigger] t.slots().contains(s) ==> d.children_of(parent).contains(s),
    decreases t,
{
    match t.vnode {
        VNode::Text(_) => {},
        VNode::Element(_) => {},
        VNode::List(l) => {
            assert forall|s: NodeId| #[trigger] t.slots().contains(s) implies d.children_of(
                parent,
            ).contains(s) by {
                if crate::vlist::list_slots(l.children@).contains(s) {
                    let j = choose|j: int|
                        0 <= j < l.children@.len() && (#[trigger] l.children@[j]).slots().contains(
                            s,
                        );
                    assert(crate::vlist::list_mounted(l.children@, d, parent));
                    assert(l.children@[j].mounted_in(d, parent));
                    lemma_slots_in_children(l.children@[j], d, parent);
                } else {
                    assert(s == l.node->Some_0);
                }
            }
        },
    }
}

/// A mounted subtree stays mounted when the live tree changes elsewhere:
/// its own nodes are untouched and its slots are still children of the
/// parent.
pub proof fn lemma_mounted_frame(t: KeyedVNodes, d1: LiveDom, d2: LiveDom, parent: NodeId)
    requires
        t.mounted_in(d1, parent),
        d2.nodes@.len() >= d1.nodes@.len(),
        forall|k: NodeId|
            #[trigger] t.owned().contains(k) ==> d2.nodes@[k as int] == d1.nodes@[k as int],
        forall|s: NodeId|
            #[trigger] t.owned().contains(s) && d1.children_of(parent).contains(s)
                ==> d2.children_of(parent).contains(s),
    ensures
        t.mounted_in(d2, parent),
    decreases t,
{
    lemma_mounted_owned_valid(t, d1, parent);
    match t.vnode {
        VNode::Text(tx) => {
            assert(t.owned().contains(tx.node->Some_0));
        },
        VNode::Element(e) => {
            let id = e.node->Some_0;
            assert(t.owned().contains(id));
            match e.child {
                Some(c) => {
                    assert forall|k: NodeId| #[trigger] c.owned().contains(k) implies t.owned()
                        .contains(k) by {
                        assert(e.owned().contains(k));
                    }
                    assert(d2.nodes@[id as int] == d1.nodes@[id as int]);
                    assert forall|s: NodeId|
                        #[trigger] c.owned().contains(s) && d1.children_of(id).contains(s)
                            implies d2.children_of(id).contains(s) by {
                        assert(d2.nodes@[id as int] == d1.nodes@[id as int]);
                    }
                    lemma_mounted_frame(*c, d1, d2, id);
                },
                None => {},
            }
        },
        VNode::List(l) => {
            let aid = l.node->Some_0;
            assert(t.owned().contains(aid));
            assert(d2.children_of(parent).contains(aid));
            assert forall|j: int|
                0 <= j < l.children@.len() implies (#[trigger] l.children@[j]).mounted_in(
                d2,
                parent,
            ) by {
                let c = l.children@[j];
                assert(crate::vlist::list_mounted(l.children@, d1, parent));
                assert(c.mounted_in(d1, parent));
                assert forall|k: NodeId| #[trigger] c.owned().contains(k) implies t.owned()
                    .contains(k) by {
                    assert(0 <= j < l.children@.len() && l.children@[j].owned().contains(k));
                    assert(crate::vlist::list_owned(l.children@).contains(k));
                }
                lemma_mounted_frame(c, d1, d2, parent);
            }
            assert(crate::vlist::list_mounted(l.children@, d2, parent));
            assert(t.vnode.mounted_in(d2, parent));
        },
    }
}

} // verus!
