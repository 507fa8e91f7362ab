//! The list node kind.

use vstd::prelude::*;

verus! {

use crate::dom::{DomError, LiveDom, NodeId};
use crate::{Key, KeyedVNodes};

/// A list virtual node: an ordered sequence of keyed children, and, once
/// mounted, the handle of the list's own anchor node. The children stand
/// directly in the parent of the list; the anchor is an empty text node
/// standing after them, a stable insertion point that exists even when the
/// list is empty.
pub struct VList {
    /// The keyed children, in order.
    pub children: Vec<KeyedVNodes>,
    /// The anchor backing-node link: absent before first mount, present
    /// thereafter until removal.
    pub node: Option<NodeId>,
}

/// Same shape, pairwise.
pub open spec fn list_skel_eq(a: Seq<KeyedVNodes>, b: Seq<KeyedVNodes>) -> bool
    decreases a,
{
    a.len() == b.len() && forall|k: int| 0 <= k < a.len() ==> (#[trigger] a[k]).skel_eq(b[k])
}

/// Every child is fresh.
pub open spec fn list_fresh(a: Seq<KeyedVNodes>) -> bool
    decreases a,
{
    forall|k: int| 0 <= k < a.len() ==> (#[trigger] a[k]).is_fresh()
}

/// Every child is well formed.
pub open spec fn list_elems_wf(a: Seq<KeyedVNodes>) -> bool
    decreases a,
{
    forall|k: int| 0 <= k < a.len() ==> (#[trigger] a[k]).tree_wf()
}

/// The live nodes owned by any child.
pub open spec fn list_owned(a: Seq<KeyedVNodes>) -> Set<NodeId>
    decreases a,
{
    Set::new(|n: NodeId| exists|k: int| 0 <= k < a.len() && (#[trigger] a[k]).owned().contains(n))
}

/// The root live nodes the children occupy in their parent, together.
pub open spec fn list_slots(a: Seq<KeyedVNodes>) -> Set<NodeId>
    decreases a,
{
    Set::new(|n: NodeId| exists|k: int| 0 <= k < a.len() && (#[trigger] a[k]).slots().contains(n))
}

/// Every child is mounted under `parent`.
pub open spec fn list_mounted(a: Seq<KeyedVNodes>, dom: LiveDom, parent: NodeId) -> bool
    decreases a,
{
    forall|k: int| 0 <= k < a.len() ==> (#[trigger] a[k]).mounted_in(dom, parent)
}

/// A child's owned nodes are among the list's owned nodes.
pub proof fn lemma_list_owned_elem(a: Seq<KeyedVNodes>, j: int)
    requires
        0 <= j < a.len(),
    ensures
        forall|n: NodeId| #[trigger] a[j].owned().contains(n) ==> list_owned(a).contains(n),
{
    assert forall|n: NodeId| #[trigger] a[j].owned().contains(n) implies list_owned(a).contains(
        n,
    ) by {
        assert(0 <= j < a.len() && a[j].owned().contains(n));
    }
}

/// A child's slots are among the list's slots.
pub proof fn lemma_list_slots_elem(a: Seq<KeyedVNodes>, j: int)
    requires
        0 <= j < a.len(),
    ensures
        forall|n: NodeId| #[trigger] a[j].slots().contains(n) ==> list_slots(a).contains(n),
{
    assert forall|n: NodeId| #[trigger] a[j].slots().contains(n) implies list_slots(a).contains(
        n,
    ) by {
        assert(0 <= j < a.len() && a[j].slots().contains(n));
    }
}

/// The first slot still holding an unmatched old child, with a guarantee
/// of minimality.
fn first_present(slots: &Vec<Option<KeyedVNodes>>) -> (r: Option<usize>)
    ensures
        r matches Some(i) ==> 0 <= i < slots@.len() && slots@[i as int] is Some && (forall|j: int|
            0 <= j < i ==> slots@[j] is None),
        r is None ==> forall|j: int| 0 <= j < slots@.len() ==> slots@[j] is None,
{
    let mut i: usize = 0;
    while i < slots.len()
        invariant
            0 <= i <= slots@.len(),
            forall|j: int| 0 <= j < i ==> slots@[j] is None,
        decreases slots@.len() - i,
    {
        if slots[i].is_some() {
            return Some(i);
        }
        i = i + 1;
    }
    None
}

/// The first slot holding an unmatched old child with the given key.
fn find_keyed_slot(slots: &Vec<Option<KeyedVNodes>>, key: &Key) -> (r: Option<usize>)
    ensures
        r matches Some(i) ==> 0 <= i < slots@.len() && (slots@[i as int] matches Some(s) && s.key
            matches Some(k2) && crate::key_eq(k2, *key)),
        r is None ==> forall|j: int|
            0 <= j < slots@.len() ==> !((#[trigger] slots@[j]) matches Some(s) && s.key
                matches Some(k2) && crate::key_eq(k2, *key)),
        r matches Some(i) ==> forall|j: int|
            0 <= j < i ==> !((#[trigger] slots@[j]) matches Some(s) && s.key matches Some(k2)
                && crate::key_eq(k2, *key)),
{
    let mut i: usize = 0;
    while i < slots.len()
        invariant
            0 <= i <= slots@.len(),
            forall|j: int|
                0 <= j < i ==> !((#[trigger] slots@[j]) matches Some(s) && s.key matches Some(k2)
                    && crate::key_eq(k2, *key)),
        decreases slots@.len() - i,
    {
        match &slots[i] {
            Some(s) => {
                match &s.key {
                    Some(k2) => {
                        if k2 == key {
                            return Some(i);
                        }
                    },
                    None => {},
                }
            },
            None => {},
        }
        i = i + 1;
    }
    None
}

/// The anchor for positioning: the leading live node of some unmatched
/// old child other than the slot `skip`, to insert or move in front of.
fn find_anchor(slots: &Vec<Option<KeyedVNodes>>, skip: usize) -> (r: Option<(usize, NodeId)>)
    ensures
        r matches Some(pair) ==> 0 <= pair.0 < slots@.len() && pair.0 != skip && (
        slots@[pair.0 as int] matches Some(s) && s.slots().contains(pair.1)),
{
    let mut i: usize = 0;
    while i < slots.len()
        invariant
            0 <= i <= slots@.len(),
        decreases slots@.len() - i,
    {
        if i != skip {
            match &slots[i] {
                Some(s) => {
                    match s.lead_node() {
                        Some(id) => {
                            return Some((i, id));
                        },
                        None => {},
                    }
                },
                None => {},
            }
        }
        i = i + 1;
    }
    None
}

/// The debug markup of the children from `i` on, concatenated.
pub open spec fn list_markup(a: Seq<KeyedVNodes>, i: int) -> Seq<char>
    decreases a, a.len() - i,
{
    if i < 0 || i >= a.len() {
        Seq::empty()
    } else {
        a[i].spec_markup() + list_markup(a, i + 1)
    }
}

/// No two distinct children own a live node in common.
pub open spec fn list_disjoint(a: Seq<KeyedVNodes>) -> bool {
    forall|i: int, j: int|
        0 <= i < a.len() && 0 <= j < a.len() && i != j ==> (#[trigger] a[i].owned()).disjoint(
            #[trigger] a[j].owned(),
        )
}

/// The old child carries a key that no child of the new list carries: the
/// keyed diff will find no match for it and must remove it.
pub open spec fn key_unmatched(old_child: KeyedVNodes, new: Seq<KeyedVNodes>) -> bool {
    old_child.key is Some && forall|i: int|
        0 <= i < new.len() ==> !((#[trigger] new[i]).key is Some && crate::key_eq(
            new[i].key->Some_0,
            old_child.key->Some_0,
        ))
}

/// No two children carry the same present key.
pub open spec fn list_keys_distinct(a: Seq<KeyedVNodes>) -> bool {
    forall|i: int, j: int|
        (0 <= i < a.len() && 0 <= j < a.len() && i != j && (#[trigger] a[i]).key is Some && (
        #[trigger] a[j]).key is Some) ==> !crate::key_eq(a[i].key->Some_0, a[j].key->Some_0)
}

impl VList {
    /// Same shape: equally many children, pairwise of the same shape.
    pub open spec fn skel_eq(self, other: VList) -> bool
        decreases self,
    {
        list_skel_eq(self.children@, other.children@)
    }

    /// Not yet mounted, throughout the subtree.
    pub open spec fn is_fresh(self) -> bool
        decreases self,
    {
        self.node is None && list_fresh(self.children@)
    }

    /// Structurally well formed: no duplicate present keys, and every
    /// child well formed.
    pub open spec fn tree_wf(self) -> bool
        decreases self,
    {
        list_keys_distinct(self.children@) && list_elems_wf(self.children@)
    }

    /// The live nodes this subtree owns: the anchor and the children's.
    pub open spec fn owned(self) -> Set<NodeId>
        decreases self,
    {
        let own: Set<NodeId> = match self.node {
            Some(aid) => Set::empty().insert(aid),
            None => Set::empty(),
        };
        own.union(list_owned(self.children@))
    }

    /// The root live nodes this list occupies in its parent: the slots of
    /// all its children, and the anchor.
    pub open spec fn slots(self) -> Set<NodeId>
        decreases self,
    {
        let own: Set<NodeId> = match self.node {
            Some(aid) => Set::empty().insert(aid),
            None => Set::empty(),
        };
        own.union(list_slots(self.children@))
    }

    /// The anchor backing node, once mounted.
    pub open spec fn spec_node(self) -> Option<NodeId>
        decreases self,
    {
        self.node
    }

    /// Mounted under `parent` and in sync: the anchor link names a live
    /// node that is a child of `parent` and is owned by no child, every
    /// child is mounted directly under `parent`, and no two children own a
    /// live node in common.
    pub open spec fn mounted_in(self, dom: LiveDom, parent: NodeId) -> bool
        decreases self,
    {
        match self.node {
            Some(aid) => {
                &&& dom.spec_valid(aid)
                &&& dom.children_of(parent).contains(aid)
                &&& !list_owned(self.children@).contains(aid)
                &&& list_mounted(self.children@, dom, parent)
                &&& list_disjoint(self.children@)
            },
            None => false,
        }
    }

    /// The anchor backing node, once mounted.
    pub fn node(&self) -> (r: Option<NodeId>)
        ensures
            r == self.spec_node(),
    {
        self.node
    }

    /// The debug markup of the list: its children's markup, concatenated.
    pub open spec fn spec_markup(self) -> Seq<char>
        decreases self,
    {
        list_markup(self.children@, 0)
    }

    /// The debug markup of the list, as a string.
    pub fn markup_string(&self) -> (r: String)
        ensures
            r@ == self.spec_markup(),
        decreases self,
    {
        let mut out = String::new();
        let mut i: usize = 0;
        while i < self.children.len()
            invariant
                0 <= i <= self.children@.len(),
                out@ + list_markup(self.children@, i as int) == list_markup(self.children@, 0),
            decreases self.children@.len() - i,
        {
            let ghost pre = out@;
            let piece = self.children[i].markup_string();
            out.append(piece.as_str());
            proof {
                assert(out@ + list_markup(self.children@, i + 1) == list_markup(
                    self.children@,
                    0,
                )) by {
                    assert(out@ + list_markup(self.children@, i + 1) =~= pre + (
                    self.children@[i as int].spec_markup() + list_markup(
                        self.children@,
                        i + 1,
                    )));
                }
            }
            i = i + 1;
        }
        proof {
            assert(out@ =~= out@ + list_markup(self.children@, i as int));
        }
        out
    }

    /// First mount: mounts every child in order, each inserted before
    /// `next`, so the children end up in list order just in front of it.
    pub(crate) fn mount(self, dom: &mut LiveDom, parent: NodeId, next: Option<NodeId>) -> (r:
        Result<VList, DomError>)
        requires
            old(dom).wf(),
            old(dom).is_element(parent),
            self.is_fresh(),
            self.tree_wf(),
            next matches Some(rf) ==> old(dom).children_of(parent).contains(rf),
        ensures
            r is Ok,
            crate::patch_frame(*old(dom), *final(dom), parent, Set::empty()),
            r matches Ok(m) ==> m.skel_eq(self) && m.tree_wf() && m.mounted_in(
                *final(dom),
                parent,
            ) && (forall|k: NodeId|
                #[trigger] m.owned().contains(k) ==> old(dom).nodes@.len() <= k
                    < final(dom).nodes@.len()) && (m.spec_node() matches Some(id) ==> id >= old(
                dom,
            ).nodes@.len()),
            crate::ops_mount_only(old(dom).ops, final(dom).ops),
        decreases self, 0int,
    {
        let ghost d0 = *old(dom);
        let anch = dom.create_text(String::new());
        proof {
            assert(dom.children_of(parent) == d0.children_of(parent));
        }
        let res0 = dom.insert_before(parent, anch, next);
        proof {
            assert(res0 is Ok);
            let prior = d0.children_of(parent);
            let i = choose|i: int|
                0 <= i <= prior.len() && dom.children_of(parent) == prior.insert(i, anch);
            crate::lemma_seq_insert_membership(prior, i, anch);
        }
        let mut children = self.children;
        let ghost orig = children@;
        let mut out: Vec<KeyedVNodes> = Vec::new();
        while children.len() > 0
            invariant
                anch == d0.nodes@.len(),
                dom.children_of(parent).contains(anch),
                orig == self.children@,
                children@.len() <= orig.len(),
                children@ == orig.subrange(orig.len() - children@.len(), orig.len() as int),
                out@.len() == orig.len() - children@.len(),
                list_fresh(orig),
                list_elems_wf(orig),
                dom.wf(),
                dom.is_element(parent),
                parent < d0.nodes@.len(),
                dom.nodes@.len() >= d0.nodes@.len(),
                crate::untouched_except(d0, *dom, parent, Set::empty()),
                dom.nodes@[parent as int].kind == d0.nodes@[parent as int].kind,
                dom.nodes@[parent as int].attrs@ == d0.nodes@[parent as int].attrs@,
                crate::keeps_children(d0, *dom, parent, Set::empty()),
                crate::new_children_fresh(d0, *dom, parent),
                crate::ops_mount_only(d0.ops, dom.ops),
                next matches Some(rf) ==> dom.children_of(parent).contains(rf),
                forall|k: int|
                    0 <= k < out@.len() ==> (#[trigger] out@[k]).mounted_in(*dom, parent),
                forall|k: int|
                    0 <= k < out@.len() ==> (#[trigger] out@[k]).skel_eq(orig[k]) && out@[k].tree_wf(),
                forall|k: int, n: NodeId|
                    0 <= k < out@.len() && (#[trigger] out@[k].owned().contains(n))
                        ==> d0.nodes@.len() <= n < dom.nodes@.len() && n != anch,
                list_disjoint(out@),
            decreases children@.len(),
        {
            let ghost p: int = orig.len() - children@.len();
            let ghost dpre = *dom;
            let ghost outpre = out@;
            let c = children.remove(0);
            proof {
                assert(c == orig.subrange(p, orig.len() as int)[0]);
                assert(c == orig[p]);
                assert(c == self.children@[p]);
                assert(decreases_to!(self => c));
                assert(c.is_fresh() && c.tree_wf());
            }
            let cm = c.patch(None, dom, parent, Some(anch));
            let pc = match cm {
                Ok(pc) => pc,
                Err(e) => {
                    proof {
                        assert(false);
                    }
                    return Err(e);
                },
            };
            out.push(pc);
            proof {
                assert(children@ =~= orig.subrange(
                    orig.len() - children@.len(),
                    orig.len() as int,
                ));
                assert forall|k: int|
                    0 <= k < out@.len() implies (#[trigger] out@[k]).mounted_in(*dom, parent) by {
                    if k < outpre.len() {
                        let t = outpre[k];
                        assert(t.mounted_in(dpre, parent));
                        assert forall|n: NodeId| #[trigger] t.owned().contains(n)
                            implies dom.nodes@[n as int] == dpre.nodes@[n as int] by {
                            assert(outpre[k].owned().contains(n));
                            assert(d0.nodes@.len() <= n < dpre.nodes@.len());
                            assert(n != parent);
                        }
                        crate::lemma_mounted_frame(t, dpre, *dom, parent);
                        assert(out@[k] == t);
                    } else {
                        assert(out@[k] == pc);
                    }
                }
                assert forall|k: int, n: NodeId|
                    0 <= k < out@.len() && (#[trigger] out@[k].owned().contains(n))
                        implies d0.nodes@.len() <= n < dom.nodes@.len() by {
                    if k < outpre.len() {
                        assert(outpre[k].owned().contains(n));
                    }
                }
                assert forall|i: int, j: int|
                    0 <= i < out@.len() && 0 <= j < out@.len() && i != j implies (
                #[trigger] out@[i].owned()).disjoint(#[trigger] out@[j].owned()) by {
                    if i < outpre.len() && j < outpre.len() {
                        assert(outpre[i].owned().disjoint(outpre[j].owned()));
                    } else {
                        let a: int = if i < j { i } else { j };
                        let b: int = if i < j { j } else { i };
                        assert(b == outpre.len() && a < b);
                        assert forall|n: NodeId| #[trigger] out@[a].owned().contains(n)
                            implies !out@[b].owned().contains(n) by {
                            assert(outpre[a].owned().contains(n));
                            assert(n < dpre.nodes@.len());
                        }
                    }
                }
            }
        }
        let m = VList { children: out, node: Some(anch) };
        proof {
            assert(m.skel_eq(self)) by {
                assert(list_skel_eq(out@, orig)) by {
                    assert(out@.len() == orig.len());
                }
            }
            assert(list_keys_distinct(out@)) by {
                assert forall|i: int, j: int|
                    (0 <= i < out@.len() && 0 <= j < out@.len() && i != j && (
                    #[trigger] out@[i]).key is Some && (#[trigger] out@[j]).key is Some)
                        implies !crate::key_eq(out@[i].key->Some_0, out@[j].key->Some_0) by {
                    assert(out@[i].skel_eq(orig[i]));
                    assert(out@[j].skel_eq(orig[j]));
                }
            }
            assert forall|k: NodeId| #[trigger] m.owned().contains(k) implies d0.nodes@.len() <= k
                < dom.nodes@.len() by {
                if list_owned(out@).contains(k) {
                    let j = choose|j: int|
                        0 <= j < out@.len() && (#[trigger] out@[j]).owned().contains(k);
                } else {
                    assert(k == anch);
                }
            }
            assert(!list_owned(out@).contains(anch)) by {
                if list_owned(out@).contains(anch) {
                    let j = choose|j: int|
                        0 <= j < out@.len() && (#[trigger] out@[j]).owned().contains(anch);
                }
            }
            assert(m.mounted_in(*dom, parent));
        }
        Ok(m)
    }

    /// Patches the live tree to show this list, by the keyed diff: every
    /// old child with a key is available for lookup; each new child takes
    /// its match (by key, or by position when unkeyed), patching it in
    /// place and repositioning its nodes only when it is out of order; a
    /// child with no match is mounted fresh; old children never matched
    /// are removed at the end. Patching against a same-shape list issues
    /// no call at all.
    pub fn patch(
        self,
        old_tree: Option<VList>,
        dom: &mut LiveDom,
        parent: NodeId,
        next: Option<NodeId>,
    ) -> (r: Result<VList, DomError>)
        requires
            old(dom).wf(),
            old(dom).is_element(parent),
            self.is_fresh(),
            self.tree_wf(),
            old_tree matches Some(o) ==> o.mounted_in(*old(dom), parent) && o.tree_wf()
                && !o.owned().contains(parent),
            next matches Some(rf) ==> old(dom).children_of(parent).contains(rf) && (
            old_tree matches Some(o) ==> !o.owned().contains(rf)),
        ensures
            r is Ok,
            crate::patch_frame(
                *old(dom),
                *final(dom),
                parent,
                (match old_tree {
                    Some(o) => o.owned(),
                    None => Set::empty(),
                }),
            ),
            r matches Ok(m) ==> m.skel_eq(self) && m.tree_wf() && m.mounted_in(
                *final(dom),
                parent,
            ) && (forall|k: NodeId|
                #[trigger] m.owned().contains(k) ==> (old_tree matches Some(o) && o.owned()
                    .contains(k)) || old(dom).nodes@.len() <= k < final(dom).nodes@.len()),
            old_tree matches Some(o) && self.skel_eq(o) ==> *final(dom) == *old(dom),
            old_tree is None ==> crate::ops_mount_only(old(dom).ops, final(dom).ops),
            old_tree is None ==> (r matches Ok(m) ==> (m.spec_node() matches Some(id) ==> id
                >= old(dom).nodes@.len())),
            old_tree matches Some(o) ==> (r matches Ok(m) ==> m.spec_node() == o.spec_node()),
            old_tree matches Some(o) ==> (forall|j: int, s: NodeId|
                (0 <= j < o.children@.len() && key_unmatched(o.children@[j], self.children@) && (
                #[trigger] o.children@[j].slots().contains(s))) ==> !final(dom).children_of(
                    parent,
                ).contains(s)),
        decreases self, 1int,
    {
        let ghost d0 = *old(dom);
        let o = match old_tree {
            None => {
                return self.mount(dom, parent, next);
            },
            Some(o) => o,
        };
        let anch = match o.node {
            Some(a) => a,
            None => {
                proof {
                    assert(false);
                }
                return Err(DomError::NoSuchNode);
            },
        };
        let ghost oorig = o.children@;
        proof {
            assert(d0.children_of(parent).contains(anch));
            assert(anch < d0.nodes@.len());
            assert(!list_owned(oorig).contains(anch));
            assert forall|n: NodeId| #[trigger] list_owned(oorig).contains(n) implies n
                < d0.nodes@.len() by {
                let j = choose|j: int|
                    0 <= j < oorig.len() && (#[trigger] oorig[j]).owned().contains(n);
                assert(oorig[j].mounted_in(d0, parent));
                crate::lemma_mounted_owned_valid(oorig[j], d0, parent);
            }
        }
        let mut oc = o.children;
        let mut slots: Vec<Option<KeyedVNodes>> = Vec::new();
        while oc.len() > 0
            invariant
                oorig == o.children@,
                oc@.len() <= oorig.len(),
                oc@ == oorig.subrange(slots@.len() as int, oorig.len() as int),
                slots@.len() + oc@.len() == oorig.len(),
                forall|j: int|
                    0 <= j < slots@.len() ==> (#[trigger] slots@[j]) == Some(oorig[j]),
            decreases oc@.len(),
        {
            let ghost sp = slots@.len() as int;
            let cc = oc.remove(0);
            proof {
                assert(cc == oorig.subrange(sp, oorig.len() as int)[0]);
                assert(cc == oorig[sp]);
            }
            slots.push(Some(cc));
            proof {
                assert(oc@ =~= oorig.subrange(slots@.len() as int, oorig.len() as int));
            }
        }
        let mut children = self.children;
        let ghost norig = children@;
        let mut out: Vec<KeyedVNodes> = Vec::new();
        let mut processed: usize = 0;
        while children.len() > 0
            invariant
                norig == self.children@,
                oorig == o.children@,
                children@.len() <= norig.len(),
                children@ == norig.subrange(processed as int, norig.len() as int),
                processed == out@.len(),
                processed + children@.len() == norig.len(),
                slots@.len() == oorig.len(),
                forall|j: int|
                    0 <= j < slots@.len() ==> ((#[trigger] slots@[j]) matches Some(s) ==> s
                        == oorig[j]),
                list_elems_wf(norig),
                list_fresh(norig),
                list_keys_distinct(norig),
                list_elems_wf(oorig),
                list_disjoint(oorig),
                forall|n: NodeId| #[trigger] list_owned(oorig).contains(n) ==> n
                    < d0.nodes@.len(),
                !list_owned(oorig).contains(parent),
                dom.wf(),
                dom.is_element(parent),
                parent < d0.nodes@.len(),
                dom.nodes@.len() >= d0.nodes@.len(),
                crate::untouched_except(d0, *dom, parent, list_owned(oorig)),
                dom.nodes@[parent as int].kind == d0.nodes@[parent as int].kind,
                dom.nodes@[parent as int].attrs@ == d0.nodes@[parent as int].attrs@,
                crate::keeps_children(d0, *dom, parent, list_owned(oorig)),
                crate::new_children_fresh(d0, *dom, parent),
                next matches Some(rf) ==> dom.children_of(parent).contains(rf) && !list_owned(
                    oorig,
                ).contains(rf) && rf < d0.nodes@.len(),
                dom.children_of(parent).contains(anch),
                anch < d0.nodes@.len(),
                !list_owned(oorig).contains(anch),
                forall|j: int|
                    0 <= j < slots@.len() ==> ((#[trigger] slots@[j]) matches Some(s)
                        ==> s.mounted_in(*dom, parent)),
                forall|k: int|
                    0 <= k < out@.len() ==> (#[trigger] out@[k]).mounted_in(*dom, parent),
                forall|k: int|
                    0 <= k < out@.len() ==> (#[trigger] out@[k]).skel_eq(norig[k])
                        && out@[k].tree_wf(),
                forall|k: int, n: NodeId|
                    0 <= k < out@.len() && (#[trigger] out@[k].owned().contains(n)) ==> list_owned(
                        oorig,
                    ).contains(n) || d0.nodes@.len() <= n < dom.nodes@.len(),
                list_disjoint(out@),
                forall|k: int, j: int, n: NodeId|
                    0 <= k < out@.len() && 0 <= j < slots@.len() && (#[trigger] out@[k].owned()
                        .contains(n)) ==> ((#[trigger] slots@[j]) matches Some(s) ==> !s.owned()
                        .contains(n)),
                list_skel_eq(norig, oorig) ==> (*dom == d0 && (forall|j: int|
                    0 <= j < processed ==> (#[trigger] slots@[j]) is None) && (forall|j: int|
                    processed <= j < slots@.len() ==> (#[trigger] slots@[j]) == Some(oorig[j]))),
                forall|j: int, s: NodeId|
                    (0 <= j < slots@.len() && slots@[j] is None && key_unmatched(oorig[j], norig)
                        && (#[trigger] oorig[j].slots().contains(s))) ==> !dom.children_of(
                        parent,
                    ).contains(s),
            decreases children@.len(),
        {
            let ghost p: int = processed as int;
            let ghost dpre = *dom;
            let ghost outpre = out@;
            let ghost slotspre = slots@;
            let c = children.remove(0);
            proof {
                assert(c == norig.subrange(p, norig.len() as int)[0]);
                assert(c == norig[p]);
                assert(c == self.children@[p]);
                assert(decreases_to!(self => c));
                assert(c.is_fresh() && c.tree_wf());
            }
            let mi: Option<usize> = match &c.key {
                None => {
                    if processed < slots.len() {
                        if slots[processed].is_some() {
                            Some(processed)
                        } else {
                            None
                        }
                    } else {
                        None
                    }
                },
                Some(k) => find_keyed_slot(&slots, k),
            };
            let skipx: usize = match mi {
                Some(j) => j,
                None => slots.len(),
            };
            let fp: Option<usize> = first_present(&slots);
            let anchor_pair: Option<(usize, NodeId)> = find_anchor(&slots, skipx);
            let anchor: Option<NodeId> = match anchor_pair {
                Some(pair) => Some(pair.1),
                None => Some(anch),
            };
            let ghost anchor_slot: int = match anchor_pair {
                Some(pair) => pair.0 as int,
                None => -1,
            };
            proof {
                match anchor {
                    Some(aid) => {
                        if anchor_slot >= 0 {
                            let s = slots@[anchor_slot]->Some_0;
                            assert(s.mounted_in(*dom, parent));
                            assert(s.slots().contains(aid));
                            crate::lemma_slots_sub_owned(s);
                            crate::lemma_slots_in_children(s, *dom, parent);
                            assert(dom.children_of(parent).contains(aid));
                            assert(s.owned().contains(aid));
                            assert(s == oorig[anchor_slot]);
                            lemma_list_owned_elem(oorig, anchor_slot);
                            assert(list_owned(oorig).contains(aid));
                            assert(aid < d0.nodes@.len());
                        } else {
                            assert(aid == anch);
                            assert(dom.children_of(parent).contains(aid));
                            assert(aid < d0.nodes@.len());
                        }
                    },
                    None => {},
                }
            }
            let old_c: Option<KeyedVNodes> = match mi {
                Some(j) => {
                    let mut tmp: Option<KeyedVNodes> = None;
                    slots.set_and_swap(j, &mut tmp);
                    tmp
                },
                None => None,
            };
            proof {
                match &old_c {
                    Some(ocx) => {
                        let j = mi->Some_0 as int;
                        assert(*ocx == oorig[j]);
                        assert(ocx.mounted_in(*dom, parent));
                        assert(ocx.tree_wf());
                        lemma_list_owned_elem(oorig, j);
                        assert(!ocx.owned().contains(parent));
                        match anchor {
                            Some(aid) => {
                                if anchor_slot >= 0 {
                                    assert(oorig[anchor_slot].owned().disjoint(
                                        oorig[j].owned(),
                                    ));
                                    assert(!ocx.owned().contains(aid));
                                } else {
                                    assert(aid == anch);
                                    assert(!list_owned(oorig).contains(aid));
                                    assert(!ocx.owned().contains(aid));
                                }
                            },
                            None => {},
                        }
                    },
                    None => {},
                }
            }
            let cm = c.patch(old_c, dom, parent, anchor);
            let pc = match cm {
                Ok(pc) => pc,
                Err(e) => {
                    proof {
                        assert(false);
                    }
                    return Err(e);
                },
            };
            let ghost dmid = *dom;
            proof {
                assert(children@ =~= norig.subrange(
                    processed + 1,
                    norig.len() as int,
                ));
                // the other slots and the out entries survive the child patch
                assert forall|j: int|
                    0 <= j < slots@.len() implies ((#[trigger] slots@[j]) matches Some(s)
                        ==> s.mounted_in(*dom, parent)) by {
                    match slots@[j] {
                        Some(s) => {
                            assert(s == oorig[j]);
                            assert(s.mounted_in(dpre, parent));
                            lemma_list_owned_elem(oorig, j);
                            assert forall|n: NodeId| #[trigger] s.owned().contains(n)
                                implies dom.nodes@[n as int] == dpre.nodes@[n as int] by {
                                assert(n != parent);
                                assert(n < d0.nodes@.len());
                                match old_c {
                                    Some(ocx) => {
                                        assert(oorig[j].owned().disjoint(
                                            oorig[mi->Some_0 as int].owned(),
                                        ));
                                        assert(!ocx.owned().contains(n));
                                    },
                                    None => {},
                                }
                            }
                            crate::lemma_mounted_frame(s, dpre, *dom, parent);
                        },
                        None => {},
                    }
                }
                assert forall|k: int|
                    0 <= k < outpre.len() implies (#[trigger] outpre[k]).mounted_in(
                    *dom,
                    parent,
                ) by {
                    let t = outpre[k];
                    assert(t.mounted_in(dpre, parent));
                    assert forall|n: NodeId| #[trigger] t.owned().contains(n)
                        implies dom.nodes@[n as int] == dpre.nodes@[n as int] by {
                        assert(outpre[k].owned().contains(n));
                        if list_owned(oorig).contains(n) {
                            assert(n < d0.nodes@.len());
                            assert(n != parent);
                        } else {
                            assert(d0.nodes@.len() <= n);
                            assert(n != parent);
                        }
                        match &old_c {
                            Some(ocx) => {
                                assert(!ocx.owned().contains(n));
                            },
                            None => {},
                        }
                    }
                    crate::lemma_mounted_frame(t, dpre, *dom, parent);
                }
            }
            let need_move = match (mi, fp) {
                (Some(j), Some(f)) => j != f,
                _ => false,
            };
            if need_move {
                let mut ids: Vec<NodeId> = Vec::new();
                pc.collect_slots(&mut ids);
                let ghost danc = *dom;
                let mut mv: usize = 0;
                while mv < ids.len()
                    invariant
                        0 <= mv <= ids@.len(),
                        dom.wf(),
                        dom.is_element(parent),
                        parent < d0.nodes@.len(),
                        !list_owned(oorig).contains(parent),
                        forall|n: NodeId|
                            #[trigger] pc.owned().contains(n) ==> list_owned(oorig).contains(n)
                                || d0.nodes@.len() <= n,
                        forall|n: NodeId| #[trigger] pc.owned().contains(n) ==> n
                            < danc.nodes@.len(),
                        dom.nodes@.len() == danc.nodes@.len(),
                        forall|k: int|
                            0 <= k < danc.nodes@.len() && k != parent ==> dom.nodes@[k]
                                == danc.nodes@[k],
                        dom.nodes@[parent as int].kind == danc.nodes@[parent as int].kind,
                        dom.nodes@[parent as int].attrs@ == danc.nodes@[parent as int].attrs@,
                        forall|cx: NodeId|
                            #[trigger] dom.children_of(parent).contains(cx) <==> danc.children_of(
                                parent,
                            ).contains(cx),
                        dom.ops == (crate::dom::OpCounts { moves: dom.ops.moves, ..danc.ops }),
                        forall|i: int|
                            0 <= i < ids@.len() ==> pc.slots().contains(#[trigger] ids@[i]),
                        pc.mounted_in(danc, parent),
                        match anchor {
                            Some(aid) => dom.children_of(parent).contains(aid) && !pc.owned()
                                .contains(aid),
                            None => true,
                        },
                    decreases ids@.len() - mv,
                {
                    proof {
                        crate::lemma_slots_sub_owned(pc);
                        assert(pc.slots().contains(ids@[mv as int]));
                        assert forall|n: NodeId| #[trigger] pc.owned().contains(n)
                            implies dom.nodes@[n as int] == danc.nodes@[n as int] by {
                            if list_owned(oorig).contains(n) {
                                assert(n != parent);
                            } else {
                                assert(d0.nodes@.len() <= n);
                                assert(n != parent);
                            }
                        }
                        crate::lemma_mounted_frame(pc, danc, *dom, parent);
                        crate::lemma_slots_in_children(pc, *dom, parent);
                        assert(dom.children_of(parent).contains(ids@[mv as int]));
                        match anchor {
                            Some(aid) => {
                                assert(aid != ids@[mv as int]);
                            },
                            None => {},
                        }
                    }
                    let ghost dbm = *dom;
                    let res = dom.move_before(parent, ids[mv], anchor);
                    proof {
                        assert(res is Ok);
                        let id = ids@[mv as int];
                        let prior = dbm.children_of(parent);
                        let after = dom.children_of(parent);
                        assert(anchor != Some(id));
                        let (i2, k2): (int, int) = choose|i2: int, k2: int|
                            {
                                &&& 0 <= i2 < prior.len()
                                &&& prior[i2] == id
                                &&& (forall|j: int| 0 <= j < i2 ==> prior[j] != id)
                                &&& 0 <= k2 <= prior.remove(i2).len()
                                &&& after == #[trigger] prior.remove(i2).insert(k2, id)
                            };
                        crate::lemma_seq_move_membership(prior, i2, k2);
                        assert forall|cx: NodeId| #[trigger] after.contains(cx)
                            implies prior.contains(cx) by {}
                        assert forall|cx: NodeId| #[trigger] prior.contains(cx)
                            implies after.contains(cx) by {
                            assert(after == prior.remove(i2).insert(k2, prior[i2]));
                        }
                    }
                    mv = mv + 1;
                }
                proof {
                    assert forall|n: NodeId| #[trigger] pc.owned().contains(n)
                        implies dom.nodes@[n as int] == dmid.nodes@[n as int] by {
                        if list_owned(oorig).contains(n) {
                            assert(n != parent);
                        } else {
                            assert(d0.nodes@.len() <= n);
                            assert(n != parent);
                        }
                    }
                    crate::lemma_mounted_frame(pc, dmid, *dom, parent);
                }
            }
            out.push(pc);
            processed = out.len();
            proof {
                let dnow = *dom;
                // the slots and earlier out entries survive the moves
                assert forall|j: int|
                    0 <= j < slots@.len() implies ((#[trigger] slots@[j]) matches Some(s)
                        ==> s.mounted_in(*dom, parent)) by {
                    match slots@[j] {
                        Some(s) => {
                            assert(s.mounted_in(dmid, parent));
                            assert(s == oorig[j]);
                            lemma_list_owned_elem(oorig, j);
                            assert forall|n: NodeId| #[trigger] s.owned().contains(n)
                                implies dom.nodes@[n as int] == dmid.nodes@[n as int] by {
                                assert(n != parent);
                                assert(n < d0.nodes@.len());
                            }
                            crate::lemma_mounted_frame(s, dmid, *dom, parent);
                        },
                        None => {},
                    }
                }
                assert forall|k: int|
                    0 <= k < out@.len() implies (#[trigger] out@[k]).mounted_in(*dom, parent) by {
                    let t = out@[k];
                    if k < out@.len() - 1 {
                        assert(t == outpre[k]);
                        assert(t.mounted_in(dmid, parent));
                        assert forall|n: NodeId| #[trigger] t.owned().contains(n)
                            implies dom.nodes@[n as int] == dmid.nodes@[n as int] by {
                            assert(outpre[k].owned().contains(n));
                            if list_owned(oorig).contains(n) {
                                assert(n < d0.nodes@.len());
                                assert(n != parent);
                            } else {
                                assert(d0.nodes@.len() <= n);
                                assert(n != parent);
                            }
                        }
                        crate::lemma_mounted_frame(t, dmid, *dom, parent);
                    } else {
                        assert(t == pc);
                        assert(t.mounted_in(*dom, parent));
                    }
                }
                // ownership bookkeeping for the new entry
                assert forall|k: int, n: NodeId|
                    0 <= k < out@.len() && (#[trigger] out@[k].owned().contains(n))
                        implies list_owned(oorig).contains(n) || d0.nodes@.len() <= n
                        < dom.nodes@.len() by {
                    if k < out@.len() - 1 {
                        assert(outpre[k].owned().contains(n));
                    } else {
                        assert(pc.owned().contains(n));
                        match old_c {
                            Some(ocx) => {
                                if ocx.owned().contains(n) {
                                    lemma_list_owned_elem(oorig, mi->Some_0 as int);
                                }
                            },
                            None => {},
                        }
                    }
                }
                assert forall|k: int, j: int, n: NodeId|
                    0 <= k < out@.len() && 0 <= j < slots@.len() && (#[trigger] out@[k].owned()
                        .contains(n)) implies ((#[trigger] slots@[j]) matches Some(s) ==> !s.owned()
                        .contains(n)) by {
                    match slots@[j] {
                        Some(s) => {
                            assert(s == oorig[j]);
                            if k < out@.len() - 1 {
                                assert(outpre[k].owned().contains(n));
                                assert(slotspre[j] == Some(s));
                            } else {
                                assert(pc.owned().contains(n));
                                if s.owned().contains(n) {
                                    lemma_list_owned_elem(oorig, j);
                                    assert(n < d0.nodes@.len());
                                    match old_c {
                                        Some(ocx) => {
                                            assert(ocx == oorig[mi->Some_0 as int]);
                                            assert(j != mi->Some_0 as int);
                                            assert(oorig[j].owned().disjoint(
                                                oorig[mi->Some_0 as int].owned(),
                                            ));
                                            assert(!ocx.owned().contains(n));
                                            assert(false);
                                        },
                                        None => {
                                            assert(false);
                                        },
                                    }
                                }
                            }
                        },
                        None => {},
                    }
                }
                assert forall|i: int, j: int|
                    0 <= i < out@.len() && 0 <= j < out@.len() && i != j implies (
                #[trigger] out@[i].owned()).disjoint(#[trigger] out@[j].owned()) by {
                    if i < out@.len() - 1 && j < out@.len() - 1 {
                        assert(outpre[i].owned().disjoint(outpre[j].owned()));
                    } else {
                        let a: int = if i < j { i } else { j };
                        let b: int = if i < j { j } else { i };
                        assert(b == out@.len() - 1 && a < b);
                        assert forall|n: NodeId| #[trigger] out@[a].owned().contains(n)
                            implies !out@[b].owned().contains(n) by {
                            assert(outpre[a].owned().contains(n));
                            if out@[b].owned().contains(n) {
                                assert(pc.owned().contains(n));
                                match old_c {
                                    Some(ocx) => {
                                        if ocx.owned().contains(n) {
                                            assert(slotspre[mi->Some_0 as int] == Some(ocx));
                                            assert(false);
                                        } else {
                                            assert(dpre.nodes@.len() <= n);
                                            if list_owned(oorig).contains(n) {
                                                assert(n < d0.nodes@.len());
                                                assert(false);
                                            }
                                            assert(n < dpre.nodes@.len());
                                            assert(false);
                                        }
                                    },
                                    None => {
                                        assert(dpre.nodes@.len() <= n);
                                        if list_owned(oorig).contains(n) {
                                            assert(n < d0.nodes@.len());
                                            assert(false);
                                        }
                                        assert(n < dpre.nodes@.len());
                                        assert(false);
                                    },
                                }
                            }
                        }
                    }
                }
                assert forall|j: int, s: NodeId|
                    (0 <= j < slots@.len() && slots@[j] is None && key_unmatched(oorig[j], norig)
                        && (#[trigger] oorig[j].slots().contains(s))) implies !dom.children_of(
                    parent,
                ).contains(s) by {
                    crate::lemma_slots_sub_owned(oorig[j]);
                    lemma_list_owned_elem(oorig, j);
                    assert(s < d0.nodes@.len());
                    if slotspre[j] is None {
                        assert(!dpre.children_of(parent).contains(s));
                        if dom.children_of(parent).contains(s) {
                            assert(dmid.children_of(parent).contains(s));
                            assert(false);
                        }
                    } else {
                        let jm = mi->Some_0 as int;
                        assert(j == jm);
                        match c.key {
                            Some(ck2) => {
                                assert(oorig[j].key is Some && crate::key_eq(
                                    oorig[j].key->Some_0,
                                    ck2,
                                ));
                                crate::lemma_key_eq_sym(oorig[j].key->Some_0, ck2);
                                assert(!(norig[p].key is Some && crate::key_eq(
                                    norig[p].key->Some_0,
                                    oorig[j].key->Some_0,
                                )));
                                assert(false);
                            },
                            None => {
                                assert(old_c == Some(oorig[j]));
                                assert(!crate::opt_key_eq(c.key, oorig[j].key));
                                assert(!dmid.children_of(parent).contains(s));
                                if dom.children_of(parent).contains(s) {
                                    assert(false);
                                }
                            },
                        }
                    }
                }
                // the same-shape fast path stays silent
                if list_skel_eq(norig, oorig) {
                    assert(c.skel_eq(oorig[p]));
                    assert(slotspre[p] == Some(oorig[p]));
                    match mi {
                        Some(j) => {
                            assert(j == p) by {
                                match c.key {
                                    None => {},
                                    Some(ck) => {
                                        assert(crate::opt_key_eq(c.key, oorig[p].key));
                                    },
                                }
                            }
                        },
                        None => {
                            assert(false);
                        },
                    }
                    assert(fp == Some(p as usize)) by {
                        assert(slotspre[p] is Some);
                    }
                    assert(!need_move);
                    assert(old_c == Some(oorig[p]));
                    assert(*dom == d0);
                }
            }
        }
        let mut ri: usize = 0;
        while ri < slots.len()
            invariant
                slots@.len() == oorig.len(),
                oorig == o.children@,
                forall|j: int|
                    0 <= j < slots@.len() ==> ((#[trigger] slots@[j]) matches Some(s) ==> s
                        == oorig[j]),
                list_disjoint(oorig),
                forall|n: NodeId| #[trigger] list_owned(oorig).contains(n) ==> n
                    < d0.nodes@.len(),
                !list_owned(oorig).contains(parent),
                dom.wf(),
                dom.is_element(parent),
                parent < d0.nodes@.len(),
                dom.nodes@.len() >= d0.nodes@.len(),
                crate::untouched_except(d0, *dom, parent, list_owned(oorig)),
                dom.nodes@[parent as int].kind == d0.nodes@[parent as int].kind,
                dom.nodes@[parent as int].attrs@ == d0.nodes@[parent as int].attrs@,
                crate::keeps_children(d0, *dom, parent, list_owned(oorig)),
                crate::new_children_fresh(d0, *dom, parent),
                dom.children_of(parent).contains(anch),
                anch < d0.nodes@.len(),
                !list_owned(oorig).contains(anch),
                forall|j: int|
                    ri <= j < slots@.len() ==> ((#[trigger] slots@[j]) matches Some(s)
                        ==> s.mounted_in(*dom, parent)),
                forall|k: int|
                    0 <= k < out@.len() ==> (#[trigger] out@[k]).mounted_in(*dom, parent),
                forall|k: int, j: int, n: NodeId|
                    0 <= k < out@.len() && 0 <= j < slots@.len() && (#[trigger] out@[k].owned()
                        .contains(n)) ==> ((#[trigger] slots@[j]) matches Some(s) ==> !s.owned()
                        .contains(n)),
                forall|k: int, n: NodeId|
                    0 <= k < out@.len() && (#[trigger] out@[k].owned().contains(n)) ==> list_owned(
                        oorig,
                    ).contains(n) || d0.nodes@.len() <= n < dom.nodes@.len(),
                list_skel_eq(norig, oorig) ==> (*dom == d0 && (forall|j: int|
                    0 <= j < slots@.len() ==> (#[trigger] slots@[j]) is None)),
                forall|j: int| 0 <= j < ri ==> (#[trigger] slots@[j]) is None,
                forall|j: int, s: NodeId|
                    (0 <= j < slots@.len() && slots@[j] is None && key_unmatched(oorig[j], norig)
                        && (#[trigger] oorig[j].slots().contains(s))) ==> !dom.children_of(
                        parent,
                    ).contains(s),
            decreases slots@.len() - ri,
        {
            let ghost slotspre3 = slots@;
            let mut tmp: Option<KeyedVNodes> = None;
            slots.set_and_swap(ri, &mut tmp);
            match tmp {
                Some(s) => {
                    let ghost dpre2 = *dom;
                    proof {
                        assert(s == oorig[ri as int]);
                        lemma_list_owned_elem(oorig, ri as int);
                        assert(!s.owned().contains(parent));
                    }
                    let res = s.remove(dom, parent);
                    proof {
                        assert(res is Ok);
                        assert forall|j: int|
                            ri + 1 <= j < slots@.len() implies ((#[trigger] slots@[j]) matches Some(
                            sx,
                        ) ==> sx.mounted_in(*dom, parent)) by {
                            match slots@[j] {
                                Some(sx) => {
                                    assert(sx == oorig[j]);
                                    assert(sx.mounted_in(dpre2, parent));
                                    lemma_list_owned_elem(oorig, j);
                                    assert forall|n: NodeId| #[trigger] sx.owned().contains(n)
                                        implies dom.nodes@[n as int] == dpre2.nodes@[n as int] by {
                                        assert(n != parent);
                                        assert(n < d0.nodes@.len());
                                        assert(oorig[j].owned().disjoint(
                                            oorig[ri as int].owned(),
                                        ));
                                        assert(!s.owned().contains(n));
                                    }
                                    crate::lemma_mounted_frame(sx, dpre2, *dom, parent);
                                },
                                None => {},
                            }
                        }
                        assert forall|k: int|
                            0 <= k < out@.len() implies (#[trigger] out@[k]).mounted_in(
                            *dom,
                            parent,
                        ) by {
                            let t = out@[k];
                            assert(t.mounted_in(dpre2, parent));
                            assert forall|n: NodeId| #[trigger] t.owned().contains(n)
                                implies dom.nodes@[n as int] == dpre2.nodes@[n as int] by {
                                assert(out@[k].owned().contains(n));
                                if list_owned(oorig).contains(n) {
                                    assert(n < d0.nodes@.len());
                                    assert(n != parent);
                                } else {
                                    assert(d0.nodes@.len() <= n);
                                    assert(n != parent);
                                }
                                assert(!s.owned().contains(n));
                            }
                            crate::lemma_mounted_frame(t, dpre2, *dom, parent);
                        }
                        assert forall|j: int, sx: NodeId|
                            (0 <= j < slots@.len() && slots@[j] is None && key_unmatched(
                                oorig[j],
                                norig,
                            ) && (#[trigger] oorig[j].slots().contains(sx)))
                            implies !dom.children_of(parent).contains(sx) by {
                            crate::lemma_slots_sub_owned(oorig[j]);
                            lemma_list_owned_elem(oorig, j);
                            assert(sx < d0.nodes@.len());
                            if j == ri as int {
                                assert(s == oorig[j]);
                                assert(!dom.children_of(parent).contains(sx));
                            } else {
                                assert(slotspre3[j] is None);
                                assert(!dpre2.children_of(parent).contains(sx));
                                if dom.children_of(parent).contains(sx) {
                                    assert(dpre2.children_of(parent).contains(sx));
                                    assert(false);
                                }
                            }
                        }
                    }
                },
                None => {},
            }
            ri = ri + 1;
        }
        let m = VList { children: out, node: Some(anch) };
        proof {
            assert(m.skel_eq(self)) by {
                assert(list_skel_eq(out@, norig)) by {
                    assert(out@.len() == norig.len());
                }
            }
            assert(list_keys_distinct(out@)) by {
                assert forall|i: int, j: int|
                    (0 <= i < out@.len() && 0 <= j < out@.len() && i != j && (
                    #[trigger] out@[i]).key is Some && (#[trigger] out@[j]).key is Some)
                        implies !crate::key_eq(out@[i].key->Some_0, out@[j].key->Some_0) by {
                    assert(out@[i].skel_eq(norig[i]));
                    assert(out@[j].skel_eq(norig[j]));
                }
            }
            assert(o.owned().contains(anch));
            assert forall|k: NodeId| #[trigger] m.owned().contains(k) implies (o.owned().contains(
                k,
            ) || d0.nodes@.len() <= k < dom.nodes@.len()) by {
                if list_owned(out@).contains(k) {
                    let j = choose|j: int|
                        0 <= j < out@.len() && (#[trigger] out@[j]).owned().contains(k);
                } else {
                    assert(k == anch);
                }
            }
            assert(!list_owned(out@).contains(anch)) by {
                if list_owned(out@).contains(anch) {
                    let j = choose|j: int|
                        0 <= j < out@.len() && (#[trigger] out@[j]).owned().contains(anch);
                    assert(list_owned(oorig).contains(anch) || d0.nodes@.len() <= anch);
                }
            }
            assert(m.mounted_in(*dom, parent));
            if self.skel_eq(o) {
                assert(*dom == d0);
            }
        }
        Ok(m)
    }

    /// Detaches every child from `parent`, in order: bottom-up teardown of
    /// the whole list.
    pub fn remove(self, dom: &mut LiveDom, parent: NodeId) -> (r: Result<(), DomError>)
        requires
            old(dom).wf(),
            old(dom).is_element(parent),
            self.mounted_in(*old(dom), parent),
            !self.owned().contains(parent),
        ensures
            r is Ok,
            crate::removed_ensures(*old(dom), *final(dom), parent, self.owned(), self.slots()),
        decreases self,
    {
        let anch = match self.node {
            Some(a) => a,
            None => {
                proof {
                    assert(false);
                }
                return Err(DomError::NoSuchNode);
            },
        };
        let mut children = self.children;
        let ghost orig = children@;
        let ghost d0 = *dom;
        proof {
            assert(orig == self.children@);
            assert(d0.children_of(parent).contains(anch));
            assert(anch < d0.nodes@.len());
            assert(!list_owned(orig).contains(anch));
            assert(list_mounted(orig, d0, parent));
            assert forall|k: NodeId| #[trigger] list_owned(orig).contains(k) implies k
                < d0.nodes@.len() by {
                let j = choose|j: int|
                    0 <= j < orig.len() && (#[trigger] orig[j]).owned().contains(k);
                assert(orig[j].mounted_in(d0, parent));
                crate::lemma_mounted_owned_valid(orig[j], d0, parent);
            }
        }
        while children.len() > 0
            invariant
                orig == self.children@,
                children@.len() <= orig.len(),
                children@ == orig.subrange(orig.len() - children@.len(), orig.len() as int),
                dom.wf(),
                dom.is_element(parent),
                dom.nodes@.len() == d0.nodes@.len(),
                crate::untouched_except(d0, *dom, parent, list_owned(orig)),
                dom.nodes@[parent as int].kind == d0.nodes@[parent as int].kind,
                dom.nodes@[parent as int].attrs@ == d0.nodes@[parent as int].attrs@,
                crate::keeps_children(d0, *dom, parent, list_owned(orig)),
                forall|c: NodeId|
                    #[trigger] dom.children_of(parent).contains(c) ==> d0.children_of(
                        parent,
                    ).contains(c),
                crate::ops_only_removes(d0.ops, dom.ops),
                forall|k: int|
                    0 <= k < children@.len() ==> (#[trigger] children@[k]).mounted_in(
                        *dom,
                        parent,
                    ),
                list_disjoint(orig),
                forall|s: NodeId, j: int|
                    0 <= j < orig.len() - children@.len() && (#[trigger] orig[j].slots().contains(
                        s,
                    )) ==> !dom.children_of(parent).contains(s),
                forall|k: NodeId| #[trigger] list_owned(orig).contains(k) ==> k < d0.nodes@.len(),
                !list_owned(orig).contains(parent),
                dom.children_of(parent).contains(anch),
                anch < d0.nodes@.len(),
                !list_owned(orig).contains(anch),
            decreases children@.len(),
        {
            let ghost p: int = orig.len() - children@.len();
            let ghost dpre = *dom;
            let c = children.remove(0);
            proof {
                assert(c == orig.subrange(p, orig.len() as int)[0]);
                assert(c == orig[p]);
                assert(c == self.children@[p]);
                assert(decreases_to!(self => c));
                lemma_list_owned_elem(orig, p);
                assert(c.mounted_in(dpre, parent));
                assert(!c.owned().contains(parent));
            }
            let res = c.remove(dom, parent);
            proof {
                assert(children@ =~= orig.subrange(
                    orig.len() - children@.len(),
                    orig.len() as int,
                ));
                assert(dom.children_of(parent).contains(anch)) by {
                    assert(!c.owned().contains(anch));
                }
                assert forall|k: int|
                    0 <= k < children@.len() implies (#[trigger] children@[k]).mounted_in(
                    *dom,
                    parent,
                ) by {
                    let t = children@[k];
                    assert(t == orig.subrange(p + 1, orig.len() as int)[k]);
                    assert(t == orig[p + 1 + k]);
                    lemma_list_owned_elem(orig, p + 1 + k);
                    assert(t.owned().disjoint(c.owned()));
                    assert forall|n: NodeId| #[trigger] t.owned().contains(n) implies dom.nodes@[n as int]
                        == dpre.nodes@[n as int] by {
                        assert(!c.owned().contains(n));
                        assert(n != parent);
                        assert(n < d0.nodes@.len());
                    }
                    assert forall|s: NodeId|
                        #[trigger] t.owned().contains(s) && dpre.children_of(parent).contains(s)
                            implies dom.children_of(parent).contains(s) by {
                        assert(!c.owned().contains(s));
                    }
                    crate::lemma_mounted_frame(t, dpre, *dom, parent);
                }
                assert forall|s: NodeId, j: int|
                    0 <= j < orig.len() - children@.len() && (#[trigger] orig[j].slots().contains(
                        s,
                    )) implies !dom.children_of(parent).contains(s) by {
                    if j < p {
                        assert(!dpre.children_of(parent).contains(s));
                    } else {
                        assert(j == p);
                    }
                }
            }
        }
        let ghost dmid = *dom;
        let r2 = dom.remove_child(parent, anch);
        proof {
            assert(r2 is Ok);
            let prior = dmid.children_of(parent);
            let i = choose|i: int|
                0 <= i < prior.len() && prior[i] == anch && (forall|j: int|
                    0 <= j < i ==> prior[j] != anch) && dom.children_of(parent) == prior.remove(i);
            crate::lemma_seq_remove_membership(prior, i);
            assert forall|s: NodeId| #[trigger] self.slots().contains(s) implies !dom.children_of(
                parent,
            ).contains(s) by {
                if list_slots(orig).contains(s) {
                    let j = choose|j: int|
                        0 <= j < orig.len() && (#[trigger] orig[j]).slots().contains(s);
                    assert(!dmid.children_of(parent).contains(s));
                } else {
                    assert(s == anch);
                }
            }
        }
        r2
    }
}

} // verus!
