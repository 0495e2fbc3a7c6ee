use vstd::prelude::*;

use crate::geometries::{
    enclose2, enclose_pair, geom_wf, lemma_contains_trans, lemma_enclose2_least,
    lemma_enclose2_monotone, rect_contains, rect_valid, BoundingRectangle, RtreeGeometry,
};
use crate::split::RtreeSplit;
use crate::utils::{find_least_enlargement, generate_id};

verus! {

use vstd::multiset::Multiset;
use vstd::seq_lib::group_to_multiset_ensures;

/// Which kind of children a freshly constructed node will hold.
#[derive(PartialEq, Eq, Structural, Clone, Copy, Debug)]
pub enum ChildKind {
    InnerNodes,
    Leafs,
}

/// A node's children: either child nodes or geometry entries, never mixed.
pub enum ChildrenType {
    InnerNodes(Vec<RtreeNode>),
    Leafs(Vec<RtreeGeometry>),
}

/// A tree node: its children own the subtrees below it, so the parent
/// relation is the containment itself and no back-reference is needed.
pub struct RtreeNode {
    pub id: String,
    pub children: ChildrenType,
    pub mbr: BoundingRectangle,
    pub max_children: u8,
}

/// Anything stored in a node: it exposes an identifier and a bounding
/// rectangle, and lets the tree maintenance replace the rectangle.
pub trait RtreeObject: Sized {
    spec fn mbr_spec(&self) -> BoundingRectangle;

    spec fn id_spec(&self) -> Seq<char>;

    fn id(&self) -> (r: &str)
        ensures
            r@ == self.id_spec(),
    ;

    fn mbr(&self) -> (r: &BoundingRectangle)
        ensures
            *r == self.mbr_spec(),
    ;

    fn set_mbr(&mut self, mbr: BoundingRectangle)
        ensures
            final(self).mbr_spec() == mbr,
    ;
}

impl RtreeObject for RtreeGeometry {
    open spec fn mbr_spec(&self) -> BoundingRectangle {
        self.mbr
    }

    open spec fn id_spec(&self) -> Seq<char> {
        self.id@
    }

    fn id(&self) -> (r: &str) {
        self.id.as_str()
    }

    fn mbr(&self) -> (r: &BoundingRectangle) {
        &self.mbr
    }

    fn set_mbr(&mut self, mbr: BoundingRectangle) {
        self.mbr = mbr;
    }
}

impl RtreeObject for RtreeNode {
    open spec fn mbr_spec(&self) -> BoundingRectangle {
        self.mbr
    }

    open spec fn id_spec(&self) -> Seq<char> {
        self.id@
    }

    fn id(&self) -> (r: &str) {
        self.id.as_str()
    }

    fn mbr(&self) -> (r: &BoundingRectangle) {
        &self.mbr
    }

    fn set_mbr(&mut self, mbr: BoundingRectangle) {
        self.mbr = mbr;
    }
}

/// The minimum fill of a node after a split: the smallest number of children
/// either resulting group may hold, `ceil(capacity / 2)`.
pub open spec fn min_fill(capacity: u8) -> nat {
    ((capacity as nat) + 1) / 2
}

impl ChildrenType {
    pub open spec fn spec_len(&self) -> nat {
        match self {
            ChildrenType::InnerNodes(ns) => ns@.len(),
            ChildrenType::Leafs(es) => es@.len(),
        }
    }

    /// How many direct children the collection holds.
    pub fn len(&self) -> (r: usize)
        ensures
            r == self.spec_len(),
    {
        match self {
            ChildrenType::InnerNodes(ns) => ns.len(),
            ChildrenType::Leafs(es) => es.len(),
        }
    }

    /// Appends a child node; the collection must hold nodes, anything else is
    /// a kind mismatch and ruled out by the precondition.
    pub fn add_node(&mut self, object: RtreeNode)
        requires
            *old(self) is InnerNodes,
        ensures
            *final(self) is InnerNodes,
            (*final(self))->InnerNodes_0@ == (*old(self))->InnerNodes_0@.push(object),
    {
        match self {
            ChildrenType::InnerNodes(ns) => {
                ns.push(object);
            },
            ChildrenType::Leafs(_) => {
                proof {
                    assert(false);
                }
            },
        }
    }

    /// Appends a geometry entry; the collection must hold entries, anything
    /// else is a kind mismatch and ruled out by the precondition.
    pub fn add_leaf(&mut self, object: RtreeGeometry)
        requires
            *old(self) is Leafs,
        ensures
            *final(self) is Leafs,
            (*final(self))->Leafs_0@ == (*old(self))->Leafs_0@.push(object),
    {
        match self {
            ChildrenType::Leafs(es) => {
                es.push(object);
            },
            ChildrenType::InnerNodes(_) => {
                proof {
                    assert(false);
                }
            },
        }
    }
}

impl RtreeNode {
    pub open spec fn child_len(self) -> nat {
        self.children.spec_len()
    }

    /// Well-formedness: the rectangle is valid, the node is within capacity,
    /// an inner node is never empty, and the node's rectangle encloses every
    /// direct child, recursively.
    pub open spec fn wf(self) -> bool
        decreases self,
    {
        &&& rect_valid(self.mbr)
        &&& self.max_children >= 1
        &&& match self.children {
            ChildrenType::Leafs(es) => {
                &&& es@.len() <= self.max_children as nat
                &&& forall|i: int|
                    0 <= i < es@.len() ==> geom_wf(#[trigger] es@[i]) && rect_contains(
                        self.mbr,
                        es@[i].mbr,
                    )
            },
            ChildrenType::InnerNodes(ns) => {
                &&& 1 <= ns@.len() <= self.max_children as nat
                &&& forall|i: int|
                    0 <= i < ns@.len() ==> (#[trigger] ns@[i]).wf() && rect_contains(
                        self.mbr,
                        ns@[i].mbr,
                    )
            },
        }
    }

    /// Well-formedness with room for one child over capacity: the transient
    /// state right after an append and before a possible split.
    pub open spec fn wf_loose(self) -> bool {
        &&& rect_valid(self.mbr)
        &&& self.max_children >= 1
        &&& self.child_len() <= self.max_children as nat + 1
        &&& match self.children {
            ChildrenType::Leafs(es) => forall|i: int|
                0 <= i < es@.len() ==> geom_wf(#[trigger] es@[i]) && rect_contains(
                    self.mbr,
                    es@[i].mbr,
                ),
            ChildrenType::InnerNodes(ns) => ns@.len() >= 1 && forall|i: int|
                0 <= i < ns@.len() ==> (#[trigger] ns@[i]).wf() && rect_contains(
                    self.mbr,
                    ns@[i].mbr,
                ),
        }
    }

    /// The state in which a split is invoked: exactly one child over
    /// capacity, everything else well-formed.
    pub open spec fn wf_over(self) -> bool {
        &&& rect_valid(self.mbr)
        &&& self.max_children >= 1
        &&& self.child_len() == self.max_children as nat + 1
        &&& match self.children {
            ChildrenType::Leafs(es) => forall|i: int|
                0 <= i < es@.len() ==> geom_wf(#[trigger] es@[i]) && rect_contains(
                    self.mbr,
                    es@[i].mbr,
                ),
            ChildrenType::InnerNodes(ns) => forall|i: int|
                0 <= i < ns@.len() ==> (#[trigger] ns@[i]).wf() && rect_contains(
                    self.mbr,
                    ns@[i].mbr,
                ),
        }
    }

    /// The multiset of all geometry entries stored in the subtree.
    pub open spec fn entries(self) -> Multiset<RtreeGeometry>
        decreases self, 1int,
    {
        match self.children {
            ChildrenType::InnerNodes(ns) => RtreeNode::seq_entries(ns@),
            ChildrenType::Leafs(es) => es@.to_multiset(),
        }
    }

    pub open spec fn seq_entries(ns: Seq<RtreeNode>) -> Multiset<RtreeGeometry>
        decreases ns, 0int,
    {
        if ns.len() == 0 {
            Multiset::empty()
        } else {
            ns[0].entries().add(RtreeNode::seq_entries(ns.drop_first()))
        }
    }

    pub open spec fn height(self) -> nat
        decreases self, 1int,
    {
        match self.children {
            ChildrenType::InnerNodes(ns) => 1 + RtreeNode::seq_height(ns@),
            ChildrenType::Leafs(_) => 1,
        }
    }

    pub open spec fn seq_height(ns: Seq<RtreeNode>) -> nat
        decreases ns, 0int,
    {
        if ns.len() == 0 {
            0
        } else if ns[0].height() >= RtreeNode::seq_height(ns.drop_first()) {
            ns[0].height()
        } else {
            RtreeNode::seq_height(ns.drop_first())
        }
    }

    /// Balance: in an inner node, every child is itself balanced and sits
    /// exactly one level below the node, so all leaves share one depth.
    pub open spec fn balanced(self) -> bool
        decreases self,
    {
        match self.children {
            ChildrenType::Leafs(_) => true,
            ChildrenType::InnerNodes(ns) => forall|i: int|
                0 <= i < ns@.len() ==> (#[trigger] ns@[i]).balanced() && ns@[i].height() + 1
                    == self.height(),
        }
    }

    /// A non-empty sequence of nodes of one height has that height.
    pub proof fn lemma_seq_height_uniform(ns: Seq<RtreeNode>, h: nat)
        requires
            ns.len() >= 1,
            forall|i: int| 0 <= i < ns.len() ==> (#[trigger] ns[i]).height() == h,
        ensures
            RtreeNode::seq_height(ns) == h,
        decreases ns.len(),
    {
        assert(ns[0].height() == h);
        if ns.len() > 1 {
            assert forall|i: int| 0 <= i < ns.drop_first().len() implies (#[trigger] ns.drop_first()[i]).height() == h by {
                assert(ns.drop_first()[i] == ns[i + 1]);
            }
            RtreeNode::lemma_seq_height_uniform(ns.drop_first(), h);
        } else {
            assert(ns.drop_first().len() == 0);
            assert(RtreeNode::seq_height(ns.drop_first()) == 0);
        }
    }

    pub proof fn lemma_child_height(ns: Seq<RtreeNode>, i: int)
        requires
            0 <= i < ns.len(),
        ensures
            ns[i].height() <= RtreeNode::seq_height(ns),
        decreases ns.len(),
    {
        if i > 0 {
            RtreeNode::lemma_child_height(ns.drop_first(), i - 1);
        }
    }

    pub proof fn lemma_seq_entries_concat(a: Seq<RtreeNode>, b: Seq<RtreeNode>)
        ensures
            RtreeNode::seq_entries(a + b) == RtreeNode::seq_entries(a).add(
                RtreeNode::seq_entries(b),
            ),
        decreases a.len(),
    {
        if a.len() == 0 {
            assert(a + b =~= b);
            assert(RtreeNode::seq_entries(a) == Multiset::<RtreeGeometry>::empty());
            assert(RtreeNode::seq_entries(a).add(RtreeNode::seq_entries(b)) =~=
                RtreeNode::seq_entries(b));
        } else {
            assert((a + b).len() > 0);
            assert((a + b)[0] == a[0]);
            assert((a + b).drop_first() =~= a.drop_first() + b);
            RtreeNode::lemma_seq_entries_concat(a.drop_first(), b);
            assert(a[0].entries().add(
                RtreeNode::seq_entries(a.drop_first()).add(RtreeNode::seq_entries(b)),
            ) =~= RtreeNode::seq_entries(a).add(RtreeNode::seq_entries(b)));
        }
    }

    /// Removing the child at `k` removes exactly its entries.
    pub proof fn lemma_seq_entries_remove(s: Seq<RtreeNode>, k: int)
        requires
            0 <= k < s.len(),
        ensures
            RtreeNode::seq_entries(s) == RtreeNode::seq_entries(s.remove(k)).add(s[k].entries()),
    {
        let front = s.take(k);
        let back = s.skip(k + 1);
        assert(s =~= front + (seq![s[k]] + back));
        assert(s.remove(k) =~= front + back);
        RtreeNode::lemma_seq_entries_concat(front, seq![s[k]] + back);
        RtreeNode::lemma_seq_entries_concat(seq![s[k]], back);
        RtreeNode::lemma_seq_entries_concat(front, back);
        assert(seq![s[k]].drop_first() =~= Seq::<RtreeNode>::empty());
        assert(RtreeNode::seq_entries(seq![s[k]]) == s[k].entries().add(
            RtreeNode::seq_entries(Seq::<RtreeNode>::empty()),
        ));
        assert(s[k].entries().add(Multiset::<RtreeGeometry>::empty()) =~= s[k].entries());
        assert(RtreeNode::seq_entries(front).add(s[k].entries().add(RtreeNode::seq_entries(back)))
            =~= RtreeNode::seq_entries(front).add(RtreeNode::seq_entries(back)).add(
            s[k].entries(),
        ));
    }

    /// Inserting a child at `k` adds exactly its entries.
    pub proof fn lemma_seq_entries_insert(s: Seq<RtreeNode>, k: int, x: RtreeNode)
        requires
            0 <= k <= s.len(),
        ensures
            RtreeNode::seq_entries(s.insert(k, x)) == RtreeNode::seq_entries(s).add(x.entries()),
    {
        let t = s.insert(k, x);
        RtreeNode::lemma_seq_entries_remove(t, k);
        assert(t.remove(k) =~= s);
        assert(t[k] == x);
    }

    pub proof fn lemma_seq_entries_push(s: Seq<RtreeNode>, x: RtreeNode)
        ensures
            RtreeNode::seq_entries(s.push(x)) == RtreeNode::seq_entries(s).add(x.entries()),
    {
        assert(s.push(x) =~= s.insert(s.len() as int, x));
        RtreeNode::lemma_seq_entries_insert(s, s.len() as int, x);
    }

    /// Sequences holding the same children in any order hold the same
    /// entries.
    pub proof fn lemma_seq_entries_permutation(s1: Seq<RtreeNode>, s2: Seq<RtreeNode>)
        requires
            s1.to_multiset() == s2.to_multiset(),
        ensures
            RtreeNode::seq_entries(s1) == RtreeNode::seq_entries(s2),
        decreases s1.len(),
    {
        broadcast use group_to_multiset_ensures;

        if s1.len() == 0 {
            assert(s1.to_multiset().len() == s1.len());
            assert(s2.to_multiset().len() == s2.len());
            assert(s2.len() == 0);
        } else {
            let x = s1[0];
            assert(s1.contains(x));
            assert(s2.to_multiset().count(x) > 0);
            assert(s2.contains(x));
            let k = choose|k: int| 0 <= k < s2.len() && s2[k] == x;
            assert(s1.drop_first() =~= s1.remove(0));
            assert(s1.remove(0).to_multiset() == s1.to_multiset().remove(x));
            assert(s2.remove(k).to_multiset() == s2.to_multiset().remove(x));
            RtreeNode::lemma_seq_entries_permutation(s1.drop_first(), s2.remove(k));
            RtreeNode::lemma_seq_entries_remove(s2, k);
        }
    }

    /// Law: a well-formed node's rectangle encloses the rectangle of every
    /// geometry entry stored anywhere in its subtree — so after an insertion
    /// every ancestor of the inserted entry, up to the root, encloses it.
    pub proof fn lemma_node_encloses_entries(n: RtreeNode, g: RtreeGeometry)
        requires
            n.wf(),
            n.entries().contains(g),
        ensures
            rect_contains(n.mbr, g.mbr),
        decreases n, 1int,
    {
        broadcast use group_to_multiset_ensures;

        match n.children {
            ChildrenType::Leafs(es) => {
                assert(es@.contains(g));
                let i = choose|i: int| 0 <= i < es@.len() && es@[i] == g;
                assert(rect_contains(n.mbr, es@[i].mbr));
            },
            ChildrenType::InnerNodes(ns) => {
                let i = RtreeNode::lemma_seq_entries_locate(ns@, g);
                RtreeNode::lemma_node_encloses_entries(ns@[i], g);
                crate::geometries::lemma_contains_trans(n.mbr, ns@[i].mbr, g.mbr);
            },
        }
    }

    /// An entry found in a sequence's entries lies in one of its nodes.
    pub proof fn lemma_seq_entries_locate(ns: Seq<RtreeNode>, g: RtreeGeometry) -> (i: int)
        requires
            RtreeNode::seq_entries(ns).contains(g),
        ensures
            0 <= i < ns.len(),
            ns[i].entries().contains(g),
        decreases ns, 0int,
    {
        if ns.len() == 0 {
            assert(false);
            0
        } else {
            if ns[0].entries().contains(g) {
                0
            } else {
                let j = RtreeNode::lemma_seq_entries_locate(ns.drop_first(), g);
                assert(ns.drop_first()[j] == ns[j + 1]);
                j + 1
            }
        }
    }

    /// Builds an empty node with the given rectangle, capacity and children
    /// kind; a fresh leaf node is well-formed, an inner node becomes
    /// well-formed once it receives its first child.
    pub fn new(rectangle: BoundingRectangle, max_children: u8, obj_type: ChildKind) -> (n:
        RtreeNode)
        requires
            rect_valid(rectangle),
            max_children >= 1,
        ensures
            n.mbr == rectangle,
            n.max_children == max_children,
            n.id@.len() == 36,
            n.child_len() == 0,
            n.balanced(),
            obj_type == ChildKind::Leafs ==> n.children is Leafs && n.wf(),
            obj_type == ChildKind::InnerNodes ==> n.children is InnerNodes,
            n.entries() == Multiset::<RtreeGeometry>::empty(),
    {
        broadcast use group_to_multiset_ensures;

        let children = match obj_type {
            ChildKind::InnerNodes => ChildrenType::InnerNodes(Vec::new()),
            ChildKind::Leafs => ChildrenType::Leafs(Vec::new()),
        };
        let n = RtreeNode { id: generate_id(), children, mbr: rectangle, max_children };
        proof {
            assert(Seq::<RtreeGeometry>::empty().to_multiset() =~= Multiset::<
                RtreeGeometry,
            >::empty());
        }
        n
    }

    /// Inserts an entry somewhere below this node: grows this node's
    /// rectangle to enclose the entry, descends along the least-enlargement
    /// child, and splits on overflow, handing the new sibling to the caller.
    fn insert_rec(&mut self, geom: RtreeGeometry) -> (sibling: Option<RtreeNode>)
        requires
            old(self).wf(),
            geom_wf(geom),
        ensures
            final(self).wf(),
            final(self).max_children == old(self).max_children,
            old(self).balanced() ==> final(self).balanced() && final(self).height() == old(
                self,
            ).height(),
            sibling is None ==> final(self).entries() == old(self).entries().insert(geom)
                && final(self).mbr == enclose2(old(self).mbr, geom.mbr),
            (match sibling {
                Option::Some(sib) => {
                    &&& sib.wf()
                    &&& sib.max_children == old(self).max_children
                    &&& final(self).entries().add(sib.entries()) == old(self).entries().insert(
                        geom,
                    )
                    &&& rect_contains(enclose2(old(self).mbr, geom.mbr), final(self).mbr)
                    &&& rect_contains(enclose2(old(self).mbr, geom.mbr), sib.mbr)
                    &&& old(self).balanced() ==> sib.balanced() && sib.height() == old(
                        self,
                    ).height()
                },
                Option::None => true,
            }),
        decreases old(self).height(),
    {
        let grown = enclose_pair(&self.mbr, &geom.mbr);
        self.mbr = grown;
        match &mut self.children {
            ChildrenType::Leafs(es) => {
                let ghost es0 = es@;
                es.push(geom);
                proof {
                    vstd::seq_lib::to_multiset_build(es0, geom);
                    assert forall|i: int| 0 <= i < es@.len() implies geom_wf(#[trigger] es@[i])
                        && rect_contains(self.mbr, es@[i].mbr) by {
                        if i < es0.len() {
                            assert(es@[i] == es0[i]);
                            lemma_contains_trans(self.mbr, old(self).mbr, es0[i].mbr);
                        } else {
                            assert(es@[i] == geom);
                        }
                    }
                    assert(self.wf_loose());
                    assert(self.entries() == old(self).entries().insert(geom));
                    assert(self.height() == 1 && old(self).height() == 1);
                    assert(self.balanced());
                }
            },
            ChildrenType::InnerNodes(ns) => {
                let ghost ns0 = ns@;
                proof {
                    assert forall|i: int| 0 <= i < ns@.len() implies rect_valid(
                        (#[trigger] ns@[i]).mbr,
                    ) by {
                        assert(ns@[i].wf());
                    }
                }
                let least = find_least_enlargement(ns, &geom.mbr);
                let idx = least.0;
                let mut child = ns.remove(idx);
                let ghost child0 = child;
                proof {
                    RtreeNode::lemma_child_height(ns0, idx as int);
                    assert(old(self).height() == 1 + RtreeNode::seq_height(ns0));
                }
                let sub = child.insert_rec(geom);
                let ghost child1 = child;
                ns.insert(idx, child);
                proof {
                    assert(ns@ =~= ns0.update(idx as int, child1));
                    RtreeNode::lemma_seq_entries_remove(ns0, idx as int);
                    RtreeNode::lemma_seq_entries_insert(ns0.remove(idx as int), idx as int, child1);
                    lemma_enclose2_monotone(old(self).mbr, child0.mbr, geom.mbr);
                }
                match sub {
                    Option::Some(sib_child) => {
                        let ghost ns2 = ns@;
                        ns.push(sib_child);
                        proof {
                            RtreeNode::lemma_seq_entries_push(ns2, sib_child);
                            assert forall|i: int| 0 <= i < ns@.len() implies (#[trigger] ns@[i]).wf()
                                && rect_contains(self.mbr, ns@[i].mbr) by {
                                if i < ns2.len() {
                                    if i == idx as int {
                                        lemma_contains_trans(
                                            self.mbr,
                                            enclose2(child0.mbr, geom.mbr),
                                            child1.mbr,
                                        );
                                    } else {
                                        assert(ns@[i] == ns0[i]);
                                        lemma_contains_trans(self.mbr, old(self).mbr, ns0[i].mbr);
                                    }
                                } else {
                                    assert(ns@[i] == sib_child);
                                    lemma_contains_trans(
                                        self.mbr,
                                        enclose2(child0.mbr, geom.mbr),
                                        sib_child.mbr,
                                    );
                                }
                            }
                            assert(old(self).entries() == RtreeNode::seq_entries(ns0));
                            assert(self.entries() == RtreeNode::seq_entries(ns@));
                            assert(RtreeNode::seq_entries(ns@) == RtreeNode::seq_entries(
                                ns2,
                            ).add(sib_child.entries()));
                            assert(RtreeNode::seq_entries(ns2) == RtreeNode::seq_entries(
                                ns0.remove(idx as int),
                            ).add(child1.entries()));
                            assert(child1.entries().add(sib_child.entries())
                                == child0.entries().insert(geom));
                            assert(RtreeNode::seq_entries(ns@) =~= RtreeNode::seq_entries(
                                ns0.remove(idx as int),
                            ).add(child1.entries().add(sib_child.entries())));
                            assert(self.entries() =~= old(self).entries().insert(geom));
                            assert(self.wf_loose());
                            if old(self).balanced() {
                                let h = RtreeNode::seq_height(ns0);
                                assert(old(self).height() == 1 + h);
                                assert(child0.balanced() && child0.height() == h);
                                assert forall|i: int| 0 <= i < ns@.len() implies (#[trigger] ns@[i]).balanced()
                                    && ns@[i].height() == h by {
                                    if i < ns2.len() {
                                        if i != idx as int {
                                            assert(ns@[i] == ns0[i]);
                                        }
                                    } else {
                                        assert(ns@[i] == sib_child);
                                    }
                                }
                                RtreeNode::lemma_seq_height_uniform(ns@, h);
                                assert(self.height() == 1 + h);
                                assert(self.balanced());
                            }
                        }
                    },
                    Option::None => {
                        proof {
                            assert forall|i: int| 0 <= i < ns@.len() implies (#[trigger] ns@[i]).wf()
                                && rect_contains(self.mbr, ns@[i].mbr) by {
                                if i == idx as int {
                                    lemma_contains_trans(
                                        self.mbr,
                                        enclose2(child0.mbr, geom.mbr),
                                        child1.mbr,
                                    );
                                } else {
                                    assert(ns@[i] == ns0[i]);
                                    lemma_contains_trans(self.mbr, old(self).mbr, ns0[i].mbr);
                                }
                            }
                            assert(old(self).entries() == RtreeNode::seq_entries(ns0));
                            assert(self.entries() == RtreeNode::seq_entries(ns@));
                            assert(RtreeNode::seq_entries(ns@) == RtreeNode::seq_entries(
                                ns0.remove(idx as int),
                            ).add(child1.entries()));
                            assert(child1.entries() == child0.entries().insert(geom));
                            assert(self.entries() =~= old(self).entries().insert(geom));
                            assert(self.wf_loose());
                            if old(self).balanced() {
                                let h = RtreeNode::seq_height(ns0);
                                assert(old(self).height() == 1 + h);
                                assert(child0.balanced() && child0.height() == h);
                                assert forall|i: int| 0 <= i < ns@.len() implies (#[trigger] ns@[i]).balanced()
                                    && ns@[i].height() == h by {
                                    if i != idx as int {
                                        assert(ns@[i] == ns0[i]);
                                    }
                                }
                                RtreeNode::lemma_seq_height_uniform(ns@, h);
                                assert(self.height() == 1 + h);
                                assert(self.balanced());
                            }
                        }
                    },
                }
            },
        }
        if self.children.len() > self.max_children as usize {
            proof {
                assert(self.wf_over());
            }
            let ghost mid = *self;
            let sib = self.split();
            proof {
                assert(mid.split_done(*self, sib));
            }
            Option::Some(sib)
        } else {
            proof {
                assert(self.wf());
            }
            Option::None
        }
    }

    /// Inserts a geometry entry into the tree rooted at this node. If the
    /// root itself overflows and splits, a new root holding exactly the two
    /// split halves takes its place.
    pub fn insert(&mut self, geom: RtreeGeometry)
        requires
            old(self).wf(),
            old(self).max_children >= 2,
            geom_wf(geom),
        ensures
            final(self).wf(),
            final(self).entries() == old(self).entries().insert(geom),
            final(self).max_children == old(self).max_children,
            rect_contains(final(self).mbr, geom.mbr),
            rect_contains(enclose2(old(self).mbr, geom.mbr), final(self).mbr),
            old(self).balanced() ==> final(self).balanced() && old(self).height() <= final(self).height()
                && final(self).height() <= old(self).height() + 1,
    {
        let sub = self.insert_rec(geom);
        if let Option::Some(sib) = sub {
            let new_mbr = enclose_pair(&self.mbr, &sib.mbr);
            let cap = self.max_children;
            let mut tmp = RtreeNode {
                id: generate_id(),
                children: ChildrenType::InnerNodes(Vec::new()),
                mbr: new_mbr,
                max_children: cap,
            };
            core::mem::swap(self, &mut tmp);
            let ghost half_a = tmp;
            match &mut self.children {
                ChildrenType::InnerNodes(ns) => {
                    let ghost e = Seq::<RtreeNode>::empty();
                    ns.push(tmp);
                    ns.push(sib);
                    proof {
                        RtreeNode::lemma_seq_entries_push(e, half_a);
                        RtreeNode::lemma_seq_entries_push(e.push(half_a), sib);
                        assert(ns@ == e.push(half_a).push(sib));
                        assert(self.entries() =~= old(self).entries().insert(geom));
                        lemma_enclose2_least(enclose2(old(self).mbr, geom.mbr), half_a.mbr, sib.mbr);
                        if old(self).balanced() {
                            let h = old(self).height();
                            assert(half_a.balanced() && half_a.height() == h);
                            assert(sib.balanced() && sib.height() == h);
                            assert forall|i: int| 0 <= i < ns@.len() implies (#[trigger] ns@[i]).height()
                                == h by {
                            }
                            RtreeNode::lemma_seq_height_uniform(ns@, h);
                            assert(self.height() == 1 + h);
                            assert(self.balanced());
                        }
                    }
                },
                ChildrenType::Leafs(_) => {
                    proof {
                        assert(false);
                    }
                },
            }
            proof {
                assert(self.wf());
            }
        }
        proof {
            assert(self.entries().count(geom) >= 1);
            RtreeNode::lemma_node_encloses_entries(*self, geom);
        }
    }
}

} // verus!
