use vstd::prelude::*;

use crate::geometries::{
    enclose2, enclose_pair, enclosing_seq, geom_wf, lemma_area_range, lemma_enclosing_seq_in,
    lemma_enclosing_seq_props, rect_contains, rect_valid, BoundingRectangle, RtreeGeometry,
};
use crate::nodes::{min_fill, ChildrenType, RtreeNode, RtreeObject};
use crate::utils::generate_id;

verus! {

use vstd::seq_lib::group_to_multiset_ensures;
use vstd::seq_lib::lemma_multiset_commutative;

/// The rectangles of a sequence of stored objects.
pub open spec fn mbrs_of<T: RtreeObject>(s: Seq<T>) -> Seq<BoundingRectangle> {
    s.map_values(|t: T| t.mbr_spec())
}

/// The area wasted by putting the objects at `p` and `q` together: the area
/// of the rectangle enclosing both, less their own areas.
pub open spec fn pair_waste<T: RtreeObject>(s: Seq<T>, p: int, q: int) -> int {
    enclose2(s[p].mbr_spec(), s[q].mbr_spec()).area - s[p].mbr_spec().area - s[q].mbr_spec().area
}

/// The seed pair `(i, j)` is picked over the pair `(p, q)`: it wastes
/// strictly more area, or the same with `(i, j)` no later in index order.
pub open spec fn seed_pref<T: RtreeObject>(s: Seq<T>, i: int, j: int, p: int, q: int) -> bool {
    ||| pair_waste(s, p, q) < pair_waste(s, i, j)
    ||| (pair_waste(s, p, q) == pair_waste(s, i, j) && (i < p || (i == p && j <= q)))
}

/// `(i, j)` is the earliest pair of maximal waste.
pub open spec fn seeds_ok<T: RtreeObject>(s: Seq<T>, i: int, j: int) -> bool {
    &&& 0 <= i < j < s.len()
    &&& forall|p: int, q: int| 0 <= p < q < s.len() ==> #[trigger] seed_pref(s, i, j, p, q)
}

/// Examines every unordered pair of objects and returns the positions of the
/// pair wasting the most area, earliest such pair first.
pub fn pick_seeds<T: RtreeObject>(items: &Vec<T>) -> (r: (usize, usize))
    requires
        items@.len() >= 2,
        forall|i: int| 0 <= i < items@.len() ==> rect_valid((#[trigger] items@[i]).mbr_spec()),
    ensures
        seeds_ok(items@, r.0 as int, r.1 as int),
{
    let ghost s = items@;
    let mut best_i: usize = 0;
    let mut best_j: usize = 1;
    let mut best_w: i64 = waste_exec(items, 0, 1);
    let mut p: usize = 0;
    while p < items.len()
        invariant
            s == items@,
            s.len() >= 2,
            forall|k: int| 0 <= k < s.len() ==> rect_valid((#[trigger] s[k]).mbr_spec()),
            p <= s.len(),
            0 <= best_i < best_j < s.len(),
            best_i < p || (best_i == p && best_j <= p + 1),
            best_w == pair_waste(s, best_i as int, best_j as int),
            forall|x: int, y: int|
                0 <= x < y < s.len() && x < p ==> #[trigger] seed_pref(
                    s,
                    best_i as int,
                    best_j as int,
                    x,
                    y,
                ),
        decreases s.len() - p,
    {
        let mut q: usize = p + 1;
        while q < items.len()
            invariant
                s == items@,
                s.len() >= 2,
                forall|k: int| 0 <= k < s.len() ==> rect_valid((#[trigger] s[k]).mbr_spec()),
                p < s.len(),
                p + 1 <= q,
                0 <= best_i < best_j < s.len(),
                best_i < p || (best_i == p && best_j <= q),
                best_w == pair_waste(s, best_i as int, best_j as int),
                forall|x: int, y: int|
                    0 <= x < y < s.len() && (x < p || (x == p && y < q)) ==> #[trigger] seed_pref(
                        s,
                        best_i as int,
                        best_j as int,
                        x,
                        y,
                    ),
            decreases s.len() - q,
        {
            let w = waste_exec(items, p, q);
            let ghost obi = best_i as int;
            let ghost obj = best_j as int;
            if w > best_w {
                best_i = p;
                best_j = q;
                best_w = w;
            }
            proof {
                assert forall|x: int, y: int|
                    0 <= x < y < s.len() && (x < p || (x == p && y < q + 1)) implies #[trigger]
                seed_pref(s, best_i as int, best_j as int, x, y) by {
                    if x < p || (x == p && y < q) {
                        assert(seed_pref(s, obi, obj, x, y));
                    }
                }
            }
            q = q + 1;
        }
        p = p + 1;
    }
    (best_i, best_j)
}

pub open spec fn abs_i(x: int) -> int {
    if x >= 0 {
        x
    } else {
        -x
    }
}

/// How strongly the object with rectangle `m` prefers one group over the
/// other: the absolute difference of its enlargement costs against the two
/// group rectangles.
pub open spec fn pref_strength(
    ra: BoundingRectangle,
    rb: BoundingRectangle,
    m: BoundingRectangle,
) -> int {
    abs_i((enclose2(ra, m).area - ra.area) - (enclose2(rb, m).area - rb.area))
}

/// `k` is the position of the object with the strongest group preference,
/// earliest position on ties.
pub open spec fn next_ok<T: RtreeObject>(
    s: Seq<T>,
    ra: BoundingRectangle,
    rb: BoundingRectangle,
    k: int,
) -> bool {
    &&& 0 <= k < s.len()
    &&& forall|j: int|
        0 <= j < s.len() && j != k ==> pref_strength(ra, rb, (#[trigger] s[j]).mbr_spec())
            < pref_strength(ra, rb, s[k].mbr_spec()) || (pref_strength(ra, rb, s[j].mbr_spec())
            == pref_strength(ra, rb, s[k].mbr_spec()) && k < j)
}

/// The preference strength of the object at `i`, computed without overflow.
fn strength_exec<T: RtreeObject>(
    rest: &Vec<T>,
    i: usize,
    ra: &BoundingRectangle,
    rb: &BoundingRectangle,
) -> (d: i64)
    requires
        i < rest@.len(),
        rect_valid(rest@[i as int].mbr_spec()),
        rect_valid(*ra),
        rect_valid(*rb),
    ensures
        d == pref_strength(*ra, *rb, rest@[i as int].mbr_spec()),
{
    let m = *rest[i].mbr();
    let ga = enclose_pair(ra, &m);
    let gb = enclose_pair(rb, &m);
    proof {
        lemma_area_range(*ra);
        lemma_area_range(*rb);
        lemma_area_range(ga);
        lemma_area_range(gb);
    }
    let ea = ga.area - ra.area;
    let eb = gb.area - rb.area;
    if ea >= eb {
        ea - eb
    } else {
        eb - ea
    }
}

/// Finds the remaining object with the strongest preference for one group
/// over the other, earliest position on ties.
pub fn pick_next<T: RtreeObject>(
    rest: &Vec<T>,
    ra: &BoundingRectangle,
    rb: &BoundingRectangle,
) -> (k: usize)
    requires
        rest@.len() >= 1,
        forall|i: int| 0 <= i < rest@.len() ==> rect_valid((#[trigger] rest@[i]).mbr_spec()),
        rect_valid(*ra),
        rect_valid(*rb),
    ensures
        next_ok(rest@, *ra, *rb, k as int),
{
    let ghost s = rest@;
    let mut k: usize = 0;
    let mut best_d: i64 = strength_exec(rest, 0, ra, rb);
    let mut i: usize = 1;
    while i < rest.len()
        invariant
            s == rest@,
            s.len() >= 1,
            forall|t: int| 0 <= t < s.len() ==> rect_valid((#[trigger] s[t]).mbr_spec()),
            rect_valid(*ra),
            rect_valid(*rb),
            1 <= i <= s.len(),
            (k as int) < i,
            best_d == pref_strength(*ra, *rb, s[k as int].mbr_spec()),
            forall|j: int|
                0 <= j < i && j != k ==> pref_strength(*ra, *rb, (#[trigger] s[j]).mbr_spec())
                    < pref_strength(*ra, *rb, s[k as int].mbr_spec()) || (pref_strength(
                    *ra,
                    *rb,
                    s[j].mbr_spec(),
                ) == pref_strength(*ra, *rb, s[k as int].mbr_spec()) && (k as int) < j),
        decreases s.len() - i,
    {
        let d = strength_exec(rest, i, ra, rb);
        if d > best_d {
            k = i;
            best_d = d;
        }
        i = i + 1;
    }
    k
}

/// The waste of the pair at `p`, `q`, computed without overflow.
fn waste_exec<T: RtreeObject>(items: &Vec<T>, p: usize, q: usize) -> (w: i64)
    requires
        p < items@.len(),
        q < items@.len(),
        forall|i: int| 0 <= i < items@.len() ==> rect_valid((#[trigger] items@[i]).mbr_spec()),
    ensures
        w == pair_waste(items@, p as int, q as int),
{
    let a = items[p].mbr();
    let am = *a;
    let b = items[q].mbr();
    let bm = *b;
    let grown = enclose_pair(&am, &bm);
    proof {
        lemma_area_range(am);
        lemma_area_range(bm);
        lemma_area_range(grown);
    }
    grown.area - am.area - bm.area
}

proof fn lemma_mbrs_push<T: RtreeObject>(s: Seq<T>, x: T)
    ensures
        mbrs_of(s.push(x)) =~= mbrs_of(s).push(x.mbr_spec()),
{
    assert forall|i: int| 0 <= i < s.len() + 1 implies mbrs_of(s.push(x))[i] == mbrs_of(s).push(
        x.mbr_spec(),
    )[i] by {
        if i < s.len() {
            assert(s.push(x)[i] == s[i]);
        }
    }
}

proof fn lemma_enclosing_push(s: Seq<BoundingRectangle>, m: BoundingRectangle)
    requires
        s.len() >= 1,
    ensures
        enclosing_seq(s.push(m)) == enclose2(enclosing_seq(s), m),
{
    assert(s.push(m).drop_last() =~= s);
    assert(s.push(m).last() == m);
}

/// Moves every remaining object into `group`, in order, growing `racc` to
/// keep it the exact enclosure of the group's rectangles.
fn drain_into<T: RtreeObject>(rest: &mut Vec<T>, group: &mut Vec<T>, racc: &mut BoundingRectangle)
    requires
        old(group)@.len() >= 1,
        rect_valid(*old(racc)),
        *old(racc) == enclosing_seq(mbrs_of(old(group)@)),
        forall|i: int| 0 <= i < old(rest)@.len() ==> rect_valid((#[trigger] old(rest)@[i]).mbr_spec()),
    ensures
        final(rest)@.len() == 0,
        final(group)@ == old(group)@ + old(rest)@,
        *final(racc) == enclosing_seq(mbrs_of(final(group)@)),
        rect_valid(*final(racc)),
{
    let ghost g0 = old(group)@;
    let ghost r0 = old(rest)@;
    while rest.len() > 0
        invariant
            group@.len() >= 1,
            rect_valid(*racc),
            *racc == enclosing_seq(mbrs_of(group@)),
            forall|i: int| 0 <= i < r0.len() ==> rect_valid((#[trigger] r0[i]).mbr_spec()),
            rest@.len() <= r0.len(),
            rest@ =~= r0.skip(r0.len() - rest@.len()),
            group@ == g0 + r0.take(r0.len() - rest@.len()),
        decreases rest@.len(),
    {
        let ghost j = r0.len() - rest@.len();
        let x = rest.remove(0);
        proof {
            assert(x == r0[j]);
            assert(rest@ =~= r0.skip(j + 1));
            lemma_mbrs_push(group@, x);
            lemma_enclosing_push(mbrs_of(group@), x.mbr_spec());
            assert(group@.push(x) =~= g0 + r0.take(j + 1));
        }
        let m = *x.mbr();
        let grown = enclose_pair(racc, &m);
        *racc = grown;
        group.push(x);
    }
    proof {
        assert(r0.take(r0.len() as int) =~= r0);
    }
}

/// Partitions an over-full collection of stored objects into two groups by
/// quadratic-cost seed picking and greedy assignment, honouring the minimum
/// fill: both groups keep at least `fill` objects, together they keep
/// exactly the input objects, and each returned rectangle is the exact
/// enclosure of its group's rectangles.
pub fn split_items<T: RtreeObject>(items: Vec<T>, fill: usize) -> (r: (
    Vec<T>,
    Vec<T>,
    BoundingRectangle,
    BoundingRectangle,
))
    requires
        items@.len() >= 2,
        1 <= fill,
        2 * fill <= items@.len(),
        forall|i: int| 0 <= i < items@.len() ==> rect_valid((#[trigger] items@[i]).mbr_spec()),
    ensures
        r.0@.to_multiset().add(r.1@.to_multiset()) == items@.to_multiset(),
        r.0@.len() + r.1@.len() == items@.len(),
        r.0@.len() >= fill,
        r.1@.len() >= fill,
        r.2 == enclosing_seq(mbrs_of(r.0@)),
        r.3 == enclosing_seq(mbrs_of(r.1@)),
        rect_valid(r.2),
        rect_valid(r.3),
        forall|i: int| 0 <= i < r.0@.len() ==> rect_contains(r.2, (#[trigger] r.0@[i]).mbr_spec()),
        forall|i: int| 0 <= i < r.1@.len() ==> rect_contains(r.3, (#[trigger] r.1@[i]).mbr_spec()),
        forall|i: int| 0 <= i < r.0@.len() ==> items@.contains(#[trigger] r.0@[i]),
        forall|i: int| 0 <= i < r.1@.len() ==> items@.contains(#[trigger] r.1@[i]),
{
    broadcast use group_to_multiset_ensures;

    let ghost orig = items@;
    let total = items.len();
    let (si, sj) = pick_seeds(&items);
    let mut rest = items;
    let second = rest.remove(sj);
    let first = rest.remove(si);
    proof {
        assert(second == orig[sj as int]);
        assert(first == orig[si as int]);
        assert(orig.contains(orig[sj as int]));
        assert(orig.remove(sj as int).contains(orig.remove(sj as int)[si as int]));
        assert forall|i: int| 0 <= i < rest@.len() implies orig.contains(#[trigger] rest@[i]) by {
            if i < si {
                assert(rest@[i] == orig[i]);
            } else if i < sj - 1 {
                assert(rest@[i] == orig[i + 1]);
            } else {
                assert(rest@[i] == orig[i + 2]);
            }
        }
    }
    let ra0 = *first.mbr();
    let rb0 = *second.mbr();
    let mut va: Vec<T> = Vec::new();
    let mut vb: Vec<T> = Vec::new();
    va.push(first);
    vb.push(second);
    let mut ra = ra0;
    let mut rb = rb0;
    proof {
        assert(va@ =~= Seq::<T>::empty().push(first));
        assert(mbrs_of(va@).len() == 1);
        assert(mbrs_of(va@)[0] == first.mbr_spec());
        assert(mbrs_of(vb@).len() == 1);
        assert(mbrs_of(vb@)[0] == second.mbr_spec());
        assert(va@.to_multiset().add(vb@.to_multiset()).add(rest@.to_multiset()) =~=
            orig.to_multiset());
    }
    while rest.len() > 0
        invariant
            1 <= fill,
            2 * fill <= orig.len(),
            orig.len() == total,
            forall|i: int| 0 <= i < orig.len() ==> rect_valid((#[trigger] orig[i]).mbr_spec()),
            va@.len() >= 1,
            vb@.len() >= 1,
            va@.len() + vb@.len() + rest@.len() == orig.len(),
            va@.to_multiset().add(vb@.to_multiset()).add(rest@.to_multiset()) == orig.to_multiset(),
            ra == enclosing_seq(mbrs_of(va@)),
            rb == enclosing_seq(mbrs_of(vb@)),
            rect_valid(ra),
            rect_valid(rb),
            va@.len() >= fill || va@.len() + rest@.len() >= fill,
            vb@.len() >= fill || vb@.len() + rest@.len() >= fill,
            forall|i: int| 0 <= i < rest@.len() ==> orig.contains(#[trigger] rest@[i]),
            forall|i: int| 0 <= i < va@.len() ==> orig.contains(#[trigger] va@[i]),
            forall|i: int| 0 <= i < vb@.len() ==> orig.contains(#[trigger] vb@[i]),
            forall|i: int| 0 <= i < rest@.len() ==> rect_valid((#[trigger] rest@[i]).mbr_spec()),
        decreases rest@.len(),
    {
        if va.len() + rest.len() == fill {
            let ghost va0 = va@;
            let ghost rest0 = rest@;
            drain_into(&mut rest, &mut va, &mut ra);
            proof {
                lemma_multiset_commutative(va0, rest0);
                vstd::seq_lib::to_multiset_len(rest@);
                assert(rest@.to_multiset().len() == 0);
                assert(va@.to_multiset().add(vb@.to_multiset()).add(rest@.to_multiset()) =~=
                    orig.to_multiset());
            }
        } else if vb.len() + rest.len() == fill {
            let ghost vb0 = vb@;
            let ghost rest0 = rest@;
            drain_into(&mut rest, &mut vb, &mut rb);
            proof {
                lemma_multiset_commutative(vb0, rest0);
                vstd::seq_lib::to_multiset_len(rest@);
                assert(rest@.to_multiset().len() == 0);
                assert(va@.to_multiset().add(vb@.to_multiset()).add(rest@.to_multiset()) =~=
                    orig.to_multiset());
            }
        } else {
            let k = pick_next(&rest, &ra, &rb);
            let ghost rest0 = rest@;
            let ghost va0 = va@;
            let ghost vb0 = vb@;
            let x = rest.remove(k);
            proof {
                assert(rest0[k as int] == x);
                assert(rest0.contains(x));
                assert(rest@ == rest0.remove(k as int));
                vstd::seq_lib::to_multiset_remove(rest0, k as int);
                vstd::seq_lib::to_multiset_contains(rest0, x);
            }
            let m = *x.mbr();
            let ga = enclose_pair(&ra, &m);
            let gb = enclose_pair(&rb, &m);
            proof {
                lemma_area_range(ra);
                lemma_area_range(rb);
                lemma_area_range(ga);
                lemma_area_range(gb);
            }
            let ea = ga.area - ra.area;
            let eb = gb.area - rb.area;
            let to_a = if ea < eb {
                true
            } else if eb < ea {
                false
            } else if ra.area < rb.area {
                true
            } else if rb.area < ra.area {
                false
            } else if va.len() < vb.len() {
                true
            } else if vb.len() < va.len() {
                false
            } else {
                true
            };
            if to_a {
                proof {
                    lemma_mbrs_push(va@, x);
                    lemma_enclosing_push(mbrs_of(va@), x.mbr_spec());
                }
                ra = ga;
                va.push(x);
            } else {
                proof {
                    lemma_mbrs_push(vb@, x);
                    lemma_enclosing_push(mbrs_of(vb@), x.mbr_spec());
                }
                rb = gb;
                vb.push(x);
            }
            proof {
                if to_a {
                    assert(va@ == va0.push(x));
                    vstd::seq_lib::to_multiset_build(va0, x);
                } else {
                    assert(vb@ == vb0.push(x));
                    vstd::seq_lib::to_multiset_build(vb0, x);
                }
                assert(rest0.to_multiset().count(x) > 0);
                assert(va@.to_multiset().add(vb@.to_multiset()).add(rest@.to_multiset()) =~=
                    orig.to_multiset());
            }
        }
    }
    proof {
        assert(rest@ =~= Seq::<T>::empty());
        assert(rest@.to_multiset().len() == 0);
        assert(va@.to_multiset().add(vb@.to_multiset()) =~= orig.to_multiset());
        lemma_enclosing_seq_props(mbrs_of(va@));
        lemma_enclosing_seq_props(mbrs_of(vb@));
        assert forall|i: int| 0 <= i < va@.len() implies rect_contains(
            ra,
            (#[trigger] va@[i]).mbr_spec(),
        ) by {
            assert(mbrs_of(va@)[i] == va@[i].mbr_spec());
        }
        assert forall|i: int| 0 <= i < vb@.len() implies rect_contains(
            rb,
            (#[trigger] vb@[i]).mbr_spec(),
        ) by {
            assert(mbrs_of(vb@)[i] == vb@[i].mbr_spec());
        }
    }
    (va, vb, ra, rb)
}

/// Repairing an over-full node into two balanced nodes.
pub trait RtreeSplit: Sized {
    spec fn split_ready(&self) -> bool;

    spec fn split_done(self, updated: Self, sibling: Self) -> bool;

    /// Replaces the over-full node by one of the two groups and returns the
    /// other; the caller wires the sibling into the wider tree.
    fn split(&mut self) -> (sibling: Self)
        requires
            old(self).split_ready(),
        ensures
            old(self).split_done(*final(self), sibling),
    ;

    /// Consumes the over-full node and returns the two groups it is
    /// partitioned into.
    fn execute(self) -> (groups: (Self, Self))
        requires
            self.split_ready(),
        ensures
            self.split_done(groups.0, groups.1),
    ;
}

impl RtreeSplit for RtreeNode {
    open spec fn split_ready(&self) -> bool {
        self.wf_over()
    }

    /// Children are conserved between the two groups, both groups honour the
    /// minimum fill, each group's rectangle is the exact enclosure of its
    /// children's rectangles and stays inside the split node's rectangle,
    /// and the children kind and capacity carry over.
    open spec fn split_done(self, updated: Self, sibling: Self) -> bool {
        &&& updated.wf()
        &&& sibling.wf()
        &&& updated.max_children == self.max_children
        &&& sibling.max_children == self.max_children
        &&& updated.entries().add(sibling.entries()) == self.entries()
        &&& updated.child_len() + sibling.child_len() == self.child_len()
        &&& updated.child_len() >= min_fill(self.max_children)
        &&& sibling.child_len() >= min_fill(self.max_children)
        &&& rect_contains(self.mbr, updated.mbr)
        &&& rect_contains(self.mbr, sibling.mbr)
        &&& ((updated.children is Leafs) <==> (self.children is Leafs))
        &&& ((sibling.children is Leafs) <==> (self.children is Leafs))
        &&& (self.balanced() ==> updated.balanced() && sibling.balanced() && updated.height()
            == self.height() && sibling.height() == self.height())
    }

    fn split(&mut self) -> (sibling: RtreeNode) {
        let cap = self.max_children;
        let fill: usize = (cap as usize + 1) / 2;
        let (sib_children, ra, rb) = match &mut self.children {
            ChildrenType::Leafs(es) => {
                let mut items: Vec<RtreeGeometry> = Vec::new();
                core::mem::swap(es, &mut items);
                proof {
                    assert(items@ == old(self).children->Leafs_0@);
                }
                let (a_vec, b_vec, a_r, b_r) = split_items(items, fill);
                proof {
                    let items0 = old(self).children->Leafs_0@;
                    assert forall|i: int| 0 <= i < a_vec@.len() implies geom_wf(
                        #[trigger] a_vec@[i],
                    ) && rect_contains(old(self).mbr, a_vec@[i].mbr) by {
                        assert(items0.contains(a_vec@[i]));
                        let j = choose|j: int| 0 <= j < items0.len() && items0[j] == a_vec@[i];
                        assert(geom_wf(items0[j]));
                    }
                    assert forall|i: int| 0 <= i < b_vec@.len() implies geom_wf(
                        #[trigger] b_vec@[i],
                    ) && rect_contains(old(self).mbr, b_vec@[i].mbr) by {
                        assert(items0.contains(b_vec@[i]));
                        let j = choose|j: int| 0 <= j < items0.len() && items0[j] == b_vec@[i];
                        assert(geom_wf(items0[j]));
                    }
                    assert forall|i: int| 0 <= i < mbrs_of(a_vec@).len() implies rect_contains(
                        old(self).mbr,
                        #[trigger] mbrs_of(a_vec@)[i],
                    ) by {
                        assert(mbrs_of(a_vec@)[i] == a_vec@[i].mbr_spec());
                    }
                    assert forall|i: int| 0 <= i < mbrs_of(b_vec@).len() implies rect_contains(
                        old(self).mbr,
                        #[trigger] mbrs_of(b_vec@)[i],
                    ) by {
                        assert(mbrs_of(b_vec@)[i] == b_vec@[i].mbr_spec());
                    }
                    lemma_enclosing_seq_in(mbrs_of(a_vec@), old(self).mbr);
                    lemma_enclosing_seq_in(mbrs_of(b_vec@), old(self).mbr);
                }
                *es = a_vec;
                (ChildrenType::Leafs(b_vec), a_r, b_r)
            },
            ChildrenType::InnerNodes(ns) => {
                let mut items: Vec<RtreeNode> = Vec::new();
                core::mem::swap(ns, &mut items);
                proof {
                    assert(items@ == old(self).children->InnerNodes_0@);
                }
                let (a_vec, b_vec, a_r, b_r) = split_items(items, fill);
                proof {
                    let items0 = old(self).children->InnerNodes_0@;
                    assert forall|i: int| 0 <= i < a_vec@.len() implies (#[trigger] a_vec@[i]).wf()
                        && rect_contains(old(self).mbr, a_vec@[i].mbr) by {
                        assert(items0.contains(a_vec@[i]));
                        let j = choose|j: int| 0 <= j < items0.len() && items0[j] == a_vec@[i];
                        assert(items0[j].wf());
                    }
                    assert forall|i: int| 0 <= i < b_vec@.len() implies (#[trigger] b_vec@[i]).wf()
                        && rect_contains(old(self).mbr, b_vec@[i].mbr) by {
                        assert(items0.contains(b_vec@[i]));
                        let j = choose|j: int| 0 <= j < items0.len() && items0[j] == b_vec@[i];
                        assert(items0[j].wf());
                    }
                    assert forall|i: int| 0 <= i < mbrs_of(a_vec@).len() implies rect_contains(
                        old(self).mbr,
                        #[trigger] mbrs_of(a_vec@)[i],
                    ) by {
                        assert(mbrs_of(a_vec@)[i] == a_vec@[i].mbr_spec());
                    }
                    assert forall|i: int| 0 <= i < mbrs_of(b_vec@).len() implies rect_contains(
                        old(self).mbr,
                        #[trigger] mbrs_of(b_vec@)[i],
                    ) by {
                        assert(mbrs_of(b_vec@)[i] == b_vec@[i].mbr_spec());
                    }
                    lemma_enclosing_seq_in(mbrs_of(a_vec@), old(self).mbr);
                    lemma_enclosing_seq_in(mbrs_of(b_vec@), old(self).mbr);
                    RtreeNode::lemma_seq_entries_concat(a_vec@, b_vec@);
                    lemma_multiset_commutative(a_vec@, b_vec@);
                    RtreeNode::lemma_seq_entries_permutation(a_vec@ + b_vec@, items0);
                }
                *ns = a_vec;
                (ChildrenType::InnerNodes(b_vec), a_r, b_r)
            },
        };
        self.mbr = ra;
        self.id = generate_id();
        let sibling = RtreeNode {
            id: generate_id(),
            children: sib_children,
            mbr: rb,
            max_children: cap,
        };
        proof {
            if old(self).balanced() && old(self).children is InnerNodes {
                let items0 = old(self).children->InnerNodes_0@;
                let va = self.children->InnerNodes_0@;
                let vb = sibling.children->InnerNodes_0@;
                let h = (old(self).height() - 1) as nat;
                assert(old(self).height() == 1 + RtreeNode::seq_height(items0));
                assert forall|i: int| 0 <= i < va.len() implies (#[trigger] va[i]).balanced()
                    && va[i].height() == h by {
                    assert(items0.contains(va[i]));
                    let j = choose|j: int| 0 <= j < items0.len() && items0[j] == va[i];
                    assert(items0[j].balanced() && items0[j].height() + 1 == old(self).height());
                }
                assert forall|i: int| 0 <= i < vb.len() implies (#[trigger] vb[i]).balanced()
                    && vb[i].height() == h by {
                    assert(items0.contains(vb[i]));
                    let j = choose|j: int| 0 <= j < items0.len() && items0[j] == vb[i];
                    assert(items0[j].balanced() && items0[j].height() + 1 == old(self).height());
                }
                RtreeNode::lemma_seq_height_uniform(va, h);
                RtreeNode::lemma_seq_height_uniform(vb, h);
                assert(self.height() == 1 + h);
                assert(sibling.height() == 1 + h);
                assert(self.balanced());
                assert(sibling.balanced());
            }
        }
        sibling
    }

    fn execute(self) -> (groups: (RtreeNode, RtreeNode)) {
        let mut updated = self;
        let sibling = updated.split();
        (updated, sibling)
    }
}

} // verus!
