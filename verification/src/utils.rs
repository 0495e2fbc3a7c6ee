use vstd::prelude::*;

use crate::geometries::{
    enclose2, enclose_pair, lemma_area_range, rect_valid, BoundingRectangle,
};
use crate::nodes::RtreeNode;

verus! {

/// The lexicographic preference used by least-enlargement selection: smaller
/// enlargement first, then smaller resulting area, then earlier position.
pub open spec fn enl_key_lt(e1: int, a1: int, i1: int, e2: int, a2: int, i2: int) -> bool {
    e1 < e2 || (e1 == e2 && (a1 < a2 || (a1 == a2 && i1 < i2)))
}

/// `c` is the child whose rectangle would enlarge least in area to enclose
/// `m`, ties broken by the smaller resulting area and then by the earliest
/// position.
pub open spec fn least_enlargement_choice(ns: Seq<RtreeNode>, m: BoundingRectangle, c: int) -> bool {
    &&& 0 <= c < ns.len()
    &&& forall|j: int|
        0 <= j < ns.len() && j != c ==> enl_key_lt(
            enclose2(ns[c].mbr, m).area - ns[c].mbr.area,
            enclose2(ns[c].mbr, m).area as int,
            c,
            enclose2((#[trigger] ns[j]).mbr, m).area - ns[j].mbr.area,
            enclose2(ns[j].mbr, m).area as int,
            j,
        )
}

/// Among the given child nodes, finds the one preferred by
/// `least_enlargement_choice` and returns its position together with its
/// rectangle enlarged to enclose `m`.
pub fn find_least_enlargement(list_nodes: &Vec<RtreeNode>, mbr: &BoundingRectangle) -> (r: (
    usize,
    BoundingRectangle,
))
    requires
        list_nodes@.len() >= 1,
        forall|i: int| 0 <= i < list_nodes@.len() ==> rect_valid((#[trigger] list_nodes@[i]).mbr),
        rect_valid(*mbr),
    ensures
        least_enlargement_choice(list_nodes@, *mbr, r.0 as int),
        r.1 == enclose2(list_nodes@[r.0 as int].mbr, *mbr),
        rect_valid(r.1),
{
    let ghost s = list_nodes@;
    let mut chosen: usize = 0;
    let mut best = enclose_pair(&list_nodes[0].mbr, mbr);
    proof {
        lemma_area_range(s[0].mbr);
        lemma_area_range(best);
    }
    let mut best_enl: i64 = best.area - list_nodes[0].mbr.area;
    let mut i: usize = 1;
    while i < list_nodes.len()
        invariant
            s == list_nodes@,
            s.len() >= 1,
            forall|k: int| 0 <= k < s.len() ==> rect_valid((#[trigger] s[k]).mbr),
            rect_valid(*mbr),
            1 <= i <= s.len(),
            (chosen as int) < i,
            best == enclose2(s[chosen as int].mbr, *mbr),
            rect_valid(best),
            best_enl == best.area - s[chosen as int].mbr.area,
            forall|j: int|
                0 <= j < i && j != chosen ==> enl_key_lt(
                    best.area - s[chosen as int].mbr.area,
                    best.area as int,
                    chosen as int,
                    enclose2((#[trigger] s[j]).mbr, *mbr).area - s[j].mbr.area,
                    enclose2(s[j].mbr, *mbr).area as int,
                    j,
                ),
        decreases s.len() - i,
    {
        let grown = enclose_pair(&list_nodes[i].mbr, mbr);
        proof {
            lemma_area_range(s[i as int].mbr);
            lemma_area_range(grown);
        }
        let enl: i64 = grown.area - list_nodes[i].mbr.area;
        if enl < best_enl || (enl == best_enl && grown.area < best.area) {
            chosen = i;
            best = grown;
            best_enl = enl;
        }
        i = i + 1;
    }
    (chosen, best)
}

/// Relies on `uuid::Uuid::new_v4` and its hyphenated textual form: a freshly
/// drawn random identifier rendered as exactly 36 characters. Nothing more is
/// assumed of the random value.
#[verifier::external_body]
pub fn generate_id() -> (r: String)
    ensures
        r@.len() == 36,
{
    uuid::Uuid::new_v4().hyphenated().to_string()
}

} // verus!
