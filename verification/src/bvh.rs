use vstd::prelude::*;
use vstd::multiset::Multiset;
use crate::aabb::{box_union, Aabbg, AABB};
use crate::fixed::WMAX;
use crate::hittable::{object_box, object_wf, seq_wf, HittableList, Object};
use crate::vec3::V3;

verus! {

broadcast use vstd::seq_lib::group_to_multiset_ensures, vstd::multiset::group_multiset_axioms;

/// The bag of elementary objects a tree stands for: a hierarchy node
/// contributes both subtrees, anything else contributes itself.
pub open spec fn obj_mset(o: Object) -> Multiset<Object>
    decreases o,
{
    match o {
        Object::Bvh { left, right, bbox } => obj_mset(*left).add(obj_mset(*right)),
        _ => Multiset::singleton(o),
    }
}

/// The combined bag of a sequence of objects.
pub open spec fn seq_obj_mset(s: Seq<Object>) -> Multiset<Object>
    decreases s.len(),
{
    if s.len() == 0 {
        Multiset::empty()
    } else {
        obj_mset(s.first()).add(seq_obj_mset(s.drop_first()))
    }
}

/// A box present where one was reported, the zero box where none was.
pub open spec fn box_or_zero(b: Option<Aabbg>) -> Aabbg {
    match b {
        Option::Some(x) => x,
        Option::None => Aabbg { min: V3 { x: 0, y: 0, z: 0 }, max: V3 { x: 0, y: 0, z: 0 } },
    }
}

/// Every hierarchy node in the tree carries exactly the union of its
/// children's boxes over `[tm0, tm1]` (the zero box standing in for a
/// missing one), as the construction rule prescribes.
pub open spec fn bvh_boxes_ok(o: Object, tm0: int, tm1: int) -> bool
    decreases o,
{
    match o {
        Object::Bvh { left, right, bbox } => bbox@ == box_union(
            box_or_zero(object_box(*left, tm0, tm1)),
            box_or_zero(object_box(*right, tm0, tm1)),
        ) && bvh_boxes_ok(*left, tm0, tm1) && bvh_boxes_ok(*right, tm0, tm1),
        _ => true,
    }
}

/// `bvh_boxes_ok` of every object of a sequence.
pub open spec fn seq_boxes_ok(s: Seq<Object>, tm0: int, tm1: int) -> bool
    decreases s,
{
    forall|i: int| 0 <= i < s.len() ==> bvh_boxes_ok(#[trigger] s[i], tm0, tm1)
}

/// Removing element `j` splits a sequence's bag into that element's bag and
/// the rest.
pub proof fn lemma_seq_obj_mset_remove(s: Seq<Object>, j: int)
    requires
        0 <= j < s.len(),
    ensures
        seq_obj_mset(s) == obj_mset(s[j]).add(seq_obj_mset(s.remove(j))),
    decreases j,
{
    if j == 0 {
        assert(s.remove(0) =~= s.drop_first());
    } else {
        let t = s.drop_first();
        lemma_seq_obj_mset_remove(t, j - 1);
        assert(t[j - 1] == s[j]);
        assert(s.remove(j).drop_first() =~= t.remove(j - 1));
        assert(s.remove(j).first() == s.first());
        assert(seq_obj_mset(s.remove(j)) == obj_mset(s.first()).add(
            seq_obj_mset(t.remove(j - 1))));
        let a = obj_mset(s.first());
        let b = obj_mset(s[j]);
        let c = seq_obj_mset(t.remove(j - 1));
        assert(a.add(b.add(c)) =~= b.add(a.add(c)));
    }
}

/// Sequences with the same element bag stand for the same object bag.
pub proof fn lemma_seq_obj_mset_permutes(s1: Seq<Object>, s2: Seq<Object>)
    requires
        s1.to_multiset() == s2.to_multiset(),
    ensures
        seq_obj_mset(s1) == seq_obj_mset(s2),
    decreases s1.len(),
{
    s1.to_multiset_ensures();
    s2.to_multiset_ensures();
    if s1.len() == 0 {
        assert(s2.to_multiset().len() == 0);
        assert(s2.len() == 0);
    } else {
        let x = s1.first();
        assert(s1.contains(x));
        assert(s2.to_multiset().count(x) > 0);
        assert(s2.contains(x));
        let j = choose|j: int| 0 <= j < s2.len() && s2[j] == x;
        lemma_seq_obj_mset_remove(s1, 0);
        lemma_seq_obj_mset_remove(s2, j);
        assert(s1.remove(0).to_multiset() =~= s1.to_multiset().remove(x));
        assert(s2.remove(j).to_multiset() =~= s2.to_multiset().remove(x));
        lemma_seq_obj_mset_permutes(s1.remove(0), s2.remove(j));
    }
}

/// The bag of a concatenation is the sum of the two bags.
pub proof fn lemma_seq_obj_mset_concat(a: Seq<Object>, b: Seq<Object>)
    ensures
        seq_obj_mset(a + b) == seq_obj_mset(a).add(seq_obj_mset(b)),
    decreases a.len(),
{
    if a.len() == 0 {
        assert(a + b =~= b);
        assert(seq_obj_mset(a).add(seq_obj_mset(b)) =~= seq_obj_mset(b));
    } else {
        assert((a + b).first() == a.first());
        assert((a + b).drop_first() =~= a.drop_first() + b);
        lemma_seq_obj_mset_concat(a.drop_first(), b);
        let x = obj_mset(a.first());
        let r = seq_obj_mset(a.drop_first());
        let m = seq_obj_mset(b);
        assert(x.add(r.add(m)) =~= (x.add(r)).add(m));
    }
}

/// Compare two objects by the minimum corner of their boxes along an axis,
/// objects without a box sorting as the zero box, as the tree builder's
/// ordering heuristic.
fn box_less(a: &Object, b: &Object, axis: usize) -> (r: bool)
    requires
        object_wf(*a),
        object_wf(*b),
        axis < 3,
{
    let box_a = match a.bounding_box(0, 0) {
        Some(x) => x,
        None => AABB::zero(),
    };
    let box_b = match b.bounding_box(0, 0) {
        Some(x) => x,
        None => AABB::zero(),
    };
    let ka = if axis == 0 {
        box_a.minimum.e0
    } else if axis == 1 {
        box_a.minimum.e1
    } else {
        box_a.minimum.e2
    };
    let kb = if axis == 0 {
        box_b.minimum.e0
    } else if axis == 1 {
        box_b.minimum.e1
    } else {
        box_b.minimum.e2
    };
    ka < kb
}

/// Selection sort of the objects by the box comparator along `axis`: a
/// reordering of exactly the input objects.
fn sort_by_axis(objects: Vec<Object>, axis: usize, tm0: i128, tm1: i128) -> (r: Vec<Object>)
    requires
        seq_wf(objects@),
        axis < 3,
    ensures
        seq_wf(r@),
        r@.len() == objects@.len(),
        r@.to_multiset() == objects@.to_multiset(),
        seq_boxes_ok(objects@, tm0 as int, tm1 as int) ==> seq_boxes_ok(
            r@,
            tm0 as int,
            tm1 as int,
        ),
{
    let ghost input = objects@;
    let mut rest = objects;
    let mut out: Vec<Object> = Vec::new();
    proof {
        input.to_multiset_ensures();
        assert(out@.to_multiset().add(rest@.to_multiset()) =~= input.to_multiset());
    }
    while rest.len() > 0
        invariant
            axis < 3,
            seq_wf(rest@),
            seq_wf(out@),
            out@.len() + rest@.len() == input.len(),
            out@.to_multiset().add(rest@.to_multiset()) == input.to_multiset(),
            seq_boxes_ok(input, tm0 as int, tm1 as int) ==> (seq_boxes_ok(
                rest@,
                tm0 as int,
                tm1 as int,
            ) && seq_boxes_ok(out@, tm0 as int, tm1 as int)),
        decreases rest@.len(),
    {
        let mut best: usize = 0;
        let mut i: usize = 1;
        while i < rest.len()
            invariant
                axis < 3,
                seq_wf(rest@),
                rest@.len() > 0,
                best < rest@.len(),
                i <= rest@.len(),
            decreases rest@.len() - i,
        {
            proof {
                assert(seq_wf(rest@));
                assert(object_wf(rest@[i as int]));
                assert(object_wf(rest@[best as int]));
            }
            if box_less(&rest[i], &rest[best], axis) {
                best = i;
            }
            i = i + 1;
        }
        let ghost prev_rest = rest@;
        let ghost prev_out = out@;
        let picked = rest.remove(best);
        out.push(picked);
        proof {
            prev_rest.to_multiset_ensures();
            prev_out.to_multiset_ensures();
            assert(rest@.to_multiset() =~= prev_rest.to_multiset().remove(picked));
            assert(out@.to_multiset() =~= prev_out.to_multiset().insert(picked));
            assert(prev_rest.to_multiset().count(picked) > 0) by {
                assert(prev_rest.contains(picked));
            }
            assert(out@.to_multiset().add(rest@.to_multiset()) =~= input.to_multiset());
            assert forall|j: int| 0 <= j < out@.len() implies object_wf(
                #[trigger] out@[j]) by {
                if j < prev_out.len() {
                    assert(out@[j] == prev_out[j]);
                }
            }
            assert forall|j: int| 0 <= j < rest@.len() implies object_wf(
                #[trigger] rest@[j]) by {}
            if seq_boxes_ok(input, tm0 as int, tm1 as int) {
                assert forall|j: int| 0 <= j < out@.len() implies bvh_boxes_ok(
                    #[trigger] out@[j], tm0 as int, tm1 as int) by {
                    if j < prev_out.len() {
                        assert(out@[j] == prev_out[j]);
                    } else {
                        assert(out@[j] == prev_rest[best as int]);
                    }
                }
                assert forall|j: int| 0 <= j < rest@.len() implies bvh_boxes_ok(
                    #[trigger] rest@[j], tm0 as int, tm1 as int) by {}
            }
        }
    }
    out
}

/// Build a bounding-volume hierarchy over the objects: pick a random axis,
/// order the span by it, split at the midpoint and recurse; a single
/// object stands for itself and a pair becomes one node.  The tree stands
/// for exactly the input objects, and every node built here carries the
/// union of its children's boxes.
pub fn build_bvh(objects: Vec<Object>, time0: i128, time1: i128) -> (r: Object)
    requires
        seq_wf(objects@),
        objects@.len() >= 1,
        -WMAX <= time0 <= WMAX,
        -WMAX <= time1 <= WMAX,
    ensures
        object_wf(r),
        obj_mset(r) == seq_obj_mset(objects@),
        seq_boxes_ok(objects@, time0 as int, time1 as int) ==> bvh_boxes_ok(
            r,
            time0 as int,
            time1 as int,
        ),
    decreases objects@.len(),
{
    let ghost input = objects@;
    let mut objects = objects;
    let n = objects.len();
    if n == 1 {
        let r = objects.remove(0);
        proof {
            assert(input.drop_first().len() == 0);
            assert(seq_obj_mset(input.drop_first()) == Multiset::<Object>::empty());
            assert(seq_obj_mset(input) == obj_mset(input.first()).add(
                seq_obj_mset(input.drop_first())));
            assert(obj_mset(r).add(Multiset::<Object>::empty()) =~= obj_mset(r));
        }
        return r;
    }
    let axis = crate::rng::rand_axis();
    if n == 2 {
        let second = objects.remove(1);
        let first = objects.remove(0);
        let (left, right) = if box_less(&first, &second, axis) {
            (first, second)
        } else {
            (second, first)
        };
        let node = make_node(left, right, time0, time1);
        proof {
            let d = input.drop_first();
            assert(d.first() == input[1]);
            assert(d.drop_first().len() == 0);
            assert(seq_obj_mset(d.drop_first()) == Multiset::<Object>::empty());
            assert(seq_obj_mset(d) == obj_mset(input[1]).add(seq_obj_mset(d.drop_first())));
            assert(seq_obj_mset(input) == obj_mset(input[0]).add(seq_obj_mset(d)));
            assert(obj_mset(input[1]).add(Multiset::<Object>::empty()) =~= obj_mset(
                input[1]));
            assert(obj_mset(input[0]).add(obj_mset(input[1])) =~= obj_mset(input[1]).add(
                obj_mset(input[0])));
        }
        return node;
    }
    let sorted = sort_by_axis(objects, axis, time0, time1);
    let ghost sorted_view = sorted@;
    let mut left_vec = sorted;
    let mid = left_vec.len() / 2;
    let mut right_rev: Vec<Object> = Vec::new();
    while left_vec.len() > mid
        invariant
            seq_wf(left_vec@),
            seq_wf(right_rev@),
            mid <= left_vec@.len(),
            left_vec@.len() + right_rev@.len() == sorted_view.len(),
            mid == sorted_view.len() as int / 2,
            sorted_view.len() >= 3,
            left_vec@.to_multiset().add(right_rev@.to_multiset())
                == sorted_view.to_multiset(),
            seq_boxes_ok(sorted_view, time0 as int, time1 as int) ==> (seq_boxes_ok(
                left_vec@,
                time0 as int,
                time1 as int,
            ) && seq_boxes_ok(right_rev@, time0 as int, time1 as int)),
        decreases left_vec@.len(),
    {
        let ghost prev_l = left_vec@;
        let ghost prev_r = right_rev@;
        let x = left_vec.pop().unwrap();
        right_rev.push(x);
        proof {
            prev_l.to_multiset_ensures();
            prev_r.to_multiset_ensures();
            assert(left_vec@ =~= prev_l.remove(prev_l.len() - 1));
            assert(left_vec@.to_multiset() =~= prev_l.to_multiset().remove(x));
            assert(right_rev@.to_multiset() =~= prev_r.to_multiset().insert(x));
            assert(prev_l.to_multiset().count(x) > 0) by {
                assert(prev_l.contains(x)) by {
                    assert(prev_l[prev_l.len() - 1] == x);
                }
            }
            assert(left_vec@.to_multiset().add(right_rev@.to_multiset())
                =~= sorted_view.to_multiset());
            assert forall|j: int| 0 <= j < right_rev@.len() implies object_wf(
                #[trigger] right_rev@[j]) by {
                if j < prev_r.len() {
                    assert(right_rev@[j] == prev_r[j]);
                }
            }
            if seq_boxes_ok(sorted_view, time0 as int, time1 as int) {
                assert forall|j: int| 0 <= j < right_rev@.len() implies bvh_boxes_ok(
                    #[trigger] right_rev@[j], time0 as int, time1 as int) by {
                    if j < prev_r.len() {
                        assert(right_rev@[j] == prev_r[j]);
                    } else {
                        assert(right_rev@[j] == prev_l[prev_l.len() - 1]);
                    }
                }
                assert forall|j: int| 0 <= j < left_vec@.len() implies bvh_boxes_ok(
                    #[trigger] left_vec@[j], time0 as int, time1 as int) by {
                    assert(left_vec@[j] == prev_l[j]);
                }
            }
        }
    }
    let ghost lv = left_vec@;
    let ghost rv = right_rev@;
    let left = build_bvh(left_vec, time0, time1);
    let right = build_bvh(right_rev, time0, time1);
    let node = make_node(left, right, time0, time1);
    proof {
        lemma_seq_obj_mset_concat(lv, rv);
        (lv + rv).to_multiset_ensures();
        lemma_to_multiset_concat(lv, rv);
        lemma_seq_obj_mset_permutes(lv + rv, input);
    }
    node
}

/// The element bag of a concatenation is the sum of the element bags.
pub proof fn lemma_to_multiset_concat(a: Seq<Object>, b: Seq<Object>)
    ensures
        (a + b).to_multiset() == a.to_multiset().add(b.to_multiset()),
    decreases b.len(),
{
    a.to_multiset_ensures();
    b.to_multiset_ensures();
    if b.len() == 0 {
        assert(a + b =~= a);
        assert(b.to_multiset().len() == 0);
        assert(a.to_multiset().add(b.to_multiset()) =~= a.to_multiset());
    } else {
        let b0 = b.drop_last();
        let x = b.last();
        lemma_to_multiset_concat(a, b0);
        b0.to_multiset_ensures();
        (a + b0).to_multiset_ensures();
        assert(b =~= b0.push(x));
        assert(a + b =~= (a + b0).push(x));
        assert((a + b).to_multiset() =~= (a + b0).to_multiset().insert(x));
        assert(b.to_multiset() =~= b0.to_multiset().insert(x));
        assert((a + b0).to_multiset().insert(x) =~= a.to_multiset().add(
            b0.to_multiset().insert(x)));
    }
}

/// Assemble one hierarchy node over two children, with the union of their
/// boxes (the zero box standing in for a missing one).
fn make_node(left: Object, right: Object, time0: i128, time1: i128) -> (r: Object)
    requires
        object_wf(left),
        object_wf(right),
        -WMAX <= time0 <= WMAX,
        -WMAX <= time1 <= WMAX,
    ensures
        object_wf(r),
        r matches Object::Bvh { left: l, right: rr, bbox } && *l == left && *rr == right
            && bbox@ == box_union(
            box_or_zero(object_box(left, time0 as int, time1 as int)),
            box_or_zero(object_box(right, time0 as int, time1 as int)),
        ),
        obj_mset(r) == obj_mset(left).add(obj_mset(right)),
        (bvh_boxes_ok(left, time0 as int, time1 as int) && bvh_boxes_ok(
            right,
            time0 as int,
            time1 as int,
        )) ==> bvh_boxes_ok(r, time0 as int, time1 as int),
{
    let box_left = match left.bounding_box(time0, time1) {
        Some(b) => b,
        None => AABB::zero(),
    };
    let box_right = match right.bounding_box(time0, time1) {
        Some(b) => b,
        None => AABB::zero(),
    };
    let bbox = crate::aabb::surrounding_box(&box_left, &box_right);
    let ghost gl = left;
    let ghost gr = right;
    let bl = Box::new(left);
    let br = Box::new(right);
    let r = Object::Bvh { left: bl, right: br, bbox };
    proof {
        assert(*bl == gl && *br == gr);
        assert(object_wf(r));
        assert(box_left@ == box_or_zero(object_box(gl, time0 as int, time1 as int)));
        assert(box_right@ == box_or_zero(object_box(gr, time0 as int, time1 as int)));
    }
    r
}

/// Build a hierarchy over a whole list, as scenes do.
pub fn bvh_from_list(list: HittableList, time0: i128, time1: i128) -> (r: Object)
    requires
        crate::hittable::list_wf(list),
        list.objects@.len() >= 1,
        -WMAX <= time0 <= WMAX,
        -WMAX <= time1 <= WMAX,
    ensures
        object_wf(r),
        obj_mset(r) == seq_obj_mset(list.objects@),
        seq_boxes_ok(list.objects@, time0 as int, time1 as int) ==> bvh_boxes_ok(
            r,
            time0 as int,
            time1 as int,
        ),
{
    build_bvh(list.objects, time0, time1)
}

} // verus!
