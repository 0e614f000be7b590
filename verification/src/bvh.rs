//! Construction of the bounding-volume hierarchy: a binary tree over a
//! set of objects, split by the median along the longest axis of their
//! union box. The tree holds the same objects as the input, and every
//! node's box contains its children's.

use vstd::prelude::*;
use vstd::multiset::Multiset;
use crate::vec3::in_range;
use crate::aabb::{AABBox, spec_box_union, box_contains_box, lemma_union_bounds,
    lemma_contains_box_trans, box_in_range};
use crate::math::{RAY_LIMIT, INF_COORD};
use crate::hittable::{Hittable, hittable_wf, bbox_of, ray_bound, leaves, node_boxes_are_unions};
use crate::list::all_wf;

verus! {

/// Two sequences hold the same objects, duplicates aside.
pub open spec fn same_elements(a: Seq<Hittable>, b: Seq<Hittable>) -> bool {
    forall|x: Hittable| a.contains(x) <==> b.contains(x)
}

/// No element is itself a hierarchy node: the builder takes scene
/// objects, not prebuilt trees.
pub open spec fn no_nodes(objs: Seq<Hittable>) -> bool {
    forall|i: int| 0 <= i < objs.len() ==> !((#[trigger] objs[i]) is Node)
}

/// Every box of `objs` fits the sentinel range.
pub open spec fn all_boxes_in_range(objs: Seq<Hittable>) -> bool {
    forall|i: int| 0 <= i < objs.len() ==> box_in_range(bbox_of(#[trigger] objs[i]),
        INF_COORD as int)
}

/// The key objects are ordered by: the low end of the box on `axis`.
fn box_min_key(h: &Hittable, axis: usize) -> (k: i64)
    requires
        axis < 3,
    ensures
        k == crate::aabb::axis_interval_of(bbox_of(*h), axis as int).min,
{
    let b = h.bounding_box();
    b.axis_interval(axis).min
}

/// Selection sort by the box minimum along `axis`: the result holds
/// exactly the objects of the input.
fn sort_by_axis_min(objects: Vec<Hittable>, axis: usize) -> (sorted: Vec<Hittable>)
    requires
        axis < 3,
    ensures
        sorted@.to_multiset() == objects@.to_multiset(),
        same_elements(sorted@, objects@),
        sorted@.len() == objects@.len(),
{
    broadcast use vstd::seq_lib::group_to_multiset_ensures;
    broadcast use vstd::multiset::group_multiset_axioms;

    let ghost orig = objects@;
    let mut remaining = objects;
    let mut sorted: Vec<Hittable> = Vec::new();
    proof {
        assert(sorted@.to_multiset().add(remaining@.to_multiset()) =~= orig.to_multiset());
    }
    while remaining.len() > 0
        invariant
            axis < 3,
            sorted@.to_multiset().add(remaining@.to_multiset()) == orig.to_multiset(),
        decreases remaining.len(),
    {
        let ghost s_pre = sorted@;
        let ghost r_pre = remaining@;
        let mut m: usize = 0;
        let mut best = box_min_key(&remaining[0], axis);
        let mut j: usize = 1;
        while j < remaining.len()
            invariant
                axis < 3,
                remaining@.len() > 0,
                m < remaining@.len(),
                j <= remaining@.len(),
            decreases remaining.len() - j,
        {
            let kj = box_min_key(&remaining[j], axis);
            if kj < best {
                best = kj;
                m = j;
            }
            j += 1;
        }
        let picked = remaining.remove(m);
        sorted.push(picked);
        proof {
            broadcast use vstd::multiset::group_multiset_axioms;
            broadcast use vstd::seq_lib::group_to_multiset_ensures;
            assert(r_pre.contains(picked)) by {
                assert(r_pre[m as int] == picked);
            }
            assert(sorted@ == s_pre.push(picked));
            assert(remaining@ == r_pre.remove(m as int));
            vstd::seq_lib::to_multiset_build::<Hittable>(s_pre, picked);
            vstd::seq_lib::to_multiset_remove::<Hittable>(r_pre, m as int);
            assert(sorted@.to_multiset().add(remaining@.to_multiset()) =~= orig.to_multiset());
        }
    }
    proof {
        broadcast use vstd::multiset::group_multiset_axioms;
        assert(remaining@.to_multiset() =~= Multiset::empty());
        assert(sorted@.to_multiset() =~= orig.to_multiset());
        assert forall|x: Hittable| sorted@.contains(x) <==> orig.contains(x) by {
            assert(sorted@.contains(x) <==> sorted@.to_multiset().count(x) > 0);
            assert(orig.contains(x) <==> orig.to_multiset().count(x) > 0);
        }
        assert(sorted@.len() == sorted@.to_multiset().len());
        assert(orig.len() == orig.to_multiset().len());
    }
    sorted
}

/// Builds the hierarchy over a nonempty set of objects: the union box of
/// the span picks the split axis, the span is sorted by box minimum on
/// that axis and split at the median, and each node's box is the union
/// of its children's. A single object becomes a node whose two children
/// are that object.
pub fn build_bvh(objects: Vec<Hittable>) -> (h: Hittable)
    requires
        objects@.len() >= 1,
        all_wf(objects@),
        all_boxes_in_range(objects@),
        no_nodes(objects@),
    ensures
        hittable_wf(h),
        same_elements(leaves(h), objects@),
        node_boxes_are_unions(h),
        h is Node,
        box_in_range(bbox_of(h), INF_COORD as int),
    decreases objects@.len(),
{
    broadcast use vstd::seq_lib::group_to_multiset_ensures;

    let ghost input = objects@;
    let n = objects.len();
    // The union box over the whole span selects the split axis.
    let mut ubox = AABBox::new_empty();
    let mut idx: usize = 0;
    while idx < objects.len()
        invariant
            objects@ == input,
            box_in_range(ubox, INF_COORD as int),
            all_boxes_in_range(objects@),
        decreases objects.len() - idx,
    {
        ubox = AABBox::new_from_aabboxs(&ubox, &objects[idx].bounding_box());
        idx += 1;
    }
    let axis = ubox.longest_axis();

    if n == 1 {
        let first = &objects[0];
        let one = first.clone();
        let two = first.clone();
        let bbox = AABBox::new_from_aabboxs(&one.bounding_box(), &two.bounding_box());
        proof {
            lemma_union_bounds(bbox_of(one), bbox_of(two));
        }
        let h = Hittable::Node { left: Box::new(one), right: Box::new(two), bbox };
        proof {
            assert(!(one is Node) && !(two is Node));
            assert(node_boxes_are_unions(one));
            assert(node_boxes_are_unions(two));
            assert(node_boxes_are_unions(h));
            assert(leaves(h) =~= leaves(input[0]) + leaves(input[0]));
            lemma_leaves_self_contains(input[0]);
            assert forall|x: Hittable| leaves(h).contains(x) <==> input.contains(x) by {
                lemma_contains_concat(leaves(input[0]), leaves(input[0]), x);
                if input.contains(x) {
                    let i = choose|i: int| 0 <= i < input.len() && input[i] == x;
                    assert(i == 0);
                }
                if leaves(input[0]).contains(x) {
                    lemma_leaf_elements(input[0], x);
                    assert(input[0] == x);
                    assert(input.contains(x));
                }
            }
        }
        h
    } else if n == 2 {
        let k0 = box_min_key(&objects[0], axis);
        let k1 = box_min_key(&objects[1], axis);
        let mut objects = objects;
        let second = objects.pop().unwrap();
        let first = objects.pop().unwrap();
        let (left, right) = if k0 <= k1 {
            (first, second)
        } else {
            (second, first)
        };
        let bbox = AABBox::new_from_aabboxs(&left.bounding_box(), &right.bounding_box());
        proof {
            lemma_union_bounds(bbox_of(left), bbox_of(right));
        }
        let h = Hittable::Node { left: Box::new(left), right: Box::new(right), bbox };
        proof {
            assert(!(left is Node) && !(right is Node));
            assert(node_boxes_are_unions(left));
            assert(node_boxes_are_unions(right));
            assert(node_boxes_are_unions(h));
            assert(leaves(h) =~= leaves(left) + leaves(right));
            lemma_leaves_self_contains(left);
            lemma_leaves_self_contains(right);
            assert forall|x: Hittable| leaves(h).contains(x) <==> input.contains(x) by {
                lemma_contains_concat(leaves(left), leaves(right), x);
                if leaves(left).contains(x) {
                    lemma_leaf_elements(left, x);
                }
                if leaves(right).contains(x) {
                    lemma_leaf_elements(right, x);
                }
                if input.contains(x) {
                    let i = choose|i: int| 0 <= i < input.len() && input[i] == x;
                    assert(i == 0 || i == 1);
                }
                assert(input[0] == x || input[1] == x ==> input.contains(x));
            }
        }
        h
    } else {
        let sorted = sort_by_axis_min(objects, axis);
        let ghost sorted_view = sorted@;
        let mut sorted = sorted;
        let mid = n / 2;
        let right_vec = sorted.split_off(mid);
        let left_vec = sorted;
        proof {
            assert(left_vec@ + right_vec@ =~= sorted_view);
            assert(all_wf(left_vec@) && all_wf(right_vec@)) by {
                assert forall|i: int| 0 <= i < left_vec@.len() implies hittable_wf(
                    #[trigger] left_vec@[i]) by {
                    assert(left_vec@[i] == sorted_view[i]);
                    assert(sorted_view.contains(sorted_view[i]));
                    let j = choose|j: int| 0 <= j < input.len() && input[j] == sorted_view[i];
                }
                assert forall|i: int| 0 <= i < right_vec@.len() implies hittable_wf(
                    #[trigger] right_vec@[i]) by {
                    assert(right_vec@[i] == sorted_view[mid + i]);
                    assert(sorted_view.contains(sorted_view[mid + i]));
                    let j = choose|j: int| 0 <= j < input.len() && input[j] == right_vec@[i];
                }
            }
            assert(no_nodes(left_vec@) && no_nodes(right_vec@)) by {
                assert forall|i: int| 0 <= i < left_vec@.len() implies !((
                #[trigger] left_vec@[i]) is Node) by {
                    assert(left_vec@[i] == sorted_view[i]);
                    assert(sorted_view.contains(sorted_view[i]));
                    let j = choose|j: int| 0 <= j < input.len() && input[j] == left_vec@[i];
                }
                assert forall|i: int| 0 <= i < right_vec@.len() implies !((
                #[trigger] right_vec@[i]) is Node) by {
                    assert(right_vec@[i] == sorted_view[mid + i]);
                    assert(sorted_view.contains(sorted_view[mid + i]));
                    let j = choose|j: int| 0 <= j < input.len() && input[j] == right_vec@[i];
                }
            }
            assert(all_boxes_in_range(left_vec@) && all_boxes_in_range(right_vec@)) by {
                assert forall|i: int| 0 <= i < left_vec@.len() implies box_in_range(
                    bbox_of(#[trigger] left_vec@[i]), INF_COORD as int) by {
                    assert(left_vec@[i] == sorted_view[i]);
                    assert(sorted_view.contains(sorted_view[i]));
                    let j = choose|j: int| 0 <= j < input.len() && input[j] == left_vec@[i];
                }
                assert forall|i: int| 0 <= i < right_vec@.len() implies box_in_range(
                    bbox_of(#[trigger] right_vec@[i]), INF_COORD as int) by {
                    assert(right_vec@[i] == sorted_view[mid + i]);
                    assert(sorted_view.contains(sorted_view[mid + i]));
                    let j = choose|j: int| 0 <= j < input.len() && input[j] == right_vec@[i];
                }
            }
        }
        let left = build_bvh(left_vec);
        let right = build_bvh(right_vec);
        let bbox = AABBox::new_from_aabboxs(&left.bounding_box(), &right.bounding_box());
        proof {
            lemma_union_bounds(bbox_of(left), bbox_of(right));
        }
        let h = Hittable::Node { left: Box::new(left), right: Box::new(right), bbox };
        proof {
            assert(leaves(h) =~= leaves(left) + leaves(right));
            assert forall|x: Hittable| leaves(h).contains(x) <==> input.contains(x) by {
                lemma_contains_concat(leaves(left), leaves(right), x);
                lemma_contains_concat(left_vec@, right_vec@, x);
                assert(sorted_view.contains(x) <==> left_vec@.contains(x)
                    || right_vec@.contains(x));
            }
        }
        h
    }
}

/// Membership in a concatenation.
pub proof fn lemma_contains_concat(a: Seq<Hittable>, b: Seq<Hittable>, x: Hittable)
    ensures
        (a + b).contains(x) <==> a.contains(x) || b.contains(x),
{
    if a.contains(x) {
        let i = choose|i: int| 0 <= i < a.len() && a[i] == x;
        assert((a + b)[i] == x);
    }
    if b.contains(x) {
        let i = choose|i: int| 0 <= i < b.len() && b[i] == x;
        assert((a + b)[a.len() + i] == x);
    }
    if (a + b).contains(x) {
        let i = choose|i: int| 0 <= i < (a + b).len() && (a + b)[i] == x;
        if i < a.len() {
            assert(a[i] == x);
        } else {
            assert(b[i - a.len()] == x);
        }
    }
}

/// A non-node is its own single leaf.
proof fn lemma_leaves_self_contains(h: Hittable)
    requires
        !(h is Node),
    ensures
        leaves(h).contains(h),
        leaves(h).len() == 1,
{
    assert(leaves(h)[0] == h);
}

/// The single leaf of a non-node is itself.
proof fn lemma_leaf_elements(h: Hittable, x: Hittable)
    requires
        !(h is Node),
        leaves(h).contains(x),
    ensures
        x == h,
{
    let i = choose|i: int| 0 <= i < leaves(h).len() && leaves(h)[i] == x;
    assert(leaves(h)[0] == h);
}

} // verus!
