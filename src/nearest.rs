//! Nearest-hit queries over numbered primitives, and what an answer must be.
//!
//! A query has a fixed lower end of its window and an upper end `w` given as
//! an order key. The intersection tests themselves are the caller's: they are
//! handed in as closures, and the contracts speak of every table of hits that
//! those closures answer by.

use vstd::prelude::*;

use crate::aabb::Aabb;

verus! {

/// Every position below `n`.
pub open spec fn first_items(n: int) -> Set<usize> {
    Set::new(|i: usize| i < n)
}

/// `h` is a hit at or before `w`.
pub open spec fn within(h: Option<u64>, w: u64) -> bool {
    match h {
        Some(t) => t <= w,
        None => false,
    }
}

/// What a nearest-hit query on one primitive answers when its window ends at
/// `w`, for a primitive whose nearest hit in the full window is `h`.
pub open spec fn clipped(h: Option<u64>, w: u64) -> Option<u64> {
    if within(h, w) {
        h
    } else {
        None
    }
}

/// `r` is the nearest hit, at or before `w`, among the primitives of `s`,
/// given by distance and primitive: `hits[i]` is the nearest hit of primitive
/// `i` in the query window.
pub open spec fn is_nearest(r: Option<(u64, usize)>, hits: Seq<Option<u64>>, s: Set<usize>, w: u64) -> bool {
    match r {
        None => forall|i: usize| #[trigger] s.contains(i) && i < hits.len() ==> !within(hits[i as int], w),
        Some((t, i)) => {
            &&& s.contains(i)
            &&& i < hits.len()
            &&& hits[i as int] == Some(t)
            &&& t <= w
            &&& forall|j: usize|
                #[trigger] s.contains(j) && j < hits.len() && within(hits[j as int], w) ==> t
                    <= hits[j as int]->Some_0
        },
    }
}

/// `leaf_test(i, w)` answers the nearest hit of primitive `i` in the query
/// window cut at `w`, for every `w` up to `hi`.
pub open spec fn answers_hits<L: Fn(usize, u64) -> Option<u64>>(leaf_test: L, hits: Seq<Option<u64>>, hi: u64) -> bool {
    forall|i: usize, w: u64, r: Option<u64>|
        i < hits.len() && w <= hi && #[trigger] leaf_test.ensures((i, w), r) ==> r == clipped(hits[i as int], w)
}

/// `box_test(b, w)` fails only where no primitive whose box lies in `b` has a
/// hit at or before `w`: a box test may let a miss through, never drop a hit.
pub open spec fn answers_boxes<B: Fn(Aabb, u64) -> bool>(box_test: B, boxes: Seq<Aabb>, hits: Seq<Option<u64>>, hi: u64) -> bool {
    forall|b: Aabb, w: u64, i: usize|
        i < hits.len() && w <= hi && #[trigger] box_test.ensures((b, w), false) && #[trigger] b.encloses(boxes[i as int])
            ==> !within(hits[i as int], w)
}

/// The nearest hit among the first `n` primitives, found by asking each of them
/// in turn with the window cut at the nearest hit so far; on equal distances
/// the later primitive wins.
pub fn scan_nearest<L: Fn(usize, u64) -> Option<u64>>(n: usize, t_max: u64, leaf_test: &L) -> (r: Option<(u64, usize)>)
    requires
        forall|i: usize, w: u64| i < n ==> #[trigger] leaf_test.requires((i, w)),
    ensures
        forall|hits: Seq<Option<u64>>|
            hits.len() == n && #[trigger] answers_hits(*leaf_test, hits, t_max) ==> is_nearest(r, hits, first_items(n as int), t_max),
{
    let mut best: Option<(u64, usize)> = None;
    let mut closest = t_max;
    let mut i: usize = 0;
    while i < n
        invariant
            i <= n,
            forall|i: usize, w: u64| i < n ==> #[trigger] leaf_test.requires((i, w)),
            match best {
                Some((t, _)) => closest == t,
                None => closest == t_max,
            },
            forall|hits: Seq<Option<u64>>|
                hits.len() == n && #[trigger] answers_hits(*leaf_test, hits, t_max) ==> is_nearest(best, hits, first_items(i as int), t_max),
        decreases n - i,
    {
        let found = leaf_test(i, closest);
        proof {
            assert forall|hits: Seq<Option<u64>>|
                hits.len() == n && #[trigger] answers_hits(*leaf_test, hits, t_max) implies is_nearest(
                match found { Some(t) => Some((t, i)), None => best },
                hits,
                first_items(i + 1),
                t_max,
            ) by {
                assert(found == clipped(hits[i as int], closest));
                assert(is_nearest(best, hits, first_items(i as int), t_max));
                assert(first_items(i + 1) =~= first_items(i as int).insert(i));
            }
        }
        match found {
            Some(t) => {
                best = Some((t, i));
                closest = t;
            },
            None => {},
        }
        i = i + 1;
    }
    best
}

/// Two answers that are both the nearest hit over the same primitives lie at
/// the same distance, and name the same primitive where no two primitives
/// are hit at one distance: a hierarchy and a plain scan over one primitive
/// set agree on the nearest hit.
pub proof fn lemma_nearest_agrees(
    r1: Option<(u64, usize)>,
    r2: Option<(u64, usize)>,
    hits: Seq<Option<u64>>,
    s: Set<usize>,
    w: u64,
)
    requires
        is_nearest(r1, hits, s, w),
        is_nearest(r2, hits, s, w),
    ensures
        r1 is None <==> r2 is None,
        r1 is Some ==> r1->Some_0.0 == r2->Some_0.0,
        (forall|a: usize, b: usize|
            a < hits.len() && b < hits.len() && a != b && hits[a as int] is Some
                ==> hits[a as int] != hits[b as int]) ==> r1 == r2,
{
    match (r1, r2) {
        (Some((t1, i1)), Some((t2, i2))) => {
            assert(s.contains(i2) && within(hits[i2 as int], w));
            assert(s.contains(i1) && within(hits[i1 as int], w));
        },
        (Some((t1, i1)), None) => {
            assert(s.contains(i1));
        },
        (None, Some((t2, i2))) => {
            assert(s.contains(i2));
        },
        (None, None) => {},
    }
}

} // verus!

