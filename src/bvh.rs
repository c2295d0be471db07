use rand::Rng;
use vstd::prelude::*;

use crate::aabb::Aabb;
use crate::nearest::{answers_boxes, answers_hits, first_items, is_nearest, within};

verus! {

broadcast use vstd::seq_lib::group_to_multiset_ensures;

/// Relies on rand::thread_rng and Rng::gen_range: a value drawn from the
/// half-open range `0..3`, never outside it.
#[verifier::external_body]
fn random_axis() -> (r: usize)
    ensures
        r < 3,
{
    rand::thread_rng().gen_range(0..3)
}

/// The key that orders primitive `item` along `axis`: the minimum corner of its box.
pub open spec fn sort_key(boxes: Seq<Aabb>, axis: int, item: usize) -> u64 {
    boxes[item as int].min.coord(axis)
}

/// `s[lo..hi]` is ordered by the sort key.
pub open spec fn sorted_on(boxes: Seq<Aabb>, axis: int, s: Seq<usize>, lo: int, hi: int) -> bool {
    forall|a: int, b: int|
        lo <= a < b < hi ==> sort_key(boxes, axis, #[trigger] s[a]) <= sort_key(
            boxes,
            axis,
            #[trigger] s[b],
        )
}

/// Every entry of `s` names one of the `n` primitives.
pub open spec fn items_in(s: Seq<usize>, n: int) -> bool {
    forall|k: int| 0 <= k < s.len() ==> #[trigger] s[k] < n
}

proof fn lemma_swap_multiset(s: Seq<usize>, i: int, j: int)
    requires
        0 <= i < s.len(),
        0 <= j < s.len(),
    ensures
        s.update(i, s[j]).update(j, s[i]).to_multiset() == s.to_multiset(),
{
    broadcast use vstd::multiset::group_multiset_axioms;

    let s1 = s.update(i, s[j]);
    assert(s1.to_multiset() == s.to_multiset().insert(s[j]).remove(s[i]));
    if i == j {
        assert(s.update(i, s[j]).update(j, s[i]) =~= s);
    } else {
        assert(s1[j] == s[j]);
        assert(s1.update(j, s[i]).to_multiset() == s1.to_multiset().insert(s[i]).remove(s[j]));
        assert(s.to_multiset().insert(s[j]).remove(s[i]).insert(s[i]).remove(s[j])
            =~= s.to_multiset());
    }
}

/// Sorts primitives by the minimum corner of their boxes along `axis`.
fn sort_by_axis(items: &mut Vec<usize>, boxes: &Vec<Aabb>, axis: usize)
    requires
        axis < 3,
        items_in(old(items)@, boxes@.len() as int),
    ensures
        final(items)@.len() == old(items)@.len(),
        final(items)@.to_multiset() == old(items)@.to_multiset(),
        items_in(final(items)@, boxes@.len() as int),
        sorted_on(boxes@, axis as int, final(items)@, 0, final(items)@.len() as int),
{
    let n = items.len();
    if n == 0 {
        return;
    }
    let mut i: usize = 1;
    while i < n
        invariant
            axis < 3,
            1 <= i <= n,
            n == items@.len(),
            items@.to_multiset() == old(items)@.to_multiset(),
            items_in(items@, boxes@.len() as int),
            sorted_on(boxes@, axis as int, items@, 0, i as int),
        decreases n - i,
    {
        let mut j: usize = i;
        while j > 0 && boxes[items[j - 1]].min.get(axis) > boxes[items[j]].min.get(axis)
            invariant
                axis < 3,
                0 <= j <= i < n,
                n == items@.len(),
                items@.to_multiset() == old(items)@.to_multiset(),
                items_in(items@, boxes@.len() as int),
                sorted_on(boxes@, axis as int, items@, 0, j as int),
                sorted_on(boxes@, axis as int, items@, j as int, i + 1),
                forall|a: int, b: int|
                    0 <= a < j < b <= i ==> sort_key(boxes@, axis as int, #[trigger] items@[a])
                        <= sort_key(boxes@, axis as int, #[trigger] items@[b]),
            decreases j,
        {
            let x = items[j - 1];
            let y = items[j];
            proof {
                lemma_swap_multiset(items@, j - 1, j as int);
            }
            items.set(j - 1, y);
            items.set(j, x);
            j = j - 1;
        }
        i = i + 1;
    }
}

} // verus!

verus! {

/// What a node of the hierarchy holds: one primitive, or two subtrees given by
/// their positions in the node arena, with the axis their primitives were
/// split along.
#[derive(Clone, Copy, Debug, PartialEq, Eq, Structural)]
pub enum BvhKind {
    Leaf { item: usize },
    Inner { left: usize, right: usize, axis: usize },
}

/// A node of the hierarchy with its precomputed bounding box.
#[derive(Clone, Copy, Debug, PartialEq, Eq, Structural)]
pub struct BvhNode {
    pub bounds: Aabb,
    pub kind: BvhKind,
}

/// Why a hierarchy could not be built.
#[derive(Clone, Copy, Debug, PartialEq, Eq, Structural)]
pub enum BuildError {
    /// There is no primitive to build over.
    Empty,
    /// The primitive at this position has no bounding box.
    MissingBounds { item: usize },
}

/// The primitives reached from node `n`.
pub open spec fn leaves(nodes: Seq<BvhNode>, n: int) -> Set<usize>
    decreases n,
{
    if 0 <= n < nodes.len() {
        match nodes[n].kind {
            BvhKind::Leaf { item } => set![item],
            BvhKind::Inner { left, right, .. } => if left < n && right < n {
                leaves(nodes, left as int) + leaves(nodes, right as int)
            } else {
                Set::empty()
            },
        }
    } else {
        Set::empty()
    }
}

/// On `axis`, the sort keys of one group of primitives all lie at or below
/// those of the other group.
pub open spec fn separated(boxes: Seq<Aabb>, ls: Set<usize>, rs: Set<usize>, axis: int) -> bool {
    ||| forall|a: usize, b: usize|
        #[trigger] ls.contains(a) && #[trigger] rs.contains(b) ==> sort_key(boxes, axis, a) <= sort_key(boxes, axis, b)
    ||| forall|a: usize, b: usize|
        #[trigger] ls.contains(a) && #[trigger] rs.contains(b) ==> sort_key(boxes, axis, a) >= sort_key(boxes, axis, b)
}

/// A leaf holds a primitive's own box; an inner node points to earlier nodes,
/// holds the union of their boxes, and its two subtrees are separated along
/// its split axis.
pub open spec fn node_wf(nodes: Seq<BvhNode>, boxes: Seq<Aabb>, n: int) -> bool {
    match nodes[n].kind {
        BvhKind::Leaf { item } => item < boxes.len() && nodes[n].bounds == boxes[item as int],
        BvhKind::Inner { left, right, axis } => {
            &&& left < n
            &&& right < n
            &&& axis < 3
            &&& nodes[n].bounds == nodes[left as int].bounds.hull(nodes[right as int].bounds)
            &&& separated(boxes, leaves(nodes, left as int), leaves(nodes, right as int), axis as int)
        },
    }
}

pub open spec fn nodes_wf(nodes: Seq<BvhNode>, boxes: Seq<Aabb>) -> bool {
    forall|n: int| 0 <= n < nodes.len() ==> #[trigger] node_wf(nodes, boxes, n)
}

proof fn lemma_leaves_prefix(nodes: Seq<BvhNode>, more: Seq<BvhNode>, n: int)
    requires
        0 <= n < nodes.len(),
        more.len() >= nodes.len(),
        more.subrange(0, nodes.len() as int) == nodes,
    ensures
        leaves(more, n) == leaves(nodes, n),
    decreases n,
{
    assert(more[n] == nodes[n]);
    match nodes[n].kind {
        BvhKind::Leaf { item } => {},
        BvhKind::Inner { left, right, .. } => {
            if left < n && right < n {
                lemma_leaves_prefix(nodes, more, left as int);
                lemma_leaves_prefix(nodes, more, right as int);
            }
        },
    }
}

/// The box of a node holds the box of every primitive below it.
pub proof fn lemma_bounds_enclose_leaves(nodes: Seq<BvhNode>, boxes: Seq<Aabb>, n: int, i: usize)
    requires
        nodes_wf(nodes, boxes),
        0 <= n < nodes.len(),
        leaves(nodes, n).contains(i),
    ensures
        i < boxes.len(),
        nodes[n].bounds.encloses(boxes[i as int]),
    decreases n,
{
    assert(node_wf(nodes, boxes, n));
    match nodes[n].kind {
        BvhKind::Leaf { item } => {},
        BvhKind::Inner { left, right, .. } => {
            let (l, r) = (left as int, right as int);
            crate::aabb::lemma_union_is_least_enclosing(nodes[l].bounds, nodes[r].bounds, nodes[n].bounds);
            if leaves(nodes, l).contains(i) {
                lemma_bounds_enclose_leaves(nodes, boxes, l, i);
                crate::aabb::lemma_encloses_trans(nodes[n].bounds, nodes[l].bounds, boxes[i as int]);
            } else {
                lemma_bounds_enclose_leaves(nodes, boxes, r, i);
                crate::aabb::lemma_encloses_trans(nodes[n].bounds, nodes[r].bounds, boxes[i as int]);
            }
        },
    }
}

/// A box that holds the box of every primitive below a node holds the box of
/// the node.
pub proof fn lemma_bounds_least(nodes: Seq<BvhNode>, boxes: Seq<Aabb>, n: int, c: Aabb)
    requires
        nodes_wf(nodes, boxes),
        0 <= n < nodes.len(),
        forall|i: usize| #[trigger] leaves(nodes, n).contains(i) ==> c.encloses(boxes[i as int]),
    ensures
        c.encloses(nodes[n].bounds),
    decreases n,
{
    assert(node_wf(nodes, boxes, n));
    match nodes[n].kind {
        BvhKind::Leaf { item } => {
            assert(leaves(nodes, n).contains(item));
        },
        BvhKind::Inner { left, right, .. } => {
            let (l, r) = (left as int, right as int);
            assert forall|i: usize| #[trigger] leaves(nodes, l).contains(i) implies c.encloses(boxes[i as int]) by {
                assert(leaves(nodes, n).contains(i));
            }
            assert forall|i: usize| #[trigger] leaves(nodes, r).contains(i) implies c.encloses(boxes[i as int]) by {
                assert(leaves(nodes, n).contains(i));
            }
            lemma_bounds_least(nodes, boxes, l, c);
            lemma_bounds_least(nodes, boxes, r, c);
            crate::aabb::lemma_union_is_least_enclosing(nodes[l].bounds, nodes[r].bounds, c);
        },
    }
}

proof fn lemma_wf_prefix(nodes: Seq<BvhNode>, more: Seq<BvhNode>, boxes: Seq<Aabb>)
    requires
        nodes_wf(nodes, boxes),
        more.len() >= nodes.len(),
        more.subrange(0, nodes.len() as int) == nodes,
    ensures
        forall|n: int| 0 <= n < nodes.len() ==> #[trigger] node_wf(more, boxes, n),
{
    assert forall|n: int| 0 <= n < nodes.len() implies #[trigger] node_wf(more, boxes, n) by {
        assert(node_wf(nodes, boxes, n));
        assert(more[n] == nodes[n]);
        match nodes[n].kind {
            BvhKind::Leaf { item } => {},
            BvhKind::Inner { left, right, .. } => {
                assert(more[left as int] == nodes[left as int]);
                assert(more[right as int] == nodes[right as int]);
                lemma_leaves_prefix(nodes, more, left as int);
                lemma_leaves_prefix(nodes, more, right as int);
            },
        }
    }
}

/// Pushes a node that is well formed over the arena as it stands.
fn push_node(nodes: &mut Vec<BvhNode>, boxes: &Vec<Aabb>, node: BvhNode) -> (at: usize)
    requires
        nodes_wf(old(nodes)@, boxes@),
        node_wf(old(nodes)@.push(node), boxes@, old(nodes)@.len() as int),
    ensures
        final(nodes)@ == old(nodes)@.push(node),
        at == old(nodes)@.len(),
        nodes_wf(final(nodes)@, boxes@),
{
    proof {
        let more = old(nodes)@.push(node);
        assert(more.subrange(0, old(nodes)@.len() as int) =~= old(nodes)@);
        lemma_wf_prefix(old(nodes)@, more, boxes@);
    }
    nodes.push(node);
    nodes.len() - 1
}

/// Builds the subtree over `items` at the end of the arena and returns its root.
fn build(boxes: &Vec<Aabb>, nodes: &mut Vec<BvhNode>, items: Vec<usize>) -> (root: usize)
    requires
        items@.len() >= 1,
        items_in(items@, boxes@.len() as int),
        nodes_wf(old(nodes)@, boxes@),
    ensures
        final(nodes)@.len() == old(nodes)@.len() + 2 * items@.len() - 1,
        final(nodes)@.subrange(0, old(nodes)@.len() as int) == old(nodes)@,
        nodes_wf(final(nodes)@, boxes@),
        old(nodes)@.len() <= root < final(nodes)@.len(),
        leaves(final(nodes)@, root as int) == items@.to_set(),
    decreases items@.len(),
{
    let ghost start = nodes@;
    let axis = random_axis();
    let n = items.len();
    if n == 1 {
        let item = items[0];
        let at = push_node(nodes, boxes, BvhNode { bounds: boxes[item], kind: BvhKind::Leaf { item } });
        assert(nodes@.subrange(0, start.len() as int) =~= start);
        assert(items@.to_set() =~= set![item]);
        at
    } else if n == 2 {
        let l = items[0];
        let r = items[1];
        let (first, second) = if boxes[l].min.get(axis) > boxes[r].min.get(axis) {
            (l, r)
        } else {
            (r, l)
        };
        let a = push_node(nodes, boxes, BvhNode { bounds: boxes[first], kind: BvhKind::Leaf { item: first } });
        let b = push_node(nodes, boxes, BvhNode { bounds: boxes[second], kind: BvhKind::Leaf { item: second } });
        let bounds = boxes[second].union(&boxes[first]);
        proof {
            crate::aabb::lemma_union_is_least_enclosing(boxes@[second as int], boxes@[first as int], bounds);
        }
        let node = BvhNode { bounds, kind: BvhKind::Inner { left: a, right: b, axis } };
        proof {
            let more = nodes@.push(node);
            assert(more[a as int] == nodes@[a as int]);
            assert(more[b as int] == nodes@[b as int]);
            assert(leaves(more, a as int) =~= set![first]);
            assert(leaves(more, b as int) =~= set![second]);
            assert(sort_key(boxes@, axis as int, first) >= sort_key(boxes@, axis as int, second));
        }
        let at = push_node(nodes, boxes, node);
        assert(nodes@.subrange(0, start.len() as int) =~= start);
        assert(leaves(nodes@, a as int) == set![first]);
        assert(leaves(nodes@, b as int) == set![second]);
        assert(items@.to_set() =~= set![first] + set![second]);
        at
    } else {
        let mut items = items;
        let ghost given = items@;
        sort_by_axis(&mut items, boxes, axis);
        let ghost sorted = items@;
        let right_items = items.split_off(n / 2);
        assert(sorted =~= items@ + right_items@);
        let ghost left_part = items@;
        let ghost right_part = right_items@;
        let ghost mid_start = nodes@;
        let left = build(boxes, nodes, items);
        let ghost mid = nodes@;
        let right = build(boxes, nodes, right_items);
        let ghost end = nodes@;
        proof {
            assert(end.subrange(0, mid.len() as int) == mid);
            assert(end.subrange(0, start.len() as int) =~= start) by {
                assert(mid.subrange(0, start.len() as int) == start);
            }
            lemma_leaves_prefix(mid, end, left as int);
        }
        let lb = nodes[left].bounds;
        let rb = nodes[right].bounds;
        let bounds = rb.union(&lb);
        proof {
            crate::aabb::lemma_union_is_least_enclosing(rb, lb, bounds);
        }
        let node = BvhNode { bounds, kind: BvhKind::Inner { left, right, axis } };
        proof {
            let more = end.push(node);
            assert(more.subrange(0, end.len() as int) =~= end);
            lemma_leaves_prefix(end, more, left as int);
            lemma_leaves_prefix(end, more, right as int);
            assert(leaves(more, left as int) == left_part.to_set());
            assert(leaves(more, right as int) == right_part.to_set());
            assert forall|a: usize, b: usize|
                #[trigger] left_part.to_set().contains(a) && #[trigger] right_part.to_set().contains(b)
                    implies sort_key(boxes@, axis as int, a) <= sort_key(boxes@, axis as int, b) by {
                let i = choose|i: int| 0 <= i < left_part.len() && left_part[i] == a;
                let j = choose|j: int| 0 <= j < right_part.len() && right_part[j] == b;
                assert(sorted[i] == a);
                assert(sorted[j + left_part.len()] == b);
            }
        }
        let at = push_node(nodes, boxes, node);
        proof {
            let fin = nodes@;
            assert(fin.subrange(0, end.len() as int) =~= end);
            lemma_leaves_prefix(end, fin, left as int);
            lemma_leaves_prefix(end, fin, right as int);
            assert(fin.subrange(0, start.len() as int) =~= start);
            assert forall|x: usize| given.to_set().contains(x) <==> sorted.contains(x) by {
                assert(given.contains(x) <==> given.to_multiset().count(x) > 0);
                assert(sorted.contains(x) <==> sorted.to_multiset().count(x) > 0);
            }
            assert(leaves(fin, at as int) == leaves(fin, left as int) + leaves(fin, right as int));
            assert(leaves(fin, left as int) == left_part.to_set());
            assert(leaves(fin, right as int) == right_part.to_set());
            assert forall|x: usize| sorted.contains(x) <==> (left_part.contains(x) || right_part.contains(x)) by {
                if sorted.contains(x) {
                    let k = choose|k: int| 0 <= k < sorted.len() && sorted[k] == x;
                    if k < left_part.len() {
                        assert(left_part[k] == x);
                    } else {
                        assert(right_part[k - left_part.len()] == x);
                    }
                }
                if left_part.contains(x) {
                    let k = choose|k: int| 0 <= k < left_part.len() && left_part[k] == x;
                    assert(sorted[k] == x);
                }
                if right_part.contains(x) {
                    let k = choose|k: int| 0 <= k < right_part.len() && right_part[k] == x;
                    assert(sorted[k + left_part.len()] == x);
                }
            }
            assert(leaves(fin, at as int) =~= given.to_set());
        }
        at
    }
}

} // verus!

verus! {

/// A bounding volume hierarchy over primitives numbered `0..n`, stored as an
/// arena in which every inner node comes after its two children.
#[derive(Debug)]
pub struct BvhTree {
    nodes: Vec<BvhNode>,
    boxes: Vec<Aabb>,
    root: usize,
}

impl BvhTree {
    pub closed spec fn node_seq(&self) -> Seq<BvhNode> {
        self.nodes@
    }

    /// The box of each primitive, by position.
    pub closed spec fn box_seq(&self) -> Seq<Aabb> {
        self.boxes@
    }

    pub closed spec fn root_index(&self) -> int {
        self.root as int
    }

    /// Every node is well formed and the root reaches every primitive.
    pub open spec fn wf(&self) -> bool {
        &&& self.box_seq().len() > 0
        &&& nodes_wf(self.node_seq(), self.box_seq())
        &&& 0 <= self.root_index() < self.node_seq().len()
        &&& self.node_seq().len() == 2 * self.box_seq().len() - 1
        &&& leaves(self.node_seq(), self.root_index()) == first_items(self.box_seq().len() as int)
    }

    /// Builds the hierarchy over primitives given by their bounding boxes.
    /// Each level splits its primitives along an axis drawn at random, after
    /// ordering them by the minimum corner of their boxes on that axis.
    pub fn new(boxes: Vec<Option<Aabb>>) -> (r: Result<BvhTree, BuildError>)
        ensures
            boxes@.len() == 0 <==> r == Err::<BvhTree, BuildError>(BuildError::Empty),
            forall|item: usize|
                r == Err::<BvhTree, BuildError>(BuildError::MissingBounds { item }) <==> {
                    &&& item < boxes@.len()
                    &&& boxes@[item as int] is None
                    &&& forall|k: int| 0 <= k < item ==> boxes@[k] is Some
                },
            r is Ok <==> boxes@.len() > 0 && forall|k: int| 0 <= k < boxes@.len() ==> boxes@[k] is Some,
            r matches Ok(t) ==> {
                &&& t.wf()
                &&& t.box_seq().len() == boxes@.len()
                &&& forall|k: int| 0 <= k < boxes@.len() ==> boxes@[k] == Some(#[trigger] t.box_seq()[k])
            },
    {
        let n = boxes.len();
        if n == 0 {
            return Err(BuildError::Empty);
        }
        let mut plain: Vec<Aabb> = Vec::new();
        let mut items: Vec<usize> = Vec::new();
        let mut i: usize = 0;
        while i < n
            invariant
                n == boxes@.len(),
                i <= n,
                plain@.len() == i,
                items@.len() == i,
                forall|k: int| 0 <= k < i ==> boxes@[k] == Some(#[trigger] plain@[k]),
                forall|k: int| 0 <= k < i ==> #[trigger] items@[k] == k,
                forall|k: int| 0 <= k < i ==> #[trigger] boxes@[k] is Some,
            decreases n - i,
        {
            match boxes[i] {
                Some(b) => {
                    plain.push(b);
                    items.push(i);
                },
                None => {
                    assert(boxes@[i as int] is None);
                    return Err(BuildError::MissingBounds { item: i });
                },
            }
            i = i + 1;
        }
        proof {
            assert forall|k: int| 0 <= k < items@.len() implies #[trigger] items@[k] < plain@.len() by {}
            assert(items@.to_set() =~= first_items(n as int)) by {
                assert forall|x: usize| first_items(n as int).contains(x) implies items@.contains(x) by {
                    assert(items@[x as int] == x);
                }
            }
        }
        let mut nodes: Vec<BvhNode> = Vec::new();
        let root = build(&plain, &mut nodes, items);
        Ok(BvhTree { nodes, boxes: plain, root })
    }

    /// The node arena; every inner node comes after its children.
    pub fn nodes(&self) -> (r: &Vec<BvhNode>)
        ensures
            r@ == self.node_seq(),
    {
        &self.nodes
    }

    /// The position of the root in the node arena.
    pub fn root(&self) -> (r: usize)
        ensures
            r == self.root_index(),
    {
        self.root
    }

    /// The number of primitives.
    pub fn len(&self) -> (r: usize)
        ensures
            r == self.box_seq().len(),
    {
        self.boxes.len()
    }

    /// The box of the whole hierarchy: the union of the boxes of all
    /// primitives, that is the least box that holds each of them.
    pub fn bounds(&self) -> (r: Aabb)
        requires
            self.wf(),
        ensures
            r == self.node_seq()[self.root_index()].bounds,
            forall|i: usize| i < self.box_seq().len() ==> r.encloses(#[trigger] self.box_seq()[i as int]),
            forall|c: Aabb|
                (forall|i: usize| i < self.box_seq().len() ==> c.encloses(#[trigger] self.box_seq()[i as int]))
                    ==> c.encloses(r),
    {
        proof {
            assert forall|c: Aabb|
                (forall|i: usize| i < self.box_seq().len() ==> c.encloses(#[trigger] self.box_seq()[i as int]))
                    implies c.encloses(self.nodes@[self.root as int].bounds) by {
                assert forall|i: usize| #[trigger] leaves(self.nodes@, self.root as int).contains(i) implies c.encloses(
                    self.boxes@[i as int],
                ) by {
                    assert(first_items(self.box_seq().len() as int).contains(i));
                }
                lemma_bounds_least(self.nodes@, self.boxes@, self.root as int, c);
            }
            assert forall|i: usize| i < self.box_seq().len() implies self.nodes@[self.root as int].bounds.encloses(
                #[trigger] self.box_seq()[i as int],
            ) by {
                assert(first_items(self.box_seq().len() as int).contains(i));
                lemma_bounds_enclose_leaves(self.nodes@, self.boxes@, self.root as int, i);
            }
        }
        self.nodes[self.root].bounds
    }

    fn search<B: Fn(Aabb, u64) -> bool, L: Fn(usize, u64) -> Option<u64>>(
        &self,
        n: usize,
        w: u64,
        box_test: &B,
        leaf_test: &L,
    ) -> (r: Option<(u64, usize)>)
        requires
            self.wf(),
            n < self.node_seq().len(),
            forall|b: Aabb, w: u64| #[trigger] box_test.requires((b, w)),
            forall|i: usize, w: u64| i < self.box_seq().len() ==> #[trigger] leaf_test.requires((i, w)),
        ensures
            forall|hits: Seq<Option<u64>>, hi: u64|
                hits.len() == self.box_seq().len() && w <= hi && #[trigger] answers_hits(*leaf_test, hits, hi)
                    && #[trigger] answers_boxes(*box_test, self.box_seq(), hits, hi) ==> is_nearest(
                    r,
                    hits,
                    leaves(self.node_seq(), n as int),
                    w,
                ),
        decreases n,
    {
        let node = self.nodes[n];
        proof {
            assert(node_wf(self.nodes@, self.boxes@, n as int));
        }
        if !box_test(node.bounds, w) {
            proof {
                assert forall|hits: Seq<Option<u64>>, hi: u64|
                    hits.len() == self.box_seq().len() && w <= hi && #[trigger] answers_hits(*leaf_test, hits, hi)
                        && #[trigger] answers_boxes(*box_test, self.box_seq(), hits, hi) implies is_nearest(
                        None,
                        hits,
                        leaves(self.node_seq(), n as int),
                        w,
                    ) by {
                    assert forall|i: usize| #[trigger] leaves(self.node_seq(), n as int).contains(i) && i < hits.len()
                        implies !within(hits[i as int], w) by {
                        lemma_bounds_enclose_leaves(self.nodes@, self.boxes@, n as int, i);
                        assert(node.bounds.encloses(self.boxes@[i as int]));
                    }
                }
            }
            return None;
        }
        match node.kind {
            BvhKind::Leaf { item } => {
                let found = leaf_test(item, w);
                proof {
                    assert(leaves(self.node_seq(), n as int) == set![item]);
                }
                match found {
                    Some(t) => Some((t, item)),
                    None => None,
                }
            },
            BvhKind::Inner { left, right, .. } => {
                let from_left = self.search(left, w, box_test, leaf_test);
                match from_left {
                    Some((tl, il)) => {
                        let from_right = self.search(right, tl, box_test, leaf_test);
                        let r = match from_right {
                            Some(found) => Some(found),
                            None => Some((tl, il)),
                        };
                        proof {
                            assert(leaves(self.node_seq(), n as int) == leaves(self.node_seq(), left as int)
                                + leaves(self.node_seq(), right as int));
                            assert forall|hits: Seq<Option<u64>>, hi: u64|
                                hits.len() == self.box_seq().len() && w <= hi && #[trigger] answers_hits(*leaf_test, hits, hi)
                                    && #[trigger] answers_boxes(*box_test, self.box_seq(), hits, hi) implies is_nearest(
                                    r,
                                    hits,
                                    leaves(self.node_seq(), n as int),
                                    w,
                                ) by {
                                assert(is_nearest(from_left, hits, leaves(self.node_seq(), left as int), w));
                                assert(tl <= w);
                                assert(is_nearest(from_right, hits, leaves(self.node_seq(), right as int), tl));
                            }
                        }
                        r
                    },
                    None => {
                        let r = self.search(right, w, box_test, leaf_test);
                        proof {
                            assert(leaves(self.node_seq(), n as int) == leaves(self.node_seq(), left as int)
                                + leaves(self.node_seq(), right as int));
                            assert forall|hits: Seq<Option<u64>>, hi: u64|
                                hits.len() == self.box_seq().len() && w <= hi && #[trigger] answers_hits(*leaf_test, hits, hi)
                                    && #[trigger] answers_boxes(*box_test, self.box_seq(), hits, hi) implies is_nearest(
                                    r,
                                    hits,
                                    leaves(self.node_seq(), n as int),
                                    w,
                                ) by {
                                assert(is_nearest(None, hits, leaves(self.node_seq(), left as int), w));
                                assert(is_nearest(r, hits, leaves(self.node_seq(), right as int), w));
                            }
                        }
                        r
                    },
                }
            },
        }
    }

    /// The nearest hit over all primitives with the window ending at `t_max`,
    /// as distance and primitive. A subtree is skipped when `box_test` rejects
    /// its box; the right subtree is asked with the window cut at the hit found
    /// on the left, and wins on an equal distance.
    pub fn hit<B: Fn(Aabb, u64) -> bool, L: Fn(usize, u64) -> Option<u64>>(
        &self,
        t_max: u64,
        box_test: &B,
        leaf_test: &L,
    ) -> (r: Option<(u64, usize)>)
        requires
            self.wf(),
            forall|b: Aabb, w: u64| #[trigger] box_test.requires((b, w)),
            forall|i: usize, w: u64| i < self.box_seq().len() ==> #[trigger] leaf_test.requires((i, w)),
        ensures
            forall|hits: Seq<Option<u64>>|
                hits.len() == self.box_seq().len() && #[trigger] answers_hits(*leaf_test, hits, t_max)
                    && answers_boxes(*box_test, self.box_seq(), hits, t_max) ==> is_nearest(
                    r,
                    hits,
                    first_items(self.box_seq().len() as int),
                    t_max,
                ),
    {
        self.search(self.root, t_max, box_test, leaf_test)
    }
}

} // verus!
