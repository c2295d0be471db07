use rand::seq::SliceRandom;
use vstd::prelude::*;

verus! {

broadcast use vstd::seq_lib::group_to_multiset_ensures;

/// The size of the lattice tables.
pub const POINT_COUNT: usize = 256;

/// Relies on rand::seq::SliceRandom::shuffle for slices, driven by
/// rand::thread_rng: it only swaps elements of the slice, so the result holds
/// the same elements in some order.
#[verifier::external_body]
fn shuffle(v: &mut Vec<usize>)
    ensures
        final(v)@.to_multiset() == old(v)@.to_multiset(),
{
    v.shuffle(&mut rand::thread_rng())
}

/// `0, 1, ..., 255`.
pub open spec fn identity_table() -> Seq<usize> {
    Seq::new(POINT_COUNT as nat, |i: int| i as usize)
}

/// `p` holds each of `0..256` exactly once.
pub open spec fn is_permutation(p: Seq<usize>) -> bool {
    p.to_multiset() == identity_table().to_multiset()
}

/// The lattice cell of integer coordinate `i` along one axis: `i` modulo 256.
pub open spec fn cell(i: i64) -> int {
    (i as int) % (POINT_COUNT as int)
}

/// The gradient table of gradient noise with its three random permutations of
/// the table's positions, one per axis. The gradients are of any type `T`.
#[derive(Clone, Debug)]
pub struct Perlin<T> {
    gradients: Vec<T>,
    perm_x: Vec<usize>,
    perm_y: Vec<usize>,
    perm_z: Vec<usize>,
}

impl<T> Perlin<T> {
    pub closed spec fn gradient_seq(&self) -> Seq<T> {
        self.gradients@
    }

    pub closed spec fn perm_x_seq(&self) -> Seq<usize> {
        self.perm_x@
    }

    pub closed spec fn perm_y_seq(&self) -> Seq<usize> {
        self.perm_y@
    }

    pub closed spec fn perm_z_seq(&self) -> Seq<usize> {
        self.perm_z@
    }

    pub open spec fn wf(&self) -> bool {
        &&& self.gradient_seq().len() == POINT_COUNT
        &&& self.perm_x_seq().len() == POINT_COUNT
        &&& self.perm_y_seq().len() == POINT_COUNT
        &&& self.perm_z_seq().len() == POINT_COUNT
        &&& is_permutation(self.perm_x_seq())
        &&& is_permutation(self.perm_y_seq())
        &&& is_permutation(self.perm_z_seq())
    }

    /// The table position whose gradient sits at lattice point `(i, j, k)`.
    pub open spec fn lattice_spec(&self, i: i64, j: i64, k: i64) -> usize {
        self.perm_x_seq()[cell(i)] ^ self.perm_y_seq()[cell(j)] ^ self.perm_z_seq()[cell(k)]
    }

    /// Takes the 256 gradients and draws the three permutations at random.
    pub fn new(gradients: Vec<T>) -> (r: Perlin<T>)
        requires
            gradients@.len() == POINT_COUNT,
        ensures
            r.wf(),
            r.gradient_seq() == gradients@,
    {
        let mut perm_x = identity();
        let mut perm_y = identity();
        let mut perm_z = identity();
        shuffle(&mut perm_x);
        shuffle(&mut perm_y);
        shuffle(&mut perm_z);
        proof {
            assert(perm_x@.to_multiset().len() == POINT_COUNT);
            assert(perm_y@.to_multiset().len() == POINT_COUNT);
            assert(perm_z@.to_multiset().len() == POINT_COUNT);
        }
        Perlin { gradients, perm_x, perm_y, perm_z }
    }

    /// The table position for lattice point `(i, j, k)`: the exclusive or of
    /// the three permutations, each taken at its coordinate modulo 256.
    pub fn lattice_index(&self, i: i64, j: i64, k: i64) -> (r: usize)
        requires
            self.wf(),
        ensures
            r == self.lattice_spec(i, j, k),
            r < POINT_COUNT,
    {
        let ci = cell_of(i);
        let cj = cell_of(j);
        let ck = cell_of(k);
        let a = self.perm_x[ci];
        let b = self.perm_y[cj];
        let c = self.perm_z[ck];
        proof {
            lemma_permutation_bounded(self.perm_x@, ci as int);
            lemma_permutation_bounded(self.perm_y@, cj as int);
            lemma_permutation_bounded(self.perm_z@, ck as int);
            assert(a ^ b ^ c < 256) by (bit_vector)
                requires
                    a < 256,
                    b < 256,
                    c < 256,
            ;
        }
        a ^ b ^ c
    }

    /// The gradient at lattice point `(i, j, k)`.
    pub fn gradient(&self, i: i64, j: i64, k: i64) -> (r: &T)
        requires
            self.wf(),
        ensures
            *r == self.gradient_seq()[self.lattice_spec(i, j, k) as int],
    {
        let at = self.lattice_index(i, j, k);
        &self.gradients[at]
    }
}

fn identity() -> (r: Vec<usize>)
    ensures
        r@ == identity_table(),
{
    let mut v: Vec<usize> = Vec::new();
    let mut i: usize = 0;
    while i < POINT_COUNT
        invariant
            i <= POINT_COUNT,
            v@ == identity_table().subrange(0, i as int),
        decreases POINT_COUNT - i,
    {
        v.push(i);
        i = i + 1;
        assert(v@ =~= identity_table().subrange(0, i as int));
    }
    assert(identity_table().subrange(0, POINT_COUNT as int) =~= identity_table());
    v
}

proof fn lemma_permutation_bounded(p: Seq<usize>, k: int)
    requires
        is_permutation(p),
        0 <= k < p.len(),
    ensures
        p[k] < POINT_COUNT,
{
    assert(p.contains(p[k]));
    assert(p.to_multiset().count(p[k]) > 0);
    assert(identity_table().contains(p[k]));
}

/// `i` modulo 256, in `0..256` also for negative `i`.
fn cell_of(i: i64) -> (r: usize)
    ensures
        r == cell(i),
        r < POINT_COUNT,
{
    let m: i64 = i % 256;
    let r: i64 = if m < 0 { m + 256 } else { m };
    r as usize
}

} // verus!
