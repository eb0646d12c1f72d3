//! The lattice hashing of Perlin noise: three shuffled permutation tables
//! that map an integer lattice point to one of `POINT_COUNT` gradient slots.
use vstd::prelude::*;

verus! {

/// Number of gradient slots, and the length of each permutation table.
pub const POINT_COUNT: usize = 256;

/// `s` holds each of `0 .. n` exactly once.
pub open spec fn is_permutation(s: Seq<usize>, n: nat) -> bool {
    &&& s.len() == n
    &&& forall|i: int| 0 <= i < n ==> #[trigger] s[i] < n
    &&& forall|i: int, j: int| 0 <= i < n && 0 <= j < n && i != j ==> s[i] != s[j]
}

/// Relies on `rand::random_range`: a value drawn from `0 .. bound` by the
/// thread-local generator (it panics on an empty range).
#[verifier::external_body]
fn random_below(bound: usize) -> (r: usize)
    requires
        bound > 0,
    ensures
        r < bound,
{
    rand::random_range(0..bound)
}

/// A randomly shuffled permutation of `0 .. POINT_COUNT`.
fn shuffled_permutation() -> (r: Vec<usize>)
    ensures
        is_permutation(r@, POINT_COUNT as nat),
{
    let mut perm: Vec<usize> = Vec::new();
    let mut i: usize = 0;
    while i < POINT_COUNT
        invariant
            i <= POINT_COUNT,
            perm@.len() == i,
            forall|k: int| 0 <= k < i ==> #[trigger] perm@[k] == k,
        decreases POINT_COUNT - i,
    {
        perm.push(i);
        i += 1;
    }
    let mut i: usize = POINT_COUNT - 1;
    while i > 0
        invariant
            i < POINT_COUNT,
            is_permutation(perm@, POINT_COUNT as nat),
        decreases i,
    {
        let target = random_below(i);
        let a = perm[i];
        let b = perm[target];
        perm.set(i, b);
        perm.set(target, a);
        i -= 1;
    }
    perm
}

/// The three permutation tables of a Perlin noise generator.
#[derive(Debug)]
pub struct PermutationTables {
    perm_x: Vec<usize>,
    perm_y: Vec<usize>,
    perm_z: Vec<usize>,
}

impl PermutationTables {
    #[verifier::type_invariant]
    spec fn inv(self) -> bool {
        &&& is_permutation(self.perm_x@, POINT_COUNT as nat)
        &&& is_permutation(self.perm_y@, POINT_COUNT as nat)
        &&& is_permutation(self.perm_z@, POINT_COUNT as nat)
    }

    pub closed spec fn perm_x(self) -> Seq<usize> {
        self.perm_x@
    }

    pub closed spec fn perm_y(self) -> Seq<usize> {
        self.perm_y@
    }

    pub closed spec fn perm_z(self) -> Seq<usize> {
        self.perm_z@
    }

    /// Three independently shuffled tables.
    pub fn new() -> (r: PermutationTables)
        ensures
            is_permutation(r.perm_x(), POINT_COUNT as nat),
            is_permutation(r.perm_y(), POINT_COUNT as nat),
            is_permutation(r.perm_z(), POINT_COUNT as nat),
    {
        PermutationTables {
            perm_x: shuffled_permutation(),
            perm_y: shuffled_permutation(),
            perm_z: shuffled_permutation(),
        }
    }

    /// The gradient slot of lattice point `(i, j, k)`: the three tables,
    /// each indexed by the low eight bits of its coordinate, combined by
    /// exclusive or.
    pub fn lattice_index(&self, i: i64, j: i64, k: i64) -> (r: usize)
        ensures
            r == self.perm_x()[(i & 255) as int] ^ self.perm_y()[(j & 255) as int] ^ self.perm_z()[(k
                & 255) as int],
            r < POINT_COUNT,
    {
        proof {
            use_type_invariant(self);
        }
        assert(0 <= (i & 255) < 256) by (bit_vector);
        assert(0 <= (j & 255) < 256) by (bit_vector);
        assert(0 <= (k & 255) < 256) by (bit_vector);
        let x = self.perm_x[(i & 255) as usize];
        let y = self.perm_y[(j & 255) as usize];
        let z = self.perm_z[(k & 255) as usize];
        assert(x < 256 && y < 256 && z < 256 ==> (x ^ y ^ z) < 256) by (bit_vector);
        x ^ y ^ z
    }
}

} // verus!
