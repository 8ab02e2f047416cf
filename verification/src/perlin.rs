//! Value noise on a lattice: a point's coordinates are hashed into a table
//! of random numbers.

use vstd::prelude::*;
use crate::permutation::{lemma_swap_permutation, permutation, swapped};
use crate::random::random_below;
use crate::scalar::Scalar;
use crate::vec3::Vec3;

verus! {

/// The size of the tables.
pub const VALUE_COUNT: usize = 256;

/// The tables of the noise: the numbers it chooses among, and a permutation
/// of their places for each axis.
pub struct Perlin {
    random: Vec<Scalar>,
    permutations_x: Vec<usize>,
    permutations_y: Vec<usize>,
    permutations_z: Vec<usize>,
}

/// How often a coordinate is doubled before its whole part is taken: the
/// lattice has four points to the unit.
pub const SCALE_DOUBLINGS: u32 = 2;

/// The coordinate on the lattice of a coordinate in space: four times its
/// magnitude, cut to a whole number that the machine can hold, modulo
/// `VALUE_COUNT`. A NaN lies at 0.
pub open spec fn spec_lattice_coordinate(x: Scalar) -> usize {
    if x.nan() {
        0
    } else if x.whole_of_scaled(SCALE_DOUBLINGS as nat) > usize::MAX {
        (usize::MAX % VALUE_COUNT) as usize
    } else {
        (x.whole_of_scaled(SCALE_DOUBLINGS as nat) % (VALUE_COUNT as nat)) as usize
    }
}

/// The coordinate on the lattice of a coordinate in space, read from the
/// bit pattern of the number.
#[verifier::when_used_as_spec(spec_lattice_coordinate)]
pub fn lattice_coordinate(x: Scalar) -> (out: usize)
    ensures
        out == spec_lattice_coordinate(x),
        out < VALUE_COUNT,
{
    if x.is_nan() {
        0
    } else {
        x.scaled_to_usize(SCALE_DOUBLINGS) % VALUE_COUNT
    }
}

/// The places `0..count` in turn, with the exchanges `targets[0..done]` made:
/// exchange `i` is that of the values at `i` and at `targets[i]`.
pub open spec fn exchanged(targets: Seq<usize>, done: int) -> Seq<usize>
    decreases done,
{
    if done <= 0 {
        Seq::new(targets.len(), |i: int| i as usize)
    } else {
        swapped(exchanged(targets, done - 1), done - 1, targets[done - 1] as int)
    }
}

/// The exchanges leave a permutation of the places.
pub proof fn lemma_exchanged_permutes(targets: Seq<usize>, done: int)
    requires
        0 <= done <= targets.len() <= usize::MAX,
        forall|i: int| 0 <= i < targets.len() ==> (#[trigger] targets[i]) < targets.len(),
    ensures
        exchanged(targets, done).len() == targets.len(),
        permutation(exchanged(targets, done), targets.len() as int),
    decreases done,
{
    if done == 0 {
        let places = exchanged(targets, 0);
        assert forall|x: usize| places.contains(x) <==> x < targets.len() by {
            if x < targets.len() {
                assert(places[x as int] == x);
            }
        }
    } else {
        lemma_exchanged_permutes(targets, done - 1);
        lemma_swap_permutation(exchanged(targets, done - 1), done - 1, targets[done - 1] as int);
    }
}

/// The permutation of the places `0..targets.len()` that the exchanges
/// make: for each place in turn, its value and that at `targets[place]`
/// change places. Every target must be a place.
pub fn permutation_from(targets: &Vec<usize>) -> (out: Vec<usize>)
    requires
        forall|i: int| 0 <= i < targets.len() ==> (#[trigger] targets[i]) < targets.len(),
    ensures
        out@ == exchanged(targets@, targets.len() as int),
        permutation(out@, targets.len() as int),
{
    let count = targets.len();
    let mut permutations: Vec<usize> = Vec::new();
    let mut i: usize = 0;
    while i < count
        invariant
            i <= count,
            permutations.len() == i,
            forall|k: int| 0 <= k < i ==> permutations[k] == k,
        decreases count - i,
    {
        permutations.push(i);
        i += 1;
    }
    assert(permutations@ =~= exchanged(targets@, 0));
    let mut i: usize = 0;
    while i < count
        invariant
            i <= count,
            count == targets.len(),
            permutations.len() == count,
            forall|k: int| 0 <= k < targets.len() ==> (#[trigger] targets[k]) < targets.len(),
            permutations@ == exchanged(targets@, i as int),
        decreases count - i,
    {
        let target = targets[i];
        let here = permutations[i];
        let there = permutations[target];
        permutations[i] = there;
        permutations[target] = here;
        assert(permutations@ =~= exchanged(targets@, i + 1));
        i += 1;
    }
    proof {
        lemma_exchanged_permutes(targets@, count as int);
    }
    permutations
}

/// A random permutation of the places `0..VALUE_COUNT`.
fn generate_permutations() -> (out: Vec<usize>)
    ensures
        permutation(out@, VALUE_COUNT as int),
{
    let mut targets: Vec<usize> = Vec::new();
    let mut i: usize = 0;
    while i < VALUE_COUNT
        invariant
            i <= VALUE_COUNT,
            targets.len() == i,
            forall|k: int| 0 <= k < i ==> (#[trigger] targets[k]) < VALUE_COUNT,
        decreases VALUE_COUNT - i,
    {
        targets.push(random_below(VALUE_COUNT));
        i += 1;
    }
    permutation_from(&targets)
}

/// Whether the table holds each of the places `0..table.len()` once.
pub fn is_permutation(table: &Vec<usize>) -> (out: bool)
    ensures
        out == permutation(table@, table.len() as int),
{
    let count = table.len();
    let mut seen: Vec<bool> = vec![false; count];
    let mut i: usize = 0;
    while i < count
        invariant
            i <= count,
            count == table.len(),
            seen.len() == count,
            forall|k: int| 0 <= k < i ==> (#[trigger] table[k]) < count,
            forall|a: int, b: int| 0 <= a < b < i ==> table[a] != table[b],
            forall|x: int| 0 <= x < count ==> (#[trigger] seen[x] <==> exists|k: int| 0 <= k < i && table[k] == x),
        decreases count - i,
    {
        let value = table[i];
        if value >= count {
            proof {
                assert(table@.contains(value));
            }
            return false;
        }
        if seen[value] {
            proof {
                let k = choose|k: int| 0 <= k < i && table[k] == value;
                assert(table@[k] == table@[i as int]);
            }
            return false;
        }
        seen[value] = true;
        proof {
            assert forall|x: int| 0 <= x < count implies (#[trigger] seen[x] <==> exists|k: int|
                0 <= k < i + 1 && table[k] == x) by {
                if x == value {
                    assert(table[i as int] == x);
                } else {
                    if exists|k: int| 0 <= k < i + 1 && table[k] == x {
                        let k = choose|k: int| 0 <= k < i + 1 && table[k] == x;
                        assert(k < i);
                    }
                }
            }
        }
        i += 1;
    }
    proof {
        assert forall|x: usize| table@.contains(x) <==> x < count by {
            if x < count {
                // Each of `count` places holds one of `count` values, and no
                // value twice, so no value is left out.
                lemma_all_seen(table@, x);
            }
        }
    }
    true
}

/// A sequence of distinct values below its length holds each such value:
/// with as many places as values, none is left out.
pub proof fn lemma_all_seen(table: Seq<usize>, wanted: usize)
    requires
        table.no_duplicates(),
        forall|k: int| 0 <= k < table.len() ==> (#[trigger] table[k]) < table.len(),
        wanted < table.len(),
    ensures
        table.contains(wanted),
    decreases table.len(),
{
    let count = table.len() as int;
    let top = (count - 1) as usize;
    if table.contains(top) {
        let at = choose|k: int| 0 <= k < table.len() && table[k] == top;
        if wanted != top {
            let shorter = table.remove(at);
            assert forall|k: int| 0 <= k < shorter.len() implies (#[trigger] shorter[k]) < shorter.len() by {
                let from = if k < at { k } else { k + 1 };
                assert(shorter[k] == table[from]);
                assert(table[from] != table[at]);
            }
            assert forall|a: int, b: int| 0 <= a < shorter.len() && 0 <= b < shorter.len() && a
                != b implies shorter[a] != shorter[b] by {
                let from_a = if a < at { a } else { a + 1 };
                let from_b = if b < at { b } else { b + 1 };
                assert(shorter[a] == table[from_a]);
                assert(shorter[b] == table[from_b]);
            }
            lemma_all_seen(shorter, wanted);
            let k = choose|k: int| 0 <= k < shorter.len() && shorter[k] == wanted;
            let from = if k < at { k } else { k + 1 };
            assert(table[from] == wanted);
        }
    } else {
        // Without the largest value the last place repeats an earlier one.
        let last = table[count - 1];
        let shorter = table.drop_last();
        assert(table.contains(last));
        assert forall|k: int| 0 <= k < shorter.len() implies (#[trigger] shorter[k]) < shorter.len() by {
            assert(shorter[k] == table[k]);
            assert(table.contains(table[k]));
        }
        assert forall|a: int, b: int| 0 <= a < shorter.len() && 0 <= b < shorter.len() && a != b implies shorter[a]
            != shorter[b] by {
            assert(shorter[a] == table[a]);
            assert(shorter[b] == table[b]);
        }
        lemma_all_seen(shorter, last);
        let k = choose|k: int| 0 <= k < shorter.len() && shorter[k] == last;
        assert(table[k] == table[count - 1]);
        assert(false);
    }
}

impl Perlin {
    /// The tables are whole: `VALUE_COUNT` numbers, and three permutations
    /// of the places among them.
    #[verifier::type_invariant]
    spec fn wf(&self) -> bool {
        &&& self.random@.len() == VALUE_COUNT
        &&& permutation(self.permutations_x@, VALUE_COUNT as int)
        &&& permutation(self.permutations_y@, VALUE_COUNT as int)
        &&& permutation(self.permutations_z@, VALUE_COUNT as int)
    }

    /// The numbers among which the noise chooses.
    pub closed spec fn values(&self) -> Seq<Scalar> {
        self.random@
    }

    /// The three permutations, for x, y and z.
    pub closed spec fn tables(&self) -> (Seq<usize>, Seq<usize>, Seq<usize>) {
        (self.permutations_x@, self.permutations_y@, self.permutations_z@)
    }

    /// The place in `values` of the lattice point `(i, j, k)`: the three
    /// coordinates are taken modulo `VALUE_COUNT` and sent through the
    /// permutations, and what comes out is combined bit by bit with
    /// exclusive or.
    pub open spec fn place(&self, i: usize, j: usize, k: usize) -> usize {
        self.tables().0[(i % VALUE_COUNT) as int] ^ self.tables().1[(j % VALUE_COUNT) as int]
            ^ self.tables().2[(k % VALUE_COUNT) as int]
    }

    /// The noise at a point in space: that of the lattice point on which
    /// its coordinates fall.
    pub open spec fn noise(&self, p: Vec3) -> Scalar {
        self.values()[self.place(
            lattice_coordinate(p.x),
            lattice_coordinate(p.y),
            lattice_coordinate(p.z),
        ) as int]
    }

    /// Tables of noise over the given numbers, of which there must be
    /// `VALUE_COUNT`, with three random permutations.
    pub fn new(random: Vec<Scalar>) -> (out: Perlin)
        requires
            random.len() == VALUE_COUNT,
        ensures
            out.values() == random@,
            permutation(out.tables().0, VALUE_COUNT as int),
            permutation(out.tables().1, VALUE_COUNT as int),
            permutation(out.tables().2, VALUE_COUNT as int),
    {
        Perlin {
            random,
            permutations_x: generate_permutations(),
            permutations_y: generate_permutations(),
            permutations_z: generate_permutations(),
        }
    }

    /// Tables of noise over the given numbers and permutations, or nothing
    /// where there are not `VALUE_COUNT` numbers or a table is no
    /// permutation of the places `0..VALUE_COUNT`.
    pub fn from_tables(
        random: Vec<Scalar>,
        permutations_x: Vec<usize>,
        permutations_y: Vec<usize>,
        permutations_z: Vec<usize>,
    ) -> (out: Option<Perlin>)
        ensures
            out is Some <==> {
                &&& random.len() == VALUE_COUNT
                &&& permutation(permutations_x@, VALUE_COUNT as int)
                &&& permutation(permutations_y@, VALUE_COUNT as int)
                &&& permutation(permutations_z@, VALUE_COUNT as int)
            },
            out matches Some(perlin) ==> perlin.values() == random@ && perlin.tables() == (
                permutations_x@,
                permutations_y@,
                permutations_z@,
            ),
    {
        if random.len() != VALUE_COUNT || permutations_x.len() != VALUE_COUNT || permutations_y.len()
            != VALUE_COUNT || permutations_z.len() != VALUE_COUNT {
            return None;
        }
        if !is_permutation(&permutations_x) || !is_permutation(&permutations_y) || !is_permutation(
            &permutations_z,
        ) {
            return None;
        }
        Some(Perlin { random, permutations_x, permutations_y, permutations_z })
    }

    /// The noise at a point in space.
    #[verifier::when_used_as_spec(noise)]
    pub fn get(&self, p: Vec3) -> (out: Scalar)
        ensures
            self.place(lattice_coordinate(p.x), lattice_coordinate(p.y), lattice_coordinate(p.z))
                < self.values().len(),
            out == self.noise(p),
    {
        self.get_at(lattice_coordinate(p.x), lattice_coordinate(p.y), lattice_coordinate(p.z))
    }

    /// The noise at the lattice point `(i, j, k)`.
    pub fn get_at(&self, i: usize, j: usize, k: usize) -> (out: Scalar)
        ensures
            self.place(i, j, k) < self.values().len(),
            out == self.values()[self.place(i, j, k) as int],
    {
        proof {
            use_type_invariant(self);
        }
        let a = self.permutations_x[i % VALUE_COUNT];
        let b = self.permutations_y[j % VALUE_COUNT];
        let c = self.permutations_z[k % VALUE_COUNT];
        proof {
            assert(self.permutations_x@.contains(a));
            assert(self.permutations_y@.contains(b));
            assert(self.permutations_z@.contains(c));
            assert(a ^ b ^ c < 256) by (bit_vector)
                requires
                    a < 256,
                    b < 256,
                    c < 256,
            ;
        }
        self.random[a ^ b ^ c]
    }
}

} // verus!
