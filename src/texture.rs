//! The integer parts of the procedural textures: the permutations and the
//! lattice lookup of Perlin noise, and the parity of a checker cell.
use vstd::prelude::*;
use rand::seq::SliceRandom;

verus! {

/// How Perlin noise is turned into a color.
#[derive(Clone, Copy, Debug, PartialEq, Eq, Structural)]
pub enum PerlinNoiseEffect {
    WhiteNoise,
    Marble,
}

/// The number of lattice gradients, and the length of each permutation.
pub const POINT_COUNT: usize = 256;

/// `0, 1, ..., n - 1`.
pub open spec fn identity(n: nat) -> Seq<u64> {
    Seq::new(n, |i: int| i as u64)
}

/// Relies on rand's `SliceRandom::shuffle` with the thread-local generator:
/// it rearranges the slice by swaps, so the same values stay, in a random
/// order.
#[verifier::external_body]
fn shuffle(v: &mut Vec<u64>)
    ensures
        final(v)@.len() == old(v)@.len(),
        final(v)@.to_multiset() == old(v)@.to_multiset(),
{
    v.shuffle(&mut rand::rng());
}

/// A random permutation of `0..POINT_COUNT`.
pub fn generate_perm() -> (r: Vec<u64>)
    ensures
        r@.len() == POINT_COUNT,
        r@.to_multiset() == identity(POINT_COUNT as nat).to_multiset(),
        forall|k: int| 0 <= k < r@.len() ==> r@[k] < POINT_COUNT,
{
    let mut perm: Vec<u64> = Vec::new();
    let mut i: usize = 0;
    while i < POINT_COUNT
        invariant
            i <= POINT_COUNT,
            perm@ == identity(i as nat),
        decreases POINT_COUNT - i,
    {
        perm.push(i as u64);
        i += 1;
        proof {
            assert(perm@ =~= identity(i as nat));
        }
    }
    shuffle(&mut perm);
    proof {
        broadcast use vstd::seq_lib::group_to_multiset_ensures;

        assert forall|k: int| 0 <= k < perm@.len() implies perm@[k] < POINT_COUNT by {
            assert(perm@.contains(perm@[k]));
            assert(identity(POINT_COUNT as nat).to_multiset().count(perm@[k]) > 0);
            assert(identity(POINT_COUNT as nat).contains(perm@[k]));
        }
    }
    perm
}

/// `c mod m` for a non-negative `c`, or for a negative one through the
/// mirror `-(c + 1)`, which cannot overflow.
fn euclid_mod(c: i128, m: u64) -> (r: u64)
    requires
        m > 0,
    ensures
        r as int == c as int % (m as int),
        r < m,
{
    if c >= 0 {
        proof {
            vstd::arithmetic::div_mod::lemma_mod_pos_bound(c as int, m as int);
        }
        ((c as u128) % (m as u128)) as u64
    } else {
        let n = (-(c + 1)) as u128;
        let rem = n % (m as u128);
        proof {
            let q = n as int / m as int;
            vstd::arithmetic::div_mod::lemma_fundamental_div_mod(n as int, m as int);
            vstd::arithmetic::div_mod::lemma_mod_pos_bound(n as int, m as int);
            assert(c as int == (m as int) * (-(q + 1)) + (m as int - 1 - rem as int)) by (nonlinear_arith)
                requires
                    n as int == (m as int) * q + rem as int,
                    c as int == -(n as int + 1),
            ;
            vstd::arithmetic::div_mod::lemma_mod_multiples_vanish(
                -(q + 1),
                m as int - 1 - rem as int,
                m as int,
            );
            vstd::arithmetic::div_mod::lemma_small_mod(
                (m as int - 1 - rem as int) as nat,
                m as nat,
            );
        }
        (m as u128 - 1 - rem) as u64
    }
}

/// `c` wrapped onto the lattice, `c mod POINT_COUNT`.
pub fn wrap_lattice(c: i64) -> (r: usize)
    ensures
        r as int == c as int % (POINT_COUNT as int),
        r < POINT_COUNT,
{
    euclid_mod(c as i128, POINT_COUNT as u64) as usize
}

/// The gradient slot of lattice corner `(i, j, k)`: the three permuted
/// coordinates combined by exclusive or.
pub open spec fn slot_spec(x_perm: Seq<u64>, y_perm: Seq<u64>, z_perm: Seq<u64>, i: int, j: int, k: int) -> u64 {
    x_perm[i % 256] ^ y_perm[j % 256] ^ z_perm[k % 256]
}

/// Which of the `POINT_COUNT` gradients belongs to lattice corner `(i, j, k)`.
pub fn noise_slot(x_perm: &Vec<u64>, y_perm: &Vec<u64>, z_perm: &Vec<u64>, i: i64, j: i64, k: i64) -> (r: usize)
    requires
        x_perm.len() == POINT_COUNT,
        y_perm.len() == POINT_COUNT,
        z_perm.len() == POINT_COUNT,
        forall|n: int| 0 <= n < POINT_COUNT ==> x_perm[n] < POINT_COUNT && y_perm[n] < POINT_COUNT
            && z_perm[n] < POINT_COUNT,
    ensures
        r as u64 == slot_spec(x_perm@, y_perm@, z_perm@, i as int, j as int, k as int),
        r < POINT_COUNT,
{
    let a = x_perm[wrap_lattice(i)];
    let b = y_perm[wrap_lattice(j)];
    let c = z_perm[wrap_lattice(k)];
    let s = a ^ b ^ c;
    assert(a < 256 && b < 256 && c < 256 ==> a ^ b ^ c < 256) by (bit_vector);
    s as usize
}

/// Whether the checker cell `(x, y, z)` has an even coordinate sum.
pub fn checker_sum_is_even(x: i64, y: i64, z: i64) -> (r: bool)
    ensures
        r == ((x as int + y as int + z as int) % 2 == 0),
{
    euclid_mod(x as i128 + y as i128 + z as i128, 2) == 0
}

} // verus!
