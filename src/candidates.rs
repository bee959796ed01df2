//! Random orders in which the start cells and directions of a word are tried.
use vstd::prelude::*;

use rand::rngs::StdRng;
use rand::seq::SliceRandom;

use crate::geometry::{all_dirs, Dir};

verus! {

#[verifier::external_type_specification]
#[verifier::external_body]
pub struct ExStdRng(StdRng);

/// Relies on rand's `SliceRandom::shuffle` for slices: it only swaps elements
/// in place, so the result holds the same elements as before.
#[verifier::external_body]
fn shuffle<T>(v: &mut Vec<T>, rng: &mut StdRng)
    ensures
        final(v)@.to_multiset() == old(v)@.to_multiset(),
{
    v.as_mut_slice().shuffle(rng);
}

/// The values `0 .. n`, each once, in a random order.
pub fn shuffled_range(n: isize, rng: &mut StdRng) -> (r: Vec<isize>)
    requires
        n >= 0,
    ensures
        r@.len() == n,
        forall|x: isize| #[trigger] r@.contains(x) <==> 0 <= x < n,
{
    let mut v: Vec<isize> = Vec::new();
    let mut i: isize = 0;
    while i < n
        invariant
            0 <= i <= n,
            v@.len() == i,
            forall|k: int| 0 <= k < i ==> #[trigger] v@[k] == k,
        decreases n - i,
    {
        v.push(i);
        i = i + 1;
    }
    let ghost before = v@;
    assert forall|x: isize| before.contains(x) <==> 0 <= x < n by {
        if 0 <= x < n {
            assert(before[x as int] == x);
        }
    }
    shuffle(&mut v, rng);
    proof {
        v@.to_multiset_ensures();
        before.to_multiset_ensures();
    }
    assert forall|x: isize| #[trigger] v@.contains(x) <==> 0 <= x < n by {
        assert(v@.to_multiset().count(x) == before.to_multiset().count(x));
        assert(before.contains(x) <==> 0 <= x < n);
    }
    v
}

/// The eight directions, each once, in a random order.
pub fn shuffled_directions(rng: &mut StdRng) -> (r: Vec<Dir>)
    ensures
        r@.len() == 8,
        forall|d: Dir| #[trigger] r@.contains(d),
{
    let mut v: Vec<Dir> = vec![
        Dir::North,
        Dir::South,
        Dir::East,
        Dir::West,
        Dir::NE,
        Dir::NW,
        Dir::SE,
        Dir::SW,
    ];
    let ghost before = v@;
    assert(before == all_dirs());
    assert forall|d: Dir| #[trigger] before.contains(d) by {
        match d {
            Dir::North => assert(before[0] == d),
            Dir::South => assert(before[1] == d),
            Dir::East => assert(before[2] == d),
            Dir::West => assert(before[3] == d),
            Dir::NE => assert(before[4] == d),
            Dir::NW => assert(before[5] == d),
            Dir::SE => assert(before[6] == d),
            Dir::SW => assert(before[7] == d),
        }
    }
    shuffle(&mut v, rng);
    proof {
        v@.to_multiset_ensures();
        before.to_multiset_ensures();
    }
    assert forall|d: Dir| #[trigger] v@.contains(d) by {
        assert(v@.to_multiset().count(d) == before.to_multiset().count(d));
        assert(before.contains(d));
    }
    v
}

} // verus!
