//! Identity tokens, the extremes of coordinates, and facts about sequences
//! that the other modules share.

use super::cell::coordinates;
use super::error::TriangulationError;
use super::vertex::Vertex;
use std::collections::HashMap;
use vstd::prelude::*;

verus! {

/// `id` has the version and variant bits of a random UUID: version 4 in
/// bits 76 to 79, and the two bits `10` of the variant in bits 62 and 63.
pub open spec fn is_random_uuid(id: u128) -> bool {
    id & 0xF000_C000_0000_0000_0000u128 == 0x4000_8000_0000_0000_0000u128
}

/// The 128 bits of a random version 4 UUID, from `uuid::Uuid::new_v4` and
/// `Uuid::as_u128`. The value is random, so nothing is claimed of it but
/// the version and variant bits that every such UUID carries. The call
/// stops the program where the system has no random bytes to give.
#[verifier::external_body]
pub(crate) fn make_uuid() -> (id: u128)
    ensures
        is_random_uuid(id),
{
    uuid::Uuid::new_v4().as_u128()
}

/// The `k`-th candidate when probing upwards from `start`, wrapping round
/// at the end of the 128-bit range.
pub open spec fn probe(start: u128, k: int) -> int {
    if start + k <= u128::MAX {
        start + k
    } else {
        start + k - u128::MAX - 1
    }
}

/// An identity token that is not a key of `taken`: a random one where that
/// is free, else the next free one above it.
pub fn fresh_uuid<T>(taken: &HashMap<u128, T>) -> (id: u128)
    ensures
        !taken@.contains_key(id),
{
    broadcast use vstd::std_specs::hash::group_hash_axioms;

    let count: usize = taken.len();
    let start: u128 = make_uuid();
    let mut id: u128 = start;
    let mut tries: usize = 0;
    let ghost mut probed: Seq<u128> = Seq::empty();
    while taken.contains_key(&id)
        invariant
            probed.len() == tries,
            probed.no_duplicates(),
            forall|j: int| 0 <= j < tries ==> #[trigger] probed[j] == probe(start, j),
            forall|j: int| 0 <= j < tries ==> taken@.contains_key(#[trigger] probed[j]),
            id == probe(start, tries as int),
            tries <= count,
            count == taken@.dom().len(),
        decreases count - tries,
    {
        proof {
            let longer = probed.push(id);
            assert(longer.no_duplicates());
            longer.unique_seq_to_set();
            assert(longer.to_set().subset_of(taken@.dom())) by {
                assert forall|x: u128| longer.to_set().contains(x) implies taken@.dom().contains(
                    x,
                ) by {
                    let j = choose|j: int| 0 <= j < longer.len() && longer[j] == x;
                    if j < tries {
                        assert(taken@.contains_key(probed[j]));
                    }
                }
            }
            vstd::set_lib::lemma_len_subset(longer.to_set(), taken@.dom());
            probed = longer;
        }
        id = if id == u128::MAX { 0 } else { id + 1 };
        tries = tries + 1;
    }
    id
}

/// Filtering one element more keeps what was kept before, and the new
/// element where it passes.
pub proof fn lemma_filter_step<A>(s: Seq<A>, pred: spec_fn(A) -> bool, i: int)
    requires
        0 <= i < s.len(),
    ensures
        s.take(i + 1).filter(pred) == if pred(s[i]) {
            s.take(i).filter(pred).push(s[i])
        } else {
            s.take(i).filter(pred)
        },
{
    reveal(Seq::filter);
    assert(s.take(i + 1).drop_last() =~= s.take(i));
}

/// Filtering nothing keeps nothing.
pub proof fn lemma_filter_none<A>(s: Seq<A>, pred: spec_fn(A) -> bool)
    ensures
        s.take(0).filter(pred) == Seq::<A>::empty(),
{
    reveal(Seq::filter);
}

/// The least index below `n` that passes `pred`, if there is one.
pub open spec fn first_such(pred: spec_fn(int) -> bool, n: nat) -> Option<int>
    decreases n,
{
    if n == 0 {
        None
    } else {
        match first_such(pred, (n - 1) as nat) {
            Some(b) => Some(b),
            None => if pred(n - 1) {
                Some(n - 1)
            } else {
                None
            },
        }
    }
}

/// What `first_such` finds passes and is the least index that does; where
/// it finds nothing, no index below `n` passes.
pub proof fn lemma_first_such(pred: spec_fn(int) -> bool, n: nat)
    ensures
        match first_such(pred, n) {
            Some(b) => 0 <= b < n && pred(b) && forall|c: int| 0 <= c < b ==> !#[trigger] pred(c),
            None => forall|c: int| 0 <= c < n ==> !#[trigger] pred(c),
        },
    decreases n,
{
    if n > 0 {
        lemma_first_such(pred, (n - 1) as nat);
    }
}

/// What was found below `n` is what is found below any `m >= n`.
pub proof fn lemma_first_such_stays(pred: spec_fn(int) -> bool, n: nat, m: nat)
    requires
        first_such(pred, n) is Some,
        m >= n,
    ensures
        first_such(pred, m) == first_such(pred, n),
    decreases m - n,
{
    if m > n {
        lemma_first_such_stays(pred, n, (m - 1) as nat);
    }
}

/// The least coordinate on axis `k` among `points`, of which there is at
/// least one.
pub open spec fn lowest(points: Seq<Seq<int>>, k: int) -> int
    recommends
        points.len() > 0,
    decreases points.len(),
{
    if points.len() <= 1 {
        points[0][k]
    } else {
        let rest = lowest(points.drop_last(), k);
        if points.last()[k] < rest {
            points.last()[k]
        } else {
            rest
        }
    }
}

/// The greatest coordinate on axis `k` among `points`, of which there is
/// at least one.
pub open spec fn highest(points: Seq<Seq<int>>, k: int) -> int
    recommends
        points.len() > 0,
    decreases points.len(),
{
    if points.len() <= 1 {
        points[0][k]
    } else {
        let rest = highest(points.drop_last(), k);
        if points.last()[k] > rest {
            points.last()[k]
        } else {
            rest
        }
    }
}

/// The extremes bound every point, and each is the coordinate of a point.
pub proof fn lemma_extremes(points: Seq<Seq<int>>, k: int)
    requires
        points.len() > 0,
    ensures
        forall|i: int|
            0 <= i < points.len() ==> lowest(points, k) <= (#[trigger] points[i])[k] <= highest(
                points,
                k,
            ),
        exists|i: int| 0 <= i < points.len() && (#[trigger] points[i])[k] == lowest(points, k),
        exists|i: int| 0 <= i < points.len() && (#[trigger] points[i])[k] == highest(points, k),
    decreases points.len(),
{
    if points.len() <= 1 {
        assert(points[0][k] == lowest(points, k));
        assert(points[0][k] == highest(points, k));
    } else {
        let front = points.drop_last();
        lemma_extremes(front, k);
        assert forall|i: int| 0 <= i < points.len() implies lowest(points, k) <= (
        #[trigger] points[i])[k] <= highest(points, k) by {
            if i < front.len() {
                assert(front[i] == points[i]);
            }
        }
        let a = choose|i: int| 0 <= i < front.len() && (#[trigger] front[i])[k] == lowest(front, k);
        assert(points[a] == front[a]);
        let last = points.len() - 1;
        if points.last()[k] < lowest(front, k) {
            assert(points[last][k] == lowest(points, k));
        } else {
            assert(points[a][k] == lowest(points, k));
        }
        let b = choose|i: int|
            0 <= i < front.len() && (#[trigger] front[i])[k] == highest(front, k);
        assert(points[b] == front[b]);
        if points.last()[k] > highest(front, k) {
            assert(points[last][k] == highest(points, k));
        } else {
            assert(points[b][k] == highest(points, k));
        }
    }
}

/// On each axis the least coordinate among the vertices or, where
/// `greatest` is set, the greatest. An empty list has no extremes.
pub fn find_extreme_coordinates<U: Copy, const D: usize>(
    vertices: &Vec<Vertex<U, D>>,
    greatest: bool,
) -> (extremes: Result<[i64; D], TriangulationError>)
    ensures
        vertices.len() == 0 ==> extremes == Err::<[i64; D], TriangulationError>(
            TriangulationError::DegenerateInput,
        ),
        vertices.len() > 0 ==> extremes is Ok && forall|k: int|
            0 <= k < D ==> #[trigger] extremes.unwrap()[k] == if greatest {
                highest(coordinates(vertices@), k)
            } else {
                lowest(coordinates(vertices@), k)
            },
{
    if vertices.len() == 0 {
        return Err(TriangulationError::DegenerateInput);
    }
    let ghost points = coordinates(vertices@);
    let mut extremes: [i64; D] = vertices[0].point.coords;
    let mut i: usize = 1;
    assert(points.take(1).len() == 1);
    while i < vertices.len()
        invariant
            points == coordinates(vertices@),
            1 <= i <= vertices.len(),
            forall|k: int|
                0 <= k < D ==> #[trigger] extremes[k] == if greatest {
                    highest(points.take(i as int), k)
                } else {
                    lowest(points.take(i as int), k)
                },
        decreases vertices.len() - i,
    {
        let ghost before = extremes;
        let mut k: usize = 0;
        assert(points.take(i + 1).drop_last() =~= points.take(i as int));
        assert(points.take(i + 1).last() == points[i as int]);
        while k < D
            invariant
                points == coordinates(vertices@),
                1 <= i < vertices.len(),
                k <= D,
                points.take(i + 1).drop_last() == points.take(i as int),
                points.take(i + 1).last() == points[i as int],
                forall|c: int|
                    0 <= c < D ==> #[trigger] before[c] == if greatest {
                        highest(points.take(i as int), c)
                    } else {
                        lowest(points.take(i as int), c)
                    },
                forall|c: int| k <= c < D ==> #[trigger] extremes[c] == before[c],
                forall|c: int|
                    0 <= c < k ==> #[trigger] extremes[c] == if greatest {
                        highest(points.take(i + 1), c)
                    } else {
                        lowest(points.take(i + 1), c)
                    },
            decreases D - k,
        {
            let x: i64 = vertices[i].point.coords[k];
            assert(x == points[i as int][k as int]);
            let replace: bool = if greatest {
                x > extremes[k]
            } else {
                x < extremes[k]
            };
            if replace {
                extremes[k] = x;
            }
            k += 1;
        }
        i += 1;
    }
    assert(points.take(i as int) =~= points);
    Ok(extremes)
}

} // verus!
