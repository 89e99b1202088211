//! How vectors are compared, and which are the nearest.
use crate::engine::util::float;
use vstd::prelude::*;

verus! {

/// The measure by which two vectors are compared.
#[derive(Clone, Copy, PartialEq, Eq, Structural, Debug)]
pub enum DistanceMetric {
    /// Euclidean distance.
    L2,
    /// One minus the cosine similarity.
    Cosine,
    /// The negated dot product.
    DotProduct,
}

impl Default for DistanceMetric {
    fn default() -> (r: Self)
        ensures
            r == DistanceMetric::L2,
    {
        DistanceMetric::L2
    }
}

/// The first of some vectors with their distances, the nearest first, with one more
/// put in behind those that are not farther away.
pub open spec fn put_in(near: Seq<(usize, u32)>, item: (usize, u32)) -> Seq<(usize, u32)>
    decreases near.len(),
{
    if near.len() > 0 && float::less(item.1, near.last().1) {
        put_in(near.drop_last(), item).push(near.last())
    } else {
        near.push(item)
    }
}

/// At most `k` of some vectors.
pub open spec fn cut(near: Seq<(usize, u32)>, k: usize) -> Seq<(usize, u32)> {
    if near.len() > k {
        near.take(k as int)
    } else {
        near
    }
}

/// The places and distances of the `k` nearest of some vectors, whose distances are
/// given.
pub open spec fn nearest_of(distances: Seq<u32>, k: usize) -> Seq<(usize, u32)>
    decreases distances.len(),
{
    if distances.len() == 0 {
        Seq::empty()
    } else {
        let place = (distances.len() - 1) as usize;
        cut(put_in(nearest_of(distances.drop_last(), k), (place, distances.last())), k)
    }
}

/// Where a vector is put in.
proof fn lemma_put_in(near: Seq<(usize, u32)>, item: (usize, u32), pos: int)
    requires
        0 <= pos <= near.len(),
        pos > 0 ==> !float::less(item.1, near[pos - 1].1),
        forall|i: int| pos <= i < near.len() ==> float::less(item.1, (#[trigger] near[i]).1),
    ensures
        put_in(near, item) == near.insert(pos, item),
    decreases near.len(),
{
    if pos < near.len() {
        let init = near.drop_last();
        assert(float::less(item.1, near[near.len() - 1].1));
        lemma_put_in(init, item, pos);
        assert(near.insert(pos, item) =~= init.insert(pos, item).push(near.last()));
    } else {
        assert(near.insert(pos, item) =~= near.push(item));
    }
}

/// The places and distances of the `k` nearest of some vectors, the nearest first.
pub fn brute_force_knn(distances: &Vec<u32>, k: usize) -> (r: Vec<(usize, u32)>)
    ensures
        r@ == nearest_of(distances@, k),
{
    let mut near: Vec<(usize, u32)> = Vec::new();
    let mut n: usize = 0;
    assert(near@ =~= nearest_of(distances@.take(0), k));
    while n < distances.len()
        invariant
            n <= distances@.len(),
            near@ == nearest_of(distances@.take(n as int), k),
            near@.len() <= k,
        decreases distances@.len() - n,
    {
        let item: (usize, u32) = (n, distances[n]);
        let ghost before = near@;
        let mut pos: usize = near.len();
        while pos > 0 && float::lt(item.1, near[pos - 1].1)
            invariant
                pos <= near@.len(),
                forall|i: int|
                    pos <= i < near@.len() ==> float::less(item.1, (#[trigger] near@[i]).1),
            decreases pos,
        {
            pos = pos - 1;
        }
        proof {
            lemma_put_in(before, item, pos as int);
            let longer = distances@.take(n + 1);
            assert(longer.drop_last() =~= distances@.take(n as int));
            assert(longer.last() == distances@[n as int]);
        }
        near.insert(pos, item);
        if near.len() > k {
            let ghost all = near@;
            near.pop();
            assert(near@ =~= all.take(k as int));
        }
        n = n + 1;
    }
    assert(distances@.take(n as int) =~= distances@);
    near
}

/// Whether no vector is farther away than one behind it.
pub open spec fn nearest_first(near: Seq<(usize, u32)>) -> bool {
    forall|i: int, j: int|
        0 <= i < j < near.len() ==> !float::less((#[trigger] near[j]).1, (#[trigger] near[i]).1)
}

/// Whether all are vectors of those that are given, and none is named twice.
pub open spec fn are_places(near: Seq<(usize, u32)>, distances: Seq<u32>) -> bool {
    &&& forall|i: int|
        0 <= i < near.len() ==> (#[trigger] near[i]).0 < distances.len() && near[i].1
            == distances[near[i].0 as int]
    &&& forall|i: int, j: int|
        0 <= i < j < near.len() ==> (#[trigger] near[i]).0 != (#[trigger] near[j]).0
}

/// Whether a vector is among the nearest.
pub open spec fn is_near(near: Seq<(usize, u32)>, place: int) -> bool {
    exists|i: int| 0 <= i < near.len() && (#[trigger] near[i]).0 == place
}

/// Whether no vector that is left out is nearer than one that is not.
pub open spec fn none_nearer(near: Seq<(usize, u32)>, distances: Seq<u32>) -> bool {
    forall|place: int, i: int|
        #![trigger distances[place], near[i]]
        0 <= place < distances.len() && !is_near(near, place) && 0 <= i < near.len()
            ==> !float::less(distances[place], near[i].1)
}

/// Whether all distances are numbers.
pub open spec fn all_numbers(distances: Seq<u32>) -> bool {
    forall|i: int| 0 <= i < distances.len() ==> !float::is_nan(#[trigger] distances[i])
}

/// There is a place where a vector is put in.
proof fn lemma_some_place(near: Seq<(usize, u32)>, item: (usize, u32)) -> (pos: int)
    requires
        nearest_first(near),
        forall|i: int| 0 <= i < near.len() ==> !float::is_nan((#[trigger] near[i]).1),
        !float::is_nan(item.1),
    ensures
        0 <= pos <= near.len(),
        pos > 0 ==> !float::less(item.1, near[pos - 1].1),
        forall|i: int| pos <= i < near.len() ==> float::less(item.1, (#[trigger] near[i]).1),
        forall|i: int| 0 <= i < pos ==> !float::less(item.1, (#[trigger] near[i]).1),
    decreases near.len(),
{
    if near.len() == 0 || !float::less(item.1, near.last().1) {
        let n = near.len() as int;
        assert forall|i: int| 0 <= i < n implies !float::less(item.1, (#[trigger] near[i]).1) by {
            if i < n - 1 {
                assert(!float::less(near[n - 1].1, near[i].1));
            }
        }
        n
    } else {
        let init = near.drop_last();
        assert forall|i: int, j: int| 0 <= i < j < init.len() implies !float::less(
            (#[trigger] init[j]).1,
            (#[trigger] init[i]).1,
        ) by {
            assert(init[i] == near[i] && init[j] == near[j]);
        }
        assert forall|i: int| 0 <= i < init.len() implies !float::is_nan((#[trigger] init[i]).1) by {
            assert(init[i] == near[i]);
        }
        let pos = lemma_some_place(init, item);
        assert forall|i: int| pos <= i < near.len() implies float::less(
            item.1,
            (#[trigger] near[i]).1,
        ) by {
            if i < init.len() {
                assert(init[i] == near[i]);
            }
        }
        assert forall|i: int| 0 <= i < pos implies !float::less(item.1, (#[trigger] near[i]).1) by {
            assert(init[i] == near[i]);
        }
        pos
    }
}

/// Of vectors whose distances are numbers the nearest are found: as many as asked
/// for, as far as there are so many, the nearest first, and no other one is nearer.
pub proof fn law_nearest(distances: Seq<u32>, k: usize)
    requires
        distances.len() <= usize::MAX,
        all_numbers(distances),
    ensures
        ({
            let near = nearest_of(distances, k);
            &&& near.len() == (if distances.len() < k {
                distances.len()
            } else {
                k as nat
            })
            &&& nearest_first(near)
            &&& are_places(near, distances)
            &&& none_nearer(near, distances)
            &&& distances.len() <= k ==> forall|place: int|
                0 <= place < distances.len() ==> #[trigger] is_near(near, place)
        }),
    decreases distances.len(),
{
    if distances.len() > 0 {
        let init = distances.drop_last();
        let n = init.len() as int;
        assert forall|i: int| 0 <= i < init.len() implies !float::is_nan(#[trigger] init[i]) by {
            assert(init[i] == distances[i]);
        }
        law_nearest(init, k);
        let near = nearest_of(init, k);
        let item = (n as usize, distances.last());
        assert forall|i: int| 0 <= i < near.len() implies !float::is_nan((#[trigger] near[i]).1) by {
            assert(!float::is_nan(init[near[i].0 as int]));
        }
        assert(!float::is_nan(distances[n]));
        let pos = lemma_some_place(near, item);
        lemma_put_in(near, item, pos);
        assert(distances =~= init.push(item.1));
        lemma_nearest_step(init, distances, near, item, pos, k);
    }
}

/// Putting one more vector in keeps what holds of the nearest.
#[verifier::spinoff_prover]
proof fn lemma_nearest_step(
    init: Seq<u32>,
    distances: Seq<u32>,
    near: Seq<(usize, u32)>,
    item: (usize, u32),
    pos: int,
    k: usize,
)
    requires
        distances.len() <= usize::MAX,
        distances == init.push(item.1),
        item.0 == init.len(),
        all_numbers(distances),
        nearest_first(near),
        are_places(near, init),
        none_nearer(near, init),
        near.len() == (if init.len() < k {
            init.len()
        } else {
            k as nat
        }),
        init.len() <= k ==> forall|place: int|
            0 <= place < init.len() ==> #[trigger] is_near(near, place),
        0 <= pos <= near.len(),
        forall|i: int| pos <= i < near.len() ==> float::less(item.1, (#[trigger] near[i]).1),
        forall|i: int| 0 <= i < pos ==> !float::less(item.1, (#[trigger] near[i]).1),
    ensures
        ({
            let after = cut(near.insert(pos, item), k);
            &&& after.len() == (if distances.len() < k {
                distances.len()
            } else {
                k as nat
            })
            &&& nearest_first(after)
            &&& are_places(after, distances)
            &&& none_nearer(after, distances)
            &&& distances.len() <= k ==> forall|place: int|
                0 <= place < distances.len() ==> #[trigger] is_near(after, place)
        }),
{
    let all = near.insert(pos, item);
    let after = cut(all, k);
    let n = init.len() as int;
    let from = |i: int|
        if i < pos {
            i
        } else {
            i - 1
        };
    assert forall|i: int| 0 <= i < all.len() implies (#[trigger] all[i]) == (if i == pos {
        item
    } else {
        near[from(i)]
    }) by {}
    assert forall|i: int, j: int| 0 <= i < j < all.len() implies !float::less(
        (#[trigger] all[j]).1,
        (#[trigger] all[i]).1,
    ) by {
        if i != pos && j != pos {
            assert(!float::less(near[from(j)].1, near[from(i)].1));
        } else if i == pos {
            assert(float::less(item.1, near[from(j)].1));
        } else {
            assert(!float::less(item.1, near[from(i)].1));
        }
    }
    assert(nearest_first(after));
    assert(are_places(all, distances)) by {
        assert forall|i: int| 0 <= i < all.len() implies (#[trigger] all[i]).0 < distances.len()
            && all[i].1 == distances[all[i].0 as int] by {
            if i != pos {
                assert(near[from(i)].0 < init.len());
            }
        }
        assert forall|i: int, j: int| 0 <= i < j < all.len() implies (#[trigger] all[i]).0 != (
        #[trigger] all[j]).0 by {
            if i != pos && j != pos {
                assert(near[from(i)].0 != near[from(j)].0);
            } else if i == pos {
                assert(near[from(j)].0 < init.len());
            } else {
                assert(near[from(i)].0 < init.len());
            }
        }
    }
    assert forall|place: int, i: int|
        #![trigger distances[place], after[i]]
        0 <= place < distances.len() && !is_near(after, place) && 0 <= i < after.len() implies !float::less(
        distances[place],
        after[i].1,
    ) by {
        assert(after[i] == all[i]);
        let last = all.len() - 1;
        if is_near(all, place) {
            let j = choose|j: int| 0 <= j < all.len() && (#[trigger] all[j]).0 == place;
            if j < after.len() {
                assert(after[j].0 == place);
            }
            assert(j >= after.len());
            assert(!float::less(all[j].1, all[i].1));
        } else {
            assert(place < n) by {
                assert(all[pos].0 == n);
            }
            assert(!is_near(near, place)) by {
                if is_near(near, place) {
                    let j = choose|j: int| 0 <= j < near.len() && (#[trigger] near[j]).0 == place;
                    let q = if j < pos {
                        j
                    } else {
                        j + 1
                    };
                    assert(all[q] == near[j]);
                }
            }
            assert(init[place] == distances[place]);
            assert(n > k);
            if i == pos {
                // Something was pushed out, so the new vector is nearer than one that
                // was no farther away than those left out before.
                assert(pos < near.len());
                assert(float::less(item.1, near[pos].1));
                assert(!float::less(init[place], near[pos].1));
            } else {
                assert(!float::less(init[place], near[from(i)].1));
            }
        }
    }
    if distances.len() <= k {
        assert forall|place: int| 0 <= place < distances.len() implies #[trigger] is_near(
            after,
            place,
        ) by {
            if place == n {
                assert(after[pos].0 == place);
            } else {
                assert(is_near(near, place));
                let j = choose|j: int| 0 <= j < near.len() && (#[trigger] near[j]).0 == place;
                let q = if j < pos {
                    j
                } else {
                    j + 1
                };
                assert(after[q] == near[j]);
            }
        }
    }
}

} // verus!
