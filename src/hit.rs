use vstd::prelude::*;

verus! {

/// One intersection found along a ray.
///
/// `depth` is the hit's distance along the ray as an order key: of two hits,
/// the one with the smaller key lies closer to the ray's origin. `surface`
/// carries whatever the shading needs of the hit (point, normal).
pub struct Hit<S> {
    pub depth: u64,
    pub surface: S,
}

/// `hits[i]` is the closest hit among `hits`, and the first one at that
/// distance: a later hit replaces the current best only when strictly closer.
pub open spec fn is_nearest<S>(hits: Seq<Option<Hit<S>>>, i: int) -> bool {
    &&& 0 <= i < hits.len()
    &&& hits[i] is Some
    &&& forall|j: int|
        0 <= j < hits.len() && #[trigger] hits[j] is Some ==> hits[i]->0.depth <= hits[j]->0.depth
    &&& forall|j: int|
        0 <= j < i && #[trigger] hits[j] is Some ==> hits[i]->0.depth < hits[j]->0.depth
}

/// No candidate hit anything.
pub open spec fn all_missed<S>(hits: Seq<Option<Hit<S>>>) -> bool {
    forall|j: int| 0 <= j < hits.len() ==> #[trigger] hits[j] is None
}

/// What the closest-hit query answers for the candidates `hits`, in scan order.
pub open spec fn nearest_spec<S>(hits: Seq<Option<Hit<S>>>, r: Option<Hit<S>>) -> bool {
    &&& (r is None <==> all_missed(hits))
    &&& (r is Some ==> exists|i: int| is_nearest(hits, i) && hits[i] == r)
}

/// At most one candidate is the nearest.
pub proof fn lemma_nearest_unique<S>(hits: Seq<Option<Hit<S>>>, i: int, j: int)
    requires
        is_nearest(hits, i),
        is_nearest(hits, j),
    ensures
        i == j,
{
    if i < j {
        assert(hits[i] is Some);
    } else if j < i {
        assert(hits[j] is Some);
    }
}

/// Picks the closest of the candidate hits, scanning in order: the first hit
/// seeds the best, and each later one replaces it only when strictly closer,
/// so of equally close hits the first one seen wins. `None` when all missed.
pub fn nearest<S>(hits: Vec<Option<Hit<S>>>) -> (r: Option<Hit<S>>)
    ensures
        nearest_spec(hits@, r),
{
    let n: usize = hits.len();
    let mut best: Option<usize> = None;
    let mut i: usize = 0;
    while i < n
        invariant
            n == hits@.len(),
            i <= n,
            best is None ==> forall|j: int| 0 <= j < i ==> #[trigger] hits@[j] is None,
            best is Some ==> {
                let b = best->0 as int;
                &&& b < i
                &&& hits@[b] is Some
                &&& forall|j: int|
                    0 <= j < i && #[trigger] hits@[j] is Some ==> hits@[b]->0.depth
                        <= hits@[j]->0.depth
                &&& forall|j: int|
                    0 <= j < b && #[trigger] hits@[j] is Some ==> hits@[b]->0.depth
                        < hits@[j]->0.depth
            },
        decreases n - i,
    {
        match &hits[i] {
            Some(h) => {
                match best {
                    Some(b) => {
                        let closer: bool = match &hits[b] {
                            Some(current) => h.depth < current.depth,
                            None => false,
                        };
                        if closer {
                            best = Some(i);
                        }
                    },
                    None => {
                        best = Some(i);
                    },
                }
            },
            None => {},
        }
        i = i + 1;
    }
    match best {
        Some(b) => {
            assert(is_nearest(hits@, b as int));
            let mut rest = hits;
            rest.swap_remove(b)
        },
        None => None,
    }
}

} // verus!
