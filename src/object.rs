use vstd::prelude::*;
use crate::hit::{Hit, nearest, nearest_spec, is_nearest};

verus! {

/// Something in the world that a ray can hit.
///
/// `R` is the ray type and `S` what a hit reports of the surface. An object
/// answers a ray with no hit, or with the single closest hit in front of the
/// ray's origin; `hit_of` names that answer, which depends on the object and
/// the ray alone.
pub trait WorldObject<R, S> {
    /// The object's answer to `ray`: what `intersect` returns. An
    /// implementation outside verified code gives it by calling `intersect`.
    spec fn hit_of(&self, ray: &R) -> Option<Hit<S>>;

    fn intersect(&self, ray: &R) -> (r: Option<Hit<S>>)
        ensures
            r == self.hit_of(ray),
    ;
}

/// The candidates of a closest-hit query: each object's answer in order, then
/// the ground plane's.
pub open spec fn candidates<R, S, O: WorldObject<R, S>>(
    objects: Seq<O>,
    ray: &R,
    ground: Option<Hit<S>>,
) -> Seq<Option<Hit<S>>> {
    Seq::new(objects.len(), |i: int| objects[i].hit_of(ray)).push(ground)
}

/// The closest-hit query: scans every object, then the ground plane's hit
/// `ground` (the plane is not an object; its hit is computed by the caller),
/// and keeps the closest, the first seen among equally close ones.
pub fn nearest_hit<R, S, O: WorldObject<R, S>>(
    objects: &Vec<O>,
    ray: &R,
    ground: Option<Hit<S>>,
) -> (r: Option<Hit<S>>)
    ensures
        nearest_spec(candidates(objects@, ray, ground), r),
{
    let n: usize = objects.len();
    let mut hits: Vec<Option<Hit<S>>> = Vec::new();
    let mut i: usize = 0;
    while i < n
        invariant
            n == objects@.len(),
            i <= n,
            hits@ == Seq::new(i as nat, |j: int| objects@[j].hit_of(ray)),
        decreases n - i,
    {
        let h = objects[i].intersect(ray);
        hits.push(h);
        assert(hits@ =~= Seq::new((i + 1) as nat, |j: int| objects@[j].hit_of(ray)));
        i = i + 1;
    }
    hits.push(ground);
    assert(hits@ =~= candidates(objects@, ray, ground));
    nearest(hits)
}

/// Two objects hit along one ray, and nothing else: the closest-hit query
/// answers with the smaller of the two distances, and with the first object's
/// hit when the two are equally far.
pub proof fn lemma_nearest_of_two_objects<R, S, O: WorldObject<R, S>>(
    objects: Seq<O>,
    ray: &R,
    r: Option<Hit<S>>,
)
    requires
        objects.len() == 2,
        objects[0].hit_of(ray) is Some,
        objects[1].hit_of(ray) is Some,
        nearest_spec(candidates(objects, ray, None), r),
    ensures
        r is Some,
        r->0.depth == if objects[0].hit_of(ray)->0.depth <= objects[1].hit_of(ray)->0.depth {
            objects[0].hit_of(ray)->0.depth
        } else {
            objects[1].hit_of(ray)->0.depth
        },
        objects[0].hit_of(ray)->0.depth <= objects[1].hit_of(ray)->0.depth ==> r
            == objects[0].hit_of(ray),
{
    let c = candidates(objects, ray, None);
    assert(c[0] == objects[0].hit_of(ray));
    assert(c[1] == objects[1].hit_of(ray));
    assert(c[2] is None);
    assert(!(c[0] is None));
    let i = choose|i: int| is_nearest(c, i) && c[i] == r;
    assert(is_nearest(c, i));
    assert(c[0] is Some && c[1] is Some);
}

} // verus!
