//! A scene: the things a ray can meet, asked one after another.

use vstd::prelude::*;
use crate::ray::{HitRecord, Hittable, Ray};
use crate::scalar::Scalar;

verus! {

/// An ordered collection of things to hit. The order decides nothing but
/// which of two hits at exactly the same distance is reported.
pub struct Scene<H: Hittable> {
    pub objects: Vec<H>,
}

/// The far end of the interval in which the next object is asked: the
/// distance of the hit found so far, or `t_max` where there is none.
pub open spec fn closest_so_far(found: Option<HitRecord>, t_max: Scalar) -> Scalar {
    match found {
        Some(h) => h.t,
        None => t_max,
    }
}

/// What asking `objects` one after another finds: each object is asked for a
/// hit no farther than the nearest one found before it, and a hit that it
/// reports replaces that one.
pub open spec fn hit_among<H: Hittable>(objects: Seq<H>, ray: Ray, t_min: Scalar, t_max: Scalar) -> Option<
    HitRecord,
>
    decreases objects.len(),
{
    if objects.len() == 0 {
        None
    } else {
        let before = hit_among(objects.drop_last(), ray, t_min, t_max);
        match objects.last().spec_hit(ray, t_min, closest_so_far(before, t_max)) {
            Some(h) => Some(h),
            None => before,
        }
    }
}

/// What `hit_among` finds lies in the interval asked for, and asking for less
/// of the ray finds the same hit or, where that hit lies beyond the cut, none.
pub proof fn lemma_hit_among_window<H: Hittable>(
    objects: Seq<H>,
    ray: Ray,
    t_min: Scalar,
    t_max: Scalar,
    t_cut: Scalar,
)
    requires
        t_cut.raw <= t_max.raw,
    ensures
        hit_among(objects, ray, t_min, t_max) matches Some(h) ==> t_min.raw < h.t.raw
            <= t_max.raw,
        hit_among(objects, ray, t_min, t_cut) == (match hit_among(objects, ray, t_min, t_max) {
            Some(h) => if h.t.raw <= t_cut.raw {
                Some(h)
            } else {
                None
            },
            None => None,
        }),
    decreases objects.len(),
{
    if objects.len() > 0 {
        let rest = objects.drop_last();
        let last = objects.last();
        lemma_hit_among_window(rest, ray, t_min, t_max, t_cut);
        let before_max = hit_among(rest, ray, t_min, t_max);
        let before_cut = hit_among(rest, ray, t_min, t_cut);
        let far_max = closest_so_far(before_max, t_max);
        let far_cut = closest_so_far(before_cut, t_cut);
        last.lemma_hit_window(ray, t_min, far_max, far_max);
        if far_cut.raw <= far_max.raw {
            last.lemma_hit_window(ray, t_min, far_max, far_cut);
        }
        last.lemma_hit_window(ray, t_min, far_cut, far_cut);
    }
}

/// The hit that `hit_among` finds is the nearest of all: it is one object's
/// own hit in the whole interval, no object has a nearer one, and there is
/// none only where no object has any.
pub proof fn lemma_hit_among_nearest<H: Hittable>(
    objects: Seq<H>,
    ray: Ray,
    t_min: Scalar,
    t_max: Scalar,
)
    ensures
        hit_among(objects, ray, t_min, t_max) matches Some(h) ==> exists|i: int|
            0 <= i < objects.len() && #[trigger] objects[i].spec_hit(ray, t_min, t_max) == Some(
                h,
            ),
        forall|i: int|
            0 <= i < objects.len() && (#[trigger] objects[i].spec_hit(ray, t_min, t_max)) is Some
                ==> hit_among(objects, ray, t_min, t_max) is Some && hit_among(
                objects,
                ray,
                t_min,
                t_max,
            )->0.t.raw <= objects[i].spec_hit(ray, t_min, t_max)->0.t.raw,
    decreases objects.len(),
{
    if objects.len() > 0 {
        let rest = objects.drop_last();
        let last = objects.last();
        lemma_hit_among_nearest(rest, ray, t_min, t_max);
        lemma_hit_among_window(rest, ray, t_min, t_max, t_max);
        let before = hit_among(rest, ray, t_min, t_max);
        let far = closest_so_far(before, t_max);
        let found = hit_among(objects, ray, t_min, t_max);
        last.lemma_hit_window(ray, t_min, t_max, far);
        last.lemma_hit_window(ray, t_min, far, far);
        assert(objects[objects.len() - 1] == last);
        assert forall|i: int|
            0 <= i < objects.len() && (#[trigger] objects[i].spec_hit(
                ray,
                t_min,
                t_max,
            )) is Some implies found is Some && found->0.t.raw <= objects[i].spec_hit(
            ray,
            t_min,
            t_max,
        )->0.t.raw by {
            if i < objects.len() - 1 {
                assert(rest[i] == objects[i]);
            }
        }
        if found is Some {
            let h = found->0;
            if last.spec_hit(ray, t_min, far) is Some {
                assert(objects[objects.len() - 1].spec_hit(ray, t_min, t_max) == Some(h));
            } else {
                let i = choose|i: int|
                    0 <= i < rest.len() && #[trigger] rest[i].spec_hit(ray, t_min, t_max) == Some(
                        h,
                    );
                assert(rest[i] == objects[i]);
                assert(objects[i].spec_hit(ray, t_min, t_max) == Some(h));
            }
        }
    }
}

/// Two collections of the same objects find their nearest hit at the same
/// distance, in whatever order each holds them.
pub proof fn lemma_hit_among_any_order<H: Hittable>(
    a: Seq<H>,
    b: Seq<H>,
    ray: Ray,
    t_min: Scalar,
    t_max: Scalar,
)
    requires
        forall|i: int| 0 <= i < a.len() ==> b.contains(#[trigger] a[i]),
        forall|j: int| 0 <= j < b.len() ==> a.contains(#[trigger] b[j]),
    ensures
        hit_among(a, ray, t_min, t_max) is None <==> hit_among(b, ray, t_min, t_max) is None,
        hit_among(a, ray, t_min, t_max) matches Some(g) ==> hit_among(
            b,
            ray,
            t_min,
            t_max,
        ) matches Some(h) && h.t == g.t,
{
    lemma_hit_among_nearest(a, ray, t_min, t_max);
    lemma_hit_among_nearest(b, ray, t_min, t_max);
    let found_a = hit_among(a, ray, t_min, t_max);
    let found_b = hit_among(b, ray, t_min, t_max);
    if found_a is Some {
        let g = found_a->0;
        let i = choose|i: int|
            0 <= i < a.len() && #[trigger] a[i].spec_hit(ray, t_min, t_max) == Some(g);
        assert(b.contains(a[i]));
        let j = choose|j: int| 0 <= j < b.len() && b[j] == a[i];
        assert(b[j].spec_hit(ray, t_min, t_max) == Some(g));
    }
    if found_b is Some {
        let h = found_b->0;
        let j = choose|j: int|
            0 <= j < b.len() && #[trigger] b[j].spec_hit(ray, t_min, t_max) == Some(h);
        assert(a.contains(b[j]));
        let i = choose|i: int| 0 <= i < a.len() && a[i] == b[j];
        assert(a[i].spec_hit(ray, t_min, t_max) == Some(h));
    }
}

impl<H: Hittable> Scene<H> {
    /// A scene with nothing in it.
    pub fn new() -> (r: Scene<H>)
        ensures
            r.objects@.len() == 0,
    {
        Scene { objects: Vec::new() }
    }

    /// Puts `o` behind everything that is in the scene.
    pub fn add(&mut self, o: H)
        ensures
            final(self).objects@ == old(self).objects@.push(o),
    {
        self.objects.push(o)
    }
}

impl<H: Hittable> Hittable for Scene<H> {
    /// What asking the objects of the scene one after another finds.
    open spec fn spec_hit(&self, ray: Ray, t_min: Scalar, t_max: Scalar) -> Option<HitRecord> {
        hit_among(self.objects@, ray, t_min, t_max)
    }

    /// Holds because it holds of every object in the scene.
    proof fn lemma_hit_window(&self, ray: Ray, t_min: Scalar, t_max: Scalar, t_cut: Scalar) {
        lemma_hit_among_window(self.objects@, ray, t_min, t_max, t_cut);
    }

    /// The nearest hit among the objects of the scene: one object's own hit
    /// in the whole interval, and none of the others has a nearer one.
    fn hit(&self, ray: &Ray, t_min: Scalar, t_max: Scalar) -> (r: Option<HitRecord>)
        ensures
            r matches Some(h) ==> exists|i: int|
                0 <= i < self.objects@.len() && #[trigger] self.objects@[i].spec_hit(
                    *ray,
                    t_min,
                    t_max,
                ) == Some(h),
            forall|i: int|
                0 <= i < self.objects@.len() && (#[trigger] self.objects@[i].spec_hit(
                    *ray,
                    t_min,
                    t_max,
                )) is Some ==> r is Some && r->0.t.raw <= self.objects@[i].spec_hit(
                    *ray,
                    t_min,
                    t_max,
                )->0.t.raw,
    {
        let mut hit_record: Option<HitRecord> = None;
        let mut closest: Scalar = t_max;
        let mut i: usize = 0;
        while i < self.objects.len()
            invariant
                i <= self.objects@.len(),
                hit_record == hit_among(self.objects@.take(i as int), *ray, t_min, t_max),
                closest == closest_so_far(hit_record, t_max),
            decreases self.objects@.len() - i,
        {
            proof {
                let upto = self.objects@.take(i as int + 1);
                assert(upto.drop_last() =~= self.objects@.take(i as int));
                assert(upto.last() == self.objects@[i as int]);
            }
            match self.objects[i].hit(ray, t_min, closest) {
                Some(hr) => {
                    closest = hr.t();
                    hit_record = Some(hr);
                },
                None => (),
            }
            i += 1;
        }
        proof {
            assert(self.objects@.take(i as int) =~= self.objects@);
            lemma_hit_among_nearest(self.objects@, *ray, t_min, t_max);
        }
        hit_record
    }
}

} // verus!
