use vstd::prelude::*;

use crate::float_bits::{
    float_lt, is_non_negative, is_non_negative_bits, less_than, order_key, total_order_key,
};
use crate::identity::SurfaceId;

verus! {

/// Where a ray meets a surface: the ray parameter `t`, held as the bit
/// pattern of an IEEE 754 single-precision number, and the surface met.
#[derive(Clone, Copy, Debug, PartialEq, Eq, Structural)]
pub struct Intersection {
    pub t_bits: u32,
    pub object: SurfaceId,
}

/// The intersection lies on or ahead of the ray origin.
pub open spec fn is_visible(i: Intersection) -> bool {
    is_non_negative_bits(i.t_bits)
}

/// `xs[i]` is the hit of `xs`: visible, of least `t` among the visible ones,
/// and the first of those with that `t`.
pub open spec fn is_hit_at(xs: Seq<Intersection>, i: int) -> bool {
    &&& 0 <= i < xs.len()
    &&& is_visible(xs[i])
    &&& forall|j: int|
        0 <= j < xs.len() && is_visible(xs[j]) ==> order_key(xs[i].t_bits) <= order_key(
            #[trigger] xs[j].t_bits,
        )
    &&& forall|j: int|
        0 <= j < i && is_visible(xs[j]) ==> order_key(xs[i].t_bits) < order_key(
            #[trigger] xs[j].t_bits,
        )
}

/// Every intersection of `xs` lies behind the ray origin.
pub open spec fn none_visible(xs: Seq<Intersection>) -> bool {
    forall|j: int| 0 <= j < xs.len() ==> !is_visible(#[trigger] xs[j])
}

/// `xs` is in ascending order of `t`.
pub open spec fn is_sorted_by_t(xs: Seq<Intersection>) -> bool {
    forall|a: int, b: int|
        0 <= a < b < xs.len() ==> order_key(#[trigger] xs[a].t_bits) <= order_key(
            #[trigger] xs[b].t_bits,
        )
}

/// An intersection at parameter `t_bits` on surface `object`.
pub fn intersection(t_bits: u32, object: SurfaceId) -> (r: Intersection)
    ensures
        r.t_bits == t_bits,
        r.object == object,
{
    Intersection { t_bits, object }
}

/// Position of the hit of `xs`: the visible intersection of least `t`,
/// the first such when several share it; `None` when every intersection
/// lies behind the ray origin.
pub fn hit_index(xs: &Vec<Intersection>) -> (r: Option<usize>)
    ensures
        match r {
            Some(i) => is_hit_at(xs@, i as int),
            None => none_visible(xs@),
        },
{
    let mut best: Option<usize> = None;
    let mut i: usize = 0;
    while i < xs.len()
        invariant
            i <= xs.len(),
            match best {
                Some(b) => b < i && is_hit_at(xs@.take(i as int), b as int),
                None => none_visible(xs@.take(i as int)),
            },
        decreases xs.len() - i,
    {
        let x = xs[i];
        if is_non_negative(x.t_bits) {
            match best {
                None => {
                    best = Some(i);
                },
                Some(b) => {
                    if total_order_key(x.t_bits) < total_order_key(xs[b].t_bits) {
                        best = Some(i);
                    }
                },
            }
        }
        proof {
            let prev = xs@.take(i as int);
            let next = xs@.take(i as int + 1);
            assert(forall|j: int| 0 <= j < i ==> next[j] == #[trigger] prev[j]);
            assert(next[i as int] == x);
        }
        i = i + 1;
    }
    proof {
        assert(xs@.take(xs@.len() as int) =~= xs@);
    }
    best
}

/// The hit of `xs` (see `hit_index`).
pub fn hit(xs: &Vec<Intersection>) -> (r: Option<Intersection>)
    ensures
        match r {
            Some(h) => exists|i: int| is_hit_at(xs@, i) && xs@[i] == h,
            None => none_visible(xs@),
        },
{
    match hit_index(xs) {
        Some(i) => Some(xs[i]),
        None => None,
    }
}

/// A list of intersections has at most one hit.
pub proof fn lemma_hit_unique(xs: Seq<Intersection>, i: int, j: int)
    requires
        is_hit_at(xs, i),
        is_hit_at(xs, j),
    ensures
        i == j,
{
    if i < j {
        assert(order_key(xs[j].t_bits) < order_key(xs[i].t_bits));
    } else if j < i {
        assert(order_key(xs[i].t_bits) < order_key(xs[j].t_bits));
    }
}

/// The light, `distance_bits` away along the ray, is blocked: the ray's
/// hit lies strictly nearer than the light.
pub open spec fn occluded(xs: Seq<Intersection>, distance_bits: u32) -> bool {
    exists|i: int| is_hit_at(xs, i) && float_lt(xs[i].t_bits, distance_bits)
}

/// Whether the intersections `xs` of a ray from a point toward a light at
/// distance `distance_bits` put that point in shadow.
pub fn is_occluded(xs: &Vec<Intersection>, distance_bits: u32) -> (r: bool)
    ensures
        r == occluded(xs@, distance_bits),
{
    match hit_index(xs) {
        Some(i) => {
            let r = less_than(xs[i].t_bits, distance_bits);
            proof {
                if !r {
                    assert forall|j: int| is_hit_at(xs@, j) implies !float_lt(
                        xs@[j].t_bits,
                        distance_bits,
                    ) by {
                        lemma_hit_unique(xs@, i as int, j);
                    }
                }
            }
            r
        },
        None => false,
    }
}

/// The intersections of `xs` whose `t` has rank `k`, in their order in `xs`.
pub open spec fn with_key(xs: Seq<Intersection>, k: int) -> Seq<Intersection>
    decreases xs.len(),
{
    if xs.len() == 0 {
        Seq::empty()
    } else if order_key(xs.last().t_bits) == k {
        with_key(xs.drop_last(), k).push(xs.last())
    } else {
        with_key(xs.drop_last(), k)
    }
}

proof fn lemma_with_key_add(a: Seq<Intersection>, b: Seq<Intersection>, k: int)
    ensures
        with_key(a + b, k) == with_key(a, k) + with_key(b, k),
    decreases b.len(),
{
    if b.len() == 0 {
        assert(a + b =~= a);
        assert(with_key(a, k) + with_key(b, k) =~= with_key(a, k));
    } else {
        lemma_with_key_add(a, b.drop_last(), k);
        assert((a + b).drop_last() =~= a + b.drop_last());
        assert((a + b).last() == b.last());
        if order_key(b.last().t_bits) == k {
            assert(with_key(a, k) + with_key(b.drop_last(), k).push(b.last()) =~= (with_key(a, k)
                + with_key(b.drop_last(), k)).push(b.last()));
        }
    }
}

proof fn lemma_with_key_none(a: Seq<Intersection>, k: int)
    requires
        forall|j: int| 0 <= j < a.len() ==> order_key(#[trigger] a[j].t_bits) != k,
    ensures
        with_key(a, k) == Seq::<Intersection>::empty(),
    decreases a.len(),
{
    if a.len() > 0 {
        assert(a.last() == a[a.len() - 1]);
        lemma_with_key_none(a.drop_last(), k);
    }
}

/// Puts `xs` in ascending order of `t`. Intersections with equal `t`
/// keep their relative order.
pub fn sort_intersections(xs: &mut Vec<Intersection>)
    ensures
        final(xs)@.to_multiset() == old(xs)@.to_multiset(),
        is_sorted_by_t(final(xs)@),
        forall|k: int| #[trigger] with_key(final(xs)@, k) == with_key(old(xs)@, k),
{
    let mut sorted: Vec<Intersection> = Vec::new();
    let mut i: usize = 0;
    proof {
        assert(xs@.take(0) =~= sorted@);
    }
    while i < xs.len()
        invariant
            i <= xs.len(),
            sorted@.len() == i,
            sorted@.to_multiset() == xs@.take(i as int).to_multiset(),
            is_sorted_by_t(sorted@),
            forall|k: int| #[trigger] with_key(sorted@, k) == with_key(xs@.take(i as int), k),
        decreases xs.len() - i,
    {
        let x = xs[i];
        let kx = total_order_key(x.t_bits);
        let mut p: usize = sorted.len();
        while p > 0 && total_order_key(sorted[p - 1].t_bits) > kx
            invariant
                p <= sorted@.len(),
                forall|j: int| p <= j < sorted@.len() ==> order_key(#[trigger] sorted@[j].t_bits) > kx,
            decreases p,
        {
            p = p - 1;
        }
        let ghost before = sorted@;
        sorted.insert(p, x);
        proof {
            assert(xs@.take(i as int + 1) =~= xs@.take(i as int).push(x));
            assert(sorted@ == before.insert(p as int, x));
            vstd::seq_lib::to_multiset_insert(before, p as int, x);
            let lo = before.take(p as int);
            let hi = before.skip(p as int);
            assert(before =~= lo + hi);
            assert(sorted@ =~= lo + seq![x] + hi);
            assert forall|k: int| #[trigger] with_key(sorted@, k) == with_key(
                xs@.take(i as int + 1),
                k,
            ) by {
                lemma_with_key_add(lo, hi, k);
                lemma_with_key_add(lo + seq![x], hi, k);
                lemma_with_key_add(lo, seq![x], k);
                let single = seq![x];
                assert(single.drop_last() =~= Seq::<Intersection>::empty());
                assert(with_key(Seq::<Intersection>::empty(), k) =~= Seq::<Intersection>::empty());
                let taken = xs@.take(i as int + 1);
                assert(taken.drop_last() =~= xs@.take(i as int));
                assert(taken.last() == x);
                if k == kx {
                    assert forall|j: int| 0 <= j < hi.len() implies order_key(
                        #[trigger] hi[j].t_bits,
                    ) != k by {
                        assert(hi[j] == before[p + j]);
                    }
                    lemma_with_key_none(hi, k);
                    assert(with_key(lo, k) + with_key(single, k) + with_key(hi, k) =~= (with_key(
                        lo,
                        k,
                    ) + with_key(hi, k)).push(x));
                } else {
                    assert(with_key(single, k) =~= Seq::<Intersection>::empty());
                    assert(with_key(lo, k) + with_key(single, k) + with_key(hi, k) =~= with_key(
                        lo,
                        k,
                    ) + with_key(hi, k));
                }
            }
            vstd::seq_lib::to_multiset_build(xs@.take(i as int), x);
            assert(xs@.take(i as int + 1).to_multiset() == xs@.take(i as int).to_multiset().insert(
                x,
            ));
            assert(p > 0 ==> order_key(before[p - 1].t_bits) <= kx);
            assert forall|a: int, b: int| 0 <= a < b < sorted@.len() implies order_key(
                #[trigger] sorted@[a].t_bits,
            ) <= order_key(#[trigger] sorted@[b].t_bits) by {
                if b < p {
                } else if b == p {
                    if a < p - 1 {
                        assert(order_key(before[a].t_bits) <= order_key(before[p - 1].t_bits));
                    }
                } else if a < p {
                    assert(sorted@[b] == before[b - 1]);
                    if a < p - 1 {
                        assert(order_key(before[a].t_bits) <= order_key(before[p - 1].t_bits));
                    }
                } else if a == p {
                    assert(sorted@[b] == before[b - 1]);
                } else {
                    assert(sorted@[b] == before[b - 1]);
                    assert(sorted@[a] == before[a - 1]);
                }
            }
        }
        i = i + 1;
    }
    proof {
        assert(xs@.take(xs@.len() as int) =~= xs@);
    }
    *xs = sorted;
}

/// Position of the first occurrence of `o` in `cs` (`cs.len()` if none).
pub open spec fn first_index_of(cs: Seq<SurfaceId>, o: SurfaceId) -> int
    decreases cs.len(),
{
    if cs.len() == 0 {
        0
    } else if cs[0] == o {
        0
    } else {
        1 + first_index_of(cs.drop_first(), o)
    }
}

/// The surfaces a ray is inside of after it crosses the boundary of `o`:
/// `o` leaves the list if it was there, else it is entered last.
pub open spec fn toggle(cs: Seq<SurfaceId>, o: SurfaceId) -> Seq<SurfaceId> {
    if cs.contains(o) {
        cs.remove(first_index_of(cs, o))
    } else {
        cs.push(o)
    }
}

/// The surfaces a ray is inside of after crossing the first `n`
/// intersections of `xs`, innermost last.
pub open spec fn containers_after(xs: Seq<Intersection>, n: int) -> Seq<SurfaceId>
    decreases n,
{
    if n <= 0 {
        Seq::empty()
    } else {
        toggle(containers_after(xs, n - 1), xs[n - 1].object)
    }
}

/// The innermost surface of `cs`, `None` outside every surface.
pub open spec fn innermost(cs: Seq<SurfaceId>) -> Option<SurfaceId> {
    if cs.len() == 0 {
        None
    } else {
        Some(cs.last())
    }
}

/// The media on either side of a hit: the surface whose material the ray
/// leaves (`n1`) and the one it enters (`n2`); `None` stands for the space
/// outside every surface.
#[derive(Clone, Copy, Debug, PartialEq, Eq, Structural)]
pub struct RefractionMedia {
    pub exited: Option<SurfaceId>,
    pub entered: Option<SurfaceId>,
}

proof fn lemma_first_index_of(cs: Seq<SurfaceId>, o: SurfaceId, k: int)
    requires
        0 <= k <= cs.len(),
        forall|m: int| 0 <= m < k ==> cs[m] != o,
        k < cs.len() ==> cs[k] == o,
    ensures
        first_index_of(cs, o) == k,
        cs.contains(o) <==> k < cs.len(),
    decreases cs.len(),
{
    if cs.len() > 0 && cs[0] != o {
        lemma_first_index_of(cs.drop_first(), o, k - 1);
    }
    if k < cs.len() {
        assert(cs[k] == o);
    }
}

fn toggle_in(cs: &mut Vec<SurfaceId>, o: SurfaceId)
    ensures
        final(cs)@ == toggle(old(cs)@, o),
{
    let mut k: usize = 0;
    while k < cs.len() && cs[k] != o
        invariant
            k <= cs@.len(),
            forall|m: int| 0 <= m < k ==> cs@[m] != o,
        decreases cs@.len() - k,
    {
        k = k + 1;
    }
    proof {
        lemma_first_index_of(cs@, o, k as int);
    }
    if k < cs.len() {
        cs.remove(k);
    } else {
        cs.push(o);
    }
}

fn last_of(cs: &Vec<SurfaceId>) -> (r: Option<SurfaceId>)
    ensures
        r == innermost(cs@),
{
    if cs.len() == 0 {
        None
    } else {
        Some(cs[cs.len() - 1])
    }
}

/// Walks `xs` (all intersections of a ray, ascending) up to the hit at
/// position `hit`, keeping the list of surfaces the ray is inside of, and
/// reports the innermost surface just before and just after the hit.
pub fn refraction_media(xs: &Vec<Intersection>, hit: usize) -> (r: RefractionMedia)
    requires
        hit < xs@.len(),
    ensures
        r.exited == innermost(containers_after(xs@, hit as int)),
        r.entered == innermost(containers_after(xs@, hit as int + 1)),
{
    let mut containers: Vec<SurfaceId> = Vec::new();
    let mut j: usize = 0;
    while j < hit
        invariant
            j <= hit < xs@.len(),
            containers@ == containers_after(xs@, j as int),
        decreases hit - j,
    {
        toggle_in(&mut containers, xs[j].object);
        j = j + 1;
    }
    let exited = last_of(&containers);
    toggle_in(&mut containers, xs[hit].object);
    let entered = last_of(&containers);
    RefractionMedia { exited, entered }
}

} // verus!
