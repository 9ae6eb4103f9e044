//! Draw-time preparation: subdividing a curve's cumulative lengths into the
//! sample lattice for one axis, spacing isoline thresholds between the
//! field's bounds, and simple function objects for mesh construction.

use vstd::prelude::*;

verus! {

use crate::field::CurveDistFn;
use crate::function::Function;
use crate::isolines::{no_crossing, segment_spec, value_ok};
use crate::mesh::Vertex;
use crate::num::{Mix, VAL_MAX, Weight, mix_int, mix_i64, sqrt_floor};
use crate::point::Point;

/// Index of the first element of a sequence that is `>= v`, scanning the
/// recursion of `crate::curve::first_ge` from the back.
pub open spec fn first_ge(s: Seq<i64>, v: int) -> int {
    crate::curve::first_ge(s, v)
}

/// How many pieces one window `[l1, l2]` is cut into: the ceiling of its
/// width over the resolution (zero for an empty or reversed window, which
/// also deduplicates equal lengths).
pub open spec fn window_count(l1: int, l2: int, res: int) -> int {
    (l2 - l1 + res - 1) / res
}

/// The sample lengths one window contributes: its `window_count` pieces'
/// right endpoints, evenly spaced by exact interpolation.
pub open spec fn window_pieces(l1: int, l2: int, res: int) -> Seq<i64> {
    let k = window_count(l1, l2, res);
    if k <= 0 {
        Seq::empty()
    } else {
        Seq::new(k as nat, |i: int| mix_int(l1, l2, i + 1, k) as i64)
    }
}

/// The full subdivided length sequence: the first input length, then each
/// window's pieces in order.
pub open spec fn subdivided_all(s: Seq<i64>, res: int) -> Seq<i64>
    decreases s.len(),
{
    if s.len() == 0 {
        Seq::empty()
    } else if s.len() == 1 {
        s
    } else {
        subdivided_all(s.drop_last(), res) + window_pieces(s[s.len() - 2] as int, s[s.len() - 1] as int, res)
    }
}

/// The window of the subdivided sequence that covers `[min, max]`: the
/// subdivided lengths from just below `min` to just above `max`, clamped to
/// the sequence.
pub open spec fn subdivide_spec(s: Seq<i64>, res: int, min: int, max: int) -> Seq<i64> {
    if s.len() == 0 {
        Seq::empty()
    } else {
        let all = subdivided_all(s, res);
        let ppmin = first_ge(all, min + 1);
        let lo = if ppmin >= 1 {
            ppmin - 1
        } else {
            0
        };
        let ppmax = first_ge(all, max + 1);
        let hi = if ppmax <= all.len() - 1 {
            ppmax
        } else {
            all.len() as int - 1
        };
        all.subrange(lo, hi + 1)
    }
}

/// Index of the first element `>= val`, by a backward scan (no ordering
/// assumed; on a sorted vector this is the partition point of `< val`).
fn first_ge_exec(v: &Vec<i64>, val: i64) -> (r: usize)
    ensures
        r == first_ge(v@, val as int),
{
    let mut j = v.len();
    proof {
        assert(v@.take(v@.len() as int) =~= v@);
    }
    while j > 0
        invariant
            j <= v@.len(),
            first_ge(v@, val as int) == first_ge(v@.take(j as int), val as int),
        decreases j,
    {
        if v[j - 1] < val {
            proof {
                assert(v@.take(j as int).last() == v@[j as int - 1]);
            }
            return j;
        }
        proof {
            assert(v@.take(j as int).drop_last() =~= v@.take(j as int - 1));
            assert(v@.take(j as int).last() == v@[j as int - 1]);
        }
        j = j - 1;
    }
    proof {
        assert(v@.take(0).len() == 0);
    }
    0
}

/// Subdivides a cumulative-length table into sample lengths at a given
/// resolution, keeping the window that covers `[min, max]`: every window
/// between consecutive lengths is cut into `ceil(width / res)` evenly
/// spaced pieces (so equal consecutive lengths are deduplicated), and the
/// result is sliced from just below `min` to just above `max`.
pub fn subdivide_lengths(lengths: &Vec<i64>, res: i64, bounds: [i64; 2]) -> (r: Vec<i64>)
    requires
        res >= 1,
        bounds[0] <= bounds[1],
        bounds[1] < i64::MAX,
        forall|w: int|
            1 <= w < lengths@.len() ==> window_count(
                lengths@[w - 1] as int,
                #[trigger] lengths@[w] as int,
                res as int,
            ) <= 0x1000_0000,
    ensures
        r@ == subdivide_spec(lengths@, res as int, bounds[0] as int, bounds[1] as int),
{
    let n = lengths.len();
    if n == 0 {
        let empty: Vec<i64> = Vec::new();
        proof {
            assert(empty@ =~= subdivide_spec(lengths@, res as int, bounds[0] as int, bounds[1] as int));
        }
        return empty;
    }
    let mut all: Vec<i64> = Vec::new();
    all.push(lengths[0]);
    proof {
        assert(lengths@.take(1).len() == 1);
        assert(lengths@.take(1)[0] == lengths@[0]);
        assert(all@ =~= subdivided_all(lengths@.take(1), res as int));
    }
    let mut w: usize = 1;
    while w < n
        invariant
            1 <= w <= n,
            n == lengths@.len(),
            res >= 1,
            forall|ww: int|
                1 <= ww < lengths@.len() ==> window_count(
                    lengths@[ww - 1] as int,
                    #[trigger] lengths@[ww] as int,
                    res as int,
                ) <= 0x1000_0000,
            all@ == subdivided_all(lengths@.take(w as int), res as int),
            all@.len() >= 1,
        decreases n - w,
    {
        let l1 = lengths[w - 1];
        let l2 = lengths[w];
        let ghost pieces = window_pieces(l1 as int, l2 as int, res as int);
        let k: usize = if l2 <= l1 {
            proof {
                vstd::arithmetic::div_mod::lemma_div_is_ordered(
                    l2 - l1 + res - 1,
                    res - 1,
                    res as int,
                );
                vstd::arithmetic::div_mod::lemma_basic_div(res - 1, res as int);
                assert(window_count(l1 as int, l2 as int, res as int) <= 0);
            }
            0
        } else {
            let diff: i128 = (l2 as i128) - (l1 as i128);
            let wide: u128 = (diff as u128) + ((res - 1) as u128);
            let kq: u128 = wide / (res as u128);
            proof {
                assert(kq as int == window_count(l1 as int, l2 as int, res as int));
                assert(kq <= 0x1000_0000);
            }
            kq as usize
        };
        let mut i: usize = 0;
        while i < k
            invariant
                i <= k,
                k <= 0x1000_0000,
                res >= 1,
                k as int == (if window_count(l1 as int, l2 as int, res as int) > 0 {
                    window_count(l1 as int, l2 as int, res as int)
                } else {
                    0
                }),
                pieces == window_pieces(l1 as int, l2 as int, res as int),
                pieces.len() == k,
                all@ == subdivided_all(lengths@.take(w as int), res as int) + pieces.take(i as int),
            decreases k - i,
        {
            let t = Weight { num: (i + 1) as i64, den: k as i64 };
            let piece = mix_i64(l1, l2, t);
            proof {
                assert(pieces[i as int] == mix_int(
                    l1 as int,
                    l2 as int,
                    i as int + 1,
                    k as int,
                ) as i64);
                assert(pieces.take(i as int + 1) =~= pieces.take(i as int).push(pieces[i as int]));
            }
            all.push(piece);
            i = i + 1;
        }
        proof {
            assert(pieces.take(k as int) =~= pieces);
            assert(lengths@.take(w as int + 1).drop_last() =~= lengths@.take(w as int));
            assert(lengths@.take(w as int + 1)[w as int - 1] == lengths@[w as int - 1]);
            assert(lengths@.take(w as int + 1)[w as int] == lengths@[w as int]);
            assert(all@ == subdivided_all(lengths@.take(w as int + 1), res as int));
        }
        w = w + 1;
    }
    proof {
        assert(lengths@.take(n as int) =~= lengths@);
    }
    let lo0 = first_ge_exec(&all, bounds[0] + 1);
    let lo = if lo0 >= 1 {
        lo0 - 1
    } else {
        0
    };
    let hi0 = first_ge_exec(&all, bounds[1] + 1);
    proof {
        crate::curve::lemma_first_ge_range(all@, bounds[0] as int + 1);
        crate::curve::lemma_first_ge_range(all@, bounds[1] as int + 1);
        crate::curve::lemma_first_ge_monotone(all@, bounds[0] as int + 1, bounds[1] as int + 1);
    }
    let hi = if hi0 <= all.len() - 1 {
        hi0
    } else {
        all.len() - 1
    };
    let mut out: Vec<i64> = Vec::new();
    let mut idx = lo;
    while idx <= hi
        invariant
            lo <= idx,
            idx <= hi + 1,
            hi < all@.len(),
            all@.len() <= usize::MAX,
            out@ == all@.subrange(lo as int, idx as int),
        decreases hi + 1 - idx,
    {
        out.push(all[idx]);
        proof {
            assert(all@.subrange(lo as int, idx as int + 1) =~= all@.subrange(
                lo as int,
                idx as int,
            ).push(all@[idx as int]));
        }
        idx = idx + 1;
    }
    out
}

/// Evenly spaced isoline thresholds strictly between `min` and `max`: the
/// `i`-th of `num` thresholds sits at fraction `(i + 1) / (num + 1)`.
pub fn isoline_thresholds(min: i64, max: i64, num: usize) -> (r: Vec<i64>)
    requires
        num <= 0x1000,
    ensures
        r@.len() == num,
        forall|i: int|
            0 <= i < num ==> #[trigger] r@[i] == mix_int(
                min as int,
                max as int,
                i + 1,
                num as int + 1,
            ) as i64,
{
    let mut out: Vec<i64> = Vec::new();
    let mut i: usize = 0;
    while i < num
        invariant
            i <= num,
            num <= 0x1000,
            out@.len() == i,
            forall|j: int|
                0 <= j < i ==> #[trigger] out@[j] == mix_int(
                    min as int,
                    max as int,
                    j + 1,
                    num as int + 1,
                ) as i64,
        decreases num - i,
    {
        let t = Weight { num: (i + 1) as i64, den: (num + 1) as i64 };
        out.push(mix_i64(min, max, t));
        i = i + 1;
    }
    out
}

/// A field that is the same everywhere; the plainest value function for
/// building meshes.
pub struct ConstantField {
    pub value: i64,
}

impl Function<Point> for ConstantField {
    type Output = i64;

    open spec fn eval_req(&self, _x: Point) -> bool {
        true
    }

    open spec fn eval_spec(&self, _x: Point) -> i64 {
        self.value
    }

    fn eval(&self, _x: Point) -> (r: i64) {
        self.value
    }
}

/// The refinement criterion of a draw pass: a triangle is split when some
/// isoline threshold crosses it and the interpolated field value at one of
/// the crossing endpoints (or at their midpoint) deviates from the true
/// field value by more than the tolerance, scaled by the local gradient
/// magnitude — steep regions are refined more aggressively.
pub struct IsolineRefinePredicate {
    pub field: CurveDistFn,
    pub thresholds: Vec<i64>,
    pub precision: Weight,
}

impl IsolineRefinePredicate {
    /// A probe vertex is usable when its parameter point is far from the
    /// integer limits and its value is small enough for exact arithmetic.
    pub open spec fn probe_ok(v: Vertex) -> bool {
        CurveDistFn::safe_arg(v.point) && value_ok(v)
    }

    /// The interpolated value at the probe deviates from the field by more
    /// than the gradient-scaled tolerance.
    pub open spec fn probe_exceeds(self, v: Vertex) -> bool {
        let tv = self.field.dist_at_spec(v.point);
        let err = if v.value >= tv {
            v.value - tv
        } else {
            tv - v.value
        };
        let gm = sqrt_floor(self.field.gradient_sq_spec(v.point) as nat);
        Self::probe_ok(v) && err * self.precision.den > gm * self.precision.num
    }

    /// One threshold asks for a split: it crosses the triangle and one of
    /// the three probes (the two crossing endpoints and their midpoint)
    /// exceeds the tolerance.
    pub open spec fn threshold_triggers(self, tri: [Vertex; 3], threshold: i64) -> bool {
        let seg = segment_spec(tri, threshold);
        !no_crossing(tri, threshold) && (self.probe_exceeds(seg[0]) || self.probe_exceeds(seg[1])
            || self.probe_exceeds(seg[0].mix_spec(seg[1], Weight { num: 1, den: 2 })))
    }

    /// The predicate itself: some threshold triggers, on a triangle whose
    /// values admit exact analysis.
    pub open spec fn should_refine_spec(self, tri: [Vertex; 3]) -> bool {
        &&& value_ok(tri[0])
        &&& value_ok(tri[1])
        &&& value_ok(tri[2])
        &&& exists|j: int|
            0 <= j < self.thresholds@.len() && self.threshold_triggers(
                tri,
                #[trigger] self.thresholds@[j],
            )
    }

    /// The predicate's own invariant.
    pub open spec fn pred_wf(self) -> bool {
        &&& self.field.wf()
        &&& self.precision.wf()
        &&& forall|j: int|
            0 <= j < self.thresholds@.len() ==> -VAL_MAX <= #[trigger] self.thresholds@[j]
                <= VAL_MAX
    }

    /// Whether one probe exceeds the gradient-scaled tolerance.
    fn probe_check(&self, v: Vertex) -> (r: bool)
        requires
            self.pred_wf(),
        ensures
            r == self.probe_exceeds(v),
    {
        if v.point.x < -0x7fff_ffff_ffff_fffe || v.point.x > 0x7fff_ffff_ffff_fffe || v.point.y
            < -0x7fff_ffff_ffff_fffe || v.point.y > 0x7fff_ffff_ffff_fffe {
            return false;
        }
        if v.value < -VAL_MAX || v.value > VAL_MAX {
            return false;
        }
        let tv = self.field.eval(v.point);
        let err: i64 = if v.value >= tv {
            v.value - tv
        } else {
            tv - v.value
        };
        let gm = self.field.eval_gradient_magnitude(v.point);
        proof {
            crate::segment::lemma_mul_bound(err as int, self.precision.den as int, 0x7fff_ffff_ffff_ffff);
            crate::segment::lemma_mul_bound(gm as int, self.precision.num as int, 0x7fff_ffff_ffff_ffff);
        }
        let lhs: i128 = (err as i128) * (self.precision.den as i128);
        let rhs: i128 = (gm as i128) * (self.precision.num as i128);
        lhs > rhs
    }
}

impl Function<[Vertex; 3]> for IsolineRefinePredicate {
    type Output = bool;

    open spec fn eval_req(&self, _tri: [Vertex; 3]) -> bool {
        self.pred_wf()
    }

    open spec fn eval_spec(&self, tri: [Vertex; 3]) -> bool {
        self.should_refine_spec(tri)
    }

    fn eval(&self, tri: [Vertex; 3]) -> (r: bool) {
        if tri[0].value < -VAL_MAX || tri[0].value > VAL_MAX || tri[1].value < -VAL_MAX
            || tri[1].value > VAL_MAX || tri[2].value < -VAL_MAX || tri[2].value > VAL_MAX {
            return false;
        }
        let n = self.thresholds.len();
        let mut j: usize = 0;
        while j < n
            invariant
                self.pred_wf(),
                value_ok(tri[0]),
                value_ok(tri[1]),
                value_ok(tri[2]),
                n == self.thresholds@.len(),
                j <= n,
                forall|k: int|
                    0 <= k < j ==> !self.threshold_triggers(tri, #[trigger] self.thresholds@[k]),
            decreases n - j,
        {
            let threshold = self.thresholds[j];
            match crate::isolines::analyze_triangle(tri, threshold) {
                Option::Some(seg) => {
                    let mid = seg[0].mix(seg[1], Weight { num: 1, den: 2 });
                    if self.probe_check(seg[0]) || self.probe_check(seg[1]) || self.probe_check(
                        mid,
                    ) {
                        return true;
                    }
                },
                Option::None => {},
            }
            j = j + 1;
        }
        false
    }
}

/// A refinement predicate with a fixed answer, whatever the triangle.
pub struct ConstantRefinePredicate {
    pub result: bool,
}

impl Function<[Vertex; 3]> for ConstantRefinePredicate {
    type Output = bool;

    open spec fn eval_req(&self, _x: [Vertex; 3]) -> bool {
        true
    }

    open spec fn eval_spec(&self, _x: [Vertex; 3]) -> bool {
        self.result
    }

    fn eval(&self, _x: [Vertex; 3]) -> (r: bool) {
        self.result
    }
}

} // verus!
