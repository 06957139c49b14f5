//! Animation over a cyclic time domain.
//!
//! Time is a fraction of one turn of `[0, 1)`, held as `t / 2^64` in a `u64`,
//! so that halving an interval and wrapping around at `1` are exact.
//!
//! The adaptive scheduler spends a fixed frame budget where the picture
//! changes fastest; the uniform variant colors every frame against one shared
//! contrast-weighted distribution.
use vstd::prelude::*;
use crate::color::{Color, ColorScheme};
use crate::context::{PixelCoordinate, RenderingContext};
use crate::raster::{bounded, bucket_total, color_grid, cumulative_of, empty_histogram, merge_histograms, pixel_color, views};

verus! {

/// One full turn of the time domain, `2^64`.
pub open spec fn turn() -> int {
    0x1_0000_0000_0000_0000
}

/// Computes the count of every pixel, row-major, at time (or frame) `t`.
pub fn compute_grid<F: Fn(PixelCoordinate, u64) -> u64>(ctx: RenderingContext, eval: &F, t: u64) -> (r: Vec<u64>)
    requires
        ctx.wf(),
        forall|p: PixelCoordinate, s: u64| eval.requires((p, s)),
        forall|p: PixelCoordinate, s: u64, n: u64| eval.ensures((p, s), n) ==> n <= ctx.max_iter,
    ensures
        r.len() == ctx.total(),
        bounded(r@, ctx.max_iter as int),
        forall|i: int| 0 <= i < r.len() ==> eval.ensures((ctx.point_at(i), t), #[trigger] r[i]),
{
    let mut points = ctx.enumerate_points();
    let mut out: Vec<u64> = Vec::new();
    loop
        invariant_except_break
            points.position() == out.len(),
        invariant
            points.wf(),
            points.context() == ctx,
            forall|p: PixelCoordinate, s: u64| eval.requires((p, s)),
            forall|p: PixelCoordinate, s: u64, n: u64| eval.ensures((p, s), n) ==> n <= ctx.max_iter,
            bounded(out@, ctx.max_iter as int),
            forall|i: int| 0 <= i < out.len() ==> eval.ensures((ctx.point_at(i), t), #[trigger] out[i]),
        ensures
            out.len() == ctx.total(),
            bounded(out@, ctx.max_iter as int),
            forall|i: int| 0 <= i < out.len() ==> eval.ensures((ctx.point_at(i), t), #[trigger] out[i]),
        decreases ctx.total() - points.position(),
    {
        match points.next() {
            Some(p) => {
                let n = eval(p, t);
                out.push(n);
            },
            None => {
                break;
            },
        }
    }
    out
}

/// The L1 distance between two grids: the sum of `|a[i] - b[i]|`.
pub open spec fn l1_distance(a: Seq<u64>, b: Seq<u64>) -> int
    decreases a.len(),
{
    if a.len() == 0 {
        0
    } else {
        l1_distance(a.drop_last(), b) + abs_diff(a.last() as int, b[a.len() - 1] as int)
    }
}

/// `|x - y|`.
pub open spec fn abs_diff(x: int, y: int) -> int {
    if x >= y {
        x - y
    } else {
        y - x
    }
}

/// A rendered frame: its time and its counts, row-major.
pub struct Frame {
    pub t: u64,
    pub grid: Vec<u64>,
}

impl Frame {
    /// The L1 distance between the counts of two frames of one viewport.
    pub fn difference(&self, other: &Frame) -> (r: u128)
        requires
            self.grid.len() == other.grid.len(),
        ensures
            r == l1_distance(self.grid@, other.grid@),
    {
        grid_difference(&self.grid, &other.grid)
    }
}

proof fn lemma_l1_prefix_bound(a: Seq<u64>, b: Seq<u64>, i: int)
    requires
        0 <= i <= a.len(),
        a.len() <= b.len(),
    ensures
        0 <= l1_distance(a.take(i), b) <= i * 0xffff_ffff_ffff_ffff,
    decreases i,
{
    if i > 0 {
        assert(a.take(i).drop_last() == a.take(i - 1));
        lemma_l1_prefix_bound(a, b, i - 1);
    }
}

/// The L1 distance between two grids of equal length.
pub fn grid_difference(a: &Vec<u64>, b: &Vec<u64>) -> (r: u128)
    requires
        a.len() == b.len(),
    ensures
        r == l1_distance(a@, b@),
{
    let mut total: u128 = 0;
    let mut i: usize = 0;
    while i < a.len()
        invariant
            a.len() == b.len(),
            0 <= i <= a.len(),
            total == l1_distance(a@.take(i as int), b@),
        decreases a.len() - i,
    {
        proof {
            assert(a@.take(i as int + 1).drop_last() == a@.take(i as int));
            lemma_l1_prefix_bound(a@, b@, i as int + 1);
            assert((i as int + 1) * 0xffff_ffff_ffff_ffff < 0x1_0000_0000_0000_0000_0000_0000_0000_0000) by (nonlinear_arith)
                requires 0 <= i < 0x1_0000_0000_0000_0000;
        }
        let x = a[i];
        let y = b[i];
        let d = if x >= y { x - y } else { y - x };
        total = total + d as u128;
        i = i + 1;
    }
    proof {
        assert(a@.take(a.len() as int) == a@);
    }
    total
}

proof fn lemma_l1_symmetric_prefix(a: Seq<u64>, b: Seq<u64>, i: int)
    requires
        a.len() == b.len(),
        0 <= i <= a.len(),
    ensures
        l1_distance(a.take(i), b) == l1_distance(b.take(i), a),
    decreases i,
{
    if i > 0 {
        assert(a.take(i).drop_last() == a.take(i - 1));
        assert(b.take(i).drop_last() == b.take(i - 1));
        lemma_l1_symmetric_prefix(a, b, i - 1);
    }
}

/// The frame difference is symmetric, and zero between identical grids.
pub proof fn lemma_difference_symmetric(a: Seq<u64>, b: Seq<u64>)
    requires
        a.len() == b.len(),
    ensures
        l1_distance(a, b) == l1_distance(b, a),
        l1_distance(a, a) == 0,
{
    lemma_l1_symmetric_prefix(a, b, a.len() as int);
    assert(a.take(a.len() as int) == a);
    assert(b.take(b.len() as int) == b);
    lemma_l1_self(a, a, a.len() as int);
}

proof fn lemma_l1_self(a: Seq<u64>, b: Seq<u64>, i: int)
    requires
        a == b,
        0 <= i <= a.len(),
    ensures
        l1_distance(a.take(i), b) == 0,
    decreases i,
{
    if i > 0 {
        assert(a.take(i).drop_last() == a.take(i - 1));
        lemma_l1_self(a, b, i - 1);
    } else {
        assert(a.take(0).len() == 0);
    }
    assert(a.take(a.len() as int) == a);
}

/// The time halfway from `a` to `b` going forward: `(a + b) / 2`, or, when
/// `b` is `0` (the interval that wraps around), `(a + 1) / 2` in turns.
pub open spec fn midpoint_spec(a: u64, b: u64) -> int {
    if b != 0 {
        (a + b) / 2
    } else {
        (a + turn()) / 2
    }
}

/// The time halfway through an interval (see `midpoint_spec`).
pub fn midpoint_time(a: u64, b: u64) -> (r: u64)
    ensures
        r == midpoint_spec(a, b),
{
    if b != 0 {
        ((a as u128 + b as u128) / 2) as u64
    } else {
        ((a as u128 + 0x1_0000_0000_0000_0000u128) / 2) as u64
    }
}

/// A span between two frames, held by their indices, scored by the
/// difference between them.
#[derive(Clone, Copy, Debug, PartialEq, Eq, Structural)]
pub struct Interval {
    pub a: usize,
    pub b: usize,
    pub difference: u128,
}

/// The frames all cover one viewport and their counts were computed by the
/// evaluator at their time.
pub open spec fn frames_of<F: Fn(PixelCoordinate, u64) -> u64>(
    frames: Seq<Frame>,
    ctx: RenderingContext,
    eval: F,
) -> bool {
    forall|f: int|
        0 <= f < frames.len() ==> {
            &&& (#[trigger] frames[f]).grid.len() == ctx.total()
            &&& bounded(frames[f].grid@, ctx.max_iter as int)
            &&& forall|i: int|
                0 <= i < ctx.total() ==> eval.ensures((ctx.point_at(i), frames[f].t), #[trigger] frames[f].grid[i])
        }
}

/// The interval joins two existing frames and its score is their difference.
pub open spec fn interval_of(iv: Interval, frames: Seq<Frame>) -> bool {
    &&& iv.a < frames.len()
    &&& iv.b < frames.len()
    &&& iv.difference == l1_distance(frames[iv.a as int].grid@, frames[iv.b as int].grid@)
}

impl Interval {
    /// The interval from frame `a` to frame `b`, scored.
    pub fn new(frames: &Vec<Frame>, a: usize, b: usize) -> (r: Interval)
        requires
            a < frames.len(),
            b < frames.len(),
            frames[a as int].grid.len() == frames[b as int].grid.len(),
        ensures
            r.a == a,
            r.b == b,
            interval_of(r, frames@),
    {
        let difference = frames[a].difference(&frames[b]);
        Interval { a, b, difference }
    }

    /// The time halfway through the interval.
    pub fn midpoint(&self, frames: &Vec<Frame>) -> (r: u64)
        requires
            self.a < frames.len(),
            self.b < frames.len(),
        ensures
            r == midpoint_spec(frames[self.a as int].t, frames[self.b as int].t),
    {
        midpoint_time(frames[self.a].t, frames[self.b].t)
    }

    /// Splits the interval at frame `mid` into `(a, mid)` and `(mid, b)`,
    /// each scored against the frame at `mid`.
    pub fn subdivide(self, frames: &Vec<Frame>, mid: usize) -> (r: (Interval, Interval))
        requires
            self.a < frames.len(),
            self.b < frames.len(),
            mid < frames.len(),
            frames[self.a as int].grid.len() == frames[mid as int].grid.len(),
            frames[self.b as int].grid.len() == frames[mid as int].grid.len(),
        ensures
            r.0.a == self.a,
            r.0.b == mid,
            r.0.difference == l1_distance(frames[self.a as int].grid@, frames[mid as int].grid@),
            r.1.a == mid,
            r.1.b == self.b,
            r.1.difference == l1_distance(frames[self.b as int].grid@, frames[mid as int].grid@),
    {
        let da = frames[self.a].difference(&frames[mid]);
        let db = frames[self.b].difference(&frames[mid]);
        (Interval { a: self.a, b: mid, difference: da }, Interval { a: mid, b: self.b, difference: db })
    }
}

/// Scanning from `i`, with `best` the index of the first highest score seen
/// so far, the index of the first interval with the highest score.
pub open spec fn top_from(queue: Seq<Interval>, i: int, best: int) -> int
    decreases queue.len() - i,
{
    if i >= queue.len() {
        best
    } else if queue[i].difference > queue[best].difference {
        top_from(queue, i + 1, i)
    } else {
        top_from(queue, i + 1, best)
    }
}

/// Index of the first interval with the highest score.
pub open spec fn top_index(queue: Seq<Interval>) -> int {
    top_from(queue, 1, 0)
}

proof fn lemma_top_from_bounds(queue: Seq<Interval>, i: int, best: int)
    requires
        0 <= best < i,
        best < queue.len(),
    ensures
        0 <= top_from(queue, i, best) < queue.len(),
    decreases queue.len() - i,
{
    if i < queue.len() {
        if queue[i].difference > queue[best].difference {
            lemma_top_from_bounds(queue, i + 1, i);
        } else {
            lemma_top_from_bounds(queue, i + 1, best);
        }
    }
}

/// The first interval with the highest score lies in the queue.
pub proof fn lemma_top_index_bounds(queue: Seq<Interval>)
    requires
        queue.len() > 0,
    ensures
        0 <= top_index(queue) < queue.len(),
{
    lemma_top_from_bounds(queue, 1, 0);
}

/// Index of the first interval with the highest score.
pub fn highest_interval(queue: &Vec<Interval>) -> (r: usize)
    requires
        queue.len() > 0,
    ensures
        r < queue.len(),
        r == top_index(queue@),
        forall|j: int| 0 <= j < queue.len() ==> (#[trigger] queue[j]).difference <= queue[r as int].difference,
        forall|j: int| 0 <= j < r ==> (#[trigger] queue[j]).difference < queue[r as int].difference,
{
    let mut best: usize = 0;
    let mut i: usize = 1;
    while i < queue.len()
        invariant
            0 < i <= queue.len(),
            best < i,
            top_index(queue@) == top_from(queue@, i as int, best as int),
            forall|j: int| 0 <= j < i ==> (#[trigger] queue[j]).difference <= queue[best as int].difference,
            forall|j: int| 0 <= j < best ==> (#[trigger] queue[j]).difference < queue[best as int].difference,
        decreases queue.len() - i,
    {
        if queue[i].difference > queue[best].difference {
            best = i;
        }
        i = i + 1;
    }
    best
}

/// Some frame is at time `t`.
pub open spec fn has_time(frames: Seq<Frame>, t: int) -> bool {
    exists|i: int| 0 <= i < frames.len() && frames[i].t == t
}

/// Frames in ascending order of time.
pub open spec fn sorted_by_time(frames: Seq<Frame>) -> bool {
    forall|i: int, j: int| 0 <= i <= j < frames.len() ==> frames[i].t <= frames[j].t
}

/// Renders the frame at time `t`.
pub fn render_frame<F: Fn(PixelCoordinate, u64) -> u64>(ctx: RenderingContext, eval: &F, t: u64) -> (r: Frame)
    requires
        ctx.wf(),
        forall|p: PixelCoordinate, s: u64| eval.requires((p, s)),
        forall|p: PixelCoordinate, s: u64, n: u64| eval.ensures((p, s), n) ==> n <= ctx.max_iter,
    ensures
        r.t == t,
        frames_of(seq![r], ctx, *eval),
{
    let grid = compute_grid(ctx, eval, t);
    let r = Frame { t, grid };
    proof {
        assert(seq![r][0] == r);
    }
    r
}

/// No two frames share a time.
pub open spec fn distinct_times(frames: Seq<Frame>) -> bool {
    forall|i: int, j: int| 0 <= i < j < frames.len() ==> frames[i].t != frames[j].t
}

/// Frames in strictly ascending order of time.
pub open spec fn strictly_sorted_by_time(frames: Seq<Frame>) -> bool {
    forall|i: int, j: int| 0 <= i < j < frames.len() ==> frames[i].t < frames[j].t
}

/// Sorts frames by ascending time: the result holds the same frames, each as
/// often as given, and its times strictly increase where no two given frames
/// share a time.
pub fn sort_by_time(frames: Vec<Frame>) -> (r: Vec<Frame>)
    ensures
        r@.to_multiset() == frames@.to_multiset(),
        r.len() == frames.len(),
        sorted_by_time(r@),
        distinct_times(frames@) ==> strictly_sorted_by_time(r@),
        forall|i: int| 0 <= i < r.len() ==> frames@.contains(#[trigger] r[i]),
        forall|j: int| 0 <= j < frames.len() ==> r@.contains(#[trigger] frames[j]),
{
    broadcast use vstd::seq_lib::group_to_multiset_ensures, vstd::multiset::group_multiset_axioms;

    let ghost orig = frames@;
    let n = frames.len();
    let mut src = frames;
    let mut out: Vec<Frame> = Vec::new();
    proof {
        assert(out@.to_multiset().add(src@.to_multiset()) =~= orig.to_multiset());
        if distinct_times(orig) {
            assert forall|x: int, y: int| 0 <= x < orig.len() && 0 <= y < orig.len() && x != y implies orig[x]
                != orig[y] by {
                if x < y {
                    assert(orig[x].t != orig[y].t);
                } else {
                    assert(orig[y].t != orig[x].t);
                }
            }
            assert(orig.no_duplicates());
            orig.lemma_multiset_has_no_duplicates();
        }
    }
    while src.len() > 0
        invariant
            src@ == orig.take(src.len() as int),
            src.len() <= orig.len(),
            n == orig.len(),
            out.len() + src.len() == n,
            sorted_by_time(out@),
            out@.to_multiset().add(src@.to_multiset()) == orig.to_multiset(),
            distinct_times(orig) ==> strictly_sorted_by_time(out@),
            distinct_times(orig) ==> forall|x: Frame|
                orig.to_multiset().contains(x) ==> orig.to_multiset().count(x) == 1,
            forall|i: int| 0 <= i < out.len() ==> orig.contains(#[trigger] out[i]),
            forall|j: int| src.len() <= j < n ==> out@.contains(#[trigger] orig[j]),
        decreases src.len(),
    {
        let ghost k = src.len() - 1;
        let ghost src0 = src@;
        let popped = src.pop();
        match popped {
            Some(f) => {
                proof {
                    assert(f == orig[k]);
                    assert(orig.contains(f));
                    assert(src@ == orig.take(src.len() as int));
                    assert(src0 == src@.push(f));
                }
                let mut pos: usize = 0;
                while pos < out.len() && out[pos].t <= f.t
                    invariant
                        0 <= pos <= out.len(),
                        forall|j: int| 0 <= j < pos ==> (#[trigger] out[j]).t <= f.t,
                    decreases out.len() - pos,
                {
                    pos = pos + 1;
                }
                let ghost before = out@;
                out.insert(pos, f);
                proof {
                    assert(out@ == before.insert(pos as int, f));
                    vstd::seq_lib::to_multiset_insert(before, pos as int, f);
                    vstd::seq_lib::to_multiset_build(src@, f);
                    assert(out@.to_multiset().add(src@.to_multiset()) =~= orig.to_multiset());
                    assert forall|i: int, j: int| 0 <= i <= j < out.len() implies out[i].t <= out[j].t by {
                        if pos < before.len() {
                            assert(before[pos as int].t > f.t);
                        }
                    }
                    if distinct_times(orig) {
                        assert forall|j: int| 0 <= j < pos implies (#[trigger] before[j]).t < f.t by {
                            assert(before[j].t <= f.t);
                            if before[j].t == f.t {
                                assert(before.contains(before[j]));
                                vstd::seq_lib::to_multiset_contains(before, before[j]);
                                assert(before.to_multiset().count(before[j]) > 0);
                                if before[j] == f {
                                    assert(src0.contains(f)) by {
                                        assert(src0[src0.len() - 1] == f);
                                    }
                                    vstd::seq_lib::to_multiset_contains(src0, f);
                                    vstd::seq_lib::to_multiset_contains(orig, f);
                                    assert(src0.to_multiset().count(f) > 0);
                                    assert(orig.to_multiset().count(f) >= 2);
                                } else {
                                    let x = choose|x: int| 0 <= x < orig.len() && orig[x] == before[j];
                                    if x < k {
                                        assert(orig[x].t != orig[k].t);
                                    } else {
                                        assert(orig[k].t != orig[x].t);
                                    }
                                }
                            }
                        }
                        assert forall|i: int, j: int| 0 <= i < j < out.len() implies out[i].t < out[j].t by {
                            if j < pos {
                                assert(out[i] == before[i] && out[j] == before[j]);
                            } else if j == pos {
                                assert(out[i] == before[i]);
                            } else if i < pos {
                                assert(out[i] == before[i] && out[j] == before[j - 1]);
                                assert(before[pos as int].t > f.t);
                            } else if i == pos {
                                assert(out[j] == before[j - 1]);
                                assert(before[pos as int].t > f.t);
                            } else {
                                assert(out[i] == before[i - 1] && out[j] == before[j - 1]);
                            }
                        }
                    }
                    assert forall|i: int| 0 <= i < out.len() implies orig.contains(#[trigger] out[i]) by {
                        if i < pos {
                            assert(out[i] == before[i]);
                        } else if i > pos {
                            assert(out[i] == before[i - 1]);
                        }
                    }
                    assert forall|j: int| src.len() <= j < n implies out@.contains(#[trigger] orig[j]) by {
                        if j == k {
                            assert(out[pos as int] == f);
                        } else {
                            let x = choose|x: int| 0 <= x < before.len() && before[x] == orig[j];
                            if x < pos {
                                assert(out[x] == before[x]);
                            } else {
                                assert(out[x + 1] == before[x]);
                            }
                        }
                    }
                }
            },
            None => {},
        }
    }
    proof {
        assert(src@ =~= Seq::<Frame>::empty());
        assert(out@.to_multiset() =~= orig.to_multiset());
    }
    out
}

/// A quarter turn: the spacing of the four anchor frames.
pub const QUARTER: u64 = 0x4000_0000_0000_0000;

/// The interval from frame `a` to frame `b` of `g`, scored by their
/// difference.
pub open spec fn scored(g: Seq<Frame>, a: int, b: int) -> Interval {
    Interval { a: a as usize, b: b as usize, difference: l1_distance(g[a].grid@, g[b].grid@) as u128 }
}

/// The scheduler's queue once the first `k` frames of `g` (in the order they
/// were rendered) exist: the four intervals between the anchors, then, for
/// each later frame, the first highest-scoring interval replaced by its two
/// halves at that frame.
pub open spec fn queue_after(g: Seq<Frame>, k: int) -> Seq<Interval>
    decreases k,
{
    if k <= 4 {
        seq![scored(g, 0, 1), scored(g, 1, 2), scored(g, 2, 3), scored(g, 3, 0)]
    } else {
        let q = queue_after(g, k - 1);
        let iv = q[top_index(q)];
        q.remove(top_index(q)).push(scored(g, iv.a as int, k - 1)).push(
            Interval {
                a: (k - 1) as usize,
                b: iv.b,
                difference: l1_distance(g[iv.b as int].grid@, g[k - 1].grid@) as u128,
            },
        )
    }
}

/// The time of frame `k` of a run of the scheduler: an anchor for the first
/// four, then the midpoint of the first highest-scoring interval of the
/// queue built from the frames before it.
pub open spec fn scheduled_time(g: Seq<Frame>, k: int) -> int {
    if k < 4 {
        k * QUARTER
    } else {
        let q = queue_after(g, k);
        let iv = q[top_index(q)];
        midpoint_spec(g[iv.a as int].t, g[iv.b as int].t)
    }
}

/// `g` is a run of the adaptive scheduler, its frames in the order they were
/// rendered.
pub open spec fn is_schedule(g: Seq<Frame>) -> bool {
    &&& g.len() >= 4
    &&& forall|k: int| 0 <= k < g.len() ==> #[trigger] g[k].t == scheduled_time(g, k)
}

/// The queue after `k` frames holds `k` intervals between those frames.
pub proof fn lemma_queue_after_bounds(g: Seq<Frame>, k: int)
    requires
        4 <= k,
    ensures
        queue_after(g, k).len() == k,
        forall|j: int|
            0 <= j < k ==> (#[trigger] queue_after(g, k)[j]).a < k && queue_after(g, k)[j].b < k,
    decreases k,
{
    if k > 4 {
        lemma_queue_after_bounds(g, k - 1);
        let q = queue_after(g, k - 1);
        lemma_top_index_bounds(q);
        let r = queue_after(g, k);
        assert forall|j: int| 0 <= j < k implies (#[trigger] r[j]).a < k && r[j].b < k by {
            let t = top_index(q);
            if j < t {
                assert(r[j] == q[j]);
            } else if j < k - 2 {
                assert(r[j] == q[j + 1]);
            }
        }
    }
}

/// The queue after `k` frames depends on the first `k` frames alone.
pub proof fn lemma_queue_after_prefix(g: Seq<Frame>, h: Seq<Frame>, k: int)
    requires
        4 <= k <= g.len(),
        k <= h.len(),
        forall|x: int| 0 <= x < k ==> g[x] == h[x],
    ensures
        queue_after(g, k) == queue_after(h, k),
    decreases k,
{
    if k > 4 {
        lemma_queue_after_prefix(g, h, k - 1);
        lemma_queue_after_bounds(g, k - 1);
        let q = queue_after(g, k - 1);
        lemma_top_index_bounds(q);
        let iv = q[top_index(q)];
        assert(g[iv.a as int] == h[iv.a as int]);
        assert(g[iv.b as int] == h[iv.b as int]);
        assert(g[k - 1] == h[k - 1]);
    } else {
        assert(g[0] == h[0] && g[1] == h[1] && g[2] == h[2] && g[3] == h[3]);
    }
}

/// The time of frame `k` depends on the first `k` frames alone.
proof fn lemma_scheduled_time_prefix(g: Seq<Frame>, h: Seq<Frame>, k: int)
    requires
        0 <= k < g.len(),
        k < h.len(),
        forall|x: int| 0 <= x < k ==> g[x] == h[x],
    ensures
        scheduled_time(g, k) == scheduled_time(h, k),
{
    if k >= 4 {
        lemma_queue_after_prefix(g, h, k);
        lemma_queue_after_bounds(g, k);
        let q = queue_after(g, k);
        lemma_top_index_bounds(q);
        let iv = q[top_index(q)];
        assert(g[iv.a as int] == h[iv.a as int]);
        assert(g[iv.b as int] == h[iv.b as int]);
    }
}

/// `2^n`.
pub open spec fn pow2(n: nat) -> nat
    decreases n,
{
    if n == 0 {
        1
    } else {
        2 * pow2((n - 1) as nat)
    }
}

/// Where the arc of an interval starts on the turn.
pub open spec fn arc_start(iv: Interval, g: Seq<Frame>) -> int {
    g[iv.a as int].t as int
}

/// Where the arc of an interval ends on the turn (a full turn when it wraps
/// around to time `0`).
pub open spec fn arc_end(iv: Interval, g: Seq<Frame>) -> int {
    if g[iv.b as int].t == 0 {
        turn()
    } else {
        g[iv.b as int].t as int
    }
}

/// Time `x` lies strictly inside the arc of an interval.
pub open spec fn strictly_inside(iv: Interval, g: Seq<Frame>, x: int) -> bool {
    arc_start(iv, g) < x < arc_end(iv, g)
}

/// The intervals cut the turn at the frames' distinct times: each arc is a
/// positive multiple of `d` long, no two arcs overlap, and no frame lies
/// strictly inside an arc.
#[verifier::opaque]
pub open spec fn tiled(g: Seq<Frame>, q: Seq<Interval>, d: int) -> bool {
    &&& forall|j: int|
        0 <= j < q.len() ==> arc_start(#[trigger] q[j], g) < arc_end(q[j], g) && (arc_end(q[j], g)
            - arc_start(q[j], g)) % d == 0
    &&& forall|j1: int, j2: int, x: int|
        0 <= j1 < q.len() && 0 <= j2 < q.len() && j1 != j2 ==> !(#[trigger] strictly_inside(q[j1], g, x)
            && #[trigger] strictly_inside(q[j2], g, x))
    &&& forall|j: int, f: int|
        0 <= j < q.len() && 0 <= f < g.len() ==> !strictly_inside(#[trigger] q[j], g, (#[trigger] g[f]).t as int)
    &&& distinct_times(g)
}

/// Which interval of the queue before a split holds (the arc of) entry `j`
/// of the queue after it.
spec fn split_origin(j: int, idx: int, n: int) -> int {
    if j < idx {
        j
    } else if j < n - 1 {
        j + 1
    } else {
        idx
    }
}

/// Splitting an arc at its midpoint keeps the intervals a tiling, with arcs
/// now multiples of half the length.
proof fn lemma_split_keeps_tiling(g: Seq<Frame>, q: Seq<Interval>, idx: int, f: Frame, g2: Seq<Frame>, q2: Seq<Interval>)
    requires
        g.len() <= 65,
        tiled(g, q, pow2((66 - g.len()) as nat) as int),
        forall|j: int| 0 <= j < q.len() ==> (#[trigger] q[j]).a < g.len() && q[j].b < g.len(),
        0 <= idx < q.len(),
        f.t == midpoint_spec(g[q[idx].a as int].t, g[q[idx].b as int].t),
        g2 == g.push(f),
        q2.len() == q.len() + 1,
        forall|j: int| 0 <= j < idx ==> #[trigger] q2[j] == q[j],
        forall|j: int| idx <= j < q.len() - 1 ==> #[trigger] q2[j] == q[j + 1],
        q2[q.len() - 1].a == q[idx].a,
        q2[q.len() - 1].b == g.len(),
        q2[q.len() as int].a == g.len(),
        q2[q.len() as int].b == q[idx].b,
    ensures
        tiled(g2, q2, pow2((66 - g2.len()) as nat) as int),
{
    reveal(tiled);
    let n = q.len() as int;
    let len = g.len() as int;
    let iv = q[idx];
    let d2 = pow2((65 - len) as nat) as int;
    let d = pow2((66 - len) as nat) as int;
    assert(d == 2 * d2);
    assert(d2 >= 1) by {
        lemma_pow2_positive((65 - len) as nat);
    }
    assert(pow2((66 - g2.len()) as nat) as int == d2);
    let s = arc_start(iv, g);
    let e = arc_end(iv, g);
    let w = e - s;
    assert(s < e && w % d == 0);
    vstd::arithmetic::div_mod::lemma_fundamental_div_mod(w, d);
    let c = w / d;
    assert(w == c * (2 * d2));
    assert(c >= 1) by {
        if c <= 0 {
            assert(c * (2 * d2) <= 0) by (nonlinear_arith)
                requires c <= 0, d2 >= 1;
        }
    }
    let h = c * d2;
    assert(w == 2 * h) by (nonlinear_arith)
        requires w == c * (2 * d2), h == c * d2;
    assert(h >= 1) by (nonlinear_arith)
        requires h == c * d2, c >= 1, d2 >= 1;
    let m = s + h;
    assert(f.t == m);
    assert(g2[len].t == m);
    assert(forall|x: int| 0 <= x < len ==> g2[x] == g[x]);
    // Arcs of entries of the new queue lie within the arcs they come from.
    assert forall|j: int, x: int| 0 <= j < q2.len() && #[trigger] strictly_inside(q2[j], g2, x) implies strictly_inside(
        q[split_origin(j, idx, n)],
        g,
        x,
    ) by {
        if j < idx {
            assert(q2[j] == q[j]);
        } else if j < n - 1 {
            assert(q2[j] == q[j + 1]);
        }
    }
    // Arc lengths.
    assert forall|j: int| 0 <= j < q2.len() implies arc_start(#[trigger] q2[j], g2) < arc_end(q2[j], g2) && (
    arc_end(q2[j], g2) - arc_start(q2[j], g2)) % d2 == 0 by {
        if j == n - 1 {
            assert(arc_end(q2[j], g2) - arc_start(q2[j], g2) == h);
            vstd::arithmetic::div_mod::lemma_mod_multiples_basic(c, d2);
        } else if j == n {
            assert(arc_end(q2[j], g2) - arc_start(q2[j], g2) == h);
            vstd::arithmetic::div_mod::lemma_mod_multiples_basic(c, d2);
        } else {
            let o = split_origin(j, idx, n);
            assert(q2[j] == q[o]);
            let wj = arc_end(q[o], g) - arc_start(q[o], g);
            assert(wj % d == 0);
            vstd::arithmetic::div_mod::lemma_fundamental_div_mod(wj, d);
            assert(wj == (2 * (wj / d)) * d2) by (nonlinear_arith)
                requires wj == d * (wj / d) + 0, d == 2 * d2;
            vstd::arithmetic::div_mod::lemma_mod_multiples_basic(2 * (wj / d), d2);
        }
    }
    // No overlap.
    assert forall|j1: int, j2: int, x: int|
        0 <= j1 < q2.len() && 0 <= j2 < q2.len() && j1 != j2 implies !(#[trigger] strictly_inside(q2[j1], g2, x)
        && #[trigger] strictly_inside(q2[j2], g2, x)) by {
        if strictly_inside(q2[j1], g2, x) && strictly_inside(q2[j2], g2, x) {
            let o1 = split_origin(j1, idx, n);
            let o2 = split_origin(j2, idx, n);
            assert(strictly_inside(q[o1], g, x));
            assert(strictly_inside(q[o2], g, x));
            if o1 == o2 {
                assert(j1 >= n - 1 && j2 >= n - 1);
            }
        }
    }
    // No frame inside an arc.
    assert forall|j: int, k: int| 0 <= j < q2.len() && 0 <= k < g2.len() implies !strictly_inside(
        #[trigger] q2[j],
        g2,
        (#[trigger] g2[k]).t as int,
    ) by {
        if strictly_inside(q2[j], g2, g2[k].t as int) {
            let o = split_origin(j, idx, n);
            assert(strictly_inside(q[o], g, g2[k].t as int));
            if k < len {
                assert(g2[k] == g[k]);
            } else {
                assert(strictly_inside(q[idx], g, m));
                if o == idx {
                    assert(j >= n - 1);
                }
            }
        }
    }
    // Distinct times.
    assert forall|i: int, j: int| 0 <= i < j < g2.len() implies g2[i].t != g2[j].t by {
        if j == len {
            assert(g2[i] == g[i]);
            assert(!strictly_inside(q[idx], g, g[i].t as int));
            assert(strictly_inside(q[idx], g, m));
        } else {
            assert(g2[i] == g[i] && g2[j] == g[j]);
        }
    }
}

proof fn lemma_pow2_positive(n: nat)
    ensures
        pow2(n) >= 1,
    decreases n,
{
    if n > 0 {
        lemma_pow2_positive((n - 1) as nat);
    }
}

/// One step of the adaptive scheduler: takes out the first interval with the
/// highest score, renders the frame at its midpoint, and puts back its two
/// halves, each scored against the new frame. Returns the index that the
/// interval had in the queue.
pub fn subdivide_highest<F: Fn(PixelCoordinate, u64) -> u64>(
    ctx: RenderingContext,
    eval: &F,
    frames: &mut Vec<Frame>,
    queue: &mut Vec<Interval>,
) -> (idx: usize)
    requires
        ctx.wf(),
        forall|p: PixelCoordinate, s: u64| eval.requires((p, s)),
        forall|p: PixelCoordinate, s: u64, n: u64| eval.ensures((p, s), n) ==> n <= ctx.max_iter,
        old(queue).len() > 0,
        frames_of(old(frames)@, ctx, *eval),
        forall|j: int| 0 <= j < old(queue).len() ==> interval_of(#[trigger] old(queue)[j], old(frames)@),
    ensures
        idx < old(queue).len(),
        idx == top_index(old(queue)@),
        forall|j: int| 0 <= j < old(queue).len() ==> (#[trigger] old(queue)[j]).difference <= old(queue)[idx as int].difference,
        final(frames).len() == old(frames).len() + 1,
        final(frames)@.drop_last() == old(frames)@,
        final(frames)@.last().t == midpoint_spec(
            old(frames)[old(queue)[idx as int].a as int].t,
            old(frames)[old(queue)[idx as int].b as int].t,
        ),
        frames_of(final(frames)@, ctx, *eval),
        final(queue)@ == old(queue)@.remove(idx as int).push(
            Interval {
                a: old(queue)[idx as int].a,
                b: old(frames).len() as usize,
                difference: l1_distance(
                    old(frames)[old(queue)[idx as int].a as int].grid@,
                    final(frames)@.last().grid@,
                ) as u128,
            },
        ).push(
            Interval {
                a: old(frames).len() as usize,
                b: old(queue)[idx as int].b,
                difference: l1_distance(
                    old(frames)[old(queue)[idx as int].b as int].grid@,
                    final(frames)@.last().grid@,
                ) as u128,
            },
        ),
        forall|j: int| 0 <= j < final(queue).len() ==> interval_of(#[trigger] final(queue)[j], final(frames)@),
{
    let idx = highest_interval(queue);
    let iv = queue.remove(idx);
    proof {
        assert(interval_of(iv, frames@));
    }
    let mid = iv.midpoint(frames);
    let f = render_frame(ctx, eval, mid);
    let ghost before = frames@;
    frames.push(f);
    let m = frames.len() - 1;
    proof {
        lemma_frames_of_push(before, f, ctx, *eval);
        assert(frames[iv.a as int] == before[iv.a as int]);
        assert(frames[iv.b as int] == before[iv.b as int]);
        assert(frames[m as int] == f);
        assert(frames@[iv.a as int].grid.len() == ctx.total());
        assert(frames@[iv.b as int].grid.len() == ctx.total());
        assert(frames@[m as int].grid.len() == ctx.total());
        assert(frames@.drop_last() == before);
    }
    let (left, right) = iv.subdivide(frames, m);
    proof {
        lemma_difference_symmetric(frames[iv.b as int].grid@, frames[m as int].grid@);
        assert forall|j: int| 0 <= j < queue.len() implies interval_of(#[trigger] queue[j], frames@) by {
            let q = queue[j];
            assert(interval_of(q, before));
            assert(frames[q.a as int] == before[q.a as int]);
            assert(frames[q.b as int] == before[q.b as int]);
        }
    }
    queue.push(left);
    queue.push(right);
    idx
}


/// One step of the scheduler, as `subdivide_highest` states it, extends a
/// run of the scheduler by one frame and leaves its queue.
proof fn lemma_schedule_step(before: Seq<Frame>, q0: Seq<Interval>, g: Seq<Frame>, q: Seq<Interval>, idx: int)
    requires
        is_schedule(before),
        q0 == queue_after(before, before.len() as int),
        g.len() == before.len() + 1,
        g.len() <= usize::MAX,
        g.drop_last() == before,
        idx == top_index(q0),
        g.last().t == midpoint_spec(before[q0[idx].a as int].t, before[q0[idx].b as int].t),
        q == q0.remove(idx).push(
            Interval {
                a: q0[idx].a,
                b: before.len() as usize,
                difference: l1_distance(before[q0[idx].a as int].grid@, g.last().grid@) as u128,
            },
        ).push(
            Interval {
                a: before.len() as usize,
                b: q0[idx].b,
                difference: l1_distance(before[q0[idx].b as int].grid@, g.last().grid@) as u128,
            },
        ),
    ensures
        is_schedule(g),
        q == queue_after(g, g.len() as int),
        g == before.push(g[before.len() as int]),
        0 <= idx < q0.len(),
        forall|j: int| 0 <= j < q0.len() ==> (#[trigger] q0[j]).a < before.len() && q0[j].b < before.len(),
        q.len() == q0.len() + 1,
        forall|j: int| 0 <= j < idx ==> #[trigger] q[j] == q0[j],
        forall|j: int| idx <= j < q0.len() - 1 ==> #[trigger] q[j] == q0[j + 1],
        q[q0.len() - 1].a == q0[idx].a,
        q[q0.len() - 1].b == before.len(),
        q[q0.len() as int].a == before.len(),
        q[q0.len() as int].b == q0[idx].b,
{
    let n = before.len() as int;
    assert(g == before.push(g[n]));
    assert forall|x: int| 0 <= x < n implies g[x] == before[x] by {
        assert(g.drop_last()[x] == before[x]);
    }
    lemma_queue_after_prefix(before, g, n);
    lemma_queue_after_bounds(before, n);
    lemma_top_index_bounds(q0);
    assert(q =~= queue_after(g, n + 1));
    assert forall|k: int| 0 <= k < g.len() implies #[trigger] g[k].t == scheduled_time(g, k) by {
        if k < n {
            lemma_scheduled_time_prefix(before, g, k);
            assert(g[k] == before[k]);
            assert(before[k].t == scheduled_time(before, k));
        }
    }
}

/// Renders an animation of `frame_count` frames (at least the four anchors)
/// whose times concentrate where the picture changes fastest. Starting from
/// anchors at `0`, `1/4`, `1/2` and `3/4`, it repeatedly takes the first
/// interval between neighbouring frames whose difference is highest, renders
/// the frame at its midpoint and splits the interval in two. The frames come
/// back sorted by time: the same frames as a run of the scheduler
/// (`is_schedule`). Up to 66 frames, no interval is ever too short to split,
/// and the times strictly increase.
pub fn render_vfr<F: Fn(PixelCoordinate, u64) -> u64>(ctx: RenderingContext, frame_count: u32, eval: &F) -> (r:
    Vec<Frame>)
    requires
        ctx.wf(),
        forall|p: PixelCoordinate, s: u64| eval.requires((p, s)),
        forall|p: PixelCoordinate, s: u64, n: u64| eval.ensures((p, s), n) ==> n <= ctx.max_iter,
    ensures
        r.len() == if frame_count < 4 {
            4
        } else {
            frame_count as int
        },
        exists|g: Seq<Frame>| #[trigger] is_schedule(g) && g.len() == r.len() && g.to_multiset() == r@.to_multiset(),
        sorted_by_time(r@),
        frame_count <= 66 ==> strictly_sorted_by_time(r@),
        frames_of(r@, ctx, *eval),
        has_time(r@, 0),
        has_time(r@, QUARTER as int),
        has_time(r@, 2 * QUARTER),
        has_time(r@, 3 * QUARTER),
{
    let mut frames: Vec<Frame> = Vec::new();
    let mut k: u64 = 0;
    while k < 4
        invariant
            0 <= k <= 4,
            ctx.wf(),
            frames.len() == k,
            forall|j: int| 0 <= j < k ==> #[trigger] frames[j].t == j * QUARTER,
            frames_of(frames@, ctx, *eval),
            forall|p: PixelCoordinate, s: u64| eval.requires((p, s)),
            forall|p: PixelCoordinate, s: u64, n: u64| eval.ensures((p, s), n) ==> n <= ctx.max_iter,
        decreases 4 - k,
    {
        let f = render_frame(ctx, eval, k * QUARTER);
        let ghost before = frames@;
        frames.push(f);
        proof {
            lemma_frames_of_push(before, f, ctx, *eval);
        }
        k = k + 1;
    }
    let mut queue: Vec<Interval> = Vec::new();
    queue.push(Interval::new(&frames, 0, 1));
    queue.push(Interval::new(&frames, 1, 2));
    queue.push(Interval::new(&frames, 2, 3));
    queue.push(Interval::new(&frames, 3, 0));
    proof {
        let g = frames@;
        assert(queue@ =~= queue_after(g, 4));
        assert forall|j: int| 0 <= j < 4 implies #[trigger] g[j].t == scheduled_time(g, j) by {}
        assert(pow2(62) == QUARTER) by {
            reveal_with_fuel(pow2, 63);
        }
        assert(pow2((66 - 4) as nat) == QUARTER);
        let q = queue@;
        assert(arc_start(q[0], g) == 0 && arc_end(q[0], g) == QUARTER);
        assert(arc_start(q[1], g) == QUARTER && arc_end(q[1], g) == 2 * QUARTER);
        assert(arc_start(q[2], g) == 2 * QUARTER && arc_end(q[2], g) == 3 * QUARTER);
        assert(arc_start(q[3], g) == 3 * QUARTER && arc_end(q[3], g) == turn());
        reveal(tiled);
        assert forall|j: int| 0 <= j < q.len() implies arc_start(#[trigger] q[j], g) < arc_end(q[j], g) && (arc_end(
            q[j],
            g,
        ) - arc_start(q[j], g)) % (QUARTER as int) == 0 by {
            assert(arc_end(q[j], g) - arc_start(q[j], g) == QUARTER);
        }
    }
    while frames.len() < frame_count as usize
        invariant
            4 <= frames.len(),
            frames.len() <= if frame_count < 4 {
                4
            } else {
                frame_count as int
            },
            queue.len() == frames.len(),
            frames_of(frames@, ctx, *eval),
            forall|j: int| 0 <= j < 4 ==> #[trigger] frames[j].t == j * QUARTER,
            forall|j: int| 0 <= j < queue.len() ==> interval_of(#[trigger] queue[j], frames@),
            is_schedule(frames@),
            queue@ == queue_after(frames@, frames.len() as int),
            frame_count <= 66 ==> tiled(frames@, queue@, pow2((66 - frames.len()) as nat) as int),
            ctx.wf(),
            forall|p: PixelCoordinate, s: u64| eval.requires((p, s)),
            forall|p: PixelCoordinate, s: u64, n: u64| eval.ensures((p, s), n) ==> n <= ctx.max_iter,
        decreases frame_count - frames.len(),
    {
        let ghost before = frames@;
        let ghost q0 = queue@;
        let idx = subdivide_highest(ctx, eval, &mut frames, &mut queue);
        proof {
            lemma_schedule_step(before, q0, frames@, queue@, idx as int);
            assert forall|j: int| 0 <= j < 4 implies #[trigger] frames[j].t == j * QUARTER by {
                assert(frames@[j] == before[j]);
            }
            if frame_count <= 66 {
                lemma_split_keeps_tiling(before, q0, idx as int, frames@[before.len() as int], frames@, queue@);
            }
        }
    }
    let ghost generated = frames@;
    let sorted = sort_by_time(frames);
    proof {
        assert forall|f: int| 0 <= f < sorted.len() implies {
            &&& (#[trigger] sorted[f]).grid.len() == ctx.total()
            &&& bounded(sorted[f].grid@, ctx.max_iter as int)
            &&& forall|i: int|
                0 <= i < ctx.total() ==> eval.ensures((ctx.point_at(i), sorted[f].t), #[trigger] sorted[f].grid[i])
        } by {
            let j = choose|j: int| 0 <= j < generated.len() && generated[j] == sorted[f];
            assert(generated[j] == sorted[f]);
        }
        assert forall|k: int| 0 <= k < 4 implies has_time(sorted@, (#[trigger] generated[k]).t as int) by {
            assert(sorted@.contains(generated[k]));
            let i = choose|i: int| 0 <= i < sorted.len() && sorted@[i] == generated[k];
            assert(sorted[i].t == generated[k].t);
        }
        assert(has_time(sorted@, generated[0].t as int));
        assert(has_time(sorted@, generated[1].t as int));
        assert(has_time(sorted@, generated[2].t as int));
        assert(has_time(sorted@, generated[3].t as int));
        assert(is_schedule(generated));
        if frame_count <= 66 {
            reveal(tiled);
            assert(distinct_times(generated));
        }
    }
    sorted
}

proof fn lemma_frames_of_push<F: Fn(PixelCoordinate, u64) -> u64>(
    frames: Seq<Frame>,
    f: Frame,
    ctx: RenderingContext,
    eval: F,
)
    requires
        frames_of(frames, ctx, eval),
        frames_of(seq![f], ctx, eval),
    ensures
        frames_of(frames.push(f), ctx, eval),
{
    let s = frames.push(f);
    assert forall|k: int| 0 <= k < s.len() implies {
        &&& (#[trigger] s[k]).grid.len() == ctx.total()
        &&& bounded(s[k].grid@, ctx.max_iter as int)
        &&& forall|i: int| 0 <= i < ctx.total() ==> eval.ensures((ctx.point_at(i), s[k].t), #[trigger] s[k].grid[i])
    } by {
        if k < frames.len() {
            assert(s[k] == frames[k]);
        } else {
            assert(s[k] == seq![f][0]);
        }
    }
}

/// `|g[p] - g[n]|` between pixel `(px, py)` and its neighbour at offset
/// `(a, b)`, or `0` where the neighbour lies outside the grid.
pub open spec fn neighbor_diff(ctx: RenderingContext, g: Seq<u64>, px: int, py: int, a: int, b: int) -> int {
    let nx = px + a;
    let ny = py + b;
    if 0 <= nx < ctx.x_px && 0 <= ny < ctx.y_px {
        abs_diff(g[py * ctx.x_px + px] as int, g[ny * ctx.x_px + nx] as int)
    } else {
        0
    }
}

/// The contrast of pixel `(px, py)`: the sum of its differences to its
/// (up to eight) neighbours.
pub open spec fn contrast_weight(ctx: RenderingContext, g: Seq<u64>, px: int, py: int) -> int {
    neighbor_diff(ctx, g, px, py, -1, -1) + neighbor_diff(ctx, g, px, py, -1, 0) + neighbor_diff(
        ctx,
        g,
        px,
        py,
        -1,
        1,
    ) + neighbor_diff(ctx, g, px, py, 0, -1) + neighbor_diff(ctx, g, px, py, 0, 1) + neighbor_diff(
        ctx,
        g,
        px,
        py,
        1,
        -1,
    ) + neighbor_diff(ctx, g, px, py, 1, 0) + neighbor_diff(ctx, g, px, py, 1, 1)
}

/// The contrast of the first `n` pixels of `g` whose count is `k`, summed.
pub open spec fn contrast_sum(ctx: RenderingContext, g: Seq<u64>, n: int, k: int) -> int
    decreases n,
{
    if n <= 0 {
        0
    } else {
        contrast_sum(ctx, g, n - 1, k) + if g[n - 1] == k {
            contrast_weight(ctx, g, (n - 1) % (ctx.x_px as int), (n - 1) / (ctx.x_px as int))
        } else {
            0
        }
    }
}

/// `|g[p] - g[n]|` for the neighbour at offset `(a, b)` of pixel `(px, py)`.
fn neighbor_diff_exec(ctx: &RenderingContext, grid: &Vec<u64>, px: u32, py: u32, a: i8, b: i8) -> (r: u64)
    requires
        ctx.wf(),
        grid.len() == ctx.total(),
        bounded(grid@, ctx.max_iter as int),
        px < ctx.x_px,
        py < ctx.y_px,
        -1 <= a <= 1,
        -1 <= b <= 1,
    ensures
        r == neighbor_diff(*ctx, grid@, px as int, py as int, a as int, b as int),
        r <= ctx.max_iter,
{
    let nx = px as i64 + a as i64;
    let ny = py as i64 + b as i64;
    if nx < 0 || nx >= ctx.x_px as i64 || ny < 0 || ny >= ctx.y_px as i64 {
        return 0;
    }
    proof {
        crate::context::lemma_pixel_position(*ctx, px as int, py as int);
        crate::context::lemma_pixel_position(*ctx, nx as int, ny as int);
    }
    let w = ctx.x_px as usize;
    let here = grid[(py as usize) * w + px as usize];
    let there = grid[(ny as usize) * w + nx as usize];
    if here >= there {
        here - there
    } else {
        there - here
    }
}

proof fn lemma_contrast_sum_bound(ctx: RenderingContext, g: Seq<u64>, n: int, k: int)
    requires
        ctx.wf(),
        g.len() == ctx.total(),
        bounded(g, ctx.max_iter as int),
        0 <= n <= g.len(),
    ensures
        0 <= contrast_sum(ctx, g, n, k) <= 8 * ctx.max_iter * n,
    decreases n,
{
    if n > 0 {
        lemma_contrast_sum_bound(ctx, g, n - 1, k);
        let w = ctx.x_px as int;
        let px = (n - 1) % w;
        let py = (n - 1) / w;
        crate::context::lemma_points_cover_grid_once(ctx);
        assert(0 <= px < ctx.x_px && 0 <= py < ctx.y_px);
        lemma_weight_bound(ctx, g, px, py);
        assert(8 * ctx.max_iter * (n - 1) + 8 * ctx.max_iter == 8 * ctx.max_iter * n) by (nonlinear_arith);
    }
}

proof fn lemma_weight_bound(ctx: RenderingContext, g: Seq<u64>, px: int, py: int)
    requires
        ctx.wf(),
        g.len() == ctx.total(),
        bounded(g, ctx.max_iter as int),
        0 <= px < ctx.x_px,
        0 <= py < ctx.y_px,
    ensures
        0 <= contrast_weight(ctx, g, px, py) <= 8 * ctx.max_iter,
{
    assert forall|a: int, b: int| -1 <= a <= 1 && -1 <= b <= 1 implies 0 <= #[trigger] neighbor_diff(
        ctx,
        g,
        px,
        py,
        a,
        b,
    ) <= ctx.max_iter by {
        let nx = px + a;
        let ny = py + b;
        if 0 <= nx < ctx.x_px && 0 <= ny < ctx.y_px {
            crate::context::lemma_pixel_position(ctx, px, py);
            crate::context::lemma_pixel_position(ctx, nx, ny);
        }
    }
    assert(0 <= neighbor_diff(ctx, g, px, py, -1, -1) <= ctx.max_iter);
    assert(0 <= neighbor_diff(ctx, g, px, py, -1, 0) <= ctx.max_iter);
    assert(0 <= neighbor_diff(ctx, g, px, py, -1, 1) <= ctx.max_iter);
    assert(0 <= neighbor_diff(ctx, g, px, py, 0, -1) <= ctx.max_iter);
    assert(0 <= neighbor_diff(ctx, g, px, py, 0, 1) <= ctx.max_iter);
    assert(0 <= neighbor_diff(ctx, g, px, py, 1, -1) <= ctx.max_iter);
    assert(0 <= neighbor_diff(ctx, g, px, py, 1, 0) <= ctx.max_iter);
    assert(0 <= neighbor_diff(ctx, g, px, py, 1, 1) <= ctx.max_iter);
}

/// Adds the contrast of every escaping pixel of a frame to the bucket of its
/// count: a histogram weighted by neighbour contrast rather than frequency.
pub fn accumulate_contrast(ctx: &RenderingContext, grid: &Vec<u64>, histogram: &mut Vec<u64>)
    requires
        ctx.wf(),
        grid.len() == ctx.total(),
        bounded(grid@, ctx.max_iter as int),
        old(histogram).len() == ctx.max_iter,
        forall|k: int| 0 <= k < ctx.max_iter ==> old(histogram)[k] + 8 * ctx.max_iter * grid.len() <= u64::MAX,
    ensures
        final(histogram).len() == ctx.max_iter,
        forall|k: int|
            0 <= k < ctx.max_iter ==> #[trigger] final(histogram)[k] == old(histogram)[k] + contrast_sum(
                *ctx,
                grid@,
                grid.len() as int,
                k,
            ),
{
    let ghost h0 = histogram@;
    let max_iter = ctx.max_iter;
    let w = ctx.x_px as usize;
    let n = grid.len();
    let mut i: usize = 0;
    while i < n
        invariant
            ctx.wf(),
            max_iter == ctx.max_iter,
            w == ctx.x_px,
            n == grid.len(),
            grid.len() == ctx.total(),
            bounded(grid@, ctx.max_iter as int),
            0 <= i <= n,
            histogram.len() == max_iter,
            h0.len() == max_iter,
            forall|k: int| 0 <= k < max_iter ==> h0[k] + 8 * max_iter * n <= u64::MAX,
            forall|k: int|
                0 <= k < max_iter ==> #[trigger] histogram[k] == h0[k] + contrast_sum(*ctx, grid@, i as int, k),
        decreases n - i,
    {
        let iter = grid[i];
        if iter != max_iter {
            let px = (i % w) as u32;
            let py = (i / w) as u32;
            proof {
                crate::context::lemma_points_cover_grid_once(*ctx);
                assert(0 <= i as int % w as int && (i as int % w as int) < ctx.x_px);
                assert(0 <= i as int / w as int && (i as int / w as int) < ctx.y_px);
            }
            let d1 = neighbor_diff_exec(ctx, grid, px, py, -1, -1);
            let d2 = neighbor_diff_exec(ctx, grid, px, py, -1, 0);
            let d3 = neighbor_diff_exec(ctx, grid, px, py, -1, 1);
            let d4 = neighbor_diff_exec(ctx, grid, px, py, 0, -1);
            let d5 = neighbor_diff_exec(ctx, grid, px, py, 0, 1);
            let d6 = neighbor_diff_exec(ctx, grid, px, py, 1, -1);
            let d7 = neighbor_diff_exec(ctx, grid, px, py, 1, 0);
            let d8 = neighbor_diff_exec(ctx, grid, px, py, 1, 1);
            let conv: u128 = d1 as u128 + d2 as u128 + d3 as u128 + d4 as u128 + d5 as u128 + d6 as u128
                + d7 as u128 + d8 as u128;
            proof {
                lemma_contrast_sum_bound(*ctx, grid@, i as int + 1, iter as int);
                assert(contrast_sum(*ctx, grid@, i as int + 1, iter as int) == contrast_sum(
                    *ctx,
                    grid@,
                    i as int,
                    iter as int,
                ) + conv);
                assert(8 * max_iter * (i + 1) <= 8 * max_iter * n) by (nonlinear_arith)
                    requires i + 1 <= n;
            }
            let c = histogram[iter as usize];
            histogram.set(iter as usize, (c as u128 + conv) as u64);
        }
        i = i + 1;
    }
}

/// The denominator that positions a frame's pixels on the gradient: the last
/// cumulative entry (the total contrast), or `1` when that is zero.
pub open spec fn shared_den(cumulative: Seq<u64>) -> u64 {
    if cumulative.len() > 0 && cumulative.last() > 0 {
        cumulative.last()
    } else {
        1
    }
}

/// Colors a frame against the distribution shared by all frames: black where
/// the count is `max_iter`, else the scheme's color at
/// `cumulative[count] / shared_den(cumulative)`.
pub fn color_frame(cs: &ColorScheme, grid: &Vec<u64>, cumulative: &Vec<u64>, max_iter: u64) -> (r: Vec<Color>)
    requires
        cs.wf(),
        cs@.len() > 0,
        cumulative.len() == max_iter,
        bounded(grid@, max_iter as int),
    ensures
        r.len() == grid.len(),
        forall|i: int|
            0 <= i < grid.len() ==> #[trigger] r[i] == pixel_color(
                cs@,
                cumulative@,
                shared_den(cumulative@),
                max_iter,
                grid[i],
            ),
{
    let n = cumulative.len();
    let den = if n > 0 && cumulative[n - 1] > 0 {
        cumulative[n - 1]
    } else {
        1
    };
    color_grid(cs, grid, cumulative, den, max_iter)
}

/// Bucket `k` of the contrast histogram of all `grids`, summed over frames.
pub open spec fn frames_contrast(ctx: RenderingContext, grids: Seq<Seq<u64>>, k: int) -> int
    decreases grids.len(),
{
    if grids.len() == 0 {
        0
    } else {
        frames_contrast(ctx, grids.drop_last(), k) + contrast_sum(ctx, grids.last(), ctx.total() as int, k)
    }
}

/// The shared contrast histogram summed over the buckets below `k`.
pub open spec fn contrast_prefix(ctx: RenderingContext, grids: Seq<Seq<u64>>, k: int) -> int
    decreases k,
{
    if k <= 0 {
        0
    } else {
        contrast_prefix(ctx, grids, k - 1) + frames_contrast(ctx, grids, k - 1)
    }
}

/// The cumulative distribution shared by all frames: entry `k` is the
/// contrast of all escaping pixels, over all frames, with a count of at most
/// `k`.
pub open spec fn shared_cumulative(ctx: RenderingContext, grids: Seq<Seq<u64>>) -> Seq<u64> {
    Seq::new(ctx.max_iter as nat, |k: int| contrast_prefix(ctx, grids, k + 1) as u64)
}

/// The contrast of one grid summed over the buckets below `m`.
pub open spec fn grid_contrast_prefix(ctx: RenderingContext, g: Seq<u64>, n: int, m: int) -> int
    decreases m,
{
    if m <= 0 {
        0
    } else {
        grid_contrast_prefix(ctx, g, n, m - 1) + contrast_sum(ctx, g, n, m - 1)
    }
}

proof fn lemma_grid_contrast_prefix_step(ctx: RenderingContext, g: Seq<u64>, n: int, m: int)
    requires
        n >= 1,
        m >= 0,
    ensures
        grid_contrast_prefix(ctx, g, n, m) == grid_contrast_prefix(ctx, g, n - 1, m) + if g[n - 1] < m {
            contrast_weight(ctx, g, (n - 1) % (ctx.x_px as int), (n - 1) / (ctx.x_px as int))
        } else {
            0
        },
    decreases m,
{
    if m > 0 {
        lemma_grid_contrast_prefix_step(ctx, g, n, m - 1);
    }
}

proof fn lemma_grid_contrast_prefix_bound(ctx: RenderingContext, g: Seq<u64>, n: int, m: int)
    requires
        ctx.wf(),
        g.len() == ctx.total(),
        bounded(g, ctx.max_iter as int),
        0 <= n <= g.len(),
        m >= 0,
    ensures
        0 <= grid_contrast_prefix(ctx, g, n, m) <= 8 * ctx.max_iter * n,
    decreases n,
{
    if n == 0 {
        lemma_grid_contrast_prefix_zero(ctx, g, m);
    } else {
        lemma_grid_contrast_prefix_bound(ctx, g, n - 1, m);
        lemma_grid_contrast_prefix_step(ctx, g, n, m);
        let w = ctx.x_px as int;
        crate::context::lemma_points_cover_grid_once(ctx);
        assert(0 <= (n - 1) % w < ctx.x_px && 0 <= (n - 1) / w < ctx.y_px);
        lemma_weight_bound(ctx, g, (n - 1) % w, (n - 1) / w);
        assert(8 * ctx.max_iter * (n - 1) + 8 * ctx.max_iter == 8 * ctx.max_iter * n) by (nonlinear_arith);
    }
}

proof fn lemma_grid_contrast_prefix_zero(ctx: RenderingContext, g: Seq<u64>, m: int)
    ensures
        grid_contrast_prefix(ctx, g, 0, m) == 0,
    decreases m,
{
    if m > 0 {
        lemma_grid_contrast_prefix_zero(ctx, g, m - 1);
    }
}

proof fn lemma_contrast_prefix_push(ctx: RenderingContext, grids: Seq<Seq<u64>>, g: Seq<u64>, m: int)
    requires
        m >= 0,
    ensures
        contrast_prefix(ctx, grids.push(g), m) == contrast_prefix(ctx, grids, m) + grid_contrast_prefix(
            ctx,
            g,
            ctx.total() as int,
            m,
        ),
    decreases m,
{
    if m > 0 {
        lemma_contrast_prefix_push(ctx, grids, g, m - 1);
        assert(grids.push(g).drop_last() == grids);
    }
}

proof fn lemma_contrast_prefix_empty(ctx: RenderingContext, m: int)
    ensures
        contrast_prefix(ctx, Seq::<Seq<u64>>::empty(), m) == 0,
    decreases m,
{
    if m > 0 {
        lemma_contrast_prefix_empty(ctx, m - 1);
    }
}

proof fn lemma_single_cumulative(ctx: RenderingContext, grids: Seq<Seq<u64>>, h: Seq<u64>, k: int)
    requires
        h.len() == ctx.max_iter,
        forall|j: int| 0 <= j < ctx.max_iter ==> #[trigger] h[j] == frames_contrast(ctx, grids, j),
        0 <= k <= ctx.max_iter,
    ensures
        cumulative_of(seq![h], k) == contrast_prefix(ctx, grids, k),
    decreases k,
{
    if k > 0 {
        lemma_single_cumulative(ctx, grids, h, k - 1);
        assert(seq![h].drop_last().len() == 0);
        assert(bucket_total(seq![h].drop_last(), k - 1) == 0);
        assert(seq![h].last() == h);
        assert(bucket_total(seq![h], k - 1) == h[k - 1]);
    }
}

/// Renders `frames` frames, frame `f` at time `f`, and colors all of them
/// against one distribution: the neighbour-contrast histogram of every frame,
/// merged. This keeps the contrast even across the whole sequence. Returns the
/// counts of each frame, row-major, and its colors.
pub fn render_animation<F: Fn(PixelCoordinate, u64) -> u64>(
    ctx: RenderingContext,
    cs: &ColorScheme,
    frames: u32,
    eval: &F,
) -> (r: (Vec<Vec<u64>>, Vec<Vec<Color>>))
    requires
        ctx.wf(),
        cs.wf(),
        cs@.len() > 0,
        forall|p: PixelCoordinate, s: u64| eval.requires((p, s)),
        forall|p: PixelCoordinate, s: u64, n: u64| eval.ensures((p, s), n) ==> n <= ctx.max_iter,
        8 * ctx.max_iter * ctx.total() * frames <= u64::MAX,
    ensures
        r.0.len() == frames,
        r.1.len() == frames,
        forall|f: int|
            0 <= f < frames ==> {
                &&& (#[trigger] r.0[f]).len() == ctx.total()
                &&& bounded(r.0[f]@, ctx.max_iter as int)
                &&& forall|i: int|
                    0 <= i < ctx.total() ==> eval.ensures((ctx.point_at(i), f as u64), #[trigger] r.0[f][i])
            },
        forall|f: int, i: int|
            0 <= f < frames && 0 <= i < ctx.total() ==> #[trigger] r.1[f][i] == pixel_color(
                cs@,
                shared_cumulative(ctx, views(r.0@)),
                shared_den(shared_cumulative(ctx, views(r.0@))),
                ctx.max_iter,
                r.0[f][i],
            ),
{
    let max_iter = ctx.max_iter;
    let ghost total = ctx.total() as int;
    let ghost bound = 8 * ctx.max_iter * total;
    let mut hist = empty_histogram(max_iter);
    let mut grids: Vec<Vec<u64>> = Vec::new();
    let mut f: u32 = 0;
    proof {
        assert(0 <= bound) by (nonlinear_arith)
            requires bound == 8 * ctx.max_iter * total, total >= 0;
        lemma_contrast_prefix_empty(ctx, max_iter as int);
        assert(views(grids@) == Seq::<Seq<u64>>::empty());
    }
    while f < frames
        invariant
            ctx.wf(),
            max_iter == ctx.max_iter,
            total == ctx.total(),
            bound == 8 * ctx.max_iter * total,
            0 <= bound,
            bound * frames <= u64::MAX,
            forall|p: PixelCoordinate, s: u64| eval.requires((p, s)),
            forall|p: PixelCoordinate, s: u64, n: u64| eval.ensures((p, s), n) ==> n <= ctx.max_iter,
            0 <= f <= frames,
            grids.len() == f,
            hist.len() == max_iter,
            forall|g: int|
                0 <= g < f ==> {
                    &&& (#[trigger] grids[g]).len() == ctx.total()
                    &&& bounded(grids[g]@, ctx.max_iter as int)
                    &&& forall|i: int|
                        0 <= i < ctx.total() ==> eval.ensures((ctx.point_at(i), g as u64), #[trigger] grids[g][i])
                },
            forall|k: int|
                0 <= k < max_iter ==> #[trigger] hist[k] == frames_contrast(ctx, views(grids@), k),
            forall|k: int| 0 <= k < max_iter ==> 0 <= #[trigger] hist[k] <= bound * f,
            0 <= contrast_prefix(ctx, views(grids@), max_iter as int) <= bound * f,
        decreases frames - f,
    {
        let grid = compute_grid(ctx, eval, f as u64);
        let ghost before = views(grids@);
        let ghost h0 = hist@;
        proof {
            assert(bound * f + bound <= u64::MAX) by (nonlinear_arith)
                requires bound * frames <= u64::MAX, f < frames, bound >= 0;
            assert forall|k: int| 0 <= k < ctx.max_iter implies hist[k] + 8 * ctx.max_iter * grid.len()
                <= u64::MAX by {}
        }
        accumulate_contrast(&ctx, &grid, &mut hist);
        grids.push(grid);
        proof {
            let after = views(grids@);
            assert(after == before.push(grid@));
            assert(after.drop_last() == before);
            assert forall|k: int| 0 <= k < max_iter implies #[trigger] hist[k] == frames_contrast(
                ctx,
                after,
                k,
            ) by {}
            assert forall|k: int| 0 <= k < max_iter implies 0 <= #[trigger] hist[k] <= bound * (f + 1) by {
                lemma_contrast_sum_bound(ctx, grid@, total, k);
                assert(bound * f + bound == bound * (f + 1)) by (nonlinear_arith);
            }
            lemma_contrast_prefix_push(ctx, before, grid@, max_iter as int);
            lemma_grid_contrast_prefix_bound(ctx, grid@, total, max_iter as int);
            assert(bound * f + bound == bound * (f + 1)) by (nonlinear_arith);
            assert forall|g: int| 0 <= g < f + 1 implies {
                &&& (#[trigger] grids[g]).len() == ctx.total()
                &&& bounded(grids[g]@, ctx.max_iter as int)
                &&& forall|i: int|
                    0 <= i < ctx.total() ==> eval.ensures((ctx.point_at(i), g as u64), #[trigger] grids[g][i])
            } by {}
        }
        f = f + 1;
    }
    let ghost all = views(grids@);
    let hs = vec![hist];
    proof {
        assert(views(hs@) == seq![hist@]);
        lemma_single_cumulative(ctx, all, hist@, max_iter as int);
        assert(bound * f <= u64::MAX);
    }
    let cumulative = merge_histograms(&hs, max_iter);
    proof {
        assert forall|k: int| 0 <= k < max_iter implies #[trigger] cumulative[k] == contrast_prefix(ctx, all, k + 1) by {
            lemma_single_cumulative(ctx, all, hist@, k + 1);
        }
        assert(cumulative@ == shared_cumulative(ctx, all));
    }
    let mut colors: Vec<Vec<Color>> = Vec::new();
    let mut g: usize = 0;
    while g < grids.len()
        invariant
            cs.wf(),
            cs@.len() > 0,
            cumulative.len() == max_iter,
            cumulative@ == shared_cumulative(ctx, all),
            all == views(grids@),
            grids.len() == frames,
            max_iter == ctx.max_iter,
            forall|h: int|
                0 <= h < frames ==> {
                    &&& (#[trigger] grids[h]).len() == ctx.total()
                    &&& bounded(grids[h]@, ctx.max_iter as int)
                },
            0 <= g <= grids.len(),
            colors.len() == g,
            forall|h: int, i: int|
                0 <= h < g && 0 <= i < ctx.total() ==> #[trigger] colors[h][i] == pixel_color(
                    cs@,
                    cumulative@,
                    shared_den(cumulative@),
                    max_iter,
                    grids[h][i],
                ),
        decreases grids.len() - g,
    {
        let c = color_frame(cs, &grids[g], &cumulative, max_iter);
        colors.push(c);
        g = g + 1;
    }
    (grids, colors)
}

} // verus!
