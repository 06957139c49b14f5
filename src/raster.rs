//! Rasterization: iteration counts per pixel, per-worker histograms, their
//! merge into one cumulative distribution, and histogram-equalized coloring.
//!
//! A grid of iteration counts is row-major: pixel `(px, py)` is entry
//! `py * x_px + px`. The count `max_iter` marks an interior point.
use vstd::prelude::*;
use crate::color::{lookup, Color, ColorScheme, ColorSchemeColor, Fraction};
use crate::context::{PixelCoordinate, RenderingContext, RowPixelIterator};

verus! {

/// How many entries of `s` equal `v`.
pub open spec fn count(s: Seq<u64>, v: int) -> nat
    decreases s.len(),
{
    if s.len() == 0 {
        0
    } else {
        count(s.drop_last(), v) + if s.last() == v {
            1nat
        } else {
            0nat
        }
    }
}

/// How many entries of `s` lie below `m`.
pub open spec fn count_below(s: Seq<u64>, m: int) -> nat
    decreases s.len(),
{
    if s.len() == 0 {
        0
    } else {
        count_below(s.drop_last(), m) + if s.last() < m {
            1nat
        } else {
            0nat
        }
    }
}

/// The contents of a list of histograms.
pub open spec fn views(hs: Seq<Vec<u64>>) -> Seq<Seq<u64>> {
    hs.map_values(|h: Vec<u64>| h@)
}

/// Bucket `k` summed over all histograms `hs`.
pub open spec fn bucket_total(hs: Seq<Seq<u64>>, k: int) -> int
    decreases hs.len(),
{
    if hs.len() == 0 {
        0
    } else {
        bucket_total(hs.drop_last(), k) + hs.last()[k]
    }
}

/// The merged histogram `hs` summed over the buckets below `k`.
pub open spec fn cumulative_of(hs: Seq<Seq<u64>>, k: int) -> int
    decreases k,
{
    if k <= 0 {
        0
    } else {
        cumulative_of(hs, k - 1) + bucket_total(hs, k - 1)
    }
}

/// `h` is the histogram of the escaping counts of `grid`: one bucket for each
/// count below `max_iter`.
pub open spec fn is_histogram_of(h: Seq<u64>, grid: Seq<u64>, max_iter: int) -> bool {
    &&& h.len() == max_iter
    &&& forall|k: int| 0 <= k < max_iter ==> h[k] == count(grid, k)
}

/// Every entry of `s` lies in `[0, max_iter]`.
pub open spec fn bounded(s: Seq<u64>, max_iter: int) -> bool {
    forall|i: int| 0 <= i < s.len() ==> s[i] <= max_iter
}

/// The color of a pixel with count `iter`: black for an interior point, else
/// the scheme's color at `cumulative[iter] / total`.
pub open spec fn pixel_color(
    stops: Seq<ColorSchemeColor>,
    cumulative: Seq<u64>,
    total: u64,
    max_iter: u64,
    iter: u64,
) -> Color {
    if iter == max_iter {
        Color::black_spec()
    } else {
        lookup(stops, Fraction { num: cumulative[iter as int], den: total })
    }
}

/// How many pixels with count `v` the rows that `owner` gives to worker `w`
/// hold (row `r` goes to worker `owner[r]`).
pub open spec fn owned_count(rows: Seq<Seq<u64>>, owner: Seq<int>, w: int, v: int) -> nat
    decreases rows.len(),
{
    if rows.len() == 0 {
        0
    } else {
        owned_count(rows.drop_last(), owner, w, v) + if owner[rows.len() - 1] == w {
            count(rows.last(), v)
        } else {
            0nat
        }
    }
}

/// `owned_count` summed over the workers below `n`.
pub open spec fn workers_count(rows: Seq<Seq<u64>>, owner: Seq<int>, n: int, v: int) -> nat
    decreases n,
{
    if n <= 0 {
        0
    } else {
        workers_count(rows, owner, n - 1, v) + owned_count(rows, owner, n - 1, v)
    }
}

/// The cumulative distribution of a grid: entry `k` is the number of pixels
/// whose count is at most `k`.
pub open spec fn equalized(grid: Seq<u64>, max_iter: int) -> Seq<u64> {
    Seq::new(max_iter as nat, |k: int| count_below(grid, k + 1) as u64)
}

proof fn lemma_count_concat(a: Seq<u64>, b: Seq<u64>, v: int)
    ensures
        count(a + b, v) == count(a, v) + count(b, v),
    decreases b.len(),
{
    if b.len() == 0 {
        assert(a + b == a);
    } else {
        assert((a + b).drop_last() == a + b.drop_last());
        lemma_count_concat(a, b.drop_last(), v);
    }
}

proof fn lemma_workers_count_step(rows: Seq<Seq<u64>>, owner: Seq<int>, m: int, v: int)
    requires
        rows.len() > 0,
        0 <= owner[rows.len() - 1],
        0 <= m,
    ensures
        workers_count(rows, owner, m, v) == workers_count(rows.drop_last(), owner, m, v) + if owner[rows.len()
            - 1] < m {
            count(rows.last(), v)
        } else {
            0nat
        },
    decreases m,
{
    if m > 0 {
        lemma_workers_count_step(rows, owner, m - 1, v);
    }
}

proof fn lemma_workers_count_flatten(rows: Seq<Seq<u64>>, owner: Seq<int>, n: int, v: int)
    requires
        owner.len() == rows.len(),
        forall|r: int| 0 <= r < rows.len() ==> 0 <= #[trigger] owner[r] < n,
    ensures
        workers_count(rows, owner, n, v) == count(rows.flatten(), v),
    decreases rows.len(),
{
    if rows.len() == 0 {
        lemma_workers_count_zero(rows, owner, n, v);
    } else {
        let init = rows.drop_last();
        assert(owner[rows.len() - 1] < n);
        lemma_workers_count_step(rows, owner, n, v);
        let o = owner.drop_last();
        assert forall|r: int| 0 <= r < init.len() implies 0 <= #[trigger] o[r] < n by {
            assert(o[r] == owner[r]);
        }
        lemma_workers_count_flatten(init, o, n, v);
        lemma_workers_count_owner_prefix(init, owner, n, v);
        assert(owner.take(init.len() as int) == o);
        assert(rows == init.push(rows.last()));
        init.lemma_flatten_push(rows.last());
        lemma_count_concat(init.flatten(), rows.last(), v);
    }
}

/// Only the first `rows.len()` entries of `owner` matter.
proof fn lemma_workers_count_owner_prefix(rows: Seq<Seq<u64>>, owner: Seq<int>, n: int, v: int)
    requires
        owner.len() >= rows.len(),
    ensures
        workers_count(rows, owner, n, v) == workers_count(rows, owner.take(rows.len() as int), n, v),
    decreases n,
{
    if n > 0 {
        lemma_workers_count_owner_prefix(rows, owner, n - 1, v);
        lemma_owned_count_owner_prefix(rows, owner, n - 1, v);
    }
}

proof fn lemma_owned_count_owner_prefix(rows: Seq<Seq<u64>>, owner: Seq<int>, w: int, v: int)
    requires
        owner.len() >= rows.len(),
    ensures
        owned_count(rows, owner, w, v) == owned_count(rows, owner.take(rows.len() as int), w, v),
    decreases rows.len(),
{
    if rows.len() > 0 {
        let init = rows.drop_last();
        lemma_owned_count_owner_prefix(init, owner, w, v);
        lemma_owned_count_owner_prefix(init, owner.take(rows.len() as int), w, v);
        assert(owner.take(rows.len() as int).take(init.len() as int) == owner.take(init.len() as int));
    }
}

proof fn lemma_workers_count_zero(rows: Seq<Seq<u64>>, owner: Seq<int>, n: int, v: int)
    requires
        rows.len() == 0,
    ensures
        workers_count(rows, owner, n, v) == 0,
    decreases n,
{
    if n > 0 {
        lemma_workers_count_zero(rows, owner, n - 1, v);
    }
}

proof fn lemma_bucket_total_workers(hs: Seq<Seq<u64>>, rows: Seq<Seq<u64>>, owner: Seq<int>, j: int)
    requires
        forall|w: int| 0 <= w < hs.len() ==> (#[trigger] hs[w])[j] == owned_count(rows, owner, w, j),
    ensures
        bucket_total(hs, j) == workers_count(rows, owner, hs.len() as int, j),
    decreases hs.len(),
{
    if hs.len() > 0 {
        let init = hs.drop_last();
        assert forall|w: int| 0 <= w < init.len() implies (#[trigger] init[w])[j] == owned_count(
            rows,
            owner,
            w,
            j,
        ) by {
            assert(init[w] == hs[w]);
        }
        lemma_bucket_total_workers(init, rows, owner, j);
    }
}

proof fn lemma_count_below_step(g: Seq<u64>, k: int)
    ensures
        count_below(g, k + 1) == count_below(g, k) + count(g, k),
    decreases g.len(),
{
    if g.len() > 0 {
        lemma_count_below_step(g.drop_last(), k);
    }
}

proof fn lemma_count_below_monotone(g: Seq<u64>, j: int, k: int)
    requires
        j <= k,
    ensures
        count_below(g, j) <= count_below(g, k),
    decreases g.len(),
{
    if g.len() > 0 {
        lemma_count_below_monotone(g.drop_last(), j, k);
    }
}

proof fn lemma_count_below_all(g: Seq<u64>, max_iter: int)
    requires
        bounded(g, max_iter),
    ensures
        count_below(g, max_iter) + count(g, max_iter) == g.len(),
    decreases g.len(),
{
    if g.len() > 0 {
        assert(bounded(g.drop_last(), max_iter)) by {
            assert forall|i: int| 0 <= i < g.drop_last().len() implies g.drop_last()[i] <= max_iter by {
                assert(g.drop_last()[i] == g[i]);
            }
        }
        lemma_count_below_all(g.drop_last(), max_iter);
        assert(g.last() == g[g.len() - 1]);
    }
}

/// Whichever rows each worker took, merging the workers' histograms gives
/// the distribution of the whole grid: the cumulative sum below `k` is the
/// number of pixels whose count is below `k`. The colors therefore do not
/// depend on the number of workers nor on how the rows were shared out.
pub proof fn lemma_merge_equals_grid_histogram(
    rows: Seq<Seq<u64>>,
    owner: Seq<int>,
    hs: Seq<Seq<u64>>,
    max_iter: int,
)
    requires
        owner.len() == rows.len(),
        forall|r: int| 0 <= r < rows.len() ==> 0 <= #[trigger] owner[r] < hs.len(),
        forall|w: int|
            0 <= w < hs.len() ==> (#[trigger] hs[w]).len() == max_iter && forall|k: int|
                0 <= k < max_iter ==> hs[w][k] == owned_count(rows, owner, w, k),
    ensures
        forall|k: int| 0 <= k <= max_iter ==> #[trigger] cumulative_of(hs, k) == count_below(rows.flatten(), k),
{
    let g = rows.flatten();
    assert forall|k: int| 0 <= k <= max_iter implies #[trigger] cumulative_of(hs, k) == count_below(g, k) by {
        lemma_cumulative_is_count_below(rows, owner, hs, max_iter, k);
    }
}

proof fn lemma_cumulative_is_count_below(
    rows: Seq<Seq<u64>>,
    owner: Seq<int>,
    hs: Seq<Seq<u64>>,
    max_iter: int,
    k: int,
)
    requires
        owner.len() == rows.len(),
        forall|r: int| 0 <= r < rows.len() ==> 0 <= #[trigger] owner[r] < hs.len(),
        forall|w: int|
            0 <= w < hs.len() ==> (#[trigger] hs[w]).len() == max_iter && forall|k: int|
                0 <= k < max_iter ==> hs[w][k] == owned_count(rows, owner, w, k),
        0 <= k <= max_iter,
    ensures
        cumulative_of(hs, k) == count_below(rows.flatten(), k),
    decreases k,
{
    let g = rows.flatten();
    if k == 0 {
        lemma_count_below_zero(g);
    } else {
        lemma_cumulative_is_count_below(rows, owner, hs, max_iter, k - 1);
        assert forall|w: int| 0 <= w < hs.len() implies (#[trigger] hs[w])[k - 1] == owned_count(
            rows,
            owner,
            w,
            k - 1,
        ) by {}
        lemma_bucket_total_workers(hs, rows, owner, k - 1);
        lemma_workers_count_flatten(rows, owner, hs.len() as int, k - 1);
        lemma_count_below_step(g, k - 1);
    }
}

proof fn lemma_count_below_zero(g: Seq<u64>)
    ensures
        count_below(g, 0) == 0,
    decreases g.len(),
{
    if g.len() > 0 {
        lemma_count_below_zero(g.drop_last());
    }
}

/// The merged cumulative distribution never decreases, and its last entry
/// is the number of pixels that are not interior (count below `max_iter`).
pub proof fn lemma_cumulative_shape(rows: Seq<Seq<u64>>, owner: Seq<int>, hs: Seq<Seq<u64>>, max_iter: int)
    requires
        max_iter > 0,
        owner.len() == rows.len(),
        forall|r: int| 0 <= r < rows.len() ==> 0 <= #[trigger] owner[r] < hs.len(),
        forall|r: int| 0 <= r < rows.len() ==> bounded(#[trigger] rows[r], max_iter),
        forall|w: int|
            0 <= w < hs.len() ==> (#[trigger] hs[w]).len() == max_iter && forall|k: int|
                0 <= k < max_iter ==> hs[w][k] == owned_count(rows, owner, w, k),
    ensures
        forall|j: int, k: int|
            0 <= j <= k < max_iter ==> #[trigger] cumulative_of(hs, j + 1) <= #[trigger] cumulative_of(hs, k + 1),
        cumulative_of(hs, max_iter) == rows.flatten().len() - count(rows.flatten(), max_iter),
{
    let g = rows.flatten();
    lemma_merge_equals_grid_histogram(rows, owner, hs, max_iter);
    assert forall|j: int, k: int| 0 <= j <= k < max_iter implies #[trigger] cumulative_of(hs, j + 1)
        <= #[trigger] cumulative_of(hs, k + 1) by {
        lemma_count_below_monotone(g, j + 1, k + 1);
    }
    lemma_flatten_bounded(rows, max_iter);
    lemma_count_below_all(g, max_iter);
}

proof fn lemma_flatten_bounded(rows: Seq<Seq<u64>>, max_iter: int)
    requires
        forall|r: int| 0 <= r < rows.len() ==> bounded(#[trigger] rows[r], max_iter),
    ensures
        bounded(rows.flatten(), max_iter),
    decreases rows.len(),
{
    if rows.len() > 0 {
        let init = rows.drop_last();
        assert forall|r: int| 0 <= r < init.len() implies bounded(#[trigger] init[r], max_iter) by {
            assert(init[r] == rows[r]);
        }
        lemma_flatten_bounded(init, max_iter);
        assert(rows == init.push(rows.last()));
        init.lemma_flatten_push(rows.last());
        assert(bounded(rows.last(), max_iter)) by {
            assert(rows.last() == rows[rows.len() - 1]);
        }
        let f = init.flatten() + rows.last();
        assert forall|i: int| 0 <= i < f.len() implies f[i] <= max_iter by {
            if i >= init.flatten().len() {
                assert(f[i] == rows.last()[i - init.flatten().len()]);
            }
        }
    }
}

/// Computes the counts of one row: the evaluator on each of its pixels.
pub fn compute_row<F: Fn(PixelCoordinate) -> u64>(row: RowPixelIterator, eval: &F) -> (r: Vec<u64>)
    requires
        row.wf(),
        row.position() == 0,
        forall|p: PixelCoordinate| eval.requires((p,)),
        forall|p: PixelCoordinate, n: u64| eval.ensures((p,), n) ==> n <= row.context().max_iter,
    ensures
        r.len() == row.context().x_px,
        bounded(r@, row.context().max_iter as int),
        forall|px: int|
            0 <= px < r.len() ==> eval.ensures(
                (row.context().coordinate(px, row.row()),),
                #[trigger] r[px],
            ),
{
    let ghost ctx = row.context();
    let ghost py = row.row();
    let mut row = row;
    let mut out: Vec<u64> = Vec::new();
    loop
        invariant_except_break
            row.position() == out.len(),
        invariant
            row.wf(),
            row.context() == ctx,
            row.row() == py,
            forall|p: PixelCoordinate| eval.requires((p,)),
            forall|p: PixelCoordinate, n: u64| eval.ensures((p,), n) ==> n <= ctx.max_iter,
            bounded(out@, ctx.max_iter as int),
            forall|px: int|
                0 <= px < out.len() ==> eval.ensures((ctx.coordinate(px, py),), #[trigger] out[px]),
        ensures
            out.len() == ctx.x_px,
            bounded(out@, ctx.max_iter as int),
            forall|px: int|
                0 <= px < out.len() ==> eval.ensures((ctx.coordinate(px, py),), #[trigger] out[px]),
        decreases ctx.x_px - out.len(),
    {
        match row.next() {
            Some(p) => {
                let n = eval(p);
                out.push(n);
            },
            None => {
                break;
            },
        }
    }
    out
}

proof fn lemma_count_le_len(s: Seq<u64>, v: int)
    ensures
        count(s, v) <= s.len(),
    decreases s.len(),
{
    if s.len() > 0 {
        lemma_count_le_len(s.drop_last(), v);
    }
}

/// Adds the escaping counts of `row` to a worker's histogram.
pub fn accumulate_row(histogram: &mut Vec<u64>, row: &Vec<u64>, max_iter: u64)
    requires
        old(histogram).len() == max_iter,
        bounded(row@, max_iter as int),
        forall|k: int| 0 <= k < max_iter ==> old(histogram)[k] + row.len() <= u64::MAX,
    ensures
        final(histogram).len() == max_iter,
        forall|k: int|
            0 <= k < max_iter ==> #[trigger] final(histogram)[k] == old(histogram)[k] + count(row@, k),
{
    let ghost h0 = histogram@;
    let mut i: usize = 0;
    while i < row.len()
        invariant
            0 <= i <= row.len(),
            histogram.len() == max_iter,
            h0.len() == max_iter,
            bounded(row@, max_iter as int),
            forall|k: int| 0 <= k < max_iter ==> h0[k] + row.len() <= u64::MAX,
            forall|k: int|
                0 <= k < max_iter ==> #[trigger] histogram[k] == h0[k] + count(row@.take(i as int), k),
        decreases row.len() - i,
    {
        let v = row[i];
        proof {
            assert(row@.take(i as int + 1).drop_last() == row@.take(i as int));
            lemma_count_le_len(row@.take(i as int), v as int);
        }
        if v != max_iter {
            let c = histogram[v as usize];
            histogram.set(v as usize, c + 1);
        }
        i = i + 1;
    }
    proof {
        assert(row@.take(row.len() as int) == row@);
    }
}

/// Bucket `k` summed over the first histograms is at most the sum over all.
proof fn lemma_bucket_total_prefix(hs: Seq<Seq<u64>>, w: int, k: int)
    requires
        0 <= w <= hs.len(),
    ensures
        0 <= bucket_total(hs.take(w), k) <= bucket_total(hs, k),
    decreases hs.len(),
{
    if w < hs.len() {
        assert(hs.take(w) == hs.drop_last().take(w));
        lemma_bucket_total_prefix(hs.drop_last(), w, k);
    } else {
        assert(hs.take(w) == hs);
        lemma_bucket_total_nonneg(hs, k);
    }
}

proof fn lemma_bucket_total_nonneg(hs: Seq<Seq<u64>>, k: int)
    ensures
        bucket_total(hs, k) >= 0,
    decreases hs.len(),
{
    if hs.len() > 0 {
        lemma_bucket_total_nonneg(hs.drop_last(), k);
    }
}

/// The cumulative sums grow with `k`.
pub proof fn lemma_cumulative_monotone(hs: Seq<Seq<u64>>, j: int, k: int)
    requires
        0 <= j <= k,
    ensures
        0 <= cumulative_of(hs, j) <= cumulative_of(hs, k),
    decreases k,
{
    if j < k {
        lemma_cumulative_monotone(hs, j, k - 1);
        lemma_bucket_total_nonneg(hs, k - 1);
    } else if k > 0 {
        lemma_cumulative_monotone(hs, 0, k - 1);
        lemma_bucket_total_nonneg(hs, k - 1);
    }
}

/// Merges the workers' histograms into one cumulative distribution: entry
/// `k` is the number of counted pixels with a count of at most `k`.
pub fn merge_histograms(histograms: &Vec<Vec<u64>>, max_iter: u64) -> (r: Vec<u64>)
    requires
        forall|w: int| 0 <= w < histograms.len() ==> (#[trigger] histograms[w]).len() == max_iter,
        cumulative_of(views(histograms@), max_iter as int) <= u64::MAX,
    ensures
        r.len() == max_iter,
        forall|k: int| 0 <= k < max_iter ==> #[trigger] r[k] == cumulative_of(views(histograms@), k + 1),
{
    let ghost hs = views(histograms@);
    let n = histograms.len();
    let mut out: Vec<u64> = Vec::new();
    let mut total: u64 = 0;
    let mut k: u64 = 0;
    while k < max_iter
        invariant
            hs == views(histograms@),
            n == histograms.len(),
            forall|w: int| 0 <= w < n ==> (#[trigger] histograms[w]).len() == max_iter,
            cumulative_of(hs, max_iter as int) <= u64::MAX,
            0 <= k <= max_iter,
            out.len() == k,
            total == cumulative_of(hs, k as int),
            forall|j: int| 0 <= j < k ==> #[trigger] out[j] == cumulative_of(hs, j + 1),
        decreases max_iter - k,
    {
        let mut w: usize = 0;
        while w < n
            invariant
                hs == views(histograms@),
                n == histograms.len(),
                forall|w: int| 0 <= w < n ==> (#[trigger] histograms[w]).len() == max_iter,
                cumulative_of(hs, max_iter as int) <= u64::MAX,
                0 <= k < max_iter,
                0 <= w <= n,
                total == cumulative_of(hs, k as int) + bucket_total(hs.take(w as int), k as int),
            decreases n - w,
        {
            proof {
                assert(hs.take(w as int + 1).drop_last() == hs.take(w as int));
                assert(hs[w as int] == histograms[w as int]@);
                lemma_bucket_total_prefix(hs, w as int + 1, k as int);
                lemma_cumulative_monotone(hs, k as int + 1, max_iter as int);
            }
            total = total + histograms[w][k as usize];
            w = w + 1;
        }
        proof {
            assert(hs.take(n as int) == hs);
        }
        out.push(total);
        k = k + 1;
    }
    out
}

/// Colors every pixel of `grid`: black where the count is `max_iter`, else
/// the scheme's color at `cumulative[count] / total`.
pub fn color_grid(cs: &ColorScheme, grid: &Vec<u64>, cumulative: &Vec<u64>, total: u64, max_iter: u64) -> (r:
    Vec<Color>)
    requires
        cs.wf(),
        cs@.len() > 0,
        total > 0,
        cumulative.len() == max_iter,
        bounded(grid@, max_iter as int),
    ensures
        r.len() == grid.len(),
        forall|i: int|
            0 <= i < grid.len() ==> #[trigger] r[i] == pixel_color(cs@, cumulative@, total, max_iter, grid[i]),
        forall|i: int| 0 <= i < grid.len() && grid[i] == max_iter ==> #[trigger] r[i] == Color::black_spec(),
{
    let mut out: Vec<Color> = Vec::new();
    let mut i: usize = 0;
    while i < grid.len()
        invariant
            cs.wf(),
            cs@.len() > 0,
            total > 0,
            cumulative.len() == max_iter,
            bounded(grid@, max_iter as int),
            0 <= i <= grid.len(),
            out.len() == i,
            forall|j: int|
                0 <= j < i ==> #[trigger] out[j] == pixel_color(cs@, cumulative@, total, max_iter, grid[j]),
        decreases grid.len() - i,
    {
        let iter = grid[i];
        if iter == max_iter {
            out.push(Color::black());
        } else {
            let c = cs.get_color(Fraction { num: cumulative[iter as usize], den: total });
            out.push(c);
        }
        i = i + 1;
    }
    out
}

/// A histogram with `max_iter` empty buckets.
pub fn empty_histogram(max_iter: u64) -> (r: Vec<u64>)
    ensures
        r.len() == max_iter,
        forall|k: int| 0 <= k < max_iter ==> #[trigger] r[k] == 0,
{
    let mut h: Vec<u64> = Vec::new();
    let mut k: u64 = 0;
    while k < max_iter
        invariant
            0 <= k <= max_iter,
            h.len() == k,
            forall|j: int| 0 <= j < k ==> #[trigger] h[j] == 0,
        decreases max_iter - k,
    {
        h.push(0);
        k = k + 1;
    }
    h
}

/// The histogram of a single grid, seen as one worker that took every row,
/// merges to the grid's own cumulative distribution.
proof fn lemma_single_histogram(grid: Seq<u64>, h: Seq<u64>, max_iter: int)
    requires
        is_histogram_of(h, grid, max_iter),
    ensures
        forall|k: int| 0 <= k <= max_iter ==> #[trigger] cumulative_of(seq![h], k) == count_below(grid, k),
{
    let rows = seq![grid];
    let owner = seq![0int];
    let hs = seq![h];
    assert(rows.drop_last().len() == 0);
    assert forall|k: int| 0 <= k < max_iter implies hs[0][k] == owned_count(rows, owner, 0, k) by {
        assert(owned_count(rows.drop_last(), owner, 0, k) == 0);
    }
    rows.lemma_flatten_one_element();
    lemma_merge_equals_grid_histogram(rows, owner, hs, max_iter);
}

/// Renders one image on the calling thread: the count of every pixel, row by
/// row, then each pixel colored by histogram equalization (see
/// `pixel_color` and `equalized`). Returns the counts, row-major, and the
/// colors.
pub fn render_image<F: Fn(PixelCoordinate) -> u64>(ctx: RenderingContext, cs: &ColorScheme, eval: &F) -> (r: (
    Vec<u64>,
    Vec<Color>,
))
    requires
        ctx.wf(),
        cs.wf(),
        cs@.len() > 0,
        forall|p: PixelCoordinate| eval.requires((p,)),
        forall|p: PixelCoordinate, n: u64| eval.ensures((p,), n) ==> n <= ctx.max_iter,
    ensures
        r.0.len() == ctx.total(),
        bounded(r.0@, ctx.max_iter as int),
        forall|i: int| 0 <= i < ctx.total() ==> eval.ensures((ctx.point_at(i),), #[trigger] r.0[i]),
        r.1.len() == ctx.total(),
        forall|i: int|
            0 <= i < ctx.total() ==> #[trigger] r.1[i] == pixel_color(
                cs@,
                equalized(r.0@, ctx.max_iter as int),
                ctx.total() as u64,
                ctx.max_iter,
                r.0[i],
            ),
        forall|i: int| 0 <= i < ctx.total() && r.0[i] == ctx.max_iter ==> #[trigger] r.1[i] == Color::black_spec(),
{
    let max_iter = ctx.max_iter;
    let xp = ctx.x_px as usize;
    let ghost total = ctx.total();
    proof {
        assert(0 < ctx.x_px * ctx.y_px < 0x1_0000_0000_0000_0000) by (nonlinear_arith)
            requires 0 < ctx.x_px < 0x1_0000_0000, 0 < ctx.y_px < 0x1_0000_0000;
    }
    let mut hist = empty_histogram(max_iter);
    let mut grid: Vec<u64> = Vec::new();
    let mut rows = ctx.enumerate_rows();
    proof {
        assert forall|k: int| 0 <= k < max_iter implies hist[k] == count(grid@, k) by {}
    }
    loop
        invariant_except_break
            grid.len() == rows.position() * ctx.x_px,
        invariant
            rows.wf(),
            rows.context() == ctx,
            ctx.wf(),
            max_iter == ctx.max_iter,
            cs.wf(),
            total == ctx.x_px * ctx.y_px,
            total < 0x1_0000_0000_0000_0000,
            forall|p: PixelCoordinate| eval.requires((p,)),
            forall|p: PixelCoordinate, n: u64| eval.ensures((p,), n) ==> n <= max_iter,
            is_histogram_of(hist@, grid@, max_iter as int),
            bounded(grid@, max_iter as int),
            forall|i: int| 0 <= i < grid.len() ==> eval.ensures((ctx.point_at(i),), #[trigger] grid[i]),
        ensures
            grid.len() == total,
            is_histogram_of(hist@, grid@, max_iter as int),
            bounded(grid@, max_iter as int),
            forall|i: int| 0 <= i < grid.len() ==> eval.ensures((ctx.point_at(i),), #[trigger] grid[i]),
        decreases ctx.y_px - rows.position(),
    {
        let ghost py = rows.position();
        match rows.next() {
            Some((row, _y)) => {
                let mut line = compute_row(row, eval);
                let ghost g0 = grid@;
                proof {
                    assert(py * ctx.x_px + ctx.x_px <= total) by (nonlinear_arith)
                        requires 0 <= py < ctx.y_px, total == ctx.x_px * ctx.y_px;
                    assert forall|k: int| 0 <= k < max_iter implies hist[k] + line.len() <= u64::MAX by {
                        lemma_count_le_len(grid@, k);
                    }
                }
                accumulate_row(&mut hist, &line, max_iter);
                let ghost l0 = line@;
                grid.append(&mut line);
                proof {
                    assert forall|k: int| 0 <= k < max_iter implies hist[k] == count(grid@, k) by {
                        lemma_count_concat(g0, l0, k);
                    }
                    assert forall|i: int| 0 <= i < grid.len() implies grid[i] <= max_iter by {
                        if i >= g0.len() {
                            assert(grid[i] == l0[i - g0.len()]);
                        }
                    }
                    assert forall|i: int| 0 <= i < grid.len() implies eval.ensures(
                        (ctx.point_at(i),),
                        #[trigger] grid[i],
                    ) by {
                        if i >= g0.len() {
                            let px = i - g0.len();
                            assert(grid[i] == l0[px]);
                            crate::context::lemma_pixel_position(ctx, px, py);
                            assert(py * ctx.x_px + px == i);
                        }
                    }
                    assert(grid.len() == (py + 1) * ctx.x_px) by (nonlinear_arith)
                        requires grid.len() == py * ctx.x_px + ctx.x_px;
                }
            },
            None => {
                proof {
                    assert(grid.len() == total) by (nonlinear_arith)
                        requires grid.len() == py * ctx.x_px, py == ctx.y_px, total == ctx.x_px * ctx.y_px;
                }
                break;
            },
        }
    }
    let hs = vec![hist];
    proof {
        lemma_single_histogram(grid@, hist@, max_iter as int);
        assert(views(hs@) == seq![hist@]);
        lemma_count_below_monotone(grid@, max_iter as int, max_iter as int + 1);
        lemma_count_below_all(grid@, max_iter as int);
    }
    let cumulative = merge_histograms(&hs, max_iter);
    proof {
        assert(cumulative@ == equalized(grid@, max_iter as int));
    }
    let colors = color_grid(cs, &grid, &cumulative, (ctx.x_px as u64) * (ctx.y_px as u64), max_iter);
    (grid, colors)
}

/// Colors one grid by its own histogram: black where the count is
/// `max_iter`, else the scheme's color at the share of the grid's pixels
/// whose count is at most the pixel's own.
pub fn color_equalized(cs: &ColorScheme, grid: &Vec<u64>, max_iter: u64) -> (r: Vec<Color>)
    requires
        cs.wf(),
        cs@.len() > 0,
        grid.len() > 0,
        bounded(grid@, max_iter as int),
    ensures
        r.len() == grid.len(),
        forall|i: int|
            0 <= i < grid.len() ==> #[trigger] r[i] == pixel_color(
                cs@,
                equalized(grid@, max_iter as int),
                grid.len() as u64,
                max_iter,
                grid[i],
            ),
{
    let mut hist = empty_histogram(max_iter);
    proof {
        assert(grid.len() <= u64::MAX);
    }
    accumulate_row(&mut hist, grid, max_iter);
    let hs = vec![hist];
    proof {
        assert forall|k: int| 0 <= k < max_iter implies hist[k] == count(grid@, k) by {}
        lemma_single_histogram(grid@, hist@, max_iter as int);
        assert(views(hs@) == seq![hist@]);
        lemma_count_below_all(grid@, max_iter as int);
    }
    let cumulative = merge_histograms(&hs, max_iter);
    proof {
        assert(cumulative@ == equalized(grid@, max_iter as int));
    }
    color_grid(cs, grid, &cumulative, grid.len() as u64, max_iter)
}

} // verus!
