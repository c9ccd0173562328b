//! Histogram-domain palette builder: median-cut initialisation followed by
//! frequency-weighted k-means refinement over the unique colours of a frame.

use vstd::prelude::*;

verus! {

/// One unique RGBA colour together with its pixel count.
#[derive(Clone, Copy, Debug)]
pub struct WPoint {
    /// RGBA channels.
    pub c: [i32; 4],
    /// Pixel count (weight).
    pub w: u64,
}

/// Square of an integer.
pub open spec fn sq(x: int) -> int {
    x * x
}

/// Squared Euclidean distance between two RGBA colours.
pub open spec fn dist2_spec(a: [i32; 4], b: [i32; 4]) -> int {
    sq(a[0] - b[0]) + sq(a[1] - b[1]) + sq(a[2] - b[2]) + sq(a[3] - b[3])
}

proof fn lemma_sq_bounds(x: int, bound: int)
    requires
        -bound <= x <= bound,
    ensures
        0 <= sq(x) <= bound * bound,
{
    assert(0 <= x * x <= bound * bound) by (nonlinear_arith)
        requires
            -bound <= x <= bound,
    ;
}

/// Squared distance between two colours, computed in 64 bits.
pub fn dist2(a: [i32; 4], b: [i32; 4]) -> (d: i64)
    requires
        forall|ch: int| 0 <= ch < 4 ==> i32::MIN <= #[trigger] a[ch] - b[ch] <= i32::MAX,
        dist2_spec(a, b) <= i64::MAX,
    ensures
        d == dist2_spec(a, b),
{
    assert(i32::MIN <= a[0] - b[0] <= i32::MAX);
    assert(i32::MIN <= a[1] - b[1] <= i32::MAX);
    assert(i32::MIN <= a[2] - b[2] <= i32::MAX);
    assert(i32::MIN <= a[3] - b[3] <= i32::MAX);
    let dr = (a[0] - b[0]) as i64;
    let dg = (a[1] - b[1]) as i64;
    let db = (a[2] - b[2]) as i64;
    let da = (a[3] - b[3]) as i64;
    proof {
        lemma_sq_bounds(dr as int, 0x8000_0000);
        lemma_sq_bounds(dg as int, 0x8000_0000);
        lemma_sq_bounds(db as int, 0x8000_0000);
        lemma_sq_bounds(da as int, 0x8000_0000);
    }
    dr * dr + dg * dg + db * db + da * da
}


/// Scale of the fixed-point centre coordinates: centres carry 32 fractional bits.
pub const FX: u64 = 4294967296;

/// A cluster centre in fixed point: each channel is the real value times `FX`.
pub type FxColor = (u64, u64, u64, u64);

/// Every channel of the colour lies in `0..=255`.
pub open spec fn rgba_channels(c: [i32; 4]) -> bool {
    &&& 0 <= c[0] <= 255
    &&& 0 <= c[1] <= 255
    &&& 0 <= c[2] <= 255
    &&& 0 <= c[3] <= 255
}

/// Two colours agree on all four channels.
pub open spec fn same_color(a: [i32; 4], b: [i32; 4]) -> bool {
    a[0] == b[0] && a[1] == b[1] && a[2] == b[2] && a[3] == b[3]
}

/// Total weight of a sequence of points.
pub open spec fn sum_w(s: Seq<WPoint>) -> int
    decreases s.len(),
{
    if s.len() == 0 {
        0
    } else {
        sum_w(s.drop_last()) + s.last().w
    }
}

/// Weighted channel sum `sum(c[ch] * w)` of a sequence of points.
pub open spec fn sum_c(s: Seq<WPoint>, ch: int) -> int
    decreases s.len(),
{
    if s.len() == 0 {
        0
    } else {
        sum_c(s.drop_last(), ch) + s.last().c[ch] * s.last().w
    }
}

/// Weighted points as the median cut takes them: RGBA channels and a total
/// weight that fits in 64 bits.
pub open spec fn points_ok(s: Seq<WPoint>) -> bool {
    &&& all_rgba(s)
    &&& sum_w(s) <= u64::MAX
}

/// A colour histogram as the palette builder takes it: RGBA channels, every
/// colour listed once, and a total weight that fits in 64 bits.
pub open spec fn histogram_valid(s: Seq<WPoint>) -> bool {
    &&& all_rgba(s)
    &&& distinct_colors(s)
    &&& sum_w(s) <= u64::MAX
}

/// Every channel of every point in `s` lies in `0..=255`.
pub open spec fn all_rgba(s: Seq<WPoint>) -> bool {
    forall|i: int| 0 <= i < s.len() ==> rgba_channels(#[trigger] s[i].c)
}

/// No colour occurs twice in `s`.
pub open spec fn distinct_colors(s: Seq<WPoint>) -> bool {
    forall|i: int, j: int|
        0 <= i < s.len() && 0 <= j < s.len() && i != j ==> !same_color(
            #[trigger] s[i].c,
            #[trigger] s[j].c,
        )
}

/// A box of the median cut: the points `lo..hi` and their total weight.
#[derive(Clone, Copy, Debug)]
pub struct CutBox {
    pub lo: usize,
    pub hi: usize,
    pub weight: u64,
}

/// Index of the heaviest box among `boxes[..n]` that holds at least two points
/// (the last one on ties), or -1 when none does.
pub open spec fn heaviest(boxes: Seq<CutBox>, n: int) -> int
    decreases n,
{
    if n <= 0 {
        -1
    } else {
        let prev = heaviest(boxes, n - 1);
        if boxes[n - 1].hi - boxes[n - 1].lo >= 2 && (prev < 0 || boxes[n - 1].weight
            >= boxes[prev].weight) {
            n - 1
        } else {
            prev
        }
    }
}

/// Smallest value of channel `ch` (`i32::MAX` for no points).
pub open spec fn chan_min(s: Seq<WPoint>, ch: int) -> int
    decreases s.len(),
{
    if s.len() == 0 {
        i32::MAX as int
    } else {
        let m = chan_min(s.drop_last(), ch);
        if s.last().c[ch] < m {
            s.last().c[ch] as int
        } else {
            m
        }
    }
}

/// Largest value of channel `ch` (`i32::MIN` for no points).
pub open spec fn chan_max(s: Seq<WPoint>, ch: int) -> int
    decreases s.len(),
{
    if s.len() == 0 {
        i32::MIN as int
    } else {
        let m = chan_max(s.drop_last(), ch);
        if s.last().c[ch] > m {
            s.last().c[ch] as int
        } else {
            m
        }
    }
}

/// Spread of channel `ch` over the points.
pub open spec fn width(s: Seq<WPoint>, ch: int) -> int {
    chan_max(s, ch) - chan_min(s, ch)
}

/// The channel of largest spread (the last one on ties).
pub open spec fn widest(s: Seq<WPoint>) -> int {
    let b1: int = if width(s, 1) >= width(s, 0) {
        1
    } else {
        0
    };
    let b2: int = if width(s, 2) >= width(s, b1) {
        2
    } else {
        b1
    };
    if width(s, 3) >= width(s, b2) {
        3
    } else {
        b2
    }
}

/// The predicate "channel `ch` equals `v`".
pub open spec fn has_chan(ch: int, v: int) -> spec_fn(WPoint) -> bool {
    |p: WPoint| p.c[ch] == v
}

/// The points whose channel `ch` lies below `v`, grouped by that value in
/// ascending order, each group in its original order.
pub open spec fn buckets(s: Seq<WPoint>, ch: int, v: nat) -> Seq<WPoint>
    decreases v,
{
    if v == 0 {
        Seq::empty()
    } else {
        buckets(s, ch, (v - 1) as nat) + s.filter(has_chan(ch, v - 1))
    }
}

/// Stable sort of RGBA points by channel `ch`.
pub open spec fn sort_by_chan(s: Seq<WPoint>, ch: int) -> Seq<WPoint> {
    buckets(s, ch, 256)
}

/// The first prefix length `j > i` whose weight reaches `half`, or 0 if none.
pub open spec fn reach_index(s: Seq<WPoint>, half: int, i: nat) -> int
    decreases s.len() - i,
{
    if i >= s.len() {
        0
    } else if sum_w(s.take(i + 1 as int)) >= half {
        i + 1 as int
    } else {
        reach_index(s, half, (i + 1) as nat)
    }
}

/// Weighted-median split point of a sorted box, kept off both ends.
pub open spec fn cut_index(s: Seq<WPoint>, half: int) -> int {
    let r = reach_index(s, half, 0);
    if r < 1 {
        1
    } else if r > s.len() - 1 {
        s.len() - 1
    } else {
        r
    }
}

/// One median-cut step: the heaviest splittable box is sorted along its widest
/// channel and cut at its weighted median.
pub open spec fn mc_step(pts: Seq<WPoint>, boxes: Seq<CutBox>) -> (Seq<WPoint>, Seq<CutBox>) {
    let bi = heaviest(boxes, boxes.len() as int);
    let b = boxes[bi];
    let seg = pts.subrange(b.lo as int, b.hi as int);
    let ch = widest(seg);
    if chan_max(seg, ch) == chan_min(seg, ch) {
        (pts, boxes.update(bi, CutBox { lo: b.lo, hi: b.hi, weight: 0 }))
    } else {
        let sorted = sort_by_chan(seg, ch);
        let cut = cut_index(sorted, (b.weight / 2) as int);
        let left_w = sum_w(sorted.take(cut));
        let mid = (b.lo + cut) as usize;
        (
            pts.take(b.lo as int) + sorted + pts.skip(b.hi as int),
            boxes.update(bi, CutBox { lo: b.lo, hi: mid, weight: left_w as u64 }).push(
                CutBox { lo: mid, hi: b.hi, weight: (b.weight - left_w) as u64 },
            ),
        )
    }
}

/// Median-cut steps until `k` boxes exist, no box can be split, or `fuel` runs out.
pub open spec fn mc_run(pts: Seq<WPoint>, boxes: Seq<CutBox>, k: int, fuel: nat) -> (
    Seq<WPoint>,
    Seq<CutBox>,
)
    decreases fuel,
{
    if fuel == 0 || boxes.len() >= k || heaviest(boxes, boxes.len() as int) < 0 {
        (pts, boxes)
    } else {
        let (p2, b2) = mc_step(pts, boxes);
        mc_run(p2, b2, k, (fuel - 1) as nat)
    }
}

/// `sum * FX / weight`: a weighted mean in fixed point (rounded down).
pub open spec fn fx_mean(sum: int, weight: int) -> int {
    sum * (FX as int) / weight
}

/// Fixed-point weighted mean colour of a box (weight taken as at least 1).
pub open spec fn box_center(seg: Seq<WPoint>) -> FxColor {
    let w = if sum_w(seg) > 0 {
        sum_w(seg)
    } else {
        1
    };
    (
        fx_mean(sum_c(seg, 0), w) as u64,
        fx_mean(sum_c(seg, 1), w) as u64,
        fx_mean(sum_c(seg, 2), w) as u64,
        fx_mean(sum_c(seg, 3), w) as u64,
    )
}

/// Centres of the non-empty boxes among `boxes[..n]`, in box order.
pub open spec fn cut_centers(pts: Seq<WPoint>, boxes: Seq<CutBox>, n: int) -> Seq<FxColor>
    decreases n,
{
    if n <= 0 {
        Seq::empty()
    } else {
        let rest = cut_centers(pts, boxes, n - 1);
        let b = boxes[n - 1];
        if b.hi > b.lo {
            rest.push(box_center(pts.subrange(b.lo as int, b.hi as int)))
        } else {
            rest
        }
    }
}

/// The box that holds every point.
pub open spec fn whole_box(pts: Seq<WPoint>) -> CutBox {
    CutBox { lo: 0, hi: pts.len() as usize, weight: sum_w(pts) as u64 }
}

/// The points as the median cut leaves them, and the initial centres.
pub open spec fn median_cut_spec(pts: Seq<WPoint>, k: int) -> (Seq<WPoint>, Seq<FxColor>) {
    let (p, b) = mc_run(pts, seq![whole_box(pts)], k, k as nat);
    (p, cut_centers(p, b, b.len() as int))
}

/// Squared distance between a fixed-point centre and a colour (scaled by `FX * FX`).
pub open spec fn center_dist(c: FxColor, p: [i32; 4]) -> int {
    sq(c.0 - p[0] * FX) + sq(c.1 - p[1] * FX) + sq(c.2 - p[2] * FX) + sq(c.3 - p[3] * FX)
}

/// Index of the centre nearest to `p` among `cs[..n]` (the first one on ties).
pub open spec fn nearest_center(cs: Seq<FxColor>, p: [i32; 4], n: int) -> int
    decreases n,
{
    if n <= 1 {
        0
    } else {
        let b = nearest_center(cs, p, n - 1);
        if center_dist(cs[n - 1], p) < center_dist(cs[b], p) {
            n - 1
        } else {
            b
        }
    }
}

/// Nearest-centre assignment of every point.
pub open spec fn assign_all(pts: Seq<WPoint>, cs: Seq<FxColor>) -> Seq<int> {
    Seq::new(pts.len(), |i: int| nearest_center(cs, pts[i].c, cs.len() as int))
}

/// Weight of the points among `pts[..n]` assigned to cluster `ci`.
pub open spec fn cluster_w(pts: Seq<WPoint>, asg: Seq<int>, ci: int, n: int) -> int
    decreases n,
{
    if n <= 0 {
        0
    } else {
        cluster_w(pts, asg, ci, n - 1) + if asg[n - 1] == ci {
            pts[n - 1].w as int
        } else {
            0
        }
    }
}

/// Weighted sum of channel `ch` over the points among `pts[..n]` assigned to `ci`.
pub open spec fn cluster_c(pts: Seq<WPoint>, asg: Seq<int>, ci: int, ch: int, n: int) -> int
    decreases n,
{
    if n <= 0 {
        0
    } else {
        cluster_c(pts, asg, ci, ch, n - 1) + if asg[n - 1] == ci {
            pts[n - 1].c[ch] * pts[n - 1].w
        } else {
            0
        }
    }
}

/// How far point `i` lies from its centre, times its weight (whole units,
/// saturating at `i64::MAX`): the reseeding criterion for empty clusters.
pub open spec fn reseed_key(pts: Seq<WPoint>, asg: Seq<int>, cs: Seq<FxColor>, i: int) -> int {
    let k = (center_dist(cs[asg[i]], pts[i].c) / (FX as int)) * pts[i].w / (FX as int);
    if k > i64::MAX {
        i64::MAX as int
    } else {
        k
    }
}

/// Index of the point with the largest reseeding key among `pts[..n]` (the last
/// one on ties).
pub open spec fn farthest(pts: Seq<WPoint>, asg: Seq<int>, cs: Seq<FxColor>, n: int) -> int
    decreases n,
{
    if n <= 1 {
        0
    } else {
        let b = farthest(pts, asg, cs, n - 1);
        if reseed_key(pts, asg, cs, n - 1) >= reseed_key(pts, asg, cs, b) {
            n - 1
        } else {
            b
        }
    }
}

/// A colour as a fixed-point centre.
pub open spec fn point_center(c: [i32; 4]) -> FxColor {
    ((c[0] * FX) as u64, (c[1] * FX) as u64, (c[2] * FX) as u64, (c[3] * FX) as u64)
}

/// Fixed-point weighted mean of the points assigned to cluster `ci`.
pub open spec fn cluster_center(pts: Seq<WPoint>, asg: Seq<int>, ci: int) -> FxColor {
    let n = pts.len() as int;
    let w = cluster_w(pts, asg, ci, n);
    (
        fx_mean(cluster_c(pts, asg, ci, 0, n), w) as u64,
        fx_mean(cluster_c(pts, asg, ci, 1, n), w) as u64,
        fx_mean(cluster_c(pts, asg, ci, 2, n), w) as u64,
        fx_mean(cluster_c(pts, asg, ci, 3, n), w) as u64,
    )
}

/// Moves centres `ci..` in turn to the mean of their cluster; a cluster
/// without weight is reseeded on the farthest point, measured against the
/// centres as they stand at that moment.
pub open spec fn update_from(pts: Seq<WPoint>, asg: Seq<int>, cs: Seq<FxColor>, ci: int) -> Seq<
    FxColor,
>
    decreases cs.len() - ci,
{
    if ci >= cs.len() || ci < 0 {
        cs
    } else {
        let nc = if cluster_w(pts, asg, ci, pts.len() as int) == 0 {
            point_center(pts[farthest(pts, asg, cs, pts.len() as int)].c)
        } else {
            cluster_center(pts, asg, ci)
        };
        update_from(pts, asg, cs.update(ci, nc), ci + 1)
    }
}

/// One k-means round: assign every point, then recompute the centres.
pub open spec fn km_round(pts: Seq<WPoint>, cs: Seq<FxColor>) -> Seq<FxColor> {
    update_from(pts, assign_all(pts, cs), cs, 0)
}

/// `r` k-means rounds.
pub open spec fn km_rounds(pts: Seq<WPoint>, cs: Seq<FxColor>, r: nat) -> Seq<FxColor>
    decreases r,
{
    if r == 0 {
        cs
    } else {
        km_round(pts, km_rounds(pts, cs, (r - 1) as nat))
    }
}

/// Final centres: median-cut initialisation, then `max(iters, 1)` rounds.
pub open spec fn kmeans_centers(pts: Seq<WPoint>, k: int, iters: int) -> Seq<FxColor> {
    let (p, cs) = median_cut_spec(pts, k);
    km_rounds(p, cs, if iters <= 0 { 1nat } else { iters as nat })
}

/// A fixed-point channel rounded to the nearest whole value (halves upward).
pub open spec fn round_fx(v: int) -> int {
    (v + (FX as int) / 2) / (FX as int)
}

/// The palette: every final centre rounded channel by channel.
pub open spec fn kmeans_palette(pts: Seq<WPoint>, k: int, iters: int) -> Seq<[u8; 4]> {
    kmeans_centers(pts, k, iters).map_values(
        |c: FxColor|
            [
                round_fx(c.0 as int) as u8,
                round_fx(c.1 as int) as u8,
                round_fx(c.2 as int) as u8,
                round_fx(c.3 as int) as u8,
            ],
    )
}

/// `col` is the centre `c` rounded channel by channel.
pub open spec fn rounds_to(col: [u8; 4], c: FxColor) -> bool {
    &&& col[0] == round_fx(c.0 as int)
    &&& col[1] == round_fx(c.1 as int)
    &&& col[2] == round_fx(c.2 as int)
    &&& col[3] == round_fx(c.3 as int)
}

/// Squared distance between a colour and a palette entry.
pub open spec fn dist2_color(p: [i32; 4], col: [u8; 4]) -> int {
    sq(p[0] - col[0]) + sq(p[1] - col[1]) + sq(p[2] - col[2]) + sq(p[3] - col[3])
}

/// Index of the palette entry nearest to `p` among `cols[..n]` (the first on ties).
pub open spec fn nearest_color(cols: Seq<[u8; 4]>, p: [i32; 4], n: int) -> int
    decreases n,
{
    if n <= 1 {
        0
    } else {
        let b = nearest_color(cols, p, n - 1);
        if dist2_color(p, cols[n - 1]) < dist2_color(p, cols[b]) {
            n - 1
        } else {
            b
        }
    }
}

// ---------------------------------------------------------------------------
// Lemmas on weights, multisets and the bucket sort.
// ---------------------------------------------------------------------------

proof fn lemma_sum_w_nonneg(s: Seq<WPoint>)
    ensures
        sum_w(s) >= 0,
    decreases s.len(),
{
    if s.len() > 0 {
        lemma_sum_w_nonneg(s.drop_last());
    }
}

proof fn lemma_sum_w_concat(a: Seq<WPoint>, b: Seq<WPoint>)
    ensures
        sum_w(a + b) == sum_w(a) + sum_w(b),
    decreases b.len(),
{
    if b.len() == 0 {
        assert(a + b =~= a);
    } else {
        lemma_sum_w_concat(a, b.drop_last());
        assert((a + b).drop_last() =~= a + b.drop_last());
    }
}

proof fn lemma_sum_w_split(s: Seq<WPoint>, i: int)
    requires
        0 <= i <= s.len(),
    ensures
        sum_w(s) == sum_w(s.take(i)) + sum_w(s.skip(i)),
        0 <= sum_w(s.take(i)) <= sum_w(s),
{
    assert(s =~= s.take(i) + s.skip(i));
    lemma_sum_w_concat(s.take(i), s.skip(i));
    lemma_sum_w_nonneg(s.take(i));
    lemma_sum_w_nonneg(s.skip(i));
}

proof fn lemma_sum_w_multiset(a: Seq<WPoint>, b: Seq<WPoint>)
    requires
        a.to_multiset() =~= b.to_multiset(),
    ensures
        sum_w(a) == sum_w(b),
    decreases a.len(),
{
    broadcast use vstd::seq_lib::group_to_multiset_ensures;

    if a.len() == 0 {
        assert(b.to_multiset().len() == 0);
        assert(b =~= Seq::<WPoint>::empty());
    } else {
        let x = a.last();
        let a0 = a.drop_last();
        assert(a =~= a0.push(x));
        assert(a.to_multiset().count(x) > 0);
        assert(b.contains(x));
        let i = choose|i: int| 0 <= i < b.len() && b[i] == x;
        let b0 = b.remove(i);
        assert(b0.to_multiset() =~= b.to_multiset().remove(x));
        assert(a0.to_multiset() =~= a.to_multiset().remove(x));
        lemma_sum_w_multiset(a0, b0);
        assert(b =~= (b.take(i) + seq![x]) + b.skip(i + 1));
        assert(b0 =~= b.take(i) + b.skip(i + 1));
        lemma_sum_w_concat(b.take(i) + seq![x], b.skip(i + 1));
        lemma_sum_w_concat(b.take(i), seq![x]);
        lemma_sum_w_concat(b.take(i), b.skip(i + 1));
        assert(seq![x].drop_last() =~= Seq::<WPoint>::empty());
        assert(sum_w(Seq::<WPoint>::empty()) == 0);
        assert(seq![x].last() == x);
        assert(sum_w(seq![x]) == x.w);
        assert(sum_w(b) == sum_w(b.take(i)) + x.w + sum_w(b.skip(i + 1)));
        assert(sum_w(b0) == sum_w(b.take(i)) + sum_w(b.skip(i + 1)));
        assert(sum_w(a) == sum_w(a0) + x.w);
    }
}

proof fn lemma_buckets_push(s: Seq<WPoint>, x: WPoint, ch: int, v: nat)
    ensures
        buckets(s.push(x), ch, v).to_multiset() =~= if 0 <= x.c[ch] < v {
            buckets(s, ch, v).to_multiset().insert(x)
        } else {
            buckets(s, ch, v).to_multiset()
        },
    decreases v,
{
    broadcast use vstd::seq_lib::group_to_multiset_ensures;
    broadcast use vstd::multiset::group_multiset_axioms;

    if v > 0 {
        let u = (v - 1) as nat;
        lemma_buckets_push(s, x, ch, u);
        let p = has_chan(ch, u as int);
        s.lemma_filter_push(x, p);
        vstd::seq_lib::lemma_multiset_commutative(buckets(s.push(x), ch, u), s.push(x).filter(p));
        vstd::seq_lib::lemma_multiset_commutative(buckets(s, ch, u), s.filter(p));
    }
}

proof fn lemma_buckets_multiset(s: Seq<WPoint>, ch: int)
    requires
        forall|i: int| 0 <= i < s.len() ==> 0 <= #[trigger] s[i].c[ch] < 256,
    ensures
        sort_by_chan(s, ch).to_multiset() =~= s.to_multiset(),
    decreases s.len(),
{
    broadcast use vstd::seq_lib::group_to_multiset_ensures;

    if s.len() == 0 {
        lemma_buckets_empty(s, ch, 256);
    } else {
        let x = s.last();
        let s0 = s.drop_last();
        assert(s =~= s0.push(x));
        assert(forall|i: int| 0 <= i < s0.len() ==> s0[i] == s[i]);
        lemma_buckets_multiset(s0, ch);
        lemma_buckets_push(s0, x, ch, 256);
    }
}

proof fn lemma_buckets_empty(s: Seq<WPoint>, ch: int, v: nat)
    requires
        s.len() == 0,
    ensures
        buckets(s, ch, v) =~= Seq::<WPoint>::empty(),
    decreases v,
{
    if v > 0 {
        lemma_buckets_empty(s, ch, (v - 1) as nat);
        assert(s.filter(has_chan(ch, v - 1)) =~= s);
    }
}

/// Weighted points stay within bounds under any reordering.
proof fn lemma_ok_multiset(a: Seq<WPoint>, b: Seq<WPoint>)
    requires
        points_ok(a),
        a.to_multiset() =~= b.to_multiset(),
    ensures
        points_ok(b),
{
    broadcast use vstd::seq_lib::group_to_multiset_ensures;

    lemma_sum_w_multiset(a, b);
    assert forall|i: int| 0 <= i < b.len() implies rgba_channels(#[trigger] b[i].c) by {
        assert(b.to_multiset().count(b[i]) > 0);
        assert(a.contains(b[i]));
    }
}

/// A histogram stays valid under any reordering.
proof fn lemma_valid_multiset(a: Seq<WPoint>, b: Seq<WPoint>)
    requires
        histogram_valid(a),
        a.to_multiset() =~= b.to_multiset(),
    ensures
        histogram_valid(b),
{
    broadcast use vstd::seq_lib::group_to_multiset_ensures;

    lemma_ok_multiset(a, b);
    assert forall|i: int, j: int| 0 <= i < a.len() && 0 <= j < a.len() && i != j implies a[i]
        != a[j] by {
        assert(!same_color(a[i].c, a[j].c));
    }
    assert(a.no_duplicates());
    a.lemma_multiset_has_no_duplicates();
    b.lemma_multiset_has_no_duplicates_conv();
    assert forall|i: int, j: int|
        0 <= i < b.len() && 0 <= j < b.len() && i != j implies !same_color(
        #[trigger] b[i].c,
        #[trigger] b[j].c,
    ) by {
        assert(b.to_multiset().count(b[i]) > 0);
        assert(b.to_multiset().count(b[j]) > 0);
        let p = choose|p: int| 0 <= p < a.len() && a[p] == b[i];
        let q = choose|q: int| 0 <= q < a.len() && a[q] == b[j];
        assert(b[i] != b[j]);
    }
}

/// Replacing a segment by a reordering of itself reorders the whole sequence.
proof fn lemma_replace_segment(p: Seq<WPoint>, lo: int, hi: int, seg: Seq<WPoint>)
    requires
        0 <= lo <= hi <= p.len(),
        seg.to_multiset() =~= p.subrange(lo, hi).to_multiset(),
    ensures
        (p.take(lo) + seg + p.skip(hi)).to_multiset() =~= p.to_multiset(),
        (p.take(lo) + seg + p.skip(hi)).len() == p.len(),
{
    broadcast use vstd::seq_lib::group_to_multiset_ensures;

    assert(p =~= p.take(lo) + p.subrange(lo, hi) + p.skip(hi));
    vstd::seq_lib::lemma_multiset_commutative(p.take(lo) + seg, p.skip(hi));
    vstd::seq_lib::lemma_multiset_commutative(p.take(lo), seg);
    vstd::seq_lib::lemma_multiset_commutative(p.take(lo) + p.subrange(lo, hi), p.skip(hi));
    vstd::seq_lib::lemma_multiset_commutative(p.take(lo), p.subrange(lo, hi));
    assert(seg.len() == seg.to_multiset().len());
    assert(p.subrange(lo, hi).len() == p.subrange(lo, hi).to_multiset().len());
}

// ---------------------------------------------------------------------------
// Median cut.
// ---------------------------------------------------------------------------

/// Stable sort of `points[lo..hi]` by channel `ch` (bucketed by channel value).
fn sort_segment(points: &mut Vec<WPoint>, lo: usize, hi: usize, ch: usize)
    requires
        lo <= hi <= old(points)@.len(),
        ch < 4,
        all_rgba(old(points)@),
    ensures
        final(points)@ == old(points)@.take(lo as int) + sort_by_chan(
            old(points)@.subrange(lo as int, hi as int),
            ch as int,
        ) + old(points)@.skip(hi as int),
{
    let ghost seg = points@.subrange(lo as int, hi as int);
    let ghost orig = points@;
    let mut sorted: Vec<WPoint> = Vec::new();
    let mut v: i32 = 0;
    while v < 256
        invariant
            0 <= v <= 256,
            points@ == orig,
            lo <= hi <= orig.len(),
            ch < 4,
            seg == orig.subrange(lo as int, hi as int),
            sorted@ == buckets(seg, ch as int, v as nat),
        decreases 256 - v,
    {
        let mut j = lo;
        while j < hi
            invariant
                lo <= j <= hi,
                points@ == orig,
                hi <= orig.len(),
                ch < 4,
                0 <= v < 256,
                seg == orig.subrange(lo as int, hi as int),
                sorted@ == buckets(seg, ch as int, v as nat) + seg.take(j - lo).filter(
                    has_chan(ch as int, v as int),
                ),
            decreases hi - j,
        {
            let p = points[j];
            proof {
                assert(seg.take(j - lo + 1) =~= seg.take(j - lo).push(p));
                seg.take(j - lo).lemma_filter_push(p, has_chan(ch as int, v as int));
            }
            if p.c[ch] == v {
                sorted.push(p);
            }
            j += 1;
        }
        proof {
            assert(seg.take(hi - lo) =~= seg);
        }
        v += 1;
    }
    proof {
        assert forall|i: int| 0 <= i < seg.len() implies 0 <= #[trigger] seg[i].c[ch as int]
            < 256 by {
            assert(seg[i] == orig[lo + i]);
            assert(rgba_channels(orig[lo + i].c));
        }
        lemma_buckets_multiset(seg, ch as int);
        broadcast use vstd::seq_lib::group_to_multiset_ensures;

        assert(sorted@.len() == sorted@.to_multiset().len());
        assert(seg.len() == seg.to_multiset().len());
    }
    let mut j: usize = 0;
    while j < sorted.len()
        invariant
            j <= sorted@.len(),
            sorted@.len() == hi - lo,
            lo <= hi <= orig.len(),
            points@.len() == orig.len(),
            forall|i: int|
                0 <= i < orig.len() && !(lo <= i < lo + j) ==> #[trigger] points@[i] == orig[i],
            forall|i: int| lo <= i < lo + j ==> #[trigger] points@[i] == sorted@[i - lo],
        decreases sorted@.len() - j,
    {
        points.set(lo + j, sorted[j]);
        j += 1;
    }
    assert(points@ =~= orig.take(lo as int) + sorted@ + orig.skip(hi as int));
}

/// Total weight of `points[lo..hi]`.
fn seg_weight(points: &Vec<WPoint>, lo: usize, hi: usize) -> (w: u64)
    requires
        lo <= hi <= points@.len(),
        sum_w(points@.subrange(lo as int, hi as int)) <= u64::MAX,
    ensures
        w == sum_w(points@.subrange(lo as int, hi as int)),
{
    let ghost seg = points@.subrange(lo as int, hi as int);
    let mut acc: u64 = 0;
    let mut j = lo;
    while j < hi
        invariant
            lo <= j <= hi <= points@.len(),
            seg == points@.subrange(lo as int, hi as int),
            sum_w(seg) <= u64::MAX,
            acc == sum_w(seg.take(j - lo)),
        decreases hi - j,
    {
        proof {
            assert(seg.take(j - lo + 1).drop_last() =~= seg.take(j - lo));
            lemma_sum_w_split(seg, j - lo + 1);
        }
        acc = acc + points[j].w;
        j += 1;
    }
    assert(seg.take(hi - lo) =~= seg);
    acc
}

/// A fixed-point centre whose channels all lie in `0..=255` (times `FX`).
pub open spec fn center_ok(c: FxColor) -> bool {
    &&& c.0 <= 255 * FX
    &&& c.1 <= 255 * FX
    &&& c.2 <= 255 * FX
    &&& c.3 <= 255 * FX
}

proof fn lemma_chan_bounds(s: Seq<WPoint>, ch: int)
    requires
        s.len() > 0,
        0 <= ch < 4,
        all_rgba(s),
    ensures
        forall|i: int| 0 <= i < s.len() ==> chan_min(s, ch) <= #[trigger] s[i].c[ch] <= chan_max(s, ch),
        0 <= chan_min(s, ch) <= chan_max(s, ch) <= 255,
    decreases s.len(),
{
    assert(rgba_channels(s[s.len() - 1].c));
    assert(0 <= s.last().c[ch] <= 255) by {
        if ch == 0 {
        } else if ch == 1 {
        } else if ch == 2 {
        } else {
        }
    }
    if s.len() > 1 {
        let s0 = s.drop_last();
        assert forall|i: int| 0 <= i < s0.len() implies rgba_channels(#[trigger] s0[i].c) by {
            assert(s0[i] == s[i]);
            assert(rgba_channels(s[i].c));
        }
        lemma_chan_bounds(s0, ch);
        assert forall|i: int| 0 <= i < s.len() implies chan_min(s, ch) <= #[trigger] s[i].c[ch]
            <= chan_max(s, ch) by {
            if i < s.len() - 1 {
                assert(s0[i] == s[i]);
            }
        }
    } else {
        assert(s.drop_last().len() == 0);
        assert(chan_min(s.drop_last(), ch) == i32::MAX);
        assert(chan_max(s.drop_last(), ch) == i32::MIN);
    }
}

proof fn lemma_sum_c_bounds(s: Seq<WPoint>, ch: int)
    requires
        0 <= ch < 4,
        all_rgba(s),
    ensures
        0 <= sum_c(s, ch) <= 255 * sum_w(s),
    decreases s.len(),
{
    if s.len() > 0 {
        let s0 = s.drop_last();
        assert forall|i: int| 0 <= i < s0.len() implies rgba_channels(#[trigger] s0[i].c) by {
            assert(s0[i] == s[i]);
            assert(rgba_channels(s[i].c));
        }
        lemma_sum_c_bounds(s0, ch);
        let x = s.last();
        assert(rgba_channels(s[s.len() - 1].c));
        let c = x.c[ch] as int;
        let w = x.w as int;
        assert(0 <= c * w <= 255 * w) by (nonlinear_arith)
            requires
                0 <= c <= 255,
                0 <= w,
        ;
    }
}

proof fn lemma_fx_mean_bound(sum: int, w: int)
    requires
        0 <= sum <= 255 * w,
        w >= 1,
    ensures
        0 <= fx_mean(sum, w) <= 255 * FX,
        sum * (FX as int) <= 255 * (FX as int) * w,
{
    let f = FX as int;
    assert(0 <= sum * f <= (255 * f) * w) by (nonlinear_arith)
        requires
            0 <= sum <= 255 * w,
            f > 0,
    ;
    vstd::arithmetic::div_mod::lemma_div_is_ordered(sum * f, (255 * f) * w, w);
    vstd::arithmetic::div_mod::lemma_div_pos_is_pos(sum * f, w);
    assert((255 * f) * w == w * (255 * f)) by (nonlinear_arith);
    vstd::arithmetic::div_mod::lemma_div_multiples_vanish(255 * f, w);
}

/// Index of the heaviest box holding at least two points, if any.
fn heaviest_box(boxes: &Vec<CutBox>) -> (r: Option<usize>)
    ensures
        match r {
            Some(i) => i == heaviest(boxes@, boxes@.len() as int) && i < boxes@.len(),
            None => heaviest(boxes@, boxes@.len() as int) < 0,
        },
{
    let mut best: Option<usize> = None;
    let mut j: usize = 0;
    while j < boxes.len()
        invariant
            j <= boxes@.len(),
            match best {
                Some(i) => i == heaviest(boxes@, j as int) && i < j,
                None => heaviest(boxes@, j as int) < 0,
            },
        decreases boxes@.len() - j,
    {
        let b = boxes[j];
        if b.hi >= b.lo && b.hi - b.lo >= 2 {
            match best {
                None => {
                    best = Some(j);
                },
                Some(i) => {
                    if b.weight >= boxes[i].weight {
                        best = Some(j);
                    }
                },
            }
        }
        j += 1;
    }
    best
}

/// Smallest and largest value of channel `ch` over `points[lo..hi]`.
fn chan_range(points: &Vec<WPoint>, lo: usize, hi: usize, ch: usize) -> (r: (i32, i32))
    requires
        lo <= hi <= points@.len(),
        ch < 4,
    ensures
        r.0 == chan_min(points@.subrange(lo as int, hi as int), ch as int),
        r.1 == chan_max(points@.subrange(lo as int, hi as int), ch as int),
{
    let ghost seg = points@.subrange(lo as int, hi as int);
    let mut mn: i32 = i32::MAX;
    let mut mx: i32 = i32::MIN;
    let mut j = lo;
    while j < hi
        invariant
            lo <= j <= hi <= points@.len(),
            ch < 4,
            seg == points@.subrange(lo as int, hi as int),
            mn == chan_min(seg.take(j - lo), ch as int),
            mx == chan_max(seg.take(j - lo), ch as int),
        decreases hi - j,
    {
        proof {
            assert(seg.take(j - lo + 1).drop_last() =~= seg.take(j - lo));
        }
        let v = points[j].c[ch];
        if v < mn {
            mn = v;
        }
        if v > mx {
            mx = v;
        }
        j += 1;
    }
    assert(seg.take(hi - lo) =~= seg);
    (mn, mx)
}

/// The channel of widest spread over `points[lo..hi]`, and whether that
/// spread is zero.
fn widest_channel(points: &Vec<WPoint>, lo: usize, hi: usize) -> (r: (usize, bool))
    requires
        lo < hi <= points@.len(),
        all_rgba(points@),
    ensures
        r.0 == widest(points@.subrange(lo as int, hi as int)),
        r.0 < 4,
        r.1 == (chan_max(points@.subrange(lo as int, hi as int), r.0 as int) == chan_min(
            points@.subrange(lo as int, hi as int),
            r.0 as int,
        )),
        forall|c: int|
            0 <= c < 4 ==> chan_max(points@.subrange(lo as int, hi as int), r.0 as int) - chan_min(
                points@.subrange(lo as int, hi as int),
                r.0 as int,
            ) >= #[trigger] chan_max(points@.subrange(lo as int, hi as int), c) - chan_min(
                points@.subrange(lo as int, hi as int),
                c,
            ),
{
    let ghost seg = points@.subrange(lo as int, hi as int);
    proof {
        lemma_widest_is_widest(seg);
    }
    proof {
        assert forall|i: int| 0 <= i < seg.len() implies rgba_channels(#[trigger] seg[i].c) by {
            assert(seg[i] == points@[lo + i]);
        }
        lemma_chan_bounds(seg, 0);
        lemma_chan_bounds(seg, 1);
        lemma_chan_bounds(seg, 2);
        lemma_chan_bounds(seg, 3);
    }
    let (mn0, mx0) = chan_range(points, lo, hi, 0);
    let (mn1, mx1) = chan_range(points, lo, hi, 1);
    let (mn2, mx2) = chan_range(points, lo, hi, 2);
    let (mn3, mx3) = chan_range(points, lo, hi, 3);
    let w0 = mx0 - mn0;
    let w1 = mx1 - mn1;
    let w2 = mx2 - mn2;
    let w3 = mx3 - mn3;
    let mut ch: usize = 0;
    let mut best = w0;
    if w1 >= best {
        ch = 1;
        best = w1;
    }
    if w2 >= best {
        ch = 2;
        best = w2;
    }
    if w3 >= best {
        ch = 3;
        best = w3;
    }
    (ch, best == 0)
}

/// Weighted-median split point of the (sorted) box `points[lo..hi]`.
fn weighted_cut(points: &Vec<WPoint>, lo: usize, hi: usize, half: u64) -> (cut: usize)
    requires
        lo + 2 <= hi <= points@.len(),
        sum_w(points@.subrange(lo as int, hi as int)) <= u64::MAX,
    ensures
        cut == cut_index(points@.subrange(lo as int, hi as int), half as int),
        1 <= cut < hi - lo,
{
    let ghost seg = points@.subrange(lo as int, hi as int);
    let mut acc: u64 = 0;
    let mut cut: usize = 0;
    let mut found = false;
    let mut i = lo;
    while i < hi && !found
        invariant
            lo <= i <= hi <= points@.len(),
            seg == points@.subrange(lo as int, hi as int),
            sum_w(seg) <= u64::MAX,
            found ==> cut == reach_index(seg, half as int, 0),
            !found ==> cut == 0 && acc == sum_w(seg.take(i - lo)) && reach_index(
                seg,
                half as int,
                0,
            ) == reach_index(seg, half as int, (i - lo) as nat),
        decreases hi - i + if found {
            0int
        } else {
            1
        },
    {
        proof {
            assert(seg.take(i - lo + 1).drop_last() =~= seg.take(i - lo));
            lemma_sum_w_split(seg, i - lo + 1);
        }
        acc = acc + points[i].w;
        if acc >= half {
            cut = i - lo + 1;
            found = true;
        } else {
            i += 1;
        }
    }
    let len = hi - lo;
    if cut < 1 {
        1
    } else if cut > len - 1 {
        len - 1
    } else {
        cut
    }
}

/// Fixed-point weighted mean colour of `points[lo..hi]`.
fn box_center_of(points: &Vec<WPoint>, lo: usize, hi: usize) -> (c: FxColor)
    requires
        lo <= hi <= points@.len(),
        all_rgba(points@),
        sum_w(points@.subrange(lo as int, hi as int)) <= u64::MAX,
    ensures
        c == box_center(points@.subrange(lo as int, hi as int)),
        center_ok(c),
{
    let ghost seg = points@.subrange(lo as int, hi as int);
    proof {
        assert forall|i: int| 0 <= i < seg.len() implies rgba_channels(#[trigger] seg[i].c) by {
            assert(seg[i] == points@[lo + i]);
        }
    }
    let w = seg_weight(points, lo, hi);
    let mut s0: u128 = 0;
    let mut s1: u128 = 0;
    let mut s2: u128 = 0;
    let mut s3: u128 = 0;
    let mut j = lo;
    while j < hi
        invariant
            lo <= j <= hi <= points@.len(),
            seg == points@.subrange(lo as int, hi as int),
            all_rgba(seg),
            sum_w(seg) <= u64::MAX,
            s0 == sum_c(seg.take(j - lo), 0),
            s1 == sum_c(seg.take(j - lo), 1),
            s2 == sum_c(seg.take(j - lo), 2),
            s3 == sum_c(seg.take(j - lo), 3),
        decreases hi - j,
    {
        let ghost t = seg.take(j - lo + 1);
        proof {
            assert(t.drop_last() =~= seg.take(j - lo));
            assert forall|i: int| 0 <= i < t.len() implies rgba_channels(#[trigger] t[i].c) by {
                assert(t[i] == seg[i]);
            }
            lemma_sum_w_split(seg, j - lo + 1);
            lemma_sum_c_bounds(t, 0);
            lemma_sum_c_bounds(t, 1);
            lemma_sum_c_bounds(t, 2);
            lemma_sum_c_bounds(t, 3);
            lemma_sum_c_bounds(seg.take(j - lo), 0);
            lemma_sum_c_bounds(seg.take(j - lo), 1);
            lemma_sum_c_bounds(seg.take(j - lo), 2);
            lemma_sum_c_bounds(seg.take(j - lo), 3);
            assert(seg[j - lo] == points@[j as int]);
            assert(rgba_channels(points@[j as int].c));
        }
        let p = points[j];
        let pw = p.w as u128;
        s0 = s0 + (p.c[0] as u128) * pw;
        s1 = s1 + (p.c[1] as u128) * pw;
        s2 = s2 + (p.c[2] as u128) * pw;
        s3 = s3 + (p.c[3] as u128) * pw;
        j += 1;
    }
    proof {
        assert(seg.take(hi - lo) =~= seg);
        lemma_sum_w_nonneg(seg);
        lemma_sum_c_bounds(seg, 0);
        lemma_sum_c_bounds(seg, 1);
        lemma_sum_c_bounds(seg, 2);
        lemma_sum_c_bounds(seg, 3);
    }
    let wd: u128 = if w > 0 {
        w as u128
    } else {
        1
    };
    proof {
        lemma_fx_mean_bound(s0 as int, wd as int);
        lemma_fx_mean_bound(s1 as int, wd as int);
        lemma_fx_mean_bound(s2 as int, wd as int);
        lemma_fx_mean_bound(s3 as int, wd as int);
    }
    let fx = FX as u128;
    ((s0 * fx / wd) as u64, (s1 * fx / wd) as u64, (s2 * fx / wd) as u64, (s3 * fx / wd) as u64)
}

/// The points of a box all share one colour: its widest channel has no spread.
pub open spec fn flat_seg(seg: Seq<WPoint>) -> bool {
    chan_max(seg, widest(seg)) == chan_min(seg, widest(seg))
}

/// The boxes are non-empty, pairwise disjoint ranges of `pts`, each carrying
/// the total weight of its points, or weight zero once marked unsplittable
/// for holding a single repeated colour.
pub open spec fn boxes_tile(pts: Seq<WPoint>, boxes: Seq<CutBox>) -> bool {
    &&& forall|a: int|
        0 <= a < boxes.len() ==> (#[trigger] boxes[a]).lo < boxes[a].hi <= pts.len()
    &&& forall|a: int|
        0 <= a < boxes.len() ==> (#[trigger] boxes[a]).weight == sum_w(
            pts.subrange(boxes[a].lo as int, boxes[a].hi as int),
        ) || (boxes[a].weight == 0 && flat_seg(
            pts.subrange(boxes[a].lo as int, boxes[a].hi as int),
        ))
    &&& forall|a: int, b: int|
        0 <= a < boxes.len() && 0 <= b < boxes.len() && a != b ==> (#[trigger] boxes[a]).hi
            <= (#[trigger] boxes[b]).lo || boxes[b].hi <= boxes[a].lo
}

proof fn lemma_sum_w_subrange(s: Seq<WPoint>, lo: int, hi: int)
    requires
        0 <= lo <= hi <= s.len(),
    ensures
        0 <= sum_w(s.subrange(lo, hi)) <= sum_w(s),
{
    lemma_sum_w_split(s, hi);
    lemma_sum_w_split(s.take(hi), lo);
    assert(s.take(hi).skip(lo) =~= s.subrange(lo, hi));
}

proof fn lemma_heaviest_props(boxes: Seq<CutBox>, n: int)
    requires
        0 <= n <= boxes.len(),
    ensures
        -1 <= heaviest(boxes, n) < n,
        heaviest(boxes, n) >= 0 ==> boxes[heaviest(boxes, n)].hi - boxes[heaviest(boxes, n)].lo
            >= 2,
    decreases n,
{
    if n > 0 {
        lemma_heaviest_props(boxes, n - 1);
    }
}

/// A box of two or more distinct colours always has a channel of positive spread.
proof fn lemma_flat_impossible(seg: Seq<WPoint>)
    requires
        seg.len() >= 2,
        all_rgba(seg),
        distinct_colors(seg),
    ensures
        chan_max(seg, widest(seg)) != chan_min(seg, widest(seg)),
{
    lemma_chan_bounds(seg, 0);
    lemma_chan_bounds(seg, 1);
    lemma_chan_bounds(seg, 2);
    lemma_chan_bounds(seg, 3);
    if chan_max(seg, widest(seg)) == chan_min(seg, widest(seg)) {
        assert(width(seg, 0) == 0);
        assert(width(seg, 1) == 0);
        assert(width(seg, 2) == 0);
        assert(width(seg, 3) == 0);
        assert(same_color(seg[0].c, seg[1].c));
        assert(!same_color(seg[0].c, seg[1].c));
    }
}

/// Splitting the heaviest box keeps the points a valid reordering of the
/// histogram and the boxes a tiling of it.
proof fn lemma_split_step(
    pts: Seq<WPoint>,
    boxes: Seq<CutBox>,
    bi: int,
    ch: int,
    cut: int,
    pts2: Seq<WPoint>,
    boxes2: Seq<CutBox>,
)
    requires
        points_ok(pts),
        boxes_tile(pts, boxes),
        0 <= bi < boxes.len(),
        boxes[bi].hi - boxes[bi].lo >= 2,
        boxes[bi].weight == sum_w(pts.subrange(boxes[bi].lo as int, boxes[bi].hi as int)),
        0 <= ch < 4,
        1 <= cut < boxes[bi].hi - boxes[bi].lo,
        pts2 == pts.take(boxes[bi].lo as int) + sort_by_chan(
            pts.subrange(boxes[bi].lo as int, boxes[bi].hi as int),
            ch,
        ) + pts.skip(boxes[bi].hi as int),
        boxes2 == boxes.update(
            bi,
            CutBox {
                lo: boxes[bi].lo,
                hi: (boxes[bi].lo + cut) as usize,
                weight: sum_w(
                    sort_by_chan(pts.subrange(boxes[bi].lo as int, boxes[bi].hi as int), ch).take(
                        cut,
                    ),
                ) as u64,
            },
        ).push(
            CutBox {
                lo: (boxes[bi].lo + cut) as usize,
                hi: boxes[bi].hi,
                weight: (boxes[bi].weight - sum_w(
                    sort_by_chan(pts.subrange(boxes[bi].lo as int, boxes[bi].hi as int), ch).take(
                        cut,
                    ),
                )) as u64,
            },
        ),
    ensures
        points_ok(pts2),
        pts2.len() == pts.len(),
        pts2.to_multiset() == pts.to_multiset(),
        boxes_tile(pts2, boxes2),
        boxes2.len() == boxes.len() + 1,
{
    broadcast use vstd::seq_lib::group_to_multiset_ensures;

    let b = boxes[bi];
    let lo = b.lo as int;
    let hi = b.hi as int;
    let seg = pts.subrange(lo, hi);
    let sorted = sort_by_chan(seg, ch);
    assert forall|i: int| 0 <= i < seg.len() implies 0 <= #[trigger] seg[i].c[ch] < 256 by {
        assert(seg[i] == pts[lo + i]);
        assert(rgba_channels(pts[lo + i].c));
    }
    lemma_buckets_multiset(seg, ch);
    assert(sorted.len() == seg.len()) by {
        assert(sorted.len() == sorted.to_multiset().len());
        assert(seg.len() == seg.to_multiset().len());
    }
    lemma_replace_segment(pts, lo, hi, sorted);
    lemma_ok_multiset(pts, pts2);
    lemma_sum_w_multiset(seg, sorted);
    lemma_sum_w_split(sorted, cut);
    let left_w = sum_w(sorted.take(cut));
    let mid = lo + cut;
    assert(pts2.subrange(lo, mid) =~= sorted.take(cut));
    assert(pts2.subrange(mid, hi) =~= sorted.skip(cut));
    assert forall|i: int| 0 <= i < pts.len() && (i < lo || i >= hi) implies #[trigger] pts2[i]
        == pts[i] by {
        if i < lo {
        } else {
            assert(pts2[i] == pts.skip(hi)[i - lo - sorted.len()]);
        }
    }
    let n = boxes.len();
    assert forall|a: int| 0 <= a < boxes2.len() implies (#[trigger] boxes2[a]).lo < boxes2[a].hi
        <= pts2.len() by {
        if a < n && a != bi {
            assert(boxes2[a] == boxes[a]);
        }
    }
    assert forall|a: int| 0 <= a < boxes2.len() implies (#[trigger] boxes2[a]).weight == sum_w(
        pts2.subrange(boxes2[a].lo as int, boxes2[a].hi as int),
    ) || (boxes2[a].weight == 0 && flat_seg(
        pts2.subrange(boxes2[a].lo as int, boxes2[a].hi as int),
    )) by {
        if a < n && a != bi {
            let c = boxes[a];
            assert(boxes2[a] == c);
            assert(c.hi <= b.lo || b.hi <= c.lo);
            assert(pts2.subrange(c.lo as int, c.hi as int) =~= pts.subrange(
                c.lo as int,
                c.hi as int,
            ));
        }
    }
    assert forall|a: int, c: int|
        0 <= a < boxes2.len() && 0 <= c < boxes2.len() && a != c implies (#[trigger] boxes2[a]).hi
        <= (#[trigger] boxes2[c]).lo || boxes2[c].hi <= boxes2[a].lo by {
        if a < n && a != bi {
            assert(boxes2[a] == boxes[a]);
            assert(boxes[a].hi <= b.lo || b.hi <= boxes[a].lo);
        }
        if c < n && c != bi {
            assert(boxes2[c] == boxes[c]);
            assert(boxes[c].hi <= b.lo || b.hi <= boxes[c].lo);
        }
        if a < n && a != bi && c < n && c != bi {
            assert(boxes[a].hi <= boxes[c].lo || boxes[c].hi <= boxes[a].lo);
        }
    }
}

/// The boxes tile `pts` and every point lies in one of them.
pub open spec fn boxes_partition(pts: Seq<WPoint>, boxes: Seq<CutBox>) -> bool {
    &&& boxes_tile(pts, boxes)
    &&& forall|i: int| 0 <= i < pts.len() ==> in_box(boxes, i)
}

/// Median cut over the weighted points: split the heaviest box along its
/// widest channel at the weighted median until `k` boxes exist, no box holds
/// two points, or `k` steps have been taken. A box holding one repeated
/// colour is marked unsplittable (weight zero) instead of being split.
/// Reorders `points` and returns the fixed-point mean colour of every box.
fn median_cut(points: &mut Vec<WPoint>, k: usize) -> (centers: Vec<FxColor>)
    requires
        points_ok(old(points)@),
    ensures
        (final(points)@, centers@) == median_cut_spec(old(points)@, k as int),
        points_ok(final(points)@),
        final(points)@.len() == old(points)@.len(),
        final(points)@.to_multiset() == old(points)@.to_multiset(),
        exists|b: Seq<CutBox>|
            boxes_partition(final(points)@, b) && b.len() == centers@.len() && centers@
                == cut_centers(final(points)@, b, b.len() as int),
        old(points)@.len() == 0 ==> centers@.len() == 0 && final(points)@ == old(points)@,
        old(points)@.len() >= 1 ==> 1 <= centers@.len() && (centers@.len() <= k
            || centers@.len() == 1),
        distinct_colors(old(points)@) && old(points)@.len() >= 1 && k >= 1 ==> centers@.len()
            == if k <= old(points)@.len() {
            k as int
        } else {
            old(points)@.len() as int
        },
        forall|i: int| 0 <= i < centers@.len() ==> center_ok(#[trigger] centers@[i]),
{
    let n = points.len();
    let ghost init = points@;
    if n == 0 {
        proof {
            let bs = seq![whole_box(init)];
            assert(heaviest(bs, 0) == -1);
            assert(heaviest(bs, 1) < 0);
            assert(mc_run(init, bs, k as int, k as nat) == (init, bs));
            assert(cut_centers(init, bs, 0) =~= Seq::<FxColor>::empty());
            assert(cut_centers(init, bs, 1) =~= Seq::<FxColor>::empty());
            let e = Seq::<CutBox>::empty();
            assert(cut_centers(init, e, 0) =~= Seq::<FxColor>::empty());
            assert(boxes_partition(init, e));
        }
        return Vec::new();
    }
    assert(init.subrange(0, n as int) =~= init);
    proof {
        lemma_sum_w_nonneg(init);
    }
    let total = seg_weight(points, 0, n);
    let mut boxes: Vec<CutBox> = Vec::new();
    boxes.push(CutBox { lo: 0, hi: n, weight: total });
    assert(boxes@ =~= seq![whole_box(init)]);
    let ghost goal = mc_run(init, boxes@, k as int, k as nat);
    proof {
        assert(boxes@[0] == whole_box(init));
        assert forall|i: int| 0 <= i < init.len() implies in_box(boxes@, i) by {
            assert(boxes@[0] == whole_box(init));
        }
        lemma_mc_run_inv(init, boxes@, k as int, k as nat);
        if distinct_colors(init) && k >= 1 {
            assert(box_sizes(boxes@) == n) by {
                assert(boxes@.drop_last() =~= Seq::<CutBox>::empty());
                assert(box_sizes(Seq::<CutBox>::empty()) == 0);
            }
            lemma_mc_run_count(init, boxes@, k as int, k as nat);
        }
    }
    let mut fuel: usize = k;
    while fuel > 0 && boxes.len() < k
        invariant
            points@.len() == n,
            n >= 1,
            points_ok(points@),
            boxes_tile(points@, boxes@),
            1 <= boxes@.len(),
            boxes@.len() <= k || boxes@.len() == 1,
            fuel <= k,
            mc_run(points@, boxes@, k as int, fuel as nat) == goal,
        ensures
            (points@, boxes@) == goal,
        decreases fuel,
    {
        let hb = heaviest_box(&boxes);
        if hb.is_none() {
            break;
        }
        let bi = hb.unwrap();
        let b = boxes[bi];
        let lo = b.lo;
        let hi = b.hi;
        let ghost pts0 = points@;
        let ghost boxes0 = boxes@;
        proof {
            assert(boxes@[bi as int] == b);
            lemma_sum_w_subrange(points@, lo as int, hi as int);
            lemma_heaviest_props(boxes@, boxes@.len() as int);
        }
        let (ch, flat) = widest_channel(points, lo, hi);
        if flat {
            boxes.set(bi, CutBox { lo, hi, weight: 0 });
            fuel -= 1;
            proof {
                assert(flat_seg(pts0.subrange(lo as int, hi as int)));
                assert forall|a: int| 0 <= a < boxes@.len() implies (#[trigger] boxes@[a]).lo
                    < boxes@[a].hi <= points@.len() by {
                    assert(boxes@[a].lo == boxes0[a].lo && boxes@[a].hi == boxes0[a].hi);
                }
                assert(mc_step(pts0, boxes0) == (points@, boxes@));
            }
            continue;
        }
        proof {
            assert(b.weight == sum_w(pts0.subrange(lo as int, hi as int)));
        }
        sort_segment(points, lo, hi, ch);
        let ghost sorted = sort_by_chan(pts0.subrange(lo as int, hi as int), ch as int);
        proof {
            let seg = pts0.subrange(lo as int, hi as int);
            assert forall|i: int| 0 <= i < seg.len() implies 0 <= #[trigger] seg[i].c[ch as int]
                < 256 by {
                assert(seg[i] == pts0[lo + i]);
                assert(rgba_channels(pts0[lo + i].c));
            }
            lemma_buckets_multiset(seg, ch as int);
            lemma_sum_w_multiset(seg, sorted);
            broadcast use vstd::seq_lib::group_to_multiset_ensures;

            assert(sorted.len() == sorted.to_multiset().len());
            assert(seg.len() == seg.to_multiset().len());
        }
        assert(points@.subrange(lo as int, hi as int) =~= sorted);
        let half = b.weight / 2;
        let cut = weighted_cut(points, lo, hi, half);
        let mid = lo + cut;
        assert(points@.subrange(lo as int, mid as int) =~= sorted.take(cut as int));
        proof {
            lemma_sum_w_split(sorted, cut as int);
        }
        let left_w = seg_weight(points, lo, mid);
        proof {
            lemma_sum_w_multiset(pts0.subrange(lo as int, hi as int), sorted);
        }
        let right_w = b.weight - left_w;
        boxes.set(bi, CutBox { lo, hi: mid, weight: left_w });
        boxes.push(CutBox { lo: mid, hi, weight: right_w });
        fuel -= 1;
        proof {
            lemma_split_step(pts0, boxes0, bi as int, ch as int, cut as int, points@, boxes@);
            assert(mc_step(pts0, boxes0) == (points@, boxes@));
        }
    }
    let mut centers: Vec<FxColor> = Vec::new();
    let mut j: usize = 0;
    while j < boxes.len()
        invariant
            j <= boxes@.len(),
            1 <= boxes@.len(),
            points_ok(points@),
            boxes_tile(points@, boxes@),
            centers@ == cut_centers(points@, boxes@, j as int),
            centers@.len() == j,
            forall|i: int| 0 <= i < centers@.len() ==> center_ok(#[trigger] centers@[i]),
        decreases boxes@.len() - j,
    {
        let b = boxes[j];
        proof {
            assert(boxes@[j as int] == b);
            lemma_sum_w_subrange(points@, b.lo as int, b.hi as int);
        }
        if b.hi > b.lo {
            let c = box_center_of(points, b.lo, b.hi);
            centers.push(c);
        }
        j += 1;
    }
    centers
}

// ---------------------------------------------------------------------------
// Weighted k-means.
// ---------------------------------------------------------------------------

/// Every centre lies in the RGBA cube.
pub open spec fn centers_ok(cs: Seq<FxColor>) -> bool {
    forall|i: int| 0 <= i < cs.len() ==> center_ok(#[trigger] cs[i])
}

/// Largest squared fixed-point distance: `4 * (255 * FX)^2 < 2^82`.
pub open spec fn max_center_dist() -> int {
    4 * ((255 * FX as int) * (255 * FX as int))
}

proof fn lemma_rgba_chan(c: [i32; 4], ch: int)
    requires
        rgba_channels(c),
        0 <= ch < 4,
    ensures
        0 <= c[ch] <= 255,
{
    if ch == 0 {
    } else if ch == 1 {
    } else if ch == 2 {
    } else {
    }
}

proof fn lemma_center_dist_bound(c: FxColor, p: [i32; 4])
    requires
        center_ok(c),
        rgba_channels(p),
    ensures
        0 <= center_dist(c, p) <= max_center_dist(),
{
    let b = 255 * FX as int;
    lemma_sq_bounds(c.0 - p[0] * FX, b);
    lemma_sq_bounds(c.1 - p[1] * FX, b);
    lemma_sq_bounds(c.2 - p[2] * FX, b);
    lemma_sq_bounds(c.3 - p[3] * FX, b);
}

/// Squared fixed-point distance between a centre and a colour.
fn center_distance(c: FxColor, p: [i32; 4]) -> (d: u128)
    requires
        center_ok(c),
        rgba_channels(p),
    ensures
        d == center_dist(c, p),
        d <= max_center_dist(),
{
    proof {
        lemma_center_dist_bound(c, p);
        let b = 255 * FX as int;
        lemma_sq_bounds(c.0 - p[0] * FX, b);
        lemma_sq_bounds(c.1 - p[1] * FX, b);
        lemma_sq_bounds(c.2 - p[2] * FX, b);
        lemma_sq_bounds(c.3 - p[3] * FX, b);
    }
    let fx = FX as i128;
    let d0 = c.0 as i128 - (p[0] as i128) * fx;
    let d1 = c.1 as i128 - (p[1] as i128) * fx;
    let d2 = c.2 as i128 - (p[2] as i128) * fx;
    let d3 = c.3 as i128 - (p[3] as i128) * fx;
    let d = d0 * d0 + d1 * d1 + d2 * d2 + d3 * d3;
    d as u128
}

/// Index of the centre nearest to `p` (the first one on ties).
fn nearest_center_of(centers: &Vec<FxColor>, p: [i32; 4]) -> (r: usize)
    requires
        centers@.len() >= 1,
        centers_ok(centers@),
        rgba_channels(p),
    ensures
        r == nearest_center(centers@, p, centers@.len() as int),
        r < centers@.len(),
{
    let mut best: u128 = u128::MAX;
    let mut bi: usize = 0;
    let mut ci: usize = 0;
    while ci < centers.len()
        invariant
            ci <= centers@.len(),
            centers@.len() >= 1,
            centers_ok(centers@),
            rgba_channels(p),
            ci == 0 ==> best == u128::MAX && bi == 0,
            ci > 0 ==> bi == nearest_center(centers@, p, ci as int) && bi < ci && best
                == center_dist(centers@[bi as int], p),
        decreases centers@.len() - ci,
    {
        let d = center_distance(centers[ci], p);
        if d < best {
            best = d;
            bi = ci;
        }
        ci += 1;
    }
    bi
}

proof fn lemma_cluster_bounds(pts: Seq<WPoint>, asg: Seq<int>, ci: int, n: int)
    requires
        0 <= n <= pts.len(),
        all_rgba(pts),
    ensures
        0 <= cluster_w(pts, asg, ci, n) <= sum_w(pts.take(n)),
        forall|ch: int|
            0 <= ch < 4 ==> 0 <= #[trigger] cluster_c(pts, asg, ci, ch, n) <= 255 * cluster_w(
                pts,
                asg,
                ci,
                n,
            ),
    decreases n,
{
    if n > 0 {
        lemma_cluster_bounds(pts, asg, ci, n - 1);
        assert(pts.take(n).drop_last() =~= pts.take(n - 1));
        assert(rgba_channels(pts[n - 1].c));
        assert forall|ch: int|
            0 <= ch < 4 implies 0 <= #[trigger] cluster_c(pts, asg, ci, ch, n) <= 255 * cluster_w(
            pts,
            asg,
            ci,
            n,
        ) by {
            lemma_rgba_chan(pts[n - 1].c, ch);
            assert(0 <= cluster_c(pts, asg, ci, ch, n - 1) <= 255 * cluster_w(pts, asg, ci, n - 1));
            let c = pts[n - 1].c[ch] as int;
            let w = pts[n - 1].w as int;
            assert(0 <= c * w <= 255 * w) by (nonlinear_arith)
                requires
                    0 <= c <= 255,
                    0 <= w,
            ;
        }
    }
}

/// Reseeding key of point `i` (see `reseed_key`).
fn reseed_key_of(centers: &Vec<FxColor>, p: WPoint, ci: usize) -> (key: u64)
    requires
        ci < centers@.len(),
        centers_ok(centers@),
        rgba_channels(p.c),
    ensures
        key == {
            let k = (center_dist(centers@[ci as int], p.c) / (FX as int)) * p.w / (FX as int);
            if k > i64::MAX {
                i64::MAX as int
            } else {
                k
            }
        },
{
    let d = center_distance(centers[ci], p.c);
    let fx = FX as u128;
    let q = d / fx;
    proof {
        vstd::arithmetic::div_mod::lemma_div_is_ordered(d as int, max_center_dist(), FX as int);
        assert(max_center_dist() == 260100 * 4294967296 * 4294967296);
        vstd::arithmetic::div_mod::lemma_div_multiples_vanish(260100int * 4294967296int, 4294967296int);
        assert(max_center_dist() / (FX as int) <= 0x4_0000_0000_0000);
        assert((q as int) * (p.w as int) <= 0x4_0000_0000_0000 * 0xffff_ffff_ffff_ffff) by (
        nonlinear_arith)
            requires
                0 <= q <= 0x4_0000_0000_0000,
                0 <= p.w <= 0xffff_ffff_ffff_ffff,
        ;
    }
    let r = q * (p.w as u128) / fx;
    if r > i64::MAX as u128 {
        i64::MAX as u64
    } else {
        r as u64
    }
}

/// Index of the point with the largest reseeding key (the last one on ties).
fn farthest_point(
    points: &Vec<WPoint>,
    assign: &Vec<u8>,
    centers: &Vec<FxColor>,
    Ghost(asg): Ghost<Seq<int>>,
) -> (far: usize)
    requires
        points@.len() >= 1,
        all_rgba(points@),
        centers_ok(centers@),
        assign@.len() == points@.len(),
        asg.len() == points@.len(),
        forall|i: int|
            0 <= i < points@.len() ==> #[trigger] asg[i] == assign@[i] as int && asg[i]
                < centers@.len(),
    ensures
        far == farthest(points@, asg, centers@, points@.len() as int),
        far < points@.len(),
{
    let n = points.len();
    assert(asg[0] == assign@[0] as int);
    let mut bk = reseed_key_of(centers, points[0], assign[0] as usize);
    let mut bi: usize = 0;
    let mut pi: usize = 1;
    while pi < n
        invariant
            1 <= pi <= n,
            n == points@.len(),
            all_rgba(points@),
            centers_ok(centers@),
            assign@.len() == n,
            asg.len() == n,
            forall|i: int|
                0 <= i < n ==> #[trigger] asg[i] == assign@[i] as int && asg[i] < centers@.len(),
            bi == farthest(points@, asg, centers@, pi as int),
            bi < pi,
            bk == reseed_key(points@, asg, centers@, bi as int),
        decreases n - pi,
    {
        assert(asg[pi as int] == assign@[pi as int] as int);
        let key = reseed_key_of(centers, points[pi], assign[pi] as usize);
        if key >= bk {
            bk = key;
            bi = pi;
        }
        pi += 1;
    }
    bi
}

/// One k-means round: nearest-centre assignment, then weighted means, with
/// clusters that received no weight reseeded on the farthest point.
fn kmeans_round(points: &Vec<WPoint>, centers: &mut Vec<FxColor>)
    requires
        histogram_valid(points@),
        points@.len() >= 1,
        1 <= old(centers)@.len() <= 256,
        centers_ok(old(centers)@),
    ensures
        final(centers)@ == km_round(points@, old(centers)@),
        centers_ok(final(centers)@),
        final(centers)@.len() == old(centers)@.len(),
        forall|ci: int|
            0 <= ci < old(centers)@.len() && sum_w(cluster_of(points@, old(centers)@, ci)) > 0
                ==> #[trigger] final(centers)@[ci] == weighted_mean(
                cluster_of(points@, old(centers)@, ci),
            ),
{
    let n = points.len();
    let m = centers.len();
    let ghost cs0 = centers@;
    let ghost asg = assign_all(points@, cs0);
    let mut assign: Vec<u8> = Vec::new();
    let mut pi: usize = 0;
    while pi < n
        invariant
            pi <= n,
            n == points@.len(),
            centers@ == cs0,
            1 <= m == cs0.len() <= 256,
            centers_ok(cs0),
            all_rgba(points@),
            asg == assign_all(points@, cs0),
            assign@.len() == pi,
            forall|i: int|
                0 <= i < pi ==> #[trigger] asg[i] == assign@[i] as int && asg[i] < m,
        decreases n - pi,
    {
        let bi = nearest_center_of(centers, points[pi].c);
        assign.push(bi as u8);
        pi += 1;
    }
    let mut wsum: Vec<u64> = Vec::new();
    let mut sum0: Vec<u128> = Vec::new();
    let mut sum1: Vec<u128> = Vec::new();
    let mut sum2: Vec<u128> = Vec::new();
    let mut sum3: Vec<u128> = Vec::new();
    let mut ci: usize = 0;
    while ci < m
        invariant
            ci <= m,
            wsum@.len() == ci && sum0@.len() == ci && sum1@.len() == ci,
            sum2@.len() == ci && sum3@.len() == ci,
            forall|c: int| 0 <= c < ci ==> #[trigger] wsum@[c] == 0,
            forall|c: int| 0 <= c < ci ==> #[trigger] sum0@[c] == 0,
            forall|c: int| 0 <= c < ci ==> #[trigger] sum1@[c] == 0,
            forall|c: int| 0 <= c < ci ==> #[trigger] sum2@[c] == 0,
            forall|c: int| 0 <= c < ci ==> #[trigger] sum3@[c] == 0,
        decreases m - ci,
    {
        wsum.push(0);
        sum0.push(0);
        sum1.push(0);
        sum2.push(0);
        sum3.push(0);
        ci += 1;
    }
    let ghost pts = points@;
    pi = 0;
    while pi < n
        invariant
            pi <= n,
            n == pts.len(),
            pts == points@,
            histogram_valid(pts),
            1 <= m == cs0.len() <= 256,
            assign@.len() == n,
            asg.len() == n,
            forall|i: int| 0 <= i < n ==> #[trigger] asg[i] == assign@[i] as int && asg[i] < m,
            wsum@.len() == m && sum0@.len() == m && sum1@.len() == m,
            sum2@.len() == m && sum3@.len() == m,
            forall|c: int| 0 <= c < m ==> #[trigger] wsum@[c] == cluster_w(pts, asg, c, pi as int),
            forall|c: int|
                0 <= c < m ==> #[trigger] sum0@[c] == cluster_c(pts, asg, c, 0, pi as int),
            forall|c: int|
                0 <= c < m ==> #[trigger] sum1@[c] == cluster_c(pts, asg, c, 1, pi as int),
            forall|c: int|
                0 <= c < m ==> #[trigger] sum2@[c] == cluster_c(pts, asg, c, 2, pi as int),
            forall|c: int|
                0 <= c < m ==> #[trigger] sum3@[c] == cluster_c(pts, asg, c, 3, pi as int),
        decreases n - pi,
    {
        let c = assign[pi] as usize;
        let p = points[pi];
        proof {
            assert(asg[pi as int] == c);
            lemma_cluster_bounds(pts, asg, c as int, pi as int + 1);
            lemma_sum_w_split(pts, pi as int + 1);
            assert(0 <= cluster_c(pts, asg, c as int, 0, pi as int + 1));
            assert(0 <= cluster_c(pts, asg, c as int, 1, pi as int + 1));
            assert(0 <= cluster_c(pts, asg, c as int, 2, pi as int + 1));
            assert(0 <= cluster_c(pts, asg, c as int, 3, pi as int + 1));
            assert(rgba_channels(pts[pi as int].c));
        }
        let pw = p.w as u128;
        wsum.set(c, wsum[c] + p.w);
        sum0.set(c, sum0[c] + (p.c[0] as u128) * pw);
        sum1.set(c, sum1[c] + (p.c[1] as u128) * pw);
        sum2.set(c, sum2[c] + (p.c[2] as u128) * pw);
        sum3.set(c, sum3[c] + (p.c[3] as u128) * pw);
        pi += 1;
    }
    ci = 0;
    while ci < m
        invariant
            ci <= m,
            n == pts.len(),
            pts == points@,
            n >= 1,
            histogram_valid(pts),
            1 <= m == cs0.len() <= 256,
            centers@.len() == m,
            centers_ok(centers@),
            assign@.len() == n,
            asg.len() == n,
            asg == assign_all(pts, cs0),
            forall|i: int| 0 <= i < n ==> #[trigger] asg[i] == assign@[i] as int && asg[i] < m,
            wsum@.len() == m && sum0@.len() == m && sum1@.len() == m,
            sum2@.len() == m && sum3@.len() == m,
            forall|c: int| 0 <= c < m ==> #[trigger] wsum@[c] == cluster_w(pts, asg, c, n as int),
            forall|c: int| 0 <= c < m ==> #[trigger] sum0@[c] == cluster_c(pts, asg, c, 0, n as int),
            forall|c: int| 0 <= c < m ==> #[trigger] sum1@[c] == cluster_c(pts, asg, c, 1, n as int),
            forall|c: int| 0 <= c < m ==> #[trigger] sum2@[c] == cluster_c(pts, asg, c, 2, n as int),
            forall|c: int| 0 <= c < m ==> #[trigger] sum3@[c] == cluster_c(pts, asg, c, 3, n as int),
            update_from(pts, asg, cs0, 0) == update_from(pts, asg, centers@, ci as int),
        decreases m - ci,
    {
        let ghost cur = centers@;
        if wsum[ci] == 0 {
            let far = farthest_point(points, &assign, centers, Ghost(asg));
            let q = points[far].c;
            proof {
                assert(rgba_channels(pts[far as int].c));
            }
            let fx = FX as u64;
            let nc = ((q[0] as u64) * fx, (q[1] as u64) * fx, (q[2] as u64) * fx, (q[3] as u64) * fx);
            centers.set(ci, nc);
            assert(centers@ == cur.update(ci as int, nc));
        } else {
            proof {
                lemma_cluster_bounds(pts, asg, ci as int, n as int);
                assert(pts.take(n as int) =~= pts);
                let w = cluster_w(pts, asg, ci as int, n as int);
                lemma_fx_mean_bound(cluster_c(pts, asg, ci as int, 0, n as int), w);
                lemma_fx_mean_bound(cluster_c(pts, asg, ci as int, 1, n as int), w);
                lemma_fx_mean_bound(cluster_c(pts, asg, ci as int, 2, n as int), w);
                lemma_fx_mean_bound(cluster_c(pts, asg, ci as int, 3, n as int), w);
            }
            let w = wsum[ci] as u128;
            let fx = FX as u128;
            let nc = (
                (sum0[ci] * fx / w) as u64,
                (sum1[ci] * fx / w) as u64,
                (sum2[ci] * fx / w) as u64,
                (sum3[ci] * fx / w) as u64,
            );
            centers.set(ci, nc);
            assert(centers@ == cur.update(ci as int, nc));
        }
        ci += 1;
    }
    proof {
        assert forall|c: int| 0 <= c < cs0.len() && sum_w(cluster_of(points@, cs0, c)) > 0 implies
            #[trigger] centers@[c] == weighted_mean(cluster_of(points@, cs0, c)) by {
            lemma_round_moves_to_mean(points@, cs0, c);
        }
    }
}

/// The nearest palette entry is one of the entries.
pub proof fn lemma_nearest_color_range(cols: Seq<[u8; 4]>, p: [i32; 4], n: int)
    requires
        n >= 1,
    ensures
        0 <= nearest_color(cols, p, n) < n,
    decreases n,
{
    if n > 1 {
        lemma_nearest_color_range(cols, p, n - 1);
    }
}

/// Each colour maps to a palette entry at the least squared distance, and to
/// the first such entry when several tie.
pub proof fn lemma_nearest_color_closest(cols: Seq<[u8; 4]>, p: [i32; 4], n: int)
    requires
        1 <= n,
    ensures
        forall|j: int|
            0 <= j < n ==> dist2_color(p, cols[nearest_color(cols, p, n)]) <= dist2_color(
                p,
                #[trigger] cols[j],
            ),
        forall|j: int|
            0 <= j < nearest_color(cols, p, n) ==> dist2_color(p, cols[nearest_color(cols, p, n)])
                < dist2_color(p, #[trigger] cols[j]),
    decreases n,
{
    if n > 1 {
        lemma_nearest_color_closest(cols, p, n - 1);
        lemma_nearest_color_range(cols, p, n - 1);
    }
}

/// Result palette: at most 256 RGBA entries plus, per input point, the index
/// of the entry it maps to (same order as the input slice).
pub struct KmPalette {
    pub colors: Vec<[u8; 4]>,
    pub assignment: Vec<u8>,
}

proof fn lemma_round_fx_bound(v: int)
    requires
        0 <= v <= 255 * FX,
    ensures
        0 <= round_fx(v) <= 255,
{
    let f = FX as int;
    let h = f / 2;
    vstd::arithmetic::div_mod::lemma_div_is_ordered(v + h, f * 255 + h, f);
    vstd::arithmetic::div_mod::lemma_div_multiples_vanish_fancy(255, h, f);
    vstd::arithmetic::div_mod::lemma_div_pos_is_pos(v + h, f);
}

/// A fixed-point channel rounded to a byte.
fn round_channel(v: u64) -> (b: u8)
    requires
        v <= 255 * FX,
    ensures
        b == round_fx(v as int),
{
    proof {
        lemma_round_fx_bound(v as int);
    }
    ((v + FX / 2) / FX) as u8
}

/// The `i32` palette holds the channels of the `u8` palette.
pub open spec fn entries_match(pal: Seq<[i32; 4]>, cols: Seq<[u8; 4]>) -> bool {
    &&& pal.len() == cols.len()
    &&& forall|i: int|
        0 <= i < pal.len() ==> #[trigger] pal[i][0] == cols[i][0] && pal[i][1] == cols[i][1]
            && pal[i][2] == cols[i][2] && pal[i][3] == cols[i][3]
}

/// Index of the palette entry nearest to `p` (the first one on ties).
fn nearest_palette_entry(pal: &Vec<[i32; 4]>, cols: Ghost<Seq<[u8; 4]>>, p: [i32; 4]) -> (r: usize)
    requires
        pal@.len() >= 1,
        entries_match(pal@, cols@),
        rgba_channels(p),
    ensures
        r == nearest_color(cols@, p, cols@.len() as int),
        r < pal@.len(),
{
    let mut best: i64 = i64::MAX;
    let mut bi: usize = 0;
    let mut ci: usize = 0;
    while ci < pal.len()
        invariant
            ci <= pal@.len(),
            pal@.len() >= 1,
            entries_match(pal@, cols@),
            rgba_channels(p),
            ci == 0 ==> best == i64::MAX && bi == 0,
            ci > 0 ==> bi == nearest_color(cols@, p, ci as int) && bi < ci && best == dist2_color(
                p,
                cols@[bi as int],
            ),
        decreases pal@.len() - ci,
    {
        let c = pal[ci];
        proof {
            assert(pal@[ci as int][0] == cols@[ci as int][0]);
            let col = cols@[ci as int];
            lemma_sq_bounds(p[0] - col[0], 255);
            lemma_sq_bounds(p[1] - col[1], 255);
            lemma_sq_bounds(p[2] - col[2], 255);
            lemma_sq_bounds(p[3] - col[3], 255);
            assert(dist2_spec(p, c) == dist2_color(p, col));
        }
        let d = dist2(p, c);
        if d < best {
            best = d;
            bi = ci;
        }
        ci += 1;
    }
    bi
}

/// Weighted k-means: assign, then recompute weighted means, `iters` times
/// (at least once). Returns the final palette and the per-point assignment.
///
/// Centres are exact fixed-point values with 32 fractional bits (weighted
/// means rounded down), not floating point. A floating-point computation of
/// the same steps can choose differently where two centres are nearly tied
/// for a colour, or where a mean lies within 2^-32 of a half when rounded to
/// the final palette.
pub fn palette_kmeans(points_in: &[WPoint], k: usize, iters: usize) -> (pal: KmPalette)
    requires
        1 <= k <= 256,
        points_in@.len() >= 1,
        histogram_valid(points_in@),
    ensures
        pal.colors@ == kmeans_palette(points_in@, k as int, iters as int),
        1 <= pal.colors@.len() <= k,
        pal.colors@.len() == if k <= points_in@.len() {
            k as int
        } else {
            points_in@.len() as int
        },
        pal.assignment@.len() == points_in@.len(),
        forall|i: int|
            0 <= i < points_in@.len() ==> #[trigger] pal.assignment@[i] as int == nearest_color(
                pal.colors@,
                points_in@[i].c,
                pal.colors@.len() as int,
            ),
{
    let mut points: Vec<WPoint> = vstd::slice::slice_to_vec(points_in);
    let mut centers = median_cut(&mut points, k);
    proof {
        lemma_valid_multiset(points_in@, points@);
    }
    let ghost cs0 = centers@;
    let rounds: usize = if iters == 0 {
        1
    } else {
        iters
    };
    let mut r: usize = 0;
    while r < rounds
        invariant
            r <= rounds,
            histogram_valid(points@),
            points@.len() >= 1,
            1 <= centers@.len() <= k <= 256,
            centers@.len() == if k <= points_in@.len() {
                k as int
            } else {
                points_in@.len() as int
            },
            centers_ok(centers@),
            centers@ == km_rounds(points@, cs0, r as nat),
        decreases rounds - r,
    {
        kmeans_round(&points, &mut centers);
        r += 1;
    }
    assert(centers@ == kmeans_centers(points_in@, k as int, iters as int));
    // Final palette: rounded centres.
    let mut colors: Vec<[u8; 4]> = Vec::new();
    let mut pal_i32: Vec<[i32; 4]> = Vec::new();
    let mut ci: usize = 0;
    while ci < centers.len()
        invariant
            ci <= centers@.len(),
            centers_ok(centers@),
            colors@.len() == ci,
            pal_i32@.len() == ci,
            forall|i: int| 0 <= i < ci ==> rounds_to(#[trigger] colors@[i], centers@[i]),
            entries_match(pal_i32@, colors@),
        decreases centers@.len() - ci,
    {
        let c = centers[ci];
        proof {
            assert(center_ok(centers@[ci as int]));
        }
        let col: [u8; 4] = [
            round_channel(c.0),
            round_channel(c.1),
            round_channel(c.2),
            round_channel(c.3),
        ];
        let ghost pal0 = pal_i32@;
        let ghost cols0 = colors@;
        colors.push(col);
        let e: [i32; 4] = [col[0] as i32, col[1] as i32, col[2] as i32, col[3] as i32];
        pal_i32.push(e);
        proof {
            assert forall|i: int| 0 <= i < pal_i32@.len() implies #[trigger] pal_i32@[i][0]
                == colors@[i][0] && pal_i32@[i][1] == colors@[i][1] && pal_i32@[i][2]
                == colors@[i][2] && pal_i32@[i][3] == colors@[i][3] by {
                if i < ci {
                    assert(pal_i32@[i] == pal0[i] && colors@[i] == cols0[i]);
                } else {
                    assert(pal_i32@[i] == e && colors@[i] == col);
                }
            }
        }
        ci += 1;
    }
    // Map every input point to its nearest palette entry.
    let mut assignment: Vec<u8> = Vec::new();
    let mut pi: usize = 0;
    while pi < points_in.len()
        invariant
            pi <= points_in@.len(),
            histogram_valid(points_in@),
            1 <= colors@.len() <= 256,
            entries_match(pal_i32@, colors@),
            assignment@.len() == pi,
            forall|i: int|
                0 <= i < pi ==> #[trigger] assignment@[i] as int == nearest_color(
                    colors@,
                    points_in@[i].c,
                    colors@.len() as int,
                ),
        decreases points_in@.len() - pi,
    {
        proof {
            assert(rgba_channels(points_in@[pi as int].c));
        }
        let bi = nearest_palette_entry(&pal_i32, Ghost(colors@), points_in[pi].c);
        assignment.push(bi as u8);
        pi += 1;
    }
    proof {
        let cs = kmeans_centers(points_in@, k as int, iters as int);
        assert forall|i: int| 0 <= i < colors@.len() implies #[trigger] colors@[i]
            == kmeans_palette(points_in@, k as int, iters as int)[i] by {
            assert(rounds_to(colors@[i], cs[i]));
            assert(colors@[i] =~= kmeans_palette(points_in@, k as int, iters as int)[i]);
        }
        assert(colors@ =~= kmeans_palette(points_in@, k as int, iters as int));
    }
    KmPalette { colors, assignment }
}

// ---------------------------------------------------------------------------
// Few colours are reproduced exactly.
// ---------------------------------------------------------------------------

/// Every point carries positive weight.
pub open spec fn all_weighted(s: Seq<WPoint>) -> bool {
    forall|i: int| 0 <= i < s.len() ==> (#[trigger] s[i]).w > 0
}

/// The palette entry `e` is exactly the colour `c`.
pub open spec fn entry_is(e: [u8; 4], c: [i32; 4]) -> bool {
    e[0] == c[0] && e[1] == c[1] && e[2] == c[2] && e[3] == c[3]
}

/// `c` sits exactly on one of the points.
pub open spec fn is_point_center(pts: Seq<WPoint>, c: FxColor) -> bool {
    exists|m: int| 0 <= m < pts.len() && c == point_center((#[trigger] pts[m]).c)
}

/// Some centre sits exactly on the colour `col`.
pub open spec fn has_center(cs: Seq<FxColor>, col: [i32; 4]) -> bool {
    exists|j: int| 0 <= j < cs.len() && #[trigger] cs[j] == point_center(col)
}

/// Every centre sits on a point, and every point has a centre on it.
pub open spec fn covers(pts: Seq<WPoint>, cs: Seq<FxColor>) -> bool {
    &&& forall|j: int| 0 <= j < cs.len() ==> is_point_center(pts, #[trigger] cs[j])
    &&& forall|i: int| 0 <= i < pts.len() ==> has_center(cs, (#[trigger] pts[i]).c)
}

proof fn lemma_sq_zero(x: int)
    ensures
        sq(x) >= 0,
        sq(x) == 0 ==> x == 0,
{
    assert(x * x >= 0) by (nonlinear_arith);
    assert(x * x == 0 ==> x == 0) by (nonlinear_arith);
}

/// A colour's own centre is at distance zero from it, and no other centre is.
proof fn lemma_point_center_dist(c: FxColor, p: [i32; 4])
    requires
        rgba_channels(p),
    ensures
        center_dist(point_center(p), p) == 0,
        center_dist(c, p) >= 0,
        center_dist(c, p) == 0 ==> c == point_center(p),
{
    let f = FX as int;
    lemma_sq_zero(c.0 - p[0] * f);
    lemma_sq_zero(c.1 - p[1] * f);
    lemma_sq_zero(c.2 - p[2] * f);
    lemma_sq_zero(c.3 - p[3] * f);
    assert(sq(0) == 0);
}

/// Distinct colours have distinct centres.
proof fn lemma_point_center_injective(a: [i32; 4], b: [i32; 4])
    requires
        rgba_channels(a),
        rgba_channels(b),
        point_center(a) == point_center(b),
    ensures
        same_color(a, b),
{
}

/// The fixed-point mean of `w` copies of `v` is exactly `v`.
proof fn lemma_fx_mean_exact(v: int, w: int)
    requires
        0 <= v <= 255,
        w > 0,
    ensures
        fx_mean(v * w, w) == v * FX,
{
    let f = FX as int;
    assert((v * w) * f == w * (v * f)) by (nonlinear_arith);
    vstd::arithmetic::div_mod::lemma_div_multiples_vanish(v * f, w);
}

/// Rounding the centre of a whole value gives the value back.
proof fn lemma_round_fx_exact(v: int)
    requires
        0 <= v <= 255,
    ensures
        round_fx(v * FX) == v,
{
    let f = FX as int;
    vstd::arithmetic::div_mod::lemma_fundamental_div_mod_converse(v * f + f / 2, f, v, f / 2);
}

proof fn lemma_nearest_center_closest(cs: Seq<FxColor>, p: [i32; 4], n: int)
    requires
        1 <= n,
    ensures
        0 <= nearest_center(cs, p, n) < n,
        forall|j: int|
            0 <= j < n ==> center_dist(cs[nearest_center(cs, p, n)], p) <= center_dist(
                #[trigger] cs[j],
                p,
            ),
    decreases n,
{
    if n > 1 {
        lemma_nearest_center_closest(cs, p, n - 1);
    }
}

/// When the centres cover the points, every point is assigned a centre
/// sitting exactly on it.
proof fn lemma_assign_exact(pts: Seq<WPoint>, cs: Seq<FxColor>, i: int)
    requires
        covers(pts, cs),
        all_rgba(pts),
        0 <= i < pts.len(),
    ensures
        0 <= nearest_center(cs, pts[i].c, cs.len() as int) < cs.len(),
        cs[nearest_center(cs, pts[i].c, cs.len() as int)] == point_center(pts[i].c),
{
    let c = pts[i].c;
    assert(has_center(cs, pts[i].c));
    let j = choose|j: int| 0 <= j < cs.len() && #[trigger] cs[j] == point_center(c);
    lemma_nearest_center_closest(cs, c, cs.len() as int);
    let r = nearest_center(cs, c, cs.len() as int);
    assert(rgba_channels(pts[i].c));
    lemma_point_center_dist(cs[j], c);
    lemma_point_center_dist(cs[r], c);
}

proof fn lemma_cluster_w_facts(pts: Seq<WPoint>, asg: Seq<int>, ci: int, n: int)
    requires
        all_weighted(pts),
        0 <= n <= pts.len(),
    ensures
        cluster_w(pts, asg, ci, n) >= 0,
        forall|i: int|
            0 <= i < n && #[trigger] asg[i] == ci ==> cluster_w(pts, asg, ci, n) >= pts[i].w > 0,
        cluster_w(pts, asg, ci, n) != 0 ==> exists|i: int| 0 <= i < n && #[trigger] asg[i] == ci,
    decreases n,
{
    if n > 0 {
        lemma_cluster_w_facts(pts, asg, ci, n - 1);
        assert(pts[n - 1].w > 0);
        if cluster_w(pts, asg, ci, n) != 0 && asg[n - 1] != ci {
            let i = choose|i: int| 0 <= i < n - 1 && #[trigger] asg[i] == ci;
            assert(0 <= i < n && asg[i] == ci);
        }
    }
}

/// A cluster whose points all share channel value `v` has channel sum `v`
/// times its weight.
proof fn lemma_cluster_uniform(pts: Seq<WPoint>, asg: Seq<int>, ci: int, ch: int, v: int, n: int)
    requires
        0 <= n <= pts.len(),
        forall|i: int| 0 <= i < n && #[trigger] asg[i] == ci ==> pts[i].c[ch] == v,
    ensures
        cluster_c(pts, asg, ci, ch, n) == v * cluster_w(pts, asg, ci, n),
    decreases n,
{
    if n > 0 {
        lemma_cluster_uniform(pts, asg, ci, ch, v, n - 1);
        let w0 = cluster_w(pts, asg, ci, n - 1);
        let w = pts[n - 1].w as int;
        if asg[n - 1] == ci {
            assert(pts[n - 1].c[ch] == v);
            assert(v * w0 + v * w == v * (w0 + w)) by (nonlinear_arith);
        }
    }
}

proof fn lemma_farthest_range(pts: Seq<WPoint>, asg: Seq<int>, cs: Seq<FxColor>, n: int)
    requires
        1 <= n,
    ensures
        0 <= farthest(pts, asg, cs, n) < n,
    decreases n,
{
    if n > 1 {
        lemma_farthest_range(pts, asg, cs, n - 1);
    }
}

/// Updating centres that sit on the points of their clusters leaves every
/// such centre in place and reseeds empty clusters onto points.
proof fn lemma_update_exact(
    pts: Seq<WPoint>,
    asg: Seq<int>,
    cs0: Seq<FxColor>,
    cs: Seq<FxColor>,
    ci: int,
)
    requires
        all_rgba(pts),
        all_weighted(pts),
        pts.len() >= 1,
        asg.len() == pts.len(),
        forall|i: int|
            0 <= i < pts.len() ==> 0 <= #[trigger] asg[i] < cs0.len() && cs0[asg[i]]
                == point_center(pts[i].c),
        cs.len() == cs0.len(),
        0 <= ci <= cs.len(),
        forall|j: int| ci <= j < cs.len() ==> #[trigger] cs[j] == cs0[j],
        forall|j: int| 0 <= j < cs.len() ==> is_point_center(pts, #[trigger] cs[j]),
        forall|i: int| 0 <= i < pts.len() ==> cs[#[trigger] asg[i]] == point_center(pts[i].c),
    ensures
        covers(pts, update_from(pts, asg, cs, ci)),
        update_from(pts, asg, cs, ci).len() == cs.len(),
    decreases cs.len() - ci,
{
    let n = pts.len() as int;
    if ci < cs.len() {
        lemma_cluster_w_facts(pts, asg, ci, n);
        if cluster_w(pts, asg, ci, n) == 0 {
            lemma_farthest_range(pts, asg, cs, n);
            let f = farthest(pts, asg, cs, n);
            let cs2 = cs.update(ci, point_center(pts[f].c));
            assert forall|i: int| 0 <= i < n implies cs2[#[trigger] asg[i]] == point_center(
                pts[i].c,
            ) by {
                if asg[i] == ci {
                    assert(pts[i].w > 0);
                }
            }
            assert forall|j: int| 0 <= j < cs2.len() implies is_point_center(
                pts,
                #[trigger] cs2[j],
            ) by {
                if j == ci {
                    assert(cs2[j] == point_center(pts[f].c));
                } else {
                    assert(is_point_center(pts, cs[j]));
                }
            }
            lemma_update_exact(pts, asg, cs0, cs2, ci + 1);
        } else {
            let i0 = choose|i: int| 0 <= i < n && #[trigger] asg[i] == ci;
            let col = pts[i0].c;
            assert(rgba_channels(col));
            assert forall|i: int| 0 <= i < n && #[trigger] asg[i] == ci implies same_color(
                pts[i].c,
                col,
            ) by {
                assert(rgba_channels(pts[i].c));
                lemma_point_center_injective(pts[i].c, col);
            }
            let w = cluster_w(pts, asg, ci, n);
            lemma_cluster_uniform(pts, asg, ci, 0, col[0] as int, n);
            lemma_cluster_uniform(pts, asg, ci, 1, col[1] as int, n);
            lemma_cluster_uniform(pts, asg, ci, 2, col[2] as int, n);
            lemma_cluster_uniform(pts, asg, ci, 3, col[3] as int, n);
            lemma_fx_mean_exact(col[0] as int, w);
            lemma_fx_mean_exact(col[1] as int, w);
            lemma_fx_mean_exact(col[2] as int, w);
            lemma_fx_mean_exact(col[3] as int, w);
            assert(cluster_center(pts, asg, ci) == point_center(col));
            assert(cs[ci] == cs0[ci]);
            assert(cs.update(ci, cluster_center(pts, asg, ci)) =~= cs);
            lemma_update_exact(pts, asg, cs0, cs, ci + 1);
        }
    } else {
        assert forall|i: int| 0 <= i < n implies has_center(cs, (#[trigger] pts[i]).c) by {
            assert(cs[asg[i]] == point_center(pts[i].c));
        }
    }
}

/// A k-means round keeps centres that cover the points covering them.
proof fn lemma_km_round_exact(pts: Seq<WPoint>, cs: Seq<FxColor>)
    requires
        all_rgba(pts),
        all_weighted(pts),
        pts.len() >= 1,
        covers(pts, cs),
    ensures
        covers(pts, km_round(pts, cs)),
        km_round(pts, cs).len() == cs.len(),
{
    let asg = assign_all(pts, cs);
    assert forall|i: int| 0 <= i < pts.len() implies 0 <= #[trigger] asg[i] < cs.len() && cs[asg[i]]
        == point_center(pts[i].c) by {
        lemma_assign_exact(pts, cs, i);
    }
    lemma_update_exact(pts, asg, cs, cs, 0);
}

proof fn lemma_rounds_exact(pts: Seq<WPoint>, cs: Seq<FxColor>, r: nat)
    requires
        all_rgba(pts),
        all_weighted(pts),
        pts.len() >= 1,
        covers(pts, cs),
    ensures
        covers(pts, km_rounds(pts, cs, r)),
    decreases r,
{
    if r > 0 {
        lemma_rounds_exact(pts, cs, (r - 1) as nat);
        lemma_km_round_exact(pts, km_rounds(pts, cs, (r - 1) as nat));
    }
}

/// Total number of points the boxes hold.
pub open spec fn box_sizes(boxes: Seq<CutBox>) -> int
    decreases boxes.len(),
{
    if boxes.len() == 0 {
        0
    } else {
        box_sizes(boxes.drop_last()) + (boxes.last().hi - boxes.last().lo)
    }
}

/// Point `i` lies in one of the boxes.
pub open spec fn in_box(boxes: Seq<CutBox>, i: int) -> bool {
    exists|a: int| 0 <= a < boxes.len() && (#[trigger] boxes[a]).lo <= i < boxes[a].hi
}

proof fn lemma_box_sizes_update(boxes: Seq<CutBox>, a: int, b: CutBox)
    requires
        0 <= a < boxes.len(),
    ensures
        box_sizes(boxes.update(a, b)) == box_sizes(boxes) - (boxes[a].hi - boxes[a].lo) + (b.hi
            - b.lo),
    decreases boxes.len(),
{
    if a < boxes.len() - 1 {
        assert(boxes.update(a, b).drop_last() =~= boxes.drop_last().update(a, b));
        lemma_box_sizes_update(boxes.drop_last(), a, b);
    } else {
        assert(boxes.update(a, b).drop_last() =~= boxes.drop_last());
    }
}

/// Non-empty boxes hold at least one point each, and more when one of them
/// holds two.
proof fn lemma_box_sizes_bound(boxes: Seq<CutBox>)
    requires
        forall|a: int| 0 <= a < boxes.len() ==> (#[trigger] boxes[a]).lo < boxes[a].hi,
    ensures
        box_sizes(boxes) >= boxes.len(),
        (exists|a: int| 0 <= a < boxes.len() && (#[trigger] boxes[a]).hi - boxes[a].lo >= 2)
            ==> box_sizes(boxes) >= boxes.len() + 1,
    decreases boxes.len(),
{
    if boxes.len() > 0 {
        let d = boxes.drop_last();
        assert forall|a: int| 0 <= a < d.len() implies (#[trigger] d[a]).lo < d[a].hi by {
            assert(d[a] == boxes[a]);
        }
        lemma_box_sizes_bound(d);
        if exists|a: int| 0 <= a < boxes.len() && (#[trigger] boxes[a]).hi - boxes[a].lo >= 2 {
            let a = choose|a: int| 0 <= a < boxes.len() && (#[trigger] boxes[a]).hi - boxes[a].lo >= 2;
            if a < d.len() {
                assert(d[a] == boxes[a]);
            }
        }
    }
}

/// With no splittable box left, every box holds a single point.
proof fn lemma_heaviest_none(boxes: Seq<CutBox>, n: int)
    requires
        0 <= n <= boxes.len(),
        heaviest(boxes, n) < 0,
    ensures
        forall|a: int| 0 <= a < n ==> (#[trigger] boxes[a]).hi - boxes[a].lo < 2,
    decreases n,
{
    if n > 0 {
        lemma_heaviest_none(boxes, n - 1);
    }
}

/// Boxes of one point each hold as many points as there are boxes.
proof fn lemma_box_sizes_ones(boxes: Seq<CutBox>)
    requires
        forall|a: int| 0 <= a < boxes.len() ==> (#[trigger] boxes[a]).hi - boxes[a].lo == 1,
    ensures
        box_sizes(boxes) == boxes.len(),
    decreases boxes.len(),
{
    if boxes.len() > 0 {
        let d = boxes.drop_last();
        assert forall|a: int| 0 <= a < d.len() implies (#[trigger] d[a]).hi - d[a].lo == 1 by {
            assert(d[a] == boxes[a]);
        }
        lemma_box_sizes_ones(d);
    }
}

/// What the chosen box of a median-cut step is split into, when it is split.
proof fn lemma_mc_split(pts: Seq<WPoint>, boxes: Seq<CutBox>)
    requires
        points_ok(pts),
        boxes_tile(pts, boxes),
        heaviest(boxes, boxes.len() as int) >= 0,
        !flat_seg(
            pts.subrange(
                boxes[heaviest(boxes, boxes.len() as int)].lo as int,
                boxes[heaviest(boxes, boxes.len() as int)].hi as int,
            ),
        ),
    ensures
        points_ok(mc_step(pts, boxes).0),
        mc_step(pts, boxes).0.len() == pts.len(),
        mc_step(pts, boxes).0.to_multiset() == pts.to_multiset(),
        boxes_tile(mc_step(pts, boxes).0, mc_step(pts, boxes).1),
        mc_step(pts, boxes).1.len() == boxes.len() + 1,
        box_sizes(mc_step(pts, boxes).1) == box_sizes(boxes),
        (forall|i: int| 0 <= i < pts.len() ==> in_box(boxes, i)) ==> forall|i: int|
            0 <= i < pts.len() ==> in_box(mc_step(pts, boxes).1, i),
{
    broadcast use vstd::seq_lib::group_to_multiset_ensures;

    let nb = boxes.len() as int;
    lemma_heaviest_props(boxes, nb);
    let bi = heaviest(boxes, nb);
    let b = boxes[bi];
    let lo = b.lo as int;
    let hi = b.hi as int;
    let seg = pts.subrange(lo, hi);
    let ch = widest(seg);
    assert(b.weight == sum_w(seg));
    assert forall|i: int| 0 <= i < seg.len() implies 0 <= #[trigger] seg[i].c[ch] < 256 by {
        assert(seg[i] == pts[lo + i]);
        assert(rgba_channels(pts[lo + i].c));
    }
    lemma_buckets_multiset(seg, ch);
    let sorted = sort_by_chan(seg, ch);
    assert(sorted.len() == seg.len()) by {
        assert(sorted.len() == sorted.to_multiset().len());
        assert(seg.len() == seg.to_multiset().len());
    }
    let cut = cut_index(sorted, (b.weight / 2) as int);
    let left_w = sum_w(sorted.take(cut));
    let mid = (b.lo + cut) as usize;
    let lb = CutBox { lo: b.lo, hi: mid, weight: left_w as u64 };
    let rb = CutBox { lo: mid, hi: b.hi, weight: (b.weight - left_w) as u64 };
    let p2 = pts.take(lo) + sorted + pts.skip(hi);
    let b2 = boxes.update(bi, lb).push(rb);
    assert(mc_step(pts, boxes) == (p2, b2));
    lemma_split_step(pts, boxes, bi, ch, cut, p2, b2);
    lemma_box_sizes_update(boxes, bi, lb);
    assert(b2.drop_last() =~= boxes.update(bi, lb));
    if forall|i: int| 0 <= i < pts.len() ==> in_box(boxes, i) {
        assert forall|i: int| 0 <= i < p2.len() implies in_box(b2, i) by {
            assert(in_box(boxes, i));
            let a = choose|a: int| 0 <= a < nb && (#[trigger] boxes[a]).lo <= i < boxes[a].hi;
            if a != bi {
                assert(b2[a] == boxes[a]);
            } else if i < mid {
                assert(b2[bi] == lb);
            } else {
                assert(b2[nb] == rb);
            }
        }
    }
}

/// The median cut reorders the points and leaves boxes that tile them.
proof fn lemma_mc_run_inv(pts: Seq<WPoint>, boxes: Seq<CutBox>, k: int, fuel: nat)
    requires
        points_ok(pts),
        boxes_tile(pts, boxes),
        forall|i: int| 0 <= i < pts.len() ==> in_box(boxes, i),
    ensures
        points_ok(mc_run(pts, boxes, k, fuel).0),
        mc_run(pts, boxes, k, fuel).0.len() == pts.len(),
        mc_run(pts, boxes, k, fuel).0.to_multiset() == pts.to_multiset(),
        boxes_partition(mc_run(pts, boxes, k, fuel).0, mc_run(pts, boxes, k, fuel).1),
    decreases fuel,
{
    let nb = boxes.len() as int;
    if !(fuel == 0 || boxes.len() >= k || heaviest(boxes, nb) < 0) {
        lemma_heaviest_props(boxes, nb);
        let bi = heaviest(boxes, nb);
        let b = boxes[bi];
        let seg = pts.subrange(b.lo as int, b.hi as int);
        if flat_seg(seg) {
            let b2 = boxes.update(bi, CutBox { lo: b.lo, hi: b.hi, weight: 0 });
            assert(mc_step(pts, boxes) == (pts, b2));
            assert forall|i: int| 0 <= i < pts.len() implies in_box(b2, i) by {
                assert(in_box(boxes, i));
                let a = choose|a: int| 0 <= a < nb && (#[trigger] boxes[a]).lo <= i < boxes[a].hi;
                assert(b2[a].lo == boxes[a].lo && b2[a].hi == boxes[a].hi);
            }
            assert forall|a: int| 0 <= a < b2.len() implies (#[trigger] b2[a]).lo < b2[a].hi
                <= pts.len() by {
                assert(b2[a].lo == boxes[a].lo && b2[a].hi == boxes[a].hi);
            }
            lemma_mc_run_inv(pts, b2, k, (fuel - 1) as nat);
        } else {
            lemma_mc_split(pts, boxes);
            let r = mc_step(pts, boxes);
            lemma_mc_run_inv(r.0, r.1, k, (fuel - 1) as nat);
        }
    }
}

/// On distinct colours the median cut ends with `min(k, n)` boxes, one point
/// per box when there are at most `k` points.
proof fn lemma_mc_run_count(pts: Seq<WPoint>, boxes: Seq<CutBox>, k: int, fuel: nat)
    requires
        histogram_valid(pts),
        boxes_tile(pts, boxes),
        box_sizes(boxes) == pts.len(),
        forall|i: int| 0 <= i < pts.len() ==> in_box(boxes, i),
        1 <= boxes.len() <= k,
        fuel + boxes.len() >= k + 1,
    ensures
        mc_run(pts, boxes, k, fuel).1.len() == if k <= pts.len() {
            k
        } else {
            pts.len() as int
        },
        pts.len() <= k ==> forall|a: int|
            0 <= a < mc_run(pts, boxes, k, fuel).1.len() ==> (#[trigger] mc_run(
                pts,
                boxes,
                k,
                fuel,
            ).1[a]).hi - mc_run(pts, boxes, k, fuel).1[a].lo == 1,
    decreases fuel,
{
    let nb = boxes.len() as int;
    lemma_box_sizes_bound(boxes);
    if fuel == 0 || boxes.len() >= k || heaviest(boxes, nb) < 0 {
        if heaviest(boxes, nb) < 0 {
            lemma_heaviest_none(boxes, nb);
            assert forall|a: int| 0 <= a < nb implies (#[trigger] boxes[a]).hi - boxes[a].lo
                == 1 by {
                assert(boxes[a].lo < boxes[a].hi);
            }
            lemma_box_sizes_ones(boxes);
        } else {
            assert(nb == k);
            assert forall|a: int| pts.len() <= k && 0 <= a < nb implies (#[trigger] boxes[a]).hi
                - boxes[a].lo == 1 by {
                assert(boxes[a].lo < boxes[a].hi);
                if boxes[a].hi - boxes[a].lo >= 2 {
                    assert(exists|c: int| 0 <= c < nb && (#[trigger] boxes[c]).hi - boxes[c].lo >= 2);
                }
            }
        }
    } else {
        lemma_heaviest_props(boxes, nb);
        let bi = heaviest(boxes, nb);
        let b = boxes[bi];
        let seg = pts.subrange(b.lo as int, b.hi as int);
        assert forall|i: int| 0 <= i < seg.len() implies rgba_channels(#[trigger] seg[i].c) by {
            assert(seg[i] == pts[b.lo + i]);
        }
        assert forall|i: int, j: int|
            0 <= i < seg.len() && 0 <= j < seg.len() && i != j implies !same_color(
            #[trigger] seg[i].c,
            #[trigger] seg[j].c,
        ) by {
            assert(seg[i] == pts[b.lo + i]);
            assert(seg[j] == pts[b.lo + j]);
        }
        lemma_flat_impossible(seg);
        lemma_mc_split(pts, boxes);
        let r = mc_step(pts, boxes);
        lemma_valid_multiset(pts, r.0);
        lemma_mc_run_count(r.0, r.1, k, (fuel - 1) as nat);
    }
}

/// The centre of a box holding one weighted point is that point's colour.
proof fn lemma_box_center_single(q: WPoint)
    requires
        rgba_channels(q.c),
        q.w > 0,
    ensures
        box_center(seq![q]) == point_center(q.c),
{
    let s = seq![q];
    assert(s.drop_last() =~= Seq::<WPoint>::empty());
    assert(sum_w(Seq::<WPoint>::empty()) == 0);
    assert(sum_c(Seq::<WPoint>::empty(), 0) == 0);
    assert(sum_c(Seq::<WPoint>::empty(), 1) == 0);
    assert(sum_c(Seq::<WPoint>::empty(), 2) == 0);
    assert(sum_c(Seq::<WPoint>::empty(), 3) == 0);
    assert(s.last() == q);
    assert(sum_w(s) == q.w);
    assert(sum_c(s, 0) == q.c[0] * q.w);
    assert(sum_c(s, 1) == q.c[1] * q.w);
    assert(sum_c(s, 2) == q.c[2] * q.w);
    assert(sum_c(s, 3) == q.c[3] * q.w);
    lemma_fx_mean_exact(q.c[0] as int, q.w as int);
    lemma_fx_mean_exact(q.c[1] as int, q.w as int);
    lemma_fx_mean_exact(q.c[2] as int, q.w as int);
    lemma_fx_mean_exact(q.c[3] as int, q.w as int);
}

/// Boxes of one point each give centres on exactly those points.
proof fn lemma_cut_centers_exact(p: Seq<WPoint>, b: Seq<CutBox>, m: int)
    requires
        all_rgba(p),
        all_weighted(p),
        boxes_tile(p, b),
        forall|a: int| 0 <= a < b.len() ==> (#[trigger] b[a]).hi - b[a].lo == 1,
        0 <= m <= b.len(),
    ensures
        forall|j: int|
            0 <= j < cut_centers(p, b, m).len() ==> is_point_center(
                p,
                #[trigger] cut_centers(p, b, m)[j],
            ),
        forall|a: int|
            0 <= a < m ==> has_center(cut_centers(p, b, m), p[(#[trigger] b[a]).lo as int].c),
    decreases m,
{
    if m > 0 {
        lemma_cut_centers_exact(p, b, m - 1);
        let rest = cut_centers(p, b, m - 1);
        let bx = b[m - 1];
        let lo = bx.lo as int;
        assert(bx.hi - bx.lo == 1);
        assert(p.subrange(lo, lo + 1) =~= seq![p[lo]]);
        lemma_box_center_single(p[lo]);
        let cs = cut_centers(p, b, m);
        assert(cs == rest.push(point_center(p[lo].c)));
        assert forall|j: int| 0 <= j < cs.len() implies is_point_center(p, #[trigger] cs[j]) by {
            if j < rest.len() {
                assert(cs[j] == rest[j]);
            } else {
                assert(cs[j] == point_center(p[lo].c));
            }
        }
        assert forall|a: int| 0 <= a < m implies has_center(cs, p[(#[trigger] b[a]).lo as int].c) by {
            if a < m - 1 {
                assert(has_center(rest, p[b[a].lo as int].c));
                let j = choose|j: int|
                    0 <= j < rest.len() && #[trigger] rest[j] == point_center(p[b[a].lo as int].c);
                assert(cs[j] == rest[j]);
            } else {
                assert(cs[rest.len() as int] == point_center(p[lo].c));
            }
        }
    }
}

/// The median cut of at most `k` colours puts a centre on every point.
proof fn lemma_median_cut_exact(pts: Seq<WPoint>, k: int)
    requires
        histogram_valid(pts),
        all_weighted(pts),
        1 <= pts.len() <= k <= 256,
    ensures
        histogram_valid(median_cut_spec(pts, k).0),
        all_weighted(median_cut_spec(pts, k).0),
        median_cut_spec(pts, k).0.len() >= 1,
        median_cut_spec(pts, k).0.to_multiset() == pts.to_multiset(),
        covers(median_cut_spec(pts, k).0, median_cut_spec(pts, k).1),
{
    let n = pts.len() as int;
    let wb = whole_box(pts);
    let boxes = seq![wb];
    assert(pts.subrange(0, n) =~= pts);
    lemma_sum_w_nonneg(pts);
    assert(boxes[0] == wb);
    assert(boxes_tile(pts, boxes));
    assert(box_sizes(boxes) == n) by {
        assert(boxes.drop_last() =~= Seq::<CutBox>::empty());
        assert(box_sizes(Seq::<CutBox>::empty()) == 0);
    }
    assert forall|i: int| 0 <= i < n implies in_box(boxes, i) by {
        assert(boxes[0] == wb);
    }
    lemma_mc_run_inv(pts, boxes, k, k as nat);
    lemma_mc_run_count(pts, boxes, k, k as nat);
    let r = mc_run(pts, boxes, k, k as nat);
    let p = r.0;
    let b = r.1;
    lemma_valid_multiset(pts, p);
    assert forall|i: int| 0 <= i < p.len() implies (#[trigger] p[i]).w > 0 by {
        broadcast use vstd::seq_lib::group_to_multiset_ensures;

        assert(p.to_multiset().count(p[i]) > 0);
        assert(pts.contains(p[i]));
    }
    lemma_cut_centers_exact(p, b, b.len() as int);
    let cs = cut_centers(p, b, b.len() as int);
    assert forall|i: int| 0 <= i < p.len() implies has_center(cs, (#[trigger] p[i]).c) by {
        assert(in_box(b, i));
        let a = choose|a: int| 0 <= a < b.len() && (#[trigger] b[a]).lo <= i < b[a].hi;
        assert(b[a].hi - b[a].lo == 1);
        assert(has_center(cs, p[b[a].lo as int].c));
    }
    assert(median_cut_spec(pts, k) == (p, cs));
}

/// A palette rounded from centres that include one on `c` maps `c` to itself.
proof fn lemma_palette_entry_exact(fin: Seq<FxColor>, pal: Seq<[u8; 4]>, c: [i32; 4])
    requires
        rgba_channels(c),
        has_center(fin, c),
        pal == fin.map_values(
            |f: FxColor|
                [
                    round_fx(f.0 as int) as u8,
                    round_fx(f.1 as int) as u8,
                    round_fx(f.2 as int) as u8,
                    round_fx(f.3 as int) as u8,
                ],
        ),
    ensures
        entry_is(pal[nearest_color(pal, c, pal.len() as int)], c),
{
    let j = choose|j: int| 0 <= j < fin.len() && #[trigger] fin[j] == point_center(c);
    lemma_round_fx_exact(c[0] as int);
    lemma_round_fx_exact(c[1] as int);
    lemma_round_fx_exact(c[2] as int);
    lemma_round_fx_exact(c[3] as int);
    assert(entry_is(pal[j], c));
    assert(dist2_color(c, pal[j]) == 0) by {
        assert(sq(0) == 0);
    }
    lemma_nearest_color_closest(pal, c, pal.len() as int);
    lemma_nearest_color_range(pal, c, pal.len() as int);
    let e = pal[nearest_color(pal, c, pal.len() as int)];
    lemma_sq_zero(c[0] - e[0]);
    lemma_sq_zero(c[1] - e[1]);
    lemma_sq_zero(c[2] - e[2]);
    lemma_sq_zero(c[3] - e[3]);
}

/// When a histogram holds at most `k` colours, all of positive weight, the
/// palette reproduces them exactly: the palette entry nearest to each colour
/// is that very colour.
pub proof fn lemma_few_colors_exact(pts: Seq<WPoint>, k: int, iters: int)
    requires
        histogram_valid(pts),
        all_weighted(pts),
        1 <= pts.len() <= k <= 256,
    ensures
        forall|i: int|
            0 <= i < pts.len() ==> entry_is(
                kmeans_palette(pts, k, iters)[nearest_color(
                    kmeans_palette(pts, k, iters),
                    (#[trigger] pts[i]).c,
                    kmeans_palette(pts, k, iters).len() as int,
                )],
                pts[i].c,
            ),
{
    broadcast use vstd::seq_lib::group_to_multiset_ensures;

    lemma_median_cut_exact(pts, k);
    let p = median_cut_spec(pts, k).0;
    let cs = median_cut_spec(pts, k).1;
    let rounds: nat = if iters <= 0 {
        1nat
    } else {
        iters as nat
    };
    lemma_rounds_exact(p, cs, rounds);
    let fin = km_rounds(p, cs, rounds);
    assert(kmeans_centers(pts, k, iters) == fin);
    let pal = kmeans_palette(pts, k, iters);
    assert forall|i: int| 0 <= i < pts.len() implies entry_is(
        pal[nearest_color(pal, (#[trigger] pts[i]).c, pal.len() as int)],
        pts[i].c,
    ) by {
        assert(pts.to_multiset().count(pts[i]) > 0);
        assert(p.contains(pts[i]));
        let m = choose|m: int| 0 <= m < p.len() && p[m] == pts[i];
        assert(has_center(fin, p[m].c));
        lemma_palette_entry_exact(fin, pal, pts[i].c);
    }
}

/// Zero iterations still run one assign-and-update round: the palette for
/// `iters == 0` is the palette for `iters == 1`.
pub proof fn lemma_zero_iters_one_round(pts: Seq<WPoint>, k: int)
    ensures
        kmeans_palette(pts, k, 0) == kmeans_palette(pts, k, 1),
{
    assert(kmeans_centers(pts, k, 0) == kmeans_centers(pts, k, 1));
}

/// A median-cut step splits along a channel of greatest spread: no channel
/// of the box spreads wider than the chosen one.
pub proof fn lemma_widest_is_widest(s: Seq<WPoint>)
    ensures
        0 <= widest(s) < 4,
        forall|c: int|
            0 <= c < 4 ==> chan_max(s, widest(s)) - chan_min(s, widest(s)) >= #[trigger] chan_max(
                s,
                c,
            ) - chan_min(s, c),
{
}

/// The points whose nearest centre is `ci`.
pub open spec fn cluster_of(pts: Seq<WPoint>, cs: Seq<FxColor>, ci: int) -> Seq<WPoint> {
    pts.filter(|p: WPoint| nearest_center(cs, p.c, cs.len() as int) == ci)
}

/// The weighted mean colour of some points, in fixed point rounded down.
pub open spec fn weighted_mean(s: Seq<WPoint>) -> FxColor {
    (
        (sum_c(s, 0) * (FX as int) / sum_w(s)) as u64,
        (sum_c(s, 1) * (FX as int) / sum_w(s)) as u64,
        (sum_c(s, 2) * (FX as int) / sum_w(s)) as u64,
        (sum_c(s, 3) * (FX as int) / sum_w(s)) as u64,
    )
}

/// The cluster sums of a round are the sums over the points nearest each centre.
proof fn lemma_cluster_sums(pts: Seq<WPoint>, cs: Seq<FxColor>, ci: int, n: int)
    requires
        0 <= n <= pts.len(),
    ensures
        cluster_w(pts, assign_all(pts, cs), ci, n) == sum_w(cluster_of(pts.take(n), cs, ci)),
        forall|ch: int|
            0 <= ch < 4 ==> #[trigger] cluster_c(pts, assign_all(pts, cs), ci, ch, n) == sum_c(
                cluster_of(pts.take(n), cs, ci),
                ch,
            ),
    decreases n,
{
    let pred = |p: WPoint| nearest_center(cs, p.c, cs.len() as int) == ci;
    let asg = assign_all(pts, cs);
    if n == 0 {
        assert(pts.take(0) =~= Seq::<WPoint>::empty());
        assert(cluster_of(pts.take(0), cs, ci) =~= Seq::<WPoint>::empty());
        assert forall|ch: int| 0 <= ch < 4 implies #[trigger] cluster_c(pts, asg, ci, ch, n)
            == sum_c(cluster_of(pts.take(n), cs, ci), ch) by {}
    } else {
        lemma_cluster_sums(pts, cs, ci, n - 1);
        let x = pts[n - 1];
        assert(asg[n - 1] == nearest_center(cs, x.c, cs.len() as int));
        assert(pts.take(n) =~= pts.take(n - 1).push(x));
        pts.take(n - 1).lemma_filter_push(x, pred);
        let f0 = cluster_of(pts.take(n - 1), cs, ci);
        if pred(x) {
            assert(cluster_of(pts.take(n), cs, ci) == f0.push(x));
            assert(f0.push(x).drop_last() =~= f0);
            assert forall|ch: int| 0 <= ch < 4 implies #[trigger] cluster_c(pts, asg, ci, ch, n)
                == sum_c(cluster_of(pts.take(n), cs, ci), ch) by {
                assert(cluster_c(pts, asg, ci, ch, n - 1) == sum_c(f0, ch));
            }
        } else {
            assert(cluster_of(pts.take(n), cs, ci) == f0);
            assert forall|ch: int| 0 <= ch < 4 implies #[trigger] cluster_c(pts, asg, ci, ch, n)
                == sum_c(cluster_of(pts.take(n), cs, ci), ch) by {
                assert(cluster_c(pts, asg, ci, ch, n - 1) == sum_c(f0, ch));
            }
        }
    }
}

proof fn lemma_update_keeps(pts: Seq<WPoint>, asg: Seq<int>, cs: Seq<FxColor>, j: int, ci: int)
    requires
        0 <= ci < j,
        ci < cs.len(),
    ensures
        update_from(pts, asg, cs, j)[ci] == cs[ci],
    decreases cs.len() - j,
{
    if j < cs.len() {
        let nc = if cluster_w(pts, asg, j, pts.len() as int) == 0 {
            point_center(pts[farthest(pts, asg, cs, pts.len() as int)].c)
        } else {
            cluster_center(pts, asg, j)
        };
        lemma_update_keeps(pts, asg, cs.update(j, nc), j + 1, ci);
    }
}

proof fn lemma_update_sets(pts: Seq<WPoint>, asg: Seq<int>, cs: Seq<FxColor>, j: int, ci: int)
    requires
        0 <= j <= ci < cs.len(),
        cluster_w(pts, asg, ci, pts.len() as int) != 0,
    ensures
        update_from(pts, asg, cs, j)[ci] == cluster_center(pts, asg, ci),
    decreases cs.len() - j,
{
    let nc = if cluster_w(pts, asg, j, pts.len() as int) == 0 {
        point_center(pts[farthest(pts, asg, cs, pts.len() as int)].c)
    } else {
        cluster_center(pts, asg, j)
    };
    if j == ci {
        lemma_update_keeps(pts, asg, cs.update(j, nc), j + 1, ci);
    } else {
        lemma_update_sets(pts, asg, cs.update(j, nc), j + 1, ci);
    }
}

/// A k-means round moves every centre whose cluster (the points nearest to
/// it) carries weight to that cluster's weighted mean.
pub proof fn lemma_round_moves_to_mean(pts: Seq<WPoint>, cs: Seq<FxColor>, ci: int)
    requires
        0 <= ci < cs.len(),
        sum_w(cluster_of(pts, cs, ci)) > 0,
    ensures
        km_round(pts, cs)[ci] == weighted_mean(cluster_of(pts, cs, ci)),
{
    let n = pts.len() as int;
    lemma_cluster_sums(pts, cs, ci, n);
    assert(pts.take(n) =~= pts);
    let asg = assign_all(pts, cs);
    lemma_update_sets(pts, asg, cs, 0, ci);
    let cl = cluster_of(pts, cs, ci);
    assert(cluster_c(pts, asg, ci, 0, n) == sum_c(cl, 0));
    assert(cluster_c(pts, asg, ci, 1, n) == sum_c(cl, 1));
    assert(cluster_c(pts, asg, ci, 2, n) == sum_c(cl, 2));
    assert(cluster_c(pts, asg, ci, 3, n) == sum_c(cl, 3));
}

} // verus!
