//! Colour census of an RGBA frame: the distinct colours with their pixel
//! counts, in `(r, g, b, a)` order.

use vstd::prelude::*;

verus! {

/// The little-endian `u32` key of an RGBA pixel.
pub open spec fn le_key(b0: u8, b1: u8, b2: u8, b3: u8) -> u32 {
    (b0 as u32) | ((b1 as u32) << 8u32) | ((b2 as u32) << 16u32) | ((b3 as u32) << 24u32)
}

/// Keys of the whole pixels of an RGBA buffer (a trailing partial pixel is ignored).
pub open spec fn pixel_keys(pixels: Seq<u8>) -> Seq<u32> {
    Seq::new(
        pixels.len() / 4,
        |i: int| le_key(pixels[4 * i], pixels[4 * i + 1], pixels[4 * i + 2], pixels[4 * i + 3]),
    )
}

/// Position of a key in `(r, g, b, a)` lexicographic order: the key with its
/// bytes reversed.
pub open spec fn rgba_rank(k: u32) -> u32 {
    ((k & 0xff) << 24u32) | ((k & 0xff00) << 8u32) | ((k >> 8u32) & 0xff00) | (k >> 24u32)
}

/// `s` is ordered by `rgba_rank`.
pub open spec fn rank_sorted(s: Seq<u32>) -> bool {
    forall|i: int, j: int| 0 <= i <= j < s.len() ==> rgba_rank(#[trigger] s[i]) <= rgba_rank(
        #[trigger] s[j],
    )
}

/// `colors` lists each distinct key of `keys` exactly once, in `(r, g, b, a)`
/// order, with the number of times it occurs.
pub open spec fn is_census(colors: Seq<(u32, u32)>, keys: Seq<u32>) -> bool {
    &&& forall|i: int, j: int|
        0 <= i < j < colors.len() ==> rgba_rank((#[trigger] colors[i]).0) < rgba_rank(
            (#[trigger] colors[j]).0,
        )
    &&& forall|i: int|
        0 <= i < colors.len() ==> (#[trigger] colors[i]).1 == keys.to_multiset().count(colors[i].0)
    &&& forall|i: int| 0 <= i < colors.len() ==> keys.contains((#[trigger] colors[i]).0)
    &&& forall|j: int| 0 <= j < keys.len() ==> lists_key(colors, #[trigger] keys[j])
}

/// Some entry of `colors` has key `k`.
pub open spec fn lists_key(colors: Seq<(u32, u32)>, k: u32) -> bool {
    exists|i: int| 0 <= i < colors.len() && (#[trigger] colors[i]).0 == k
}

/// Distinct keys have distinct ranks.
pub proof fn lemma_rank_injective(x: u32, y: u32)
    ensures
        rgba_rank(x) == rgba_rank(y) ==> x == y,
{
    assert(rgba_rank(x) == rgba_rank(y) ==> x == y) by (bit_vector);
}

/// The key of the four bytes starting at `px[0]`.
pub fn key(px: &[u8]) -> (k: u32)
    requires
        px@.len() >= 4,
    ensures
        k == le_key(px@[0], px@[1], px@[2], px@[3]),
{
    (px[0] as u32) | ((px[1] as u32) << 8u32) | ((px[2] as u32) << 16u32) | ((px[3] as u32) << 24u32)
}

fn rank_of(k: u32) -> (r: u32)
    ensures
        r == rgba_rank(k),
{
    ((k & 0xff) << 24u32) | ((k & 0xff00) << 8u32) | ((k >> 8u32) & 0xff00) | (k >> 24u32)
}

/// Merges two rank-ordered sequences.
fn merge(a: &Vec<u32>, b: &Vec<u32>) -> (r: Vec<u32>)
    requires
        rank_sorted(a@),
        rank_sorted(b@),
    ensures
        rank_sorted(r@),
        r@.to_multiset() =~= a@.to_multiset().add(b@.to_multiset()),
{
    broadcast use vstd::seq_lib::group_to_multiset_ensures;
    broadcast use vstd::multiset::group_multiset_axioms;

    let mut r: Vec<u32> = Vec::new();
    let mut i: usize = 0;
    let mut j: usize = 0;
    while i < a.len() || j < b.len()
        invariant
            i <= a@.len(),
            j <= b@.len(),
            rank_sorted(a@),
            rank_sorted(b@),
            rank_sorted(r@),
            r@.to_multiset() =~= a@.take(i as int).to_multiset().add(b@.take(j as int).to_multiset()),
            r@.len() > 0 && i < a@.len() ==> rgba_rank(r@.last()) <= rgba_rank(a@[i as int]),
            r@.len() > 0 && j < b@.len() ==> rgba_rank(r@.last()) <= rgba_rank(b@[j as int]),
        decreases a@.len() + b@.len() - i - j,
    {
        let ghost old_r = r@;
        if j >= b.len() || (i < a.len() && rank_of(a[i]) <= rank_of(b[j])) {
            let x = a[i];
            r.push(x);
            assert(a@.take(i + 1) =~= a@.take(i as int).push(x));
            assert(r@ == old_r.push(x));
            proof {
                old_r.to_multiset_ensures();
                a@.take(i as int).to_multiset_ensures();
            }
            assert(r@.to_multiset() =~= old_r.to_multiset().insert(x));
            assert(a@.take(i + 1).to_multiset() =~= a@.take(i as int).to_multiset().insert(x));
            i += 1;
        } else {
            let x = b[j];
            r.push(x);
            assert(b@.take(j + 1) =~= b@.take(j as int).push(x));
            assert(r@ == old_r.push(x));
            proof {
                old_r.to_multiset_ensures();
                b@.take(j as int).to_multiset_ensures();
            }
            assert(r@.to_multiset() =~= old_r.to_multiset().insert(x));
            assert(b@.take(j + 1).to_multiset() =~= b@.take(j as int).to_multiset().insert(x));
            j += 1;
        }
        assert forall|p: int, q: int| 0 <= p <= q < r@.len() implies rgba_rank(#[trigger] r@[p])
            <= rgba_rank(#[trigger] r@[q]) by {
            if q == r@.len() - 1 && p < q {
                assert(r@[p] == old_r[p]);
                assert(rgba_rank(old_r[p]) <= rgba_rank(old_r.last()));
            }
        }
    }
    assert(a@.take(a@.len() as int) =~= a@);
    assert(b@.take(b@.len() as int) =~= b@);
    r
}

/// Sorts keys into `(r, g, b, a)` order.
fn sort_keys(v: Vec<u32>) -> (r: Vec<u32>)
    ensures
        rank_sorted(r@),
        r@.to_multiset() =~= v@.to_multiset(),
    decreases v@.len(),
{
    broadcast use vstd::seq_lib::group_to_multiset_ensures;

    let n = v.len();
    if n <= 1 {
        return v;
    }
    let mid = n / 2;
    let mut left: Vec<u32> = Vec::new();
    let mut right: Vec<u32> = Vec::new();
    let mut i: usize = 0;
    while i < n
        invariant
            i <= n == v@.len(),
            mid < n,
            i <= mid ==> left@ == v@.take(i as int) && right@.len() == 0,
            i > mid ==> left@ == v@.take(mid as int) && right@ == v@.subrange(mid as int, i as int),
        decreases n - i,
    {
        if i < mid {
            left.push(v[i]);
        } else {
            right.push(v[i]);
        }
        proof {
            if i < mid {
                assert(v@.take(i + 1) =~= v@.take(i as int).push(v@[i as int]));
            } else if i == mid {
                assert(right@ =~= v@.subrange(mid as int, i + 1));
            } else {
                assert(v@.subrange(mid as int, i + 1) =~= v@.subrange(mid as int, i as int).push(
                    v@[i as int],
                ));
            }
        }
        i += 1;
    }
    assert(v@ =~= left@ + right@);
    proof {
        vstd::seq_lib::lemma_multiset_commutative(left@, right@);
    }
    let l = sort_keys(left);
    let r = sort_keys(right);
    merge(&l, &r)
}

/// A census depends on the keys only through how often each occurs.
proof fn lemma_census_multiset(colors: Seq<(u32, u32)>, a: Seq<u32>, b: Seq<u32>)
    requires
        is_census(colors, a),
        a.to_multiset() =~= b.to_multiset(),
    ensures
        is_census(colors, b),
{
    broadcast use vstd::seq_lib::group_to_multiset_ensures;

    assert(a.to_multiset() == b.to_multiset());
    assert forall|i: int| 0 <= i < colors.len() implies (#[trigger] colors[i]).1
        == b.to_multiset().count(colors[i].0) by {
        assert(colors[i].1 == a.to_multiset().count(colors[i].0));
    }
    assert forall|i: int| 0 <= i < colors.len() implies b.contains((#[trigger] colors[i]).0) by {
        assert(a.to_multiset().count(colors[i].0) > 0);
    }
    assert forall|j: int| 0 <= j < b.len() implies lists_key(colors, #[trigger] b[j]) by {
        assert(b.to_multiset().count(b[j]) > 0);
        assert(a.contains(b[j]));
        let q = choose|q: int| 0 <= q < a.len() && a[q] == b[j];
        assert(lists_key(colors, a[q]));
    }
}

/// The colour keys of the whole pixels of an RGBA buffer, in pixel order.
pub fn pixel_keys_of(pixels: &[u8]) -> (keys: Vec<u32>)
    ensures
        keys@ == pixel_keys(pixels@),
{
    let len = pixels.len();
    let n = len / 4;
    proof {
        vstd::arithmetic::div_mod::lemma_fundamental_div_mod(len as int, 4);
    }
    assert(4 * n <= len);
    let mut keys: Vec<u32> = Vec::new();
    let mut i: usize = 0;
    while i < n
        invariant
            i <= n == pixels@.len() / 4,
            4 * n <= len == pixels@.len(),
            keys@ == pixel_keys(pixels@).take(i as int),
        decreases n - i,
    {
        let px = vstd::slice::slice_subrange(pixels, 4 * i, 4 * i + 4);
        let k = key(px);
        keys.push(k);
        assert(keys@ =~= pixel_keys(pixels@).take(i + 1));
        i += 1;
    }
    assert(keys@ =~= pixel_keys(pixels@));
    keys
}

/// The distinct colours of an RGBA frame with their pixel counts, sorted in
/// `(r, g, b, a)` order.
pub fn color_census(pixels: &[u8]) -> (colors: Vec<(u32, u32)>)
    requires
        forall|k: u32| #[trigger] pixel_keys(pixels@).to_multiset().count(k) <= u32::MAX,
    ensures
        is_census(colors@, pixel_keys(pixels@)),
        colors@ == census_of(pixel_keys(pixels@)),
{
    broadcast use vstd::seq_lib::group_to_multiset_ensures;
    broadcast use vstd::multiset::group_multiset_axioms;

    let keys = pixel_keys_of(pixels);
    let ghost all = keys@;
    let sorted = sort_keys(keys);
    let n = sorted.len();
    let mut colors: Vec<(u32, u32)> = Vec::new();
    let mut j: usize = 0;
    while j < n
        invariant
            j <= n == sorted@.len(),
            rank_sorted(sorted@),
            sorted@.to_multiset() =~= all.to_multiset(),
            forall|k: u32| #[trigger] all.to_multiset().count(k) <= u32::MAX,
            is_census(colors@, sorted@.take(j as int)),
            j > 0 ==> colors@.len() > 0 && colors@.last().0 == sorted@[j - 1],
            j == 0 ==> colors@.len() == 0,
        decreases n - j,
    {
        let k = sorted[j];
        let ghost t = sorted@.take(j as int);
        let ghost t2 = sorted@.take(j + 1);
        let ghost old_colors = colors@;
        proof {
            assert(t2 =~= t.push(k));
            t.to_multiset_ensures();
            assert(t2.to_multiset() =~= t.to_multiset().insert(k));
            assert(sorted@ =~= t2 + sorted@.skip(j + 1));
            vstd::seq_lib::lemma_multiset_commutative(t2, sorted@.skip(j + 1));
            assert(t2.to_multiset().count(k) <= sorted@.to_multiset().count(k));
        }
        let len = colors.len();
        if len > 0 && colors[len - 1].0 == k {
            let c = colors[len - 1].1;
            colors.set(len - 1, (k, c + 1));
            proof {
                assert forall|i: int| 0 <= i < colors@.len() implies (#[trigger] colors@[i]).1
                    == t2.to_multiset().count(colors@[i].0) by {
                    if i < len - 1 {
                        assert(rgba_rank(old_colors[i].0) < rgba_rank(old_colors[len - 1].0));
                        assert(colors@[i] == old_colors[i]);
                    }
                }
                assert forall|i: int| 0 <= i < colors@.len() implies t2.contains(
                    (#[trigger] colors@[i]).0,
                ) by {
                    if i < len - 1 {
                        assert(colors@[i] == old_colors[i]);
                        assert(t.contains(old_colors[i].0));
                        let q = choose|q: int| 0 <= q < t.len() && t[q] == old_colors[i].0;
                        assert(t2[q] == t[q]);
                    } else {
                        assert(t2[j as int] == k);
                    }
                }
                assert forall|q: int| 0 <= q < t2.len() implies lists_key(colors@, #[trigger] t2[q]) by {
                    if q < j {
                        assert(t2[q] == t[q]);
                        assert(lists_key(old_colors, t[q]));
                        let i = choose|i: int| 0 <= i < old_colors.len() && old_colors[i].0 == t[q];
                        assert(colors@[i].0 == old_colors[i].0);
                    } else {
                        assert(colors@[len - 1].0 == t2[q]);
                    }
                }
                assert forall|a: int, b: int| 0 <= a < b < colors@.len() implies rgba_rank(
                    (#[trigger] colors@[a]).0,
                ) < rgba_rank((#[trigger] colors@[b]).0) by {
                    assert(rgba_rank(old_colors[a].0) < rgba_rank(old_colors[b].0));
                }
            }
        } else {
            proof {
                if j > 0 {
                    assert(rgba_rank(sorted@[j - 1]) <= rgba_rank(sorted@[j as int]));
                    lemma_rank_injective(sorted@[j - 1], k);
                    assert(rgba_rank(old_colors.last().0) < rgba_rank(k));
                }
                assert forall|q: int| 0 <= q < t.len() implies t[q] != k by {
                    assert(t[q] == sorted@[q]);
                    assert(rgba_rank(sorted@[q]) <= rgba_rank(sorted@[j - 1]));
                }
                assert(!t.contains(k));
                assert(t.to_multiset().count(k) == 0);
            }
            colors.push((k, 1));
            proof {
                assert forall|i: int| 0 <= i < colors@.len() implies (#[trigger] colors@[i]).1
                    == t2.to_multiset().count(colors@[i].0) by {
                    if i < len {
                        assert(colors@[i] == old_colors[i]);
                        assert(rgba_rank(old_colors[i].0) <= rgba_rank(old_colors.last().0));
                    }
                }
                assert forall|i: int| 0 <= i < colors@.len() implies t2.contains(
                    (#[trigger] colors@[i]).0,
                ) by {
                    if i < len {
                        assert(colors@[i] == old_colors[i]);
                        assert(t.contains(old_colors[i].0));
                        let q = choose|q: int| 0 <= q < t.len() && t[q] == old_colors[i].0;
                        assert(t2[q] == t[q]);
                    } else {
                        assert(t2[j as int] == k);
                    }
                }
                assert forall|q: int| 0 <= q < t2.len() implies lists_key(colors@, #[trigger] t2[q]) by {
                    if q < j {
                        assert(t2[q] == t[q]);
                        assert(lists_key(old_colors, t[q]));
                        let i = choose|i: int| 0 <= i < old_colors.len() && old_colors[i].0 == t[q];
                        assert(colors@[i].0 == old_colors[i].0);
                    } else {
                        assert(colors@[len as int].0 == t2[q]);
                    }
                }
                assert forall|a: int, b: int| 0 <= a < b < colors@.len() implies rgba_rank(
                    (#[trigger] colors@[a]).0,
                ) < rgba_rank((#[trigger] colors@[b]).0) by {
                    if b < len {
                        assert(rgba_rank(old_colors[a].0) < rgba_rank(old_colors[b].0));
                    } else {
                        assert(rgba_rank(old_colors[a].0) <= rgba_rank(old_colors.last().0));
                    }
                }
            }
        }
        j += 1;
    }
    proof {
        assert(sorted@.take(n as int) =~= sorted@);
        lemma_census_multiset(colors@, sorted@, all);
        let c = census_of(pixel_keys(pixels@));
        assert(is_census(c, pixel_keys(pixels@)));
        lemma_census_unique(colors@, c, pixel_keys(pixels@));
    }
    colors
}

/// Number of distinct colours of an RGBA buffer.
pub open spec fn unique_colors(pixels: Seq<u8>) -> nat {
    pixel_keys(pixels).to_set().len()
}

/// The keys a census lists, in order.
pub open spec fn census_keys(colors: Seq<(u32, u32)>) -> Seq<u32> {
    colors.map_values(|e: (u32, u32)| e.0)
}

/// A census lists every key once.
pub proof fn lemma_census_keys_distinct(colors: Seq<(u32, u32)>, keys: Seq<u32>, i: int, j: int)
    requires
        is_census(colors, keys),
        0 <= i < colors.len(),
        0 <= j < colors.len(),
        i != j,
    ensures
        colors[i].0 != colors[j].0,
{
    if i < j {
        assert(rgba_rank(colors[i].0) < rgba_rank(colors[j].0));
    } else {
        assert(rgba_rank(colors[j].0) < rgba_rank(colors[i].0));
    }
}

/// A census has one entry per distinct key.
pub proof fn lemma_census_len(colors: Seq<(u32, u32)>, keys: Seq<u32>)
    requires
        is_census(colors, keys),
    ensures
        colors.len() == keys.to_set().len(),
{
    let ks = census_keys(colors);
    assert forall|i: int, j: int| 0 <= i < ks.len() && 0 <= j < ks.len() && i != j implies ks[i]
        != ks[j] by {
        lemma_census_keys_distinct(colors, keys, i, j);
    }
    assert(ks.no_duplicates());
    ks.unique_seq_to_set();
    assert forall|k: u32| ks.to_set().contains(k) == keys.to_set().contains(k) by {
        if ks.to_set().contains(k) {
            let i = choose|i: int| 0 <= i < ks.len() && ks[i] == k;
            assert(keys.contains(colors[i].0));
        }
        if keys.to_set().contains(k) {
            let j = choose|j: int| 0 <= j < keys.len() && keys[j] == k;
            assert(lists_key(colors, keys[j]));
            let i = choose|i: int| 0 <= i < colors.len() && (#[trigger] colors[i]).0 == keys[j];
            assert(ks[i] == k);
        }
    }
    assert(ks.to_set() =~= keys.to_set());
}

/// Entries of two censuses of the same keys agree on their keys up to `m`.
proof fn lemma_census_prefix(a: Seq<(u32, u32)>, b: Seq<(u32, u32)>, keys: Seq<u32>, m: int)
    requires
        is_census(a, keys),
        is_census(b, keys),
        a.len() == b.len(),
        0 <= m <= a.len(),
    ensures
        forall|i: int| 0 <= i < m ==> (#[trigger] a[i]).0 == b[i].0,
    decreases m,
{
    if m > 0 {
        let n = m - 1;
        lemma_census_prefix(a, b, keys, n);
        if a[n].0 != b[n].0 {
            if rgba_rank(a[n].0) < rgba_rank(b[n].0) {
                // `a[n]`'s key is listed by `b`, but neither before nor at nor after `n`.
                assert(lists_key(b, a[n].0));
                let j = choose|j: int| 0 <= j < b.len() && (#[trigger] b[j]).0 == a[n].0;
                if j < n {
                    assert(a[j].0 == b[j].0);
                    lemma_census_keys_distinct(a, keys, j, n);
                } else if j > n {
                    assert(rgba_rank(b[n].0) < rgba_rank(b[j].0));
                }
            } else {
                assert(rgba_rank(b[n].0) != rgba_rank(a[n].0)) by {
                    lemma_rank_injective(a[n].0, b[n].0);
                }
                assert(lists_key(a, b[n].0));
                let j = choose|j: int| 0 <= j < a.len() && (#[trigger] a[j]).0 == b[n].0;
                if j < n {
                    assert(a[j].0 == b[j].0);
                    lemma_census_keys_distinct(b, keys, j, n);
                } else if j > n {
                    assert(rgba_rank(a[n].0) < rgba_rank(a[j].0));
                }
            }
        }
    }
}

/// A frame has exactly one census: two censuses of the same keys are equal.
pub proof fn lemma_census_unique(a: Seq<(u32, u32)>, b: Seq<(u32, u32)>, keys: Seq<u32>)
    requires
        is_census(a, keys),
        is_census(b, keys),
    ensures
        a == b,
{
    lemma_census_len(a, keys);
    lemma_census_len(b, keys);
    lemma_census_prefix(a, b, keys, a.len() as int);
    assert forall|i: int| 0 <= i < a.len() implies #[trigger] a[i] == b[i] by {
        assert(a[i].0 == b[i].0);
    }
    assert(a =~= b);
}

/// The census of a sequence of keys.
pub open spec fn census_of(keys: Seq<u32>) -> Seq<(u32, u32)> {
    choose|c: Seq<(u32, u32)>| is_census(c, keys)
}

proof fn lemma_increasing_bound(s: Seq<u32>, i: int)
    requires
        forall|a: int, b: int| 0 <= a < b < s.len() ==> #[trigger] s[a] < #[trigger] s[b],
        0 <= i < s.len(),
    ensures
        s[i] >= i,
    decreases i,
{
    if i > 0 {
        lemma_increasing_bound(s, i - 1);
        assert(s[i - 1] < s[i]);
    }
}

/// A census has at most 2^32 entries.
pub proof fn lemma_census_size(colors: Seq<(u32, u32)>, keys: Seq<u32>)
    requires
        is_census(colors, keys),
    ensures
        colors.len() <= 0x1_0000_0000,
{
    if colors.len() > 0 {
        let r = colors.map_values(|e: (u32, u32)| rgba_rank(e.0));
        assert forall|a: int, b: int| 0 <= a < b < r.len() implies #[trigger] r[a] < #[trigger] r[b] by {
            assert(rgba_rank(colors[a].0) < rgba_rank(colors[b].0));
        }
        lemma_increasing_bound(r, r.len() - 1);
    }
}

} // verus!
