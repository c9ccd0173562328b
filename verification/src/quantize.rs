//! Content-routed quantization of an RGBA frame into an indexed frame.
//!
//! The frame's colour census decides the route: at most 256 unique colours
//! give an exact palette; otherwise the policy picks median-cut + weighted
//! k-means over the histogram, or NeuQuant trained on the capped unique-colour
//! stream or on the pixels themselves.

use vstd::prelude::*;
use std::collections::HashMap;
use color_quant::NeuQuant;
use crate::census::{
    le_key, pixel_keys, pixel_keys_of, lists_key, is_census, unique_colors, color_census,
    rgba_rank, lemma_census_keys_distinct, lemma_census_len, lemma_census_size, census_of,
};
use crate::kmeans::{
    WPoint, palette_kmeans, kmeans_palette, nearest_color, histogram_valid, sum_w, same_color,
    rgba_channels,
};
use crate::route::{Route, Policy, select_route, select_route_spec, policy_routable};
use crate::neuquant::{neuquant_new, neuquant_trained_map};
use crate::neuquant::{neuquant_map, neuquant_search, rgb_of, neuquant_index_of, neuquant_color_map_rgb};

verus! {

broadcast use vstd::std_specs::hash::group_hash_axioms;

/// An indexed frame: one palette index per pixel, an RGB palette, and the
/// palette index of the transparent colour if there is one.
pub struct Frame {
    pub width: u16,
    pub height: u16,
    pub buffer: Vec<u8>,
    pub palette: Option<Vec<u8>>,
    pub transparent: Option<u8>,
}

/// Red byte of a colour key.
pub open spec fn red(k: u32) -> u8 {
    (k & 0xff) as u8
}

/// Green byte of a colour key.
pub open spec fn green(k: u32) -> u8 {
    ((k >> 8u32) & 0xff) as u8
}

/// Blue byte of a colour key.
pub open spec fn blue(k: u32) -> u8 {
    ((k >> 16u32) & 0xff) as u8
}

/// Alpha byte of a colour key.
pub open spec fn alpha(k: u32) -> u8 {
    (k >> 24u32) as u8
}

/// The RGBA bytes of a colour key.
pub open spec fn key_rgba(k: u32) -> Seq<u8> {
    seq![red(k), green(k), blue(k), alpha(k)]
}

/// The channels of a pixel's key are the pixel's bytes.
pub proof fn lemma_key_bytes(b0: u8, b1: u8, b2: u8, b3: u8)
    ensures
        red(le_key(b0, b1, b2, b3)) == b0,
        green(le_key(b0, b1, b2, b3)) == b1,
        blue(le_key(b0, b1, b2, b3)) == b2,
        alpha(le_key(b0, b1, b2, b3)) == b3,
{
    assert(((((b0 as u32) | ((b1 as u32) << 8u32) | ((b2 as u32) << 16u32) | ((b3 as u32)
        << 24u32)) & 0xff) as u8) == b0) by (bit_vector);
    assert((((((b0 as u32) | ((b1 as u32) << 8u32) | ((b2 as u32) << 16u32) | ((b3 as u32)
        << 24u32)) >> 8u32) & 0xff) as u8) == b1) by (bit_vector);
    assert((((((b0 as u32) | ((b1 as u32) << 8u32) | ((b2 as u32) << 16u32) | ((b3 as u32)
        << 24u32)) >> 16u32) & 0xff) as u8) == b2) by (bit_vector);
    assert(((((b0 as u32) | ((b1 as u32) << 8u32) | ((b2 as u32) << 16u32) | ((b3 as u32)
        << 24u32)) >> 24u32) as u8) == b3) by (bit_vector);
}

/// A key is the key of its own channels.
pub proof fn lemma_bytes_key(k: u32)
    ensures
        le_key(red(k), green(k), blue(k), alpha(k)) == k,
{
    assert((((k & 0xff) as u8) as u32) | (((((k >> 8u32) & 0xff) as u8) as u32) << 8u32) | (
    ((((k >> 16u32) & 0xff) as u8) as u32) << 16u32) | ((((k >> 24u32) as u8) as u32) << 24u32)
        == k) by (bit_vector);
}

/// The RGB palette listing the colours of `colors` in order.
pub open spec fn rgb_palette(colors: Seq<(u32, u32)>) -> Seq<u8> {
    Seq::new(
        colors.len() * 3,
        |i: int|
            {
                let k = colors[i / 3].0;
                if i % 3 == 0 {
                    red(k)
                } else if i % 3 == 1 {
                    green(k)
                } else {
                    blue(k)
                }
            },
    )
}

/// Index of the last entry among `colors[..n]` with key `k`, or -1.
pub open spec fn last_slot(colors: Seq<(u32, u32)>, k: u32, n: int) -> int
    decreases n,
{
    if n <= 0 {
        -1
    } else if colors[n - 1].0 == k {
        n - 1
    } else {
        last_slot(colors, k, n - 1)
    }
}

/// Palette index of key `k` in an exact palette: its (last) position among the
/// first 256 entries, or 0 when absent.
pub open spec fn exact_slot(colors: Seq<(u32, u32)>, k: u32) -> u8 {
    let n = if colors.len() < 256 {
        colors.len() as int
    } else {
        256
    };
    let r = last_slot(colors, k, n);
    if r < 0 {
        0
    } else {
        r as u8
    }
}

proof fn lemma_last_slot_range(colors: Seq<(u32, u32)>, k: u32, n: int)
    ensures
        -1 <= last_slot(colors, k, n) < if n < 0 {
            0
        } else {
            n
        },
        last_slot(colors, k, n) >= 0 ==> colors[last_slot(colors, k, n)].0 == k,
        (exists|j: int| 0 <= j < n && (#[trigger] colors[j]).0 == k) ==> last_slot(colors, k, n)
            >= 0,
    decreases n,
{
    if n > 0 {
        lemma_last_slot_range(colors, k, n - 1);
        if exists|j: int| 0 <= j < n && (#[trigger] colors[j]).0 == k {
            let j = choose|j: int| 0 <= j < n && (#[trigger] colors[j]).0 == k;
            if j < n - 1 {
                assert(exists|j: int| 0 <= j < n - 1 && (#[trigger] colors[j]).0 == k);
            }
        }
    }
}

/// The RGB palette of the colours of `colors`.
fn palette_of(colors: &[(u32, u32)]) -> (p: Vec<u8>)
    requires
        colors@.len() * 3 <= usize::MAX,
    ensures
        p@ == rgb_palette(colors@),
{
    let mut p: Vec<u8> = Vec::new();
    let mut i: usize = 0;
    while i < colors.len()
        invariant
            i <= colors@.len(),
            colors@.len() * 3 <= usize::MAX,
            p@ =~= rgb_palette(colors@).take(3 * i),
        decreases colors@.len() - i,
    {
        let k = colors[i].0;
        p.push((k & 0xff) as u8);
        p.push(((k >> 8u32) & 0xff) as u8);
        p.push(((k >> 16u32) & 0xff) as u8);
        i += 1;
        assert(p@ =~= rgb_palette(colors@).take(3 * i));
    }
    assert(rgb_palette(colors@).take(3 * i) =~= rgb_palette(colors@));
    p
}

/// At most 256 unique colours: the exact palette in census order, each pixel
/// indexed by its colour's position.
pub fn exact_frame(
    width: u16,
    height: u16,
    pixels: &[u8],
    colors: &[(u32, u32)],
    transparent: Option<[u8; 4]>,
) -> (f: Frame)
    requires
        colors@.len() * 3 <= usize::MAX,
    ensures
        f.width == width,
        f.height == height,
        f.palette matches Some(p) && p@ == rgb_palette(colors@),
        f.buffer@.len() == pixel_keys(pixels@).len(),
        forall|i: int|
            0 <= i < f.buffer@.len() ==> #[trigger] f.buffer@[i] == exact_slot(
                colors@,
                pixel_keys(pixels@)[i],
            ),
        f.transparent == match transparent {
            Some(t) => Some(exact_slot(colors@, le_key(t[0], t[1], t[2], t[3]))),
            None => None,
        },
{
    let palette = palette_of(colors);
    let lim: usize = if colors.len() < 256 {
        colors.len()
    } else {
        256
    };
    let mut lookup: HashMap<u32, u8> = HashMap::new();
    let mut i: usize = 0;
    while i < lim
        invariant
            i <= lim <= colors@.len(),
            lim <= 256,
            forall|k: u32|
                #[trigger] lookup@.contains_key(k) == (last_slot(colors@, k, i as int) >= 0),
            forall|k: u32|
                #[trigger] lookup@.contains_key(k) ==> lookup@[k] == last_slot(
                    colors@,
                    k,
                    i as int,
                ),
        decreases lim - i,
    {
        lookup.insert(colors[i].0, i as u8);
        i += 1;
    }
    let keys = pixel_keys_of(pixels);
    let mut buffer: Vec<u8> = Vec::new();
    let mut j: usize = 0;
    while j < keys.len()
        invariant
            j <= keys@.len(),
            keys@ == pixel_keys(pixels@),
            lim == if colors@.len() < 256 {
                colors@.len() as int
            } else {
                256
            },
            forall|k: u32|
                #[trigger] lookup@.contains_key(k) == (last_slot(colors@, k, lim as int) >= 0),
            forall|k: u32|
                #[trigger] lookup@.contains_key(k) ==> lookup@[k] == last_slot(
                    colors@,
                    k,
                    lim as int,
                ),
            buffer@.len() == j,
            forall|q: int| 0 <= q < j ==> #[trigger] buffer@[q] == exact_slot(colors@, keys@[q]),
        decreases keys@.len() - j,
    {
        let k = keys[j];
        let idx = match lookup.get(&k) {
            Some(v) => *v,
            None => 0,
        };
        buffer.push(idx);
        j += 1;
    }
    let t = match transparent {
        Some(t) => {
            let k = array_key(t);
            Some(
                match lookup.get(&k) {
                    Some(v) => *v,
                    None => 0,
                },
            )
        },
        None => None,
    };
    Frame { width, height, buffer, palette: Some(palette), transparent: t }
}

/// The RGBA bytes of a colour key, as an array.
fn key_bytes(k: u32) -> (b: [u8; 4])
    ensures
        b@ == key_rgba(k),
{
    let b = [(k & 0xff) as u8, ((k >> 8u32) & 0xff) as u8, ((k >> 16u32) & 0xff) as u8, (k
        >> 24u32) as u8];
    assert(b@ =~= key_rgba(k));
    b
}

/// A pixel's bytes are the bytes of its key.
pub proof fn lemma_pixel_bytes(pixels: Seq<u8>, i: int)
    requires
        0 <= i < pixel_keys(pixels).len(),
    ensures
        key_rgba(pixel_keys(pixels)[i]) == pixels.subrange(4 * i, 4 * i + 4),
{
    lemma_key_bytes(pixels[4 * i], pixels[4 * i + 1], pixels[4 * i + 2], pixels[4 * i + 3]);
    assert(key_rgba(pixel_keys(pixels)[i]) =~= pixels.subrange(4 * i, 4 * i + 4));
}


/// The palette index a NeuQuant colour map gives a colour key.
pub open spec fn nq_slot(map: Seq<u8>) -> spec_fn(u32) -> u8 {
    |k: u32| neuquant_search(map, key_rgba(k)) as u8
}

/// The palette index the histogram route gives a colour key.
pub open spec fn hist_slot(entries: Seq<[u8; 4]>) -> spec_fn(u32) -> u8 {
    |k: u32| nearest_color(entries, key_color(k), entries.len() as int) as u8
}

/// Maps each key of `colors` to `values[j]` of its (first) entry.
fn key_lookup(colors: &[(u32, u32)], values: &Vec<u8>, Ghost(val): Ghost<spec_fn(u32) -> u8>) -> (lookup: HashMap<u32, u8>)
    requires
        values@.len() == colors@.len(),
        forall|j: int| 0 <= j < colors@.len() ==> #[trigger] values@[j] == val(colors@[j].0),
    ensures
        forall|k: u32| #[trigger] lookup@.contains_key(k) == lists_key(colors@, k),
        forall|k: u32| #[trigger] lookup@.contains_key(k) ==> lookup@[k] == val(k),
{
    let mut lookup: HashMap<u32, u8> = HashMap::new();
    let mut i: usize = 0;
    while i < colors.len()
        invariant
            i <= colors@.len() == values@.len(),
            forall|j: int| 0 <= j < colors@.len() ==> #[trigger] values@[j] == val(colors@[j].0),
            forall|k: u32|
                #[trigger] lookup@.contains_key(k) == lists_key(colors@.take(i as int), k),
            forall|k: u32| #[trigger] lookup@.contains_key(k) ==> lookup@[k] == val(k),
        decreases colors@.len() - i,
    {
        let k = colors[i].0;
        assert(values@[i as int] == val(colors@[i as int].0));
        lookup.insert(k, values[i]);
        proof {
            let t = colors@.take(i as int);
            let t2 = colors@.take(i + 1);
            assert forall|x: u32| #[trigger] lists_key(t2, x) == (lists_key(t, x) || x == k) by {
                if lists_key(t, x) {
                    let w = choose|w: int| 0 <= w < t.len() && (#[trigger] t[w]).0 == x;
                    assert(t2[w] == t[w]);
                }
                if x == k {
                    assert(t2[i as int].0 == k);
                }
                if lists_key(t2, x) && x != k {
                    let w = choose|w: int| 0 <= w < t2.len() && (#[trigger] t2[w]).0 == x;
                    assert(t[w] == t2[w]);
                }
            }
        }
        i += 1;
    }
    assert(colors@.take(colors@.len() as int) =~= colors@);
    lookup
}

/// Looks up every key; each must be present.
fn map_keys(keys: &Vec<u32>, lookup: &HashMap<u32, u8>, Ghost(colors): Ghost<Seq<(u32, u32)>>, Ghost(val): Ghost<spec_fn(u32) -> u8>) -> (buffer: Vec<u8>)
    requires
        forall|q: int| 0 <= q < keys@.len() ==> lists_key(colors, #[trigger] keys@[q]),
        forall|k: u32| #[trigger] lookup@.contains_key(k) == lists_key(colors, k),
        forall|k: u32| #[trigger] lookup@.contains_key(k) ==> lookup@[k] == val(k),
    ensures
        buffer@.len() == keys@.len(),
        forall|q: int| 0 <= q < keys@.len() ==> #[trigger] buffer@[q] == val(keys@[q]),
{
    let mut buffer: Vec<u8> = Vec::new();
    let mut j: usize = 0;
    while j < keys.len()
        invariant
            j <= keys@.len(),
            forall|q: int| 0 <= q < keys@.len() ==> lists_key(colors, #[trigger] keys@[q]),
            forall|k: u32| #[trigger] lookup@.contains_key(k) == lists_key(colors, k),
            forall|k: u32| #[trigger] lookup@.contains_key(k) ==> lookup@[k] == val(k),
            buffer@.len() == j,
            forall|q: int| 0 <= q < j ==> #[trigger] buffer@[q] == val(keys@[q]),
        decreases keys@.len() - j,
    {
        let k = keys[j];
        assert(lists_key(colors, keys@[j as int]));
        let idx = match lookup.get(&k) {
            Some(v) => *v,
            None => {
                proof {
                    assert(lookup@.contains_key(k));
                }
                0
            },
        };
        buffer.push(idx);
        j += 1;
    }
    buffer
}

/// The key of an RGBA array.
fn array_key(t: [u8; 4]) -> (k: u32)
    ensures
        k == le_key(t[0], t[1], t[2], t[3]),
{
    (t[0] as u32) | ((t[1] as u32) << 8u32) | ((t[2] as u32) << 16u32) | ((t[3] as u32) << 24u32)
}

/// Trains a NeuQuant network of `colors` entries on the RGBA stream `pixels`
/// with sampling factor `samplefac`, ready for `mapped_frame`.
pub fn train_network(samplefac: i32, colors: usize, pixels: &[u8]) -> (nq: NeuQuant)
    requires
        samplefac != 0,
        samplefac != i32::MIN,
        1 <= colors <= 256,
    ensures
        neuquant_map(nq) == neuquant_trained_map(samplefac, colors, pixels@),
        neuquant_map(nq).len() == 4 * colors,
{
    neuquant_new(samplefac, colors, pixels)
}

/// NeuQuant-backed frame with the palette search memoised per unique colour:
/// the network is searched once per colour of `colors`, and every pixel then
/// takes its colour's index.
pub fn mapped_frame(
    width: u16,
    height: u16,
    pixels: &[u8],
    colors: &[(u32, u32)],
    nq: &NeuQuant,
    transparent: Option<[u8; 4]>,
) -> (f: Frame)
    requires
        neuquant_map(*nq).len() >= 4,
        forall|j: int|
            0 <= j < pixel_keys(pixels@).len() ==> lists_key(
                colors@,
                #[trigger] pixel_keys(pixels@)[j],
            ),
    ensures
        f.width == width,
        f.height == height,
        f.palette matches Some(p) && p@ == rgb_of(neuquant_map(*nq)),
        f.buffer@.len() == pixel_keys(pixels@).len(),
        forall|i: int|
            0 <= i < f.buffer@.len() ==> #[trigger] f.buffer@[i] == neuquant_search(
                neuquant_map(*nq),
                key_rgba(pixel_keys(pixels@)[i]),
            ) as u8,
        f.transparent == match transparent {
            Some(t) => Some(neuquant_search(neuquant_map(*nq), t@) as u8),
            None => None,
        },
        transparent matches Some(t) ==> neuquant_search(neuquant_map(*nq), t@) < neuquant_map(
            *nq,
        ).len() / 4,
        forall|i: int|
            0 <= i < f.buffer@.len() ==> neuquant_search(
                neuquant_map(*nq),
                key_rgba(#[trigger] pixel_keys(pixels@)[i]),
            ) < neuquant_map(*nq).len() / 4,
{
    let ghost map = neuquant_map(*nq);
    let ghost val = nq_slot(map);
    let mut values: Vec<u8> = Vec::new();
    let mut i: usize = 0;
    while i < colors.len()
        invariant
            i <= colors@.len(),
            map == neuquant_map(*nq),
            map.len() >= 4,
            val == nq_slot(map),
            values@.len() == i,
            forall|j: int| 0 <= j < i ==> #[trigger] values@[j] == val(colors@[j].0),
            forall|j: int|
                0 <= j < i ==> neuquant_search(map, key_rgba((#[trigger] colors@[j]).0)) < map.len()
                    / 4,
        decreases colors@.len() - i,
    {
        let k = colors[i].0;
        let b = key_bytes(k);
        let bs = b.as_slice();
        assert(bs@ == key_rgba(k));
        let idx = neuquant_index_of(nq, bs);
        values.push(idx as u8);
        assert(idx == neuquant_search(map, key_rgba(k)));
        assert(val(k) == neuquant_search(map, key_rgba(k)) as u8);
        assert(values@[i as int] == val(colors@[i as int].0));
        i += 1;
    }
    let lookup = key_lookup(colors, &values, Ghost(val));
    let keys = pixel_keys_of(pixels);
    let buffer = map_keys(&keys, &lookup, Ghost(colors@), Ghost(val));
    proof {
        assert forall|q: int| 0 <= q < buffer@.len() implies #[trigger] buffer@[q] == neuquant_search(
            map,
            key_rgba(keys@[q]),
        ) as u8 by {
            assert(buffer@[q] == val(keys@[q]));
        }
        assert forall|q: int| 0 <= q < keys@.len() implies neuquant_search(
            map,
            key_rgba(#[trigger] keys@[q]),
        ) < map.len() / 4 by {
            assert(lists_key(colors@, keys@[q]));
            let j = choose|j: int| 0 <= j < colors@.len() && (#[trigger] colors@[j]).0 == keys@[q];
        }
    }
    let palette = neuquant_color_map_rgb(nq);
    let t = match transparent {
        Some(t) => Some(neuquant_index_of(nq, t.as_slice()) as u8),
        None => None,
    };
    Frame { width, height, buffer, palette: Some(palette), transparent: t }
}

/// A colour key as an RGBA point.
pub open spec fn key_color(k: u32) -> [i32; 4] {
    [red(k) as i32, green(k) as i32, blue(k) as i32, alpha(k) as i32]
}

/// A census entry as a weighted point.
pub open spec fn census_point(e: (u32, u32)) -> WPoint {
    WPoint { c: key_color(e.0), w: e.1 as u64 }
}

/// The census as the histogram the palette builder takes.
pub open spec fn census_points(colors: Seq<(u32, u32)>) -> Seq<WPoint> {
    colors.map_values(|e: (u32, u32)| census_point(e))
}

/// The palette entries the histogram route builds from a census.
pub open spec fn histogram_entries(colors: Seq<(u32, u32)>, iters: int) -> Seq<[u8; 4]> {
    kmeans_palette(census_points(colors), 256, iters)
}

/// RGB bytes of palette entries (alpha dropped).
pub open spec fn entries_rgb(cols: Seq<[u8; 4]>) -> Seq<u8> {
    Seq::new(cols.len() * 3, |i: int| cols[i / 3][i % 3])
}

proof fn lemma_sum_w_bound(s: Seq<WPoint>)
    requires
        forall|i: int| 0 <= i < s.len() ==> (#[trigger] s[i]).w <= u32::MAX,
    ensures
        sum_w(s) <= s.len() * (u32::MAX as int),
    decreases s.len(),
{
    if s.len() > 0 {
        let s0 = s.drop_last();
        assert forall|i: int| 0 <= i < s0.len() implies (#[trigger] s0[i]).w <= u32::MAX by {
            assert(s0[i] == s[i]);
        }
        lemma_sum_w_bound(s0);
        assert(s[s.len() - 1].w <= u32::MAX);
    }
}

/// The census of a frame is a valid histogram.
proof fn lemma_census_histogram(colors: Seq<(u32, u32)>, keys: Seq<u32>)
    requires
        is_census(colors, keys),
    ensures
        histogram_valid(census_points(colors)),
{
    let pts = census_points(colors);
    assert forall|i: int| 0 <= i < pts.len() implies rgba_channels(#[trigger] pts[i].c) by {}
    assert forall|i: int, j: int|
        0 <= i < pts.len() && 0 <= j < pts.len() && i != j implies !same_color(
        #[trigger] pts[i].c,
        #[trigger] pts[j].c,
    ) by {
        lemma_census_keys_distinct(colors, keys, i, j);
        let a = colors[i].0;
        let b = colors[j].0;
        if same_color(pts[i].c, pts[j].c) {
            lemma_bytes_key(a);
            lemma_bytes_key(b);
            assert(red(a) == red(b) && green(a) == green(b) && blue(a) == blue(b) && alpha(a)
                == alpha(b));
        }
    }
    assert forall|i: int| 0 <= i < pts.len() implies (#[trigger] pts[i]).w <= u32::MAX by {}
    lemma_sum_w_bound(pts);
    lemma_census_size(colors, keys);
    let n = pts.len() as int;
    assert(n * (u32::MAX as int) <= 0x1_0000_0000 * (u32::MAX as int)) by (nonlinear_arith)
        requires
            0 <= n <= 0x1_0000_0000,
    ;
}

/// A census entry as a weighted point.
fn census_point_of(e: (u32, u32)) -> (p: WPoint)
    ensures
        p == census_point(e),
{
    let k = e.0;
    let c: [i32; 4] = [
        (k & 0xff) as i32,
        ((k >> 8u32) & 0xff) as i32,
        ((k >> 16u32) & 0xff) as i32,
        (k >> 24u32) as i32,
    ];
    proof {
        assert(((k & 0xff) as u8) as i32 == (k & 0xff) as i32) by (bit_vector);
        assert((((k >> 8u32) & 0xff) as u8) as i32 == ((k >> 8u32) & 0xff) as i32) by (bit_vector);
        assert((((k >> 16u32) & 0xff) as u8) as i32 == ((k >> 16u32) & 0xff) as i32) by (
        bit_vector);
        assert(((k >> 24u32) as u8) as i32 == (k >> 24u32) as i32) by (bit_vector);
        assert(c =~= key_color(k));
    }
    WPoint { c, w: e.1 as u64 }
}

/// RGB bytes of palette entries.
fn entries_bytes(cols: &Vec<[u8; 4]>) -> (p: Vec<u8>)
    requires
        cols@.len() <= 256,
    ensures
        p@ == entries_rgb(cols@),
{
    let mut p: Vec<u8> = Vec::new();
    let mut ci: usize = 0;
    while ci < cols.len()
        invariant
            ci <= cols@.len() <= 256,
            p@ =~= entries_rgb(cols@).take(3 * ci),
        decreases cols@.len() - ci,
    {
        let c = cols[ci];
        p.push(c[0]);
        p.push(c[1]);
        p.push(c[2]);
        ci += 1;
        assert(p@ =~= entries_rgb(cols@).take(3 * ci));
    }
    assert(entries_rgb(cols@).take(3 * ci) =~= entries_rgb(cols@));
    p
}

/// The k-means palette of the census (RGB bytes) and, per census entry, the
/// index of the palette entry it was assigned.
fn histogram_palette(colors: &[(u32, u32)], iters: usize, Ghost(keys): Ghost<Seq<u32>>) -> (r: (Vec<u8>, Vec<u8>))
    requires
        is_census(colors@, keys),
        colors@.len() >= 1,
    ensures
        r.0@ == entries_rgb(histogram_entries(colors@, iters as int)),
        r.0@ == entries_rgb(kmeans_palette(census_points(colors@), 256, iters as int)),
        1 <= histogram_entries(colors@, iters as int).len() <= 256,
        r.1@.len() == colors@.len(),
        forall|j: int|
            0 <= j < colors@.len() ==> #[trigger] r.1@[j] == nearest_color(
                histogram_entries(colors@, iters as int),
                key_color(colors@[j].0),
                histogram_entries(colors@, iters as int).len() as int,
            ) as u8,
{
    let mut points: Vec<WPoint> = Vec::new();
    let mut i: usize = 0;
    while i < colors.len()
        invariant
            i <= colors@.len(),
            points@ == census_points(colors@).take(i as int),
        decreases colors@.len() - i,
    {
        let p = census_point_of(colors[i]);
        points.push(p);
        assert(points@ =~= census_points(colors@).take(i + 1));
        i += 1;
    }
    assert(points@ =~= census_points(colors@));
    proof {
        lemma_census_histogram(colors@, keys);
    }
    let pal = palette_kmeans(points.as_slice(), 256, iters);
    let palette = entries_bytes(&pal.colors);
    assert forall|j: int| 0 <= j < colors@.len() implies #[trigger] pal.assignment@[j]
        == nearest_color(
        histogram_entries(colors@, iters as int),
        key_color(colors@[j].0),
        histogram_entries(colors@, iters as int).len() as int,
    ) as u8 by {
        assert(points@[j] == census_point(colors@[j]));
        assert(pal.assignment@[j] as int == nearest_color(
            pal.colors@,
            points@[j].c,
            pal.colors@.len() as int,
        ));
    }
    (palette, pal.assignment)
}

/// The histogram route: median-cut + weighted k-means over the census, every
/// pixel mapped to the palette entry its colour was assigned.
fn histogram_frame(
    width: u16,
    height: u16,
    pixels: &[u8],
    colors: &[(u32, u32)],
    iters: usize,
    transparent: Option<[u8; 4]>,
) -> (f: Frame)
    requires
        is_census(colors@, pixel_keys(pixels@)),
        colors@.len() >= 1,
        transparent matches Some(t) ==> pixel_keys(pixels@).contains(le_key(t[0], t[1], t[2], t[3])),
    ensures
        f.width == width,
        f.height == height,
        f.palette matches Some(p) && p@ == entries_rgb(histogram_entries(colors@, iters as int)),
        1 <= histogram_entries(colors@, iters as int).len() <= 256,
        f.buffer@.len() == pixel_keys(pixels@).len(),
        forall|i: int|
            0 <= i < f.buffer@.len() ==> #[trigger] f.buffer@[i] == nearest_color(
                histogram_entries(colors@, iters as int),
                key_color(pixel_keys(pixels@)[i]),
                histogram_entries(colors@, iters as int).len() as int,
            ) as u8,
        f.transparent == match transparent {
            Some(t) => Some(
                nearest_color(
                    histogram_entries(colors@, iters as int),
                    key_color(le_key(t[0], t[1], t[2], t[3])),
                    histogram_entries(colors@, iters as int).len() as int,
                ) as u8,
            ),
            None => None,
        },
{
    let ghost keys = pixel_keys(pixels@);
    let ghost entries = histogram_entries(colors@, iters as int);
    let (palette, assignment) = histogram_palette(colors, iters, Ghost(keys));
    let ghost val = hist_slot(entries);
    assert forall|j: int| 0 <= j < colors@.len() implies #[trigger] assignment@[j] == val(
        colors@[j].0,
    ) by {
        assert(assignment@[j] == nearest_color(entries, key_color(colors@[j].0), entries.len() as int) as u8);
    }
    let lookup = key_lookup(colors, &assignment, Ghost(val));
    let keys_v = pixel_keys_of(pixels);
    let buffer = map_keys(&keys_v, &lookup, Ghost(colors@), Ghost(val));
    assert forall|q: int| 0 <= q < buffer@.len() implies #[trigger] buffer@[q] == nearest_color(
        entries,
        key_color(keys[q]),
        entries.len() as int,
    ) as u8 by {
        assert(buffer@[q] == val(keys_v@[q]));
    }
    let t = match transparent {
        Some(t) => {
            let k = array_key(t);
            proof {
                let q = choose|q: int| 0 <= q < keys.len() && keys[q] == k;
                assert(lists_key(colors@, keys[q]));
            }
            let idx = match lookup.get(&k) {
                Some(v) => *v,
                None => {
                    proof {
                        assert(lookup@.contains_key(k));
                    }
                    0
                },
            };
            Some(idx)
        },
        None => None,
    };
    Frame { width, height, buffer, palette: Some(palette), transparent: t }
}

/// `n` copies of the bytes `b`.
pub open spec fn repeat_bytes(b: Seq<u8>, n: nat) -> Seq<u8>
    decreases n,
{
    if n == 0 {
        Seq::empty()
    } else {
        repeat_bytes(b, (n - 1) as nat) + b
    }
}

/// The NeuQuant training stream of the unique-colour route: each colour of
/// the census, in order, repeated `min(count, cap)` times.
pub open spec fn unique_stream(colors: Seq<(u32, u32)>, cap: u32) -> Seq<u8>
    decreases colors.len(),
{
    if colors.len() == 0 {
        Seq::empty()
    } else {
        let e = colors.last();
        unique_stream(colors.drop_last(), cap) + repeat_bytes(
            key_rgba(e.0),
            if e.1 < cap {
                e.1 as nat
            } else {
                cap as nat
            },
        )
    }
}

/// How many copies of a colour seen `count` times the training stream holds.
pub open spec fn capped(count: u32, cap: u32) -> nat {
    if count <= cap {
        count as nat
    } else {
        cap as nat
    }
}

/// Total copies over a census: the sum of `min(count, cap)`.
pub open spec fn capped_total(colors: Seq<(u32, u32)>, cap: u32) -> nat
    decreases colors.len(),
{
    if colors.len() == 0 {
        0
    } else {
        capped_total(colors.drop_last(), cap) + capped(colors.last().1, cap)
    }
}

proof fn lemma_repeat_len(b: Seq<u8>, n: nat)
    ensures
        repeat_bytes(b, n).len() == b.len() * n,
    decreases n,
{
    let l = b.len() as int;
    if n > 0 {
        let m = (n - 1) as nat;
        lemma_repeat_len(b, m);
        assert(repeat_bytes(b, n) == repeat_bytes(b, m) + b);
        assert(l * m + l == l * n) by (nonlinear_arith)
            requires
                m + 1 == n,
        ;
    } else {
        assert(l * 0 == 0) by (nonlinear_arith);
    }
}

/// The unique-colour training stream holds every census colour
/// `min(count, cap)` times: four bytes per copy.
pub proof fn lemma_unique_stream_len(colors: Seq<(u32, u32)>, cap: u32)
    ensures
        unique_stream(colors, cap).len() == 4 * capped_total(colors, cap),
    decreases colors.len(),
{
    if colors.len() > 0 {
        lemma_unique_stream_len(colors.drop_last(), cap);
        let e = colors.last();
        let reps: nat = if e.1 < cap {
            e.1 as nat
        } else {
            cap as nat
        };
        lemma_repeat_len(key_rgba(e.0), reps);
        assert(key_rgba(e.0).len() == 4);
        assert(key_rgba(e.0).len() * reps == 4 * reps);
        assert(reps == capped(e.1, cap));
        assert(unique_stream(colors, cap) == unique_stream(colors.drop_last(), cap) + repeat_bytes(
            key_rgba(e.0),
            reps,
        ));
        assert(capped_total(colors, cap) == capped_total(colors.drop_last(), cap) + reps);
    }
}

/// The copies of colour `i` in the stream: the bytes of its key,
/// `min(count, cap)` times, after the copies of every earlier colour.
pub proof fn lemma_unique_stream_layout(colors: Seq<(u32, u32)>, cap: u32, i: int)
    requires
        0 <= i < colors.len(),
    ensures
        unique_stream(colors, cap).subrange(
            4 * capped_total(colors.take(i), cap) as int,
            4 * capped_total(colors.take(i + 1), cap) as int,
        ) == repeat_bytes(key_rgba(colors[i].0), capped(colors[i].1, cap)),
    decreases colors.len(),
{
    let n = colors.len() as int;
    let d = colors.drop_last();
    let e = colors.last();
    assert(colors.take(n) =~= colors);
    lemma_unique_stream_len(d, cap);
    lemma_unique_stream_len(colors, cap);
    let reps: nat = if e.1 < cap {
        e.1 as nat
    } else {
        cap as nat
    };
    assert(reps == capped(e.1, cap));
    if i == n - 1 {
        assert(colors.take(i) =~= d);
        let a = unique_stream(d, cap);
        assert(unique_stream(colors, cap) == a + repeat_bytes(key_rgba(e.0), reps));
        assert(unique_stream(colors, cap).subrange(a.len() as int, unique_stream(colors, cap).len() as int)
            =~= repeat_bytes(key_rgba(e.0), reps));
    } else {
        lemma_unique_stream_layout(d, cap, i);
        assert(d.take(i) =~= colors.take(i));
        assert(d.take(i + 1) =~= colors.take(i + 1));
        assert(d[i] == colors[i]);
        lemma_capped_total_prefix(d, cap, i + 1);
        assert(colors.take(i + 1).drop_last() =~= colors.take(i));
        assert(colors.take(i + 1).last() == colors[i]);
        let a = unique_stream(d, cap);
        assert(a.len() == 4 * capped_total(d, cap));
        assert(unique_stream(colors, cap) == a + repeat_bytes(key_rgba(e.0), reps));
        assert(unique_stream(colors, cap).subrange(
            4 * capped_total(colors.take(i), cap) as int,
            4 * capped_total(colors.take(i + 1), cap) as int,
        ) =~= a.subrange(
            4 * capped_total(colors.take(i), cap) as int,
            4 * capped_total(colors.take(i + 1), cap) as int,
        ));
    }
}

proof fn lemma_capped_total_prefix(colors: Seq<(u32, u32)>, cap: u32, m: int)
    requires
        0 <= m <= colors.len(),
    ensures
        capped_total(colors.take(m), cap) <= capped_total(colors, cap),
    decreases colors.len(),
{
    if m < colors.len() {
        assert(colors.drop_last().take(m) =~= colors.take(m));
        lemma_capped_total_prefix(colors.drop_last(), cap, m);
    } else {
        assert(colors.take(m) =~= colors);
    }
}

/// Builds the frequency-capped unique-colour training stream.
fn unique_stream_of(colors: &[(u32, u32)], cap: u32) -> (stream: Vec<u8>)
    ensures
        stream@ == unique_stream(colors@, cap),
        stream@.len() == 4 * capped_total(colors@, cap),
{
    proof {
        lemma_unique_stream_len(colors@, cap);
    }
    let mut stream: Vec<u8> = Vec::new();
    let mut i: usize = 0;
    while i < colors.len()
        invariant
            i <= colors@.len(),
            stream@ == unique_stream(colors@.take(i as int), cap),
        decreases colors@.len() - i,
    {
        let (k, count) = colors[i];
        let b = key_bytes(k);
        let reps = if count < cap {
            count
        } else {
            cap
        };
        let ghost base = stream@;
        let mut r: u32 = 0;
        while r < reps
            invariant
                r <= reps,
                b@ == key_rgba(k),
                stream@ == base + repeat_bytes(b@, r as nat),
            decreases reps - r,
        {
            stream.push(b[0]);
            stream.push(b[1]);
            stream.push(b[2]);
            stream.push(b[3]);
            assert(stream@ =~= base + repeat_bytes(b@, (r + 1) as nat));
            r += 1;
        }
        assert(colors@.take(i + 1).drop_last() =~= colors@.take(i as int));
        assert(colors@.take(i + 1).last() == (k, count));
        i += 1;
    }
    assert(colors@.take(colors@.len() as int) =~= colors@);
    stream
}

/// The frame a NeuQuant route produces from the colour map it trained.
pub open spec fn neuquant_frame(f: Frame, map: Seq<u8>, pixels: Seq<u8>, transparent: Option<[u8; 4]>) -> bool {
    &&& f.palette matches Some(p) && p@ == rgb_of(map)
    &&& f.buffer@.len() == pixel_keys(pixels).len()
    &&& forall|i: int|
        0 <= i < f.buffer@.len() ==> #[trigger] f.buffer@[i] == neuquant_search(
            map,
            key_rgba(pixel_keys(pixels)[i]),
        ) as u8
    &&& f.transparent == match transparent {
        Some(t) => Some(neuquant_search(map, t@) as u8),
        None => None,
    }
}

/// What the frame holds for the route taken, given the frame's census.
pub open spec fn frame_by_route(
    f: Frame,
    route: Route,
    colors: Seq<(u32, u32)>,
    pixels: Seq<u8>,
    speed: i32,
    transparent: Option<[u8; 4]>,
) -> bool {
    match route {
        Route::Exact => {
            &&& f.palette matches Some(p) && p@ == rgb_palette(colors)
            &&& f.buffer@.len() == pixel_keys(pixels).len()
            &&& forall|i: int|
                0 <= i < f.buffer@.len() ==> #[trigger] f.buffer@[i] == exact_slot(
                    colors,
                    pixel_keys(pixels)[i],
                )
            &&& f.transparent == match transparent {
                Some(t) => Some(exact_slot(colors, le_key(t[0], t[1], t[2], t[3]))),
                None => None,
            }
        },
        Route::Histogram { iters } => {
            let entries = histogram_entries(colors, iters as int);
            &&& f.palette matches Some(p) && p@ == entries_rgb(entries)
            &&& f.buffer@.len() == pixel_keys(pixels).len()
            &&& forall|i: int|
                0 <= i < f.buffer@.len() ==> #[trigger] f.buffer@[i] == nearest_color(
                    entries,
                    key_color(pixel_keys(pixels)[i]),
                    entries.len() as int,
                ) as u8
            &&& f.transparent == match transparent {
                Some(t) => Some(
                    nearest_color(
                        entries,
                        key_color(le_key(t[0], t[1], t[2], t[3])),
                        entries.len() as int,
                    ) as u8,
                ),
                None => None,
            }
        },
        Route::UniqueStream { cap } => neuquant_frame(
            f,
            neuquant_trained_map(speed, 256, unique_stream(colors, cap)),
            pixels,
            transparent,
        ),
        Route::PixelStream { samplefac } => neuquant_frame(
            f,
            neuquant_trained_map(samplefac, 256, pixels),
            pixels,
            transparent,
        ),
    }
}

/// The quantized frame, the route it took and the number of unique colours.
pub struct Quantized {
    pub frame: Frame,
    pub route: Route,
    pub unique_colors: usize,
    /// Length (in pixels) of the NeuQuant training stream of the unique-colour route.
    pub stream_samples: Option<usize>,
}

/// Every palette index of the frame names a palette entry.
pub open spec fn indices_in_palette(f: Frame) -> bool {
    f.palette matches Some(p) && forall|i: int|
        0 <= i < f.buffer@.len() ==> 3 * (#[trigger] f.buffer@[i]) + 3 <= p@.len()
}

/// The transparent index, if any, names a palette entry.
pub open spec fn transparent_in_palette(f: Frame) -> bool {
    f.transparent matches Some(x) ==> (f.palette matches Some(p) && 3 * x + 3 <= p@.len())
}

/// The palette holds whole RGB entries, at most 256 of them, and at least one
/// when the frame has a pixel.
pub open spec fn palette_sized(f: Frame, pixels: nat) -> bool {
    f.palette matches Some(p) && {
        &&& p@.len() % 3 == 0
        &&& p@.len() <= 768
        &&& pixels > 0 ==> p@.len() >= 3
    }
}

/// Every pixel's RGB is reproduced exactly by its palette entry.
pub open spec fn lossless(f: Frame, pixels: Seq<u8>) -> bool {
    f.palette matches Some(p) && forall|i: int|
        0 <= i < f.buffer@.len() ==> {
            &&& p@[3 * (#[trigger] f.buffer@[i])] == pixels[4 * i]
            &&& p@[3 * f.buffer@[i] + 1] == pixels[4 * i + 1]
            &&& p@[3 * f.buffer@[i] + 2] == pixels[4 * i + 2]
        }
}

/// Quantizes RGBA pixels (alpha already collapsed by the caller) into an
/// indexed frame, routing by the frame's colour census: exact palette for at
/// most 256 unique colours, otherwise the route the policy selects.
/// `speed` is the NeuQuant sampling factor in `1..=30`; only the NeuQuant
/// routes use it.
pub fn quantize_frame(
    width: u16,
    height: u16,
    pixels: &[u8],
    speed: i32,
    transparent: Option<[u8; 4]>,
    policy: Policy,
) -> (q: Quantized)
    requires
        ({
            let r = select_route_spec(
                policy,
                unique_colors(pixels@) as int,
                pixel_keys(pixels@).len() as int,
                speed as int,
            );
            r is UniqueStream || r is PixelStream
        }) ==> 1 <= speed <= 30,
        forall|k: u32| #[trigger] pixel_keys(pixels@).to_multiset().count(k) <= u32::MAX,
        unique_colors(pixels@) > 256 ==> policy_routable(
            policy,
            unique_colors(pixels@) as int,
            speed as int,
        ),
        transparent matches Some(t) ==> (select_route_spec(
            policy,
            unique_colors(pixels@) as int,
            pixel_keys(pixels@).len() as int,
            speed as int,
        ) is Histogram ==> pixel_keys(pixels@).contains(le_key(t[0], t[1], t[2], t[3]))),
    ensures
        q.route == select_route_spec(
            policy,
            unique_colors(pixels@) as int,
            pixel_keys(pixels@).len() as int,
            speed as int,
        ),
        q.unique_colors == unique_colors(pixels@),
        q.frame.width == width,
        q.frame.height == height,
        q.frame.buffer@.len() == pixel_keys(pixels@).len(),
        frame_by_route(
            q.frame,
            q.route,
            census_of(pixel_keys(pixels@)),
            pixels@,
            speed,
            transparent,
        ),
        q.stream_samples == match q.route {
            Route::UniqueStream { cap } => Some(
                (unique_stream(census_of(pixel_keys(pixels@)), cap).len() / 4) as usize,
            ),
            _ => None,
        },
        q.route matches Route::UniqueStream { cap } ==> q.stream_samples == Some(
            capped_total(census_of(pixel_keys(pixels@)), cap) as usize,
        ),
        q.route matches Route::Histogram { iters } ==> (q.frame.palette matches Some(p) && p@
            == entries_rgb(kmeans_palette(census_points(census_of(pixel_keys(pixels@))), 256, iters as int))),
        palette_sized(q.frame, pixel_keys(pixels@).len()),
        q.route is UniqueStream || q.route is PixelStream ==> (q.frame.palette matches Some(p)
            && p@.len() == 768),
        indices_in_palette(q.frame),
        pixel_keys(pixels@).len() > 0 ==> transparent_in_palette(q.frame),
        q.route == Route::Exact ==> lossless(q.frame, pixels@),
{
    let colors = color_census(pixels);
    let ghost keys = pixel_keys(pixels@);
    proof {
        lemma_census_len(colors@, keys);
        if keys.len() > 0 {
            assert(lists_key(colors@, keys[0]));
        }
    }
    let n = pixels.len() / 4;
    let route = select_route(policy, colors.len(), n, speed);
    let mut stream_samples: Option<usize> = None;
    let frame = match route {
        Route::Exact => {
            let f = exact_frame(width, height, pixels, colors.as_slice(), transparent);
            proof {
                lemma_exact_laws(f, colors@, pixels@);
                if let Some(t) = transparent {
                    let k = le_key(t[0], t[1], t[2], t[3]);
                    lemma_last_slot_range(colors@, k, colors@.len() as int);
                }
            }
            f
        },
        Route::Histogram { iters } => {
            let f = histogram_frame(width, height, pixels, colors.as_slice(), iters, transparent);
            proof {
                lemma_histogram_in_range(f, colors@, iters as int, pixels@);
                if let Some(t) = transparent {
                    let e = histogram_entries(colors@, iters as int);
                    crate::kmeans::lemma_nearest_color_range(
                        e,
                        key_color(le_key(t[0], t[1], t[2], t[3])),
                        e.len() as int,
                    );
                }
            }
            f
        },
        Route::UniqueStream { cap } => {
            let stream = unique_stream_of(colors.as_slice(), cap);
            stream_samples = Some(stream.len() / 4);
            let nq = train_network(speed, 256, stream.as_slice());
            let f = mapped_frame(width, height, pixels, colors.as_slice(), &nq, transparent);
            proof {
                lemma_neuquant_in_range(f, neuquant_map(nq), pixels@);
            }
            f
        },
        Route::PixelStream { samplefac } => {
            let nq = train_network(samplefac, 256, pixels);
            let f = mapped_frame(width, height, pixels, colors.as_slice(), &nq, transparent);
            proof {
                lemma_neuquant_in_range(f, neuquant_map(nq), pixels@);
            }
            f
        },
    };
    Quantized { frame, route, unique_colors: colors.len(), stream_samples }
}

/// The histogram route's palette is the k-means palette of the census, built
/// with the route's own iteration count, and every pixel takes the entry
/// nearest to its colour.
pub proof fn lemma_histogram_route_palette(
    f: Frame,
    colors: Seq<(u32, u32)>,
    pixels: Seq<u8>,
    speed: i32,
    transparent: Option<[u8; 4]>,
    iters: usize,
)
    requires
        frame_by_route(f, Route::Histogram { iters }, colors, pixels, speed, transparent),
    ensures
        f.palette matches Some(p) && p@ == entries_rgb(
            kmeans_palette(census_points(colors), 256, iters as int),
        ),
        forall|i: int|
            0 <= i < f.buffer@.len() ==> #[trigger] f.buffer@[i] == nearest_color(
                kmeans_palette(census_points(colors), 256, iters as int),
                key_color(pixel_keys(pixels)[i]),
                kmeans_palette(census_points(colors), 256, iters as int).len() as int,
            ) as u8,
{
}

/// A frame is determined by its pixels, route, speed and transparent colour:
/// two frames that both hold what the route produces from the frame's census
/// agree on every index, the palette and the transparent index. So
/// quantizing the same input twice gives the same frame.
pub proof fn lemma_frame_determined(
    f1: Frame,
    f2: Frame,
    route: Route,
    pixels: Seq<u8>,
    speed: i32,
    transparent: Option<[u8; 4]>,
)
    requires
        frame_by_route(f1, route, census_of(pixel_keys(pixels)), pixels, speed, transparent),
        frame_by_route(f2, route, census_of(pixel_keys(pixels)), pixels, speed, transparent),
    ensures
        f1.buffer@ == f2.buffer@,
        f1.palette is Some && f2.palette is Some,
        f1.palette->0@ == f2.palette->0@,
        f1.transparent == f2.transparent,
{
    assert(f1.buffer@.len() == f2.buffer@.len());
    assert forall|i: int| 0 <= i < f1.buffer@.len() implies f1.buffer@[i] == f2.buffer@[i] by {
        assert(f1.buffer@[i] == f1.buffer@[i]);
        assert(f2.buffer@[i] == f2.buffer@[i]);
    }
    assert(f1.buffer@ =~= f2.buffer@);
}

proof fn lemma_exact_laws(f: Frame, colors: Seq<(u32, u32)>, pixels: Seq<u8>)
    requires
        is_census(colors, pixel_keys(pixels)),
        colors.len() <= 256,
        f.palette matches Some(p) && p@ == rgb_palette(colors),
        f.buffer@.len() == pixel_keys(pixels).len(),
        forall|i: int|
            0 <= i < f.buffer@.len() ==> #[trigger] f.buffer@[i] == exact_slot(
                colors,
                pixel_keys(pixels)[i],
            ),
    ensures
        indices_in_palette(f),
        lossless(f, pixels),
{
    let keys = pixel_keys(pixels);
    let p = f.palette->0;
    assert forall|i: int| 0 <= i < f.buffer@.len() implies {
        &&& 3 * (#[trigger] f.buffer@[i]) + 3 <= p@.len()
        &&& p@[3 * f.buffer@[i]] == pixels[4 * i]
        &&& p@[3 * f.buffer@[i] + 1] == pixels[4 * i + 1]
        &&& p@[3 * f.buffer@[i] + 2] == pixels[4 * i + 2]
    } by {
        let k = keys[i];
        assert(lists_key(colors, keys[i]));
        lemma_last_slot_range(colors, k, colors.len() as int);
        let s = last_slot(colors, k, colors.len() as int);
        assert(f.buffer@[i] == s);
        assert(colors[s].0 == k);
        lemma_key_bytes(pixels[4 * i], pixels[4 * i + 1], pixels[4 * i + 2], pixels[4 * i + 3]);
        assert(p@[3 * s] == red(colors[(3 * s) / 3].0));
        assert((3 * s + 1) / 3 == s && (3 * s + 1) % 3 == 1);
        assert((3 * s + 2) / 3 == s && (3 * s + 2) % 3 == 2);
    }
}

proof fn lemma_histogram_in_range(f: Frame, colors: Seq<(u32, u32)>, iters: int, pixels: Seq<u8>)
    requires
        f.palette matches Some(p) && p@ == entries_rgb(histogram_entries(colors, iters)),
        1 <= histogram_entries(colors, iters).len() <= 256,
        forall|i: int|
            0 <= i < f.buffer@.len() ==> #[trigger] f.buffer@[i] == nearest_color(
                histogram_entries(colors, iters),
                key_color(pixel_keys(pixels)[i]),
                histogram_entries(colors, iters).len() as int,
            ) as u8,
    ensures
        indices_in_palette(f),
{
    let e = histogram_entries(colors, iters);
    assert forall|i: int| 0 <= i < f.buffer@.len() implies 3 * (#[trigger] f.buffer@[i]) + 3
        <= f.palette->0@.len() by {
        crate::kmeans::lemma_nearest_color_range(e, key_color(pixel_keys(pixels)[i]), e.len() as int);
    }
}

proof fn lemma_neuquant_in_range(f: Frame, map: Seq<u8>, pixels: Seq<u8>)
    requires
        map.len() == 1024,
        f.palette matches Some(p) && p@ == rgb_of(map),
        f.buffer@.len() == pixel_keys(pixels).len(),
        forall|i: int|
            0 <= i < f.buffer@.len() ==> #[trigger] f.buffer@[i] == neuquant_search(
                map,
                key_rgba(pixel_keys(pixels)[i]),
            ) as u8,
        forall|i: int|
            0 <= i < f.buffer@.len() ==> neuquant_search(
                map,
                key_rgba(#[trigger] pixel_keys(pixels)[i]),
            ) < map.len() / 4,
    ensures
        indices_in_palette(f),
{
    assert forall|i: int| 0 <= i < f.buffer@.len() implies 3 * (#[trigger] f.buffer@[i]) + 3
        <= f.palette->0@.len() by {
        let k = pixel_keys(pixels)[i];
        assert(neuquant_search(map, key_rgba(k)) < 256);
    }
}

} // verus!
