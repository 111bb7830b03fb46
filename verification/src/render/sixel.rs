//! Sixel encoder: RGBA8 pixels to a complete Sixel DCS string. Sprites with
//! at most 256 distinct visible colours get an exact palette; more colours
//! fall back to 3-3-2 buckets. Pixels with alpha below the threshold are left
//! undrawn.

use vstd::prelude::*;

use crate::text::{ascii, decimal, push_ascii, push_decimal};

verus! {

/// Alpha at or above this is drawn; below it a pixel is transparent.
pub const ALPHA_THRESHOLD: u8 = 128;

/// A colour in Sixel intensities (each 0–100).
pub type SixelColor = (u8, u8, u8);

/// An 8-bit channel as a Sixel intensity, rounded: `(c·100 + 127) / 255`.
pub open spec fn sixel_channel(c: u8) -> u8 {
    ((c as int * 100 + 127) / 255) as u8
}

/// The Sixel intensity of a channel is the nearest whole percentage of 255,
/// halves rounded up: `100·c / 255` lies within half a unit of it, so 0
/// is 0, 255 is 100, and the scale is monotone.
pub proof fn lemma_sixel_channel_nearest(c: u8, d: u8)
    ensures
        0 <= sixel_channel(c) <= 100,
        255 * sixel_channel(c) - 127 <= 100 * c <= 255 * sixel_channel(c) + 127,
        sixel_channel(0) == 0,
        sixel_channel(255) == 100,
        c <= d ==> sixel_channel(c) <= sixel_channel(d),
{
    let q = (c as int * 100 + 127) / 255;
    assert(0 <= q <= 100 && 255 * q <= c as int * 100 + 127 < 255 * q + 255) by (nonlinear_arith)
        requires
            q == (c as int * 100 + 127) / 255,
            0 <= c <= 255,
    ;
    let p = (d as int * 100 + 127) / 255;
    assert(c <= d ==> q <= p) by (nonlinear_arith)
        requires
            q == (c as int * 100 + 127) / 255,
            p == (d as int * 100 + 127) / 255,
            0 <= c,
    ;
}

/// 8-bit channel (0–255) to Sixel intensity (0–100).
pub fn to_sixel_channel(c: u8) -> (r: u8)
    ensures
        r == sixel_channel(c),
        r <= 100,
{
    ((c as u16 * 100 + 127) / 255) as u8
}

/// Pixel `i` is drawn: its alpha is at least the threshold.
pub open spec fn visible(rgba: Seq<u8>, i: int) -> bool {
    rgba[i * 4 + 3] >= ALPHA_THRESHOLD
}

/// The Sixel colour of pixel `i`.
pub open spec fn pixel_color(rgba: Seq<u8>, i: int) -> SixelColor {
    (sixel_channel(rgba[i * 4]), sixel_channel(rgba[i * 4 + 1]), sixel_channel(rgba[i * 4 + 2]))
}

/// The 3-3-2 bucket of pixel `i`: top three bits of red and green, top two
/// of blue.
pub open spec fn pixel_bucket(rgba: Seq<u8>, i: int) -> u8 {
    (rgba[i * 4] & 0xE0) | ((rgba[i * 4 + 1] & 0xE0) >> 3) | ((rgba[i * 4 + 2] & 0xC0) >> 6)
}

/// The colour standing for the bucket of pixel `i`: the bucket's centre.
pub open spec fn bucket_color(rgba: Seq<u8>, i: int) -> SixelColor {
    (
        sixel_channel((rgba[i * 4] & 0xE0) | 0x10),
        sixel_channel((rgba[i * 4 + 1] & 0xE0) | 0x10),
        sixel_channel((rgba[i * 4 + 2] & 0xC0) | 0x20),
    )
}

/// The distinct colours of the visible pixels among the first `k`, in order
/// of first appearance.
pub open spec fn exact_palette(rgba: Seq<u8>, k: nat) -> Seq<SixelColor>
    decreases k,
{
    if k == 0 {
        Seq::empty()
    } else {
        let p = exact_palette(rgba, (k - 1) as nat);
        let i = k - 1;
        if visible(rgba, i) && !p.contains(pixel_color(rgba, i)) {
            p.push(pixel_color(rgba, i))
        } else {
            p
        }
    }
}

/// The distinct buckets of the visible pixels among the first `k`, in order
/// of first appearance, each with its colour.
pub open spec fn bucket_palette(rgba: Seq<u8>, k: nat) -> (Seq<u8>, Seq<SixelColor>)
    decreases k,
{
    if k == 0 {
        (Seq::empty(), Seq::empty())
    } else {
        let (b, c) = bucket_palette(rgba, (k - 1) as nat);
        let i = k - 1;
        if visible(rgba, i) && !b.contains(pixel_bucket(rgba, i)) {
            (b.push(pixel_bucket(rgba, i)), c.push(bucket_color(rgba, i)))
        } else {
            (b, c)
        }
    }
}

/// Per-pixel palette index (`None` for a transparent pixel) and the colour
/// table.
pub struct Quantized {
    pub palette: Vec<SixelColor>,
    pub indices: Vec<Option<usize>>,
}

/// `q` maps the first `n` pixels onto `palette` by `key`: transparent pixels
/// get no index, a visible pixel the position of its key in `keys`.
pub open spec fn indexes_by<K>(q: Seq<Option<usize>>, n: nat, keys: Seq<K>, key: spec_fn(int) -> K, vis: spec_fn(int) -> bool) -> bool {
    &&& q.len() == n
    &&& forall|i: int| 0 <= i < n ==> (#[trigger] q[i] matches Some(j) ==> 0 <= j < keys.len() && keys[j as int] == key(i))
    &&& forall|i: int| 0 <= i < n ==> (q[i] is Some <==> vis(i))
}

/// The exact palette is used when it has at most 256 colours.
pub open spec fn uses_exact(rgba: Seq<u8>, n: nat) -> bool {
    exact_palette(rgba, n).len() <= 256
}

/// The position of the first `x` in `s`.
pub open spec fn first_index<T>(s: Seq<T>, x: T) -> int
    decreases s.len(),
{
    if s.len() == 0 || s[0] == x {
        0
    } else {
        1 + first_index(s.drop_first(), x)
    }
}

/// The colour table of `n` pixels: the exact palette when it has at most
/// 256 colours, else the bucket colours.
pub open spec fn quant_palette(rgba: Seq<u8>, n: nat) -> Seq<SixelColor> {
    if uses_exact(rgba, n) {
        exact_palette(rgba, n)
    } else {
        bucket_palette(rgba, n).1
    }
}

/// The palette index of each of `n` pixels: none for a transparent pixel,
/// else the position of its colour (exact palette) or of its bucket.
pub open spec fn quant_indices(rgba: Seq<u8>, n: nat) -> Seq<Option<usize>> {
    Seq::new(
        n,
        |i: int|
            if !visible(rgba, i) {
                None
            } else if uses_exact(rgba, n) {
                Some(first_index(exact_palette(rgba, n), pixel_color(rgba, i)) as usize)
            } else {
                Some(first_index(bucket_palette(rgba, n).0, pixel_bucket(rgba, i)) as usize)
            },
    )
}

proof fn lemma_first_index<T>(s: Seq<T>, j: int)
    requires
        s.no_duplicates(),
        0 <= j < s.len(),
    ensures
        first_index(s, s[j]) == j,
    decreases s.len(),
{
    if j > 0 {
        assert(s[0] != s[j]);
        assert(s.drop_first()[j - 1] == s[j]);
        lemma_first_index(s.drop_first(), j - 1);
    }
}

proof fn lemma_indexes_by_unique<K>(q: Seq<Option<usize>>, n: nat, keys: Seq<K>, key: spec_fn(int) -> K, vis: spec_fn(int) -> bool, i: int)
    requires
        indexes_by(q, n, keys, key, vis),
        keys.no_duplicates(),
        0 <= i < n,
    ensures
        q[i] == (if vis(i) { Some(first_index(keys, key(i)) as usize) } else { None }),
{
    if vis(i) {
        let j = q[i]->0;
        lemma_first_index(keys, j as int);
    }
}

proof fn lemma_exact_palette_distinct(rgba: Seq<u8>, k: nat)
    ensures
        exact_palette(rgba, k).no_duplicates(),
    decreases k,
{
    if k > 0 {
        lemma_exact_palette_distinct(rgba, (k - 1) as nat);
    }
}

proof fn lemma_exact_palette_grows(rgba: Seq<u8>, k: nat, m: nat)
    requires
        k <= m,
    ensures
        exact_palette(rgba, k).len() <= exact_palette(rgba, m).len(),
        forall|j: int| 0 <= j < exact_palette(rgba, k).len() ==> exact_palette(rgba, m)[j] == exact_palette(rgba, k)[j],
    decreases m - k,
{
    if k < m {
        lemma_exact_palette_grows(rgba, k, (m - 1) as nat);
    }
}

proof fn lemma_exact_palette_covers(rgba: Seq<u8>, k: nat, i: int)
    requires
        0 <= i < k,
        visible(rgba, i),
    ensures
        exact_palette(rgba, k).contains(pixel_color(rgba, i)),
    decreases k,
{
    if i < k - 1 {
        lemma_exact_palette_covers(rgba, (k - 1) as nat, i);
        lemma_exact_palette_grows(rgba, (k - 1) as nat, k);
        let p = exact_palette(rgba, (k - 1) as nat);
        let j = choose|j: int| 0 <= j < p.len() && p[j] == pixel_color(rgba, i);
        assert(exact_palette(rgba, k)[j] == pixel_color(rgba, i));
    } else {
        let p = exact_palette(rgba, (k - 1) as nat);
        if p.contains(pixel_color(rgba, i)) {
            lemma_exact_palette_grows(rgba, (k - 1) as nat, k);
            let j = choose|j: int| 0 <= j < p.len() && p[j] == pixel_color(rgba, i);
            assert(exact_palette(rgba, k)[j] == pixel_color(rgba, i));
        } else {
            assert(exact_palette(rgba, k).last() == pixel_color(rgba, i));
        }
    }
}

/// With the exact palette, each drawn pixel (alpha at least 128) gets an
/// index whose colour is that pixel's own red, green and blue bytes, each
/// scaled to a Sixel intensity as `(100·x + 127) / 255`.
pub proof fn lemma_exact_entry_is_pixel_rgb(rgba: Seq<u8>, n: nat, i: int)
    requires
        0 <= i < n,
        rgba[i * 4 + 3] >= 128,
        exact_palette(rgba, n).len() <= 256,
    ensures
        quant_indices(rgba, n)[i] matches Some(j) && 0 <= j < quant_palette(rgba, n).len() && quant_palette(rgba, n)[j as int] == (
            ((rgba[i * 4] as int * 100 + 127) / 255) as u8,
            ((rgba[i * 4 + 1] as int * 100 + 127) / 255) as u8,
            ((rgba[i * 4 + 2] as int * 100 + 127) / 255) as u8,
        ),
{
    let p = exact_palette(rgba, n);
    lemma_exact_palette_covers(rgba, n, i);
    lemma_exact_palette_distinct(rgba, n);
    let j = choose|j: int| 0 <= j < p.len() && p[j] == pixel_color(rgba, i);
    lemma_first_index(p, j);
    assert(quant_indices(rgba, n)[i] == Some(j as usize));
}

/// A pixel gets a palette index exactly when its alpha is at least 128.
pub proof fn lemma_index_iff_opaque(rgba: Seq<u8>, n: nat, i: int)
    requires
        0 <= i < n,
    ensures
        quant_indices(rgba, n)[i] is Some <==> rgba[i * 4 + 3] >= 128,
{
}

/// The centre colour of a 3-3-2 bucket byte.
spec fn bucket_centre(bk: u8) -> SixelColor {
    (
        sixel_channel((bk & 0xE0) | 0x10),
        sixel_channel(((bk & 0x1C) << 3u8) | 0x10),
        sixel_channel(((bk & 0x03) << 6u8) | 0x20),
    )
}

proof fn lemma_bucket_bits(r: u8, g: u8, b: u8)
    ensures
        ({
            let bk: u8 = (r & 0xE0) | ((g & 0xE0) >> 3u8) | ((b & 0xC0) >> 6u8);
            &&& (bk & 0xE0) == (r & 0xE0)
            &&& ((bk & 0x1C) << 3u8) == (g & 0xE0)
            &&& ((bk & 0x03) << 6u8) == (b & 0xC0)
        }),
{
    assert({
        let bk: u8 = (r & 0xE0) | ((g & 0xE0) >> 3u8) | ((b & 0xC0) >> 6u8);
        &&& (bk & 0xE0) == (r & 0xE0)
        &&& ((bk & 0x1C) << 3u8) == (g & 0xE0)
        &&& ((bk & 0x03) << 6u8) == (b & 0xC0)
    }) by (bit_vector);
}

/// Each bucket colour of the table is the centre of its bucket.
proof fn lemma_bucket_colours_are_centres(rgba: Seq<u8>, k: nat)
    ensures
        bucket_palette(rgba, k).0.len() == bucket_palette(rgba, k).1.len(),
        forall|j: int| 0 <= j < bucket_palette(rgba, k).1.len() ==> #[trigger] bucket_palette(rgba, k).1[j] == bucket_centre(
            bucket_palette(rgba, k).0[j],
        ),
    decreases k,
{
    lemma_bucket_palette_props(rgba, k);
    if k > 0 {
        let i = k - 1;
        lemma_bucket_colours_are_centres(rgba, (k - 1) as nat);
        lemma_bucket_bits(rgba[i * 4], rgba[i * 4 + 1], rgba[i * 4 + 2]);
        assert(bucket_color(rgba, i) == bucket_centre(pixel_bucket(rgba, i)));
    }
}

/// Without the exact palette, each drawn pixel's colour is the centre of
/// its 3-3-2 bucket: red and green keep their top three bits with the next
/// bit set, blue its top two bits with the next bit set, each scaled to a
/// Sixel intensity as `(100·x + 127) / 255`.
pub proof fn lemma_bucket_entry_is_centre(rgba: Seq<u8>, n: nat, i: int)
    requires
        0 <= i < n,
        rgba[i * 4 + 3] >= 128,
        exact_palette(rgba, n).len() > 256,
    ensures
        quant_indices(rgba, n)[i] matches Some(j) && 0 <= j < quant_palette(rgba, n).len() && quant_palette(rgba, n)[j as int] == (
            ((((rgba[i * 4] & 0xE0) | 0x10) as int * 100 + 127) / 255) as u8,
            ((((rgba[i * 4 + 1] & 0xE0) | 0x10) as int * 100 + 127) / 255) as u8,
            ((((rgba[i * 4 + 2] & 0xC0) | 0x20) as int * 100 + 127) / 255) as u8,
        ),
{
    let bp = bucket_palette(rgba, n);
    lemma_bucket_palette_covers(rgba, n, i);
    lemma_bucket_palette_props(rgba, n);
    lemma_bucket_colours_are_centres(rgba, n);
    let j = choose|j: int| 0 <= j < bp.0.len() && bp.0[j] == pixel_bucket(rgba, i);
    lemma_first_index(bp.0, j);
    assert(quant_indices(rgba, n)[i] == Some(j as usize));
    assert(bp.1[j] == bucket_centre(bp.0[j]));
    let (r, g, b) = (rgba[i * 4], rgba[i * 4 + 1], rgba[i * 4 + 2]);
    lemma_bucket_bits(r, g, b);
    let pb = pixel_bucket(rgba, i);
    assert(pb == (r & 0xE0) | ((g & 0xE0) >> 3u8) | ((b & 0xC0) >> 6u8));
    assert((pb & 0xE0) == (r & 0xE0));
    assert(((pb & 0x1C) << 3u8) == (g & 0xE0));
    assert(((pb & 0x03) << 6u8) == (b & 0xC0));
    assert(quant_palette(rgba, n) == bp.1);
    lemma_bucket_count(rgba, n);
}

proof fn lemma_bucket_palette_props(rgba: Seq<u8>, k: nat)
    ensures
        bucket_palette(rgba, k).0.len() == bucket_palette(rgba, k).1.len(),
        bucket_palette(rgba, k).0.no_duplicates(),
    decreases k,
{
    if k > 0 {
        lemma_bucket_palette_props(rgba, (k - 1) as nat);
    }
}

proof fn lemma_bucket_palette_grows(rgba: Seq<u8>, k: nat, m: nat)
    requires
        k <= m,
    ensures
        bucket_palette(rgba, k).0.len() <= bucket_palette(rgba, m).0.len(),
        forall|j: int| 0 <= j < bucket_palette(rgba, k).0.len() ==> bucket_palette(rgba, m).0[j] == bucket_palette(rgba, k).0[j],
    decreases m - k,
{
    if k < m {
        lemma_bucket_palette_grows(rgba, k, (m - 1) as nat);
    }
}

proof fn lemma_bucket_palette_covers(rgba: Seq<u8>, k: nat, i: int)
    requires
        0 <= i < k,
        visible(rgba, i),
    ensures
        bucket_palette(rgba, k).0.contains(pixel_bucket(rgba, i)),
    decreases k,
{
    let p = bucket_palette(rgba, (k - 1) as nat).0;
    if i < k - 1 {
        lemma_bucket_palette_covers(rgba, (k - 1) as nat, i);
        lemma_bucket_palette_grows(rgba, (k - 1) as nat, k);
        let j = choose|j: int| 0 <= j < p.len() && p[j] == pixel_bucket(rgba, i);
        assert(bucket_palette(rgba, k).0[j] == pixel_bucket(rgba, i));
    } else if p.contains(pixel_bucket(rgba, i)) {
        lemma_bucket_palette_grows(rgba, (k - 1) as nat, k);
        let j = choose|j: int| 0 <= j < p.len() && p[j] == pixel_bucket(rgba, i);
        assert(bucket_palette(rgba, k).0[j] == pixel_bucket(rgba, i));
    } else {
        assert(bucket_palette(rgba, k).0.last() == pixel_bucket(rgba, i));
    }
}

fn find_color(palette: &Vec<SixelColor>, c: SixelColor) -> (r: Option<usize>)
    ensures
        match r {
            Some(j) => j < palette@.len() && palette@[j as int] == c,
            None => !palette@.contains(c),
        },
{
    let mut j: usize = 0;
    while j < palette.len()
        invariant
            j <= palette@.len(),
            forall|k: int| 0 <= k < j ==> palette@[k] != c,
        decreases palette@.len() - j,
    {
        let p = palette[j];
        if p.0 == c.0 && p.1 == c.1 && p.2 == c.2 {
            return Some(j);
        }
        j = j + 1;
    }
    None
}

fn find_bucket(buckets: &Vec<u8>, b: u8) -> (r: Option<usize>)
    ensures
        match r {
            Some(j) => j < buckets@.len() && buckets@[j as int] == b,
            None => !buckets@.contains(b),
        },
{
    let mut j: usize = 0;
    while j < buckets.len()
        invariant
            j <= buckets@.len(),
            forall|k: int| 0 <= k < j ==> buckets@[k] != b,
        decreases buckets@.len() - j,
    {
        if buckets[j] == b {
            return Some(j);
        }
        j = j + 1;
    }
    None
}

/// 3-3-2 fallback: each visible pixel indexes its bucket, buckets in order of
/// first appearance, each coloured by its centre.
pub fn quantize_332(width: u32, height: u32, rgba: &[u8]) -> (q: Quantized)
    requires
        width * height <= u32::MAX,
        rgba@.len() >= width * height * 4,
    ensures
        q.palette@ == bucket_palette(rgba@, (width * height) as nat).1,
        indexes_by(q.indices@, (width * height) as nat, bucket_palette(rgba@, (width * height) as nat).0,
            |i: int| pixel_bucket(rgba@, i), |i: int| visible(rgba@, i)),
{
    let n = (width * height) as usize;
    let _len = rgba.len();
    let mut buckets: Vec<u8> = Vec::new();
    let mut palette: Vec<SixelColor> = Vec::new();
    let mut indices: Vec<Option<usize>> = Vec::new();
    let mut i: usize = 0;
    while i < n
        invariant
            n == width * height,
            width * height <= u32::MAX,
            rgba@.len() >= n * 4,
            rgba@.len() <= usize::MAX,
            i <= n,
            buckets@ == bucket_palette(rgba@, i as nat).0,
            palette@ == bucket_palette(rgba@, i as nat).1,
            indexes_by(indices@, i as nat, buckets@, |k: int| pixel_bucket(rgba@, k), |k: int| visible(rgba@, k)),
        decreases n - i,
    {
        proof {
            lemma_bucket_palette_props(rgba@, i as nat);
        }
        let a = rgba[i * 4 + 3];
        if a < ALPHA_THRESHOLD {
            indices.push(None);
        } else {
            let r = rgba[i * 4];
            let g = rgba[i * 4 + 1];
            let b = rgba[i * 4 + 2];
            let bucket = (r & 0xE0) | ((g & 0xE0) >> 3) | ((b & 0xC0) >> 6);
            let idx = match find_bucket(&buckets, bucket) {
                Some(j) => j,
                None => {
                    buckets.push(bucket);
                    palette.push((to_sixel_channel((r & 0xE0) | 0x10), to_sixel_channel((g & 0xE0) | 0x10), to_sixel_channel((b & 0xC0) | 0x20)));
                    buckets.len() - 1
                },
            };
            indices.push(Some(idx));
        }
        proof {
            let k = i as int;
            assert(buckets@ == bucket_palette(rgba@, (i + 1) as nat).0);
            assert(palette@ == bucket_palette(rgba@, (i + 1) as nat).1);
            assert forall|m: int| 0 <= m < i + 1 implies (#[trigger] indices@[m] matches Some(j) ==> 0 <= j < buckets@.len() && buckets@[j as int] == pixel_bucket(rgba@, m)) by {
                if m < k {
                    lemma_bucket_palette_grows(rgba@, i as nat, (i + 1) as nat);
                }
            }
        }
        i = i + 1;
    }
    Quantized { palette, indices }
}

/// Quantize `width × height` pixels: the exact palette when the visible
/// pixels have at most 256 distinct colours, else the 3-3-2 buckets.
pub fn quantize(width: u32, height: u32, rgba: &[u8]) -> (q: Quantized)
    requires
        width * height <= u32::MAX,
        rgba@.len() >= width * height * 4,
    ensures
        q.palette@ == quant_palette(rgba@, (width * height) as nat),
        q.indices@ == quant_indices(rgba@, (width * height) as nat),
        q.palette@.len() <= 256,
        forall|i: int| 0 <= i < q.indices@.len() ==> (#[trigger] q.indices@[i] matches Some(j) ==> j < q.palette@.len()),
{
    let n = (width * height) as usize;
    let _len = rgba.len();
    let mut palette: Vec<SixelColor> = Vec::new();
    let mut indices: Vec<Option<usize>> = Vec::new();
    let mut i: usize = 0;
    while i < n
        invariant
            n == width * height,
            width * height <= u32::MAX,
            rgba@.len() >= n * 4,
            rgba@.len() <= usize::MAX,
            i <= n,
            palette@ == exact_palette(rgba@, i as nat),
            palette@.len() <= 256,
            indexes_by(indices@, i as nat, palette@, |k: int| pixel_color(rgba@, k), |k: int| visible(rgba@, k)),
        decreases n - i,
    {
        let a = rgba[i * 4 + 3];
        if a < ALPHA_THRESHOLD {
            indices.push(None);
        } else {
            let c = (to_sixel_channel(rgba[i * 4]), to_sixel_channel(rgba[i * 4 + 1]), to_sixel_channel(rgba[i * 4 + 2]));
            let idx = match find_color(&palette, c) {
                Some(j) => j,
                None => {
                    palette.push(c);
                    palette.len() - 1
                },
            };
            indices.push(Some(idx));
        }
        proof {
            let k = i as int;
            assert(palette@ == exact_palette(rgba@, (i + 1) as nat));
            assert forall|m: int| 0 <= m < i + 1 implies (#[trigger] indices@[m] matches Some(j) ==> 0 <= j < palette@.len() && palette@[j as int] == pixel_color(rgba@, m)) by {
                if m < k {
                    lemma_exact_palette_grows(rgba@, i as nat, (i + 1) as nat);
                }
            }
        }
        i = i + 1;
        if palette.len() > 256 {
            proof {
                lemma_exact_palette_grows(rgba@, i as nat, n as nat);
            }
            let q = quantize_332(width, height, rgba);
            proof {
                lemma_bucket_palette_props(rgba@, n as nat);
                lemma_bucket_count(rgba@, n as nat);
                assert forall|m: int| 0 <= m < n implies q.indices@[m] == quant_indices(rgba@, n as nat)[m] by {
                    lemma_indexes_by_unique(q.indices@, n as nat, bucket_palette(rgba@, n as nat).0,
                        |i: int| pixel_bucket(rgba@, i), |i: int| visible(rgba@, i), m);
                }
                assert(q.indices@ =~= quant_indices(rgba@, n as nat));
            }
            return q;
        }
    }
    proof {
        lemma_exact_palette_distinct(rgba@, n as nat);
        assert forall|m: int| 0 <= m < n implies indices@[m] == quant_indices(rgba@, n as nat)[m] by {
            lemma_indexes_by_unique(indices@, n as nat, palette@,
                |i: int| pixel_color(rgba@, i), |i: int| visible(rgba@, i), m);
        }
        assert(indices@ =~= quant_indices(rgba@, n as nat));
    }
    Quantized { palette, indices }
}

/// There are at most 256 buckets.
proof fn lemma_bucket_count(rgba: Seq<u8>, k: nat)
    ensures
        bucket_palette(rgba, k).1.len() <= 256,
{
    lemma_bucket_palette_props(rgba, k);
    let b = bucket_palette(rgba, k).0;
    let bi = b.map_values(|x: u8| x as int);
    assert forall|i: int, j: int| 0 <= i < bi.len() && 0 <= j < bi.len() && i != j implies bi[i] != bi[j] by {
        assert(b[i] != b[j]);
    }
    assert(bi.no_duplicates());
    bi.unique_seq_to_set();
    vstd::set_lib::lemma_int_range(0, 256);
    assert(bi.to_set().subset_of(vstd::set_lib::set_int_range(0, 256)));
    vstd::set_lib::lemma_len_subset(bi.to_set(), vstd::set_lib::set_int_range(0, 256));
}

/// The weight of row `dy` of a band in a sixel: `2^dy`.
pub open spec fn row_bit(dy: nat) -> int
    decreases dy,
{
    if dy == 0 {
        1
    } else {
        2 * row_bit((dy - 1) as nat)
    }
}

/// Pixel `(x, y)` is drawn with palette entry `c`.
pub open spec fn painted(idx: Seq<Option<usize>>, w: int, h: int, x: int, y: int, c: usize) -> bool {
    0 <= y < h && idx[y * w + x] == Some(c)
}

/// The bits of column `x` in the band starting at row `y0` for colour `c`,
/// counting the first `d` rows of the band.
pub open spec fn column_bits(idx: Seq<Option<usize>>, w: int, h: int, y0: int, x: int, c: usize, d: nat) -> int
    decreases d,
{
    if d == 0 {
        0
    } else {
        column_bits(idx, w, h, y0, x, c, (d - 1) as nat) + if painted(idx, w, h, x, y0 + d - 1, c) {
            row_bit((d - 1) as nat)
        } else {
            0
        }
    }
}

/// The sixel characters of colour `c` across the band at `y0`: one per
/// column, `0x3F` plus the column's six bits.
pub open spec fn band_row(idx: Seq<Option<usize>>, w: int, h: int, y0: int, c: usize) -> Seq<u8> {
    Seq::new(w as nat, |x: int| (0x3F + column_bits(idx, w, h, y0, x, c, 6)) as u8)
}

/// Colour `c` is drawn somewhere in the band at `y0`.
pub open spec fn band_has(idx: Seq<Option<usize>>, w: int, h: int, y0: int, c: usize) -> bool {
    exists|x: int, dy: int| 0 <= x < w && 0 <= dy < 6 && #[trigger] painted(idx, w, h, x, y0 + dy, c)
}

/// The colours below `k` drawn in the band at `y0`, ascending.
pub open spec fn band_colors(idx: Seq<Option<usize>>, w: int, h: int, y0: int, k: nat) -> Seq<usize>
    decreases k,
{
    if k == 0 {
        Seq::empty()
    } else {
        let rest = band_colors(idx, w, h, y0, (k - 1) as nat);
        if band_has(idx, w, h, y0, (k - 1) as usize) {
            rest.push((k - 1) as usize)
        } else {
            rest
        }
    }
}

/// The length of the run of equal bytes starting at `p`.
pub open spec fn run_at(s: Seq<u8>, p: int) -> int
    decreases s.len() - p,
{
    if 0 <= p && p + 1 < s.len() && s[p + 1] == s[p] {
        1 + run_at(s, p + 1)
    } else {
        1
    }
}

/// A run is at least one byte long and ends inside the bytes.
pub proof fn lemma_run_at_positive(s: Seq<u8>, p: int)
    ensures
        run_at(s, p) >= 1,
        0 <= p < s.len() ==> p + run_at(s, p) <= s.len(),
    decreases s.len() - p,
{
    if 0 <= p && p + 1 < s.len() && s[p + 1] == s[p] {
        lemma_run_at_positive(s, p + 1);
    }
}

/// One run of `count` copies of `ch`: `!<count><ch>` from four on, the
/// bytes themselves below that.
pub open spec fn rle_run(ch: u8, count: nat) -> Seq<u8> {
    if count >= 4 {
        seq![0x21u8] + decimal(count) + seq![ch]
    } else {
        Seq::new(count, |i: int| ch)
    }
}

/// Run-length coding of `s` from position `p`, run by run.
pub open spec fn rle_from(s: Seq<u8>, p: int) -> Seq<u8>
    decreases s.len() - p,
{
    if p < 0 || p >= s.len() {
        Seq::empty()
    } else {
        proof {
            lemma_run_at_positive(s, p);
        }
        rle_run(s[p], run_at(s, p) as nat) + rle_from(s, p + run_at(s, p))
    }
}

/// One colour of a band: select the register, then its run-coded sixels.
pub open spec fn color_block(idx: Seq<Option<usize>>, w: int, h: int, y0: int, c: usize) -> Seq<u8> {
    seq![0x23u8] + decimal(c as nat) + rle_from(band_row(idx, w, h, y0, c), 0)
}

/// The first `k` colour blocks of `cs`, separated by `$` (back to the band
/// start).
pub open spec fn color_blocks(idx: Seq<Option<usize>>, w: int, h: int, y0: int, cs: Seq<usize>, k: nat) -> Seq<u8>
    decreases k,
{
    if k == 0 {
        Seq::empty()
    } else {
        color_blocks(idx, w, h, y0, cs, (k - 1) as nat) + (if k >= 2 { seq![0x24u8] } else { Seq::empty() })
            + color_block(idx, w, h, y0, cs[k - 1])
    }
}

/// Band `b` (rows `6b` to `6b + 5`): the blocks of its colours.
pub open spec fn band_text(idx: Seq<Option<usize>>, w: int, h: int, np: nat, b: int) -> Seq<u8> {
    let cs = band_colors(idx, w, h, 6 * b, np);
    color_blocks(idx, w, h, 6 * b, cs, cs.len())
}

/// The first `k` bands, separated by `-` (next band).
pub open spec fn bands_text(idx: Seq<Option<usize>>, w: int, h: int, np: nat, k: nat) -> Seq<u8>
    decreases k,
{
    if k == 0 {
        Seq::empty()
    } else {
        bands_text(idx, w, h, np, (k - 1) as nat) + (if k >= 2 { seq![0x2du8] } else { Seq::empty() })
            + band_text(idx, w, h, np, k - 1)
    }
}

/// The colour registers `#<i>;2;<r>;<g>;<b>` of the first `k` palette
/// entries.
pub open spec fn registers(pal: Seq<SixelColor>, k: nat) -> Seq<u8>
    decreases k,
{
    if k == 0 {
        Seq::empty()
    } else {
        let (r, g, b) = pal[k - 1];
        registers(pal, (k - 1) as nat) + seq![0x23u8] + decimal((k - 1) as nat) + ascii(";2;"@) + decimal(r as nat)
            + ascii(";"@) + decimal(g as nat) + ascii(";"@) + decimal(b as nat)
    }
}

/// The number of six-row bands covering `h` rows.
pub open spec fn band_count(h: u32) -> nat {
    (h / 6 + if h % 6 == 0 { 0int } else { 1int }) as nat
}

/// The complete Sixel string: DCS header (transparent background), raster
/// attributes, the colour registers, the bands, and the string terminator.
pub open spec fn sixel_image(width: u32, height: u32, pal: Seq<SixelColor>, idx: Seq<Option<usize>>) -> Seq<u8> {
    ascii("\x1bP0;1;0q"@) + ascii("\"1;1;"@) + decimal(width as nat) + ascii(";"@) + decimal(height as nat)
        + registers(pal, pal.len()) + bands_text(idx, width as int, height as int, pal.len(), band_count(height))
        + ascii("\x1b\\"@)
}

/// Append one run: `!<count><ch>` for four or more, else the bytes.
fn emit_rle(out: &mut Vec<u8>, ch: u8, count: usize)
    ensures
        final(out)@ == old(out)@ + rle_run(ch, count as nat),
{
    if count >= 4 {
        out.push(0x21);
        push_decimal(out, count as u64);
        out.push(ch);
        assert(out@ =~= old(out)@ + rle_run(ch, count as nat));
    } else {
        let mut k: usize = 0;
        while k < count
            invariant
                k <= count,
                count < 4,
                out@ == old(out)@ + Seq::new(k as nat, |i: int| ch),
            decreases count - k,
        {
            out.push(ch);
            k = k + 1;
            assert(out@ =~= old(out)@ + Seq::new(k as nat, |i: int| ch));
        }
    }
}

proof fn lemma_run_at_eq(s: Seq<u8>, p: int, k: int)
    requires
        0 <= p,
        1 <= k,
        p + k <= s.len(),
        forall|j: int| p <= j < p + k ==> s[j] == s[p],
        p + k == s.len() || s[p + k] != s[p],
    ensures
        run_at(s, p) == k,
    decreases k,
{
    if k > 1 {
        assert(s[p + 1] == s[p]);
        lemma_run_at_eq(s, p + 1, k - 1);
    }
}

/// Append the run-length coding of `s`.
fn push_rle(out: &mut Vec<u8>, s: &Vec<u8>)
    ensures
        final(out)@ == old(out)@ + rle_from(s@, 0),
{
    let n = s.len();
    let mut p: usize = 0;
    while p < n
        invariant
            n == s@.len(),
            p <= n,
            old(out)@ + rle_from(s@, 0) == out@ + rle_from(s@, p as int),
        decreases n - p,
    {
        let ch = s[p];
        let mut k: usize = 1;
        while p + k < n && s[p + k] == ch
            invariant
                n == s@.len(),
                p < n,
                1 <= k,
                p + k <= n,
                ch == s@[p as int],
                forall|j: int| p <= j < p + k ==> s@[j] == ch,
            decreases n - p - k,
        {
            k = k + 1;
        }
        proof {
            lemma_run_at_eq(s@, p as int, k as int);
        }
        emit_rle(out, ch, k);
        assert(rle_from(s@, p as int) == rle_run(ch, k as nat) + rle_from(s@, (p + k) as int));
        p = p + k;
    }
    assert(out@ + rle_from(s@, p as int) =~= out@);
}

proof fn lemma_column_bits_bound(idx: Seq<Option<usize>>, w: int, h: int, y0: int, x: int, c: usize, d: nat)
    ensures
        0 <= column_bits(idx, w, h, y0, x, c, d) < row_bit(d),
    decreases d,
{
    if d > 0 {
        lemma_column_bits_bound(idx, w, h, y0, x, c, (d - 1) as nat);
    }
}

/// Row `y` of a `w`-wide grid starts `y * w` cells in.
proof fn lemma_cell_in_grid(x: int, y: int, w: int, h: int)
    requires
        0 <= x < w,
        0 <= y < h,
    ensures
        0 <= y * w + x < h * w,
{
    assert(y * w + x < h * w) by (nonlinear_arith)
        requires
            0 <= x < w,
            0 <= y < h,
    ;
    assert(0 <= y * w) by (nonlinear_arith)
        requires
            0 <= y,
            0 <= w,
    ;
}

/// The sixel characters of colour `c` across the band at `y0`.
fn build_band_row(idx: &Vec<Option<usize>>, w: usize, h: usize, y0: usize, c: usize) -> (row: Vec<u8>)
    requires
        idx@.len() == h * w,
        y0 <= h,
        h <= u32::MAX,
    ensures
        row@ == band_row(idx@, w as int, h as int, y0 as int, c),
{
    let _n = idx.len();
    let mut row: Vec<u8> = Vec::new();
    let mut x: usize = 0;
    while x < w
        invariant
            idx@.len() == h * w,
            idx@.len() <= usize::MAX,
            y0 <= h,
            h <= u32::MAX,
            x <= w,
            row@ == band_row(idx@, w as int, h as int, y0 as int, c).take(x as int),
        decreases w - x,
    {
        let mut bits: u8 = 0;
        let mut bit: u8 = 1;
        let mut dy: usize = 0;
        while dy < 6
            invariant
                idx@.len() == h * w,
                idx@.len() <= usize::MAX,
                y0 <= h,
                h <= u32::MAX,
                x < w,
                dy <= 6,
                bits == column_bits(idx@, w as int, h as int, y0 as int, x as int, c, dy as nat),
                bit == row_bit(dy as nat),
            decreases 6 - dy,
        {
            proof {
                lemma_column_bits_bound(idx@, w as int, h as int, y0 as int, x as int, c, dy as nat);
                lemma_column_bits_bound(idx@, w as int, h as int, y0 as int, x as int, c, (dy + 1) as nat);
                assert(row_bit(dy as nat) <= 32) by {
                    reveal_with_fuel(row_bit, 7);
                }
            }
            if (y0 as u64) + (dy as u64) < h as u64 {
                let y = y0 + dy;
                proof {
                    lemma_cell_in_grid(x as int, y as int, w as int, h as int);
                }
                let hit = match idx[y * w + x] {
                    Some(j) => j == c,
                    None => false,
                };
                if hit {
                    bits = bits + bit;
                }
            }
            bit = bit * 2;
            dy = dy + 1;
        }
        proof {
            lemma_column_bits_bound(idx@, w as int, h as int, y0 as int, x as int, c, 6);
            assert(row_bit(6) == 64) by {
                reveal_with_fuel(row_bit, 7);
            }
        }
        row.push(0x3F + bits);
        x = x + 1;
        assert(row@ =~= band_row(idx@, w as int, h as int, y0 as int, c).take(x as int));
    }
    assert(row@ =~= band_row(idx@, w as int, h as int, y0 as int, c));
    row
}

/// The palette entries drawn in the band at `y0`, ascending.
fn colors_in_band(idx: &Vec<Option<usize>>, w: usize, h: usize, y0: usize, np: usize) -> (cs: Vec<usize>)
    requires
        idx@.len() == h * w,
        y0 <= h,
        h <= u32::MAX,
        forall|i: int| 0 <= i < idx@.len() ==> (#[trigger] idx@[i] matches Some(j) ==> j < np),
    ensures
        cs@ == band_colors(idx@, w as int, h as int, y0 as int, np as nat),
{
    let _n = idx.len();
    let mut seen: Vec<bool> = Vec::new();
    let mut k: usize = 0;
    while k < np
        invariant
            k <= np,
            seen@.len() == k,
            forall|c: int| 0 <= c < k ==> !seen@[c],
        decreases np - k,
    {
        seen.push(false);
        k = k + 1;
    }
    let mut dy: usize = 0;
    while dy < 6
        invariant
            idx@.len() == h * w,
            idx@.len() <= usize::MAX,
            y0 <= h,
            h <= u32::MAX,
            forall|i: int| 0 <= i < idx@.len() ==> (#[trigger] idx@[i] matches Some(j) ==> j < np),
            dy <= 6,
            seen@.len() == np,
            forall|c: int| 0 <= c < np ==> (seen@[c] <==> exists|x: int, d: int| 0 <= x < w && 0 <= d < dy
                && #[trigger] painted(idx@, w as int, h as int, x, y0 + d, c as usize)),
        decreases 6 - dy,
    {
        let mut x: usize = 0;
        while x < w
            invariant
                idx@.len() == h * w,
                idx@.len() <= usize::MAX,
                y0 <= h,
                h <= u32::MAX,
                forall|i: int| 0 <= i < idx@.len() ==> (#[trigger] idx@[i] matches Some(j) ==> j < np),
                dy < 6,
                x <= w,
                seen@.len() == np,
                forall|c: int| 0 <= c < np ==> (seen@[c] <==> exists|x2: int, d: int|
                    ((0 <= x2 < w && 0 <= d < dy) || (0 <= x2 < x && d == dy))
                    && #[trigger] painted(idx@, w as int, h as int, x2, y0 + d, c as usize)),
            decreases w - x,
        {
            let ghost before = seen@;
            if (y0 as u64) + (dy as u64) < h as u64 {
                let y = y0 + dy;
                proof {
                    lemma_cell_in_grid(x as int, y as int, w as int, h as int);
                }
                match idx[y * w + x] {
                    Some(j) => {
                        seen.set(j, true);
                    },
                    None => {},
                }
            }
            proof {
                assert forall|c: int| 0 <= c < np implies (seen@[c] <==> exists|x2: int, d: int|
                    ((0 <= x2 < w && 0 <= d < dy) || (0 <= x2 < x + 1 && d == dy))
                    && #[trigger] painted(idx@, w as int, h as int, x2, y0 + d, c as usize)) by {
                    if seen@[c] && !before[c] {
                        assert(painted(idx@, w as int, h as int, x as int, y0 + dy, c as usize));
                    }
                    if !seen@[c] {
                        assert(!painted(idx@, w as int, h as int, x as int, y0 + dy, c as usize));
                    }
                }
            }
            x = x + 1;
        }
        proof {
            assert forall|c: int| 0 <= c < np implies (seen@[c] <==> exists|x2: int, d: int| 0 <= x2 < w && 0 <= d < dy + 1
                && #[trigger] painted(idx@, w as int, h as int, x2, y0 + d, c as usize)) by {
                if seen@[c] {
                    let (x2, d) = choose|x2: int, d: int| ((0 <= x2 < w && 0 <= d < dy) || (0 <= x2 < w && d == dy))
                        && #[trigger] painted(idx@, w as int, h as int, x2, y0 + d, c as usize);
                    assert(painted(idx@, w as int, h as int, x2, y0 + d, c as usize));
                }
                if exists|x2: int, d: int| 0 <= x2 < w && 0 <= d < dy + 1
                    && #[trigger] painted(idx@, w as int, h as int, x2, y0 + d, c as usize) {
                    let (x2, d) = choose|x2: int, d: int| 0 <= x2 < w && 0 <= d < dy + 1
                        && #[trigger] painted(idx@, w as int, h as int, x2, y0 + d, c as usize);
                    assert(painted(idx@, w as int, h as int, x2, y0 + d, c as usize));
                }
            }
        }
        dy = dy + 1;
    }
    let mut cs: Vec<usize> = Vec::new();
    let mut c: usize = 0;
    while c < np
        invariant
            c <= np,
            seen@.len() == np,
            forall|c2: int| 0 <= c2 < np ==> (seen@[c2] == band_has(idx@, w as int, h as int, y0 as int, c2 as usize)),
            cs@ == band_colors(idx@, w as int, h as int, y0 as int, c as nat),
        decreases np - c,
    {
        if seen[c] {
            cs.push(c);
        }
        c = c + 1;
    }
    cs
}

/// Append the colour registers of the palette.
fn push_registers(out: &mut Vec<u8>, pal: &Vec<SixelColor>)
    ensures
        final(out)@ == old(out)@ + registers(pal@, pal@.len()),
{
    proof {
        reveal_strlit(";2;");
        reveal_strlit(";");
    }
    let mut i: usize = 0;
    while i < pal.len()
        invariant
            i <= pal@.len(),
            out@ == old(out)@ + registers(pal@, i as nat),
        decreases pal@.len() - i,
    {
        let (r, g, b) = pal[i];
        let ghost before = out@;
        proof {
            reveal_strlit(";2;");
            reveal_strlit(";");
        }
        out.push(0x23);
        push_decimal(out, i as u64);
        push_ascii(out, ";2;");
        push_decimal(out, r as u64);
        push_ascii(out, ";");
        push_decimal(out, g as u64);
        push_ascii(out, ";");
        push_decimal(out, b as u64);
        i = i + 1;
        assert(out@ =~= old(out)@ + registers(pal@, i as nat));
    }
}

/// Append band `band` (its colour blocks).
fn push_band(out: &mut Vec<u8>, idx: &Vec<Option<usize>>, w: usize, h: usize, np: usize, band: usize)
    requires
        idx@.len() == h * w,
        6 * band <= h,
        h <= u32::MAX,
        forall|i: int| 0 <= i < idx@.len() ==> (#[trigger] idx@[i] matches Some(j) ==> j < np),
    ensures
        final(out)@ == old(out)@ + band_text(idx@, w as int, h as int, np as nat, band as int),
{
    let y0 = band * 6;
    let cs = colors_in_band(idx, w, h, y0, np);
    let ghost base = out@;
    let mut ci: usize = 0;
    while ci < cs.len()
        invariant
            idx@.len() == h * w,
            y0 == 6 * band,
            y0 <= h,
            h <= u32::MAX,
            ci <= cs@.len(),
            out@ == base + color_blocks(idx@, w as int, h as int, y0 as int, cs@, ci as nat),
        decreases cs@.len() - ci,
    {
        let ghost before = out@;
        if ci >= 1 {
            out.push(0x24);
        }
        let color = cs[ci];
        out.push(0x23);
        push_decimal(out, color as u64);
        let row = build_band_row(idx, w, h, y0, color);
        push_rle(out, &row);
        ci = ci + 1;
        assert(out@ =~= base + color_blocks(idx@, w as int, h as int, y0 as int, cs@, ci as nat));
    }
}

/// Encode RGBA8 pixels (`width × height`, row-major) as a complete Sixel
/// string.
pub fn encode_sixel(width: u32, height: u32, rgba: &[u8]) -> (out: Vec<u8>)
    requires
        width * height <= u32::MAX,
        rgba@.len() >= width * height * 4,
    ensures
        out@ == sixel_image(width, height, quant_palette(rgba@, (width * height) as nat),
            quant_indices(rgba@, (width * height) as nat)),
{
    proof {
        reveal_strlit("\x1bP0;1;0q");
        reveal_strlit("\"1;1;");
        reveal_strlit(";");
        reveal_strlit("\x1b\\");
    }
    let q = quantize(width, height, rgba);
    let w = width as usize;
    let h = height as usize;
    assert(q.indices@.len() == h * w) by (nonlinear_arith)
        requires
            q.indices@.len() == width * height,
            w == width,
            h == height,
    ;
    let np = q.palette.len();
    let mut out: Vec<u8> = Vec::new();
    push_ascii(&mut out, "\x1bP0;1;0q");
    push_ascii(&mut out, "\"1;1;");
    push_decimal(&mut out, width as u64);
    push_ascii(&mut out, ";");
    push_decimal(&mut out, height as u64);
    push_registers(&mut out, &q.palette);
    let ghost head = out@;
    let bands: usize = (height / 6 + if height % 6 == 0 { 0 } else { 1 }) as usize;
    let mut band: usize = 0;
    while band < bands
        invariant
            q.indices@.len() == h * w,
            h == height,
            h <= u32::MAX,
            np == q.palette@.len(),
            bands == band_count(height),
            forall|i: int| 0 <= i < q.indices@.len() ==> (#[trigger] q.indices@[i] matches Some(j) ==> j < np),
            band <= bands,
            out@ == head + bands_text(q.indices@, w as int, h as int, np as nat, band as nat),
        decreases bands - band,
    {
        let ghost before = out@;
        if band >= 1 {
            out.push(0x2d);
        }
        push_band(&mut out, &q.indices, w, h, np, band);
        band = band + 1;
        assert(out@ =~= head + bands_text(q.indices@, w as int, h as int, np as nat, band as nat));
    }
    push_ascii(&mut out, "\x1b\\");
    assert(out@ =~= sixel_image(width, height, quant_palette(rgba@, (width * height) as nat),
        quant_indices(rgba@, (width * height) as nat)));
    out
}

} // verus!
