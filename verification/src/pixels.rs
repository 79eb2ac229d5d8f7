//! Bookkeeping over interleaved RGBA images: four bytes per pixel, in the
//! order red, green, blue, alpha. Trailing bytes that do not form a whole
//! pixel are carried along untouched.
use vstd::prelude::*;
use vstd::slice::slice_to_vec;

verus! {

/// Number of whole pixels in an RGBA buffer of `len` bytes.
pub open spec fn pixel_count(len: int) -> int {
    len / 4
}

/// Sum of channel `c` (0 red, 1 green, 2 blue) over the first `n` pixels.
pub open spec fn channel_total(rgba: Seq<u8>, c: int, n: nat) -> int
    decreases n,
{
    if n == 0 {
        0
    } else {
        channel_total(rgba, c, (n - 1) as nat) + rgba[4 * (n - 1) + c] as int
    }
}

/// Byte `k` of an image whose colour channels were replaced by `rgb`
/// (three bytes per pixel) while alpha and trailing bytes are kept.
pub open spec fn recoloured_byte(rgba: Seq<u8>, rgb: Seq<u8>, k: int) -> u8 {
    if k < 4 * pixel_count(rgba.len() as int) && k % 4 < 3 {
        rgb[3 * (k / 4) + k % 4]
    } else {
        rgba[k]
    }
}

/// Each channel total is at most 255 per pixel, so every channel mean lies
/// within the byte range.
pub proof fn lemma_channel_total_bound(rgba: Seq<u8>, c: int, n: nat)
    requires
        0 <= c < 4,
        4 * n <= rgba.len(),
    ensures
        0 <= channel_total(rgba, c, n) <= 255 * n,
    decreases n,
{
    if n > 0 {
        lemma_channel_total_bound(rgba, c, (n - 1) as nat);
    }
}

/// Sums of the red, green and blue bytes over all whole pixels of `rgba`:
/// the exact integer totals from which the image's channel means and
/// deviations are taken.
pub fn channel_sums(rgba: &[u8]) -> (sums: [u128; 3])
    ensures
        sums@[0] == channel_total(rgba@, 0, pixel_count(rgba@.len() as int) as nat),
        sums@[1] == channel_total(rgba@, 1, pixel_count(rgba@.len() as int) as nat),
        sums@[2] == channel_total(rgba@, 2, pixel_count(rgba@.len() as int) as nat),
{
    let len = rgba.len();
    let n = len / 4;
    let mut sr: u128 = 0;
    let mut sg: u128 = 0;
    let mut sb: u128 = 0;
    let mut i: usize = 0;
    while i < n
        invariant
            n == pixel_count(rgba@.len() as int),
            len == rgba@.len(),
            4 * n <= len,
            i <= n,
            sr == channel_total(rgba@, 0, i as nat),
            sg == channel_total(rgba@, 1, i as nat),
            sb == channel_total(rgba@, 2, i as nat),
        decreases n - i,
    {
        proof {
            lemma_channel_total_bound(rgba@, 0, i as nat);
            lemma_channel_total_bound(rgba@, 1, i as nat);
            lemma_channel_total_bound(rgba@, 2, i as nat);
        }
        sr = sr + rgba[i * 4] as u128;
        sg = sg + rgba[i * 4 + 1] as u128;
        sb = sb + rgba[i * 4 + 2] as u128;
        i = i + 1;
    }
    [sr, sg, sb]
}

/// A copy of `rgba` whose red, green and blue bytes are replaced, pixel by
/// pixel, by the three bytes of `rgb`; alpha and any trailing bytes are kept.
pub fn recolour(rgba: &[u8], rgb: &[u8]) -> (out: Vec<u8>)
    requires
        rgb@.len() == 3 * pixel_count(rgba@.len() as int),
    ensures
        out@.len() == rgba@.len(),
        forall|k: int| 0 <= k < rgba@.len() ==> out@[k] == #[trigger] recoloured_byte(rgba@, rgb@, k),
        forall|k: int|
            0 <= k < 4 * (rgba@.len() / 4) && k % 4 < 3 ==> #[trigger] out@[k] == rgb@[3 * (k / 4)
                + k % 4],
        forall|k: int|
            0 <= k < rgba@.len() && (k % 4 == 3 || k >= 4 * (rgba@.len() / 4)) ==> #[trigger] out@[k]
                == rgba@[k],
{
    let mut out = slice_to_vec(rgba);
    let len = rgba.len();
    let n = len / 4;
    let mut i: usize = 0;
    while i < n
        invariant
            n == pixel_count(rgba@.len() as int),
            len == rgba@.len(),
            4 * n <= len,
            rgb@.len() == 3 * n,
            i <= n,
            out@.len() == rgba@.len(),
            forall|k: int|
                0 <= k < rgba@.len() ==> #[trigger] out@[k] == (if k < 4 * i {
                    recoloured_byte(rgba@, rgb@, k)
                } else {
                    rgba@[k]
                }),
        decreases n - i,
    {
        let ghost before = out@;
        out.set(i * 4, rgb[i * 3]);
        out.set(i * 4 + 1, rgb[i * 3 + 1]);
        out.set(i * 4 + 2, rgb[i * 3 + 2]);
        assert forall|k: int| 0 <= k < rgba@.len() implies #[trigger] out@[k] == (if k < 4 * (i + 1) {
            recoloured_byte(rgba@, rgb@, k)
        } else {
            rgba@[k]
        }) by {
            if 4 * i <= k < 4 * i + 4 {
                assert(k / 4 == i);
                assert(k % 4 == k - 4 * i);
                assert(k < 4 * pixel_count(rgba@.len() as int));
                if k == 4 * i + 3 {
                    assert(out@[k] == before[k]);
                }
            } else {
                assert(out@[k] == before[k]);
            }
        }
        i = i + 1;
    }
    out
}

/// Recolouring puts the three bytes of pixel `i` of `rgb` into the colour
/// bytes of pixel `i`, for every whole pixel, and keeps every other byte.
pub proof fn lemma_recoloured_byte(rgba: Seq<u8>, rgb: Seq<u8>, k: int)
    requires
        0 <= k < rgba.len(),
    ensures
        k < 4 * (rgba.len() / 4) && k % 4 < 3 ==> recoloured_byte(rgba, rgb, k) == rgb[3 * (k
            / 4) + k % 4],
        k >= 4 * (rgba.len() / 4) || k % 4 == 3 ==> recoloured_byte(rgba, rgb, k) == rgba[k],
{
}

/// A channel total starts at zero and each further pixel adds its byte of
/// that channel: byte `4 * n + c` for pixel `n`.
pub proof fn lemma_channel_total_step(rgba: Seq<u8>, c: int, n: nat)
    ensures
        channel_total(rgba, c, 0) == 0,
        channel_total(rgba, c, n + 1) == channel_total(rgba, c, n) + rgba[4 * n + c],
{
}

/// Recolouring leaves every alpha byte, and every byte after the last whole
/// pixel, as it was.
pub proof fn lemma_recolour_keeps_alpha(rgba: Seq<u8>, rgb: Seq<u8>, k: int)
    requires
        0 <= k < rgba.len(),
        k % 4 == 3 || k >= 4 * pixel_count(rgba.len() as int),
    ensures
        recoloured_byte(rgba, rgb, k) == rgba[k],
{
}

} // verus!
