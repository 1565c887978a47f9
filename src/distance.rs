//! Squared Euclidean distance between two images in raw sample space.

use vstd::prelude::*;
use crate::raster::Raster;

verus! {

/// Sum over the first `n` positions of the squared difference of samples.
pub open spec fn sq_dist_upto(a: Seq<u8>, b: Seq<u8>, n: int) -> int
    decreases n,
{
    if n <= 0 {
        0
    } else {
        sq_dist_upto(a, b, n - 1) + (a[n - 1] - b[n - 1]) * (a[n - 1] - b[n - 1])
    }
}

/// Squared Euclidean distance between two equally long sample sequences.
pub open spec fn sq_dist(a: Seq<u8>, b: Seq<u8>) -> int {
    sq_dist_upto(a, b, a.len() as int)
}

proof fn lemma_sq_dist_upto_bounds(a: Seq<u8>, b: Seq<u8>, n: int)
    requires
        0 <= n <= a.len(),
        n <= b.len(),
    ensures
        0 <= sq_dist_upto(a, b, n) <= n * 65025,
    decreases n,
{
    if n > 0 {
        lemma_sq_dist_upto_bounds(a, b, n - 1);
        let d = a[n - 1] - b[n - 1];
        assert(0 <= d * d <= 65025) by (nonlinear_arith)
            requires
                -255 <= d <= 255,
        ;
    }
}

proof fn lemma_sq_dist_upto_self(a: Seq<u8>, n: int)
    requires
        0 <= n <= a.len(),
    ensures
        sq_dist_upto(a, a, n) == 0,
    decreases n,
{
    if n > 0 {
        lemma_sq_dist_upto_self(a, n - 1);
    }
}

/// The distance of an image to itself is zero.
pub proof fn lemma_distance_self(img: Raster)
    ensures
        sq_dist(img.samples@, img.samples@) == 0,
{
    lemma_sq_dist_upto_self(img.samples@, img.samples@.len() as int);
}

/// Squared Euclidean distance over all pixels and channels; `None` when the
/// two images differ in layout, width or height.
pub fn squared_distance(a: &Raster, b: &Raster) -> (r: Option<u128>)
    requires
        a.wf(),
        b.wf(),
    ensures
        r is Some <==> a.same_shape(b),
        r matches Some(d) ==> d == sq_dist(a.samples@, b.samples@),
{
    if a.layout != b.layout || a.width != b.width || a.height != b.height {
        return None;
    }
    let n = a.samples.len();
    assert(b.samples@.len() == n);
    let mut acc: u128 = 0;
    let mut i: usize = 0;
    while i < n
        invariant
            i <= n,
            n == a.samples@.len(),
            n == b.samples@.len(),
            acc == sq_dist_upto(a.samples@, b.samples@, i as int),
        decreases n - i,
    {
        proof {
            lemma_sq_dist_upto_bounds(a.samples@, b.samples@, i as int + 1);
            assert((i as int + 1) * 65025 <= 0x1_0000_0000_0000_0000 * 65025) by (nonlinear_arith)
                requires
                    i < n,
                    n <= usize::MAX,
            ;
        }
        let x = a.samples[i] as i32;
        let y = b.samples[i] as i32;
        let d = x - y;
        assert(0 <= d * d <= 65025) by (nonlinear_arith)
            requires
                -255 <= d <= 255,
        ;
        let sq = (d * d) as u128;
        assert(acc + sq == sq_dist_upto(a.samples@, b.samples@, i as int + 1));
        acc = acc + sq;
        i = i + 1;
    }
    Some(acc)
}

} // verus!
