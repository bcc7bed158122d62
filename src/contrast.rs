use vstd::prelude::*;

use crate::canvas::Canvas;

verus! {

/// Every sample `v` turned into `255 - v`.
pub open spec fn inverted(s: Seq<u8>) -> Seq<u8> {
    s.map_values(|v: u8| (255 - v) as u8)
}

/// The smallest sample, or 255 when there is none.
pub open spec fn min_sample(s: Seq<u8>) -> u8
    decreases s.len(),
{
    if s.len() == 0 {
        255
    } else {
        let m = min_sample(s.drop_last());
        if s.last() < m {
            s.last()
        } else {
            m
        }
    }
}

/// The largest sample, or 0 when there is none.
pub open spec fn max_sample(s: Seq<u8>) -> u8
    decreases s.len(),
{
    if s.len() == 0 {
        0
    } else {
        let m = max_sample(s.drop_last());
        if s.last() > m {
            s.last()
        } else {
            m
        }
    }
}

/// `v` mapped linearly from `[lo, hi]` onto `[0, 255]` and rounded to the nearest
/// integer, halves upwards; the identity when `lo == hi`.
pub open spec fn stretched_value(v: u8, lo: u8, hi: u8) -> u8 {
    if lo == hi {
        v
    } else {
        (((v - lo) * 510 + (hi - lo)) / (2 * (hi - lo))) as u8
    }
}

/// Min-max normalisation of all samples onto the full range.
pub open spec fn stretched(s: Seq<u8>) -> Seq<u8> {
    s.map_values(|v: u8| stretched_value(v, min_sample(s), max_sample(s)))
}

/// What histogram equalisation makes of a sequence of samples.
pub uninterp spec fn equalized(s: Seq<u8>) -> Seq<u8>;

/// The image with every sample `v` turned into `255 - v`.
pub fn invert_image(input: &Canvas) -> (r: Canvas)
    requires
        input.wf(),
    ensures
        r.wf(),
        r.width == input.width,
        r.height == input.height,
        r.samples@ == inverted(input.samples@),
{
    let n = input.samples.len();
    let mut out: Vec<u8> = Vec::with_capacity(n);
    let mut i: usize = 0;
    while i < n
        invariant
            n == input.samples@.len(),
            i <= n,
            out@ == inverted(input.samples@).subrange(0, i as int),
        decreases n - i,
    {
        out.push(255 - input.samples[i]);
        i += 1;
        assert(out@ =~= inverted(input.samples@).subrange(0, i as int));
    }
    assert(out@ =~= inverted(input.samples@));
    Canvas { width: input.width, height: input.height, samples: out }
}

proof fn lemma_min_max_step(s: Seq<u8>, i: int)
    requires
        0 <= i < s.len(),
    ensures
        min_sample(s.subrange(0, i + 1)) == (if s[i] < min_sample(s.subrange(0, i)) {
            s[i]
        } else {
            min_sample(s.subrange(0, i))
        }),
        max_sample(s.subrange(0, i + 1)) == (if s[i] > max_sample(s.subrange(0, i)) {
            s[i]
        } else {
            max_sample(s.subrange(0, i))
        }),
{
    assert(s.subrange(0, i + 1).drop_last() =~= s.subrange(0, i));
}

/// The minimum and maximum bound every sample, and both occur when there are samples.
pub proof fn lemma_min_max_bounds(s: Seq<u8>)
    ensures
        forall|i: int| 0 <= i < s.len() ==> min_sample(s) <= #[trigger] s[i] <= max_sample(s),
        s.len() > 0 ==> exists|i: int| 0 <= i < s.len() && s[i] == min_sample(s),
        s.len() > 0 ==> exists|i: int| 0 <= i < s.len() && s[i] == max_sample(s),
    decreases s.len(),
{
    if s.len() > 0 {
        let t = s.drop_last();
        lemma_min_max_bounds(t);
        assert forall|i: int| 0 <= i < s.len() implies min_sample(s) <= #[trigger] s[i]
            <= max_sample(s) by {
            if i < s.len() - 1 {
                assert(s[i] == t[i]);
            }
        }
        if t.len() > 0 {
            let a = choose|i: int| 0 <= i < t.len() && t[i] == min_sample(t);
            let b = choose|i: int| 0 <= i < t.len() && t[i] == max_sample(t);
            assert(s[a] == t[a]);
            assert(s[b] == t[b]);
            assert(s[s.len() - 1] == s.last());
        } else {
            assert(s[0] == s.last());
        }
    }
}

/// Contrast stretch: the samples mapped linearly so that the darkest becomes 0 and
/// the brightest 255, rounded to the nearest integer. A constant image is returned
/// unchanged.
pub fn contrast_stretch(input: &Canvas) -> (r: Canvas)
    requires
        input.wf(),
    ensures
        r.wf(),
        r.width == input.width,
        r.height == input.height,
        r.samples@ == stretched(input.samples@),
{
    let n = input.samples.len();
    let ghost s = input.samples@;
    let mut min_val: u8 = 255;
    let mut max_val: u8 = 0;
    let mut i: usize = 0;
    while i < n
        invariant
            n == s.len(),
            s == input.samples@,
            i <= n,
            min_val == min_sample(s.subrange(0, i as int)),
            max_val == max_sample(s.subrange(0, i as int)),
        decreases n - i,
    {
        proof {
            lemma_min_max_step(s, i as int);
        }
        let v = input.samples[i];
        if v < min_val {
            min_val = v;
        }
        if v > max_val {
            max_val = v;
        }
        i += 1;
    }
    assert(s.subrange(0, n as int) =~= s);
    if n == 0 || min_val == max_val {
        assert(stretched(s) =~= s);
        return Canvas { width: input.width, height: input.height, samples: input.samples.clone() };
    }
    proof {
        lemma_min_max_bounds(s);
    }
    let lo = min_val;
    let range = max_val - min_val;
    let mut out: Vec<u8> = Vec::with_capacity(n);
    let mut j: usize = 0;
    while j < n
        invariant
            n == s.len(),
            s == input.samples@,
            lo == min_sample(s),
            lo < max_sample(s),
            range == max_sample(s) - lo,
            forall|k: int| 0 <= k < s.len() ==> lo <= #[trigger] s[k] <= max_sample(s),
            j <= n,
            out@ == stretched(s).subrange(0, j as int),
        decreases n - j,
    {
        let v = input.samples[j];
        let a: u32 = (v - lo) as u32;
        let rr: u32 = range as u32;
        assert(a * 510 + rr <= 255 * 510 + 255) by (nonlinear_arith)
            requires
                a <= rr,
                rr <= 255,
        ;
        let q: u32 = (a * 510 + rr) / (2 * rr);
        assert(q <= 255) by (nonlinear_arith)
            requires
                q == (a * 510 + rr) / (2 * rr),
                a <= rr,
                0 < rr,
        ;
        out.push(q as u8);
        j += 1;
        assert(out@ =~= stretched(s).subrange(0, j as int));
    }
    assert(out@ =~= stretched(s));
    Canvas { width: input.width, height: input.height, samples: out }
}

/// Relies on imageproc::contrast::equalize_histogram, which equalises the histogram
/// of a copy of the image in place: the samples keep their number and their
/// order, and each new value depends on the old value and the histogram alone.
#[verifier::external_body]
fn equalize_samples(input: &Canvas) -> (r: Vec<u8>)
    requires
        input.wf(),
        input.samples@.len() <= u32::MAX,
    ensures
        r@ == equalized(input.samples@),
        r@.len() == input.samples@.len(),
{
    let img = image::GrayImage::from_raw(input.width, input.height, input.samples.clone());
    imageproc::contrast::equalize_histogram(&img.unwrap()).into_raw()
}

/// Histogram equalisation: each sample remapped through the cumulative
/// distribution of all samples, scaled to 0..=255.
pub fn equalize_histogram(input: &Canvas) -> (r: Canvas)
    requires
        input.wf(),
        input.samples@.len() <= u32::MAX,
    ensures
        r.wf(),
        r.width == input.width,
        r.height == input.height,
        r.samples@ == equalized(input.samples@),
{
    let samples = equalize_samples(input);
    Canvas { width: input.width, height: input.height, samples }
}

/// Inverting twice gives back the samples one started from.
pub proof fn lemma_invert_involutive(c: Canvas)
    requires
        c.wf(),
    ensures
        inverted(inverted(c.samples@)) == c.samples@,
{
    assert(inverted(inverted(c.samples@)) =~= c.samples@);
}

/// Stretching leaves unchanged an image that already spans 0 to 255, and a
/// constant image.
pub proof fn lemma_stretch_fixed_point(c: Canvas)
    requires
        c.wf(),
        (exists|i: int| 0 <= i < c.samples@.len() && c.samples@[i] == 0) && (exists|i: int|
            0 <= i < c.samples@.len() && c.samples@[i] == 255) || (forall|i: int, j: int|
            0 <= i < c.samples@.len() && 0 <= j < c.samples@.len() ==> c.samples@[i]
                == c.samples@[j]),
    ensures
        stretched(c.samples@) == c.samples@,
{
    let s = c.samples@;
    lemma_min_max_bounds(s);
    if s.len() > 0 && min_sample(s) != max_sample(s) {
        if forall|i: int, j: int| 0 <= i < s.len() && 0 <= j < s.len() ==> s[i] == s[j] {
            let a = choose|i: int| 0 <= i < s.len() && s[i] == min_sample(s);
            let b = choose|i: int| 0 <= i < s.len() && s[i] == max_sample(s);
            assert(s[a] == s[b]);
        } else {
            let a = choose|i: int| 0 <= i < s.len() && s[i] == 0;
            let b = choose|i: int| 0 <= i < s.len() && s[i] == 255;
            assert(min_sample(s) <= s[a]);
            assert(s[b] <= max_sample(s));
            assert forall|k: int| 0 <= k < s.len() implies #[trigger] stretched(s)[k] == s[k] by {
                let v = s[k];
                assert(((v - 0) * 510 + 255) / 510 == v) by (nonlinear_arith)
                    requires
                        0 <= v <= 255,
                ;
            }
        }
    }
    assert(stretched(s) =~= s);
}

} // verus!
