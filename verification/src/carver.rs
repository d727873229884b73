use vstd::prelude::*;

use crate::color::Rgb;
use crate::image::Image;
use crate::voxel::{
    axis_x, axis_y, axis_z, carving_monotone, flat_index, frontier_preserved,
    lemma_flat_index_bounds, lemma_flat_index_components, lemma_flat_index_recompose,
    lemma_num_carved_congruent, lemma_num_carved_le_len, lemma_num_carved_step, num_carved, Voxel,
    VoxelBlock,
};

verus! {

/// Classification of one voxel against one sweep's cameras.
#[derive(Clone, Copy, Debug, PartialEq, Eq, Structural)]
pub enum Consistency {
    /// Every gathered color lies within tolerance of their mean: keep the
    /// voxel and remember the mean as its color.
    Consistent(Rgb),
    /// The gathered colors disagree: carve.
    Inconsistent,
    /// No camera had an opinion: leave the voxel for a later pass.
    Inconclusive,
    /// Some camera saw pure black at the voxel's center: carve.
    Background,
}

/// The axis a sweep travels along.
#[derive(Clone, Copy, Debug, PartialEq, Eq, Structural)]
pub enum Plane {
    X,
    Y,
    Z,
}

/// A camera takes part in a sweep when its look vector points the swept
/// way: forward sweeps keep cameras looking in the positive direction of
/// the axis, backward sweeps the negative ones.
pub open spec fn camera_matches(img: Image, plane: Plane, reverse: bool) -> bool {
    match plane {
        Plane::X => if reverse {
            img.look_x < 0
        } else {
            img.look_x > 0
        },
        Plane::Y => if reverse {
            img.look_y < 0
        } else {
            img.look_y > 0
        },
        Plane::Z => if reverse {
            img.look_z < 0
        } else {
            img.look_z > 0
        },
    }
}

/// The pixel the center of cell `i` lands on for this camera, unless the
/// cell projects out of frame or the pixel is already claimed.
pub open spec fn projected_pixel(img: Image, i: int) -> Option<usize> {
    match img.projection@[i] {
        Some(p) => if img.marked@[p as int] {
            None
        } else {
            Some(p)
        },
        None => None,
    }
}

/// The color stored at pixel `p` of the camera's photograph.
pub open spec fn pixel_color(img: Image, p: int) -> Rgb {
    Rgb { r: img.data@[3 * p], g: img.data@[3 * p + 1], b: img.data@[3 * p + 2] }
}

/// Camera `img` has an opinion on cell `i` in this sweep.
pub open spec fn contributes(img: Image, i: int, plane: Plane, reverse: bool) -> bool {
    camera_matches(img, plane, reverse) && projected_pixel(img, i) is Some
}

/// The color camera `img` reports for cell `i` (meaningful only when the
/// camera contributes).
pub open spec fn contributed_color(img: Image, i: int) -> Rgb {
    match projected_pixel(img, i) {
        Some(p) => pixel_color(img, p as int),
        None => Rgb { r: 0, g: 0, b: 0 },
    }
}

/// Some contributing camera of the sweep sees pure background at cell `i`.
pub open spec fn sees_background(imgs: Seq<Image>, i: int, plane: Plane, reverse: bool) -> bool {
    exists|k: int|
        0 <= k < imgs.len() && contributes(#[trigger] imgs[k], i, plane, reverse)
            && contributed_color(imgs[k], i).spec_is_black()
}

/// The non-background colors the sweep's cameras report for cell `i`, in
/// camera order.
pub open spec fn collected_colors(imgs: Seq<Image>, i: int, plane: Plane, reverse: bool) -> Seq<
    Rgb,
>
    decreases imgs.len(),
{
    if imgs.len() == 0 {
        Seq::empty()
    } else {
        let earlier = collected_colors(imgs.drop_last(), i, plane, reverse);
        if contributes(imgs.last(), i, plane, reverse) && !contributed_color(
            imgs.last(),
            i,
        ).spec_is_black() {
            earlier.push(contributed_color(imgs.last(), i))
        } else {
            earlier
        }
    }
}

pub proof fn lemma_collected_colors_len(imgs: Seq<Image>, i: int, plane: Plane, reverse: bool)
    ensures
        collected_colors(imgs, i, plane, reverse).len() <= imgs.len(),
    decreases imgs.len(),
{
    if imgs.len() > 0 {
        lemma_collected_colors_len(imgs.drop_last(), i, plane, reverse);
    }
}

pub open spec fn sum_red(cs: Seq<Rgb>) -> int
    decreases cs.len(),
{
    if cs.len() == 0 {
        0
    } else {
        sum_red(cs.drop_last()) + cs.last().r
    }
}

pub open spec fn sum_green(cs: Seq<Rgb>) -> int
    decreases cs.len(),
{
    if cs.len() == 0 {
        0
    } else {
        sum_green(cs.drop_last()) + cs.last().g
    }
}

pub open spec fn sum_blue(cs: Seq<Rgb>) -> int
    decreases cs.len(),
{
    if cs.len() == 0 {
        0
    } else {
        sum_blue(cs.drop_last()) + cs.last().b
    }
}

pub proof fn lemma_sum_bounds(cs: Seq<Rgb>)
    ensures
        0 <= sum_red(cs) <= 255 * cs.len(),
        0 <= sum_green(cs) <= 255 * cs.len(),
        0 <= sum_blue(cs) <= 255 * cs.len(),
    decreases cs.len(),
{
    if cs.len() > 0 {
        lemma_sum_bounds(cs.drop_last());
    }
}

/// The per-channel mean of the collected colors, each channel rounded down.
pub open spec fn mean_color(cs: Seq<Rgb>) -> Rgb
    recommends
        cs.len() >= 1,
{
    Rgb {
        r: (sum_red(cs) / cs.len() as int) as u8,
        g: (sum_green(cs) / cs.len() as int) as u8,
        b: (sum_blue(cs) / cs.len() as int) as u8,
    }
}

/// Each mean channel is a byte again, so the cast in `mean_color` is exact.
pub proof fn lemma_mean_in_range(cs: Seq<Rgb>)
    requires
        cs.len() >= 1,
    ensures
        0 <= sum_red(cs) / cs.len() as int <= 255,
        0 <= sum_green(cs) / cs.len() as int <= 255,
        0 <= sum_blue(cs) / cs.len() as int <= 255,
        mean_color(cs).r == sum_red(cs) / cs.len() as int,
        mean_color(cs).g == sum_green(cs) / cs.len() as int,
        mean_color(cs).b == sum_blue(cs) / cs.len() as int,
{
    lemma_sum_bounds(cs);
    let n = cs.len() as int;
    assert(sum_red(cs) / n >= 0 && sum_green(cs) / n >= 0 && sum_blue(cs) / n >= 0) by {
        vstd::arithmetic::div_mod::lemma_div_pos_is_pos(sum_red(cs), n);
        vstd::arithmetic::div_mod::lemma_div_pos_is_pos(sum_green(cs), n);
        vstd::arithmetic::div_mod::lemma_div_pos_is_pos(sum_blue(cs), n);
    }
    assert((255 * n) / n == 255) by {
        vstd::arithmetic::div_mod::lemma_div_by_multiple(255, n);
    }
    assert(sum_red(cs) / n <= 255 && sum_green(cs) / n <= 255 && sum_blue(cs) / n <= 255) by {
        vstd::arithmetic::div_mod::lemma_div_is_ordered(sum_red(cs), 255 * n, n);
        vstd::arithmetic::div_mod::lemma_div_is_ordered(sum_green(cs), 255 * n, n);
        vstd::arithmetic::div_mod::lemma_div_is_ordered(sum_blue(cs), 255 * n, n);
    }
}

/// Channel values `a` and `b` lie within `threshold` of each other.
pub open spec fn roughly_equal(a: u8, b: u8, threshold: u8) -> bool {
    -(threshold as int) <= a - b <= threshold as int
}

/// Color `c` lies within the per-channel tolerance of the mean.
pub open spec fn within_tolerance(c: Rgb, mean: Rgb, threshold: u8) -> bool {
    &&& roughly_equal(mean.r, c.r, threshold)
    &&& roughly_equal(mean.g, c.g, threshold)
    &&& roughly_equal(mean.b, c.b, threshold)
}

pub open spec fn all_within_tolerance(cs: Seq<Rgb>, mean: Rgb, threshold: u8) -> bool {
    forall|k: int| 0 <= k < cs.len() ==> within_tolerance(#[trigger] cs[k], mean, threshold)
}

/// What judging a non-empty collection of colors yields: their per-channel
/// mean when every color is within tolerance of it, nothing otherwise.
pub open spec fn spec_colors_roughly_equal(cs: Seq<Rgb>, threshold: u8) -> Option<Rgb>
    recommends
        cs.len() >= 1,
{
    if all_within_tolerance(cs, mean_color(cs), threshold) {
        Some(mean_color(cs))
    } else {
        None
    }
}

/// Whether two channel values are within a defined number of values apart.
///
/// The window around `value1` saturates at the ends of the byte range,
/// which is the same as comparing the exact integer difference.
pub fn is_roughly_equal(value1: u8, value2: u8, threshold: u8) -> (close: bool)
    ensures
        close == roughly_equal(value1, value2, threshold),
{
    let min: u8 = if value1 < threshold {
        0
    } else {
        value1 - threshold
    };

    let max: u8 = if value1 > 255 - threshold {
        255
    } else {
        value1 + threshold
    };

    value2 >= min && value2 <= max
}

/// Per-channel mean of the collected colors when every one of them lies
/// within `threshold` of that mean on all three channels; `None` when the
/// colors disagree.
pub fn colors_roughly_equal(colors: &Vec<Rgb>, threshold: u8) -> (mean: Option<Rgb>)
    requires
        colors@.len() >= 1,
        colors@.len() * 255 <= usize::MAX,
    ensures
        mean == spec_colors_roughly_equal(colors@, threshold),
{
    let count = colors.len();
    let mut r_total: usize = 0;
    let mut g_total: usize = 0;
    let mut b_total: usize = 0;
    let mut k: usize = 0;
    while k < count
        invariant
            count == colors@.len(),
            count * 255 <= usize::MAX,
            k <= count,
            r_total == sum_red(colors@.take(k as int)),
            g_total == sum_green(colors@.take(k as int)),
            b_total == sum_blue(colors@.take(k as int)),
        decreases count - k,
    {
        proof {
            lemma_sum_bounds(colors@.take(k as int));
            assert(colors@.take(k + 1).drop_last() =~= colors@.take(k as int));
        }
        let c = colors[k];
        r_total = r_total + c.r as usize;
        g_total = g_total + c.g as usize;
        b_total = b_total + c.b as usize;
        k = k + 1;
    }
    proof {
        assert(colors@.take(count as int) =~= colors@);
        lemma_mean_in_range(colors@);
    }
    let r_avg = (r_total / count) as u8;
    let g_avg = (g_total / count) as u8;
    let b_avg = (b_total / count) as u8;
    let mean = Rgb { r: r_avg, g: g_avg, b: b_avg };
    proof {
        assert(mean == mean_color(colors@));
    }
    let mut k: usize = 0;
    while k < count
        invariant
            count == colors@.len(),
            k <= count,
            mean == mean_color(colors@),
            forall|m: int| 0 <= m < k ==> within_tolerance(#[trigger] colors@[m], mean, threshold),
        decreases count - k,
    {
        let c = colors[k];
        let r_ok = is_roughly_equal(mean.r, c.r, threshold);
        let g_ok = is_roughly_equal(mean.g, c.g, threshold);
        let b_ok = is_roughly_equal(mean.b, c.b, threshold);
        if !r_ok || !g_ok || !b_ok {
            proof {
                assert(!within_tolerance(colors@[k as int], mean, threshold));
            }
            return None;
        }
        k = k + 1;
    }
    Some(mean)
}

/// Background carving: a voxel is judged `Background` — and so carved —
/// exactly when some contributing camera of the sweep sees pure black at
/// its center, whatever every other camera reports.
pub proof fn lemma_background_overrides(
    imgs: Seq<Image>,
    i: int,
    plane: Plane,
    reverse: bool,
    threshold: u8,
)
    ensures
        spec_judgment(imgs, i, plane, reverse, threshold) == Consistency::Background
            <==> sees_background(imgs, i, plane, reverse),
{
}

/// Consistency classification of cell `i` against the sweep's cameras:
/// background wins outright; otherwise the gathered colors decide, and no
/// opinion at all leaves the cell untouched for a later pass.
pub open spec fn spec_judgment(
    imgs: Seq<Image>,
    i: int,
    plane: Plane,
    reverse: bool,
    threshold: u8,
) -> Consistency {
    if sees_background(imgs, i, plane, reverse) {
        Consistency::Background
    } else {
        let cs = collected_colors(imgs, i, plane, reverse);
        if cs.len() == 0 {
            Consistency::Inconclusive
        } else {
            match spec_colors_roughly_equal(cs, threshold) {
                Some(c) => Consistency::Consistent(c),
                None => Consistency::Inconsistent,
            }
        }
    }
}

/// Where the center of cell `index` lands on this camera's film, unless it
/// projects out of frame or the target pixel is already claimed.  The
/// projection itself was fixed when the evidence buffer was built; the
/// claim mask changes over the run.
pub fn project_coordinate(index: usize, image: &Image) -> (pixel: Option<usize>)
    requires
        image.wf(),
        index < image.projection@.len(),
    ensures
        pixel == projected_pixel(*image, index as int),
{
    let entry = image.projection[index];
    if let Some(p) = entry {
        if image.marked[p] {
            None
        } else {
            Some(p)
        }
    } else {
        None
    }
}

/// Everything of an evidence buffer but its claim mask: the camera's
/// immutable evidence.
pub open spec fn same_camera(a: Image, b: Image) -> bool {
    &&& b.data@ == a.data@
    &&& b.width == a.width
    &&& b.height == a.height
    &&& b.look_x == a.look_x
    &&& b.look_y == a.look_y
    &&& b.look_z == a.look_z
    &&& b.projection@ == a.projection@
}

/// The claim mask of `img` after cell `i`'s consistent verdict is
/// committed: the pixel the cell projects onto becomes claimed if this
/// camera contributed, and nothing else changes.
pub open spec fn marks_after_claim(img: Image, i: int, plane: Plane, reverse: bool) -> Seq<bool> {
    if camera_matches(img, plane, reverse) {
        match projected_pixel(img, i) {
            Some(p) => img.marked@.update(p as int, true),
            None => img.marked@,
        }
    } else {
        img.marked@
    }
}

/// Exact twin of `camera_matches` for the running code.
fn matches_direction(img: &Image, plane: Plane, reverse: bool) -> (m: bool)
    ensures
        m == camera_matches(*img, plane, reverse),
{
    match plane {
        Plane::X => if reverse {
            img.look_x < 0
        } else {
            img.look_x > 0
        },
        Plane::Y => if reverse {
            img.look_y < 0
        } else {
            img.look_y > 0
        },
        Plane::Z => if reverse {
            img.look_z < 0
        } else {
            img.look_z > 0
        },
    }
}

/// Judge whether the voxel at cell `index` should be carved, against the
/// cameras of the sweep given by `plane` and `reverse`.  On a `Consistent`
/// verdict every contributing camera's pixel is claimed — the nearest
/// consistent voxel along the viewing direction wins the pixel, starving
/// voxels behind it of that camera's opinion.  On any other verdict the
/// evidence buffers are untouched; carving itself is the caller's job.
pub fn should_carve_voxel(
    index: usize,
    images: &mut Vec<Image>,
    plane: Plane,
    reverse: bool,
    threshold: u8,
) -> (verdict: Consistency)
    requires
        forall|k: int|
            0 <= k < old(images)@.len() ==> (#[trigger] old(images)@[k]).wf() && index < old(
                images,
            )@[k].projection@.len(),
        old(images)@.len() * 255 <= usize::MAX,
    ensures
        verdict == spec_judgment(old(images)@, index as int, plane, reverse, threshold),
        final(images)@.len() == old(images)@.len(),
        forall|k: int|
            0 <= k < old(images)@.len() ==> ({
                let a = old(images)@[k];
                let b = #[trigger] final(images)@[k];
                &&& same_camera(a, b)
                &&& b.wf()
                &&& b.marked@.len() == a.marked@.len()
                &&& (forall|p: int| 0 <= p < a.marked@.len() && a.marked@[p] ==> b.marked@[p])
                &&& b.marked@ == if verdict is Consistent {
                    marks_after_claim(a, index as int, plane, reverse)
                } else {
                    a.marked@
                }
            }),
{
    let ghost imgs0 = images@;
    let ghost i = index as int;
    let n = images.len();
    let mut colors: Vec<Rgb> = Vec::new();
    let mut k: usize = 0;
    while k < n
        invariant
            n == imgs0.len(),
            imgs0 == old(images)@,
            images@ == imgs0,
            i == index as int,
            k <= n,
            forall|m: int|
                0 <= m < n ==> (#[trigger] imgs0[m]).wf() && i < imgs0[m].projection@.len(),
            colors@ == collected_colors(imgs0.take(k as int), i, plane, reverse),
            !sees_background(imgs0.take(k as int), i, plane, reverse),
        decreases n - k,
    {
        proof {
            assert(imgs0.take(k as int + 1).drop_last() =~= imgs0.take(k as int));
            assert(imgs0.take(k as int + 1).last() == imgs0[k as int]);
        }
        let active = matches_direction(&images[k], plane, reverse);
        if active {
            let pix = project_coordinate(index, &images[k]);
            if let Some(p) = pix {
                let red = images[k].data[p * 3];
                let green = images[k].data[p * 3 + 1];
                let blue = images[k].data[p * 3 + 2];
                proof {
                    assert(contributes(imgs0[k as int], i, plane, reverse));
                    assert(Rgb { r: red, g: green, b: blue } == contributed_color(
                        imgs0[k as int],
                        i,
                    ));
                }
                if red == 0 && green == 0 && blue == 0 {
                    proof {
                        assert(sees_background(imgs0, i, plane, reverse));
                    }
                    return Consistency::Background;
                }
                colors.push(Rgb { r: red, g: green, b: blue });
            }
        }
        proof {
            assert forall|m: int| 0 <= m < k as int + 1 implies !(contributes(
                #[trigger] imgs0.take(k as int + 1)[m],
                i,
                plane,
                reverse,
            ) && contributed_color(imgs0.take(k as int + 1)[m], i).spec_is_black()) by {
                assert(imgs0.take(k as int + 1)[m] == imgs0[m]);
                if m < k as int {
                    assert(imgs0.take(k as int)[m] == imgs0[m]);
                }
            }
        }
        k = k + 1;
    }
    proof {
        assert(imgs0.take(n as int) =~= imgs0);
    }
    if colors.len() == 0 {
        return Consistency::Inconclusive;
    }
    proof {
        lemma_collected_colors_len(imgs0, i, plane, reverse);
    }
    let mean = colors_roughly_equal(&colors, threshold);
    match mean {
        None => Consistency::Inconsistent,
        Some(average) => {
            let mut k2: usize = 0;
            while k2 < n
                invariant
                    n == imgs0.len(),
                    imgs0 == old(images)@,
                    images@.len() == imgs0.len(),
                    i == index as int,
                    k2 <= n,
                    forall|m: int|
                        0 <= m < n ==> (#[trigger] imgs0[m]).wf() && i
                            < imgs0[m].projection@.len(),
                    forall|m: int| k2 <= m < n ==> images@[m] == imgs0[m],
                    forall|m: int|
                        0 <= m < k2 ==> same_camera(imgs0[m], #[trigger] images@[m])
                            && images@[m].marked@ == marks_after_claim(
                            imgs0[m],
                            i,
                            plane,
                            reverse,
                        ),
                decreases n - k2,
            {
                proof {
                    assert(images@[k2 as int] == imgs0[k2 as int]);
                    assert(images@[k2 as int].wf() && index < images@[k2 as int].projection@.len());
                }
                let active = matches_direction(&images[k2], plane, reverse);
                if active {
                    let entry = images[k2].projection[index];
                    proof {
                        assert((images@[k2 as int].projection@[i]) matches Some(p) ==> p < images@[
                            k2 as int].width * images@[k2 as int].height);
                    }
                    if let Some(p) = entry {
                        if !images[k2].marked[p] {
                            images[k2].marked[p] = true;
                        }
                    }
                }
                proof {
                    assert(same_camera(imgs0[k2 as int], images@[k2 as int]));
                    assert(images@[k2 as int].marked@ =~= marks_after_claim(
                        imgs0[k2 as int],
                        i,
                        plane,
                        reverse,
                    ));
                }
                k2 = k2 + 1;
            }
            proof {
                assert forall|k: int| 0 <= k < imgs0.len() implies ({
                    let a = imgs0[k];
                    let b = #[trigger] images@[k];
                    &&& b.wf()
                    &&& b.marked@.len() == a.marked@.len()
                    &&& (forall|p: int| 0 <= p < a.marked@.len() && a.marked@[p] ==> b.marked@[p])
                }) by {
                    assert(same_camera(imgs0[k], images@[k]));
                    assert(images@[k].marked@ == marks_after_claim(imgs0[k], i, plane, reverse));
                }
            }
            Consistency::Consistent(average)
        },
    }
}

/// The evidence buffers `now` are `then` with possibly more claims: the
/// cameras are untouched and claims are monotonic, never reset mid-run.
pub open spec fn claims_extended(then: Seq<Image>, now: Seq<Image>) -> bool {
    &&& now.len() == then.len()
    &&& forall|k: int|
        0 <= k < then.len() ==> ({
            let a = then[k];
            let b = #[trigger] now[k];
            &&& same_camera(a, b)
            &&& b.marked@.len() == a.marked@.len()
            &&& (forall|p: int| 0 <= p < a.marked@.len() && a.marked@[p] ==> b.marked@[p])
        })
}

pub proof fn lemma_claims_extended_trans(a: Seq<Image>, b: Seq<Image>, c: Seq<Image>)
    requires
        claims_extended(a, b),
        claims_extended(b, c),
    ensures
        claims_extended(a, c),
{
    assert forall|k: int| 0 <= k < a.len() implies ({
        let x = a[k];
        let y = #[trigger] c[k];
        &&& same_camera(x, y)
        &&& y.marked@.len() == x.marked@.len()
        &&& (forall|p: int| 0 <= p < x.marked@.len() && x.marked@[p] ==> y.marked@[p])
    }) by {
        assert(same_camera(a[k], b[k]));
        assert(same_camera(b[k], c[k]));
    }
}

/// No claim is ever laid on a pure-black pixel: the mark of every black
/// pixel of `then` is unchanged in `now`.  Only consistent voxels claim
/// pixels, and a black contribution forces a Background verdict first, so
/// a background witness survives the whole run.
pub open spec fn blacks_never_claimed(then: Seq<Image>, now: Seq<Image>) -> bool {
    forall|k: int, p: int|
        0 <= k < then.len() && 0 <= p < then[k].marked@.len() && pixel_color(
            then[k],
            p,
        ).spec_is_black() ==> (#[trigger] now[k].marked@[p]) == then[k].marked@[p]
}

pub proof fn lemma_blacks_never_claimed_trans(a: Seq<Image>, b: Seq<Image>, c: Seq<Image>)
    requires
        claims_extended(a, b),
        blacks_never_claimed(a, b),
        blacks_never_claimed(b, c),
    ensures
        blacks_never_claimed(a, c),
{
    assert forall|k: int, p: int|
        0 <= k < a.len() && 0 <= p < a[k].marked@.len() && pixel_color(a[k], p).spec_is_black()
            implies (#[trigger] c[k].marked@[p]) == a[k].marked@[p] by {
        assert(same_camera(a[k], b[k]));
        assert(pixel_color(b[k], p).spec_is_black());
        assert(b[k].marked@[p] == a[k].marked@[p]);
    }
}

/// A sweep's background witness survives growing claims, because black
/// pixels are never claimed.
pub proof fn lemma_sees_background_preserved(
    then: Seq<Image>,
    now: Seq<Image>,
    i: int,
    plane: Plane,
    reverse: bool,
)
    requires
        forall|k: int|
            0 <= k < then.len() ==> ((#[trigger] then[k]).wf() && i < then[k].projection@.len()),
        0 <= i,
        claims_extended(then, now),
        blacks_never_claimed(then, now),
        sees_background(then, i, plane, reverse),
    ensures
        sees_background(now, i, plane, reverse),
{
    let k = choose|k: int|
        0 <= k < then.len() && contributes(#[trigger] then[k], i, plane, reverse)
            && contributed_color(then[k], i).spec_is_black();
    assert(same_camera(then[k], now[k]));
    let p = projected_pixel(then[k], i)->0;
    assert(pixel_color(then[k], p as int).spec_is_black());
    assert((then[k].projection@[i]) matches Some(q) ==> q < then[k].width * then[k].height);
    assert(now[k].marked@[p as int] == then[k].marked@[p as int]);
    assert(contributes(now[k], i, plane, reverse) && contributed_color(
        now[k],
        i,
    ).spec_is_black());
}

/// A sweep or a run changes a cell's color only by writing a judged color
/// onto a frontier cell: the cell was uncarved throughout, stays on the
/// frontier, and now holds a color.
pub open spec fn colors_framed(then: Seq<Voxel>, now: Seq<Voxel>) -> bool {
    forall|j: int|
        0 <= j < then.len() && (#[trigger] now[j]).color != then[j].color ==> (!then[j].carved
            && !now[j].carved && now[j].visible && now[j].color is Some)
}

/// Across a whole run a colored cell may later be carved again, so only
/// this much survives: a changed color belongs to a cell that was uncarved
/// when the run began, and is a real color.
pub open spec fn colors_grown(then: Seq<Voxel>, now: Seq<Voxel>) -> bool {
    forall|j: int|
        0 <= j < then.len() && (#[trigger] now[j]).color != then[j].color ==> (!then[j].carved
            && now[j].color is Some)
}

/// Background carving, as an outcome: every cell that was on the frontier
/// and whose center some camera of the sweep `(plane, reverse)` saw on an
/// unclaimed pure-black pixel is carved in `v_now`.
pub open spec fn background_carved(
    v_then: Seq<Voxel>,
    i_then: Seq<Image>,
    v_now: Seq<Voxel>,
    plane: Plane,
    reverse: bool,
) -> bool {
    forall|i: int|
        0 <= i < v_then.len() && v_then[i].visible && !v_then[i].carved && #[trigger] sees_background(
            i_then,
            i,
            plane,
            reverse,
        ) ==> v_now[i].carved
}

/// With no camera matching the sweep's direction, nothing contributes.
pub proof fn lemma_unmatched_cameras_no_opinion(
    imgs: Seq<Image>,
    i: int,
    plane: Plane,
    reverse: bool,
)
    requires
        forall|k: int| 0 <= k < imgs.len() ==> !camera_matches(#[trigger] imgs[k], plane, reverse),
    ensures
        collected_colors(imgs, i, plane, reverse) == Seq::<Rgb>::empty(),
        !sees_background(imgs, i, plane, reverse),
        forall|t: u8| spec_judgment(imgs, i, plane, reverse, t) == Consistency::Inconclusive,
    decreases imgs.len(),
{
    if imgs.len() > 0 {
        lemma_unmatched_cameras_no_opinion(imgs.drop_last(), i, plane, reverse);
    }
}

/// The component of an axis triple along the swept axis.
spec fn swept_component(plane: Plane, t: (usize, usize, usize)) -> int {
    match plane {
        Plane::X => t.0 as int,
        Plane::Y => t.1 as int,
        Plane::Z => t.2 as int,
    }
}

/// The (row, column) position at which a sweep of `plane` visits the cell
/// with axis triple `t` inside a layer.
spec fn layer_position(plane: Plane, t: (usize, usize, usize)) -> (int, int) {
    match plane {
        Plane::X => (t.2 as int, t.1 as int),
        Plane::Y => (t.0 as int, t.2 as int),
        Plane::Z => (t.1 as int, t.0 as int),
    }
}

spec fn lex_before(a: (int, int), b: (int, int)) -> bool {
    a.0 < b.0 || (a.0 == b.0 && a.1 < b.1)
}

/// A queued carve decision: in range, inside the layer being swept, and
/// aimed at a cell that is not yet carved.
spec fn batch_entry_ok(
    t: (usize, usize, usize),
    voxels: Seq<Voxel>,
    r: int,
    layer: int,
    plane: Plane,
) -> bool {
    &&& (t.0 as int) < r
    &&& (t.1 as int) < r
    &&& (t.2 as int) < r
    &&& swept_component(plane, t) == layer
    &&& !voxels[flat_index(t.0 as int, t.1 as int, t.2 as int, r)].carved
}

/// The swept-axis component of the cell with linear index `i`.
spec fn cell_swept(i: int, r: int, plane: Plane) -> int {
    match plane {
        Plane::X => axis_x(i, r),
        Plane::Y => axis_y(i, r),
        Plane::Z => axis_z(i, r),
    }
}

/// The row (`b`) at which a sweep of `plane` visits cell `i` in its layer.
spec fn cell_row(i: int, r: int, plane: Plane) -> int {
    match plane {
        Plane::X => axis_z(i, r),
        Plane::Y => axis_x(i, r),
        Plane::Z => axis_y(i, r),
    }
}

/// The column (`c`) at which a sweep of `plane` visits cell `i`.
spec fn cell_col(i: int, r: int, plane: Plane) -> int {
    match plane {
        Plane::X => axis_y(i, r),
        Plane::Y => axis_z(i, r),
        Plane::Z => axis_x(i, r),
    }
}

/// After `a` iterations of the layer loop, the layers with these swept
/// components have been judged and their batches applied.
spec fn layer_processed(s: int, a: int, r: int, reverse: bool) -> bool {
    if reverse {
        s >= r - a
    } else {
        s < a
    }
}

/// Cell `i` is the target of some queued carve decision.
spec fn in_batch(batch: Seq<(usize, usize, usize)>, i: int, r: int) -> bool {
    exists|m: int|
        0 <= m < batch.len() && flat_index(
            (#[trigger] batch[m]).0 as int,
            batch[m].1 as int,
            batch[m].2 as int,
            r,
        ) == i
}

/// A cell the sweep owes a carve to: on the frontier at sweep start, with
/// a matching camera seeing unclaimed pure black at its center.
spec fn background_target(
    v: Seq<Voxel>,
    imgs: Seq<Image>,
    i: int,
    plane: Plane,
    reverse: bool,
) -> bool {
    &&& 0 <= i < v.len()
    &&& v[i].visible
    &&& !v[i].carved
    &&& sees_background(imgs, i, plane, reverse)
}

/// One directional sweep: walk the grid layers along `plane` from the
/// camera-facing boundary inward (`reverse` picks the boundary), judge
/// every visible uncarved voxel of a layer against the sweep's cameras,
/// and apply the layer's carve decisions only after the whole layer was
/// judged, so a carve cannot affect the visibility of a voxel already
/// queued in the same layer.  Returns how many voxels the sweep carved.
///
/// Three outcomes are guaranteed besides the count: every frontier cell
/// whose center a matching camera sees on an unclaimed pure-black pixel
/// is carved by this sweep; a cell's color changes only when the cell was
/// judged on the frontier; and a sweep with no matching camera leaves the
/// grid and the claim masks untouched.
#[verifier::rlimit(100)]
pub fn sweep_plane(
    plane: &Plane,
    reverse: bool,
    images: &mut Vec<Image>,
    voxel_block: &mut VoxelBlock,
    threshold: u8,
) -> (count: usize)
    requires
        old(voxel_block).wf(),
        forall|k: int|
            0 <= k < old(images)@.len() ==> (#[trigger] old(images)@[k]).wf() && old(
                images,
            )@[k].projection@.len() == old(voxel_block).voxels@.len(),
        old(images)@.len() * 255 <= usize::MAX,
    ensures
        final(voxel_block).wf(),
        final(voxel_block).resolution == old(voxel_block).resolution,
        final(voxel_block).length == old(voxel_block).length,
        carving_monotone(old(voxel_block).voxels@, final(voxel_block).voxels@),
        frontier_preserved(old(voxel_block).voxels@, final(voxel_block).voxels@),
        colors_framed(old(voxel_block).voxels@, final(voxel_block).voxels@),
        claims_extended(old(images)@, final(images)@),
        blacks_never_claimed(old(images)@, final(images)@),
        forall|k: int|
            0 <= k < final(images)@.len() ==> ((#[trigger] final(images)@[k]).wf()
                && final(images)@[k].projection@.len() == final(voxel_block).voxels@.len()),
        count == num_carved(final(voxel_block).voxels@) - num_carved(old(voxel_block).voxels@),
        background_carved(
            old(voxel_block).voxels@,
            old(images)@,
            final(voxel_block).voxels@,
            *plane,
            reverse,
        ),
        (forall|k: int|
            0 <= k < old(images)@.len() ==> !camera_matches(
                #[trigger] old(images)@[k],
                *plane,
                reverse,
            )) ==> (final(voxel_block).voxels@ == old(voxel_block).voxels@ && count == 0
            && (forall|k: int|
                0 <= k < old(images)@.len() ==> (#[trigger] final(images)@[k]).marked@ == old(
                    images,
                )@[k].marked@)),
{
    let resolution = voxel_block.resolution;
    let ghost r = resolution as int;
    let ghost v0 = old(voxel_block).voxels@;
    let ghost imgs0 = old(images)@;
    proof {
        assert forall|i2: int|
            #[trigger] background_target(v0, imgs0, i2, *plane, reverse) && layer_processed(
                cell_swept(i2, r, *plane),
                0,
                r,
                reverse,
            ) implies voxel_block.voxels@[i2].carved by {
            lemma_flat_index_recompose(i2, r);
        }
    }
    let mut carved_count: usize = 0;
    let mut a: usize = 0;
    while a < resolution
        invariant
            r == resolution,
            v0 == old(voxel_block).voxels@,
            imgs0 == old(images)@,
            imgs0.len() * 255 <= usize::MAX,
            forall|k: int|
                0 <= k < imgs0.len() ==> (#[trigger] imgs0[k]).wf() && imgs0[k].projection@.len()
                    == v0.len(),
            voxel_block.wf(),
            voxel_block.resolution == resolution,
            voxel_block.length == old(voxel_block).length,
            a <= resolution,
            carving_monotone(v0, voxel_block.voxels@),
            frontier_preserved(v0, voxel_block.voxels@),
            colors_framed(v0, voxel_block.voxels@),
            claims_extended(imgs0, images@),
            blacks_never_claimed(imgs0, images@),
            forall|k: int| 0 <= k < images@.len() ==> (#[trigger] images@[k]).wf(),
            carved_count == num_carved(voxel_block.voxels@) - num_carved(v0),
            forall|i2: int|
                #[trigger] background_target(v0, imgs0, i2, *plane, reverse) && layer_processed(
                    cell_swept(i2, r, *plane),
                    a as int,
                    r,
                    reverse,
                ) ==> voxel_block.voxels@[i2].carved,
            forall|j: int|
                0 <= j < v0.len() && (#[trigger] voxel_block.voxels@[j]).color != v0[j].color
                    ==> layer_processed(cell_swept(j, r, *plane), a as int, r, reverse),
            (forall|k: int|
                0 <= k < imgs0.len() ==> !camera_matches(#[trigger] imgs0[k], *plane, reverse))
                ==> (voxel_block.voxels@ == v0 && carved_count == 0 && (forall|k2: int|
                0 <= k2 < imgs0.len() ==> (#[trigger] images@[k2]).marked@ == imgs0[k2].marked@)),
        decreases resolution - a,
    {
        let layer = if reverse {
            resolution - 1 - a
        } else {
            a
        };
        let ghost lay = layer as int;
        let mut batch: Vec<(usize, usize, usize)> = Vec::new();
        let mut b: usize = 0;
        while b < resolution
            invariant
                r == resolution,
                v0 == old(voxel_block).voxels@,
                imgs0 == old(images)@,
                imgs0.len() * 255 <= usize::MAX,
                forall|k: int|
                    0 <= k < imgs0.len() ==> (#[trigger] imgs0[k]).wf()
                        && imgs0[k].projection@.len() == v0.len(),
                voxel_block.wf(),
                voxel_block.resolution == resolution,
                voxel_block.length == old(voxel_block).length,
                carving_monotone(v0, voxel_block.voxels@),
                frontier_preserved(v0, voxel_block.voxels@),
                colors_framed(v0, voxel_block.voxels@),
                claims_extended(imgs0, images@),
                blacks_never_claimed(imgs0, images@),
                forall|k: int| 0 <= k < images@.len() ==> (#[trigger] images@[k]).wf(),
                carved_count == num_carved(voxel_block.voxels@) - num_carved(v0),
                a < resolution,
                layer < resolution,
                lay == layer,
                lay == (if reverse {
                    r - 1 - a
                } else {
                    a as int
                }),
                b <= resolution,
                forall|m: int|
                    0 <= m < batch@.len() ==> batch_entry_ok(
                        #[trigger] batch@[m],
                        voxel_block.voxels@,
                        r,
                        lay,
                        *plane,
                    ),
                forall|m: int|
                    0 <= m < batch@.len() ==> lex_before(
                        layer_position(*plane, #[trigger] batch@[m]),
                        (b as int, 0),
                    ),
                forall|m1: int, m2: int|
                    #![trigger batch@[m1], batch@[m2]]
                    0 <= m1 < m2 < batch@.len() ==> lex_before(
                        layer_position(*plane, batch@[m1]),
                        layer_position(*plane, batch@[m2]),
                    ),
                forall|n2: int|
                    0 <= n2 < batch@.len() ==> voxel_block.voxels@[flat_index(
                        (#[trigger] batch@[n2]).0 as int,
                        batch@[n2].1 as int,
                        batch@[n2].2 as int,
                        r,
                    )].color == v0[flat_index(
                        batch@[n2].0 as int,
                        batch@[n2].1 as int,
                        batch@[n2].2 as int,
                        r,
                    )].color,
                forall|i2: int|
                    #[trigger] background_target(v0, imgs0, i2, *plane, reverse) && layer_processed(
                        cell_swept(i2, r, *plane),
                        a as int,
                        r,
                        reverse,
                    ) ==> voxel_block.voxels@[i2].carved,
                forall|i2: int|
                    #[trigger] background_target(v0, imgs0, i2, *plane, reverse) && cell_swept(
                        i2,
                        r,
                        *plane,
                    ) == lay && lex_before(
                        (cell_row(i2, r, *plane), cell_col(i2, r, *plane)),
                        (b as int, 0),
                    ) ==> (voxel_block.voxels@[i2].carved || in_batch(batch@, i2, r)),
                forall|j: int|
                    0 <= j < v0.len() && (#[trigger] voxel_block.voxels@[j]).color != v0[j].color
                        ==> (layer_processed(cell_swept(j, r, *plane), a as int, r, reverse) || (
                    cell_swept(j, r, *plane) == lay && lex_before(
                        (cell_row(j, r, *plane), cell_col(j, r, *plane)),
                        (b as int, 0),
                    ))),
                (forall|k: int|
                    0 <= k < imgs0.len() ==> !camera_matches(#[trigger] imgs0[k], *plane, reverse))
                    ==> (voxel_block.voxels@ == v0 && carved_count == 0 && (forall|k2: int|
                0 <= k2 < imgs0.len() ==> (#[trigger] images@[k2]).marked@ == imgs0[k2].marked@)
                    && batch@.len() == 0),
            decreases resolution - b,
        {
            let mut c: usize = 0;
            while c < resolution
                invariant
                    r == resolution,
                    v0 == old(voxel_block).voxels@,
                    imgs0 == old(images)@,
                    imgs0.len() * 255 <= usize::MAX,
                    forall|k: int|
                        0 <= k < imgs0.len() ==> (#[trigger] imgs0[k]).wf()
                            && imgs0[k].projection@.len() == v0.len(),
                    voxel_block.wf(),
                    voxel_block.resolution == resolution,
                    voxel_block.length == old(voxel_block).length,
                    carving_monotone(v0, voxel_block.voxels@),
                    frontier_preserved(v0, voxel_block.voxels@),
                    colors_framed(v0, voxel_block.voxels@),
                    claims_extended(imgs0, images@),
                    blacks_never_claimed(imgs0, images@),
                    forall|k: int| 0 <= k < images@.len() ==> (#[trigger] images@[k]).wf(),
                    carved_count == num_carved(voxel_block.voxels@) - num_carved(v0),
                    a < resolution,
                    layer < resolution,
                    lay == layer,
                    lay == (if reverse {
                        r - 1 - a
                    } else {
                        a as int
                    }),
                    b < resolution,
                    c <= resolution,
                    forall|m: int|
                        0 <= m < batch@.len() ==> batch_entry_ok(
                            #[trigger] batch@[m],
                            voxel_block.voxels@,
                            r,
                            lay,
                            *plane,
                        ),
                    forall|m: int|
                        0 <= m < batch@.len() ==> lex_before(
                            layer_position(*plane, #[trigger] batch@[m]),
                            (b as int, c as int),
                        ),
                    forall|m1: int, m2: int|
                        #![trigger batch@[m1], batch@[m2]]
                        0 <= m1 < m2 < batch@.len() ==> lex_before(
                            layer_position(*plane, batch@[m1]),
                            layer_position(*plane, batch@[m2]),
                        ),
                    forall|n2: int|
                        0 <= n2 < batch@.len() ==> voxel_block.voxels@[flat_index(
                            (#[trigger] batch@[n2]).0 as int,
                            batch@[n2].1 as int,
                            batch@[n2].2 as int,
                            r,
                        )].color == v0[flat_index(
                            batch@[n2].0 as int,
                            batch@[n2].1 as int,
                            batch@[n2].2 as int,
                            r,
                        )].color,
                    forall|i2: int|
                        #[trigger] background_target(v0, imgs0, i2, *plane, reverse)
                            && layer_processed(cell_swept(i2, r, *plane), a as int, r, reverse)
                            ==> voxel_block.voxels@[i2].carved,
                    forall|i2: int|
                        #[trigger] background_target(v0, imgs0, i2, *plane, reverse) && cell_swept(
                            i2,
                            r,
                            *plane,
                        ) == lay && lex_before(
                            (cell_row(i2, r, *plane), cell_col(i2, r, *plane)),
                            (b as int, c as int),
                        ) ==> (voxel_block.voxels@[i2].carved || in_batch(batch@, i2, r)),
                    forall|j: int|
                        0 <= j < v0.len() && (#[trigger] voxel_block.voxels@[j]).color
                            != v0[j].color ==> (layer_processed(
                            cell_swept(j, r, *plane),
                            a as int,
                            r,
                            reverse,
                        ) || (cell_swept(j, r, *plane) == lay && lex_before(
                            (cell_row(j, r, *plane), cell_col(j, r, *plane)),
                            (b as int, c as int),
                        ))),
                    (forall|k: int|
                        0 <= k < imgs0.len() ==> !camera_matches(
                            #[trigger] imgs0[k],
                            *plane,
                            reverse,
                        )) ==> (voxel_block.voxels@ == v0 && carved_count == 0 && (forall|k2: int|
                0 <= k2 < imgs0.len() ==> (#[trigger] images@[k2]).marked@ == imgs0[k2].marked@)
                        && batch@.len() == 0),
                decreases resolution - c,
            {
                let ghost batch_pre = batch@;
                let (x, y, z) = match *plane {
                    Plane::X => (layer, c, b),
                    Plane::Y => (b, layer, c),
                    Plane::Z => (c, b, layer),
                };
                let index = voxel_block.cell_index(x, y, z);
                proof {
                    lemma_flat_index_components(x as int, y as int, z as int, r);
                    assert(cell_swept(index as int, r, *plane) == lay);
                    assert(cell_row(index as int, r, *plane) == b as int);
                    assert(cell_col(index as int, r, *plane) == c as int);
                }
                if voxel_block.voxels[index].visible && !voxel_block.voxels[index].carved {
                    let ghost imgs_pre = images@;
                    let verdict = should_carve_voxel(index, images, *plane, reverse, threshold);
                    proof {
                        assert(claims_extended(imgs_pre, images@));
                        lemma_claims_extended_trans(imgs0, imgs_pre, images@);
                        assert forall|k2: int, p: int|
                            0 <= k2 < imgs_pre.len() && 0 <= p < imgs_pre[k2].marked@.len()
                                && pixel_color(imgs_pre[k2], p).spec_is_black() implies (
                        #[trigger] images@[k2].marked@[p]) == imgs_pre[k2].marked@[p] by {
                            if verdict is Consistent {
                                assert(!sees_background(imgs_pre, index as int, *plane, reverse));
                                if camera_matches(imgs_pre[k2], *plane, reverse) && projected_pixel(
                                    imgs_pre[k2],
                                    index as int,
                                ) is Some {
                                    assert(contributes(imgs_pre[k2], index as int, *plane, reverse));
                                    assert(!contributed_color(
                                        imgs_pre[k2],
                                        index as int,
                                    ).spec_is_black());
                                }
                            }
                        }
                        assert(blacks_never_claimed(imgs_pre, images@));
                        lemma_blacks_never_claimed_trans(imgs0, imgs_pre, images@);
                        if background_target(v0, imgs0, index as int, *plane, reverse) {
                            lemma_sees_background_preserved(
                                imgs0,
                                imgs_pre,
                                index as int,
                                *plane,
                                reverse,
                            );
                            assert(verdict == Consistency::Background);
                        }
                        if forall|k2: int|
                            0 <= k2 < imgs0.len() ==> !camera_matches(
                                #[trigger] imgs0[k2],
                                *plane,
                                reverse,
                            ) {
                            assert forall|k2: int|
                                0 <= k2 < imgs_pre.len() implies !camera_matches(
                                #[trigger] imgs_pre[k2],
                                *plane,
                                reverse,
                            ) by {
                                assert(same_camera(imgs0[k2], imgs_pre[k2]));
                                assert(!camera_matches(imgs0[k2], *plane, reverse));
                            }
                            lemma_unmatched_cameras_no_opinion(
                                imgs_pre,
                                index as int,
                                *plane,
                                reverse,
                            );
                            assert(verdict == Consistency::Inconclusive);
                        }
                    }
                    match verdict {
                        Consistency::Consistent(color) => {
                            let ghost before = voxel_block.voxels@;
                            voxel_block.voxels[index].color = Some(color);
                            proof {
                                lemma_num_carved_congruent(before, voxel_block.voxels@);
                                assert forall|m2: int| 0 <= m2 < batch@.len() implies ({
                                    let u = #[trigger] batch@[m2];
                                    let f = flat_index(u.0 as int, u.1 as int, u.2 as int, r);
                                    &&& batch_entry_ok(u, voxel_block.voxels@, r, lay, *plane)
                                    &&& voxel_block.voxels@[f].color == v0[f].color
                                }) by {
                                    assert(batch_entry_ok(batch@[m2], before, r, lay, *plane));
                                    let u = batch@[m2];
                                    crate::voxel::lemma_flat_index_bounds(
                                        u.0 as int,
                                        u.1 as int,
                                        u.2 as int,
                                        r,
                                    );
                                    lemma_flat_index_components(
                                        u.0 as int,
                                        u.1 as int,
                                        u.2 as int,
                                        r,
                                    );
                                    let f = flat_index(u.0 as int, u.1 as int, u.2 as int, r);
                                    assert(lex_before(
                                        layer_position(*plane, u),
                                        (b as int, c as int),
                                    ));
                                    assert(f != index as int);
                                    assert(voxel_block.voxels@[f] == before[f]);
                                }
                            }
                        },
                        Consistency::Inconclusive => {},
                        Consistency::Inconsistent => {
                            proof {
                                assert(batch_entry_ok(
                                    (x, y, z),
                                    voxel_block.voxels@,
                                    r,
                                    lay,
                                    *plane,
                                ));
                                assert(layer_position(*plane, (x, y, z)) == (b as int, c as int));
                                assert(voxel_block.voxels@[index as int].color == v0[index as int].color);
                            }
                            batch.push((x, y, z));
                            proof {
                                assert(flat_index(
                                    (batch@[batch@.len() - 1]).0 as int,
                                    batch@[batch@.len() - 1].1 as int,
                                    batch@[batch@.len() - 1].2 as int,
                                    r,
                                ) == index as int);
                                assert(in_batch(batch@, index as int, r));
                            }
                        },
                        Consistency::Background => {
                            proof {
                                assert(batch_entry_ok(
                                    (x, y, z),
                                    voxel_block.voxels@,
                                    r,
                                    lay,
                                    *plane,
                                ));
                                assert(layer_position(*plane, (x, y, z)) == (b as int, c as int));
                                assert(voxel_block.voxels@[index as int].color == v0[index as int].color);
                            }
                            batch.push((x, y, z));
                            proof {
                                assert(flat_index(
                                    (batch@[batch@.len() - 1]).0 as int,
                                    batch@[batch@.len() - 1].1 as int,
                                    batch@[batch@.len() - 1].2 as int,
                                    r,
                                ) == index as int);
                                assert(in_batch(batch@, index as int, r));
                            }
                        },
                    }
                } else {
                    proof {
                        if background_target(v0, imgs0, index as int, *plane, reverse) {
                            assert(v0[index as int].visible && !v0[index as int].carved);
                            assert(voxel_block.voxels@[index as int].carved);
                        }
                    }
                }
                proof {
                    assert(background_target(v0, imgs0, index as int, *plane, reverse) ==> (
                    voxel_block.voxels@[index as int].carved || in_batch(
                        batch@,
                        index as int,
                        r,
                    )));
                    assert forall|i2: int|
                        #[trigger] background_target(v0, imgs0, i2, *plane, reverse) && cell_swept(
                            i2,
                            r,
                            *plane,
                        ) == lay && lex_before(
                            (cell_row(i2, r, *plane), cell_col(i2, r, *plane)),
                            (b as int, c as int + 1),
                        ) implies (voxel_block.voxels@[i2].carved || in_batch(
                        batch@,
                        i2,
                        r,
                    )) by {
                        lemma_flat_index_recompose(i2, r);
                        if lex_before(
                            (cell_row(i2, r, *plane), cell_col(i2, r, *plane)),
                            (b as int, c as int),
                        ) {
                            if in_batch(batch_pre, i2, r) {
                                let m2 = choose|m2: int|
                                    0 <= m2 < batch_pre.len() && flat_index(
                                        (#[trigger] batch_pre[m2]).0 as int,
                                        batch_pre[m2].1 as int,
                                        batch_pre[m2].2 as int,
                                        r,
                                    ) == i2;
                                assert(batch@[m2] == batch_pre[m2]);
                                assert(in_batch(batch@, i2, r));
                            }
                        } else {
                            assert(i2 == index as int);
                        }
                    }
                }
                c = c + 1;
            }
            proof {
                assert forall|i2: int|
                    #[trigger] background_target(v0, imgs0, i2, *plane, reverse) && cell_swept(
                        i2,
                        r,
                        *plane,
                    ) == lay && lex_before(
                        (cell_row(i2, r, *plane), cell_col(i2, r, *plane)),
                        (b as int + 1, 0),
                    ) implies (voxel_block.voxels@[i2].carved || in_batch(batch@, i2, r)) by {
                    lemma_flat_index_recompose(i2, r);
                }
                assert forall|j: int|
                    0 <= j < v0.len() && (#[trigger] voxel_block.voxels@[j]).color != v0[j].color
                        implies (layer_processed(cell_swept(j, r, *plane), a as int, r, reverse)
                        || (cell_swept(j, r, *plane) == lay && lex_before(
                        (cell_row(j, r, *plane), cell_col(j, r, *plane)),
                        (b as int + 1, 0),
                    ))) by {
                    lemma_flat_index_recompose(j, r);
                }
            }
            b = b + 1;
        }
        proof {
            assert forall|i2: int|
                #[trigger] background_target(v0, imgs0, i2, *plane, reverse) && cell_swept(
                    i2,
                    r,
                    *plane,
                ) == lay implies (voxel_block.voxels@[i2].carved || in_batch(batch@, i2, r)) by {
                lemma_flat_index_recompose(i2, r);
            }
        }
        let ghost before_apply = voxel_block.voxels@;
        let mut m: usize = 0;
        while m < batch.len()
            invariant
                r == resolution,
                v0 == old(voxel_block).voxels@,
                imgs0 == old(images)@,
                imgs0.len() * 255 <= usize::MAX,
                forall|k: int|
                    0 <= k < imgs0.len() ==> (#[trigger] imgs0[k]).wf()
                        && imgs0[k].projection@.len() == v0.len(),
                voxel_block.wf(),
                voxel_block.resolution == resolution,
                voxel_block.length == old(voxel_block).length,
                carving_monotone(v0, voxel_block.voxels@),
                frontier_preserved(v0, voxel_block.voxels@),
                colors_framed(v0, voxel_block.voxels@),
                claims_extended(imgs0, images@),
                blacks_never_claimed(imgs0, images@),
                forall|k: int| 0 <= k < images@.len() ==> (#[trigger] images@[k]).wf(),
                a < resolution,
                lay == layer,
                lay == (if reverse {
                    r - 1 - a
                } else {
                    a as int
                }),
                m <= batch@.len(),
                num_carved(voxel_block.voxels@) == num_carved(before_apply) + m,
                carved_count == num_carved(before_apply) - num_carved(v0),
                forall|n2: int|
                    m <= n2 < batch@.len() ==> batch_entry_ok(
                        #[trigger] batch@[n2],
                        voxel_block.voxels@,
                        r,
                        lay,
                        *plane,
                    ),
                forall|n2: int|
                    0 <= n2 < batch@.len() ==> ((#[trigger] batch@[n2]).0 as int) < r && (
                    batch@[n2].1 as int) < r && (batch@[n2].2 as int) < r && swept_component(
                        *plane,
                        batch@[n2],
                    ) == lay,
                forall|m1: int, m2: int|
                    #![trigger batch@[m1], batch@[m2]]
                    0 <= m1 < m2 < batch@.len() ==> lex_before(
                        layer_position(*plane, batch@[m1]),
                        layer_position(*plane, batch@[m2]),
                    ),
                forall|n2: int|
                    0 <= n2 < batch@.len() ==> voxel_block.voxels@[flat_index(
                        (#[trigger] batch@[n2]).0 as int,
                        batch@[n2].1 as int,
                        batch@[n2].2 as int,
                        r,
                    )].color == v0[flat_index(
                        batch@[n2].0 as int,
                        batch@[n2].1 as int,
                        batch@[n2].2 as int,
                        r,
                    )].color,
                forall|n2: int|
                    0 <= n2 < m ==> voxel_block.voxels@[flat_index(
                        (#[trigger] batch@[n2]).0 as int,
                        batch@[n2].1 as int,
                        batch@[n2].2 as int,
                        r,
                    )].carved,
                forall|i2: int|
                    #[trigger] background_target(v0, imgs0, i2, *plane, reverse) && layer_processed(
                        cell_swept(i2, r, *plane),
                        a as int,
                        r,
                        reverse,
                    ) ==> voxel_block.voxels@[i2].carved,
                forall|i2: int|
                    #[trigger] background_target(v0, imgs0, i2, *plane, reverse) && cell_swept(
                        i2,
                        r,
                        *plane,
                    ) == lay ==> (voxel_block.voxels@[i2].carved || in_batch(batch@, i2, r)),
                forall|j: int|
                    0 <= j < v0.len() && (#[trigger] voxel_block.voxels@[j]).color != v0[j].color
                        ==> (layer_processed(cell_swept(j, r, *plane), a as int, r, reverse) || cell_swept(
                        j,
                        r,
                        *plane,
                    ) == lay),
                (forall|k: int|
                    0 <= k < imgs0.len() ==> !camera_matches(#[trigger] imgs0[k], *plane, reverse))
                    ==> (voxel_block.voxels@ == v0 && carved_count == 0 && (forall|k2: int|
                0 <= k2 < imgs0.len() ==> (#[trigger] images@[k2]).marked@ == imgs0[k2].marked@)
                    && batch@.len() == 0),
            decreases batch@.len() - m,
        {
            let entry = batch[m];
            let ghost prev = voxel_block.voxels@;
            voxel_block.carve(entry.0, entry.1, entry.2);
            proof {
                let ti = flat_index(entry.0 as int, entry.1 as int, entry.2 as int, r);
                assert(batch_entry_ok(batch@[m as int], prev, r, lay, *plane));
                assert(carving_monotone(prev, voxel_block.voxels@));
                crate::voxel::lemma_carving_monotone_trans(v0, prev, voxel_block.voxels@);
                crate::voxel::lemma_flat_index_bounds(
                    entry.0 as int,
                    entry.1 as int,
                    entry.2 as int,
                    r,
                );
                lemma_num_carved_step(prev, voxel_block.voxels@, ti);
                lemma_flat_index_components(entry.0 as int, entry.1 as int, entry.2 as int, r);
                assert(voxel_block.voxels@[ti].color == v0[ti].color);
                assert forall|n2: int| m + 1 <= n2 < batch@.len() implies batch_entry_ok(
                    #[trigger] batch@[n2],
                    voxel_block.voxels@,
                    r,
                    lay,
                    *plane,
                ) by {
                    let u = batch@[n2];
                    assert(batch_entry_ok(u, prev, r, lay, *plane));
                    lemma_flat_index_components(u.0 as int, u.1 as int, u.2 as int, r);
                    crate::voxel::lemma_flat_index_bounds(u.0 as int, u.1 as int, u.2 as int, r);
                    assert(lex_before(
                        layer_position(*plane, batch@[m as int]),
                        layer_position(*plane, u),
                    ));
                }
                assert forall|n2: int|
                    0 <= n2 < batch@.len() implies voxel_block.voxels@[flat_index(
                    (#[trigger] batch@[n2]).0 as int,
                    batch@[n2].1 as int,
                    batch@[n2].2 as int,
                    r,
                )].color == v0[flat_index(
                    batch@[n2].0 as int,
                    batch@[n2].1 as int,
                    batch@[n2].2 as int,
                    r,
                )].color by {
                    let u = batch@[n2];
                    crate::voxel::lemma_flat_index_bounds(u.0 as int, u.1 as int, u.2 as int, r);
                }
                assert forall|n2: int|
                    0 <= n2 < m + 1 implies voxel_block.voxels@[flat_index(
                    (#[trigger] batch@[n2]).0 as int,
                    batch@[n2].1 as int,
                    batch@[n2].2 as int,
                    r,
                )].carved by {
                    let u = batch@[n2];
                    crate::voxel::lemma_flat_index_bounds(u.0 as int, u.1 as int, u.2 as int, r);
                }
            }
            m = m + 1;
        }
        proof {
            lemma_num_carved_le_len(voxel_block.voxels@);
            lemma_num_carved_le_len(v0);
            assert forall|i2: int|
                #[trigger] background_target(v0, imgs0, i2, *plane, reverse) && layer_processed(
                    cell_swept(i2, r, *plane),
                    a as int + 1,
                    r,
                    reverse,
                ) implies voxel_block.voxels@[i2].carved by {
                lemma_flat_index_recompose(i2, r);
                if !layer_processed(cell_swept(i2, r, *plane), a as int, r, reverse) {
                    assert(cell_swept(i2, r, *plane) == lay);
                    if in_batch(batch@, i2, r) {
                        let m2 = choose|m2: int|
                            0 <= m2 < batch@.len() && flat_index(
                                (#[trigger] batch@[m2]).0 as int,
                                batch@[m2].1 as int,
                                batch@[m2].2 as int,
                                r,
                            ) == i2;
                        assert(voxel_block.voxels@[flat_index(
                            (batch@[m2]).0 as int,
                            batch@[m2].1 as int,
                            batch@[m2].2 as int,
                            r,
                        )].carved);
                    }
                }
            }
            assert forall|j: int|
                0 <= j < v0.len() && (#[trigger] voxel_block.voxels@[j]).color != v0[j].color
                    implies layer_processed(cell_swept(j, r, *plane), a as int + 1, r, reverse) by {
                lemma_flat_index_recompose(j, r);
            }
        }
        carved_count = carved_count + batch.len();
        a = a + 1;
    }
    proof {
        assert forall|i2: int|
            0 <= i2 < v0.len() && v0[i2].visible && !v0[i2].carved && #[trigger] sees_background(
                imgs0,
                i2,
                *plane,
                reverse,
            ) implies voxel_block.voxels@[i2].carved by {
            lemma_flat_index_recompose(i2, r);
            assert(background_target(v0, imgs0, i2, *plane, reverse));
            assert(layer_processed(cell_swept(i2, r, *plane), r, r, reverse));
        }
    }
    carved_count
}

/// One sweep's worth of bookkeeping for a whole run: everything the pass
/// loop tracks composes transitively.
proof fn lemma_run_step(
    v0: Seq<Voxel>,
    v1: Seq<Voxel>,
    v2: Seq<Voxel>,
    i0: Seq<Image>,
    i1: Seq<Image>,
    i2: Seq<Image>,
)
    requires
        carving_monotone(v0, v1),
        carving_monotone(v1, v2),
        frontier_preserved(v0, v1),
        frontier_preserved(v1, v2),
        colors_grown(v0, v1),
        colors_framed(v1, v2),
        claims_extended(i0, i1),
        claims_extended(i1, i2),
        blacks_never_claimed(i0, i1),
        blacks_never_claimed(i1, i2),
    ensures
        carving_monotone(v0, v2),
        frontier_preserved(v0, v2),
        colors_grown(v0, v2),
        claims_extended(i0, i2),
        blacks_never_claimed(i0, i2),
{
    crate::voxel::lemma_carving_monotone_trans(v0, v1, v2);
    lemma_claims_extended_trans(i0, i1, i2);
    lemma_blacks_never_claimed_trans(i0, i1, i2);
    assert forall|j: int|
        0 <= j < v0.len() && (#[trigger] v0[j]).visible && !v2[j].carved implies v2[j].visible by {
        assert(!v1[j].carved);
    }
    assert forall|j: int|
        0 <= j < v0.len() && (#[trigger] v2[j]).color != v0[j].color implies (!v0[j].carved
            && v2[j].color is Some) by {
        if v2[j].color != v1[j].color {
            assert(!v1[j].carved);
        }
    }
}

/// Drive the carving to its fixpoint: repeat passes of six sweeps — one
/// per combination of axis and direction, in a fixed order — until a whole
/// pass carves nothing.  Carving is monotonic and irreversible, so the
/// number of cells left uncarved bounds the loop: it terminates within at
/// most `resolution³` carving passes.  Every pass runs every direction, so
/// on return each cell that began the run on the frontier with a matching
/// camera seeing unclaimed pure black at its center has been carved — the
/// black witness can never be claimed away.
///
/// `threshold` is the per-channel color tolerance of the consistency
/// judgment.  Voxels still inconclusive when the fixpoint is reached are
/// never finalized one way or the other: they stay uncarved, so an
/// exporter treats them as kept solid.
#[verifier::rlimit(100)]
pub fn carve(voxel_block: &mut VoxelBlock, images: &mut Vec<Image>, threshold: u8)
    requires
        old(voxel_block).wf(),
        forall|k: int|
            0 <= k < old(images)@.len() ==> ((#[trigger] old(images)@[k]).wf() && old(
                images,
            )@[k].projection@.len() == old(voxel_block).voxels@.len()),
        old(images)@.len() * 255 <= usize::MAX,
    ensures
        final(voxel_block).wf(),
        final(voxel_block).resolution == old(voxel_block).resolution,
        final(voxel_block).length == old(voxel_block).length,
        carving_monotone(old(voxel_block).voxels@, final(voxel_block).voxels@),
        frontier_preserved(old(voxel_block).voxels@, final(voxel_block).voxels@),
        colors_grown(old(voxel_block).voxels@, final(voxel_block).voxels@),
        forall|j: int|
            0 <= j < old(voxel_block).voxels@.len() && old(voxel_block).voxels@[j].carved ==> ((
            #[trigger] final(voxel_block).voxels@[j]).carved
                && !final(voxel_block).voxels@[j].visible),
        claims_extended(old(images)@, final(images)@),
        blacks_never_claimed(old(images)@, final(images)@),
        forall|plane: Plane, reverse: bool|
            #[trigger] background_carved(
                old(voxel_block).voxels@,
                old(images)@,
                final(voxel_block).voxels@,
                plane,
                reverse,
            ),
{
    let ghost v_init = old(voxel_block).voxels@;
    let ghost i_init = old(images)@;
    loop
        invariant
            v_init == old(voxel_block).voxels@,
            i_init == old(images)@,
            forall|k: int|
                0 <= k < i_init.len() ==> ((#[trigger] i_init[k]).wf()
                    && i_init[k].projection@.len() == v_init.len()),
            voxel_block.wf(),
            voxel_block.resolution == old(voxel_block).resolution,
            voxel_block.length == old(voxel_block).length,
            carving_monotone(v_init, voxel_block.voxels@),
            frontier_preserved(v_init, voxel_block.voxels@),
            colors_grown(v_init, voxel_block.voxels@),
            claims_extended(i_init, images@),
            blacks_never_claimed(i_init, images@),
            forall|k: int|
                0 <= k < images@.len() ==> ((#[trigger] images@[k]).wf()
                    && images@[k].projection@.len() == voxel_block.voxels@.len()),
            images@.len() * 255 <= usize::MAX,
        ensures
            voxel_block.wf(),
            voxel_block.resolution == old(voxel_block).resolution,
            voxel_block.length == old(voxel_block).length,
            carving_monotone(v_init, voxel_block.voxels@),
            frontier_preserved(v_init, voxel_block.voxels@),
            colors_grown(v_init, voxel_block.voxels@),
            claims_extended(i_init, images@),
            blacks_never_claimed(i_init, images@),
            forall|plane: Plane, reverse: bool|
                #[trigger] background_carved(
                    v_init,
                    i_init,
                    voxel_block.voxels@,
                    plane,
                    reverse,
                ),
        decreases voxel_block.voxels@.len() - num_carved(voxel_block.voxels@),
    {
        let ghost pass_start = voxel_block.voxels@;
        let mut carved_count: usize = 0;

        let ghost v_a = voxel_block.voxels@;
        let ghost i_a = images@;
        let count = sweep_plane(&Plane::X, false, images, voxel_block, threshold);
        proof {
            lemma_run_step(v_init, v_a, voxel_block.voxels@, i_init, i_a, images@);
            lemma_num_carved_le_len(voxel_block.voxels@);
            lemma_num_carved_le_len(pass_start);
        }
        carved_count = carved_count + count;

        let ghost v_b = voxel_block.voxels@;
        let ghost i_b = images@;
        let count = sweep_plane(&Plane::X, true, images, voxel_block, threshold);
        proof {
            lemma_run_step(v_init, v_b, voxel_block.voxels@, i_init, i_b, images@);
            lemma_num_carved_le_len(voxel_block.voxels@);
            lemma_num_carved_le_len(pass_start);
        }
        carved_count = carved_count + count;

        let ghost v_c = voxel_block.voxels@;
        let ghost i_c = images@;
        let count = sweep_plane(&Plane::Y, false, images, voxel_block, threshold);
        proof {
            lemma_run_step(v_init, v_c, voxel_block.voxels@, i_init, i_c, images@);
            lemma_num_carved_le_len(voxel_block.voxels@);
            lemma_num_carved_le_len(pass_start);
        }
        carved_count = carved_count + count;

        let ghost v_d = voxel_block.voxels@;
        let ghost i_d = images@;
        let count = sweep_plane(&Plane::Y, true, images, voxel_block, threshold);
        proof {
            lemma_run_step(v_init, v_d, voxel_block.voxels@, i_init, i_d, images@);
            lemma_num_carved_le_len(voxel_block.voxels@);
            lemma_num_carved_le_len(pass_start);
        }
        carved_count = carved_count + count;

        let ghost v_e = voxel_block.voxels@;
        let ghost i_e = images@;
        let count = sweep_plane(&Plane::Z, false, images, voxel_block, threshold);
        proof {
            lemma_run_step(v_init, v_e, voxel_block.voxels@, i_init, i_e, images@);
            lemma_num_carved_le_len(voxel_block.voxels@);
            lemma_num_carved_le_len(pass_start);
        }
        carved_count = carved_count + count;

        let ghost v_f = voxel_block.voxels@;
        let ghost i_f = images@;
        let count = sweep_plane(&Plane::Z, true, images, voxel_block, threshold);
        proof {
            lemma_run_step(v_init, v_f, voxel_block.voxels@, i_init, i_f, images@);
            lemma_num_carved_le_len(voxel_block.voxels@);
            lemma_num_carved_le_len(pass_start);
        }
        carved_count = carved_count + count;

        proof {
            let vv = voxel_block.voxels@;
            crate::voxel::lemma_carving_monotone_trans(v_e, v_f, vv);
            crate::voxel::lemma_carving_monotone_trans(v_d, v_e, vv);
            crate::voxel::lemma_carving_monotone_trans(v_c, v_d, vv);
            crate::voxel::lemma_carving_monotone_trans(v_b, v_c, vv);
            crate::voxel::lemma_carving_monotone_trans(v_a, v_b, vv);
            assert forall|plane2: Plane, reverse2: bool|
                #[trigger] background_carved(v_init, i_init, vv, plane2, reverse2) by {
                assert forall|i3: int|
                    0 <= i3 < v_init.len() && v_init[i3].visible && !v_init[i3].carved
                        && #[trigger] sees_background(
                        i_init,
                        i3,
                        plane2,
                        reverse2,
                    ) implies vv[i3].carved by {
                    match plane2 {
                        Plane::X => {
                            if reverse2 {
                                if !v_b[i3].carved {
                                    lemma_sees_background_preserved(
                                        i_init,
                                        i_b,
                                        i3,
                                        plane2,
                                        reverse2,
                                    );
                                    assert(v_c[i3].carved);
                                }
                            } else {
                                if !v_a[i3].carved {
                                    lemma_sees_background_preserved(
                                        i_init,
                                        i_a,
                                        i3,
                                        plane2,
                                        reverse2,
                                    );
                                    assert(v_b[i3].carved);
                                }
                            }
                        },
                        Plane::Y => {
                            if reverse2 {
                                if !v_d[i3].carved {
                                    lemma_sees_background_preserved(
                                        i_init,
                                        i_d,
                                        i3,
                                        plane2,
                                        reverse2,
                                    );
                                    assert(v_e[i3].carved);
                                }
                            } else {
                                if !v_c[i3].carved {
                                    lemma_sees_background_preserved(
                                        i_init,
                                        i_c,
                                        i3,
                                        plane2,
                                        reverse2,
                                    );
                                    assert(v_d[i3].carved);
                                }
                            }
                        },
                        Plane::Z => {
                            if reverse2 {
                                if !v_f[i3].carved {
                                    lemma_sees_background_preserved(
                                        i_init,
                                        i_f,
                                        i3,
                                        plane2,
                                        reverse2,
                                    );
                                    assert(vv[i3].carved);
                                }
                            } else {
                                if !v_e[i3].carved {
                                    lemma_sees_background_preserved(
                                        i_init,
                                        i_e,
                                        i3,
                                        plane2,
                                        reverse2,
                                    );
                                    assert(v_f[i3].carved);
                                }
                            }
                        },
                    }
                }
            }
        }

        if carved_count == 0 {
            break ;
        }
    }
    proof {
        assert forall|j: int|
            0 <= j < v_init.len() && v_init[j].carved implies ((#[trigger] voxel_block.voxels@[j]).carved
            && !voxel_block.voxels@[j].visible) by {
            assert(voxel_block.voxels@[j].carved);
        }
    }
}

} // verus!
