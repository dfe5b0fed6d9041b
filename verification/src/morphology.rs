//! Erosion, dilation, opening and closing of masks with square windows.

use vstd::prelude::*;
use crate::params::MorphologyParams;
use crate::region::{frame, gap, pixel_in_frame, pixel_inside};

verus! {

/// Pixel `j` lies in the window of radius `r` around pixel `i`.
pub open spec fn in_window(w: int, i: int, j: int, r: int) -> bool {
    gap(i % w, j % w) <= r && gap(i / w, j / w) <= r
}

/// The whole window around pixel `i`, as far as it lies in the image, is in the
/// mask.
pub open spec fn window_full(mask: Seq<bool>, w: int, i: int, r: int) -> bool {
    forall|j: int|
        #![trigger mask[j]]
        0 <= j < mask.len() && in_window(w, i, j, r) ==> mask[j]
}

/// Some pixel of the window around pixel `i` is in the mask.
pub open spec fn window_hit(mask: Seq<bool>, w: int, i: int, r: int) -> bool {
    exists|j: int|
        #![trigger mask[j]]
        0 <= j < mask.len() && in_window(w, i, j, r) && mask[j]
}

/// The pixels whose whole window is in the mask.
pub open spec fn eroded(mask: Seq<bool>, w: int, r: int) -> Seq<bool> {
    Seq::new(mask.len(), |i: int| window_full(mask, w, i, r))
}

/// The pixels whose window meets the mask.
pub open spec fn expanded(mask: Seq<bool>, w: int, r: int) -> Seq<bool> {
    Seq::new(mask.len(), |i: int| window_hit(mask, w, i, r))
}

/// Erosion, then dilation: what is narrower than the window goes.
pub open spec fn opened(mask: Seq<bool>, w: int, r: int) -> Seq<bool> {
    expanded(eroded(mask, w, r), w, r)
}

/// Dilation, then erosion: gaps narrower than the window close.
pub open spec fn closed_up(mask: Seq<bool>, w: int, r: int) -> Seq<bool> {
    eroded(expanded(mask, w, r), w, r)
}

/// Looks through the window around pixel `i` for a pixel whose mask is `wanted`.
fn window_has(
    mask: &[bool],
    width: u32,
    height: u32,
    i: usize,
    radius: u32,
    wanted: bool,
) -> (found: bool)
    requires
        frame(width, height, mask@.len() as int),
        i < mask@.len(),
    ensures
        found <==> exists|j: int|
            #![trigger mask@[j]]
            0 <= j < mask@.len() && in_window(width as int, i as int, j, radius as int) && mask@[j]
                == wanted,
{
    let ghost n = mask@.len() as int;
    let ghost wi = width as int;
    proof {
        pixel_in_frame(width, height, n, i as int);
    }
    let w = width as usize;
    let h = height as usize;
    let r = radius as usize;
    let x = i % w;
    let y = i / w;
    let x0: usize = if x > r {
        x - r
    } else {
        0
    };
    let y0: usize = if y > r {
        y - r
    } else {
        0
    };
    let x1: usize = if r < w - 1 - x {
        x + r
    } else {
        w - 1
    };
    let y1: usize = if r < h - 1 - y {
        y + r
    } else {
        h - 1
    };
    let mut py: usize = y0;
    while py <= y1
        invariant
            frame(width, height, n),
            n == mask@.len(),
            wi == width,
            w == width,
            h == height,
            x == (i as int) % wi,
            y == (i as int) / wi,
            x1 < w,
            y1 < h,
            y0 <= py <= y1 + 1,
            forall|j: int|
                #![trigger mask@[j]]
                0 <= j < n && in_window(wi, i as int, j, radius as int) && j / wi < py ==> mask@[j]
                    != wanted,
            x0 == if x > radius {
                x - radius
            } else {
                0
            },
            y0 == if y > radius {
                y - radius
            } else {
                0
            },
            x1 == if radius < w - 1 - x {
                x + radius
            } else {
                w - 1
            },
            y1 == if radius < h - 1 - y {
                y + radius
            } else {
                h - 1
            },
            x < w,
            y < h,
        decreases y1 + 1 - py,
    {
        let mut px: usize = x0;
        while px <= x1
            invariant
                frame(width, height, n),
                n == mask@.len(),
                wi == width,
                w == width,
                h == height,
                x == (i as int) % wi,
                y == (i as int) / wi,
                x1 < w,
                y1 < h,
                y0 <= py <= y1,
                x0 <= px <= x1 + 1,
                forall|j: int|
                    #![trigger mask@[j]]
                    0 <= j < n && in_window(wi, i as int, j, radius as int) && (j / wi < py || (j
                        / wi == py && j % wi < px)) ==> mask@[j] != wanted,
                x0 == if x > radius {
                    x - radius
                } else {
                    0
                },
                y0 == if y > radius {
                    y - radius
                } else {
                    0
                },
                x1 == if radius < w - 1 - x {
                    x + radius
                } else {
                    w - 1
                },
                y1 == if radius < h - 1 - y {
                    y + radius
                } else {
                    h - 1
                },
                x < w,
                y < h,
            decreases x1 + 1 - px,
        {
            proof {
                pixel_inside(width, height, n, px as int, py as int);
                assert(0 <= py * w <= py * w + px);
            }
            let at: usize = py * w + px;
            if mask[at] == wanted {
                proof {
                    assert(gap(x as int, px as int) <= radius && gap(y as int, py as int)
                        <= radius);
                    assert(in_window(wi, i as int, at as int, radius as int));
                    assert(mask@[at as int] == wanted);
                }
                return true;
            }
            proof {
                assert forall|j: int|
                    #![trigger mask@[j]]
                    0 <= j < n && in_window(wi, i as int, j, radius as int) && (j / wi < py || (j
                        / wi == py && j % wi < px + 1)) implies mask@[j] != wanted by {
                    pixel_in_frame(width, height, n, j);
                    if j / wi == py && j % wi == px {
                        assert(j == at);
                    }
                }
            }
            px += 1;
        }
        proof {
            assert forall|j: int|
                #![trigger mask@[j]]
                0 <= j < n && in_window(wi, i as int, j, radius as int) && j / wi < py
                    + 1 implies mask@[j] != wanted by {
                pixel_in_frame(width, height, n, j);
                assert(gap(x as int, j % wi) <= radius && gap(y as int, j / wi) <= radius);
            }
        }
        py += 1;
    }
    proof {
        assert forall|j: int|
            #![trigger mask@[j]]
            0 <= j < n && in_window(wi, i as int, j, radius as int) implies mask@[j] != wanted by {
            pixel_in_frame(width, height, n, j);
            assert(gap(x as int, j % wi) <= radius && gap(y as int, j / wi) <= radius);
        }
    }
    false
}

/// Keeps the pixels whose whole window is in the mask.
pub fn erode(mask: &[bool], width: u32, height: u32, radius: u32) -> (out: Vec<bool>)
    requires
        frame(width, height, mask@.len() as int),
    ensures
        out@ == eroded(mask@, width as int, radius as int),
{
    let mut out: Vec<bool> = Vec::new();
    let mut i: usize = 0;
    while i < mask.len()
        invariant
            i <= mask@.len(),
            frame(width, height, mask@.len() as int),
            out@.len() == i,
            forall|k: int|
                #![trigger out@[k]]
                0 <= k < i ==> out@[k] == eroded(mask@, width as int, radius as int)[k],
        decreases mask@.len() - i,
    {
        let gap_found = window_has(mask, width, height, i, radius, false);
        out.push(!gap_found);
        i += 1;
    }
    assert(out@ =~= eroded(mask@, width as int, radius as int));
    out
}

/// Adds the pixels whose window meets the mask.
pub fn dilate(mask: &[bool], width: u32, height: u32, radius: u32) -> (out: Vec<bool>)
    requires
        frame(width, height, mask@.len() as int),
    ensures
        out@ == expanded(mask@, width as int, radius as int),
{
    let mut out: Vec<bool> = Vec::new();
    let mut i: usize = 0;
    while i < mask.len()
        invariant
            i <= mask@.len(),
            frame(width, height, mask@.len() as int),
            out@.len() == i,
            forall|k: int|
                #![trigger out@[k]]
                0 <= k < i ==> out@[k] == expanded(mask@, width as int, radius as int)[k],
        decreases mask@.len() - i,
    {
        let hit = window_has(mask, width, height, i, radius, true);
        out.push(hit);
        i += 1;
    }
    assert(out@ =~= expanded(mask@, width as int, radius as int));
    out
}

/// Removes what is narrower than the window.
pub fn opening(mask: &[bool], width: u32, height: u32, radius: u32) -> (out: Vec<bool>)
    requires
        frame(width, height, mask@.len() as int),
    ensures
        out@ == opened(mask@, width as int, radius as int),
{
    let inner = erode(mask, width, height, radius);
    dilate(&inner, width, height, radius)
}

/// Closes gaps narrower than the window.
pub fn closing(mask: &[bool], width: u32, height: u32, radius: u32) -> (out: Vec<bool>)
    requires
        frame(width, height, mask@.len() as int),
    ensures
        out@ == closed_up(mask@, width as int, radius as int),
{
    let outer = dilate(mask, width, height, radius);
    erode(&outer, width, height, radius)
}

/// The mask closed, then opened, then eroded.
pub open spec fn cleaned(mask: Seq<bool>, w: int, p: MorphologyParams) -> Seq<bool> {
    let a = if p.close_radius > 0 {
        closed_up(mask, w, p.close_radius as int)
    } else {
        mask
    };
    let b = if p.open_radius > 0 {
        opened(a, w, p.open_radius as int)
    } else {
        a
    };
    if p.erode_radius > 0 {
        eroded(b, w, p.erode_radius as int)
    } else {
        b
    }
}

/// Closes, opens and erodes the mask.
pub fn clean_mask(mask: Vec<bool>, width: u32, height: u32, p: &MorphologyParams) -> (out: Vec<
    bool,
>)
    requires
        frame(width, height, mask@.len() as int),
    ensures
        out@ == cleaned(mask@, width as int, *p),
        out@.len() == mask@.len(),
{
    let a = if p.close_radius > 0 {
        closing(&mask, width, height, p.close_radius)
    } else {
        mask
    };
    let b = if p.open_radius > 0 {
        opening(&a, width, height, p.open_radius)
    } else {
        a
    };
    if p.erode_radius > 0 {
        erode(&b, width, height, p.erode_radius)
    } else {
        b
    }
}

/// Cleaning keeps the number of pixels.
pub proof fn cleaning_keeps_length(mask: Seq<bool>, w: int, p: MorphologyParams)
    ensures
        cleaned(mask, w, p).len() == mask.len(),
{
}

/// A pixel is added by dilation only where a pixel of the square around it is in
/// the mask, and lost by erosion only where one of them is not.
pub proof fn windows_reach_no_further(mask: Seq<bool>, w: int, r: int, i: int) -> (j: int)
    requires
        0 <= i < mask.len(),
        expanded(mask, w, r)[i] || !eroded(mask, w, r)[i],
    ensures
        0 <= j < mask.len(),
        -r <= i % w - j % w <= r,
        -r <= i / w - j / w <= r,
        expanded(mask, w, r)[i] && eroded(mask, w, r)[i] ==> mask[j],
        !expanded(mask, w, r)[i] ==> !mask[j],
        expanded(mask, w, r)[i] && !eroded(mask, w, r)[i] ==> exists|k: int|
            #![trigger mask[k]]
            0 <= k < mask.len() && -r <= i % w - k % w <= r && -r <= i / w - k / w <= r && mask[k]
                != mask[j],
{
    if expanded(mask, w, r)[i] {
        let j = choose|j: int|
            #![trigger mask[j]]
            0 <= j < mask.len() && in_window(w, i, j, r) && mask[j];
        if !eroded(mask, w, r)[i] {
            let k = choose|k: int|
                #![trigger mask[k]]
                0 <= k < mask.len() && in_window(w, i, k, r) && !mask[k];
            assert(mask[k] != mask[j]);
        }
        j
    } else {
        choose|k: int|
            #![trigger mask[k]]
            0 <= k < mask.len() && in_window(w, i, k, r) && !mask[k]
    }
}

/// Cleaning closes first, then opens, then erodes; a radius of zero leaves its step
/// out.
pub proof fn cleaning_goes_in_order(mask: Seq<bool>, w: int, p: MorphologyParams)
    ensures
        p.close_radius == 0 && p.open_radius == 0 && p.erode_radius == 0 ==> cleaned(mask, w, p)
            == mask,
        p.close_radius > 0 && p.open_radius == 0 && p.erode_radius == 0 ==> cleaned(mask, w, p)
            == closed_up(mask, w, p.close_radius as int),
        p.close_radius == 0 && p.open_radius > 0 && p.erode_radius == 0 ==> cleaned(mask, w, p)
            == opened(mask, w, p.open_radius as int),
        p.close_radius == 0 && p.open_radius == 0 && p.erode_radius > 0 ==> cleaned(mask, w, p)
            == eroded(mask, w, p.erode_radius as int),
        p.close_radius > 0 && p.open_radius > 0 && p.erode_radius == 0 ==> cleaned(mask, w, p)
            == opened(
            closed_up(mask, w, p.close_radius as int),
            w,
            p.open_radius as int,
        ),
        p.close_radius > 0 && p.open_radius > 0 && p.erode_radius > 0 ==> cleaned(mask, w, p)
            == eroded(
            opened(closed_up(mask, w, p.close_radius as int), w, p.open_radius as int),
            w,
            p.erode_radius as int,
        ),
{
}

/// A pixel survives erosion exactly where all pixels of the square around it, as
/// far as they lie in the image, are in the mask; and it is added by dilation
/// exactly where one of them is.
pub proof fn windows_are_squares(
    mask: Seq<bool>,
    width: u32,
    height: u32,
    r: int,
    i: int,
    x: int,
    y: int,
)
    requires
        frame(width, height, mask.len() as int),
        0 <= i < mask.len(),
        0 <= r,
        0 <= x < width,
        0 <= y < height,
        -r <= x - i % (width as int) <= r,
        -r <= y - i / (width as int) <= r,
    ensures
        eroded(mask, width as int, r)[i] ==> mask[y * width + x],
        mask[y * width + x] ==> expanded(mask, width as int, r)[i],
{
    pixel_inside(width, height, mask.len() as int, x, y);
    let j = y * width + x;
    assert(in_window(width as int, i, j, r));
    assert(mask[j] == mask[j]);
}

/// Erosion takes pixels away, dilation adds some: the mask lies between the two.
pub proof fn erosion_and_dilation_bound(mask: Seq<bool>, w: int, r: int, i: int)
    requires
        0 <= r,
        0 <= i < mask.len(),
    ensures
        eroded(mask, w, r)[i] ==> mask[i],
        mask[i] ==> expanded(mask, w, r)[i],
{
    assert(in_window(w, i, i, r));
}

/// Opening takes pixels away, closing adds some.
pub proof fn opening_and_closing_bound(mask: Seq<bool>, w: int, r: int, i: int)
    requires
        0 <= r,
        0 <= i < mask.len(),
    ensures
        opened(mask, w, r)[i] ==> mask[i],
        mask[i] ==> closed_up(mask, w, r)[i],
{
    let e = eroded(mask, w, r);
    if opened(mask, w, r)[i] {
        let j = choose|j: int|
            #![trigger e[j]]
            0 <= j < e.len() && in_window(w, i, j, r) && e[j];
        assert(window_full(mask, w, j, r));
        assert(in_window(w, j, i, r));
    }
    if mask[i] {
        let d = expanded(mask, w, r);
        assert forall|j: int|
            #![trigger d[j]]
            0 <= j < d.len() && in_window(w, i, j, r) implies d[j] by {
            assert(in_window(w, j, i, r));
            assert(mask[i]);
        }
    }
}

/// A larger mask stays larger under all four operations.
pub proof fn operations_are_monotone(a: Seq<bool>, b: Seq<bool>, w: int, r: int)
    requires
        a.len() == b.len(),
        forall|i: int| #![trigger b[i]] 0 <= i < a.len() && a[i] ==> b[i],
    ensures
        forall|i: int|
            0 <= i < a.len() && #[trigger] eroded(a, w, r)[i] ==> eroded(b, w, r)[i],
        forall|i: int|
            0 <= i < a.len() && #[trigger] expanded(a, w, r)[i] ==> expanded(b, w, r)[i],
        forall|i: int|
            0 <= i < a.len() && #[trigger] opened(a, w, r)[i] ==> opened(b, w, r)[i],
        forall|i: int|
            0 <= i < a.len() && #[trigger] closed_up(a, w, r)[i] ==> closed_up(b, w, r)[i],
{
    monotone_once(a, b, w, r);
    monotone_once(eroded(a, w, r), eroded(b, w, r), w, r);
    monotone_once(expanded(a, w, r), expanded(b, w, r), w, r);
}

proof fn monotone_once(a: Seq<bool>, b: Seq<bool>, w: int, r: int)
    requires
        a.len() == b.len(),
        forall|i: int| #![trigger b[i]] 0 <= i < a.len() && a[i] ==> b[i],
    ensures
        forall|i: int|
            #![trigger eroded(a, w, r)[i]]
            #![trigger eroded(b, w, r)[i]]
            0 <= i < a.len() && eroded(a, w, r)[i] ==> eroded(b, w, r)[i],
        forall|i: int|
            #![trigger expanded(a, w, r)[i]]
            #![trigger expanded(b, w, r)[i]]
            0 <= i < a.len() && expanded(a, w, r)[i] ==> expanded(b, w, r)[i],
{
    assert forall|i: int| 0 <= i < a.len() && eroded(a, w, r)[i] implies eroded(b, w, r)[i] by {
        assert forall|j: int|
            #![trigger b[j]]
            0 <= j < b.len() && in_window(w, i, j, r) implies b[j] by {
            assert(a[j]);
        }
    }
    assert forall|i: int| 0 <= i < a.len() && expanded(a, w, r)[i] implies expanded(b, w, r)[i] by {
        let j = choose|j: int|
            #![trigger a[j]]
            0 <= j < a.len() && in_window(w, i, j, r) && a[j];
        assert(b[j]);
    }
}

/// Erosion is dilation of the complement.
pub proof fn erosion_is_dual_to_dilation(mask: Seq<bool>, w: int, r: int, i: int)
    requires
        0 <= i < mask.len(),
    ensures
        eroded(mask, w, r)[i] <==> !expanded(Seq::new(mask.len(), |k: int| !mask[k]), w, r)[i],
{
    let c = Seq::new(mask.len(), |k: int| !mask[k]);
    if !eroded(mask, w, r)[i] {
        let j = choose|j: int|
            #![trigger mask[j]]
            0 <= j < mask.len() && in_window(w, i, j, r) && !mask[j];
        assert(c[j]);
    }
    if expanded(c, w, r)[i] {
        let j = choose|j: int| #![trigger c[j]] 0 <= j < c.len() && in_window(w, i, j, r) && c[j];
        assert(!mask[j]);
    }
}

/// Opening and closing are done once: repeating them changes nothing.
pub proof fn opening_and_closing_idempotent(mask: Seq<bool>, w: int, r: int)
    requires
        0 <= r,
    ensures
        opened(opened(mask, w, r), w, r) == opened(mask, w, r),
        closed_up(closed_up(mask, w, r), w, r) == closed_up(mask, w, r),
{
    let e = eroded(mask, w, r);
    let d = expanded(mask, w, r);
    assert(closed_up(e, w, r) == e) by {
        assert forall|i: int| 0 <= i < e.len() implies closed_up(e, w, r)[i] == e[i] by {
            opening_and_closing_bound(e, w, r, i);
            if closed_up(e, w, r)[i] {
                let o = opened(mask, w, r);
                assert(o == expanded(e, w, r));
                assert(window_full(o, w, i, r));
                assert forall|j: int|
                    #![trigger mask[j]]
                    0 <= j < mask.len() && in_window(w, i, j, r) implies mask[j] by {
                    assert(o[j]);
                    opening_and_closing_bound(mask, w, r, j);
                }
            }
        }
        assert(closed_up(e, w, r) =~= e);
    }
    assert(opened(d, w, r) == d) by {
        assert forall|i: int| 0 <= i < d.len() implies opened(d, w, r)[i] == d[i] by {
            opening_and_closing_bound(d, w, r, i);
            if d[i] {
                let j = choose|j: int|
                    #![trigger mask[j]]
                    0 <= j < mask.len() && in_window(w, i, j, r) && mask[j];
                opening_and_closing_bound(mask, w, r, j);
                let c = closed_up(mask, w, r);
                assert(c == eroded(d, w, r));
                assert(c[j]);
                assert(window_hit(c, w, i, r));
            }
        }
        assert(opened(d, w, r) =~= d);
    }
    assert(opened(opened(mask, w, r), w, r) == expanded(closed_up(e, w, r), w, r));
    assert(closed_up(closed_up(mask, w, r), w, r) == eroded(opened(d, w, r), w, r));
}

} // verus!
