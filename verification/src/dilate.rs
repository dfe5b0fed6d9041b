//! Growing a mask step by step.

use vstd::prelude::*;
use crate::region::{beside, frame, neighbour_coordinates, pixel_in_frame, steps};

verus! {

/// Some pixel of the mask is at most `r` steps away from pixel `i`.
pub open spec fn near(mask: Seq<bool>, w: int, i: int, r: int) -> bool {
    exists|j: int|
        #![trigger mask[j]]
        0 <= j < mask.len() && mask[j] && steps(w, i, j) <= r
}

/// The pixels within `r` steps of the mask.
pub open spec fn dilated(mask: Seq<bool>, w: int, r: int) -> Seq<bool> {
    Seq::new(mask.len(), |i: int| near(mask, w, i, r))
}

/// Pixel `i` or one of its neighbours is in the mask.
pub open spec fn touched(mask: Seq<bool>, w: int, i: int) -> bool {
    ||| mask[i]
    ||| exists|j: int| #![trigger mask[j]] beside(w, mask.len() as int, i, j) && mask[j]
}

/// Within `r + 1` steps means within `r` steps of the pixel or of a neighbour.
proof fn near_step(mask: Seq<bool>, width: u32, height: u32, i: int, r: int)
    requires
        frame(width, height, mask.len() as int),
        0 <= i < mask.len(),
        0 <= r,
    ensures
        near(mask, width as int, i, r + 1) <==> touched(
            dilated(mask, width as int, r),
            width as int,
            i,
        ),
{
    let w = width as int;
    let n = mask.len() as int;
    let d = dilated(mask, w, r);
    neighbour_coordinates(width, height, n, i);
    pixel_in_frame(width, height, n, i);
    if touched(d, w, i) {
        if d[i] {
            let j = choose|j: int|
                #![trigger mask[j]]
                0 <= j < mask.len() && mask[j] && steps(w, i, j) <= r;
            assert(mask[j] && steps(w, i, j) <= r + 1);
        } else {
            let k = choose|k: int| #![trigger d[k]] beside(w, n, i, k) && d[k];
            let j = choose|j: int|
                #![trigger mask[j]]
                0 <= j < mask.len() && mask[j] && steps(w, k, j) <= r;
            assert(steps(w, i, j) <= r + 1);
            assert(mask[j]);
        }
    }
    if near(mask, w, i, r + 1) {
        let j = choose|j: int|
            #![trigger mask[j]]
            0 <= j < mask.len() && mask[j] && steps(w, i, j) <= r + 1;
        pixel_in_frame(width, height, n, j);
        if steps(w, i, j) <= r {
            assert(near(mask, w, i, r));
            assert(d[i]);
        } else {
            let k = if i % w < j % w {
                i + 1
            } else if i % w > j % w {
                i - 1
            } else if i / w < j / w {
                i + w
            } else {
                i - w
            };
            assert(beside(w, n, i, k));
            assert(steps(w, k, j) <= r);
            assert(near(mask, w, k, r));
            assert(d[k]);
        }
    }
}

proof fn near_zero(mask: Seq<bool>, width: u32, height: u32)
    requires
        frame(width, height, mask.len() as int),
    ensures
        dilated(mask, width as int, 0) == mask,
{
    let w = width as int;
    let n = mask.len() as int;
    assert forall|i: int| 0 <= i < n implies dilated(mask, w, 0)[i] == mask[i] by {
        pixel_in_frame(width, height, n, i);
        if mask[i] {
            assert(steps(w, i, i) == 0);
        }
        if near(mask, w, i, 0) {
            let j = choose|j: int|
                #![trigger mask[j]]
                0 <= j < mask.len() && mask[j] && steps(w, i, j) <= 0;
            pixel_in_frame(width, height, n, j);
            assert(i == j);
        }
    }
    assert(dilated(mask, w, 0) =~= mask);
}

/// Growing by `r` steps and then by one more is growing by `r + 1` steps.
pub proof fn dilate_step(mask: Seq<bool>, width: u32, height: u32, r: int)
    requires
        frame(width, height, mask.len() as int),
        0 <= r,
    ensures
        dilated(dilated(mask, width as int, r), width as int, 1) == dilated(
            mask,
            width as int,
            r + 1,
        ),
{
    let w = width as int;
    let d = dilated(mask, w, r);
    near_zero(d, width, height);
    assert forall|i: int| 0 <= i < mask.len() implies dilated(d, w, 1)[i] == dilated(
        mask,
        w,
        r + 1,
    )[i] by {
        near_step(mask, width, height, i, r);
        near_step(d, width, height, i, 0);
    }
    assert(dilated(d, w, 1) =~= dilated(mask, w, r + 1));
}

/// Growing by one step adds exactly the pixels that have a neighbour in the mask
/// to the left, to the right, above or below.
pub proof fn one_step_adds_neighbours(mask: Seq<bool>, width: u32, height: u32, i: int)
    requires
        frame(width, height, mask.len() as int),
        0 <= i < mask.len(),
    ensures
        ({
            let w = width as int;
            dilated(mask, w, 1)[i] <==> (mask[i] || (i % w > 0 && mask[i - 1]) || (i % w + 1 < w
                && mask[i + 1]) || (i >= w && mask[i - w]) || (i + w < mask.len() && mask[i + w]))
        }),
{
    let w = width as int;
    let n = mask.len() as int;
    near_step(mask, width, height, i, 0);
    near_zero(mask, width, height);
    assert(dilated(mask, w, 1)[i] == near(mask, w, i, 1));
    neighbour_coordinates(width, height, n, i);
    pixel_in_frame(width, height, n, i);
    touched_by_neighbour(mask, w, i);
}

proof fn touched_by_neighbour(mask: Seq<bool>, w: int, i: int)
    requires
        w > 0,
        0 <= i < mask.len(),
        i % w + 1 < w ==> i + 1 < mask.len(),
        i % w > 0 ==> i >= 1,
    ensures
        touched(mask, w, i) <==> (mask[i] || (i % w > 0 && mask[i - 1]) || (i % w + 1 < w && mask[i
            + 1]) || (i >= w && mask[i - w]) || (i + w < mask.len() && mask[i + w])),
{
    let n = mask.len() as int;
    if i % w > 0 && mask[i - 1] {
        assert(beside(w, n, i, i - 1) && mask[i - 1]);
    }
    if i % w + 1 < w && mask[i + 1] {
        assert(beside(w, n, i, i + 1) && mask[i + 1]);
    }
    if i >= w && mask[i - w] {
        assert(beside(w, n, i, i - w) && mask[i - w]);
    }
    if i + w < n && mask[i + w] {
        assert(beside(w, n, i, i + w) && mask[i + w]);
    }
}

/// Growing in two stages is growing by the sum of the steps.
pub proof fn dilate_composes(mask: Seq<bool>, width: u32, height: u32, r: int, s: int)
    requires
        frame(width, height, mask.len() as int),
        0 <= r,
        0 <= s,
    ensures
        dilated(dilated(mask, width as int, r), width as int, s) == dilated(
            mask,
            width as int,
            r + s,
        ),
    decreases s,
{
    if s == 0 {
        near_zero(dilated(mask, width as int, r), width, height);
    } else {
        dilate_composes(mask, width, height, r, s - 1);
        dilate_step(dilated(mask, width as int, r), width, height, s - 1);
        dilate_step(mask, width, height, r + s - 1);
    }
}

/// Growing keeps every pixel of the mask, and growing further keeps those too.
pub proof fn dilate_extends(mask: Seq<bool>, width: u32, height: u32, r: int, s: int, i: int)
    requires
        frame(width, height, mask.len() as int),
        0 <= r <= s,
        0 <= i < mask.len(),
    ensures
        mask[i] ==> dilated(mask, width as int, r)[i],
        dilated(mask, width as int, r)[i] ==> dilated(mask, width as int, s)[i],
{
    pixel_in_frame(width, height, mask.len() as int, i);
    if mask[i] {
        assert(steps(width as int, i, i) == 0);
    }
}

proof fn dilate_stable(mask: Seq<bool>, width: u32, height: u32, r: int)
    requires
        frame(width, height, mask.len() as int),
        0 <= r,
        dilated(mask, width as int, 1) == mask,
    ensures
        dilated(mask, width as int, r) == mask,
    decreases r,
{
    if r == 0 {
        near_zero(mask, width, height);
    } else {
        dilate_stable(mask, width, height, r - 1);
        dilate_step(mask, width, height, r - 1);
    }
}

/// Grows the mask by `radius` steps to the left, right, up and down.
pub fn dilate_boundary(mask: &mut Vec<bool>, width: u32, height: u32, radius: u32)
    requires
        frame(width, height, old(mask)@.len() as int),
    ensures
        final(mask)@ == dilated(old(mask)@, width as int, radius as int),
{
    let n = mask.len();
    let w = width as usize;
    let ghost start = mask@;
    let mut round: u32 = 0;
    proof {
        near_zero(start, width, height);
    }
    while round < radius
        invariant
            round <= radius,
            n == mask@.len(),
            n == start.len(),
            w == width,
            frame(width, height, n as int),
            mask@ == dilated(start, width as int, round as int),
        ensures
            mask@ == dilated(start, width as int, radius as int),
        decreases radius - round,
    {
        let ghost before = mask@;
        let mut additions: Vec<usize> = Vec::new();
        let mut idx: usize = 0;
        while idx < n
            invariant
                idx <= n,
                n == mask@.len(),
                w == width,
                frame(width, height, n as int),
                mask@ == before,
                forall|a: int|
                    #![trigger additions@[a]]
                    0 <= a < additions@.len() ==> additions@[a] < idx && touched(
                        before,
                        w as int,
                        additions@[a] as int,
                    ),
                forall|i: int|
                    #![trigger before[i]]
                    0 <= i < idx && !before[i] && touched(before, w as int, i) ==> exists|a: int|
                        0 <= a < additions@.len() && #[trigger] additions@[a] == i,
            decreases n - idx,
        {
            proof {
                neighbour_coordinates(width, height, n as int, idx as int);
                pixel_in_frame(width, height, n as int, idx as int);
            }
            let ghost found = additions@;
            if !mask[idx] {
                let x = idx % w;
                let has_neighbor: bool = (x > 0 && mask[idx - 1]) || (x + 1 < w && mask[idx + 1])
                    || (idx >= w && mask[idx - w]) || (w < n - idx && mask[idx + w]);
                proof {
                    if has_neighbor {
                        let j: int = if x > 0 && before[idx - 1] {
                            idx - 1
                        } else if x + 1 < w && before[idx + 1] {
                            idx + 1
                        } else if idx >= w && before[idx - w] {
                            idx - w
                        } else {
                            idx + w
                        };
                        assert(before[j] && beside(w as int, n as int, idx as int, j));
                    }
                    assert(has_neighbor == touched(before, w as int, idx as int));
                }
                if has_neighbor {
                    additions.push(idx);
                }
            }
            proof {
                assert forall|i: int|
                    #![trigger before[i]]
                    0 <= i < idx + 1 && !before[i] && touched(
                        before,
                        w as int,
                        i,
                    ) implies exists|a: int|
                    0 <= a < additions@.len() && #[trigger] additions@[a] == i by {
                    if i < idx {
                        let a = choose|a: int| 0 <= a < found.len() && #[trigger] found[a] == i;
                        assert(additions@[a] == i);
                    } else {
                        assert(additions@[additions@.len() - 1] == i);
                    }
                }
            }
            idx += 1;
        }
        let mut k: usize = 0;
        while k < additions.len()
            invariant
                k <= additions@.len(),
                n == mask@.len(),
                n == before.len(),
                forall|a: int|
                    #![trigger additions@[a]]
                    0 <= a < additions@.len() ==> additions@[a] < n,
                forall|i: int|
                    #![trigger mask@[i]]
                    0 <= i < n ==> (mask@[i] <==> before[i] || exists|a: int|
                        0 <= a < k && #[trigger] additions@[a] == i),
            decreases additions@.len() - k,
        {
            let ghost prior = mask@;
            let at = additions[k];
            mask.set(at, true);
            proof {
                assert forall|i: int| #![trigger mask@[i]] 0 <= i < n implies (mask@[i]
                    <==> before[i] || exists|a: int|
                    0 <= a < k + 1 && #[trigger] additions@[a] == i) by {
                    assert(additions@[k as int] == at);
                    assert(prior[i] <==> before[i] || exists|a: int|
                        0 <= a < k && #[trigger] additions@[a] == i);
                }
            }
            k += 1;
        }
        proof {
            assert forall|i: int| 0 <= i < n implies mask@[i] == dilated(
                start,
                width as int,
                round + 1,
            )[i] by {
                near_step(start, width, height, i, round as int);
                assert(mask@[i] <==> before[i] || exists|a: int|
                    0 <= a < additions@.len() && #[trigger] additions@[a] == i);
                if touched(before, w as int, i) && !before[i] {
                    assert(mask@[i]);
                }
            }
            assert(mask@ =~= dilated(start, width as int, round + 1));
        }
        if additions.len() == 0 {
            proof {
                assert(mask@ =~= before);
                dilate_step(start, width, height, round as int);
                dilate_stable(before, width, height, radius - round);
                dilate_composes(start, width, height, round as int, radius - round);
            }
            break;
        }
        round += 1;
    }
}

} // verus!
