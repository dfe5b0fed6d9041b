//! Connected components of part of an image.

use vstd::prelude::*;
use crate::classes::{
    class_count, class_number, class_numbers_dense, connected, edges_within, is_classes, join_all,
    join_all_is_classes, join_all_is_connectivity,
};
use crate::region::{frame, pixel_in_frame};
use crate::uf::Uf;

verus! {

/// Links of the first `k` pixels to their left and upper neighbours, where both
/// take part.
pub open spec fn part_edges(part: Seq<bool>, w: int, k: int) -> Seq<(int, int)>
    decreases k,
{
    if k <= 0 {
        seq![]
    } else {
        let i = k - 1;
        let before = part_edges(part, w, i);
        let left = if part[i] && i % w > 0 && part[i - 1] {
            before.push((i, i - 1))
        } else {
            before
        };
        if part[i] && i >= w && part[i - w] {
            left.push((i, i - w))
        } else {
            left
        }
    }
}

/// The components of the pixels that take part; every other pixel alone.
pub open spec fn components(part: Seq<bool>, w: int) -> Seq<int> {
    join_all(part.len(), part_edges(part, w, part.len() as int))
}

/// Number of components whose first pixel is below `k`.
pub open spec fn part_leaders(c: Seq<int>, part: Seq<bool>, k: int) -> nat
    decreases k,
{
    if k <= 0 {
        0
    } else {
        part_leaders(c, part, k - 1) + if part[k - 1] && c[k - 1] == k - 1 {
            1nat
        } else {
            0nat
        }
    }
}

/// The component number of each pixel: components count from 0 in order of
/// their first pixel, and pixels that take no part have the number 0.
pub open spec fn component_numbers(part: Seq<bool>, w: int) -> Seq<int> {
    let c = components(part, w);
    Seq::new(
        part.len(),
        |i: int|
            if part[i] {
                part_leaders(c, part, c[i]) as int
            } else {
                0
            },
    )
}

/// The links join a pixel to its left neighbour in the same row or to the pixel
/// above it, exactly where both take part.
pub proof fn part_edges_are_links(part: Seq<bool>, w: int, k: int)
    requires
        w > 0,
        0 <= k <= part.len(),
    ensures
        edges_within(k as nat, part_edges(part, w, k)),
        forall|i: int, j: int|
            part_edges(part, w, k).contains((i, j)) <==> {
                &&& 0 <= i < k
                &&& part[i]
                &&& part[j]
                &&& (i % w > 0 && j == i - 1) || (i >= w && j == i - w)
            },
    decreases k,
{
    let e = part_edges(part, w, k);
    if k > 0 {
        part_edges_are_links(part, w, k - 1);
        let i0 = k - 1;
        let before = part_edges(part, w, i0);
        let takes_left = part[i0] && i0 % w > 0 && part[i0 - 1];
        let takes_up = part[i0] && i0 >= w && part[i0 - w];
        assert(i0 % w > 0 ==> i0 >= 1) by {
            if i0 == 0 {
                assert(0int % w == 0) by (nonlinear_arith)
                    requires
                        w > 0,
                ;
            }
        }
        let left = if takes_left {
            before.push((i0, i0 - 1))
        } else {
            before
        };
        assert forall|i: int, j: int| e.contains((i, j)) <==> (before.contains((i, j)) || (
        takes_left && i == i0 && j == i0 - 1) || (takes_up && i == i0 && j == i0 - w)) by {
            if before.contains((i, j)) {
                let m = choose|m: int| 0 <= m < before.len() && before[m] == (i, j);
                assert(left[m] == (i, j));
                assert(e[m] == (i, j));
            }
            if takes_left && i == i0 && j == i0 - 1 {
                assert(left[before.len() as int] == (i, j));
                assert(e[before.len() as int] == (i, j));
            }
            if takes_up && i == i0 && j == i0 - w {
                assert(e[left.len() as int] == (i, j));
            }
            if e.contains((i, j)) {
                let m = choose|m: int| 0 <= m < e.len() && e[m] == (i, j);
                if m < before.len() {
                    assert(before[m] == (i, j));
                }
            }
        }
        assert forall|m: int| #![trigger e[m]] 0 <= m < e.len() implies 0 <= e[m].0 < k && 0
            <= e[m].1 < k by {
            if m < before.len() {
                assert(e[m] == before[m]);
            }
        }
    }
}

/// The partition into components is canonical.
pub proof fn components_are_classes(part: Seq<bool>, w: int)
    requires
        w > 0,
    ensures
        is_classes(components(part, w)),
        components(part, w).len() == part.len(),
{
    part_edges_are_links(part, w, part.len() as int);
    join_all_is_classes(part.len(), part_edges(part, w, part.len() as int));
}

/// Two pixels are in one component exactly when a chain of neighbours that take
/// part leads from one to the other.
pub proof fn components_are_connected(part: Seq<bool>, w: int, i: int, j: int)
    requires
        w > 0,
        0 <= i < part.len(),
        0 <= j < part.len(),
    ensures
        components(part, w)[i] == components(part, w)[j] <==> connected(
            part_edges(part, w, part.len() as int),
            i,
            j,
        ),
{
    part_edges_are_links(part, w, part.len() as int);
    join_all_is_connectivity(part.len(), part_edges(part, w, part.len() as int), i, j);
}

/// A component's pixels all take part, so its first pixel does.
proof fn leader_takes_part(part: Seq<bool>, w: int, i: int)
    requires
        w > 0,
        0 <= i < part.len(),
        part[i],
    ensures
        part[components(part, w)[i]],
{
    components_are_classes(part, w);
    let c = components(part, w);
    let l = c[i];
    assert(c[l] == l);
    components_are_connected(part, w, i, l);
    part_edges_are_links(part, w, part.len() as int);
    let edges = part_edges(part, w, part.len() as int);
    let path = choose|path: Seq<int>| crate::classes::is_path(edges, path, i, l);
    if path.len() > 1 {
        let k = path.len() - 1;
        assert(path[k] == l);
        assert(crate::classes::path_step(edges, path, k));
        assert(edges.contains((path[k - 1], path[k])) || edges.contains((path[k], path[k - 1])));
    }
}

proof fn part_leaders_monotone(c: Seq<int>, part: Seq<bool>, j: int, k: int)
    requires
        0 <= j <= k,
    ensures
        part_leaders(c, part, j) <= part_leaders(c, part, k) <= part_leaders(c, part, j) + (k - j),
    decreases k - j,
{
    if j < k {
        part_leaders_monotone(c, part, j, k - 1);
    }
}

/// Pixels that take part have the same number exactly when they are in one
/// component, and every number lies below the number of components.
pub proof fn component_numbers_dense(part: Seq<bool>, w: int, i: int, j: int)
    requires
        w > 0,
        0 <= i < part.len(),
        0 <= j < part.len(),
        part[i],
        part[j],
    ensures
        component_numbers(part, w)[i] == component_numbers(part, w)[j] <==> components(part, w)[i]
            == components(part, w)[j],
        0 <= component_numbers(part, w)[i] < part_leaders(
            components(part, w),
            part,
            part.len() as int,
        ),
{
    components_are_classes(part, w);
    leader_takes_part(part, w, i);
    leader_takes_part(part, w, j);
    let c = components(part, w);
    assert(c[c[i]] == c[i] && c[c[j]] == c[j]);
    part_leaders_monotone(c, part, c[i] + 1, c.len() as int);
    if c[i] < c[j] {
        part_leaders_monotone(c, part, c[i] + 1, c[j]);
    } else if c[j] < c[i] {
        part_leaders_monotone(c, part, c[j] + 1, c[i]);
    }
}

/// The pixels of the region that are not barred.
pub open spec fn participants(region_pixels: Seq<usize>, barrier: Seq<bool>) -> Seq<bool> {
    Seq::new(barrier.len(), |i: int| !barrier[i] && region_pixels.contains(i as usize))
}

/// A pixel takes part exactly if it is one of the region's and no barrier stands
/// on it.
pub proof fn region_pixels_take_part(region_pixels: Seq<usize>, barrier: Seq<bool>, k: int, i: int)
    requires
        0 <= k < region_pixels.len(),
        region_pixels[k] < barrier.len(),
        0 <= i < barrier.len(),
    ensures
        participants(region_pixels, barrier).len() == barrier.len(),
        participants(region_pixels, barrier)[region_pixels[k] as int] == !barrier[
            region_pixels[k] as int
        ],
        barrier[i] ==> !participants(region_pixels, barrier)[i],
        participants(region_pixels, barrier)[i] ==> region_pixels.contains(i as usize),
{
    assert(region_pixels.contains(region_pixels[k]));
}

/// Numbers the 4-connected components of the region's pixels that are not
/// barred. All other pixels have the number 0.
pub fn ccl_within_region(
    region_pixels: &[usize],
    barrier: &[bool],
    width: u32,
    height: u32,
) -> (numbers: Vec<usize>)
    requires
        frame(width, height, barrier@.len() as int),
        forall|k: int|
            #![trigger region_pixels@[k]]
            0 <= k < region_pixels@.len() ==> region_pixels@[k] < barrier@.len(),
    ensures
        numbers@.len() == barrier@.len(),
        forall|i: int|
            #![trigger numbers@[i]]
            0 <= i < numbers@.len() ==> numbers@[i] == component_numbers(
                participants(region_pixels@, barrier@),
                width as int,
            )[i],
        forall|i: int|
            #![trigger numbers@[i]]
            0 <= i < numbers@.len() && (barrier@[i] || !region_pixels@.contains(i as usize))
                ==> numbers@[i] == 0,
{
    let n = barrier.len();
    let mut part: Vec<bool> = Vec::new();
    let mut k: usize = 0;
    while k < n
        invariant
            k <= n,
            part@.len() == k,
            forall|i: int| #![trigger part@[i]] 0 <= i < k ==> !part@[i],
        decreases n - k,
    {
        part.push(false);
        k += 1;
    }
    let ghost goal = participants(region_pixels@, barrier@);
    let mut m: usize = 0;
    while m < region_pixels.len()
        invariant
            m <= region_pixels@.len(),
            n == barrier@.len(),
            part@.len() == n,
            forall|k: int|
                #![trigger region_pixels@[k]]
                0 <= k < region_pixels@.len() ==> region_pixels@[k] < n,
            forall|i: int|
                #![trigger part@[i]]
                0 <= i < n ==> (part@[i] <==> !barrier@[i] && exists|k: int|
                    0 <= k < m && #[trigger] region_pixels@[k] == i),
        decreases region_pixels@.len() - m,
    {
        let i = region_pixels[m];
        let ghost before = part@;
        if !barrier[i] {
            part.set(i, true);
        }
        proof {
            assert forall|q: int| #![trigger part@[q]] 0 <= q < n implies (part@[q]
                <==> !barrier@[q] && exists|k: int|
                0 <= k < m + 1 && #[trigger] region_pixels@[k] == q) by {
                assert(region_pixels@[m as int] == i);
                assert(before[q] <==> !barrier@[q] && exists|k: int|
                    0 <= k < m && #[trigger] region_pixels@[k] == q);
            }
        }
        m += 1;
    }
    proof {
        assert forall|i: int| 0 <= i < n implies part@[i] == goal[i] by {
            if part@[i] {
                let k = choose|k: int|
                    0 <= k < region_pixels@.len() && #[trigger] region_pixels@[k] == i;
                assert(region_pixels@.contains(i as usize));
            }
            if goal[i] {
                let k = choose|k: int|
                    0 <= k < region_pixels@.len() && region_pixels@[k] == i as usize;
                assert(region_pixels@[k] == i);
            }
        }
        assert(part@ =~= goal);
    }
    number_components(&part, width, height)
}

/// Numbers the 4-connected components of the pixels that take part.
#[verifier::rlimit(40)]
pub fn number_components(part: &[bool], width: u32, height: u32) -> (numbers: Vec<usize>)
    requires
        frame(width, height, part@.len() as int),
    ensures
        numbers@.len() == part@.len(),
        forall|i: int|
            #![trigger numbers@[i]]
            0 <= i < numbers@.len() ==> numbers@[i] == component_numbers(part@, width as int)[i],
{
    let n = part.len();
    let w = width as usize;
    let mut uf = Uf::new(n);
    let mut idx: usize = 0;
    while idx < n
        invariant
            idx <= n,
            n == part@.len(),
            w == width,
            frame(width, height, n as int),
            uf.wf(),
            uf@.len() == n,
            uf@ == join_all(n as nat, part_edges(part@, w as int, idx as int)),
        decreases n - idx,
    {
        proof {
            pixel_in_frame(width, height, n as int, idx as int);
        }
        let ghost before = part_edges(part@, w as int, idx as int);
        let ghost mut edges = before;
        if part[idx] && idx % w > 0 && part[idx - 1] {
            uf.union(idx, idx - 1);
            proof {
                edges = before.push((idx as int, idx - 1));
                assert(edges.drop_last() =~= before);
                assert(uf@ == join_all(n as nat, edges));
            }
        }
        let ghost middle = edges;
        if part[idx] && idx >= w && part[idx - w] {
            uf.union(idx, idx - w);
            proof {
                edges = middle.push((idx as int, idx - w));
                assert(edges.drop_last() =~= middle);
                assert(uf@ == join_all(n as nat, edges));
            }
        }
        proof {
            assert(edges == part_edges(part@, w as int, idx + 1));
        }
        idx += 1;
    }
    let (classes, count) = uf.resolve();
    let ghost c = components(part@, w as int);
    proof {
        if n > 0 {
            pixel_in_frame(width, height, n as int, 0);
            components_are_classes(part@, w as int);
        }
    }
    let mut renumber: Vec<Option<usize>> = Vec::new();
    let mut k: usize = 0;
    while k < count
        invariant
            k <= count,
            renumber@.len() == k,
            forall|q: int| #![trigger renumber@[q]] 0 <= q < k ==> renumber@[q] is None,
        decreases count - k,
    {
        renumber.push(None);
        k += 1;
    }
    let mut numbers: Vec<usize> = Vec::new();
    let mut next: usize = 0;
    let mut i: usize = 0;
    while i < n
        invariant
            i <= n,
            n == part@.len(),
            n == c.len(),
            n > 0 ==> w > 0 && is_classes(c),
            c == components(part@, w as int),
            classes@.len() == n,
            count == class_count(c),
            forall|q: int| #![trigger classes@[q]] 0 <= q < n ==> classes@[q] == class_number(c, q),
            renumber@.len() == count,
            numbers@.len() == i,
            next == part_leaders(c, part@, i as int),
            next <= i,
            forall|q: int|
                #![trigger renumber@[q]]
                0 <= q < count && renumber@[q] is Some ==> exists|l: int|
                    #![trigger c[l]]
                    0 <= l < i && part@[l] && c[l] == l && class_number(c, l) == q
                        && renumber@[q]->Some_0 == part_leaders(c, part@, l),
            forall|l: int|
                #![trigger c[l]]
                0 <= l < i && part@[l] && c[l] == l ==> renumber@[class_number(c, l) as int]
                    is Some,
            forall|q: int|
                #![trigger numbers@[q]]
                0 <= q < i ==> numbers@[q] == component_numbers(part@, w as int)[q],
        decreases n - i,
    {
        if part[i] {
            let q = classes[i];
            proof {
                assert(c[i as int] <= i && c[c[i as int]] == c[i as int]);
                class_numbers_dense(c, i as int, c[i as int]);
                leader_takes_part(part@, w as int, i as int);
            }
            let ghost before = renumber@;
            let number: usize = match renumber[q] {
                Some(v) => {
                    proof {
                        let l = choose|l: int|
                            #![trigger c[l]]
                            0 <= l < i && part@[l] && c[l] == l && class_number(c, l) == q && v
                                == part_leaders(c, part@, l);
                        class_numbers_dense(c, i as int, l);
                    }
                    v
                },
                None => {
                    proof {
                        assert(c[i as int] == i);
                    }
                    renumber.set(q, Some(next));
                    let v: usize = next;
                    next += 1;
                    v
                },
            };
            numbers.push(number);
            proof {
                assert forall|q2: int|
                    #![trigger renumber@[q2]]
                    0 <= q2 < count && renumber@[q2] is Some implies exists|l: int|
                    #![trigger c[l]]
                    0 <= l < i + 1 && part@[l] && c[l] == l && class_number(c, l) == q2
                        && renumber@[q2]->Some_0 == part_leaders(c, part@, l) by {
                    if before[q2] is Some {
                        let l = choose|l: int|
                            #![trigger c[l]]
                            0 <= l < i && part@[l] && c[l] == l && class_number(c, l) == q2
                                && before[q2]->Some_0 == part_leaders(c, part@, l);
                        assert(c[l] == l);
                    } else {
                        assert(c[i as int] == i);
                    }
                }
                assert forall|l: int|
                    #![trigger c[l]]
                    0 <= l < i + 1 && part@[l] && c[l] == l implies renumber@[class_number(
                    c,
                    l,
                ) as int] is Some by {
                    class_numbers_dense(c, l, i as int);
                }
            }
        } else {
            numbers.push(0);
        }
        i += 1;
    }
    numbers
}

} // verus!
