//! Flooding an image from seed pixels, step by step over open links.

use vstd::prelude::*;
use crate::region::{beside, frame, neighbour_coordinates, pixel_in_frame};

verus! {

/// `open` tells for every two pixels of an image of `n` whether the flood may
/// pass.
pub open spec fn answers<F: Fn(usize, usize) -> bool>(
    open: F,
    gate: spec_fn(int, int) -> bool,
    n: int,
) -> bool {
    &&& forall|i: usize, j: usize| i < n && j < n ==> #[trigger] call_requires(open, (i, j))
    &&& forall|i: usize, j: usize, r: bool| #[trigger]
        call_ensures(open, (i, j), r) ==> r == gate(i as int, j as int)
}

/// The flood passes from pixel `i` to its neighbour `j`.
pub open spec fn passes(
    gate: spec_fn(int, int) -> bool,
    w: int,
    n: int,
    i: int,
    j: int,
) -> bool {
    beside(w, n, i, j) && gate(i, j)
}

/// `walk` leads from a seed to pixel `i`, each step to a neighbour the flood
/// passes to.
pub open spec fn is_walk(
    seeds: Seq<bool>,
    gate: spec_fn(int, int) -> bool,
    w: int,
    walk: Seq<int>,
    i: int,
) -> bool {
    &&& walk.len() > 0
    &&& 0 <= walk[0] < seeds.len()
    &&& seeds[walk[0]]
    &&& walk.last() == i
    &&& forall|k: int|
        #![trigger walk[k]]
        0 < k < walk.len() ==> passes(gate, w, seeds.len() as int, walk[k - 1], walk[k])
}

/// The flood reaches pixel `i`.
pub open spec fn reached(
    seeds: Seq<bool>,
    gate: spec_fn(int, int) -> bool,
    w: int,
    i: int,
) -> bool {
    exists|walk: Seq<int>| is_walk(seeds, gate, w, walk, i)
}

/// A seed is reached.
pub proof fn seed_reached(seeds: Seq<bool>, gate: spec_fn(int, int) -> bool, w: int, i: int)
    requires
        0 <= i < seeds.len(),
        seeds[i],
    ensures
        reached(seeds, gate, w, i),
{
    assert(is_walk(seeds, gate, w, seq![i], i));
}

/// From a reached pixel the flood reaches every neighbour it passes to.
pub proof fn reached_spreads(
    seeds: Seq<bool>,
    gate: spec_fn(int, int) -> bool,
    w: int,
    i: int,
    j: int,
)
    requires
        reached(seeds, gate, w, i),
        passes(gate, w, seeds.len() as int, i, j),
    ensures
        reached(seeds, gate, w, j),
{
    let walk = choose|walk: Seq<int>| is_walk(seeds, gate, w, walk, i);
    let longer = walk.push(j);
    assert forall|k: int| #![trigger longer[k]] 0 < k < longer.len() implies passes(
        gate,
        w,
        seeds.len() as int,
        longer[k - 1],
        longer[k],
    ) by {
        if k < walk.len() {
            assert(longer[k] == walk[k] && longer[k - 1] == walk[k - 1]);
        }
    }
    assert(is_walk(seeds, gate, w, longer, j));
}

/// The flood is the least set of pixels that holds the seeds and every neighbour
/// it passes to: any other such set contains it.
pub proof fn flood_is_least(
    seeds: Seq<bool>,
    gate: spec_fn(int, int) -> bool,
    w: int,
    mask: Seq<bool>,
    i: int,
)
    requires
        mask.len() == seeds.len(),
        forall|k: int| #![trigger seeds[k]] 0 <= k < seeds.len() && seeds[k] ==> mask[k],
        forall|k: int, m: int| #[trigger]
            passes(gate, w, seeds.len() as int, k, m) && mask[k] ==> mask[m],
        reached(seeds, gate, w, i),
    ensures
        0 <= i < seeds.len(),
        mask[i],
{
    let walk = choose|walk: Seq<int>| is_walk(seeds, gate, w, walk, i);
    walk_stays(seeds, gate, w, mask, walk, walk.len() as int);
    assert(walk[walk.len() - 1] == i);
}

proof fn walk_stays(
    seeds: Seq<bool>,
    gate: spec_fn(int, int) -> bool,
    w: int,
    mask: Seq<bool>,
    walk: Seq<int>,
    k: int,
)
    requires
        mask.len() == seeds.len(),
        forall|k: int| #![trigger seeds[k]] 0 <= k < seeds.len() && seeds[k] ==> mask[k],
        forall|k: int, m: int| #[trigger]
            passes(gate, w, seeds.len() as int, k, m) && mask[k] ==> mask[m],
        is_walk(seeds, gate, w, walk, walk.last()),
        0 <= k <= walk.len(),
    ensures
        forall|m: int|
            #![trigger walk[m]]
            0 <= m < k ==> 0 <= walk[m] < seeds.len() && mask[walk[m]],
    decreases k,
{
    if k > 0 {
        walk_stays(seeds, gate, w, mask, walk, k - 1);
        if k > 1 {
            assert(passes(gate, w, seeds.len() as int, walk[k - 2], walk[k - 1]));
        }
    }
}

spec fn no_repeats(q: Seq<usize>) -> bool {
    forall|a: int, b: int| #![trigger q[a], q[b]] 0 <= a < b < q.len() ==> q[a] != q[b]
}

proof fn short_queue(q: Seq<usize>, n: int)
    requires
        no_repeats(q),
        forall|a: int| #![trigger q[a]] 0 <= a < q.len() ==> q[a] < n,
        0 <= n,
    ensures
        q.len() <= n,
{
    let s = q.to_set();
    q.unique_seq_to_set();
    let f = |k: usize| k as int;
    let mapped = s.map(f);
    let ints = vstd::set_lib::set_int_range(0, n);
    vstd::set_lib::lemma_int_range(0, n);
    vstd::set_lib::lemma_map_size(s, mapped, f);
    assert(mapped.subset_of(ints)) by {
        assert forall|x: int| mapped.contains(x) implies ints.contains(x) by {
            let k = choose|k: usize| s.contains(k) && k as int == x;
            let a = choose|a: int| 0 <= a < q.len() && q[a] == k;
            assert(q[a] == k);
        }
    }
    vstd::set_lib::lemma_len_subset(mapped, ints);
}

/// The flood in progress: every queued pixel is marked and reached, and the
/// pixels before `head` have passed the flood on.
spec fn flooding(
    seeds: Seq<bool>,
    gate: spec_fn(int, int) -> bool,
    w: int,
    mask: Seq<bool>,
    queue: Seq<usize>,
    head: int,
) -> bool {
    &&& mask.len() == seeds.len()
    &&& 0 <= head <= queue.len()
    &&& no_repeats(queue)
    &&& forall|a: int|
        #![trigger queue[a]]
        0 <= a < queue.len() ==> queue[a] < mask.len() && mask[queue[a] as int] && reached(
            seeds,
            gate,
            w,
            queue[a] as int,
        )
    &&& forall|i: int|
        #![trigger mask[i]]
        0 <= i < mask.len() && mask[i] ==> queue.contains(i as usize)
    &&& forall|a: int, j: int|
        #![trigger queue[a], mask[j]]
        0 <= a < head && passes(gate, w, seeds.len() as int, queue[a] as int, j) ==> mask[j]
}

/// Tries to pass the flood on to pixel `j`.
fn spread<F: Fn(usize, usize) -> bool>(
    open: &F,
    i: usize,
    j: usize,
    mask: &mut Vec<bool>,
    queue: &mut Vec<usize>,
    Ghost(seeds): Ghost<Seq<bool>>,
    Ghost(gate): Ghost<spec_fn(int, int) -> bool>,
    Ghost(w): Ghost<int>,
    Ghost(head): Ghost<int>,
)
    requires
        answers(*open, gate, seeds.len() as int),
        beside(w, seeds.len() as int, i as int, j as int),
        reached(seeds, gate, w, i as int),
        flooding(seeds, gate, w, old(mask)@, old(queue)@, head),
    ensures
        flooding(seeds, gate, w, final(mask)@, final(queue)@, head),
        passes(gate, w, seeds.len() as int, i as int, j as int) ==> final(mask)@[j as int],
        forall|k: int|
            #![trigger final(mask)@[k]]
            0 <= k < seeds.len() && old(mask)@[k] ==> final(mask)@[k],
        old(queue)@.len() <= final(queue)@.len(),
        forall|a: int|
            #![trigger final(queue)@[a]]
            0 <= a < old(queue)@.len() ==> final(queue)@[a] == old(queue)@[a],
{
    if mask[j] {
        return;
    }
    let yes = (*open)(i, j);
    if yes {
        let ghost mask0 = mask@;
        let ghost queue0 = queue@;
        mask.set(j, true);
        queue.push(j);
        proof {
            assert(passes(gate, w, seeds.len() as int, i as int, j as int));
            reached_spreads(seeds, gate, w, i as int, j as int);
            assert forall|k: int|
                #![trigger mask@[k]]
                0 <= k < mask@.len() && mask@[k] implies queue@.contains(k as usize) by {
                if k == j {
                    assert(queue@[queue@.len() - 1] == j);
                } else {
                    assert(mask0[k]);
                    let a = choose|a: int| 0 <= a < queue0.len() && queue0[a] == k as usize;
                    assert(queue@[a] == k as usize);
                }
            }
            assert forall|a: int, b: int|
                #![trigger queue@[a], queue@[b]]
                0 <= a < b < queue@.len() implies queue@[a] != queue@[b] by {
                if b == queue0.len() {
                    assert(queue0[a] == queue@[a]);
                    assert(mask0[queue0[a] as int]);
                } else {
                    assert(queue0[a] == queue@[a] && queue0[b] == queue@[b]);
                }
            }
            assert forall|a: int|
                #![trigger queue@[a]]
                0 <= a < queue@.len() implies queue@[a] < mask@.len() && mask@[queue@[a] as int]
                && reached(seeds, gate, w, queue@[a] as int) by {
                if a < queue0.len() {
                    assert(queue0[a] == queue@[a]);
                }
            }
            assert forall|a: int, k: int|
                #![trigger queue@[a], mask@[k]]
                0 <= a < head && passes(
                    gate,
                    w,
                    seeds.len() as int,
                    queue@[a] as int,
                    k,
                ) implies mask@[k] by {
                assert(queue0[a] == queue@[a]);
                assert(mask0[k]);
            }
        }
    }
}

/// Floods the image from the seeds: marks every pixel that the flood reaches,
/// passing from a pixel to a neighbour where it may.
pub(crate) fn flood<F: Fn(usize, usize) -> bool>(
    seeds: &[bool],
    width: u32,
    height: u32,
    open: &F,
    Ghost(gate): Ghost<spec_fn(int, int) -> bool>,
) -> (mask: Vec<bool>)
    requires
        frame(width, height, seeds@.len() as int),
        answers(*open, gate, seeds@.len() as int),
    ensures
        mask@.len() == seeds@.len(),
        forall|i: int|
            #![trigger mask@[i]]
            0 <= i < mask@.len() ==> (mask@[i] <==> reached(seeds@, gate, width as int, i)),
{
    let n = seeds.len();
    let wu = width as usize;
    let ghost w = width as int;
    let mut mask: Vec<bool> = Vec::new();
    let mut queue: Vec<usize> = Vec::new();
    let mut i: usize = 0;
    while i < n
        invariant
            i <= n,
            n == seeds@.len(),
            mask@.len() == i,
            forall|k: int| #![trigger mask@[k]] 0 <= k < i ==> mask@[k] == seeds@[k],
            no_repeats(queue@),
            forall|a: int|
                #![trigger queue@[a]]
                0 <= a < queue@.len() ==> queue@[a] < i && seeds@[queue@[a] as int],
            forall|k: int|
                #![trigger mask@[k]]
                0 <= k < i && mask@[k] ==> queue@.contains(k as usize),
        decreases n - i,
    {
        let ghost queue0 = queue@;
        mask.push(seeds[i]);
        if seeds[i] {
            queue.push(i);
        }
        proof {
            assert forall|k: int|
                #![trigger mask@[k]]
                0 <= k < i + 1 && mask@[k] implies queue@.contains(k as usize) by {
                if k < i {
                    let a = choose|a: int| 0 <= a < queue0.len() && queue0[a] == k as usize;
                    assert(queue@[a] == k as usize);
                } else {
                    assert(queue@[queue@.len() - 1] == k as usize);
                }
            }
        }
        i += 1;
    }
    proof {
        assert forall|a: int| #![trigger queue@[a]] 0 <= a < queue@.len() implies reached(
            seeds@,
            gate,
            w,
            queue@[a] as int,
        ) by {
            seed_reached(seeds@, gate, w, queue@[a] as int);
        }
    }
    let mut head: usize = 0;
    while head < queue.len()
        invariant
            n == seeds@.len(),
            wu == width,
            w == width,
            frame(width, height, n as int),
            answers(*open, gate, n as int),
            flooding(seeds@, gate, w, mask@, queue@, head as int),
            forall|k: int| #![trigger seeds@[k]] 0 <= k < n && seeds@[k] ==> mask@[k],
        decreases n - head,
    {
        proof {
            short_queue(queue@, n as int);
        }
        let c = queue[head];
        let ghost start = mask@;
        let ghost queue0 = queue@;
        proof {
            neighbour_coordinates(width, height, n as int, c as int);
            pixel_in_frame(width, height, n as int, c as int);
        }
        if c >= wu {
            spread(open, c, c - wu, &mut mask, &mut queue, Ghost(seeds@), Ghost(gate), Ghost(w), Ghost(head as int));
        }
        let ghost m1 = mask@;
        if wu < n - c {
            spread(open, c, c + wu, &mut mask, &mut queue, Ghost(seeds@), Ghost(gate), Ghost(w), Ghost(head as int));
        }
        let ghost m2 = mask@;
        if c % wu > 0 {
            spread(open, c, c - 1, &mut mask, &mut queue, Ghost(seeds@), Ghost(gate), Ghost(w), Ghost(head as int));
        }
        let ghost m3 = mask@;
        if c % wu + 1 < wu {
            spread(open, c, c + 1, &mut mask, &mut queue, Ghost(seeds@), Ghost(gate), Ghost(w), Ghost(head as int));
        }
        proof {
            assert(queue@[head as int] == c);
            assert forall|k: int| #![trigger seeds@[k]] 0 <= k < n && seeds@[k] implies mask@[k] by {
                assert(start[k]);
                assert(m1[k]);
                assert(m2[k]);
                assert(m3[k]);
            }
            assert forall|a: int, j: int|
                #![trigger queue@[a], mask@[j]]
                0 <= a < head + 1 && passes(
                    gate,
                    w,
                    n as int,
                    queue@[a] as int,
                    j,
                ) implies mask@[j] by {
                if a == head {
                    if j == c - wu {
                        assert(m1[j]);
                        assert(m2[j]);
                        assert(m3[j]);
                    } else if j == c + wu {
                        assert(m2[j]);
                        assert(m3[j]);
                    } else if j == c - 1 {
                        assert(m3[j]);
                    }
                }
            }
        }
        head += 1;
    }
    proof {
        assert forall|k: int, m: int| #[trigger]
            passes(gate, w, n as int, k, m) && mask@[k] implies mask@[m] by {
            assert(queue@.contains(k as usize));
            let a = choose|a: int| 0 <= a < queue@.len() && queue@[a] == k as usize;
            assert(queue@[a] == k);
            assert(mask@[m] == mask@[m]);
        }
        assert forall|i: int| #![trigger mask@[i]] 0 <= i < n implies (mask@[i] <==> reached(
            seeds@,
            gate,
            w,
            i,
        )) by {
            if reached(seeds@, gate, w, i) {
                flood_is_least(seeds@, gate, w, mask@, i);
            }
            if mask@[i] {
                assert(queue@.contains(i as usize));
                let a = choose|a: int| 0 <= a < queue@.len() && queue@[a] == i as usize;
                assert(reached(seeds@, gate, w, queue@[a] as int));
            }
        }
    }
    mask
}

} // verus!
